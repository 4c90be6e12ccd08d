use cell_tower::{Point, PointSet};

fn p(x: u8, y: u8) -> Point {
    Point::new(x, y)
}

fn set(points: &[Point]) -> PointSet {
    PointSet::from(points)
}

#[test]
fn one_point() {
    let set: PointSet = PointSet::from([p(1, 1)].as_slice());
    assert!(set.connectable());
    assert!(set.contiguous());
}

#[test]
fn pair_point() {
    let set: PointSet = PointSet::from([p(1, 1), p(1, 2)].as_slice());
    assert!(set.connectable());
    assert!(set.contiguous());
}

#[test]
fn case_0() {
    let set: PointSet = PointSet::from([p(1, 1), p(3, 1), p(2, 2)].as_slice());
    assert!(!set.connectable());
    assert!(!set.contiguous());
}

#[test]
fn point_new_keeps_coordinates() {
    let a = p(3, 9);
    assert_eq!(a.x, 3);
    assert_eq!(a.y, 9);
}

#[test]
fn point_neighbours() {
    let a = p(3, 4);
    assert_eq!(a.left(), Some(p(2, 4)));
    assert_eq!(a.right(), Some(p(4, 4)));
    assert_eq!(a.above(), Some(p(3, 3)));
    assert_eq!(a.below(), Some(p(3, 5)));
}

#[test]
fn point_neighbours_at_the_rim() {
    assert_eq!(p(0, 5).left(), None);
    assert_eq!(p(5, 0).above(), None);
    assert_eq!(p(255, 5).right(), None);
    assert_eq!(p(5, 255).below(), None);
    assert_eq!(p(6, 5).right(), Some(p(7, 5)));
    assert_eq!(p(5, 11).below(), Some(p(5, 12)));
}

#[test]
fn point_on_edge() {
    let last = p(3, 2);
    assert!(p(3, 2).on_edge(&last));
    assert!(p(0, 2).on_edge(&last));
    assert!(!p(4, 2).on_edge(&last));
    assert!(p(4, 1).on_edge(&last));
    assert!(p(6, 1).on_edge(&last));
    assert!(!p(3, 1).on_edge(&last));
    assert!(!p(4, 0).on_edge(&last));
    assert!(!p(0, 3).on_edge(&last));
    assert!(!p(9, 255).on_edge(&p(0, 0)));
}

#[test]
fn point_is_beyond() {
    assert!(p(0, 1).is_beyond(&p(6, 0)));
    assert!(p(3, 1).is_beyond(&p(2, 1)));
    assert!(!p(2, 1).is_beyond(&p(2, 1)));
    assert!(!p(6, 0).is_beyond(&p(0, 1)));
}

#[test]
fn point_set_new_push_length() {
    let mut path = PointSet::new(p(2, 0));
    assert_eq!(path.length(), 1);
    assert_eq!(path.last_point(), p(2, 0));
    path.push(p(4, 0));
    path.push(p(1, 1));
    assert_eq!(path.length(), 3);
    assert_eq!(path.last_point(), p(1, 1));
    assert_eq!(path.get(1), p(4, 0));
    assert_eq!(path.to_vec(), vec![p(2, 0), p(4, 0), p(1, 1)]);
}

#[test]
fn point_set_from_keeps_order() {
    let path = set(&[p(5, 5), p(1, 1), p(3, 3)]);
    assert_eq!(path.to_vec(), vec![p(5, 5), p(1, 1), p(3, 3)]);
}

#[test]
fn point_set_clone_is_independent() {
    let path = set(&[p(0, 0), p(1, 0)]);
    let mut copy = path.clone();
    copy.push(p(2, 0));
    assert_eq!(path.length(), 2);
    assert_eq!(copy.length(), 3);
    assert_eq!(copy.to_vec(), vec![p(0, 0), p(1, 0), p(2, 0)]);
}

#[test]
fn contiguous_full_length_row() {
    let path = set(&[p(0, 0), p(1, 0), p(2, 0), p(3, 0), p(4, 0), p(5, 0), p(6, 0), p(7, 0)]);
    assert!(path.contiguous());
    assert!(path.connectable());
}

#[test]
fn contiguous_past_column_six_and_row_eleven() {
    // Adjacency does not stop at column 6 or row 11.
    assert!(set(&[p(6, 0), p(7, 0)]).contiguous());
    assert!(set(&[p(7, 0), p(6, 0)]).contiguous());
    assert!(set(&[p(3, 11), p(3, 12)]).contiguous());
}

#[test]
fn contiguous_rejects_diagonal() {
    assert!(!set(&[p(1, 1), p(2, 2)]).contiguous());
    assert!(!set(&[p(2, 1), p(1, 2)]).contiguous());
}

#[test]
fn contiguous_rejects_repeated_cell() {
    assert!(!set(&[p(1, 1), p(1, 1)]).contiguous());
    assert!(!set(&[p(1, 1), p(1, 2), p(1, 1)]).contiguous());
}

#[test]
fn gap_in_row_is_connectable_but_not_contiguous() {
    let path = set(&[p(0, 0), p(2, 0)]);
    assert!(!path.contiguous());
    assert!(path.connectable());
    // and the row below can close the gap
    let closed = set(&[p(0, 0), p(2, 0), p(0, 1), p(1, 1), p(2, 1)]);
    assert!(closed.contiguous());
    assert!(closed.connectable());
}

#[test]
fn cell_left_behind_is_not_connectable() {
    // (0,0) can never be reached again once the path stands in row 2.
    let path = set(&[p(0, 0), p(2, 0), p(2, 1), p(2, 2)]);
    assert!(!path.connectable());
    assert!(!path.contiguous());
}

#[test]
fn connectable_with_repeated_cell_on_the_edge() {
    let path = set(&[p(1, 1), p(1, 1)]);
    assert!(path.connectable());
    let off_edge = set(&[p(1, 0), p(1, 0), p(1, 1)]);
    assert!(!off_edge.connectable());
}

fn permutations(items: &[Point]) -> Vec<Vec<Point>> {
    if items.len() <= 1 {
        return vec![items.to_vec()];
    }
    let mut all = Vec::new();
    for i in 0..items.len() {
        let mut rest = items.to_vec();
        let head = rest.remove(i);
        for mut tail in permutations(&rest) {
            tail.insert(0, head);
            all.push(tail);
        }
    }
    all
}

#[test]
fn contiguous_ignores_order() {
    let connected = [p(1, 1), p(2, 1), p(2, 2), p(3, 2), p(3, 3)];
    for order in permutations(&connected) {
        assert!(set(&order).contiguous());
    }
    let split = [p(1, 1), p(3, 1), p(2, 2), p(3, 2)];
    for order in permutations(&split) {
        assert!(!set(&order).contiguous());
    }
}

fn grows(from: Point, to: Point) -> bool {
    (to.y == from.y && to.x > from.x) || (to.y == from.y + 1 && to.x <= from.x)
}

fn extend_all(path: &mut Vec<Point>, width: u8, height: u8, max_len: usize, out: &mut Vec<Vec<Point>>) {
    out.push(path.clone());
    if path.len() == max_len {
        return;
    }
    let last = *path.last().unwrap();
    for y in 0..height {
        for x in 0..width {
            let next = p(x, y);
            if grows(last, next) {
                path.push(next);
                extend_all(path, width, height, max_len, out);
                path.pop();
            }
        }
    }
}

#[test]
fn pruning_never_rejects_a_path_that_can_become_contiguous() {
    // Every growth path of up to 8 cells on a 4 x 3 grid, from every start.
    let mut paths = Vec::new();
    for y in 0..3 {
        for x in 0..4 {
            extend_all(&mut vec![p(x, y)], 4, 3, 8, &mut paths);
        }
    }
    assert!(paths.len() > 1000);
    let contiguous: Vec<&Vec<Point>> =
        paths.iter().filter(|path| set(path).contiguous()).collect();
    let mut pruned = 0;
    for path in &paths {
        if !set(path).connectable() {
            pruned += 1;
            for full in &contiguous {
                assert!(!(full.len() >= path.len() && full[..path.len()] == path[..]));
            }
        }
    }
    assert!(pruned > 0);
}

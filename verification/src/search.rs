//! The search: which words can be placed next, and which placements fill the
//! grid.

use crate::board::{Board, Grid, MAX_SIDE};
use crate::connectivity::{
    comes_after, grows_to, is_connectable, is_contiguous, is_growth_path,
    lemma_connectable_keeps_contiguous,
};
use crate::dictionary::{first_node, Node};
use crate::point::{Point, PointSet, MAX_WORD_LEN};
use vstd::prelude::*;

verus! {

/// The letters in the cells of `cells`, in their order.
pub open spec fn spelled(g: Grid, cells: Seq<Point>) -> Seq<u8> {
    Seq::new(cells.len(), |k: int| g.letter(cells[k]))
}

/// `word` is a word that begins with `path`: it continues `path` under the
/// growth rule through free cells of the grid, the letters of that
/// continuation lead from `node` to a word of the dictionary, and the
/// whole is contiguous and no longer than the longest word.
pub open spec fn is_word_through(g: Grid, node: Node, path: Seq<Point>, word: Seq<Point>) -> bool {
    &&& path.is_prefix_of(word)
    &&& word.len() <= MAX_WORD_LEN
    &&& is_growth_path(word)
    &&& forall|k: int|
        path.len() <= k < word.len() ==> g.in_bounds(#[trigger] word[k]) && g.owner(word[k])
            is None
    &&& node.contains(spelled(g, word.skip(path.len() as int)))
    &&& is_contiguous(word)
}

/// `a` comes before `b` in the order of the search: `a` is the beginning of
/// `b` and shorter, or where the two first differ the cell of `a` comes first
/// in row-major order.
pub open spec fn path_before(a: Seq<Point>, b: Seq<Point>) -> bool {
    exists|k: int|
        0 <= k <= a.len() && k < b.len() && #[trigger] a.subrange(0, k) == b.subrange(0, k) && (k
            < a.len() ==> comes_after(b[k], a[k]))
}

/// From position `from` on, each path of `list` comes before those that
/// follow it.
pub open spec fn ascending(list: Seq<PointSet>, from: int) -> bool {
    forall|i: int, j: int|
        from <= i < j < list.len() ==> path_before((#[trigger] list[i])@, (#[trigger] list[j])@)
}

/// `c` comes before column `col` of row `row` in row-major order.
pub open spec fn precedes(c: Point, row: int, col: int) -> bool {
    c.y < row || (c.y == row && c.x < col)
}

/// `word` stands in `list` at or after position `from`.
pub open spec fn listed(list: Seq<PointSet>, from: int, word: Seq<Point>) -> bool {
    exists|i: int| from <= i < list.len() && (#[trigger] list[i])@ == word
}

/// From position `from` on, `list` holds words that begin with `path` only,
/// in the order of the search.
#[verifier::opaque]
pub open spec fn lists_words(
    g: Grid,
    node: Node,
    path: Seq<Point>,
    list: Seq<PointSet>,
    from: int,
) -> bool {
    &&& forall|i: int|
        from <= i < list.len() ==> is_word_through(g, node, path, (#[trigger] list[i])@)
    &&& ascending(list, from)
}

/// From position `from` on, `list` holds every word that begins with `path`
/// and goes on, if it goes on, with a cell before column `col` of row `row`,
/// and no word that goes on with another cell.
#[verifier::opaque]
pub open spec fn lists_all_before(
    g: Grid,
    node: Node,
    path: Seq<Point>,
    list: Seq<PointSet>,
    from: int,
    row: int,
    col: int,
) -> bool {
    &&& forall|word: Seq<Point>| #[trigger]
        is_word_through(g, node, path, word) && (word.len() > path.len() ==> precedes(
            word[path.len() as int],
            row,
            col,
        )) ==> listed(list, from, word)
    &&& forall|i: int|
        from <= i < list.len() && (#[trigger] list[i])@.len() > path.len() ==> precedes(
            list[i]@[path.len() as int],
            row,
            col,
        )
}

/// From position `from` on, `list` holds every word that begins with `path`.
#[verifier::opaque]
pub open spec fn lists_all(
    g: Grid,
    node: Node,
    path: Seq<Point>,
    list: Seq<PointSet>,
    from: int,
) -> bool {
    forall|word: Seq<Point>| #[trigger]
        is_word_through(g, node, path, word) ==> listed(list, from, word)
}

/// The words that begin with `path` and go on with the cell `c` are the
/// words that begin with `path` and `c`, read from the child node of the
/// letter in `c`.
pub proof fn lemma_words_through_cell(
    g: Grid,
    node: Node,
    child: Node,
    path: Seq<Point>,
    c: Point,
    word: Seq<Point>,
)
    requires
        node.child(g.letter(c)) == Some(child),
        g.in_bounds(c),
        g.owner(c) is None,
    ensures
        is_word_through(g, child, path.push(c), word) == (is_word_through(g, node, path, word)
            && word.len() > path.len() && word[path.len() as int] == c),
{
    let n = path.len() as int;
    if word.len() > n && word[n] == c {
        let tail = spelled(g, word.skip(n));
        assert(tail[0] == g.letter(c));
        assert(tail.drop_first() =~= spelled(g, word.skip(n + 1)));
        if path.is_prefix_of(word) {
            assert(path.push(c) =~= word.subrange(0, n + 1));
        }
        if path.push(c).is_prefix_of(word) {
            assert(path =~= word.subrange(0, n)) by {
                assert(path =~= path.push(c).subrange(0, n));
            }
        }
    } else if path.push(c).is_prefix_of(word) {
        assert(path.push(c)[n] == word.subrange(0, n + 1)[n]);
    }
}

/// A word that goes on with the cell `c` shows that `c` is free and that the
/// node has a child for the letter in `c`.
pub proof fn lemma_word_needs_cell(
    g: Grid,
    node: Node,
    path: Seq<Point>,
    c: Point,
    word: Seq<Point>,
)
    requires
        is_word_through(g, node, path, word),
        word.len() > path.len(),
        word[path.len() as int] == c,
    ensures
        g.in_bounds(c),
        g.owner(c) is None,
        node.child(g.letter(c)) is Some,
{
    let tail = spelled(g, word.skip(path.len() as int));
    assert(tail[0] == g.letter(c));
}

/// `word` can be placed next: it begins at the first free cell, runs under
/// the growth rule through free cells, spells a word of the dictionary, is
/// contiguous and no longer than the longest word.
pub open spec fn is_next_word(g: Grid, dict: Node, word: Seq<Point>) -> bool {
    &&& 0 < word.len() <= MAX_WORD_LEN
    &&& g.is_first_free(word[0])
    &&& is_growth_path(word)
    &&& forall|k: int|
        0 <= k < word.len() ==> g.in_bounds(#[trigger] word[k]) && g.owner(word[k]) is None
    &&& dict.contains(spelled(g, word))
    &&& is_contiguous(word)
}

/// `list` holds the words that can be placed next, each once and in the
/// order of the search, and no others.
#[verifier::opaque]
pub open spec fn lists_next_words(g: Grid, dict: Node, list: Seq<PointSet>) -> bool {
    &&& forall|i: int| 0 <= i < list.len() ==> is_next_word(g, dict, (#[trigger] list[i])@)
    &&& forall|word: Seq<Point>| #[trigger] is_next_word(g, dict, word) ==> listed(list, 0, word)
    &&& ascending(list, 0)
}

/// On a full grid no word can be placed.
proof fn lemma_no_next_word_when_full(g: Grid, dict: Node, list: Seq<PointSet>)
    requires
        g.is_done(),
        list.len() == 0,
    ensures
        lists_next_words(g, dict, list),
{
    reveal(lists_next_words);
    assert forall|word: Seq<Point>| #[trigger] is_next_word(g, dict, word) implies listed(
        list,
        0,
        word,
    ) by {
        assert(g.in_bounds(word[0]) && g.owner(word[0]) is None);
    }
}

/// The words that can be placed next are the words that begin with the first
/// free cell, read from the node of its letter.
proof fn lemma_next_words_from_root(g: Grid, dict: Node, root: Point, list: Seq<PointSet>)
    requires
        g.is_first_free(root),
        match dict.child(g.letter(root)) {
            Some(first) => lists_words(g, first, seq![root], list, 0) && lists_all(
                g,
                first,
                seq![root],
                list,
                0,
            ),
            None => list.len() == 0,
        },
    ensures
        lists_next_words(g, dict, list),
{
    reveal(lists_next_words);
    reveal(lists_words);
    reveal(lists_all);
    let none = Seq::<Point>::empty();
    assert(none.push(root) =~= seq![root]);
    assert forall|word: Seq<Point>| #[trigger] is_next_word(g, dict, word) implies listed(
        list,
        0,
        word,
    ) by {
        assert(word.skip(0) =~= word);
        assert(none =~= word.subrange(0, 0));
        assert(is_word_through(g, dict, none, word));
        assert(word[0] == root);
        lemma_word_needs_cell(g, dict, none, root, word);
        lemma_words_through_cell(g, dict, dict.child(g.letter(root))->0, none, root, word);
    }
    assert forall|i: int| 0 <= i < list.len() implies is_next_word(g, dict, (#[trigger] list[i])@) by {
        let word = list[i]@;
        let first = dict.child(g.letter(root))->0;
        assert(is_word_through(g, first, seq![root], word));
        lemma_words_through_cell(g, dict, first, none, root, word);
        assert(word.skip(0) =~= word);
    }
}

/// The words of `words`, placed one after the other, fill the grid: each of
/// them can be placed next when its turn comes, and after the last of them no
/// cell is free.
pub open spec fn fills(g: Grid, dict: Node, words: Seq<Seq<Point>>) -> bool
    decreases words.len(),
{
    if words.len() == 0 {
        g.is_done()
    } else {
        is_next_word(g, dict, words[0]) && fills(g.insert(words[0]), dict, words.drop_first())
    }
}

/// `sol` is a way to fill the grid `g`: what `g` becomes when some sequence
/// of words that fills it has been placed.
pub open spec fn is_solution(g: Grid, dict: Node, sol: Grid) -> bool {
    exists|words: Seq<Seq<Point>>| #[trigger] fills(g, dict, words) && g.insert_all(words) == sol
}

/// The filling `a` comes before the filling `b` in the order of the search:
/// where the two first differ, the word of `a` comes before the word of `b`.
pub open spec fn placement_before(a: Seq<Seq<Point>>, b: Seq<Seq<Point>>) -> bool {
    exists|k: int|
        0 <= k < a.len() && k < b.len() && #[trigger] a.subrange(0, k) == b.subrange(0, k)
            && path_before(a[k], b[k])
}

/// `words` fills the grid, and every other sequence of words that fills it
/// comes later in the order of the search.
pub open spec fn is_first_filling(g: Grid, dict: Node, words: Seq<Seq<Point>>) -> bool {
    &&& fills(g, dict, words)
    &&& forall|other: Seq<Seq<Point>>| #[trigger]
        fills(g, dict, other) ==> other == words || placement_before(words, other)
}

/// `sol` is what the first filling of the grid `g` makes of it.
pub open spec fn is_first_solution(g: Grid, dict: Node, sol: Grid) -> bool {
    exists|words: Seq<Seq<Point>>| #[trigger]
        is_first_filling(g, dict, words) && g.insert_all(words) == sol
}

/// A word that can be placed next can be inserted.
pub proof fn lemma_next_word_can_insert(g: Grid, dict: Node, word: Seq<Point>)
    requires
        is_next_word(g, dict, word),
    ensures
        g.can_insert(word),
        !g.is_done(),
{
    crate::connectivity::lemma_growth_path_distinct(word);
    assert(g.in_bounds(word[0]) && g.owner(word[0]) is None);
}

/// A full grid is its own and only solution; any other grid is filled by
/// placing a next word and filling what that leaves.
pub proof fn lemma_solution_unfolds(g: Grid, dict: Node, sol: Grid)
    ensures
        g.is_done() ==> is_solution(g, dict, sol) == (sol == g),
        !g.is_done() ==> is_solution(g, dict, sol) == exists|word: Seq<Point>| #[trigger]
            is_next_word(g, dict, word) && is_solution(g.insert(word), dict, sol),
{
    let none = Seq::<Seq<Point>>::empty();
    if g.is_done() {
        assert(fills(g, dict, none) && g.insert_all(none) == g);
        if is_solution(g, dict, sol) {
            let words = choose|words: Seq<Seq<Point>>| #[trigger]
                fills(g, dict, words) && g.insert_all(words) == sol;
            if words.len() > 0 {
                lemma_next_word_can_insert(g, dict, words[0]);
            }
        }
    } else {
        if is_solution(g, dict, sol) {
            let words = choose|words: Seq<Seq<Point>>| #[trigger]
                fills(g, dict, words) && g.insert_all(words) == sol;
            let rest = words.drop_first();
            assert(fills(g.insert(words[0]), dict, rest) && g.insert(words[0]).insert_all(rest)
                == sol);
            assert(is_next_word(g, dict, words[0]) && is_solution(g.insert(words[0]), dict, sol));
        }
        if exists|word: Seq<Point>| #[trigger]
            is_next_word(g, dict, word) && is_solution(g.insert(word), dict, sol) {
            let word = choose|word: Seq<Point>| #[trigger]
                is_next_word(g, dict, word) && is_solution(g.insert(word), dict, sol);
            let rest = choose|words: Seq<Seq<Point>>| #[trigger]
                fills(g.insert(word), dict, words) && g.insert(word).insert_all(words) == sol;
            let words = seq![word] + rest;
            assert(words.drop_first() =~= rest);
            assert(fills(g, dict, words) && g.insert_all(words) == sol);
        }
    }
}

/// A solution of a well-formed grid is well-formed and full.
pub proof fn lemma_solution_is_full(g: Grid, dict: Node, words: Seq<Seq<Point>>)
    requires
        g.wf(),
        fills(g, dict, words),
    ensures
        g.insert_all(words).wf(),
        g.insert_all(words).is_done(),
        g.insert_all(words).word_count() == g.word_count() + words.len(),
    decreases words.len(),
{
    if words.len() > 0 {
        lemma_next_word_can_insert(g, dict, words[0]);
        g.lemma_insert(words[0]);
        lemma_solution_is_full(g.insert(words[0]), dict, words.drop_first());
    }
}

/// Placing one of the first `upto` words of `words` leaves a grid that cannot
/// be filled.
#[verifier::opaque]
pub open spec fn none_fills_after(g: Grid, dict: Node, words: Seq<PointSet>, upto: int) -> bool {
    forall|j: int, sol: Grid|
        0 <= j < upto ==> !#[trigger] is_solution(g.insert(words[j]@), dict, sol)
}

/// Where no word that can be placed next leaves a grid that can be filled,
/// the grid cannot be filled.
proof fn lemma_no_word_no_solution(g: Grid, dict: Node, words: Seq<PointSet>)
    requires
        !g.is_done(),
        lists_next_words(g, dict, words),
        none_fills_after(g, dict, words, words.len() as int),
    ensures
        forall|sol: Grid| !is_solution(g, dict, sol),
{
    reveal(lists_next_words);
    reveal(none_fills_after);
    assert forall|sol: Grid| !is_solution(g, dict, sol) by {
        lemma_solution_unfolds(g, dict, sol);
        if is_solution(g, dict, sol) {
            let word = choose|word: Seq<Point>| #[trigger]
                is_next_word(g, dict, word) && is_solution(g.insert(word), dict, sol);
            assert(listed(words, 0, word));
            let j = choose|j: int| 0 <= j < words.len() && (#[trigger] words[j])@ == word;
            assert(!is_solution(g.insert(words[j]@), dict, sol));
        }
    }
}

/// A full grid is filled by placing nothing, and in no other way.
proof fn lemma_full_grid_filling(g: Grid, dict: Node)
    requires
        g.is_done(),
    ensures
        is_first_filling(g, dict, Seq::empty()),
        is_first_solution(g, dict, g),
{
    let none = Seq::<Seq<Point>>::empty();
    assert forall|other: Seq<Seq<Point>>| #[trigger] fills(g, dict, other) implies other == none
        || placement_before(none, other) by {
        if other.len() > 0 {
            lemma_next_word_can_insert(g, dict, other[0]);
        }
        assert(other =~= none);
    }
    assert(is_first_filling(g, dict, none) && g.insert_all(none) == g);
}

/// Where no earlier word leaves a grid that can be filled, the first filling
/// of the grid begins with the word at position `i`, and goes on as the first
/// filling of the grid that this word leaves.
proof fn lemma_first_solution_step(g: Grid, dict: Node, words: Seq<PointSet>, i: int, sol: Grid)
    requires
        0 <= i < words.len(),
        lists_next_words(g, dict, words),
        none_fills_after(g, dict, words, i),
        is_first_solution(g.insert(words[i]@), dict, sol),
    ensures
        is_first_solution(g, dict, sol),
        is_solution(g, dict, sol),
{
    reveal(lists_next_words);
    reveal(none_fills_after);
    let word = words[i]@;
    let rest = choose|rest: Seq<Seq<Point>>| #[trigger]
        is_first_filling(g.insert(word), dict, rest) && g.insert(word).insert_all(rest) == sol;
    let first = seq![word] + rest;
    assert(first.drop_first() =~= rest);
    assert(fills(g, dict, first) && g.insert_all(first) == sol);
    assert forall|other: Seq<Seq<Point>>| #[trigger] fills(g, dict, other) implies other == first
        || placement_before(first, other) by {
        lemma_next_word_can_insert(g, dict, word);
        assert(other.len() > 0);
        let tail = other.drop_first();
        assert(listed(words, 0, other[0]));
        let j = choose|j: int| 0 <= j < words.len() && (#[trigger] words[j])@ == other[0];
        assert(fills(g.insert(other[0]), dict, tail));
        assert(is_solution(g.insert(words[j]@), dict, g.insert(other[0]).insert_all(tail)));
        if j > i {
            assert(path_before(words[i]@, words[j]@));
            assert(first.subrange(0, 0) == other.subrange(0, 0));
        } else {
            assert(j == i);
            if tail == rest {
                assert(other =~= first);
            } else {
                assert(placement_before(rest, tail));
                let k = choose|k: int|
                    0 <= k < rest.len() && k < tail.len() && #[trigger] rest.subrange(0, k)
                        == tail.subrange(0, k) && path_before(rest[k], tail[k]);
                assert(first.subrange(0, k + 1) =~= seq![word] + rest.subrange(0, k));
                assert(other.subrange(0, k + 1) =~= seq![word] + tail.subrange(0, k));
                assert(path_before(first[k + 1], other[k + 1]));
            }
        }
    }
    assert(is_first_filling(g, dict, first));
}

/// What is known of a word of the list of next words before it is placed.
proof fn lemma_listed_word_fits(g: Grid, dict: Node, words: Seq<PointSet>, i: int)
    requires
        g.wf(),
        lists_next_words(g, dict, words),
        0 <= i < words.len(),
    ensures
        is_next_word(g, dict, words[i]@),
        g.can_insert(words[i]@),
        g.insert(words[i]@).wf(),
        g.insert(words[i]@).is_latest(words[i]@),
        g.insert(words[i]@).remove(words[i]@) == g,
        g.insert(words[i]@).word_count() == g.word_count() + 1,
        g.insert(words[i]@).word_count() <= MAX_SIDE * MAX_SIDE,
{
    reveal(lists_next_words);
    lemma_next_word_can_insert(g, dict, words[i]@);
    g.lemma_insert(words[i]@);
    g.lemma_insert_then_remove(words[i]@);
    g.insert(words[i]@).lemma_word_count_bounded();
}

/// One more word after which the grid cannot be filled.
proof fn lemma_none_fills_next(g: Grid, dict: Node, words: Seq<PointSet>, i: int)
    requires
        0 <= i < words.len(),
        none_fills_after(g, dict, words, i),
        forall|sol: Grid| !is_solution(g.insert(words[i]@), dict, sol),
    ensures
        none_fills_after(g, dict, words, i + 1),
{
    reveal(none_fills_after);
}

/// The grid `sol` stands in `list` at or after position `from`.
pub open spec fn solution_listed(list: Seq<Board>, from: int, sol: Grid) -> bool {
    exists|i: int| from <= i < list.len() && (#[trigger] list[i])@ == sol
}

/// The fillings `fillings` stand in the order of the search, and from
/// position `from` on `list` holds what each of them makes of the grid.
#[verifier::opaque]
pub open spec fn lists_fillings(
    g: Grid,
    dict: Node,
    list: Seq<Board>,
    from: int,
    fillings: Seq<Seq<Seq<Point>>>,
) -> bool {
    &&& fillings.len() == list.len() - from
    &&& forall|t: int|
        0 <= t < fillings.len() ==> fills(g, dict, #[trigger] fillings[t]) && g.insert_all(
            fillings[t],
        ) == list[from + t]@
    &&& forall|t: int, u: int|
        0 <= t < u < fillings.len() ==> placement_before(
            #[trigger] fillings[t],
            #[trigger] fillings[u],
        )
}

/// From position `from` on, `list` holds what each filling of the grid makes
/// of it: one board for each filling, in the order of the search.
pub open spec fn lists_solutions_in_order(
    g: Grid,
    dict: Node,
    list: Seq<Board>,
    from: int,
) -> bool {
    exists|fillings: Seq<Seq<Seq<Point>>>| #[trigger]
        lists_fillings(g, dict, list, from, fillings) && forall|f: Seq<Seq<Point>>| #[trigger]
            fills(g, dict, f) ==> fillings.contains(f)
}

/// `found` holds the fillings that begin with one of the first `upto` words
/// of `words`, and no others.
#[verifier::opaque]
pub open spec fn holds_fillings_after(
    g: Grid,
    dict: Node,
    words: Seq<PointSet>,
    upto: int,
    found: Seq<Seq<Seq<Point>>>,
) -> bool {
    &&& forall|t: int|
        0 <= t < found.len() ==> (#[trigger] found[t]).len() > 0 && exists|j: int|
            0 <= j < upto && found[t][0] == (#[trigger] words[j])@
    &&& forall|j: int, f: Seq<Seq<Point>>|
        0 <= j < upto && #[trigger] fills(g.insert(words[j]@), dict, f) ==> found.contains(
            seq![words[j]@] + f,
        )
}

/// The fillings `found`, followed by the fillings that begin with `word` and
/// go on as a filling of `sub`.
pub open spec fn fillings_with(
    found: Seq<Seq<Seq<Point>>>,
    word: Seq<Point>,
    sub: Seq<Seq<Seq<Point>>>,
) -> Seq<Seq<Seq<Point>>> {
    found + Seq::new(sub.len(), |t: int| seq![word] + sub[t])
}

/// What placing the word at position `i` adds to the fillings found.
proof fn lemma_fillings_step(
    g: Grid,
    dict: Node,
    words: Seq<PointSet>,
    i: int,
    before: Seq<Board>,
    after: Seq<Board>,
    from: int,
    found: Seq<Seq<Seq<Point>>>,
)
    requires
        0 <= i < words.len(),
        0 <= from <= before.len(),
        lists_next_words(g, dict, words),
        before.is_prefix_of(after),
        lists_fillings(g, dict, before, from, found),
        holds_fillings_after(g, dict, words, i, found),
        lists_solutions_in_order(g.insert(words[i]@), dict, after, before.len() as int),
    ensures
        ({
            let sub = choose|sub: Seq<Seq<Seq<Point>>>| #[trigger]
                lists_fillings(g.insert(words[i]@), dict, after, before.len() as int, sub)
                    && forall|f: Seq<Seq<Point>>| #[trigger]
                    fills(g.insert(words[i]@), dict, f) ==> sub.contains(f);
            let all = fillings_with(found, words[i]@, sub);
            &&& lists_fillings(g, dict, after, from, all)
            &&& holds_fillings_after(g, dict, words, i + 1, all)
        }),
{
    reveal(lists_next_words);
    reveal(lists_fillings);
    reveal(holds_fillings_after);
    let word = words[i]@;
    let g2 = g.insert(word);
    let mid = before.len() as int;
    let sub = choose|sub: Seq<Seq<Seq<Point>>>| #[trigger]
        lists_fillings(g2, dict, after, mid, sub) && forall|f: Seq<Seq<Point>>| #[trigger]
            fills(g2, dict, f) ==> sub.contains(f);
    let all = fillings_with(found, word, sub);
    let n = found.len() as int;
    assert forall|t: int| 0 <= t < all.len() implies fills(g, dict, #[trigger] all[t])
        && g.insert_all(all[t]) == after[from + t]@ && all[t].len() > 0 && exists|j: int|
        0 <= j < i + 1 && all[t][0] == (#[trigger] words[j])@ by {
        if t < n {
            assert(all[t] == found[t]);
            assert(after[from + t] == before[from + t]);
            let j = choose|j: int| 0 <= j < i && found[t][0] == (#[trigger] words[j])@;
            assert(0 <= j < i + 1 && all[t][0] == words[j]@);
        } else {
            let f = sub[t - n];
            assert(all[t] == seq![word] + f);
            assert(all[t].drop_first() =~= f);
            assert(fills(g2, dict, f));
            assert(all[t][0] == words[i]@);
        }
    }
    assert forall|t: int, u: int| 0 <= t < u < all.len() implies placement_before(
        #[trigger] all[t],
        #[trigger] all[u],
    ) by {
        if u < n {
            assert(all[t] == found[t] && all[u] == found[u]);
        } else if t < n {
            assert(all[t] == found[t]);
            assert(all[u] == seq![word] + sub[u - n]);
            let j = choose|j: int| 0 <= j < i && found[t][0] == (#[trigger] words[j])@;
            assert(path_before(words[j]@, words[i]@));
            assert(all[t].subrange(0, 0) == all[u].subrange(0, 0));
        } else {
            let a = sub[t - n];
            let b = sub[u - n];
            assert(placement_before(a, b));
            let k = choose|k: int|
                0 <= k < a.len() && k < b.len() && #[trigger] a.subrange(0, k) == b.subrange(0, k)
                    && path_before(a[k], b[k]);
            assert(all[t].subrange(0, k + 1) =~= seq![word] + a.subrange(0, k));
            assert(all[u].subrange(0, k + 1) =~= seq![word] + b.subrange(0, k));
            assert(path_before(all[t][k + 1], all[u][k + 1]));
        }
    }
    assert forall|j: int, f: Seq<Seq<Point>>|
        0 <= j < i + 1 && #[trigger] fills(g.insert(words[j]@), dict, f) implies all.contains(
        seq![words[j]@] + f,
    ) by {
        if j < i {
            assert(found.contains(seq![words[j]@] + f));
            let t = choose|t: int| 0 <= t < found.len() && found[t] == seq![words[j]@] + f;
            assert(all[t] == found[t]);
        } else {
            assert(sub.contains(f));
            let t = choose|t: int| 0 <= t < sub.len() && sub[t] == f;
            assert(all[n + t] == seq![word] + f);
        }
    }
}

/// A list of the solutions in order holds solutions only, and every solution.
pub proof fn lemma_in_order_lists_all(g: Grid, dict: Node, list: Seq<Board>, from: int)
    requires
        0 <= from <= list.len(),
        lists_solutions_in_order(g, dict, list, from),
    ensures
        forall|i: int| from <= i < list.len() ==> is_solution(g, dict, (#[trigger] list[i])@),
        forall|sol: Grid| #[trigger] is_solution(g, dict, sol) ==> solution_listed(list, from, sol),
{
    reveal(lists_fillings);
    let fillings = choose|fillings: Seq<Seq<Seq<Point>>>| #[trigger]
        lists_fillings(g, dict, list, from, fillings) && forall|f: Seq<Seq<Point>>| #[trigger]
            fills(g, dict, f) ==> fillings.contains(f);
    assert forall|i: int| from <= i < list.len() implies is_solution(
        g,
        dict,
        (#[trigger] list[i])@,
    ) by {
        assert(fills(g, dict, fillings[i - from]));
    }
    assert forall|sol: Grid| #[trigger] is_solution(g, dict, sol) implies solution_listed(
        list,
        from,
        sol,
    ) by {
        let words = choose|words: Seq<Seq<Point>>| #[trigger]
            fills(g, dict, words) && g.insert_all(words) == sol;
        assert(fillings.contains(words));
        let t = choose|t: int| 0 <= t < fillings.len() && fillings[t] == words;
        assert(list[from + t]@ == sol);
    }
}

/// A full grid, once listed, is listed with its one filling.
proof fn lemma_full_grid_in_order(g: Grid, dict: Node, before: Seq<Board>, after: Seq<Board>)
    requires
        g.is_done(),
        after.len() == before.len() + 1,
        after.last()@ == g,
    ensures
        lists_solutions_in_order(g, dict, after, before.len() as int),
{
    reveal(lists_fillings);
    let none = Seq::<Seq<Point>>::empty();
    let only = seq![none];
    lemma_full_grid_filling(g, dict);
    assert(lists_fillings(g, dict, after, before.len() as int, only));
    assert forall|f: Seq<Seq<Point>>| #[trigger] fills(g, dict, f) implies only.contains(f) by {
        assert(f == none || placement_before(none, f));
        assert(only[0] == f);
    }
}

/// Once every word that can be placed next has been tried, every filling has
/// been found.
proof fn lemma_fillings_end(
    g: Grid,
    dict: Node,
    words: Seq<PointSet>,
    list: Seq<Board>,
    from: int,
    found: Seq<Seq<Seq<Point>>>,
)
    requires
        !g.is_done(),
        lists_next_words(g, dict, words),
        lists_fillings(g, dict, list, from, found),
        holds_fillings_after(g, dict, words, words.len() as int, found),
    ensures
        lists_solutions_in_order(g, dict, list, from),
{
    reveal(lists_next_words);
    reveal(holds_fillings_after);
    assert forall|f: Seq<Seq<Point>>| #[trigger] fills(g, dict, f) implies found.contains(f) by {
        assert(f.len() > 0);
        assert(listed(words, 0, f[0]));
        let j = choose|j: int| 0 <= j < words.len() && (#[trigger] words[j])@ == f[0];
        assert(fills(g.insert(words[j]@), dict, f.drop_first()));
        assert(seq![words[j]@] + f.drop_first() =~= f);
    }
}

/// A path that is not connectable begins no word.
proof fn lemma_pruned_path_has_no_word(g: Grid, node: Node, path: Seq<Point>, list: Seq<PointSet>)
    requires
        path.len() > 0,
        !is_connectable(path),
    ensures
        lists_words(g, node, path, list, list.len() as int),
        lists_all(g, node, path, list, list.len() as int),
{
    reveal(lists_words);
    reveal(lists_all);
    assert forall|word: Seq<Point>| #[trigger]
        is_word_through(g, node, path, word) implies listed(list, list.len() as int, word) by {
        let rest = word.skip(path.len() as int);
        assert(word =~= path + rest);
        lemma_connectable_keeps_contiguous(path, rest);
    }
}

/// Once the path itself has been listed where it is a word, the list holds
/// all words that do not go on past the last cell of the path.
proof fn lemma_listing_start(
    g: Grid,
    node: Node,
    path: Seq<Point>,
    before: Seq<PointSet>,
    after: Seq<PointSet>,
)
    requires
        path.len() > 0,
        before.is_prefix_of(after),
        node.accepts() && is_contiguous(path) ==> after.len() == before.len() + 1
            && after.last()@ == path,
        !(node.accepts() && is_contiguous(path)) ==> after == before,
        path.len() <= MAX_WORD_LEN,
        is_growth_path(path),
    ensures
        lists_words(g, node, path, after, before.len() as int),
        lists_all_before(
            g,
            node,
            path,
            after,
            before.len() as int,
            path.last().y as int,
            path.last().x + 1,
        ),
{
    reveal(lists_words);
    reveal(lists_all_before);
    reveal(lists_all);
    let from = before.len() as int;
    assert(spelled(g, path.skip(path.len() as int)) =~= Seq::<u8>::empty());
    assert forall|word: Seq<Point>| #[trigger]
        is_word_through(g, node, path, word) && (word.len() > path.len() ==> precedes(
            word[path.len() as int],
            path.last().y as int,
            path.last().x + 1,
        )) implies listed(after, from, word) by {
        if word.len() > path.len() {
            let n = path.len() as int;
            assert(word[n - 1] == word.subrange(0, n)[n - 1]);
            assert(grows_to(word[n - 1], word[n]));
        } else {
            assert(word =~= path);
            assert(after[from]@ == word);
        }
    }
    assert forall|i: int| from <= i < after.len() implies is_word_through(
        g,
        node,
        path,
        (#[trigger] after[i])@,
    ) by {
        assert(after[i]@ == path);
        assert(path =~= path.subrange(0, path.len() as int));
    }
}

/// A word that begins with a path comes after the path, where it is longer,
/// and before every word that begins with the path and goes on with a later
/// cell.
proof fn lemma_words_in_order(path: Seq<Point>, early: Seq<Point>, late: Seq<Point>)
    requires
        path.is_prefix_of(early),
        path.is_prefix_of(late),
        late.len() > path.len(),
        early.len() > path.len() ==> comes_after(late[path.len() as int], early[path.len() as int]),
    ensures
        path_before(early, late),
{
    let k = path.len() as int;
    assert(early.subrange(0, k) == late.subrange(0, k));
}

/// What trying the cell in column `col` of row `row` adds to the list.
proof fn lemma_listing_step(
    g: Grid,
    node: Node,
    path: Seq<Point>,
    before: Seq<PointSet>,
    after: Seq<PointSet>,
    from: int,
    row: int,
    col: int,
)
    requires
        0 <= from <= before.len(),
        0 <= row < g.height <= 256,
        0 <= col < g.width <= 256,
        before.is_prefix_of(after),
        lists_words(g, node, path, before, from),
        lists_all_before(g, node, path, before, from, row, col),
        ({
            let c = Point { x: col as u8, y: row as u8 };
            match node.child(g.letter(c)) {
                Some(child) if g.owner(c) is None => {
                    &&& lists_words(g, child, path.push(c), after, before.len() as int)
                    &&& lists_all(g, child, path.push(c), after, before.len() as int)
                },
                _ => after == before,
            }
        }),
    ensures
        lists_words(g, node, path, after, from),
        lists_all_before(g, node, path, after, from, row, col + 1),
{
    reveal(lists_words);
    reveal(lists_all_before);
    reveal(lists_all);
    let c = Point { x: col as u8, y: row as u8 };
    let explored = g.owner(c) is None && node.child(g.letter(c)) is Some;
    assert forall|i: int| from <= i < after.len() implies is_word_through(
        g,
        node,
        path,
        (#[trigger] after[i])@,
    ) by {
        if i < before.len() {
            assert(after[i] == before[i]);
        } else {
            let child = node.child(g.letter(c))->0;
            assert(is_word_through(g, child, path.push(c), after[i]@));
            lemma_words_through_cell(g, node, child, path, c, after[i]@);
        }
    }
    assert forall|word: Seq<Point>| #[trigger]
        is_word_through(g, node, path, word) && (word.len() > path.len() ==> precedes(
            word[path.len() as int],
            row,
            col + 1,
        )) implies listed(after, from, word) by {
        if word.len() > path.len() && !precedes(word[path.len() as int], row, col) {
            assert(word[path.len() as int] == c);
            lemma_word_needs_cell(g, node, path, c, word);
            let child = node.child(g.letter(c))->0;
            lemma_words_through_cell(g, node, child, path, c, word);
            assert(listed(after, before.len() as int, word));
        } else {
            assert(listed(before, from, word));
            let i = choose|i: int| from <= i < before.len() && (#[trigger] before[i])@ == word;
            assert(after[i] == before[i]);
        }
    }
    assert forall|i: int|
        from <= i < after.len() && (#[trigger] after[i])@.len() > path.len() implies precedes(
        after[i]@[path.len() as int],
        row,
        col + 1,
    ) by {
        if i < before.len() {
            assert(after[i] == before[i]);
        } else {
            let child = node.child(g.letter(c))->0;
            assert(is_word_through(g, child, path.push(c), after[i]@));
            lemma_words_through_cell(g, node, child, path, c, after[i]@);
        }
    }
    assert forall|i: int, j: int| from <= i < j < after.len() implies path_before(
        (#[trigger] after[i])@,
        (#[trigger] after[j])@,
    ) by {
        if j < before.len() {
            assert(after[i] == before[i] && after[j] == before[j]);
        } else if i < before.len() {
            assert(after[i] == before[i]);
            let child = node.child(g.letter(c))->0;
            assert(is_word_through(g, child, path.push(c), after[j]@));
            lemma_words_through_cell(g, node, child, path, c, after[j]@);
            assert(is_word_through(g, node, path, before[i]@));
            lemma_words_in_order(path, after[i]@, after[j]@);
        }
    }
}

/// After the last row of the path has been tried to its end, the next row
/// begins.
proof fn lemma_listing_next_row(
    g: Grid,
    node: Node,
    path: Seq<Point>,
    list: Seq<PointSet>,
    from: int,
    row: int,
)
    requires
        lists_all_before(g, node, path, list, from, row, g.width as int),
    ensures
        lists_all_before(g, node, path, list, from, row + 1, 0),
{
    reveal(lists_words);
    reveal(lists_all_before);
    reveal(lists_all);
    assert forall|word: Seq<Point>| #[trigger]
        is_word_through(g, node, path, word) && (word.len() > path.len() ==> precedes(
            word[path.len() as int],
            row + 1,
            0,
        )) implies listed(list, from, word) by {
        if word.len() > path.len() {
            assert(g.in_bounds(word[path.len() as int]));
        }
    }
}

/// After every cell into which the path may grow has been tried, the list
/// holds all words that begin with the path.
proof fn lemma_listing_end(
    g: Grid,
    node: Node,
    path: Seq<Point>,
    list: Seq<PointSet>,
    from: int,
    next_row: bool,
)
    requires
        path.len() > 0,
        !next_row ==> path.len() == MAX_WORD_LEN || path.last().y + 1 >= g.height,
        !next_row && path.len() == MAX_WORD_LEN ==> lists_all_before(
            g,
            node,
            path,
            list,
            from,
            path.last().y as int,
            path.last().x + 1,
        ),
        !next_row && path.len() < MAX_WORD_LEN ==> lists_all_before(
            g,
            node,
            path,
            list,
            from,
            path.last().y as int,
            g.width as int,
        ),
        next_row ==> lists_all_before(
            g,
            node,
            path,
            list,
            from,
            path.last().y + 1,
            path.last().x + 1,
        ),
    ensures
        lists_all(g, node, path, list, from),
{
    reveal(lists_words);
    reveal(lists_all_before);
    reveal(lists_all);
    assert forall|word: Seq<Point>| #[trigger]
        is_word_through(g, node, path, word) implies listed(list, from, word) by {
        if word.len() > path.len() {
            let n = path.len() as int;
            assert(word[n - 1] == word.subrange(0, n)[n - 1]);
            assert(grows_to(word[n - 1], word[n]));
            assert(g.in_bounds(word[n]));
        }
    }
}

impl Board {
    /// Appends to `list` every word that begins with `points`: the path
    /// grown cell by cell under the growth rule through free cells, as far as
    /// the dictionary has a child for the next letter, wherever the node reached
    /// is a word and the cells are contiguous. A word comes before the words
    /// that continue it, and the cells to continue with are tried in row-major
    /// order.
    pub fn list_words(&self, points: PointSet, dict_node: &Node, list: &mut Vec<PointSet>)
        requires
            self@.shaped(),
            dict_node.wf(),
            points.wf(),
            is_growth_path(points@),
            self@.in_bounds(points@.last()),
        ensures
            old(list)@.is_prefix_of(final(list)@),
            lists_words(self@, *dict_node, points@, final(list)@, old(list)@.len() as int),
            lists_all(self@, *dict_node, points@, final(list)@, old(list)@.len() as int),
        decreases MAX_WORD_LEN - points@.len(), 1nat,
    {
        let ghost g = self@;
        let ghost node = *dict_node;
        let ghost path = points@;
        let ghost from = old(list)@.len() as int;
        if !points.connectable() {
            // No way to connect the points: nothing to list.
            proof {
                lemma_pruned_path_has_no_word(g, node, path, list@);
            }
            return ;
        }
        // First check whether the path is itself a word.
        if dict_node.ends_word() && points.contiguous() {
            list.push(points.clone());
        }
        proof {
            lemma_listing_start(g, node, path, old(list)@, list@);
        }

        let mut next_row = false;
        if points.length() < MAX_WORD_LEN {
            // Try to add one cell to the path.
            let last_point = points.last_point();
            let y = last_point.y;
            let mut x: usize = last_point.x as usize + 1;
            while x < self.width()
                invariant
                    self@ == g,
                    g.shaped(),
                    *dict_node == node,
                    node.wf(),
                    points@ == path,
                    points.wf(),
                    path.len() < MAX_WORD_LEN,
                    is_growth_path(path),
                    last_point == path.last(),
                    y == last_point.y,
                    g.in_bounds(last_point),
                    last_point.x < x <= g.width,
                    from == old(list)@.len(),
                    old(list)@.is_prefix_of(list@),
                    lists_words(g, node, path, list@, from),
                    lists_all_before(g, node, path, list@, from, y as int, x as int),
                decreases g.width - x,
            {
                let ghost before = list@;
                self.grow_to(&points, dict_node, Point::new(x as u8, y), list);
                proof {
                    lemma_listing_step(g, node, path, before, list@, from, y as int, x as int);
                }
                x += 1;
            }
            if (y as usize) + 1 < self.height() {
                next_row = true;
                let y = y + 1;
                let mut x: usize = 0;
                proof {
                    lemma_listing_next_row(g, node, path, list@, from, last_point.y as int);
                }
                while x <= last_point.x as usize
                    invariant
                        self@ == g,
                        g.shaped(),
                        *dict_node == node,
                        node.wf(),
                        points@ == path,
                        points.wf(),
                        path.len() < MAX_WORD_LEN,
                        is_growth_path(path),
                        last_point == path.last(),
                        y == last_point.y + 1,
                        y < g.height,
                        g.in_bounds(last_point),
                        x <= last_point.x + 1,
                        from == old(list)@.len(),
                        old(list)@.is_prefix_of(list@),
                        lists_words(g, node, path, list@, from),
                        lists_all_before(g, node, path, list@, from, y as int, x as int),
                    decreases last_point.x + 1 - x,
                {
                    let ghost before = list@;
                    self.grow_to(&points, dict_node, Point::new(x as u8, y), list);
                    proof {
                        lemma_listing_step(g, node, path, before, list@, from, y as int, x as int);
                    }
                    x += 1;
                }
            }
        }
        proof {
            lemma_listing_end(g, node, path, list@, from, next_row);
        }
    }

    /// The words that can be placed next: those that begin at the first free
    /// cell. On a full board there are none.
    pub fn next_words(&self, dict: &Node) -> (words: Vec<PointSet>)
        requires
            self@.shaped(),
            dict.wf(),
        ensures
            lists_next_words(self@, *dict, words@),
    {
        let mut words = Vec::new();
        if let Some(root_point) = self.get_root() {
            let points = PointSet::new(root_point);
            if let Some(dict_node) = first_node(dict, self.letter_at(root_point)) {
                assert(is_growth_path(points@));
                self.list_words(points, dict_node, &mut words);
            }
            proof {
                lemma_next_words_from_root(self@, *dict, root_point, words@);
            }
        } else {
            proof {
                lemma_no_next_word_when_full(self@, *dict, words@);
            }
        }
        words
    }

    /// All the ways to fill the board, each as a board of its own and each
    /// once, in the order of the search. The board itself is left as it was.
    /// A full board is its own and only solution.
    pub fn enumerate_solutions(&mut self, dict: &Node) -> (solutions: Vec<Board>)
        requires
            old(self).wf(),
            dict.wf(),
        ensures
            final(self)@ == old(self)@,
            lists_solutions_in_order(old(self)@, *dict, solutions@, 0),
    {
        let mut solutions = Vec::new();

        self.enumerate_solutions_inner(dict, &mut solutions);

        return solutions;
    }

    /// Appends to `solutions` all the ways to fill the board, each once, in
    /// the order of the search.
    fn enumerate_solutions_inner(&mut self, dict: &Node, solutions: &mut Vec<Board>)
        requires
            old(self).wf(),
            dict.wf(),
        ensures
            final(self)@ == old(self)@,
            old(solutions)@.is_prefix_of(final(solutions)@),
            lists_solutions_in_order(
                old(self)@,
                *dict,
                final(solutions)@,
                old(solutions)@.len() as int,
            ),
        decreases MAX_SIDE * MAX_SIDE - old(self)@.word_count(),
    {
        let ghost g = self@;
        let ghost from = solutions@.len() as int;
        if self.is_done() {
            solutions.push(self.clone());
            proof {
                lemma_full_grid_in_order(g, *dict, old(solutions)@, solutions@);
            }
            return ;
        }
        let ghost mut found = Seq::<Seq<Seq<Point>>>::empty();
        let words = self.next_words(dict);
        let mut i: usize = 0;
        proof {
            reveal(lists_fillings);
            reveal(holds_fillings_after);
        }
        while i < words.len()
            invariant
                g == old(self)@,
                self@ == g,
                g.wf(),
                dict.wf(),
                !g.is_done(),
                lists_next_words(g, *dict, words@),
                i <= words@.len(),
                from == old(solutions)@.len(),
                old(solutions)@.is_prefix_of(solutions@),
                lists_fillings(g, *dict, solutions@, from, found),
                holds_fillings_after(g, *dict, words@, i as int, found),
            decreases words@.len() - i,
        {
            let word = &words[i];
            let ghost before = solutions@;
            proof {
                lemma_listed_word_fits(g, *dict, words@, i as int);
            }
            self.insert_word(word);
            self.enumerate_solutions_inner(dict, solutions);
            proof {
                lemma_fillings_step(g, *dict, words@, i as int, before, solutions@, from, found);
                let sub = choose|sub: Seq<Seq<Seq<Point>>>| #[trigger]
                    lists_fillings(g.insert(word@), *dict, solutions@, before.len() as int, sub)
                        && forall|f: Seq<Seq<Point>>| #[trigger]
                        fills(g.insert(word@), *dict, f) ==> sub.contains(f);
                found = fillings_with(found, word@, sub);
            }
            self.remove_word(word);
            i += 1;
        }
        proof {
            lemma_fillings_end(g, *dict, words@, solutions@, from, found);
        }
    }

    /// Looks for a way to fill the board, word by word from the first free
    /// cell, and stops at the first that it finds: of all the fillings, the
    /// first in the order of the search. A full board is filled as it stands.
    /// Where there is no way to fill it, the board is left as it was.
    pub fn solve(&mut self, dict: &Node) -> (solved: bool)
        requires
            old(self).wf(),
            dict.wf(),
        ensures
            final(self).wf(),
            solved ==> is_solution(old(self)@, *dict, final(self)@),
            solved ==> is_first_solution(old(self)@, *dict, final(self)@),
            !solved ==> final(self)@ == old(self)@,
            !solved ==> forall|sol: Grid| !is_solution(old(self)@, *dict, sol),
        decreases MAX_SIDE * MAX_SIDE - old(self)@.word_count(),
    {
        let ghost g = self@;
        if self.is_done() {
            proof {
                lemma_full_grid_filling(g, *dict);
            }
            return true;
        }
        let words = self.next_words(dict);
        let mut i: usize = 0;
        proof {
            reveal(none_fills_after);
        }
        while i < words.len()
            invariant
                g == old(self)@,
                self@ == g,
                g.wf(),
                dict.wf(),
                !g.is_done(),
                lists_next_words(g, *dict, words@),
                i <= words@.len(),
                none_fills_after(g, *dict, words@, i as int),
            decreases words@.len() - i,
        {
            let word = &words[i];
            proof {
                lemma_listed_word_fits(g, *dict, words@, i as int);
            }
            self.insert_word(word);
            if self.solve(dict) {
                proof {
                    lemma_first_solution_step(g, *dict, words@, i as int, self@);
                }
                return true;
            }
            self.remove_word(word);
            proof {
                lemma_none_fills_next(g, *dict, words@, i as int);
            }
            i += 1;
        }
        proof {
            lemma_no_word_no_solution(g, *dict, words@);
        }
        false
    }

    /// Appends to `list` the words that begin with `points` and go on with the
    /// cell `next`, if that cell is free and the dictionary has a child for its
    /// letter.
    fn grow_to(&self, points: &PointSet, dict_node: &Node, next: Point, list: &mut Vec<PointSet>)
        requires
            self@.shaped(),
            dict_node.wf(),
            points.wf(),
            points@.len() < MAX_WORD_LEN,
            is_growth_path(points@),
            grows_to(points@.last(), next),
            self@.in_bounds(next),
        ensures
            old(list)@.is_prefix_of(final(list)@),
            match dict_node.child(self@.letter(next)) {
                Some(child) if self@.owner(next) is None => {
                    &&& lists_words(
                        self@,
                        child,
                        points@.push(next),
                        final(list)@,
                        old(list)@.len() as int,
                    )
                    &&& lists_all(
                        self@,
                        child,
                        points@.push(next),
                        final(list)@,
                        old(list)@.len() as int,
                    )
                },
                _ => final(list)@ == old(list)@,
            },
        decreases MAX_WORD_LEN - points@.len(), 0nat,
    {
        if self.visited(next.x as usize, next.y as usize) {
            return ;
        }
        let letter = self.letter_at(next);
        if let Some(next_node) = dict_node.get_next(letter) {
            let mut next_points = points.clone();
            next_points.push(next);
            self.list_words(next_points, next_node, list);
        }
    }
}

} // verus!

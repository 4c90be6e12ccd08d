//! The grid: its letters, and which word owns each cell.

use crate::dictionary::is_letter;
use crate::point::{Point, PointSet};
use vstd::prelude::*;
use vstd::relations::injective_on;
use vstd::string::StringSliceAdditionalSpecFns;
use vstd::set_lib::{lemma_int_range, lemma_len_subset, lemma_map_size, set_int_range};

verus! {

/// The widest and the tallest grid: cell coordinates are bytes.
pub const MAX_SIDE: usize = 256;

/// Numbered row by row, the cells of a grid have the numbers below the
/// number of its cells.
proof fn lemma_cell_number(w: int, h: int, x: int, y: int)
    by (nonlinear_arith)
    requires
        0 <= x < w,
        0 <= y < h,
    ensures
        0 <= y * w + x < w * h,
{
}

/// Numbered row by row, two cells with one number are one cell.
proof fn lemma_cell_number_distinct(w: int, x1: int, y1: int, x2: int, y2: int)
    by (nonlinear_arith)
    requires
        0 <= x1 < w,
        0 <= x2 < w,
        0 <= y1,
        0 <= y2,
        y1 * w + x1 == y2 * w + x2,
    ensures
        x1 == x2,
        y1 == y2,
{
}

/// What a board holds: `height` rows of `width` letters, and for each cell the
/// number of the word that owns it, if one does.
pub struct Grid {
    pub width: nat,
    pub height: nat,
    pub letters: Seq<Seq<u8>>,
    pub owners: Seq<Seq<Option<usize>>>,
}

impl Grid {
    /// `p` names a cell of the grid.
    pub open spec fn in_bounds(self, p: Point) -> bool {
        p.x < self.width && p.y < self.height
    }

    /// The letter in cell `p`.
    pub open spec fn letter(self, p: Point) -> u8 {
        self.letters[p.y as int][p.x as int]
    }

    /// The word that owns cell `p`.
    pub open spec fn owner(self, p: Point) -> Option<usize> {
        self.owners[p.y as int][p.x as int]
    }

    /// The rows have the lengths that the grid's size asks for, and every
    /// cell holds a lowercase letter.
    pub open spec fn shaped(self) -> bool {
        &&& self.width <= MAX_SIDE
        &&& self.height <= MAX_SIDE
        &&& self.letters.len() == self.height
        &&& self.owners.len() == self.height
        &&& forall|y: int|
            0 <= y < self.height ==> (#[trigger] self.letters[y]).len() == self.width
        &&& forall|y: int|
            0 <= y < self.height ==> (#[trigger] self.owners[y]).len() == self.width
        &&& forall|p: Point| self.in_bounds(p) ==> is_letter(#[trigger] self.letter(p))
    }

    /// Some cell is owned by word `id`.
    pub open spec fn holds_id(self, id: nat) -> bool {
        exists|p: Point| self.in_bounds(p) && #[trigger] self.owner(p) == Some(id as usize)
    }

    /// The words in the grid are those numbered `0` up to `n`, `n` left out.
    pub open spec fn counts_words(self, n: nat) -> bool {
        &&& n <= usize::MAX
        &&& forall|p: Point|
            self.in_bounds(p) ==> (#[trigger] self.owner(p) matches Some(id) ==> id < n)
        &&& forall|id: nat| id < n ==> #[trigger] self.holds_id(id)
    }

    /// The grid is shaped, and its words are numbered without a gap.
    pub open spec fn wf(self) -> bool {
        &&& self.shaped()
        &&& exists|n: nat| #[trigger] self.counts_words(n)
    }

    /// The number of words in the grid: one more than the highest number of
    /// a word, or 0 where no cell is owned.
    pub open spec fn word_count(self) -> nat {
        choose|n: nat| #[trigger] self.counts_words(n)
    }

    /// Every cell is owned.
    pub open spec fn is_done(self) -> bool {
        forall|p: Point| self.in_bounds(p) ==> #[trigger] self.owner(p) is Some
    }

    /// `p` is free, and every cell before it in row-major order is owned.
    pub open spec fn is_first_free(self, p: Point) -> bool {
        &&& self.in_bounds(p)
        &&& self.owner(p) is None
        &&& forall|q: Point|
            self.in_bounds(q) && (q.y < p.y || (q.y == p.y && q.x < p.x))
                ==> #[trigger] self.owner(q) is Some
    }

    /// The cells lie in the grid and are free and pairwise distinct, and
    /// there is at least one.
    pub open spec fn can_insert(self, cells: Seq<Point>) -> bool {
        &&& cells.len() > 0
        &&& cells.no_duplicates()
        &&& forall|k: int|
            0 <= k < cells.len() ==> self.in_bounds(#[trigger] cells[k]) && self.owner(cells[k])
                is None
    }

    /// The grid in which the cells of `cells` are owned by `id` and all
    /// others are as before.
    pub open spec fn assign(self, cells: Seq<Point>, id: Option<usize>) -> Grid {
        Grid {
            width: self.width,
            height: self.height,
            letters: self.letters,
            owners: Seq::new(
                self.height,
                |y: int|
                    Seq::new(
                        self.width,
                        |x: int|
                            if cells.contains(Point { x: x as u8, y: y as u8 }) {
                                id
                            } else {
                                self.owners[y][x]
                            },
                    ),
            ),
        }
    }

    /// The grid after `cells` has become its next word.
    pub open spec fn insert(self, cells: Seq<Point>) -> Grid {
        self.assign(cells, Some(self.word_count() as usize))
    }

    /// The words of `words` can be inserted one after the other.
    pub open spec fn can_insert_all(self, words: Seq<Seq<Point>>) -> bool
        decreases words.len(),
    {
        words.len() == 0 || (self.can_insert(words[0]) && self.insert(words[0]).can_insert_all(
            words.drop_first(),
        ))
    }

    /// The grid after the words of `words` have been inserted one after the
    /// other.
    pub open spec fn insert_all(self, words: Seq<Seq<Point>>) -> Grid
        decreases words.len(),
    {
        if words.len() == 0 {
            self
        } else {
            self.insert(words[0]).insert_all(words.drop_first())
        }
    }

    /// `cells` are exactly the cells of the word that was inserted last.
    pub open spec fn is_latest(self, cells: Seq<Point>) -> bool {
        &&& self.word_count() > 0
        &&& forall|k: int| 0 <= k < cells.len() ==> self.in_bounds(#[trigger] cells[k])
        &&& forall|p: Point|
            self.in_bounds(p) ==> (cells.contains(p) <==> #[trigger] self.owner(p) == Some(
                (self.word_count() - 1) as usize,
            ))
    }

    /// The grid after the cells of `cells` have been set free.
    pub open spec fn remove(self, cells: Seq<Point>) -> Grid {
        self.assign(cells, None)
    }

    /// A count of the words is the count of the words.
    pub proof fn lemma_word_count_is(self, n: nat)
        requires
            self.counts_words(n),
        ensures
            self.word_count() == n,
            self.wf() == self.shaped(),
    {
        let m = self.word_count();
        assert(self.counts_words(m));
        if m < n {
            assert(self.holds_id(m));
        }
        if n < m {
            assert(self.holds_id(n));
        }
    }

    /// There are no more words than cells.
    pub proof fn lemma_word_count_bounded(self)
        requires
            self.wf(),
        ensures
            self.word_count() <= self.width * self.height <= MAX_SIDE * MAX_SIDE,
    {
        let n = self.word_count();
        let w = self.width as int;
        let h = self.height as int;
        assert(self.counts_words(n));
        let place = |id: int|
            {
                let p = choose|p: Point|
                    self.in_bounds(p) && #[trigger] self.owner(p) == Some(id as usize);
                p.y * w + p.x
            };
        let ids = set_int_range(0, n as int);
        let places = ids.map(place);
        let all = set_int_range(0, w * h);
        assert forall|a: int, b: int|
            ids.contains(a) && ids.contains(b) && #[trigger] place(a) == #[trigger] place(
                b,
            ) implies a == b by {
            assert(self.holds_id(a as nat));
            assert(self.holds_id(b as nat));
            let p = choose|p: Point|
                self.in_bounds(p) && #[trigger] self.owner(p) == Some(a as usize);
            let q = choose|q: Point|
                self.in_bounds(q) && #[trigger] self.owner(q) == Some(b as usize);
            lemma_cell_number(w, h, p.x as int, p.y as int);
            lemma_cell_number(w, h, q.x as int, q.y as int);
            lemma_cell_number_distinct(w, p.x as int, p.y as int, q.x as int, q.y as int);
        }
        assert(injective_on(place, ids));
        assert(0 <= w * h <= 256 * 256) by (nonlinear_arith)
            requires
                0 <= w <= 256,
                0 <= h <= 256,
        ;
        lemma_int_range(0, n as int);
        lemma_int_range(0, w * h);
        lemma_map_size(ids, places, place);
        assert forall|v: int| places.contains(v) implies all.contains(v) by {
            let id = choose|id: int| ids.contains(id) && place(id) == v;
            assert(self.holds_id(id as nat));
            let p = choose|p: Point|
                self.in_bounds(p) && #[trigger] self.owner(p) == Some(id as usize);
            lemma_cell_number(w, h, p.x as int, p.y as int);
        }
        lemma_len_subset(places, all);
    }

    /// Inserting a word keeps the grid well-formed and adds one to its count
    /// of words.
    pub proof fn lemma_insert(self, cells: Seq<Point>)
        requires
            self.wf(),
            self.can_insert(cells),
        ensures
            self.insert(cells).wf(),
            self.insert(cells).word_count() == self.word_count() + 1,
            self.insert(cells).is_latest(cells),
    {
        let n = self.word_count();
        let after = self.insert(cells);
        self.lemma_word_count_bounded();
        assert(self.counts_words(n));
        self.lemma_assign_shaped(cells, Some(n as usize));
        assert forall|p: Point| after.in_bounds(p) implies (#[trigger] after.owner(p) matches Some(
            id,
        ) ==> id < n + 1) by {
            self.lemma_assign_owner(cells, Some(n as usize), p);
            assert(self.owner(p) matches Some(id) ==> id < n);
        }
        assert forall|id: nat| id < n + 1 implies #[trigger] after.holds_id(id) by {
            if id < n {
                assert(self.holds_id(id));
                let p = choose|p: Point|
                    self.in_bounds(p) && #[trigger] self.owner(p) == Some(id as usize);
                self.lemma_assign_owner(cells, Some(n as usize), p);
                assert(after.in_bounds(p) && after.owner(p) == Some(id as usize));
            } else {
                let p = cells[0];
                self.lemma_assign_owner(cells, Some(n as usize), p);
                assert(after.in_bounds(p) && after.owner(p) == Some(id as usize));
            }
        }
        assert(after.counts_words(n + 1));
        after.lemma_word_count_is(n + 1);
        assert forall|p: Point| after.in_bounds(p) implies (cells.contains(p) <==> #[trigger] after.owner(
            p,
        ) == Some(n as usize)) by {
            self.lemma_assign_owner(cells, Some(n as usize), p);
            assert(self.owner(p) matches Some(id) ==> id < n);
        }
    }

    /// Inserting words, and removing none, adds their number to the count of
    /// words: a grid in which no cell is owned counts, after `k` words have
    /// been inserted, `k` words.
    pub proof fn lemma_word_count_after_inserts(self, words: Seq<Seq<Point>>)
        requires
            self.wf(),
            self.can_insert_all(words),
        ensures
            self.insert_all(words).wf(),
            self.insert_all(words).word_count() == self.word_count() + words.len(),
        decreases words.len(),
    {
        if words.len() > 0 {
            self.lemma_insert(words[0]);
            self.insert(words[0]).lemma_word_count_after_inserts(words.drop_first());
        }
    }

    /// Removing the word that was inserted last keeps the grid well-formed
    /// and takes one from its count of words.
    pub proof fn lemma_remove(self, cells: Seq<Point>)
        requires
            self.wf(),
            self.is_latest(cells),
        ensures
            self.remove(cells).wf(),
            self.remove(cells).word_count() == self.word_count() - 1,
    {
        let n = self.word_count();
        let after = self.remove(cells);
        assert(self.counts_words(n));
        self.lemma_assign_shaped(cells, None);
        assert forall|p: Point| after.in_bounds(p) implies (#[trigger] after.owner(p) matches Some(
            id,
        ) ==> id < n - 1) by {
            self.lemma_assign_owner(cells, None, p);
            assert(self.owner(p) matches Some(id) ==> id < n);
        }
        assert forall|id: nat| id < n - 1 implies #[trigger] after.holds_id(id) by {
            assert(self.holds_id(id));
            let p = choose|p: Point|
                self.in_bounds(p) && #[trigger] self.owner(p) == Some(id as usize);
            self.lemma_assign_owner(cells, None, p);
            assert(after.in_bounds(p) && after.owner(p) == Some(id as usize));
        }
        assert(after.counts_words((n - 1) as nat));
        after.lemma_word_count_is((n - 1) as nat);
    }

    /// Inserting a word and removing it again gives back the grid as it was.
    pub proof fn lemma_insert_then_remove(self, cells: Seq<Point>)
        requires
            self.wf(),
            self.can_insert(cells),
        ensures
            self.insert(cells).is_latest(cells),
            self.insert(cells).remove(cells) == self,
    {
        self.lemma_insert(cells);
        let n = self.word_count();
        let back = self.insert(cells).remove(cells);
        assert forall|y: int, x: int| 0 <= y < self.height && 0 <= x < self.width implies back.owners[y][x]
            == self.owners[y][x] by {
            let p = Point { x: x as u8, y: y as u8 };
            if cells.contains(p) {
                let k = choose|k: int| 0 <= k < cells.len() && cells[k] == p;
                assert(self.in_bounds(cells[k]) && self.owner(cells[k]) is None);
            }
        }
        assert(back.owners =~~= self.owners);
    }

    /// The owner of a cell after an assignment.
    pub proof fn lemma_assign_owner(self, cells: Seq<Point>, id: Option<usize>, p: Point)
        requires
            self.shaped(),
            self.in_bounds(p),
        ensures
            self.assign(cells, id).owner(p) == (if cells.contains(p) {
                id
            } else {
                self.owner(p)
            }),
            self.assign(cells, id).letter(p) == self.letter(p),
    {
        assert(Point { x: p.x as int as u8, y: p.y as int as u8 } == p);
    }

    /// An assignment keeps the shape of the grid.
    pub proof fn lemma_assign_shaped(self, cells: Seq<Point>, id: Option<usize>)
        requires
            self.shaped(),
        ensures
            self.assign(cells, id).shaped(),
    {
        let after = self.assign(cells, id);
        assert forall|p: Point| after.in_bounds(p) implies is_letter(#[trigger] after.letter(p)) by {
            assert(is_letter(self.letter(p)));
        }
    }
}

/// Why a text is not the text of a grid.
#[derive(Debug, PartialEq, Eq)]
pub enum ParseError {
    /// The byte that stands where a letter, or the end of a line, should.
    UnexpectedChar(u8),
    /// The place at which the text ends too early.
    MissingChar { line: usize, character: usize },
}

/// The byte that ends each line of a grid's text.
pub const NEWLINE: u8 = 10;

/// Where the text of a grid `width` wide holds character `character` of line
/// `line`; the end of the line counts as its last character.
pub open spec fn text_index(width: int, line: int, character: int) -> int {
    line * (width + 1) + character
}

/// The text holds what the format asks for at that place: a lowercase
/// letter within the line, a newline at its end.
pub open spec fn fits(text: Seq<u8>, width: int, line: int, character: int) -> bool {
    let i = text_index(width, line, character);
    &&& 0 <= i < text.len()
    &&& if character < width {
        is_letter(text[i])
    } else {
        text[i] == NEWLINE
    }
}

/// Every place of the `height` lines holds what the format asks for.
pub open spec fn fits_all(text: Seq<u8>, width: int, height: int) -> bool {
    forall|line: int, character: int|
        0 <= line < height && 0 <= character <= width ==> #[trigger] fits(
            text,
            width,
            line,
            character,
        )
}

/// The place is the first, reading line by line, at which the text does not
/// hold what the format asks for.
pub open spec fn is_first_misfit(
    text: Seq<u8>,
    width: int,
    height: int,
    line: int,
    character: int,
) -> bool {
    &&& 0 <= line < height
    &&& 0 <= character <= width
    &&& !fits(text, width, line, character)
    &&& forall|l: int, c: int|
        0 <= l < height && 0 <= c <= width && (l < line || (l == line && c < character))
            ==> #[trigger] fits(text, width, l, c)
}

/// What is wrong at a place where the text does not fit: the byte found
/// there, or that the text has ended.
pub open spec fn error_at(text: Seq<u8>, width: int, line: int, character: int) -> ParseError {
    let i = text_index(width, line, character);
    if 0 <= i < text.len() {
        ParseError::UnexpectedChar(text[i])
    } else {
        ParseError::MissingChar { line: line as usize, character: character as usize }
    }
}

/// The owner of the cell in column `x` of row `y` once `id` has been
/// written to the first `upto` cells of `cells`.
spec fn owner_so_far(
    g: Grid,
    cells: Seq<Point>,
    upto: int,
    id: Option<usize>,
    x: int,
    y: int,
) -> Option<usize> {
    if exists|k: int| 0 <= k < upto && cells[k] == (Point { x: x as u8, y: y as u8 }) {
        id
    } else {
        g.owners[y][x]
    }
}

/// A copy of the rows.
fn copy_rows<T: Copy>(rows: &Vec<Vec<T>>) -> (copy: Vec<Vec<T>>)
    ensures
        copy@.len() == rows@.len(),
        forall|y: int| 0 <= y < rows@.len() ==> (#[trigger] copy@[y])@ == rows@[y]@,
{
    let mut copy: Vec<Vec<T>> = Vec::new();
    let mut y: usize = 0;
    while y < rows.len()
        invariant
            y <= rows@.len(),
            copy@.len() == y,
            forall|k: int| 0 <= k < y ==> (#[trigger] copy@[k])@ == rows@[k]@,
        decreases rows@.len() - y,
    {
        let mut row: Vec<T> = Vec::new();
        let mut x: usize = 0;
        while x < rows[y].len()
            invariant
                y < rows@.len(),
                x <= rows@[y as int]@.len(),
                row@ == rows@[y as int]@.subrange(0, x as int),
            decreases rows@[y as int]@.len() - x,
        {
            row.push(rows[y][x]);
            x += 1;
            assert(row@ == rows@[y as int]@.subrange(0, x as int));
        }
        assert(row@ == rows@[y as int]@);
        copy.push(row);
        y += 1;
    }
    copy
}

/// A puzzle in progress.
pub struct Board {
    width: usize,
    height: usize,
    letters: Vec<Vec<u8>>,
    word_ids: Vec<Vec<Option<usize>>>,
}

impl View for Board {
    type V = Grid;

    closed spec fn view(&self) -> Grid {
        Grid {
            width: self.width as nat,
            height: self.height as nat,
            letters: Seq::new(self.letters@.len(), |y: int| self.letters@[y]@),
            owners: Seq::new(self.word_ids@.len(), |y: int| self.word_ids@[y]@),
        }
    }
}

impl Clone for Board {
    fn clone(&self) -> (copy: Self)
        ensures
            copy@ == self@,
    {
        let copy = Board {
            width: self.width,
            height: self.height,
            letters: copy_rows(&self.letters),
            word_ids: copy_rows(&self.word_ids),
        };
        proof {
            assert(copy@.letters =~~= self@.letters);
            assert(copy@.owners =~~= self@.owners);
        }
        copy
    }
}

impl Board {
    /// The board holds a well-formed grid.
    pub open spec fn wf(&self) -> bool {
        self@.wf()
    }

    /// The board with the given rows of letters and no cell owned.
    fn new(width: usize, height: usize, letters: Vec<Vec<u8>>) -> (board: Board)
        requires
            width <= MAX_SIDE,
            height <= MAX_SIDE,
            letters@.len() == height,
            forall|y: int| 0 <= y < height ==> (#[trigger] letters@[y])@.len() == width,
            forall|y: int, x: int|
                0 <= y < height && 0 <= x < width ==> is_letter(#[trigger] letters@[y]@[x]),
        ensures
            board.wf(),
            board@.width == width,
            board@.height == height,
            board@.word_count() == 0,
            forall|p: Point|
                board@.in_bounds(p) ==> #[trigger] board@.letter(p) == letters@[p.y as int]@[p.x as int],
            forall|p: Point| board@.in_bounds(p) ==> #[trigger] board@.owner(p) is None,
    {
        let mut word_ids: Vec<Vec<Option<usize>>> = Vec::new();
        let mut y: usize = 0;
        while y < height
            invariant
                y <= height,
                word_ids@.len() == y,
                forall|k: int| 0 <= k < y ==> (#[trigger] word_ids@[k])@.len() == width,
                forall|k: int, x: int|
                    0 <= k < y && 0 <= x < width ==> #[trigger] word_ids@[k]@[x] is None,
            decreases height - y,
        {
            let mut row: Vec<Option<usize>> = Vec::new();
            let mut x: usize = 0;
            while x < width
                invariant
                    x <= width,
                    row@.len() == x,
                    forall|k: int| 0 <= k < x ==> #[trigger] row@[k] is None,
                decreases width - x,
            {
                row.push(None);
                x += 1;
            }
            word_ids.push(row);
            y += 1;
        }
        let board = Board { width, height, letters, word_ids };
        proof {
            assert(board@.counts_words(0));
            board@.lemma_word_count_is(0);
        }
        board
    }

    /// Reads a board from its text: exactly `height` lines of `width`
    /// lowercase letters, each ended by a newline. A byte after the last line
    /// is as unexpected as a wrong byte within a line.
    pub fn try_from(value: &str, width: usize, height: usize) -> (r: Result<Board, ParseError>)
        requires
            width <= MAX_SIDE,
            height <= MAX_SIDE,
        ensures
            match r {
                Ok(board) => {
                    &&& fits_all(value.spec_bytes(), width as int, height as int)
                    &&& value.spec_bytes().len() == text_index(width as int, height as int, 0)
                    &&& board.wf()
                    &&& board@.width == width
                    &&& board@.height == height
                    &&& board@.word_count() == 0
                    &&& forall|p: Point|
                        board@.in_bounds(p) ==> #[trigger] board@.letter(p)
                            == value.spec_bytes()[text_index(width as int, p.y as int, p.x as int)]
                    &&& forall|p: Point| board@.in_bounds(p) ==> #[trigger] board@.owner(p) is None
                },
                Err(e) => {
                    ||| exists|line: int, character: int|
                        #[trigger] is_first_misfit(
                            value.spec_bytes(),
                            width as int,
                            height as int,
                            line,
                            character,
                        ) && e == error_at(value.spec_bytes(), width as int, line, character)
                    ||| {
                        &&& fits_all(value.spec_bytes(), width as int, height as int)
                        &&& value.spec_bytes().len() > text_index(width as int, height as int, 0)
                        &&& e == ParseError::UnexpectedChar(
                            value.spec_bytes()[text_index(width as int, height as int, 0)],
                        )
                    }
                },
            },
    {
        let bytes = value.as_bytes();
        let ghost text = value.spec_bytes();
        let ghost w = width as int;
        let mut letters: Vec<Vec<u8>> = Vec::new();
        let mut pos: usize = 0;
        let mut y: usize = 0;
        while y < height
            invariant
                bytes@ == text && text == value.spec_bytes(),
                w == width <= MAX_SIDE,
                y <= height <= MAX_SIDE,
                pos == text_index(w, y as int, 0),
                letters@.len() == y,
                forall|k: int| 0 <= k < y ==> (#[trigger] letters@[k])@.len() == width,
                forall|l: int, c: int| 0 <= l < y && 0 <= c <= w ==> #[trigger] fits(text, w, l, c),
                forall|l: int, c: int|
                    0 <= l < y && 0 <= c < w ==> #[trigger] letters@[l]@[c] == text[text_index(
                        w,
                        l,
                        c,
                    )],
            decreases height - y,
        {
            assert(text_index(w, y as int, w) <= 256 * 257) by (nonlinear_arith)
                requires
                    0 <= y < 256,
                    0 <= w <= 256,
            ;
            let mut row: Vec<u8> = Vec::new();
            let mut x: usize = 0;
            while x < width
                invariant
                    bytes@ == text && text == value.spec_bytes(),
                    w == width <= MAX_SIDE,
                    x <= width,
                    y < height,
                    pos == text_index(w, y as int, x as int),
                    text_index(w, y as int, w) <= 256 * 257,
                    row@.len() == x,
                    forall|c: int| 0 <= c < x ==> #[trigger] fits(text, w, y as int, c),
                    forall|c: int|
                        0 <= c < x ==> #[trigger] row@[c] == text[text_index(w, y as int, c)],
                    forall|l: int, c: int|
                        0 <= l < y && 0 <= c <= w ==> #[trigger] fits(text, w, l, c),
                decreases width - x,
            {
                if pos < bytes.len() {
                    let c = bytes[pos];
                    if c >= crate::dictionary::FIRST_LETTER && c <= crate::dictionary::LAST_LETTER {
                        row.push(c);
                    } else {
                        assert(is_first_misfit(text, w, height as int, y as int, x as int));
                        return Err(ParseError::UnexpectedChar(c));
                    }
                } else {
                    assert(is_first_misfit(text, w, height as int, y as int, x as int));
                    return Err(ParseError::MissingChar { line: y, character: x });
                }
                pos += 1;
                x += 1;
            }
            if pos < bytes.len() {
                let c = bytes[pos];
                if c != NEWLINE {
                    assert(is_first_misfit(text, w, height as int, y as int, w));
                    return Err(ParseError::UnexpectedChar(c));
                }
            } else {
                assert(is_first_misfit(text, w, height as int, y as int, w));
                return Err(ParseError::MissingChar { line: y, character: width });
            }
            assert(text_index(w, y + 1, 0) == text_index(w, y as int, w) + 1) by (nonlinear_arith);
            pos += 1;
            letters.push(row);
            y += 1;
        }
        assert(fits_all(text, w, height as int));
        if pos < bytes.len() {
            return Err(ParseError::UnexpectedChar(bytes[pos]));
        }
        proof {
            assert forall|l: int, c: int| 0 <= l < height && 0 <= c < width implies is_letter(
                #[trigger] letters@[l]@[c],
            ) by {
                assert(fits(text, w, l, c));
            }
            if height > 0 {
                assert(fits(text, w, height - 1, w));
                assert(text_index(w, height as int, 0) == text_index(w, height - 1, w) + 1)
                    by (nonlinear_arith);
            } else {
                assert(pos == 0);
            }
        }
        Ok(Board::new(width, height, letters))
    }

    /// The number of columns.
    pub fn width(&self) -> (w: usize)
        ensures
            w == self@.width,
    {
        self.width
    }

    /// The number of rows.
    pub fn height(&self) -> (h: usize)
        ensures
            h == self@.height,
    {
        self.height
    }

    /// The letter in cell `p`.
    pub fn letter_at(&self, p: Point) -> (c: u8)
        requires
            self@.shaped(),
            self@.in_bounds(p),
        ensures
            c == self@.letter(p),
            is_letter(c),
    {
        assert(self@.letters[p.y as int].len() == self@.width);
        assert(is_letter(self@.letter(p)));
        self.letters[p.y as usize][p.x as usize]
    }

    /// The number of the word that owns cell `p`, if one does.
    pub fn word_at(&self, p: Point) -> (id: Option<usize>)
        requires
            self@.shaped(),
            self@.in_bounds(p),
        ensures
            id == self@.owner(p),
    {
        assert(self@.owners[p.y as int].len() == self@.width);
        self.word_ids[p.y as usize][p.x as usize]
    }

    /// Whether the cell in column `x` of row `y` is owned by a word.
    pub fn visited(&self, x: usize, y: usize) -> (r: bool)
        requires
            self@.shaped(),
            x < self@.width,
            y < self@.height,
        ensures
            r == self@.owners[y as int][x as int] is Some,
    {
        assert(self@.owners[y as int].len() == self@.width);
        self.word_ids[y][x].is_some()
    }

    /// The number of words on the board: one more than the highest number of
    /// a word, or 0 where no cell is owned.
    pub fn n_words(&self) -> (n: usize)
        requires
            self.wf(),
        ensures
            n == self@.word_count(),
    {
        let ghost total = self@.word_count();
        proof {
            self@.lemma_word_count_bounded();
            assert(self@.counts_words(total));
        }
        let mut count: usize = 0;
        let mut y: usize = 0;
        while y < self.height
            invariant
                self@.shaped(),
                self@.counts_words(total),
                total <= MAX_SIDE * MAX_SIDE,
                y <= self.height == self@.height,
                self.width == self@.width,
                count <= total,
                forall|q: Point|
                    self@.in_bounds(q) && q.y < y ==> (#[trigger] self@.owner(q) matches Some(id)
                        ==> id < count),
            decreases self.height - y,
        {
            let mut x: usize = 0;
            while x < self.width
                invariant
                    self@.shaped(),
                    self@.counts_words(total),
                    total <= MAX_SIDE * MAX_SIDE,
                    y < self.height == self@.height,
                    x <= self.width == self@.width,
                    count <= total,
                    forall|q: Point|
                        self@.in_bounds(q) && (q.y < y || (q.y == y && q.x < x)) ==> (
                        #[trigger] self@.owner(q) matches Some(id) ==> id < count),
                decreases self.width - x,
            {
                assert(self@.owners[y as int].len() == self@.width);
                let ghost here = Point { x: x as u8, y: y as u8 };
                assert(self@.in_bounds(here) && self@.owner(here) == self.word_ids@[y as int]@[x as int]);
                if let Some(id) = self.word_ids[y][x] {
                    if id >= count {
                        count = id + 1;
                    }
                }
                x += 1;
            }
            y += 1;
        }
        proof {
            if count < total {
                assert(self@.holds_id(count as nat));
            }
        }
        count
    }

    /// Writes `id` as the owner of every cell of `points`.
    fn set_owner(&mut self, points: &PointSet, id: Option<usize>)
        requires
            old(self)@.shaped(),
            forall|k: int| 0 <= k < points@.len() ==> old(self)@.in_bounds(#[trigger] points@[k]),
        ensures
            final(self)@ == old(self)@.assign(points@, id),
    {
        let n = points.length();
        let mut i: usize = 0;
        proof {
            assert forall|y: int| 0 <= y < self.height implies (#[trigger] self.word_ids@[y])@.len()
                == self.width by {
                assert(self@.owners[y].len() == self@.width);
            }
        }
        while i < n
            invariant
                n == points@.len(),
                i <= n,
                old(self)@.shaped(),
                forall|k: int|
                    0 <= k < points@.len() ==> old(self)@.in_bounds(#[trigger] points@[k]),
                self.width == old(self).width,
                self.height == old(self).height,
                self.letters == old(self).letters,
                self.word_ids@.len() == self.height,
                forall|y: int|
                    0 <= y < self.height ==> (#[trigger] self.word_ids@[y])@.len() == self.width,
                forall|y: int, x: int|
                    0 <= y < self.height && 0 <= x < self.width
                        ==> #[trigger] self.word_ids@[y]@[x] == owner_so_far(
                        old(self)@,
                        points@,
                        i as int,
                        id,
                        x,
                        y,
                    ),
            decreases n - i,
        {
            let p = points.get(i);
            assert(old(self)@.in_bounds(points@[i as int]));
            assert(old(self)@.owners[p.y as int].len() == self.width);
            let ghost before = self.word_ids@;
            self.word_ids[p.y as usize][p.x as usize] = id;
            proof {
                assert forall|y: int, x: int|
                    0 <= y < self.height && 0 <= x < self.width implies #[trigger] self.word_ids@[y]@[x]
                    == owner_so_far(old(self)@, points@, i + 1, id, x, y) by {
                    let q = Point { x: x as u8, y: y as u8 };
                    if y == p.y && x == p.x {
                        assert(points@[i as int] == q);
                    } else {
                        assert(self.word_ids@[y]@[x] == before[y]@[x]);
                        if exists|k: int| 0 <= k < i + 1 && points@[k] == q {
                            let k = choose|k: int| 0 <= k < i + 1 && points@[k] == q;
                            assert(0 <= k < i && points@[k] == q);
                        }
                    }
                }
            }
            i += 1;
        }
        proof {
            let want = old(self)@.assign(points@, id);
            assert forall|y: int, x: int|
                0 <= y < self.height && 0 <= x < self.width implies self@.owners[y][x]
                == want.owners[y][x] by {
                let q = Point { x: x as u8, y: y as u8 };
                assert(self@.owners[y][x] == self.word_ids@[y]@[x]);
                if points@.contains(q) {
                    let k = choose|k: int| 0 <= k < points@.len() && points@[k] == q;
                    assert(0 <= k < i && points@[k] == q);
                }
            }
            assert(self@.owners =~~= want.owners);
            assert(self@.letters =~~= want.letters);
        }
    }

    /// Makes the cells of `points` the next word of the board.
    pub fn insert_word(&mut self, points: &PointSet)
        requires
            old(self).wf(),
            old(self)@.can_insert(points@),
        ensures
            final(self).wf(),
            final(self)@ == old(self)@.insert(points@),
            final(self)@.word_count() == old(self)@.word_count() + 1,
    {
        let word_id = self.n_words();
        proof {
            self@.lemma_insert(points@);
        }
        self.set_owner(points, Some(word_id));
    }

    /// Sets the cells of `points` free again. They must be the cells of the
    /// word that was inserted last.
    pub fn remove_word(&mut self, points: &PointSet)
        requires
            old(self).wf(),
            old(self)@.is_latest(points@),
        ensures
            final(self).wf(),
            final(self)@ == old(self)@.remove(points@),
            final(self)@.word_count() == old(self)@.word_count() - 1,
    {
        proof {
            self@.lemma_remove(points@);
        }
        self.set_owner(points, None);
    }

    /// Whether every cell is owned by a word.
    pub fn is_done(&self) -> (r: bool)
        requires
            self@.shaped(),
        ensures
            r == self@.is_done(),
    {
        match self.get_root() {
            Some(_) => false,
            None => true,
        }
    }

    /// The first free cell in row-major order: the uppermost row that has
    /// one, and in it the leftmost.
    pub fn get_root(&self) -> (r: Option<Point>)
        requires
            self@.shaped(),
        ensures
            match r {
                Some(p) => self@.is_first_free(p),
                None => self@.is_done(),
            },
    {
        let mut y: usize = 0;
        while y < self.height
            invariant
                self@.shaped(),
                y <= self.height == self@.height,
                self.width == self@.width,
                forall|q: Point| self@.in_bounds(q) && q.y < y ==> #[trigger] self@.owner(q) is Some,
            decreases self.height - y,
        {
            let mut x: usize = 0;
            while x < self.width
                invariant
                    self@.shaped(),
                    y < self.height == self@.height,
                    x <= self.width == self@.width,
                    forall|q: Point|
                        self@.in_bounds(q) && (q.y < y || (q.y == y && q.x < x))
                            ==> #[trigger] self@.owner(q) is Some,
                decreases self.width - x,
            {
                if !self.visited(x, y) {
                    return Some(Point::new(x as u8, y as u8));
                }
                x += 1;
            }
            y += 1;
        }
        None
    }

    /// Whether the cells `(x, y)` and `(x + 1, y)` belong to one word.
    pub fn is_h_connection(&self, x: usize, y: usize) -> (r: bool)
        requires
            self@.shaped(),
            x + 1 < self@.width,
            y < self@.height,
        ensures
            r == (self@.owners[y as int][x as int] is Some && self@.owners[y as int][x as int]
                == self@.owners[y as int][x + 1]),
    {
        assert(self@.owners[y as int].len() == self@.width);
        match (self.word_ids[y][x], self.word_ids[y][x + 1]) {
            (Some(a), Some(b)) => a == b,
            _ => false,
        }
    }

    /// Whether the cells `(x, y)` and `(x, y + 1)` belong to one word.
    pub fn is_v_connection(&self, x: usize, y: usize) -> (r: bool)
        requires
            self@.shaped(),
            x < self@.width,
            y + 1 < self@.height,
        ensures
            r == (self@.owners[y as int][x as int] is Some && self@.owners[y as int][x as int]
                == self@.owners[y + 1][x as int]),
    {
        assert(self@.owners[y as int].len() == self@.width);
        assert(self@.owners[y + 1].len() == self@.width);
        match (self.word_ids[y][x], self.word_ids[y + 1][x]) {
            (Some(a), Some(b)) => a == b,
            _ => false,
        }
    }
}

} // verus!

//! The mine: a grid of cells, read from and printed to map text, and
//! versioned by lists of edits.
//!
//! An image holds its rows bottom-up: row 0 is the last line of the map.
//! A `Mine` is an image shared between versions plus the edits that this
//! version makes to it; `focus` folds the edits into a fresh image.
use vstd::prelude::*;
use std::rc::Rc;
use crate::geom::{Point, Rect};
use crate::space::{
    char_of_space, code_printable, code_valid, hideable, is_map_char, lemma_char_space_char,
    lemma_show_hide, map_char, printable, space_hide_, space_of_char, space_show_,
    spec_char_of_space, spec_hide, spec_show, spec_space_of_char, Space, SpaceCode,
};

verus! {

/// Why a map text could not be read.
#[derive(Clone, Copy, PartialEq, Eq, Structural, Debug)]
pub enum ParseError {
    /// A map line holds a character that is not a map character.
    BadChar,
    /// The text has no map line before its first blank line.
    NoMap,
    /// The map is wider or higher than a game can be.
    TooLarge,
    /// The map has no robot.
    NoRobot,
    /// A metadata line is not one of the known forms.
    BadMetadata,
}

/// The cell codes of a grid of rows, bottom-up.
pub type Rows = Seq<Seq<SpaceCode>>;

pub open spec fn rows_width(rows: Rows) -> int {
    if rows.len() > 0 {
        rows[0].len() as int
    } else {
        0
    }
}

/// A grid as images hold it: at least one row, all rows of one width, of
/// valid cell codes.
pub open spec fn rows_wf(rows: Rows) -> bool {
    &&& 1 <= rows.len()
    &&& forall|y: int| 0 <= y < rows.len() ==> #[trigger] rows[y].len() == rows_width(rows)
    &&& forall|y: int, x: int|
        0 <= y < rows.len() && 0 <= x < rows_width(rows) ==> code_valid(#[trigger] rows[y][x])
}

/// Every cell of the grid can be named by a `Point`: neither extent passes
/// the largest `Coord`.
pub open spec fn rows_fit(rows: Rows) -> bool {
    rows.len() <= i16::MAX && rows_width(rows) <= i16::MAX
}

/// Every cell of the grid shows on a map.
pub open spec fn rows_printable(rows: Rows) -> bool {
    forall|y: int, x: int|
        0 <= y < rows.len() && 0 <= x < rows_width(rows) ==> code_printable(#[trigger] rows[y][x])
}

pub open spec fn rows_box(rows: Rows) -> Rect {
    Rect { x: 0, y: 0, w: rows_width(rows) as u16, h: rows.len() as u16 }
}

pub open spec fn in_rows(rows: Rows, p: Point) -> bool {
    0 <= p.x < rows_width(rows) && 0 <= p.y < rows.len()
}

/// The cell at `p`; a wall outside the grid.
pub open spec fn rows_get(rows: Rows, p: Point) -> Space {
    if in_rows(rows, p) {
        spec_show(rows[p.y as int][p.x as int])
    } else {
        Space::Wall
    }
}

/// A grid of cell codes, bottom row first. Rows are shared between the
/// images that a mine's versions fold into, so that folding edits copies
/// only the rows that they change.
#[derive(Debug)]
pub struct MineImage {
    rows: Vec<Rc<Vec<SpaceCode>>>,
}

impl View for MineImage {
    type V = Rows;

    closed spec fn view(&self) -> Rows {
        Seq::new(self.rows@.len(), |i: int| self.rows@[i]@)
    }
}

impl MineImage {
    /// The cell at `p`; a wall outside the image.
    pub fn get(&self, p: Point) -> (s: Space)
        requires
            rows_wf(self@),
        ensures
            s == rows_get(self@, p),
            hideable(s),
    {
        assert(self@[0].len() == self.rows@[0]@.len());
        if 0 <= p.x && 0 <= p.y && (p.y as usize) < self.rows.len() && (p.x as usize)
            < self.rows[0].len() {
            assert(self@[p.y as int].len() == self.rows@[p.y as int]@.len());
            let row: &Vec<SpaceCode> = &*self.rows[p.y as usize];
            let c: SpaceCode = row[p.x as usize];
            assert(c == self@[p.y as int][p.x as int]);
            space_show_(c)
        } else {
            Space::Wall
        }
    }

    /// The rectangle that the image covers.
    pub fn bbox(&self) -> (r: Rect)
        requires
            rows_wf(self@),
        ensures
            r == rows_box(self@),
            rows_fit(self@) ==> r.fits(),
    {
        assert(self@[0].len() == self.rows@[0]@.len());
        let row: &Vec<SpaceCode> = &*self.rows[0];
        Rect { x: 0, y: 0, w: row.len() as u16, h: self.rows.len() as u16 }
    }

    /// The height of the image.
    pub fn height(&self) -> (n: usize)
        ensures
            n == self@.len(),
    {
        self.rows.len()
    }

    /// The width of the image.
    pub fn width(&self) -> (n: usize)
        requires
            rows_wf(self@),
        ensures
            n == rows_width(self@),
    {
        assert(self@[0].len() == self.rows@[0]@.len());
        let row: &Vec<SpaceCode> = &*self.rows[0];
        row.len()
    }
}

/// A grid that fits the coordinates has a representable rectangle, whose
/// cells are those of the grid.
pub proof fn lemma_rows_box(rows: Rows, p: Point)
    requires
        rows_wf(rows),
        rows_fit(rows),
    ensures
        rows_box(rows).fits(),
        rows_box(rows).x == 0,
        rows_box(rows).y == 0,
        rows_box(rows).w == rows_width(rows),
        rows_box(rows).h == rows.len(),
        in_rows(rows, p) <==> rows_box(rows).spec_contains(p),
{
}

/// One cell set to one space.
#[derive(Clone, Copy, PartialEq, Eq, Structural, Debug)]
pub struct Change {
    pub at: Point,
    pub what: Space,
}

/// One cell set to one code.
#[derive(Clone, Copy, PartialEq, Eq, Structural, Debug)]
pub struct CodedChange {
    pub at: Point,
    pub what: SpaceCode,
}

/// The space that the last change at `p` writes, if any.
pub open spec fn last_write(ch: Seq<Change>, p: Point) -> Option<Space>
    decreases ch.len(),
{
    if ch.len() == 0 {
        None
    } else if ch.last().at == p {
        Some(ch.last().what)
    } else {
        last_write(ch.drop_last(), p)
    }
}

/// The code that the last coded change at `p` writes, if any.
pub open spec fn last_code(ch: Seq<CodedChange>, p: Point) -> Option<SpaceCode>
    decreases ch.len(),
{
    if ch.len() == 0 {
        None
    } else if ch.last().at == p {
        Some(ch.last().what)
    } else {
        last_code(ch.drop_last(), p)
    }
}

/// The changes are in the grid and write cells that have a code.
pub open spec fn changes_fit(ch: Seq<Change>, rows: Rows) -> bool {
    forall|i: int| 0 <= i < ch.len() ==> in_rows(rows, (#[trigger] ch[i]).at) && hideable(ch[i].what)
}

/// A version of a mine.
#[derive(Debug)]
pub struct Mine {
    base: Rc<MineImage>,
    diffs: Vec<CodedChange>,
}

/// A mine whose cells are those of `image`.
pub fn new_mine(image: MineImage) -> (m: Mine)
    requires
        rows_wf(image@),
    ensures
        m.wf(),
        m.pending().len() == 0,
        m.base_rows() == image@,
        m.spec_box() == rows_box(image@),
        forall|p: Point| #[trigger] m.spec_get(p) == rows_get(image@, p),
{
    Mine { base: Rc::new(image), diffs: Vec::new() }
}

pub proof fn lemma_last_code_outside(ch: Seq<CodedChange>, rows: Rows, p: Point)
    requires
        forall|i: int| 0 <= i < ch.len() ==> in_rows(rows, (#[trigger] ch[i]).at),
        !in_rows(rows, p),
    ensures
        last_code(ch, p) is None,
    decreases ch.len(),
{
    if ch.len() > 0 {
        assert(in_rows(rows, ch[ch.len() - 1].at));
        lemma_last_code_outside(ch.drop_last(), rows, p);
    }
}

pub proof fn lemma_last_code_valid(ch: Seq<CodedChange>, p: Point)
    requires
        forall|i: int| 0 <= i < ch.len() ==> code_valid((#[trigger] ch[i]).what),
    ensures
        last_code(ch, p) matches Some(c) ==> code_valid(c),
    decreases ch.len(),
{
    if ch.len() > 0 {
        assert(code_valid(ch[ch.len() - 1].what));
        lemma_last_code_valid(ch.drop_last(), p);
    }
}

/// The code at row `y`, column `x` once the pending edits are made.
pub open spec fn code_after(base: Rows, pend: Seq<CodedChange>, y: int, x: int) -> SpaceCode {
    if y <= i16::MAX && x <= i16::MAX {
        match last_code(pend, Point { x: x as i16, y: y as i16 }) {
            Some(c) => c,
            None => base[y][x],
        }
    } else {
        base[y][x]
    }
}

/// The grid once the pending edits are made.
pub open spec fn edited_rows(base: Rows, pend: Seq<CodedChange>) -> Rows {
    Seq::new(
        base.len(),
        |y: int| Seq::new(rows_width(base) as nat, |x: int| code_after(base, pend, y, x)),
    )
}

impl Mine {
    /// The image that this version's edits apply to.
    pub closed spec fn base_rows(&self) -> Rows {
        (*self.base)@
    }

    /// This version's edits, oldest first.
    pub closed spec fn pending(&self) -> Seq<CodedChange> {
        self.diffs@
    }

    pub open spec fn wf(&self) -> bool {
        &&& rows_wf(self.base_rows())
        &&& forall|i: int|
            0 <= i < self.pending().len() ==> in_rows(self.base_rows(), (#[trigger] self.pending()[i]).at)
                && code_valid(self.pending()[i].what)
    }

    /// The mine's grid with this version's edits made.
    pub open spec fn rows_view(&self) -> Rows {
        edited_rows(self.base_rows(), self.pending())
    }

    /// The rectangle that the mine covers.
    pub open spec fn spec_box(&self) -> Rect {
        rows_box(self.base_rows())
    }

    /// `p` is a cell of the mine.
    pub open spec fn inside(&self, p: Point) -> bool {
        in_rows(self.base_rows(), p)
    }

    /// The cell at `p`: what the last edit at `p` wrote, else the image's cell;
    /// a wall outside the mine.
    pub open spec fn spec_get(&self, p: Point) -> Space {
        match last_code(self.pending(), p) {
            Some(c) => spec_show(c),
            None => rows_get(self.base_rows(), p),
        }
    }

    /// Outside its grid a mine is wall, every cell has a code, and where the
    /// grid fits the coordinates, its cells are those of its rectangle.
    pub proof fn lemma_cells(&self, p: Point)
        requires
            self.wf(),
        ensures
            !self.inside(p) ==> self.spec_get(p) == Space::Wall,
            hideable(self.spec_get(p)),
            rows_fit(self.base_rows()) ==> (self.inside(p) <==> self.spec_box().spec_contains(p)),
    {
        if !self.inside(p) {
            lemma_last_code_outside(self.pending(), self.base_rows(), p);
        }
        lemma_last_code_valid(self.pending(), p);
    }

    /// A cell of the mine shows the code of its row and column in the
    /// edited grid.
    pub proof fn lemma_rows_view_cell(&self, p: Point)
        requires
            self.wf(),
            self.inside(p),
        ensures
            self.spec_get(p) == spec_show(self.rows_view()[p.y as int][p.x as int]),
    {
        assert(Point { x: (p.x as int) as i16, y: (p.y as int) as i16 } == p);
    }

    /// Without pending edits, the edited grid is the image.
    pub proof fn lemma_rows_view_settled(&self)
        requires
            self.wf(),
            self.pending().len() == 0,
        ensures
            self.rows_view() == self.base_rows(),
    {
        let b = self.base_rows();
        assert forall|y: int| 0 <= y < b.len() implies #[trigger] self.rows_view()[y] =~= b[y] by {}
        assert(self.rows_view() =~= b);
    }

    /// Where every cell of a fitting mine is printable, its edited grid is.
    pub proof fn lemma_printable_rows(&self)
        requires
            self.wf(),
            rows_fit(self.base_rows()),
            forall|p: Point| printable(#[trigger] self.spec_get(p)),
        ensures
            rows_printable(self.rows_view()),
    {
        let v = self.rows_view();
        assert forall|y: int, x: int| 0 <= y < v.len() && 0 <= x < rows_width(v) implies code_printable(
            #[trigger] v[y][x],
        ) by {
            let p = Point { x: x as i16, y: y as i16 };
            assert(self.inside(p));
            self.lemma_rows_view_cell(p);
            assert(printable(self.spec_get(p)));
            lemma_last_code_valid(self.pending(), p);
        }
    }

    /// The cell at `p`.
    pub fn get(&self, p: Point) -> (s: Space)
        requires
            self.wf(),
        ensures
            s == self.spec_get(p),
            hideable(s),
    {
        proof {
            self.lemma_cells(p);
        }
        let n = self.diffs.len();
        let mut i = n;
        assert(self.pending().take(n as int) == self.pending());
        while i > 0
            invariant
                i <= n == self.pending().len(),
                self.wf(),
                last_code(self.pending(), p) == last_code(self.pending().take(i as int), p),
            decreases i,
        {
            let d = self.diffs[i - 1];
            assert(self.pending().take(i as int).drop_last() == self.pending().take(i - 1));
            if d.at == p {
                assert(code_valid(self.pending()[i - 1].what));
                return space_show_(d.what);
            }
            i = i - 1;
        }
        self.base.get(p)
    }

    /// The rectangle that the mine covers.
    pub fn bbox(&self) -> (r: Rect)
        requires
            self.wf(),
        ensures
            r == self.spec_box(),
            rows_fit(self.base_rows()) ==> r.fits(),
    {
        self.base.bbox()
    }

    /// A new version of the mine with the changes made in order, so that the
    /// last change at a cell wins; `self` is left as it was.
    pub fn edit(&self, ch: Vec<Change>) -> (r: Mine)
        requires
            self.wf(),
            changes_fit(ch@, self.base_rows()),
        ensures
            r.wf(),
            r.base_rows() == self.base_rows(),
            forall|p: Point|
                #[trigger] r.spec_get(p) == match last_write(ch@, p) {
                    Some(s) => s,
                    None => self.spec_get(p),
                },
    {
        let mut diffs = self.diffs.clone();
        assert(diffs@ == self.pending());
        let n = ch.len();
        let mut i: usize = 0;
        while i < n
            invariant
                n == ch@.len(),
                i <= n,
                self.wf(),
                changes_fit(ch@, self.base_rows()),
                forall|j: int|
                    0 <= j < diffs@.len() ==> in_rows(self.base_rows(), (#[trigger] diffs@[j]).at)
                        && code_valid(diffs@[j].what),
                forall|p: Point|
                    #[trigger] last_code(diffs@, p) == match last_write(ch@.take(i as int), p) {
                        Some(s) => Some(spec_hide(s)),
                        None => last_code(self.pending(), p),
                    },
            decreases n - i,
        {
            let c = ch[i];
            assert(in_rows(self.base_rows(), ch@[i as int].at) && hideable(ch@[i as int].what));
            let code = space_hide_(c.what);
            let ghost old_diffs = diffs@;
            diffs.push(CodedChange { at: c.at, what: code });
            assert(diffs@.drop_last() == old_diffs);
            assert(ch@.take(i + 1).drop_last() == ch@.take(i as int));
            assert forall|p: Point|
                #[trigger] last_code(diffs@, p) == match last_write(ch@.take(i + 1), p) {
                    Some(s) => Some(spec_hide(s)),
                    None => last_code(self.pending(), p),
                } by {
                assert(last_code(diffs@, p) == (if p == c.at {
                    Some(code)
                } else {
                    last_code(old_diffs, p)
                }));
            }
            i = i + 1;
        }
        assert(ch@.take(n as int) == ch@);
        let r = Mine { base: self.base.clone(), diffs };
        assert forall|p: Point|
            #[trigger] r.spec_get(p) == match last_write(ch@, p) {
                Some(s) => s,
                None => self.spec_get(p),
            } by {
            if let Some(s) = last_write(ch@, p) {
                lemma_last_write_hideable(ch@, p);
                lemma_show_hide(s);
            }
        }
        r
    }

    /// Folds this version's edits into a fresh image, leaving every cell as
    /// it was.
    pub fn focus(&mut self)
        requires
            old(self).wf(),
        ensures
            final(self).wf(),
            final(self).pending().len() == 0,
            final(self).base_rows() == old(self).rows_view(),
            final(self).base_rows().len() == old(self).base_rows().len(),
            rows_width(final(self).base_rows()) == rows_width(old(self).base_rows()),
            final(self).spec_box() == old(self).spec_box(),
            forall|p: Point| #[trigger] final(self).spec_get(p) == old(self).spec_get(p),
    {
        let ghost base = self.base_rows();
        let ghost pend = self.pending();
        if self.diffs.len() == 0 {
            proof {
                self.lemma_rows_view_settled();
            }
            return;
        }
        let h = self.base.rows.len();
        let mut rows: Vec<Rc<Vec<SpaceCode>>> = Vec::new();
        let mut y: usize = 0;
        while y < h
            invariant
                h == base.len(),
                y <= h,
                base == (*self.base)@,
                rows@.len() == y,
                forall|j: int| 0 <= j < y ==> (#[trigger] rows@[j])@ == base[j],
            decreases h - y,
        {
            let row = self.base.rows[y].clone();
            assert(row@ == base[y as int]);
            rows.push(row);
            y = y + 1;
        }
        let n = self.diffs.len();
        let mut i: usize = 0;
        assert(pend.take(0) =~= Seq::<CodedChange>::empty());
        while i < n
            invariant
                n == pend.len(),
                pend == self.diffs@,
                i <= n,
                rows_wf(base),
                forall|k: int|
                    0 <= k < pend.len() ==> in_rows(base, (#[trigger] pend[k]).at) && code_valid(
                        pend[k].what,
                    ),
                rows@.len() == base.len(),
                forall|j: int| 0 <= j < rows@.len() ==> (#[trigger] rows@[j])@.len() == base[j].len(),
                forall|yy: int, xx: int|
                    0 <= yy < base.len() && 0 <= xx < rows_width(base) ==> #[trigger] rows@[yy]@[xx]
                        == code_after(base, pend.take(i as int), yy, xx),
            decreases n - i,
        {
            let d = self.diffs[i];
            assert(in_rows(base, pend[i as int].at));
            let yy = d.at.y as usize;
            let xx = d.at.x as usize;
            let ghost old_rows = rows@;
            let shared: &Vec<SpaceCode> = &*rows[yy];
            let mut row: Vec<SpaceCode> = shared.clone();
            assert(row@ == old_rows[yy as int]@);
            row.set(xx, d.what);
            rows.set(yy, Rc::new(row));
            assert(pend.take(i + 1).drop_last() == pend.take(i as int));
            assert forall|y2: int, x2: int|
                0 <= y2 < base.len() && 0 <= x2 < rows_width(base) implies #[trigger] rows@[y2]@[x2]
                == code_after(base, pend.take(i + 1), y2, x2) by {
                assert(old_rows[y2]@[x2] == code_after(base, pend.take(i as int), y2, x2));
                if y2 <= i16::MAX && x2 <= i16::MAX {
                    let q = Point { x: x2 as i16, y: y2 as i16 };
                    assert(q == d.at <==> (y2 == yy && x2 == xx));
                }
            }
            i = i + 1;
        }
        assert(pend.take(n as int) == pend);
        let img = MineImage { rows };
        assert forall|yy: int| 0 <= yy < base.len() implies #[trigger] img@[yy] =~= edited_rows(base, pend)[yy] by {}
        assert(img@ =~= edited_rows(base, pend));
        assert forall|p: Point| #[trigger] rows_get(img@, p) == old(self).spec_get(p) by {
            if !in_rows(base, p) {
                lemma_last_code_outside(pend, base, p);
            } else {
                assert(Point { x: (p.x as int) as i16, y: (p.y as int) as i16 } == p);
            }
        }
        assert forall|yy: int, xx: int|
            0 <= yy < img@.len() && 0 <= xx < rows_width(img@) implies code_valid(
            #[trigger] img@[yy][xx],
        ) by {
            if yy <= i16::MAX && xx <= i16::MAX {
                lemma_last_code_valid(pend, Point { x: xx as i16, y: yy as i16 });
            }
        }
        self.base = Rc::new(img);
        self.diffs = Vec::new();
    }

    /// A second handle on the same version.
    pub fn duplicate(&self) -> (r: Mine)
        ensures
            r.base_rows() == self.base_rows(),
            r.pending() == self.pending(),
    {
        let diffs = self.diffs.clone();
        assert(diffs@ =~= self.diffs@);
        Mine { base: self.base.clone(), diffs }
    }

    /// The image of a mine without edits.
    pub fn image(&self) -> (img: &MineImage)
        requires
            self.pending().len() == 0,
        ensures
            img@ == self.base_rows(),
    {
        &*self.base
    }
}

/// The rectangle of a well-formed mine that fits the coordinates is
/// representable.
pub proof fn lemma_box_fits(m: Mine)
    requires
        m.wf(),
        rows_fit(m.base_rows()),
    ensures
        m.spec_box().fits(),
        m.spec_box().x == 0,
        m.spec_box().y == 0,
{
}

pub proof fn lemma_last_write_hideable(ch: Seq<Change>, p: Point)
    requires
        forall|i: int| 0 <= i < ch.len() ==> hideable((#[trigger] ch[i]).what),
    ensures
        last_write(ch, p) matches Some(s) ==> hideable(s),
    decreases ch.len(),
{
    if ch.len() > 0 {
        assert(hideable(ch[ch.len() - 1].what));
        lemma_last_write_hideable(ch.drop_last(), p);
    }
}

pub proof fn lemma_last_write_printable(ch: Seq<Change>, p: Point)
    requires
        forall|i: int| 0 <= i < ch.len() ==> printable((#[trigger] ch[i]).what),
    ensures
        last_write(ch, p) matches Some(s) ==> printable(s),
    decreases ch.len(),
{
    if ch.len() > 0 {
        assert(printable(ch[ch.len() - 1].what));
        lemma_last_write_printable(ch.drop_last(), p);
    }
}

/// The characters of each line of a text.
pub open spec fn text(lines: Seq<Vec<char>>) -> Seq<Seq<char>> {
    Seq::new(lines.len(), |i: int| lines[i]@)
}

/// The index of the first blank line at or after `i`, or the number of lines.
pub open spec fn map_end_from(t: Seq<Seq<char>>, i: int) -> int
    decreases t.len() - i,
{
    if i >= t.len() {
        t.len() as int
    } else if t[i].len() == 0 {
        i
    } else {
        map_end_from(t, i + 1)
    }
}

/// The number of map lines: those before the first blank line.
pub open spec fn map_end(t: Seq<Seq<char>>) -> int {
    map_end_from(t, 0)
}

/// The length of the longest of the first `k` lines.
pub open spec fn max_len(t: Seq<Seq<char>>, k: int) -> int
    decreases k,
{
    if k <= 0 {
        0
    } else {
        let m = max_len(t, k - 1);
        if t[k - 1].len() > m {
            t[k - 1].len() as int
        } else {
            m
        }
    }
}

/// The first `k` lines hold map characters only.
pub open spec fn map_chars_ok(t: Seq<Seq<char>>, k: int) -> bool {
    forall|i: int, j: int| 0 <= i < k && 0 <= j < t[i].len() ==> map_char(#[trigger] t[i][j])
}

/// The codes of a map line's cells.
pub open spec fn code_line(l: Seq<char>) -> Seq<SpaceCode> {
    Seq::new(l.len(), |x: int| spec_hide(spec_space_of_char(l[x])))
}

/// The image of the first `k` lines, `w` cells wide: the last map line is
/// the bottom row, and short lines are padded with empty cells.
pub open spec fn parsed_rows(t: Seq<Seq<char>>, k: int, w: int) -> Rows {
    Seq::new(
        k as nat,
        |y: int|
            Seq::new(
                w as nat,
                |x: int|
                    if x < t[k - 1 - y].len() {
                        spec_hide(spec_space_of_char(t[k - 1 - y][x]))
                    } else {
                        spec_hide(Space::Empty)
                    },
            ),
    )
}

/// The index of the first metadata line: the one after the blank line.
pub open spec fn meta_start(t: Seq<Seq<char>>, k: int) -> int {
    if k < t.len() {
        k + 1
    } else {
        k
    }
}

pub proof fn lemma_map_end_from_bound(t: Seq<Seq<char>>, i: int)
    requires
        0 <= i <= t.len(),
    ensures
        i <= map_end_from(t, i) <= t.len(),
    decreases t.len() - i,
{
    if i < t.len() && t[i].len() != 0 {
        lemma_map_end_from_bound(t, i + 1);
    }
}

pub proof fn lemma_max_len_bound(t: Seq<Seq<char>>, k: int, i: int)
    requires
        0 <= i < k,
    ensures
        t[i].len() <= max_len(t, k),
    decreases k,
{
    if i < k - 1 {
        lemma_max_len_bound(t, k - 1, i);
    }
}

pub proof fn lemma_max_len_attained(t: Seq<Seq<char>>, k: int)
    requires
        0 < k <= t.len(),
    ensures
        exists|i: int| 0 <= i < k && #[trigger] t[i].len() == max_len(t, k),
    decreases k,
{
    if k > 1 {
        lemma_max_len_attained(t, k - 1);
        let i = choose|i: int| 0 <= i < k - 1 && #[trigger] t[i].len() == max_len(t, k - 1);
        if t[k - 1].len() <= max_len(t, k - 1) {
            assert(t[i].len() == max_len(t, k));
        } else {
            assert(t[k - 1].len() == max_len(t, k));
        }
    } else {
        assert(max_len(t, 0) == 0);
        assert(t[0].len() == max_len(t, k));
    }
}

/// Reads the map at the top of a text: the lines before the first blank line.
/// Also gives the index of the first line after that blank line.
pub fn parse(lines: &Vec<Vec<char>>) -> (r: Result<(MineImage, usize), ParseError>)
    ensures
        ({
            let t = text(lines@);
            let k = map_end(t);
            let w = max_len(t, k);
            &&& (r == Err::<(MineImage, usize), ParseError>(ParseError::BadChar) <==> !map_chars_ok(
                t,
                k,
            ))
            &&& (r == Err::<(MineImage, usize), ParseError>(ParseError::NoMap) <==> map_chars_ok(t, k)
                && k == 0)
            &&& (r is Ok <==> map_chars_ok(t, k) && 0 < k)
            &&& r matches Ok((img, m)) ==> {
                &&& img@ == parsed_rows(t, k, w)
                &&& m == meta_start(t, k)
                &&& rows_wf(img@)
                &&& rows_printable(img@)
            }
        }),
{
    let ghost t = text(lines@);
    let n = lines.len();
    let mut k: usize = 0;
    let mut maxlen: usize = 0;
    let mut coded: Vec<Vec<SpaceCode>> = Vec::new();
    proof {
        lemma_map_end_from_bound(t, 0);
    }
    while k < n && lines[k].len() > 0
        invariant
            n == t.len(),
            k <= n,
            t == text(lines@),
            map_end(t) == map_end_from(t, k as int),
            forall|i: int| 0 <= i < k ==> #[trigger] t[i].len() > 0,
            maxlen == max_len(t, k as int),
            coded@.len() == k,
            forall|i: int| 0 <= i < k ==> (#[trigger] coded@[i])@ == code_line(t[i]),
            map_chars_ok(t, k as int),
        decreases n - k,
    {
        let line = &lines[k];
        assert(line@ == t[k as int]);
        let len = line.len();
        let mut row: Vec<SpaceCode> = Vec::new();
        let mut j: usize = 0;
        while j < len
            invariant
                t == text(lines@),
                n == t.len(),
                k < n,
                map_end(t) == map_end_from(t, k as int),
                len == t[k as int].len(),
                len > 0,
                line@ == t[k as int],
                j <= len,
                row@ == code_line(t[k as int]).take(j as int),
                forall|jj: int| 0 <= jj < j ==> map_char(#[trigger] t[k as int][jj]),
            decreases len - j,
        {
            let c = line[j];
            if !is_map_char(c) {
                proof {
                    lemma_map_end_from_bound(t, k + 1);
                    assert(map_end_from(t, k as int) == map_end_from(t, k + 1));
                    assert(!map_char(t[k as int][j as int]));
                    assert(0 <= k < map_end(t) && 0 <= j < t[k as int].len());
                    assert(!map_chars_ok(t, map_end(t)));
                }
                return Err(ParseError::BadChar);
            }
            let code = space_hide_(space_of_char(c));
            row.push(code);
            assert(row@ == code_line(t[k as int]).take(j + 1));
            j = j + 1;
        }
        assert(row@ == code_line(t[k as int]));
        if len > maxlen {
            maxlen = len;
        }
        coded.push(row);
        assert(map_end_from(t, k as int) == map_end_from(t, k + 1));
        k = k + 1;
    }
    assert(map_end_from(t, k as int) == k);
    if k == 0 {
        return Err(ParseError::NoMap);
    }
    let ghost w = maxlen as int;
    let mut rows: Vec<Rc<Vec<SpaceCode>>> = Vec::new();
    let mut y: usize = 0;
    while y < k
        invariant
            0 < k,
            y <= k,
            k == coded@.len(),
            w == maxlen == max_len(t, k as int),
            forall|i: int| 0 <= i < k ==> (#[trigger] coded@[i])@ == code_line(t[i]),
            rows@.len() == y,
            forall|yy: int| 0 <= yy < y ==> (#[trigger] rows@[yy])@ == parsed_rows(t, k as int, w)[yy],
        decreases k - y,
    {
        let src = &coded[k - 1 - y];
        let mut row = src.clone();
        proof {
            lemma_max_len_bound(t, k as int, k - 1 - y);
        }
        assert(row@ == code_line(t[k - 1 - y]));
        let len0 = row.len();
        while row.len() < maxlen
            invariant
                len0 == t[k - 1 - y].len() <= maxlen,
                len0 <= row@.len() <= maxlen,
                forall|x: int| 0 <= x < len0 ==> #[trigger] row@[x] == code_line(t[k - 1 - y])[x],
                forall|x: int| len0 <= x < row@.len() ==> #[trigger] row@[x] == spec_hide(Space::Empty),
            decreases maxlen - row@.len(),
        {
            row.push(7u8);
        }
        assert(row@ == parsed_rows(t, k as int, w)[y as int]);
        rows.push(Rc::new(row));
        y = y + 1;
    }
    let img = MineImage { rows };
    assert(img@ == parsed_rows(t, k as int, w));
    proof {
        lemma_max_len_attained(t, k as int);
        let i = choose|i: int| 0 <= i < k && #[trigger] t[i].len() == max_len(t, k as int);
        assert(t[i].len() > 0);
        assert forall|yy: int, xx: int|
            0 <= yy < img@.len() && 0 <= xx < rows_width(img@) implies code_printable(
            #[trigger] img@[yy][xx],
        ) by {
            if xx < t[k - 1 - yy].len() {
                let c = t[k - 1 - yy][xx];
                assert(map_char(c));
                lemma_char_space_char(c);
                lemma_show_hide(spec_space_of_char(c));
            }
        }
    }
    let meta = if k < n {
        k + 1
    } else {
        k
    };
    Ok((img, meta))
}

/// The lines that print a grid: the top row first, one character per cell.
pub open spec fn print_rows(rows: Rows) -> Seq<Seq<char>> {
    let h = rows.len() as int;
    Seq::new(
        rows.len(),
        |i: int|
            Seq::new(
                rows_width(rows) as nat,
                |j: int| spec_char_of_space(spec_show(rows[h - 1 - i][j])),
            ),
    )
}

/// Prints the mine, top row first; every cell must show on a map. The mine
/// is focused on the way.
pub fn print(mine: &mut Mine) -> (out: Vec<Vec<char>>)
    requires
        old(mine).wf(),
        rows_printable(old(mine).rows_view()),
    ensures
        text(out@) == print_rows(old(mine).rows_view()),
        final(mine).wf(),
        final(mine).pending().len() == 0,
        final(mine).base_rows() == old(mine).rows_view(),
        final(mine).spec_box() == old(mine).spec_box(),
        forall|p: Point| #[trigger] final(mine).spec_get(p) == old(mine).spec_get(p),
{
    mine.focus();
    let img = mine.image();
    let ghost rows = img@;
    let n = img.rows.len();
    let mut out: Vec<Vec<char>> = Vec::new();
    let mut i: usize = 0;
    while i < n
        invariant
            n == rows.len(),
            rows == img@,
            rows_wf(rows),
            rows_printable(rows),
            i <= n,
            out@.len() == i,
            forall|ii: int| 0 <= ii < i ==> (#[trigger] out@[ii])@ == print_rows(rows)[ii],
        decreases n - i,
    {
        let row: &Vec<SpaceCode> = &*img.rows[n - 1 - i];
        assert(row@ == rows[n - 1 - i]);
        let w = row.len();
        let mut line: Vec<char> = Vec::new();
        let mut x: usize = 0;
        while x < w
            invariant
                n == rows.len(),
                i < n,
                rows_wf(rows),
                rows_printable(rows),
                row@ == rows[n - 1 - i],
                w == row@.len() == rows_width(rows),
                x <= w,
                line@ == print_rows(rows)[i as int].take(x as int),
            decreases w - x,
        {
            let c = row[x];
            assert(code_printable(rows[n - 1 - i][x as int]));
            let s = space_show_(c);
            let ch = char_of_space(s);
            line.push(ch);
            assert(line@ == print_rows(rows)[i as int].take(x + 1));
            x = x + 1;
        }
        assert(line@ == print_rows(rows)[i as int]);
        out.push(line);
        i = i + 1;
    }
    assert(text(out@) == print_rows(rows));
    out
}

/// Printing the mine that a map text reads as gives back the map lines,
/// each padded with spaces to the width of the longest, at any size.
pub proof fn lemma_print_parse(t: Seq<Seq<char>>, m: Mine)
    requires
        map_chars_ok(t, map_end(t)),
        0 < map_end(t),
        m.wf(),
        m.pending().len() == 0,
        m.base_rows() == parsed_rows(t, map_end(t), max_len(t, map_end(t))),
    ensures
        rows_printable(m.rows_view()),
        ({
            let k = map_end(t);
            let w = max_len(t, k);
            let out = print_rows(m.rows_view());
            &&& out.len() == k
            &&& forall|i: int|
                0 <= i < k ==> (#[trigger] out[i]).len() == w && forall|j: int|
                    0 <= j < w ==> out[i][j] == if j < t[i].len() {
                        t[i][j]
                    } else {
                        ' '
                    }
        }),
{
    let k = map_end(t);
    let w = max_len(t, k);
    lemma_map_end_from_bound(t, 0);
    lemma_max_len_attained(t, k);
    m.lemma_rows_view_settled();
    let rows = m.rows_view();
    let i0 = choose|i: int| 0 <= i < k && #[trigger] t[i].len() == max_len(t, k);
    assert(rows_width(rows) == w);
    assert forall|yy: int, xx: int| 0 <= yy < rows.len() && 0 <= xx < rows_width(rows) implies code_printable(
        #[trigger] rows[yy][xx],
    ) by {
        if xx < t[k - 1 - yy].len() {
            let c = t[k - 1 - yy][xx];
            lemma_char_space_char(c);
            lemma_show_hide(spec_space_of_char(c));
        }
    }
    let out = print_rows(rows);
    assert forall|i: int| 0 <= i < k implies (#[trigger] out[i]).len() == w && forall|j: int|
        0 <= j < w ==> out[i][j] == if j < t[i].len() {
            t[i][j]
        } else {
            ' '
        } by {
        assert forall|j: int| 0 <= j < w implies out[i][j] == if j < t[i].len() {
            t[i][j]
        } else {
            ' '
        } by {
            if j < t[i].len() {
                lemma_char_space_char(t[i][j]);
                lemma_show_hide(spec_space_of_char(t[i][j]));
            }
        }
    }
}

} // verus!

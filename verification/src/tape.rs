//! Tapes: cursor-centered chains of fixed-width byte cells with a two-cell
//! cache absorbing the hot read/write/shift loop.
//!
//! A tape holds the cell under the cursor (the focus) out of the chain,
//! together with its two immediate neighbors; farther cells hang off the
//! neighbors' links. The cache images the focus and one adjacent cell, so
//! the linked structure is only touched when the cursor leaves that window.
//!
//! A tape's model is a cursor-relative, unbounded array of cells: cell 0 is
//! the focus, negative indices go left, and every cell not yet materialized
//! reads as blanks.

use crate::tape::cache::{Cache, ShiftRet, Side};
use crate::tape::cells::{
    cell_at, cell_chain, cells_from_slice, chain_wf, eff_image, empty_cell,
    lemma_cell_chain_unfold, well_linked, Cell,
};
use vstd::prelude::*;

pub mod cache;
pub mod cells;

verus! {

/// A cursor movement on the tape.
#[derive(Copy, Clone, PartialEq, Eq, Structural, Debug)]
pub enum Movement {
    Left,
    Right,
    Stay,
}

/// The direction opposite to `d`; `Stay` is its own opposite.
pub open spec fn opposite(d: Movement) -> Movement {
    match d {
        Movement::Left => Movement::Right,
        Movement::Right => Movement::Left,
        Movement::Stay => Movement::Stay,
    }
}

/// What a tape denotes: the blank symbol, the cell width, the cursor offset
/// inside the focus cell, and the symbols of every cell, indexed relative
/// to the focus (cell 0).
#[verifier::ext_equal]
pub struct TapeModel {
    pub w: nat,
    pub blank: u8,
    pub cur: nat,
    pub cells: Map<int, Seq<u8>>,
}

impl TapeModel {
    /// Total: every cell index denotes a cell-width run of symbols, and the
    /// cursor is inside the focus cell.
    pub open spec fn wf(self) -> bool {
        &&& self.w >= 1
        &&& self.cur < self.w
        &&& forall|ci: int| self.cells.dom().contains(ci)
        &&& forall|ci: int| (#[trigger] self.cells[ci]).len() == self.w
    }

    /// The symbol under the cursor.
    pub open spec fn read(self) -> u8 {
        self.cells[0][self.cur as int]
    }

    /// The tape after writing `s` under the cursor.
    pub open spec fn written(self, s: u8) -> TapeModel {
        TapeModel {
            cells: self.cells.insert(0, self.cells[0].update(self.cur as int, s)),
            ..self
        }
    }

    /// The tape after moving the cursor one symbol in `dir`. Crossing a
    /// cell boundary rebases the cell indices: the new focus is the old
    /// neighbor cell.
    pub open spec fn shifted(self, dir: Movement) -> TapeModel {
        match dir {
            Movement::Stay => self,
            Movement::Left => if self.cur > 0 {
                TapeModel { cur: (self.cur - 1) as nat, ..self }
            } else {
                TapeModel {
                    cur: (self.w - 1) as nat,
                    cells: Map::new(|ci: int| true, |ci: int| self.cells[ci - 1]),
                    ..self
                }
            },
            Movement::Right => if self.cur < self.w - 1 {
                TapeModel { cur: (self.cur + 1) as nat, ..self }
            } else {
                TapeModel {
                    cur: 0nat,
                    cells: Map::new(|ci: int| true, |ci: int| self.cells[ci + 1]),
                    ..self
                }
            },
        }
    }
}

/// Writing and then reading without moving (a `Stay` shift) yields the
/// written symbol, and the write leaves the rest of the tape as it was.
pub proof fn lemma_write_then_read(m: TapeModel, s: u8)
    requires
        m.wf(),
    ensures
        m.written(s).shifted(Movement::Stay).read() == s,
        m.written(s).wf(),
        forall|ci: int, j: int|
            0 <= j < m.w && !(ci == 0 && j == m.cur) ==> (#[trigger] m.written(s).cells[ci][j])
                == m.cells[ci][j],
{
}

/// Writing back the symbol just read is a no-op on the whole tape.
pub proof fn lemma_write_read_noop(m: TapeModel)
    requires
        m.wf(),
    ensures
        m.written(m.read()) == m,
{
    assert(m.cells[0].update(m.cur as int, m.cells[0][m.cur as int]) =~= m.cells[0]);
    assert(m.written(m.read()).cells =~= m.cells);
    assert(m.written(m.read()) =~~= m);
}

/// A shift followed by its opposite returns the cursor to the same cell
/// and offset, with every symbol as it was.
pub proof fn lemma_shift_round_trip(m: TapeModel, d: Movement)
    requires
        m.wf(),
    ensures
        m.shifted(d).shifted(opposite(d)) == m,
        m.shifted(d).wf(),
{
    let once = m.shifted(d);
    let back = once.shifted(opposite(d));
    assert(back.cells =~~= m.cells);
    assert(back =~~= m);
}

/// The tape after `n` single shifts in `d`.
pub open spec fn shifted_n(m: TapeModel, d: Movement, n: nat) -> TapeModel
    decreases n,
{
    if n == 0 {
        m
    } else {
        shifted_n(m.shifted(d), d, (n - 1) as nat)
    }
}

/// Shifts within the focus cell only move the offset: as long as the
/// cursor has room on its left, no cell boundary is crossed.
proof fn lemma_left_shifts_within_cell(m: TapeModel, k: nat)
    requires
        m.wf(),
        k <= m.cur,
    ensures
        shifted_n(m, Movement::Left, k) == (TapeModel { cur: (m.cur - k) as nat, ..m }),
    decreases k,
{
    if k == 0 {
        assert(shifted_n(m, Movement::Left, 0) == m);
        assert(m =~~= (TapeModel { cur: (m.cur - 0) as nat, ..m }));
    } else {
        let m1 = m.shifted(Movement::Left);
        assert(m1 == (TapeModel { cur: (m.cur - 1) as nat, ..m }));
        lemma_left_shifts_within_cell(m1, (k - 1) as nat);
        assert((TapeModel { cur: (m1.cur - (k - 1)) as nat, ..m1 }) =~~= (TapeModel {
            cur: (m.cur - k) as nat,
            ..m
        }));
    }
}

/// Shifting left a full cell width from the initial cursor offset crosses
/// exactly one cell boundary: the first shift moves the focus to the cell
/// on the left with the cursor at its far end, and the remaining shifts
/// walk back across that one cell.
pub proof fn lemma_left_shifts_cross_one_boundary(m: TapeModel)
    requires
        m.wf(),
        m.cur == 0,
    ensures
        shifted_n(m, Movement::Left, m.w).cur == 0,
        shifted_n(m, Movement::Left, m.w).w == m.w,
        forall|ci: int| shifted_n(m, Movement::Left, m.w).cells[ci] == m.cells[ci - 1],
{
    let m1 = m.shifted(Movement::Left);
    assert(m1.cur == m.w - 1);
    assert(m1.wf());
    assert(shifted_n(m, Movement::Left, m.w) == shifted_n(m1, Movement::Left, (m.w - 1) as nat));
    lemma_left_shifts_within_cell(m1, (m.w - 1) as nat);
    assert forall|ci: int|
        shifted_n(m, Movement::Left, m.w).cells[ci] == m.cells[ci - 1] by {
        assert(m1.cells[ci] == m.cells[ci - 1]);
    }
}

/// The model of a freshly created tape: `input` packed `width` symbols
/// per cell from cell 0 onward, blanks everywhere else, the cursor on the
/// first symbol.
pub open spec fn initial_model(tm: TapeModel, width: usize, blank: u8, input: Seq<u8>) -> bool {
    &&& tm.wf()
    &&& tm.w == width
    &&& tm.blank == blank
    &&& tm.cur == 0
    &&& forall|ci: int, j: int|
        0 <= j < width ==> (#[trigger] tm.cells[ci][j]) == (if 0 <= ci && ci * width + j
            < input.len() {
            input[ci * width + j]
        } else {
            blank
        })
}

/// A tape: the focus cell under the cursor, its two immediate neighbors,
/// the blank symbol, and the cache imaging the focus and one neighbor.
#[derive(Debug)]
pub struct Tape {
    width: usize,
    cache: Cache,
    empty: u8,
    focus: Cell,
    left: Cell,
    right: Cell,
}

impl Tape {
    /// The contents of the cell the inactive cache half images.
    spec fn covered_neighbor(self) -> Option<Seq<u8>> {
        if self.cache.side() == Side::Right {
            self.left.contents()
        } else {
            self.right.contents()
        }
    }

    /// Internal invariant: the cache fits the cell width, the focus cell is
    /// unlinked (its neighbors stand beside it), no transient sentinel is
    /// reachable, every buffer has the cell width, and a clean cache half
    /// agrees with the cell it images.
    pub closed spec fn wf(self) -> bool {
        &&& self.width >= 1
        &&& self.cache.wf()
        &&& self.cache.w() == self.width
        &&& cell_chain(self.focus) == seq![self.focus.contents()]
        &&& well_linked(self.left)
        &&& well_linked(self.right)
        &&& chain_wf(cell_chain(self.focus), self.width as nat)
        &&& chain_wf(cell_chain(self.left), self.width as nat)
        &&& chain_wf(cell_chain(self.right), self.width as nat)
        &&& (!self.cache.active_dirty() ==> self.cache.active() == eff_image(
            self.focus.contents(),
            self.width as nat,
            self.empty,
        ))
        &&& (!self.cache.inactive_dirty() ==> self.cache.inactive() == eff_image(
            self.covered_neighbor(),
            self.width as nat,
            self.empty,
        ))
    }

    /// The up-to-date symbols of the cell `ci` places from the focus: the
    /// cache where it covers the cell, the chains otherwise.
    spec fn cell_view(self, ci: int) -> Seq<u8> {
        if ci == 0 {
            self.cache.active()
        } else if ci == -1 && self.cache.side() == Side::Right {
            self.cache.inactive()
        } else if ci == 1 && self.cache.side() == Side::Left {
            self.cache.inactive()
        } else if ci < 0 {
            eff_image(cell_at(cell_chain(self.left), -ci - 1), self.width as nat, self.empty)
        } else {
            eff_image(cell_at(cell_chain(self.right), ci - 1), self.width as nat, self.empty)
        }
    }
}

impl View for Tape {
    type V = TapeModel;

    closed spec fn view(&self) -> TapeModel {
        TapeModel {
            w: self.width as nat,
            blank: self.empty,
            cur: self.cache.cur(),
            cells: Map::new(|ci: int| true, |ci: int| self.cell_view(ci)),
        }
    }
}

/// A cell-width buffer of blanks.
fn blank_buf(w: usize, empty: u8) -> (v: Vec<u8>)
    ensures
        v@.len() == w,
        forall|k: int| 0 <= k < w ==> v@[k] == empty,
{
    let mut v: Vec<u8> = Vec::new();
    let mut j: usize = 0;
    while j < w
        invariant
            j <= w,
            v@.len() == j,
            forall|k: int| 0 <= k < j ==> v@[k] == empty,
        decreases w - j,
    {
        v.push(empty);
        j = j + 1;
    }
    v
}

impl Tape {
    /// Build a tape over `init` packed `width` symbols per cell, blanks
    /// beyond, with the cursor on the first symbol of `init` (a blank when
    /// `init` is empty: an empty slice still reads as all blanks).
    pub fn create(width: usize, empty: u8, init: &[u8]) -> (t: Tape)
        requires
            width >= 1,
            init@.len() + width <= usize::MAX,
        ensures
            t.wf(),
            t@.wf(),
            t@.w == width,
            t@.blank == empty,
            t@.cur == 0,
            forall|ci: int, j: int|
                0 <= j < width ==> (#[trigger] t@.cells[ci][j]) == (if 0 <= ci && ci * width + j
                    < init@.len() {
                    init@[ci * width + j]
                } else {
                    empty
                }),
            initial_model(t@, width, empty, init@),
    {
        let mut curr = cells_from_slice(width, init, empty);
        let ghost curr0 = curr;
        proof {
            lemma_cell_chain_unfold(curr0);
        }
        let head = curr.focus();
        let right = curr;
        let left = empty_cell();
        let head_buf = match head.read() {
            Some(x) => x,
            None => blank_buf(width, empty),
        };
        let cache = Cache::new(head_buf, blank_buf(width, empty));
        let t = Tape { width, cache, empty, focus: head, left, right };
        proof {
            let w = width as nat;
            assert(head.contents() == cell_chain(curr0)[0]);
            assert(cell_chain(curr0)[0] is Some);
            assert(head_buf@ == eff_image(head.contents(), w, empty));
            assert(cache.inactive() =~= eff_image(left.contents(), w, empty));
            assert(cell_chain(left) == seq![None::<Seq<u8>>]);
            assert forall|i: int|
                0 <= i < cell_chain(right).len() implies ((#[trigger] cell_chain(right)[i])
                matches Some(b) ==> b.len() == w) by {
                assert(cell_chain(right)[i] == cell_at(cell_chain(right), i));
                assert(cell_at(cell_chain(right), i) == cell_at(cell_chain(curr0), i + 1));
                if 0 <= i + 1 < cell_chain(curr0).len() {
                    assert(cell_chain(curr0)[i + 1] == cell_at(cell_chain(curr0), i + 1));
                }
            }
            assert(t.wf());
            assert forall|ci: int, j: int|
                0 <= j < width implies (#[trigger] t@.cells[ci][j]) == (if 0 <= ci && ci * width
                + j < init@.len() {
                init@[ci * width + j]
            } else {
                empty
            }) by {
                assert(t@.cells[ci] == t.cell_view(ci));
                if ci == 0 {
                    assert(t.cell_view(0) == head_buf@);
                    assert(head_buf@ == eff_image(cell_at(cell_chain(curr0), 0), w, empty));
                } else if ci >= 1 {
                    assert(cell_at(cell_chain(right), ci - 1) == cell_at(
                        cell_chain(curr0),
                        ci,
                    ));
                } else {
                    assert(cell_at(cell_chain(left), -ci - 1) is None);
                }
            }
        }
        t
    }

    /// A well-formed tape denotes a well-formed model: every cell of the
    /// view is a cell-width run and the cursor is inside the focus cell.
    /// This lets the model-level laws apply to any tape a caller holds.
    pub proof fn lemma_view_wf(&self)
        requires
            self.wf(),
        ensures
            self@.wf(),
    {
        cache::lemma_cache_wf_lens(self.cache);
        assert forall|ci: int| (#[trigger] self@.cells[ci]).len() == self@.w by {
            assert(self@.cells[ci] == self.cell_view(ci));
            if ci == 0 || (ci == -1 && self.cache.side() == Side::Right) || (ci == 1
                && self.cache.side() == Side::Left) {
            } else if ci < 0 {
                if 0 <= -ci - 1 < cell_chain(self.left).len() {
                    assert(cell_chain(self.left)[-ci - 1] == cell_at(
                        cell_chain(self.left),
                        -ci - 1,
                    ));
                }
            } else {
                if 0 <= ci - 1 < cell_chain(self.right).len() {
                    assert(cell_chain(self.right)[ci - 1] == cell_at(
                        cell_chain(self.right),
                        ci - 1,
                    ));
                }
            }
        }
    }

    /// The symbol under the cursor.
    pub fn read(&self) -> (s: u8)
        requires
            self.wf(),
        ensures
            s == self@.read(),
    {
        self.cache.read()
    }

    /// Rotate the (left, focus, right) triple one cell towards `direction`:
    /// the neighbor on that side becomes the focus, the old focus becomes
    /// the first cell of the opposite chain. The cache is untouched.
    fn tape_shift(&mut self, direction: Side)
        requires
            well_linked(old(self).left),
            well_linked(old(self).right),
        ensures
            final(self).cache == old(self).cache,
            final(self).width == old(self).width,
            final(self).empty == old(self).empty,
            cell_chain(final(self).focus) == seq![final(self).focus.contents()],
            well_linked(final(self).left),
            well_linked(final(self).right),
            direction == Side::Left ==> {
                &&& final(self).focus.contents() == old(self).left.contents()
                &&& final(self).right.contents() == old(self).focus.contents()
                &&& final(self).left.contents() == cell_at(cell_chain(old(self).left), 1)
                &&& forall|i: int|
                    0 <= i ==> cell_at(#[trigger] cell_chain(final(self).left), i) == cell_at(
                        cell_chain(old(self).left),
                        i + 1,
                    )
                &&& cell_chain(final(self).right) == seq![old(self).focus.contents()]
                    + cell_chain(old(self).right)
            },
            direction == Side::Right ==> {
                &&& final(self).focus.contents() == old(self).right.contents()
                &&& final(self).left.contents() == old(self).focus.contents()
                &&& final(self).right.contents() == cell_at(cell_chain(old(self).right), 1)
                &&& forall|i: int|
                    0 <= i ==> cell_at(#[trigger] cell_chain(final(self).right), i) == cell_at(
                        cell_chain(old(self).right),
                        i + 1,
                    )
                &&& cell_chain(final(self).left) == seq![old(self).focus.contents()]
                    + cell_chain(old(self).left)
            },
    {
        proof {
            lemma_cell_chain_unfold(old(self).left);
            lemma_cell_chain_unfold(old(self).right);
        }
        match direction {
            Side::Left => {
                let mut curr_tmp = self.left.focus();
                core::mem::swap(&mut self.focus, &mut curr_tmp);
                self.right.shift(curr_tmp);
                proof {
                    lemma_cell_chain_unfold(self.left);
                    assert(self.left.contents() == cell_chain(self.left)[0]);
                    assert(cell_at(cell_chain(self.left), 0) == cell_at(
                        cell_chain(old(self).left),
                        1,
                    ));
                }
            }
            Side::Right => {
                let mut curr_tmp = self.right.focus();
                core::mem::swap(&mut self.focus, &mut curr_tmp);
                self.left.shift(curr_tmp);
                proof {
                    lemma_cell_chain_unfold(self.right);
                    assert(self.right.contents() == cell_chain(self.right)[0]);
                    assert(cell_at(cell_chain(self.right), 0) == cell_at(
                        cell_chain(old(self).right),
                        1,
                    ));
                }
            }
        }
    }

    /// A tape whose cells chain-for-chain equal `mid`'s, under a clean
    /// cache with the same abstract state, images the same tape. `mid`'s
    /// cells must agree with the cache outright (as they do after a
    /// flush), so the clean copy's invariant holds.
    proof fn lemma_split_child(child: Tape, mid: Tape)
        requires
            mid.wf(),
            eff_image(mid.focus.contents(), mid.width as nat, mid.empty) == mid.cache.active(),
            eff_image(mid.covered_neighbor(), mid.width as nat, mid.empty)
                == mid.cache.inactive(),
            child.width == mid.width,
            child.empty == mid.empty,
            child.cache.wf(),
            child.cache.w() == mid.cache.w(),
            child.cache.cur() == mid.cache.cur(),
            child.cache.side() == mid.cache.side(),
            child.cache.active() == mid.cache.active(),
            child.cache.inactive() == mid.cache.inactive(),
            !child.cache.active_dirty(),
            !child.cache.inactive_dirty(),
            cell_chain(child.focus) == cell_chain(mid.focus),
            cell_chain(child.left) == cell_chain(mid.left),
            cell_chain(child.right) == cell_chain(mid.right),
            well_linked(child.left),
            well_linked(child.right),
        ensures
            child.wf(),
            child@ == mid@,
    {
        lemma_cell_chain_unfold(child.focus);
        lemma_cell_chain_unfold(mid.focus);
        lemma_cell_chain_unfold(child.left);
        lemma_cell_chain_unfold(mid.left);
        lemma_cell_chain_unfold(child.right);
        lemma_cell_chain_unfold(mid.right);
        assert(cell_chain(child.focus)[0] == child.focus.contents());
        assert(cell_chain(mid.focus)[0] == mid.focus.contents());
        assert(cell_chain(child.left)[0] == child.left.contents());
        assert(cell_chain(mid.left)[0] == mid.left.contents());
        assert(cell_chain(child.right)[0] == child.right.contents());
        assert(cell_chain(mid.right)[0] == mid.right.contents());
        assert(child.focus.contents() == mid.focus.contents());
        assert(child.left.contents() == mid.left.contents());
        assert(child.right.contents() == mid.right.contents());
        assert(cell_chain(child.focus) =~= seq![child.focus.contents()]);
        assert(child.wf());
        assert forall|ci: int| #[trigger] child.cell_view(ci) == mid.cell_view(ci) by {}
        assert(child@.cells =~~= mid@.cells);
        assert(child@ =~~= mid@);
    }

    /// A tape that crossed one cell boundary leftwards images the old tape
    /// with every cell index shifted by one and the cursor at the right end
    /// of the new focus cell.
    proof fn lemma_shift_left_view(post: Tape, o: Tape)
        requires
            o.wf(),
            o.cache.cur() == 0,
            post.width == o.width,
            post.empty == o.empty,
            post.cache.wf(),
            post.cache.w() == o.width,
            post.cache.side() == Side::Left,
            post.cache.cur() == o.width - 1,
            post.cache.active() == o.cell_view(-1),
            post.cache.inactive() == o.cell_view(0),
            !post.cache.active_dirty() ==> post.cache.active() == eff_image(
                o.left.contents(),
                o.width as nat,
                o.empty,
            ),
            !post.cache.inactive_dirty() ==> post.cache.inactive() == eff_image(
                o.focus.contents(),
                o.width as nat,
                o.empty,
            ),
            cell_chain(post.focus) == seq![post.focus.contents()],
            post.focus.contents() == o.left.contents(),
            post.right.contents() == o.focus.contents(),
            well_linked(post.left),
            well_linked(post.right),
            forall|i: int|
                0 <= i ==> cell_at(#[trigger] cell_chain(post.left), i) == cell_at(
                    cell_chain(o.left),
                    i + 1,
                ),
            forall|ci: int|
                2 <= ci ==> #[trigger] eff_image(
                    cell_at(cell_chain(post.right), ci - 1),
                    o.width as nat,
                    o.empty,
                ) == o.cell_view(ci - 1),
            chain_wf(cell_chain(post.right), o.width as nat),
        ensures
            post.wf(),
            post@ == o@.shifted(Movement::Left),
    {
        let w = o.width as nat;
        lemma_cell_chain_unfold(o.left);
        assert forall|i: int|
            0 <= i < cell_chain(post.left).len() implies ((#[trigger] cell_chain(post.left)[i])
            matches Some(b) ==> b.len() == w) by {
            assert(cell_chain(post.left)[i] == cell_at(cell_chain(post.left), i));
            assert(cell_at(cell_chain(post.left), i) == cell_at(cell_chain(o.left), i + 1));
            if 0 <= i + 1 < cell_chain(o.left).len() {
                assert(cell_chain(o.left)[i + 1] == cell_at(cell_chain(o.left), i + 1));
            }
        }
        assert(post.wf());
        let t = o@.shifted(Movement::Left);
        assert forall|ci: int| #[trigger] post.cell_view(ci) == o.cell_view(ci - 1) by {
            if ci >= 2 {
                assert(eff_image(cell_at(cell_chain(post.right), ci - 1), w, o.empty)
                    == o.cell_view(ci - 1));
            } else if ci <= -1 {
                assert(cell_at(cell_chain(post.left), -ci - 1) == cell_at(
                    cell_chain(o.left),
                    -ci,
                ));
            }
        }
        assert(post@.cells =~~= t.cells);
        assert(post@ =~~= t);
    }

    /// The mirror image: a tape that crossed one cell boundary rightwards.
    proof fn lemma_shift_right_view(post: Tape, o: Tape)
        requires
            o.wf(),
            o.cache.cur() == o.width - 1,
            post.width == o.width,
            post.empty == o.empty,
            post.cache.wf(),
            post.cache.w() == o.width,
            post.cache.side() == Side::Right,
            post.cache.cur() == 0,
            post.cache.active() == o.cell_view(1),
            post.cache.inactive() == o.cell_view(0),
            !post.cache.active_dirty() ==> post.cache.active() == eff_image(
                o.right.contents(),
                o.width as nat,
                o.empty,
            ),
            !post.cache.inactive_dirty() ==> post.cache.inactive() == eff_image(
                o.focus.contents(),
                o.width as nat,
                o.empty,
            ),
            cell_chain(post.focus) == seq![post.focus.contents()],
            post.focus.contents() == o.right.contents(),
            post.left.contents() == o.focus.contents(),
            well_linked(post.left),
            well_linked(post.right),
            forall|i: int|
                0 <= i ==> cell_at(#[trigger] cell_chain(post.right), i) == cell_at(
                    cell_chain(o.right),
                    i + 1,
                ),
            forall|ci: int|
                ci <= -2 ==> #[trigger] eff_image(
                    cell_at(cell_chain(post.left), -ci - 1),
                    o.width as nat,
                    o.empty,
                ) == o.cell_view(ci + 1),
            chain_wf(cell_chain(post.left), o.width as nat),
        ensures
            post.wf(),
            post@ == o@.shifted(Movement::Right),
    {
        let w = o.width as nat;
        lemma_cell_chain_unfold(o.right);
        assert forall|i: int|
            0 <= i < cell_chain(post.right).len() implies ((#[trigger] cell_chain(
            post.right,
        )[i]) matches Some(b) ==> b.len() == w) by {
            assert(cell_chain(post.right)[i] == cell_at(cell_chain(post.right), i));
            assert(cell_at(cell_chain(post.right), i) == cell_at(cell_chain(o.right), i + 1));
            if 0 <= i + 1 < cell_chain(o.right).len() {
                assert(cell_chain(o.right)[i + 1] == cell_at(cell_chain(o.right), i + 1));
            }
        }
        assert(post.wf());
        let t = o@.shifted(Movement::Right);
        assert forall|ci: int| #[trigger] post.cell_view(ci) == o.cell_view(ci + 1) by {
            if ci <= -2 {
                assert(eff_image(cell_at(cell_chain(post.left), -ci - 1), w, o.empty)
                    == o.cell_view(ci + 1));
            } else if ci >= 1 {
                assert(cell_at(cell_chain(post.right), ci - 1) == cell_at(
                    cell_chain(o.right),
                    ci,
                ));
            }
        }
        assert(post@.cells =~~= t.cells);
        assert(post@ =~~= t);
    }

    /// Move the cursor one symbol in `direction`. The tape is conceptually
    /// infinite: shifting past the outermost materialized cell reads a cell
    /// of blanks. A move within the cache window touches no cell; a miss
    /// loads the next cell, writes back the displaced dirty half, and
    /// rotates the cell triple.
    pub fn shift(&mut self, direction: Movement)
        requires
            old(self).wf(),
        ensures
            final(self).wf(),
            final(self)@ == old(self)@.shifted(direction),
    {
        proof {
            cache::lemma_cache_wf_lens(old(self).cache);
            lemma_cell_chain_unfold(old(self).left);
            lemma_cell_chain_unfold(old(self).right);
            lemma_cell_chain_unfold(old(self).focus);
        }
        let ghost m0 = old(self)@;
        let ghost w = old(self).width as nat;
        let ghost blank = old(self).empty;
        let res = self.cache.shift(direction);
        match res {
            ShiftRet::Stay => {
                proof {
                    assert forall|ci: int| #[trigger] self.cell_view(ci) == old(self).cell_view(
                        ci,
                    ) by {}
                    assert(self@.cells =~~= m0.shifted(direction).cells);
                    assert(self@ =~~= m0.shifted(direction));
                }
            }
            ShiftRet::InCache(dir) => {
                match dir {
                    Side::Left => {
                        self.tape_shift(Side::Left);
                        proof {
                            lemma_cell_chain_unfold(self.right);
                            assert forall|ci: int|
                                2 <= ci implies #[trigger] eff_image(
                                cell_at(cell_chain(self.right), ci - 1),
                                w,
                                blank,
                            ) == old(self).cell_view(ci - 1) by {
                                if 2 <= ci {
                                    assert(cell_at(cell_chain(self.right), ci - 1) == cell_at(
                                        cell_chain(old(self).right),
                                        ci - 2,
                                    ));
                                }
                            }
                            assert forall|i: int|
                                0 <= i < cell_chain(self.right).len() implies ((
                            #[trigger] cell_chain(self.right)[i]) matches Some(b) ==> b.len()
                                == w) by {
                                if i >= 1 {
                                    assert(cell_chain(self.right)[i] == cell_chain(
                                        old(self).right,
                                    )[i - 1]);
                                } else {
                                    assert(cell_chain(self.right)[0] == old(self).focus.contents());
                                    assert(cell_chain(old(self).focus)[0] == old(self).focus.contents());
                                }
                            }
                            Self::lemma_shift_left_view(*self, *old(self));
                        }
                    }
                    Side::Right => {
                        self.tape_shift(Side::Right);
                        proof {
                            lemma_cell_chain_unfold(self.left);
                            assert forall|ci: int|
                                ci <= -2 implies #[trigger] eff_image(
                                cell_at(cell_chain(self.left), -ci - 1),
                                w,
                                blank,
                            ) == old(self).cell_view(ci + 1) by {
                                if ci <= -2 {
                                    assert(cell_at(cell_chain(self.left), -ci - 1) == cell_at(
                                        cell_chain(old(self).left),
                                        -ci - 2,
                                    ));
                                }
                            }
                            assert forall|i: int|
                                0 <= i < cell_chain(self.left).len() implies ((
                            #[trigger] cell_chain(self.left)[i]) matches Some(b) ==> b.len()
                                == w) by {
                                if i >= 1 {
                                    assert(cell_chain(self.left)[i] == cell_chain(
                                        old(self).left,
                                    )[i - 1]);
                                } else {
                                    assert(cell_chain(self.left)[0] == old(self).focus.contents());
                                    assert(cell_chain(old(self).focus)[0] == old(self).focus.contents());
                                }
                            }
                            Self::lemma_shift_right_view(*self, *old(self));
                        }
                    }
                }
            }
            ShiftRet::OutCacheFail(dir) => {
                match dir {
                    Side::Left => {
                        let buff = match self.left.read() {
                            Some(x) => x,
                            None => blank_buf(self.width, self.empty),
                        };
                        proof {
                            assert(cell_chain(old(self).left)[0] == old(self).left.contents());
                            assert(buff@ =~= eff_image(old(self).left.contents(), w, blank));
                            assert(buff@.len() == w);
                        }
                        let flushed = self.cache.shift_flush(direction, &buff);
                        if let Some(x) = flushed {
                            self.right.write(x);
                        }
                        let ghost mid = *self;
                        proof {
                            lemma_cell_chain_unfold(mid.right);
                            assert(eff_image(mid.right.contents(), w, blank) == old(self).cache.inactive());
                            assert forall|k: int|
                                1 <= k implies cell_at(#[trigger] cell_chain(mid.right), k)
                                == cell_at(cell_chain(old(self).right), k) by {}
                        }
                        self.tape_shift(Side::Left);
                        proof {
                            assert forall|ci: int|
                                2 <= ci implies #[trigger] eff_image(
                                cell_at(cell_chain(self.right), ci - 1),
                                w,
                                blank,
                            ) == old(self).cell_view(ci - 1) by {
                                if 2 <= ci {
                                    assert(cell_at(cell_chain(self.right), ci - 1) == cell_at(
                                        cell_chain(mid.right),
                                        ci - 2,
                                    ));
                                    if ci == 2 {
                                        assert(cell_at(cell_chain(mid.right), 0)
                                            == mid.right.contents());
                                    } else {
                                        assert(cell_at(cell_chain(mid.right), ci - 2)
                                            == cell_at(cell_chain(old(self).right), ci - 2));
                                    }
                                }
                            }
                            assert forall|i: int|
                                0 <= i < cell_chain(self.right).len() implies ((
                            #[trigger] cell_chain(self.right)[i]) matches Some(b) ==> b.len()
                                == w) by {
                                if i >= 1 {
                                    assert(cell_chain(self.right)[i] == cell_at(
                                        cell_chain(mid.right),
                                        i - 1,
                                    ));
                                    if i - 1 >= 1 {
                                        assert(cell_at(cell_chain(mid.right), i - 1)
                                            == cell_at(cell_chain(old(self).right), i - 1));
                                        if i - 1 < cell_chain(old(self).right).len() {
                                            assert(cell_chain(old(self).right)[i - 1]
                                                == cell_at(
                                                cell_chain(old(self).right),
                                                i - 1,
                                            ));
                                        }
                                    } else {
                                        cache::lemma_cache_wf_lens(mid.cache);
                                    }
                                } else {
                                    assert(cell_chain(self.right)[0] == old(self).focus.contents());
                                    assert(cell_chain(old(self).focus)[0] == old(self).focus.contents());
                                }
                            }
                            assert(self.cache.active() == old(self).cell_view(-1));
                            Self::lemma_shift_left_view(*self, *old(self));
                        }
                    }
                    Side::Right => {
                        let buff = match self.right.read() {
                            Some(x) => x,
                            None => blank_buf(self.width, self.empty),
                        };
                        proof {
                            assert(cell_chain(old(self).right)[0] == old(self).right.contents());
                            assert(buff@ =~= eff_image(old(self).right.contents(), w, blank));
                            assert(buff@.len() == w);
                        }
                        let flushed = self.cache.shift_flush(direction, &buff);
                        if let Some(x) = flushed {
                            self.left.write(x);
                        }
                        let ghost mid = *self;
                        proof {
                            lemma_cell_chain_unfold(mid.left);
                            assert(eff_image(mid.left.contents(), w, blank) == old(self).cache.inactive());
                            assert forall|k: int|
                                1 <= k implies cell_at(#[trigger] cell_chain(mid.left), k)
                                == cell_at(cell_chain(old(self).left), k) by {}
                        }
                        self.tape_shift(Side::Right);
                        proof {
                            assert forall|ci: int|
                                ci <= -2 implies #[trigger] eff_image(
                                cell_at(cell_chain(self.left), -ci - 1),
                                w,
                                blank,
                            ) == old(self).cell_view(ci + 1) by {
                                if ci <= -2 {
                                    assert(cell_at(cell_chain(self.left), -ci - 1) == cell_at(
                                        cell_chain(mid.left),
                                        -ci - 2,
                                    ));
                                    if ci == -2 {
                                        assert(cell_at(cell_chain(mid.left), 0)
                                            == mid.left.contents());
                                    } else {
                                        assert(cell_at(cell_chain(mid.left), -ci - 2)
                                            == cell_at(cell_chain(old(self).left), -ci - 2));
                                    }
                                }
                            }
                            assert forall|i: int|
                                0 <= i < cell_chain(self.left).len() implies ((
                            #[trigger] cell_chain(self.left)[i]) matches Some(b) ==> b.len()
                                == w) by {
                                if i >= 1 {
                                    assert(cell_chain(self.left)[i] == cell_at(
                                        cell_chain(mid.left),
                                        i - 1,
                                    ));
                                    if i - 1 >= 1 {
                                        assert(cell_at(cell_chain(mid.left), i - 1) == cell_at(
                                            cell_chain(old(self).left),
                                            i - 1,
                                        ));
                                        if i - 1 < cell_chain(old(self).left).len() {
                                            assert(cell_chain(old(self).left)[i - 1]
                                                == cell_at(cell_chain(old(self).left), i - 1));
                                        }
                                    } else {
                                        cache::lemma_cache_wf_lens(mid.cache);
                                    }
                                } else {
                                    assert(cell_chain(self.left)[0] == old(self).focus.contents());
                                    assert(cell_chain(old(self).focus)[0] == old(self).focus.contents());
                                }
                            }
                            assert(self.cache.active() == old(self).cell_view(1));
                            Self::lemma_shift_right_view(*self, *old(self));
                        }
                    }
                }
            }
        }
    }

    /// Split the tape into `branches` independent copies, each imaging the
    /// same symbols at the same cursor. Dirty cache halves are flushed to
    /// their cells first, so every copy starts from up-to-date cells with a
    /// clean cache. The copies share nothing mutable: a write to one can
    /// never alter the symbol a sibling reads at the same position.
    pub fn split(self, branches: usize) -> (v: Vec<Tape>)
        requires
            self.wf(),
        ensures
            v@.len() == branches,
            forall|k: int| 0 <= k < branches ==> (#[trigger] v@[k]).wf(),
            forall|k: int| 0 <= k < branches ==> (#[trigger] v@[k])@ == self@,
    {
        let mut this = self;
        proof {
            cache::lemma_cache_wf_lens(this.cache);
            lemma_cell_chain_unfold(this.left);
            lemma_cell_chain_unfold(this.right);
        }
        if let Some(x) = this.cache.flush_current() {
            this.focus.write(x);
        }
        let (side, other) = this.cache.flush_other();
        if let Some(x) = other {
            match side {
                Side::Left => {
                    this.left.write(x);
                }
                Side::Right => {
                    this.right.write(x);
                }
            }
        }
        proof {
            lemma_cell_chain_unfold(this.left);
            lemma_cell_chain_unfold(this.right);
            assert(cell_chain(this.focus) =~= seq![this.focus.contents()]);
            assert forall|ci: int| #[trigger] this.cell_view(ci) == self.cell_view(ci) by {
                if ci <= -2 {
                    assert(cell_at(cell_chain(this.left), -ci - 1) == cell_at(
                        cell_chain(self.left),
                        -ci - 1,
                    ));
                } else if ci >= 2 {
                    assert(cell_at(cell_chain(this.right), ci - 1) == cell_at(
                        cell_chain(self.right),
                        ci - 1,
                    ));
                } else if ci == -1 && self.cache.side() == Side::Left {
                    assert(cell_at(cell_chain(this.left), 0) == cell_at(
                        cell_chain(self.left),
                        0,
                    ));
                } else if ci == 1 && self.cache.side() == Side::Right {
                    assert(cell_at(cell_chain(this.right), 0) == cell_at(
                        cell_chain(self.right),
                        0,
                    ));
                }
            }
            assert(this@.cells =~~= self@.cells);
            assert(this@ =~~= self@);
            assert(this.wf());
            assert(eff_image(this.focus.contents(), this.width as nat, this.empty)
                == this.cache.active());
            assert(eff_image(this.covered_neighbor(), this.width as nat, this.empty)
                == this.cache.inactive());
        }
        let ghost mid = this;
        let Tape { width, cache, empty, focus, left, right } = this;
        let mut foc_refs = focus.make_refs(branches);
        let mut left_refs = left.make_refs(branches);
        let mut right_refs = right.make_refs(branches);
        let mut ret: Vec<Tape> = Vec::new();
        let mut k: usize = 0;
        while k < branches
            invariant
                k <= branches,
                ret@.len() == k,
                foc_refs@.len() == branches - k,
                left_refs@.len() == branches - k,
                right_refs@.len() == branches - k,
                mid.wf(),
                mid@ == self@,
                mid.width == width,
                mid.empty == empty,
                mid.cache == cache,
                eff_image(mid.focus.contents(), mid.width as nat, mid.empty)
                    == mid.cache.active(),
                eff_image(mid.covered_neighbor(), mid.width as nat, mid.empty)
                    == mid.cache.inactive(),
                forall|j: int|
                    0 <= j < foc_refs@.len() ==> cell_chain(#[trigger] foc_refs@[j])
                        == cell_chain(mid.focus),
                forall|j: int|
                    0 <= j < left_refs@.len() ==> cell_chain(#[trigger] left_refs@[j])
                        == cell_chain(mid.left) && well_linked(left_refs@[j]),
                forall|j: int|
                    0 <= j < right_refs@.len() ==> cell_chain(#[trigger] right_refs@[j])
                        == cell_chain(mid.right) && well_linked(right_refs@[j]),
                forall|j: int| 0 <= j < k ==> (#[trigger] ret@[j]).wf(),
                forall|j: int| 0 <= j < k ==> (#[trigger] ret@[j])@ == self@,
            decreases branches - k,
        {
            let foc = match foc_refs.pop() {
                Some(c) => c,
                None => vstd::pervasive::unreached(),
            };
            let l = match left_refs.pop() {
                Some(c) => c,
                None => vstd::pervasive::unreached(),
            };
            let r = match right_refs.pop() {
                Some(c) => c,
                None => vstd::pervasive::unreached(),
            };
            let child = Tape {
                width,
                cache: cache.duplicate_clean(),
                empty,
                focus: foc,
                left: l,
                right: r,
            };
            proof {
                Self::lemma_split_child(child, mid);
            }
            ret.push(child);
            k = k + 1;
        }
        ret
    }

    /// Replace the symbol under the cursor; the previous symbol comes back.
    pub fn write(&mut self, symb: u8) -> (prev: u8)
        requires
            old(self).wf(),
        ensures
            final(self).wf(),
            prev == old(self)@.read(),
            final(self)@ == old(self)@.written(symb),
    {
        let prev = self.cache.write(symb);
        proof {
            cache::lemma_cache_wf_lens(old(self).cache);
            if !self.cache.active_dirty() {
                assert(old(self).cache.active().update(old(self).cache.cur() as int, symb)
                    =~= old(self).cache.active());
            }
            assert(self@.cells =~~= old(self)@.written(symb).cells);
            assert(self@ =~~= old(self)@.written(symb));
        }
        prev
    }
}

} // verus!

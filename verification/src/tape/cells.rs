//! Cells and the links between them.
//!
//! A cell is a fixed-width run of symbols. A tape reaches cells through
//! links; a chain of cells stands for one half of a tape, nearest cell
//! first. Sharing between sibling branches is by value here: a shared copy
//! owns its own buffer, so writing through one branch can never disturb a
//! sibling, which is exactly the isolation the copy-on-write original
//! guarantees.

use crate::tape::cache::copy_bytes;
use vstd::prelude::*;

verus! {

/// A cell of the tape, holding up to one cell-width buffer of symbols.
#[derive(Debug)]
pub enum Cell {
    /// Owns an up-to-date buffer.
    Full { buffer: Vec<u8>, next: Link },
    /// Holds a copy taken from another branch's cell; a write replaces the
    /// buffer rather than updating the ancestor's view of it.
    Shared { buffer: Vec<u8>, next: Link },
    /// An unexplored blank region past the tape's edge; materializes on
    /// focus or write.
    Empty { next: Link },
}

/// A neighbor pointer of a cell, directed away from the tape's focus.
#[derive(Debug)]
pub enum Link {
    /// The outermost blank region begins here.
    Edge,
    /// An exclusively owned neighbor in the same branch.
    Same(Box<Cell>),
    /// A neighbor inherited from an ancestor branch; focusing across it
    /// yields a shared copy.
    Uncle(Box<Cell>),
    /// Transient sentinel used only in the middle of a mutation; never
    /// reachable from a well-formed tape.
    Unlinked,
}

impl Cell {
    /// The cell's symbols: a buffer for Full and Shared, nothing for Empty.
    pub open spec fn contents(self) -> Option<Seq<u8>> {
        match self {
            Cell::Full { buffer, .. } => Some(buffer@),
            Cell::Shared { buffer, .. } => Some(buffer@),
            Cell::Empty { .. } => None,
        }
    }

    /// The cell's outward link.
    pub open spec fn next_of(self) -> Link {
        match self {
            Cell::Full { next, .. } => next,
            Cell::Shared { next, .. } => next,
            Cell::Empty { next } => next,
        }
    }
}

/// The contents of every materialized cell along a chain, nearest first.
pub open spec fn cell_chain(c: Cell) -> Seq<Option<Seq<u8>>>
    decreases c,
{
    match c {
        Cell::Full { buffer, next } => seq![Some(buffer@)] + link_chain(next),
        Cell::Shared { buffer, next } => seq![Some(buffer@)] + link_chain(next),
        Cell::Empty { next } => seq![None::<Seq<u8>>] + link_chain(next),
    }
}

/// The chain beyond a link: empty at an edge, the target's chain otherwise.
pub open spec fn link_chain(l: Link) -> Seq<Option<Seq<u8>>>
    decreases l,
{
    match l {
        Link::Edge => Seq::empty(),
        Link::Unlinked => Seq::empty(),
        Link::Same(c) => cell_chain(*c),
        Link::Uncle(c) => cell_chain(*c),
    }
}

/// A chain is the head's contents followed by what lies beyond its link.
pub proof fn lemma_cell_chain_unfold(c: Cell)
    ensures
        cell_chain(c) == seq![c.contents()] + link_chain(c.next_of()),
{
    match c {
        Cell::Full { buffer, next } => {},
        Cell::Shared { buffer, next } => {},
        Cell::Empty { next } => {},
    }
}

/// The image of the cell at position `i` of a chain; past the materialized
/// cells everything is an unexplored blank region.
pub open spec fn cell_at(ch: Seq<Option<Seq<u8>>>, i: int) -> Option<Seq<u8>> {
    if 0 <= i < ch.len() {
        ch[i]
    } else {
        None::<Seq<u8>>
    }
}

/// The symbols a cell image stands for: its buffer, or a cell of blanks
/// for an unmaterialized region.
pub open spec fn eff_image(img: Option<Seq<u8>>, w: nat, blank: u8) -> Seq<u8> {
    match img {
        Some(b) => b,
        None => Seq::new(w, |k: int| blank),
    }
}

/// Every materialized buffer of the chain has the cell width.
pub open spec fn chain_wf(ch: Seq<Option<Seq<u8>>>, w: nat) -> bool {
    forall|i: int|
        0 <= i < ch.len() ==> ((#[trigger] ch[i]) matches Some(b) ==> b.len() == w)
}

/// No `Unlinked` sentinel is reachable from the cell.
pub open spec fn well_linked(c: Cell) -> bool
    decreases c,
{
    link_ok(c.next_of())
}

/// No `Unlinked` sentinel is reachable through the link.
pub open spec fn link_ok(l: Link) -> bool
    decreases l,
{
    match l {
        Link::Edge => true,
        Link::Unlinked => false,
        Link::Same(c) => well_linked(*c),
        Link::Uncle(c) => well_linked(*c),
    }
}

/// A copy of the link for a shared cell: what lies beyond becomes `Uncle`,
/// copied transitively, with the same contents.
fn uncle_link(l: &Link) -> (r: Link)
    ensures
        link_chain(r) == link_chain(*l),
        link_ok(r) == link_ok(*l),
    decreases *l,
{
    match l {
        Link::Edge => Link::Edge,
        Link::Unlinked => Link::Unlinked,
        Link::Same(c) => Link::Uncle(Box::new(shared_copy(&*c))),
        Link::Uncle(c) => Link::Uncle(Box::new(shared_copy(&*c))),
    }
}

/// A shared copy of a cell: same contents, links turned to `Uncle`.
fn shared_copy(c: &Cell) -> (r: Cell)
    ensures
        r.contents() == c.contents(),
        cell_chain(r) == cell_chain(*c),
        well_linked(r) == well_linked(*c),
    decreases *c,
{
    match c {
        Cell::Full { buffer, next } => Cell::Shared {
            buffer: copy_bytes(buffer),
            next: uncle_link(next),
        },
        Cell::Shared { buffer, next } => Cell::Shared {
            buffer: copy_bytes(buffer),
            next: uncle_link(next),
        },
        Cell::Empty { next } => Cell::Empty { next: uncle_link(next) },
    }
}

/// The cell a link leads to: Empty materializes at an edge, an owned
/// neighbor moves in as it is, an inherited neighbor is copied shared.
fn link_focus(l: Link) -> (r: Cell)
    requires
        !(l is Unlinked),
    ensures
        forall|i: int| cell_at(cell_chain(r), i) == cell_at(link_chain(l), i),
        link_ok(l) ==> well_linked(r),
{
    match l {
        Link::Edge => Cell::Empty { next: Link::Edge },
        Link::Same(c) => *c,
        Link::Uncle(c) => shared_copy(&*c),
        Link::Unlinked => vstd::pervasive::unreached(),
    }
}

/// Split a cell into itself, unlinked, and its outward link.
fn strip_next(c: Cell) -> (r: (Cell, Link))
    ensures
        r.0.contents() == c.contents(),
        r.0.next_of() == Link::Unlinked,
        r.1 == c.next_of(),
{
    match c {
        Cell::Full { buffer, next } => (Cell::Full { buffer, next: Link::Unlinked }, next),
        Cell::Shared { buffer, next } => (Cell::Shared { buffer, next: Link::Unlinked }, next),
        Cell::Empty { next } => (Cell::Empty { next: Link::Unlinked }, next),
    }
}

/// The same cell with its outward link replaced.
fn with_next(c: Cell, next: Link) -> (r: Cell)
    ensures
        r.contents() == c.contents(),
        r.next_of() == next,
{
    match c {
        Cell::Full { buffer, .. } => Cell::Full { buffer, next },
        Cell::Shared { buffer, .. } => Cell::Shared { buffer, next },
        Cell::Empty { .. } => Cell::Empty { next },
    }
}

impl Cell {
    /// Replace the cell in place with its outward neighbor and return the
    /// old cell, unlinked: the chain moves one cell outward.
    pub fn focus(&mut self) -> (r: Cell)
        requires
            !(old(self).next_of() is Unlinked),
        ensures
            r.contents() == old(self).contents(),
            r.next_of() == Link::Unlinked,
            cell_chain(r) == seq![old(self).contents()],
            forall|i: int|
                0 <= i ==> cell_at(#[trigger] cell_chain(*final(self)), i) == cell_at(
                    cell_chain(*old(self)),
                    i + 1,
                ),
            well_linked(*old(self)) ==> well_linked(*final(self)),
    {
        let mut tmp = Cell::Empty { next: Link::Unlinked };
        core::mem::swap(self, &mut tmp);
        let (head, next) = strip_next(tmp);
        let focused = link_focus(next);
        *self = focused;
        proof {
            lemma_cell_chain_unfold(head);
            assert(cell_chain(head) =~= seq![old(self).contents()]);
            lemma_cell_chain_unfold(*old(self));
            assert forall|i: int|
                0 <= i implies cell_at(cell_chain(*self), i) == cell_at(
                cell_chain(*old(self)),
                i + 1,
            ) by {
                let tail = link_chain(old(self).next_of());
                assert(cell_at(cell_chain(*self), i) == cell_at(tail, i));
                let ch = cell_chain(*old(self));
                assert(ch == seq![old(self).contents()] + tail);
                assert(ch.len() == 1 + tail.len());
                if 0 <= i < tail.len() {
                    assert(ch[i + 1] == tail[i]);
                    assert(cell_at(ch, i + 1) == cell_at(tail, i));
                } else {
                    assert(cell_at(tail, i) is None);
                    assert(cell_at(ch, i + 1) is None);
                }
            }
        }
        head
    }

    /// The inverse of `focus`: push `new` in front of the current cell,
    /// which becomes its owned neighbor.
    pub fn shift(&mut self, new: Cell)
        ensures
            final(self).contents() == new.contents(),
            cell_chain(*final(self)) == seq![new.contents()] + cell_chain(*old(self)),
            well_linked(*old(self)) ==> well_linked(*final(self)),
    {
        let mut incoming = new;
        core::mem::swap(self, &mut incoming);
        let link = Link::Same(Box::new(incoming));
        let mut tmp = Cell::Empty { next: Link::Unlinked };
        core::mem::swap(self, &mut tmp);
        *self = with_next(tmp, link);
        proof {
            lemma_cell_chain_unfold(*self);
            assert(cell_chain(*self) =~= seq![new.contents()] + cell_chain(*old(self)));
        }
    }

    /// The cell's buffer, if it has one.
    pub fn read(&self) -> (r: Option<Vec<u8>>)
        ensures
            (r is Some) == (self.contents() is Some),
            r matches Some(b) ==> Some(b@) == self.contents(),
    {
        match self {
            Cell::Full { buffer, .. } => Some(copy_bytes(buffer)),
            Cell::Shared { buffer, .. } => Some(copy_bytes(buffer)),
            Cell::Empty { .. } => None,
        }
    }

    /// Replace the cell's buffer: Full updates what it owns, Shared and
    /// Empty become Full over a freshly owned buffer. The link is kept.
    pub fn write(&mut self, buff: Vec<u8>)
        ensures
            final(self).contents() == Some(buff@),
            final(self).next_of() == old(self).next_of(),
            cell_chain(*final(self)) == cell_chain(*old(self)).update(0, Some(buff@)),
            well_linked(*old(self)) ==> well_linked(*final(self)),
    {
        let mut tmp = Cell::Empty { next: Link::Unlinked };
        core::mem::swap(self, &mut tmp);
        let (_, next) = strip_next(tmp);
        *self = Cell::Full { buffer: buff, next };
        proof {
            lemma_cell_chain_unfold(*old(self));
            assert(cell_chain(*self) =~= cell_chain(*old(self)).update(0, Some(buff@)));
        }
    }

    /// Consume the cell and make `num` shared references to it: each copy
    /// has the same contents and reaches the same chain through `Uncle`
    /// links. This is the cheap-clone primitive behind tape splitting.
    pub fn make_refs(self, num: usize) -> (v: Vec<Cell>)
        ensures
            v@.len() == num,
            forall|j: int|
                0 <= j < num ==> cell_chain(#[trigger] v@[j]) == cell_chain(self),
            forall|j: int| 0 <= j < num ==> well_linked(#[trigger] v@[j]) == well_linked(self),
    {
        let mut v: Vec<Cell> = Vec::new();
        let mut i: usize = 0;
        while i < num
            invariant
                i <= num,
                v@.len() == i,
                forall|j: int| 0 <= j < i ==> cell_chain(#[trigger] v@[j]) == cell_chain(self),
                forall|j: int|
                    0 <= j < i ==> well_linked(#[trigger] v@[j]) == well_linked(self),
            decreases num - i,
        {
            v.push(shared_copy(&self));
            i = i + 1;
        }
        v
    }
}

/// A Full cell over `buffer`, linked to `next` if given, at the edge
/// otherwise.
fn full_cell(buffer: Vec<u8>, next: Option<Cell>) -> (r: Cell)
    ensures
        r.contents() == Some(buffer@),
        cell_chain(r) == seq![Some(buffer@)] + (match next {
            Some(c) => cell_chain(c),
            None => Seq::empty(),
        }),
        (match next {
            Some(c) => well_linked(c),
            None => true,
        }) ==> well_linked(r),
{
    Cell::Full {
        buffer,
        next: if let Some(x) = next {
            Link::Same(Box::new(x))
        } else {
            Link::Edge
        },
    }
}

/// An Empty cell at the edge of the tape.
pub fn empty_cell() -> (r: Cell)
    ensures
        r.contents() is None,
        r.next_of() == Link::Edge,
        cell_chain(r) == seq![None::<Seq<u8>>],
        well_linked(r),
{
    let r = Cell::Empty { next: Link::Edge };
    proof {
        assert(cell_chain(r) =~= seq![None::<Seq<u8>>]);
    }
    r
}

/// A cell-width buffer holding `buff[base..]` padded with `empty`.
fn fill_from(buff: &[u8], base: usize, w: usize, empty: u8) -> (v: Vec<u8>)
    requires
        base + w <= usize::MAX,
    ensures
        v@.len() == w,
        forall|j: int|
            0 <= j < w ==> v@[j] == (if base + j < buff@.len() {
                buff@[base + j]
            } else {
                empty
            }),
{
    let mut v: Vec<u8> = Vec::new();
    let mut j: usize = 0;
    while j < w
        invariant
            j <= w,
            base + w <= usize::MAX,
            v@.len() == j,
            forall|k: int|
                0 <= k < j ==> v@[k] == (if base + k < buff@.len() {
                    buff@[base + k]
                } else {
                    empty
                }),
        decreases w - j,
    {
        let idx = base + j;
        if idx < buff.len() {
            let s = buff[idx];
            v.push(s);
        } else {
            v.push(empty);
        }
        j = j + 1;
    }
    v
}

/// The chain of Full cells holding `buff` packed `w` symbols per cell, the
/// last cell padded with `empty`; always at least one cell.
pub fn cells_from_slice(w: usize, buff: &[u8], empty: u8) -> (r: Cell)
    requires
        w >= 1,
        buff@.len() + w <= usize::MAX,
    ensures
        well_linked(r),
        !(r.next_of() is Unlinked),
        cell_chain(r).len() == buff@.len() as int / w as int + 1,
        chain_wf(cell_chain(r), w as nat),
        forall|ci: int| 0 <= ci < cell_chain(r).len() ==> (#[trigger] cell_chain(r)[ci]) is Some,
        forall|ci: int, j: int|
            0 <= j < w ==> #[trigger] eff_image(cell_at(cell_chain(r), ci), w as nat, empty)[j]
                == (if 0 <= ci && ci * w + j < buff@.len() {
                buff@[ci * w + j]
            } else {
                empty
            }),
{
    let full_cells = buff.len() / w;
    proof {
        vstd::arithmetic::div_mod::lemma_fundamental_div_mod(buff@.len() as int, w as int);
        vstd::arithmetic::div_mod::lemma_mod_bound(buff@.len() as int, w as int);
    }
    let mut head = full_cell(fill_from(buff, full_cells * w, w, empty), None);
    let mut i: usize = full_cells;
    while i > 0
        invariant
            w >= 1,
            buff@.len() + w <= usize::MAX,
            i <= full_cells,
            full_cells == buff@.len() as int / w as int,
            full_cells * w <= buff@.len(),
            well_linked(head),
            !(head.next_of() is Unlinked),
            cell_chain(head).len() == full_cells - i + 1,
            chain_wf(cell_chain(head), w as nat),
            forall|ci: int|
                0 <= ci < cell_chain(head).len() ==> (#[trigger] cell_chain(head)[ci]) is Some,
            forall|ci: int, j: int|
                0 <= ci < cell_chain(head).len() && 0 <= j < w ==> #[trigger] eff_image(
                    cell_at(cell_chain(head), ci),
                    w as nat,
                    empty,
                )[j] == (if (ci + i) * w + j < buff@.len() {
                    buff@[(ci + i) * w + j]
                } else {
                    empty
                }),
        decreases i,
    {
        i = i - 1;
        proof {
            vstd::arithmetic::mul::lemma_mul_inequality(i + 1, full_cells as int, w as int);
            vstd::arithmetic::mul::lemma_mul_is_distributive_add_other_way(
                w as int,
                i as int,
                1,
            );
        }
        let base = i * w;
        let cbuf = fill_from(buff, base, w, empty);
        let prev = head;
        let ghost prev_chain = cell_chain(prev);
        head = full_cell(cbuf, Some(prev));
        proof {
            assert forall|ci: int, j: int|
                0 <= ci < cell_chain(head).len() && 0 <= j < w implies #[trigger] eff_image(
                cell_at(cell_chain(head), ci),
                w as nat,
                empty,
            )[j] == (if (ci + i) * w + j < buff@.len() {
                buff@[(ci + i) * w + j]
            } else {
                empty
            }) by {
                if ci == 0 {
                    assert(cell_chain(head)[0] == Some(cbuf@));
                    assert((0 + i) * w == i * w);
                } else {
                    assert(cell_chain(head)[ci] == prev_chain[ci - 1]);
                    assert(eff_image(cell_at(prev_chain, ci - 1), w as nat, empty)[j] == (if (
                    ci - 1 + (i + 1)) * w + j < buff@.len() {
                        buff@[(ci - 1 + (i + 1)) * w + j]
                    } else {
                        empty
                    }));
                    assert((ci - 1 + (i + 1)) * w == (ci + i) * w);
                }
            }
        }
    }
    proof {
        vstd::arithmetic::div_mod::lemma_fundamental_div_mod(buff@.len() as int, w as int);
        vstd::arithmetic::div_mod::lemma_mod_bound(buff@.len() as int, w as int);
        let len = buff@.len() as int;
        let chainlen = cell_chain(head).len() as int;
        assert forall|ci: int, j: int|
            0 <= j < w implies #[trigger] eff_image(cell_at(cell_chain(head), ci), w as nat, empty)[j]
            == (if 0 <= ci && ci * w + j < len {
            buff@[ci * w + j]
        } else {
            empty
        }) by {
            if 0 <= ci && ci < chainlen {
                assert((ci + 0) * w == ci * w);
            } else if ci >= chainlen {
                vstd::arithmetic::mul::lemma_mul_inequality(chainlen, ci, w as int);
                vstd::arithmetic::mul::lemma_mul_is_distributive_add_other_way(
                    w as int,
                    chainlen - 1,
                    1,
                );
                vstd::arithmetic::mul::lemma_mul_is_commutative(chainlen - 1, w as int);
                assert(len < chainlen * w);
                assert(cell_at(cell_chain(head), ci) is None);
            } else {
                assert(cell_at(cell_chain(head), ci) is None);
            }
        }
    }
    head
}

} // verus!

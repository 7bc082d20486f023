//! The two-cell cursor cache.
//!
//! Cells live behind a layer of indirection; a machine oscillating around a
//! cell boundary would follow links on every move. The cache keeps inline
//! copies of the focus cell and one adjacent cell, so the linked structure is
//! touched only when the cursor leaves the two-cell window. The cache is
//! agnostic of cells: the tape reads and writes the actual cells around it.

use crate::tape::Movement;
use vstd::pervasive::VecAdditionalExecFns;
use vstd::prelude::*;

verus! {

/// Which half of the cache window a statement is about.
#[derive(Copy, Clone, PartialEq, Eq, Structural, Debug)]
pub enum Side {
    Left,
    Right,
}

/// What a cache shift did.
pub enum ShiftRet {
    /// The cursor stayed inside the active half.
    Stay,
    /// The cursor crossed into the other cached half, which is now active.
    InCache(Side),
    /// The cursor left the window towards the given side; the cache is
    /// unchanged and `shift_flush` must be called with that cell's contents.
    OutCacheFail(Side),
}

/// A two-cell window over the tape: inline copies of the focus cell and of
/// one adjacent cell, a cursor offset inside the active half, and one dirty
/// flag per half.
#[derive(Debug)]
pub struct Cache {
    buffer_l: Vec<u8>,
    buffer_r: Vec<u8>,
    cursor: usize,
    current: Side,
    dirty: (bool, bool),
}

impl Cache {
    /// Cell width the cache was built with.
    pub closed spec fn w(self) -> nat {
        self.buffer_l@.len()
    }

    /// Which half is active, i.e. holds the focus cell. The inactive half
    /// holds the neighbor cell on the opposite side of the focus.
    pub closed spec fn side(self) -> Side {
        self.current
    }

    /// Cursor offset inside the active half.
    pub closed spec fn cur(self) -> nat {
        self.cursor as nat
    }

    /// Contents of the active half: the up-to-date image of the focus cell.
    pub closed spec fn active(self) -> Seq<u8> {
        match self.current {
            Side::Left => self.buffer_l@,
            Side::Right => self.buffer_r@,
        }
    }

    /// Contents of the inactive half: the up-to-date image of the neighbor
    /// cell on the side opposite to `side()`.
    pub closed spec fn inactive(self) -> Seq<u8> {
        match self.current {
            Side::Left => self.buffer_r@,
            Side::Right => self.buffer_l@,
        }
    }

    /// Has the active half been written since it was loaded or flushed?
    pub closed spec fn active_dirty(self) -> bool {
        match self.current {
            Side::Left => self.dirty.0,
            Side::Right => self.dirty.1,
        }
    }

    /// Has the inactive half been written since it was loaded or flushed?
    pub closed spec fn inactive_dirty(self) -> bool {
        match self.current {
            Side::Left => self.dirty.1,
            Side::Right => self.dirty.0,
        }
    }

    /// Both halves are full cell images and the cursor is inside a half.
    pub closed spec fn wf(self) -> bool {
        &&& self.buffer_l@.len() >= 1
        &&& self.buffer_r@.len() == self.buffer_l@.len()
        &&& (self.cursor as nat) < self.buffer_l@.len()
    }

    /// Build a cache over the focus cell `current` and its left neighbor
    /// `left`, with the cursor on the first symbol of the focus.
    pub fn new(current: Vec<u8>, left: Vec<u8>) -> (c: Cache)
        requires
            current@.len() >= 1,
            left@.len() == current@.len(),
        ensures
            c.wf(),
            c.w() == current@.len(),
            c.side() == Side::Right,
            c.cur() == 0,
            c.active() == current@,
            c.inactive() == left@,
            !c.active_dirty(),
            !c.inactive_dirty(),
    {
        Cache {
            buffer_l: left,
            buffer_r: current,
            cursor: 0,
            current: Side::Right,
            dirty: (false, false),
        }
    }

    /// The symbol under the cursor.
    pub fn read(&self) -> (s: u8)
        requires
            self.wf(),
        ensures
            s == self.active()[self.cur() as int],
    {
        match self.current {
            Side::Left => self.buffer_l[self.cursor],
            Side::Right => self.buffer_r[self.cursor],
        }
    }

    /// Replace the symbol under the cursor, returning the previous one; the
    /// active half turns dirty if the symbol changed.
    pub fn write(&mut self, symb: u8) -> (prev: u8)
        requires
            old(self).wf(),
        ensures
            final(self).wf(),
            final(self).w() == old(self).w(),
            final(self).side() == old(self).side(),
            final(self).cur() == old(self).cur(),
            prev == old(self).active()[old(self).cur() as int],
            final(self).active() == old(self).active().update(old(self).cur() as int, symb),
            final(self).inactive() == old(self).inactive(),
            final(self).active_dirty() == (old(self).active_dirty() || prev != symb),
            final(self).inactive_dirty() == old(self).inactive_dirty(),
    {
        match self.current {
            Side::Left => {
                let old_s = self.buffer_l[self.cursor];
                self.buffer_l.set(self.cursor, symb);
                if old_s != symb {
                    self.dirty.0 = true;
                }
                old_s
            }
            Side::Right => {
                let old_s = self.buffer_r[self.cursor];
                self.buffer_r.set(self.cursor, symb);
                if old_s != symb {
                    self.dirty.1 = true;
                }
                old_s
            }
        }
    }

    /// Move the cursor one symbol in `dir`. The contents and dirty state of
    /// both halves never change here; only the cursor and, when the move
    /// crosses into the other cached half, the active side do. A move out of
    /// the window changes nothing and reports the miss.
    pub fn shift(&mut self, dir: Movement) -> (r: ShiftRet)
        requires
            old(self).wf(),
        ensures
            final(self).wf(),
            final(self).w() == old(self).w(),
            dir == Movement::Stay ==> *final(self) == *old(self) && r == ShiftRet::Stay,
            dir == Movement::Left && old(self).cur() > 0 ==> {
                &&& final(self).cur() == old(self).cur() - 1
                &&& unmoved(*old(self), *final(self))
                &&& r == ShiftRet::Stay
            },
            dir == Movement::Left && old(self).cur() == 0 && old(self).side() == Side::Right ==> {
                &&& final(self).side() == Side::Left
                &&& final(self).cur() == old(self).w() - 1
                &&& final(self).active() == old(self).inactive()
                &&& final(self).inactive() == old(self).active()
                &&& final(self).active_dirty() == old(self).inactive_dirty()
                &&& final(self).inactive_dirty() == old(self).active_dirty()
                &&& r == ShiftRet::InCache(Side::Left)
            },
            dir == Movement::Left && old(self).cur() == 0 && old(self).side() == Side::Left ==> {
                &&& *final(self) == *old(self)
                &&& r == ShiftRet::OutCacheFail(Side::Left)
            },
            dir == Movement::Right && old(self).cur() < old(self).w() - 1 ==> {
                &&& final(self).cur() == old(self).cur() + 1
                &&& unmoved(*old(self), *final(self))
                &&& r == ShiftRet::Stay
            },
            dir == Movement::Right && old(self).cur() == old(self).w() - 1 && old(self).side()
                == Side::Left ==> {
                &&& final(self).side() == Side::Right
                &&& final(self).cur() == 0
                &&& final(self).active() == old(self).inactive()
                &&& final(self).inactive() == old(self).active()
                &&& final(self).active_dirty() == old(self).inactive_dirty()
                &&& final(self).inactive_dirty() == old(self).active_dirty()
                &&& r == ShiftRet::InCache(Side::Right)
            },
            dir == Movement::Right && old(self).cur() == old(self).w() - 1 && old(self).side()
                == Side::Right ==> {
                &&& *final(self) == *old(self)
                &&& r == ShiftRet::OutCacheFail(Side::Right)
            },
    {
        let w = self.buffer_l.len();
        match dir {
            Movement::Left => {
                if self.cursor > 0 {
                    self.cursor = self.cursor - 1;
                    ShiftRet::Stay
                } else if self.current == Side::Right {
                    self.cursor = w - 1;
                    self.current = Side::Left;
                    ShiftRet::InCache(Side::Left)
                } else {
                    ShiftRet::OutCacheFail(Side::Left)
                }
            }
            Movement::Right => {
                if self.cursor < w - 1 {
                    self.cursor = self.cursor + 1;
                    ShiftRet::Stay
                } else if self.current == Side::Left {
                    self.cursor = 0;
                    self.current = Side::Right;
                    ShiftRet::InCache(Side::Right)
                } else {
                    ShiftRet::OutCacheFail(Side::Right)
                }
            }
            Movement::Stay => ShiftRet::Stay,
        }
    }

    /// Complete a shift that missed the window. The inactive half becomes
    /// active with the cursor at its near end, the old active half slides
    /// into the inactive slot, and `new_content` (the cell beyond the miss
    /// side) is loaded into the vacated half. Dirty flags slide along; the
    /// displaced half's contents are returned if it was dirty, so the caller
    /// can write them back to its cell.
    pub fn shift_flush(&mut self, dir: Movement, new_content: &Vec<u8>) -> (displaced: Option<
        Vec<u8>,
    >)
        requires
            old(self).wf(),
            new_content@.len() == old(self).w(),
            dir == Movement::Left ==> old(self).side() == Side::Left && old(self).cur() == 0,
            dir == Movement::Right ==> old(self).side() == Side::Right && old(self).cur() == old(self).w() - 1,
            dir != Movement::Stay,
        ensures
            final(self).wf(),
            final(self).w() == old(self).w(),
            final(self).side() == old(self).side(),
            final(self).cur() == if dir == Movement::Left {
                (old(self).w() - 1) as nat
            } else {
                0nat
            },
            final(self).active() == new_content@,
            final(self).inactive() == old(self).active(),
            !final(self).active_dirty(),
            final(self).inactive_dirty() == old(self).active_dirty(),
            displaced matches Some(b) ==> b@ == old(self).inactive(),
            (displaced is Some) == old(self).inactive_dirty(),
    {
        match dir {
            Movement::Left => {
                self.cursor = self.buffer_l.len() - 1;
                core::mem::swap(&mut self.buffer_l, &mut self.buffer_r);
                let mut displaced_buf = copy_bytes(new_content);
                core::mem::swap(&mut self.buffer_l, &mut displaced_buf);
                let was_dirty = self.dirty.1;
                self.dirty.1 = self.dirty.0;
                self.dirty.0 = false;
                if was_dirty {
                    Some(displaced_buf)
                } else {
                    None
                }
            }
            Movement::Right => {
                self.cursor = 0;
                core::mem::swap(&mut self.buffer_l, &mut self.buffer_r);
                let mut displaced_buf = copy_bytes(new_content);
                core::mem::swap(&mut self.buffer_r, &mut displaced_buf);
                let was_dirty = self.dirty.0;
                self.dirty.0 = self.dirty.1;
                self.dirty.1 = false;
                if was_dirty {
                    Some(displaced_buf)
                } else {
                    None
                }
            }
            Movement::Stay => {
                // Excluded by the precondition.
                vstd::pervasive::unreached()
            }
        }
    }

    /// The active half's contents if it is dirty, for writing back to the
    /// focus cell before a split. Reads only: the cache is left as it is.
    pub fn flush_current(&self) -> (r: Option<Vec<u8>>)
        requires
            self.wf(),
        ensures
            (r is Some) == self.active_dirty(),
            r matches Some(b) ==> b@ == self.active(),
    {
        if self.active_dirty_exec() {
            match self.current {
                Side::Left => Some(copy_bytes(&self.buffer_l)),
                Side::Right => Some(copy_bytes(&self.buffer_r)),
            }
        } else {
            None
        }
    }

    /// Which neighbor cell the inactive half images, and its contents if
    /// that half is dirty. Reads only: the cache is left as it is.
    pub fn flush_other(&self) -> (r: (Side, Option<Vec<u8>>))
        requires
            self.wf(),
        ensures
            self.side() == Side::Left ==> r.0 == Side::Right,
            self.side() == Side::Right ==> r.0 == Side::Left,
            (r.1 is Some) == self.inactive_dirty(),
            r.1 matches Some(b) ==> b@ == self.inactive(),
    {
        match self.current {
            Side::Left => (
                Side::Right,
                if self.dirty.1 {
                    Some(copy_bytes(&self.buffer_r))
                } else {
                    None
                },
            ),
            Side::Right => (
                Side::Left,
                if self.dirty.0 {
                    Some(copy_bytes(&self.buffer_l))
                } else {
                    None
                },
            ),
        }
    }

    /// An independent copy with both dirty flags cleared: what a tape hands
    /// each branch of a split, after flushing, so that a copy's flags mean
    /// "written since the split".
    pub fn duplicate_clean(&self) -> (c: Cache)
        requires
            self.wf(),
        ensures
            c.wf(),
            c.w() == self.w(),
            c.cur() == self.cur(),
            c.side() == self.side(),
            c.active() == self.active(),
            c.inactive() == self.inactive(),
            !c.active_dirty(),
            !c.inactive_dirty(),
    {
        Cache {
            buffer_l: copy_bytes(&self.buffer_l),
            buffer_r: copy_bytes(&self.buffer_r),
            cursor: self.cursor,
            current: self.current,
            dirty: (false, false),
        }
    }

    fn active_dirty_exec(&self) -> (b: bool)
        ensures
            b == self.active_dirty(),
    {
        match self.current {
            Side::Left => self.dirty.0,
            Side::Right => self.dirty.1,
        }
    }
}

/// What well-formedness gives of the abstract cache state: both halves are
/// cell-width buffers and the cursor is inside a half.
pub proof fn lemma_cache_wf_lens(c: Cache)
    requires
        c.wf(),
    ensures
        c.w() >= 1,
        c.active().len() == c.w(),
        c.inactive().len() == c.w(),
        c.cur() < c.w(),
{
}

/// Both caches agree on everything but, possibly, the cursor: same halves,
/// same active side, same dirty flags.
pub open spec fn unmoved(a: Cache, b: Cache) -> bool {
    &&& b.side() == a.side()
    &&& b.active() == a.active()
    &&& b.inactive() == a.inactive()
    &&& b.active_dirty() == a.active_dirty()
    &&& b.inactive_dirty() == a.inactive_dirty()
}

/// An independent copy of a byte buffer.
pub fn copy_bytes(v: &Vec<u8>) -> (r: Vec<u8>)
    ensures
        r@ == v@,
{
    let mut r: Vec<u8> = Vec::new();
    let mut i: usize = 0;
    while i < v.len()
        invariant
            i <= v@.len(),
            r@ == v@.subrange(0, i as int),
        decreases v@.len() - i,
    {
        r.push(v[i]);
        assert(r@ == v@.subrange(0, i + 1 as int));
        i = i + 1;
    }
    assert(r@ == v@.subrange(0, v@.len() as int));
    assert(v@.subrange(0, v@.len() as int) == v@);
    r
}

} // verus!

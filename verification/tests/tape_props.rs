use ndtm::tape::cache::{Cache, ShiftRet, Side};
use ndtm::tape::cells::{cells_from_slice, empty_cell, Cell};
use ndtm::tape::{Movement, Tape};

const W: usize = 5;
const BLANK: u8 = b'_';

fn fresh_tape(init: &[u8]) -> Tape {
    Tape::create(W, BLANK, init)
}

#[test]
fn create_reads_first_symbol() {
    let t = fresh_tape(b"abc");
    assert_eq!(t.read(), b'a');
}

#[test]
fn empty_slice_reads_blank() {
    let t = fresh_tape(b"");
    assert_eq!(t.read(), BLANK);
}

#[test]
fn write_then_stay_reads_written() {
    let mut t = fresh_tape(b"abc");
    let prev = t.write(b'z');
    assert_eq!(prev, b'a');
    t.shift(Movement::Stay);
    assert_eq!(t.read(), b'z');
}

#[test]
fn write_back_read_is_noop() {
    let mut t = fresh_tape(b"abc");
    let s = t.read();
    let prev = t.write(s);
    assert_eq!(prev, s);
    assert_eq!(t.read(), s);
    t.shift(Movement::Right);
    assert_eq!(t.read(), b'b');
}

#[test]
fn shift_then_opposite_restores_symbol() {
    for init in [&b"abcdef"[..], &b"a"[..], &b""[..]] {
        for d in [Movement::Left, Movement::Right] {
            let opp = match d {
                Movement::Left => Movement::Right,
                Movement::Right => Movement::Left,
                Movement::Stay => Movement::Stay,
            };
            let mut t = fresh_tape(init);
            t.write(b'M');
            t.shift(d);
            t.shift(opp);
            assert_eq!(t.read(), b'M');
        }
    }
}

#[test]
fn shift_roundtrip_across_cells() {
    // Walk to the last offset of the first cell, then cross and return.
    let mut t = fresh_tape(b"abcdefgh");
    for _ in 0..4 {
        t.shift(Movement::Right);
    }
    assert_eq!(t.read(), b'e');
    t.shift(Movement::Right);
    assert_eq!(t.read(), b'f');
    t.shift(Movement::Left);
    assert_eq!(t.read(), b'e');
}

#[test]
fn left_shifts_cross_exactly_one_boundary() {
    // W shifts left from the initial offset land on the last symbol of
    // the blank cell just left of the input.
    let mut t = fresh_tape(b"abcde");
    for _ in 0..W {
        t.shift(Movement::Left);
        assert_eq!(t.read(), BLANK);
    }
    for _ in 0..W {
        t.shift(Movement::Right);
    }
    assert_eq!(t.read(), b'a');
}

#[test]
fn long_walk_and_back() {
    let mut t = fresh_tape(b"abcdefghij");
    for i in 0..10 {
        assert_eq!(t.read(), b"abcdefghij"[i]);
        t.shift(Movement::Right);
    }
    assert_eq!(t.read(), BLANK);
    for i in (0..10).rev() {
        t.shift(Movement::Left);
        assert_eq!(t.read(), b"abcdefghij"[i]);
    }
}

#[test]
fn boundary_writes_no_corruption() {
    // Write Z at positions 0..6, shifting right each time, then read all
    // six back: the two cells hold ZZZZZZ with no cross-cell damage.
    let mut t = fresh_tape(b"abcdef");
    for _ in 0..6 {
        t.write(b'Z');
        t.shift(Movement::Right);
    }
    for _ in 0..6 {
        t.shift(Movement::Left);
    }
    for _ in 0..6 {
        assert_eq!(t.read(), b'Z');
        t.shift(Movement::Right);
    }
    assert_eq!(t.read(), BLANK);
}

#[test]
fn split_children_read_like_parent() {
    let mut t = fresh_tape(b"abcdef");
    t.write(b'Q');
    t.shift(Movement::Right);
    let children = t.split(3);
    assert_eq!(children.len(), 3);
    for mut c in children {
        assert_eq!(c.read(), b'b');
        c.shift(Movement::Left);
        assert_eq!(c.read(), b'Q');
    }
}

#[test]
fn split_isolates_writes() {
    let t = fresh_tape(b"abc");
    let mut children = t.split(2);
    let mut right = children.pop().unwrap();
    let mut left = children.pop().unwrap();
    left.write(b'x');
    right.write(b'y');
    assert_eq!(left.read(), b'x');
    assert_eq!(right.read(), b'y');
    left.shift(Movement::Right);
    right.shift(Movement::Right);
    assert_eq!(left.read(), b'b');
    assert_eq!(right.read(), b'b');
}

#[test]
fn split_isolation_past_the_cache() {
    // Writes a marker, walks both children far right, then back: each
    // child sees only its own marker at position 0.
    let t = fresh_tape(b"abcdefghij");
    let mut children = t.split(2);
    let mut b = children.pop().unwrap();
    let mut a = children.pop().unwrap();
    a.write(b'1');
    b.write(b'2');
    for _ in 0..12 {
        a.shift(Movement::Right);
        b.shift(Movement::Right);
    }
    for _ in 0..12 {
        a.shift(Movement::Left);
        b.shift(Movement::Left);
    }
    assert_eq!(a.read(), b'1');
    assert_eq!(b.read(), b'2');
}

#[test]
fn cache_shift_within_and_across() {
    let mut c = Cache::new(vec![b'a', b'b', b'c'], vec![b'x', b'y', b'z']);
    assert_eq!(c.read(), b'a');
    assert!(matches!(c.shift(Movement::Right), ShiftRet::Stay));
    assert_eq!(c.read(), b'b');
    assert!(matches!(c.shift(Movement::Left), ShiftRet::Stay));
    // Crossing left lands on the inactive half's far end.
    assert!(matches!(c.shift(Movement::Left), ShiftRet::InCache(Side::Left)));
    assert_eq!(c.read(), b'z');
    // Another two lefts reach the window edge; the next misses.
    assert!(matches!(c.shift(Movement::Left), ShiftRet::Stay));
    assert!(matches!(c.shift(Movement::Left), ShiftRet::Stay));
    assert_eq!(c.read(), b'x');
    assert!(matches!(c.shift(Movement::Left), ShiftRet::OutCacheFail(Side::Left)));
    // A miss leaves the cache where it was.
    assert_eq!(c.read(), b'x');
}

#[test]
fn cache_shift_flush_returns_displaced_dirty_half() {
    let mut c = Cache::new(vec![b'a', b'b'], vec![b'x', b'y']);
    // Dirty the active (right) half, then walk left out of the window.
    assert_eq!(c.write(b'A'), b'a');
    assert!(matches!(c.shift(Movement::Left), ShiftRet::InCache(Side::Left)));
    assert!(matches!(c.shift(Movement::Left), ShiftRet::Stay));
    assert!(matches!(c.shift(Movement::Left), ShiftRet::OutCacheFail(Side::Left)));
    let displaced = c.shift_flush(Movement::Left, &vec![b'p', b'q']);
    // The displaced half was the dirty one: it must come back to be
    // written to its cell.
    assert_eq!(displaced, Some(vec![b'A', b'b']));
    assert_eq!(c.read(), b'q');
}

#[test]
fn cache_flush_current_reports_only_dirty() {
    let mut c = Cache::new(vec![b'a', b'b'], vec![b'x', b'y']);
    assert_eq!(c.flush_current(), None);
    // Writing the same symbol back keeps the half clean.
    assert_eq!(c.write(b'a'), b'a');
    assert_eq!(c.flush_current(), None);
    assert_eq!(c.write(b'z'), b'a');
    assert_eq!(c.flush_current(), Some(vec![b'z', b'b']));
    // Reading it twice changes nothing.
    assert_eq!(c.flush_current(), Some(vec![b'z', b'b']));
    assert_eq!(c.read(), b'z');
}

#[test]
fn cache_flush_other_names_the_inactive_side() {
    let c = Cache::new(vec![b'a', b'b'], vec![b'x', b'y']);
    let (side, buf) = c.flush_other();
    assert_eq!(side, Side::Left);
    assert_eq!(buf, None);
}

#[test]
fn make_refs_reproduce_original_symbols() {
    let chain = cells_from_slice(5, b"hello", BLANK);
    let mut refs = chain.make_refs(1);
    let single = refs.pop().unwrap();
    let buf = single.read().expect("the shared copy holds a buffer");
    assert_eq!(buf, b"hello".to_vec());
}

#[test]
fn make_refs_share_without_interference() {
    let chain = cells_from_slice(5, b"abcde", BLANK);
    let mut refs = chain.make_refs(2);
    let second = refs.pop().unwrap();
    let mut first = refs.pop().unwrap();
    first.write(vec![b'z'; 5]);
    assert_eq!(first.read().unwrap(), vec![b'z'; 5]);
    assert_eq!(second.read().unwrap(), b"abcde".to_vec());
}

#[test]
fn empty_cell_has_no_buffer() {
    let c = empty_cell();
    assert!(c.read().is_none());
    assert!(matches!(c, Cell::Empty { .. }));
}

#[test]
fn cells_pack_width_and_pad() {
    let chain = cells_from_slice(3, b"abcd", BLANK);
    let head = chain.read().unwrap();
    assert_eq!(head, b"abc".to_vec());
}

//! Tuning Trouble: the first position of a data stream at which the last
//! bytes received are all different.

use vstd::arithmetic::div_mod::{
    lemma_fundamental_div_mod, lemma_fundamental_div_mod_converse, lemma_mod_bound,
};
use vstd::prelude::*;

verus! {

/// The window of `width` bytes that is looked at when the byte at `idx` has
/// been received: the last `width` bytes, and the first `width` bytes of the
/// stream as long as fewer have been received.
pub open spec fn window(stream: Seq<u8>, idx: int, width: int) -> Seq<u8> {
    if idx < width {
        stream.subrange(0, width)
    } else {
        stream.subrange(idx + 1 - width, idx + 1)
    }
}

/// The window at `idx` holds no byte twice.
pub open spec fn is_marker(stream: Seq<u8>, idx: int, width: int) -> bool {
    window(stream, idx, width).no_duplicates()
}

/// The number of bytes received when the first marker is complete, or 0 if
/// the stream holds no marker.
pub open spec fn first_marker(stream: Seq<u8>, width: int) -> int {
    if exists|idx: int| 0 <= idx < stream.len() && is_marker(stream, idx, width) {
        1 + choose|idx: int|
            0 <= idx < stream.len() && is_marker(stream, idx, width) && forall|before: int|
                0 <= before < idx ==> !is_marker(stream, before, width)
    } else {
        0
    }
}

/// The first `idx` at which the window is a marker gives `first_marker`.
pub proof fn lemma_first_marker(stream: Seq<u8>, width: int, idx: int)
    requires
        0 <= idx < stream.len(),
        is_marker(stream, idx, width),
        forall|before: int| 0 <= before < idx ==> !is_marker(stream, before, width),
    ensures
        first_marker(stream, width) == idx + 1,
{
    let found = choose|i: int|
        0 <= i < stream.len() && is_marker(stream, i, width) && forall|before: int|
            0 <= before < i ==> !is_marker(stream, before, width);
    if found < idx {
        assert(!is_marker(stream, found, width));
    }
    if idx < found {
        assert(!is_marker(stream, idx, width));
    }
}

/// Copies `input` to the front of `output`.
pub fn parse(input: &[u8], output: &mut [u8])
    requires
        input@.len() <= old(output)@.len(),
    ensures
        final(output)@.len() == old(output)@.len(),
        final(output)@.take(input@.len() as int) == input@,
        final(output)@.skip(input@.len() as int) == old(output)@.skip(input@.len() as int),
{
    let mut i: usize = 0;
    while i < input.len()
        invariant
            i <= input@.len() <= output@.len(),
            output@.len() == old(output)@.len(),
            output@.take(i as int) == input@.take(i as int),
            output@.skip(input@.len() as int) == old(output)@.skip(input@.len() as int),
        decreases input@.len() - i,
    {
        let ghost before = output@;
        output[i] = input[i];
        proof {
            assert(output@ == before.update(i as int, input@[i as int]));
            assert(output@.take(i + 1) =~= input@.take(i + 1)) by {
                assert forall|k: int| 0 <= k < i + 1 implies #[trigger] output@.take(i + 1)[k]
                    == input@.take(i + 1)[k] by {
                    if k < i {
                        assert(before.take(i as int)[k] == input@.take(i as int)[k]);
                    }
                }
            }
            assert(output@.skip(input@.len() as int) =~= before.skip(input@.len() as int));
        }
        i += 1;
    }
    proof {
        assert(input@.take(input@.len() as int) =~= input@);
    }
}

/// The slot of the ring buffer that holds the byte at position `p`.
pub open spec fn slot(p: int, width: int) -> int {
    p % width
}

/// The ring buffer holds the `width` bytes of the stream from `low` on, each
/// in its slot.
pub open spec fn ring_holds(ring: Seq<u8>, stream: Seq<u8>, low: int, width: int) -> bool {
    &&& ring.len() == width
    &&& forall|p: int| low <= p < low + width ==> ring[#[trigger] slot(p, width)] == stream[p]
}

/// The one position of the window that is held in slot `i`.
pub open spec fn position_of(i: int, low: int, width: int) -> int {
    if i >= low % width {
        low - low % width + i
    } else {
        low - low % width + width + i
    }
}

/// `position_of` is in the window and is held in its slot.
pub proof fn lemma_position_of(i: int, low: int, width: int)
    requires
        0 <= i < width,
        0 <= low,
    ensures
        low <= position_of(i, low, width) < low + width,
        slot(position_of(i, low, width), width) == i,
{
    lemma_fundamental_div_mod(low, width);
    lemma_mod_bound(low, width);
    let q = low / width;
    let p = position_of(i, low, width);
    if i >= low % width {
        assert(p == q * width + i) by (nonlinear_arith)
            requires
                p == low - low % width + i,
                low == width * q + low % width,
        ;
        lemma_fundamental_div_mod_converse(p, width, q, i);
    } else {
        assert(p == (q + 1) * width + i) by (nonlinear_arith)
            requires
                p == low - low % width + width + i,
                low == width * q + low % width,
        ;
        lemma_fundamental_div_mod_converse(p, width, q + 1, i);
    }
}

/// Two positions of one window are held in different slots.
pub proof fn lemma_slots_differ(a: int, b: int, width: int)
    requires
        0 <= a < b < a + width,
    ensures
        slot(a, width) != slot(b, width),
{
    lemma_fundamental_div_mod(a, width);
    lemma_fundamental_div_mod(b, width);
    lemma_mod_bound(a, width);
    lemma_mod_bound(b, width);
    if a % width == b % width {
        let d = b / width - a / width;
        assert(b - a == width * d) by (nonlinear_arith)
            requires
                a == width * (a / width) + a % width,
                b == width * (b / width) + b % width,
                a % width == b % width,
                d == b / width - a / width,
        ;
        assert(false) by (nonlinear_arith)
            requires
                0 < b - a < width,
                b - a == width * d,
        ;
    }
}

/// The ring buffer holds a byte twice if and only if the window does.
pub proof fn lemma_ring_duplicates(ring: Seq<u8>, stream: Seq<u8>, low: int, width: int)
    requires
        0 <= low,
        low + width <= stream.len(),
        ring_holds(ring, stream, low, width),
    ensures
        ring.no_duplicates() == stream.subrange(low, low + width).no_duplicates(),
{
    let view = stream.subrange(low, low + width);
    if !ring.no_duplicates() {
        let (i, j) = choose|i: int, j: int|
            0 <= i < ring.len() && 0 <= j < ring.len() && i != j && ring[i] == ring[j];
        lemma_position_of(i, low, width);
        lemma_position_of(j, low, width);
        let a = position_of(i, low, width);
        let b = position_of(j, low, width);
        assert(ring[slot(a, width)] == stream[a]);
        assert(ring[slot(b, width)] == stream[b]);
        assert(view[a - low] == view[b - low]);
    }
    if !view.no_duplicates() {
        let (i, j) = choose|i: int, j: int|
            0 <= i < view.len() && 0 <= j < view.len() && i != j && view[i] == view[j];
        let a = low + i;
        let b = low + j;
        if a < b {
            lemma_slots_differ(a, b, width);
        } else {
            lemma_slots_differ(b, a, width);
        }
        lemma_mod_bound(a, width);
        lemma_mod_bound(b, width);
        assert(ring[slot(a, width)] == stream[a]);
        assert(ring[slot(b, width)] == stream[b]);
    }
}

/// Whether the buffer holds a byte twice.
pub fn has_duplicate<const W: usize>(marker: &[u8; W]) -> (dup: bool)
    ensures
        dup == !marker@.no_duplicates(),
{
    let mut dup = false;
    let mut i: usize = 0;
    while i < W
        invariant
            i <= W,
            dup == exists|a: int, b: int| 0 <= a < i && a < b < W && marker@[a] == marker@[b],
        decreases W - i,
    {
        let mut j: usize = i + 1;
        while j < W
            invariant
                i < j <= W,
                dup == exists|a: int, b: int|
                    a < b < W && (0 <= a < i || (a == i && b < j)) && marker@[a] == marker@[b],
            decreases W - j,
        {
            if marker[i] == marker[j] {
                dup = true;
            }
            j += 1;
        }
        i += 1;
    }
    proof {
        if !marker@.no_duplicates() {
            let (a, b) = choose|a: int, b: int|
                0 <= a < marker@.len() && 0 <= b < marker@.len() && a != b && marker@[a]
                    == marker@[b];
            if a < b {
                assert(marker@[a] == marker@[b]);
            } else {
                assert(marker@[b] == marker@[a]);
            }
        }
    }
    dup
}

/// Where the window begins that a ring buffer holds before the byte at `idx`
/// is written to it.
pub open spec fn low_before(idx: int, width: int) -> int {
    if idx <= width {
        0
    } else {
        idx - width
    }
}

/// The number of bytes received when the first window of `W` different
/// bytes is complete, or 0 if there is none. The window is kept in a ring
/// buffer that begins as the first `W` bytes of the stream.
pub fn find_marker<const W: usize>(puzzle: &[u8]) -> (r: i32)
    requires
        0 < W <= puzzle@.len() <= i32::MAX,
    ensures
        r == first_marker(puzzle@, W as int),
{
    let mut marker: [u8; W] = [0; W];
    let mut k: usize = 0;
    while k < W
        invariant
            k <= W <= puzzle@.len(),
            forall|p: int| 0 <= p < k ==> marker@[p] == puzzle@[p],
        decreases W - k,
    {
        marker[k] = puzzle[k];
        k += 1;
    }
    proof {
        assert forall|p: int| 0 <= p < W implies marker@[#[trigger] slot(p, W as int)]
            == puzzle@[p] by {
            lemma_fundamental_div_mod_converse(p, W as int, 0, p);
        }
    }
    let mut idx: usize = 0;
    while idx < puzzle.len()
        invariant
            idx <= puzzle@.len() <= i32::MAX,
            0 < W <= puzzle@.len(),
            ring_holds(marker@, puzzle@, low_before(idx as int, W as int), W as int),
            forall|before: int|
                0 <= before < idx ==> !#[trigger] is_marker(puzzle@, before, W as int),
        decreases puzzle@.len() - idx,
    {
        let ghost held = marker@;
        let ghost low = if idx < W {
            0
        } else {
            idx + 1 - W
        };
        proof {
            lemma_mod_bound(idx as int, W as int);
        }
        marker[idx % W] = puzzle[idx];
        proof {
            assert forall|p: int| low <= p < low + W implies marker@[#[trigger] slot(p, W as int)]
                == puzzle@[p] by {
                lemma_mod_bound(p, W as int);
                if p < idx {
                    lemma_slots_differ(p, idx as int, W as int);
                    assert(held[slot(p, W as int)] == puzzle@[p]);
                } else if p > idx {
                    lemma_slots_differ(idx as int, p, W as int);
                    assert(held[slot(p, W as int)] == puzzle@[p]);
                }
            }
            lemma_ring_duplicates(marker@, puzzle@, low, W as int);
            assert(window(puzzle@, idx as int, W as int) == puzzle@.subrange(low, low + W));
        }
        if !has_duplicate(&marker) {
            proof {
                lemma_first_marker(puzzle@, W as int, idx as int);
            }
            return idx as i32 + 1;
        }
        idx += 1;
    }
    0
}

/// The number of bytes received when the first start-of-packet marker, four
/// different bytes, is complete; 0 if there is none.
pub fn part1(puzzle: &[u8]) -> (r: i32)
    requires
        4 <= puzzle@.len() <= i32::MAX,
    ensures
        r == first_marker(puzzle@, 4),
{
    find_marker::<4>(puzzle)
}

/// The number of bytes received when the first start-of-message marker,
/// fourteen different bytes, is complete; 0 if there is none.
pub fn part2(puzzle: &[u8]) -> (r: i32)
    requires
        14 <= puzzle@.len() <= i32::MAX,
    ensures
        r == first_marker(puzzle@, 14),
{
    find_marker::<14>(puzzle)
}

} // verus!

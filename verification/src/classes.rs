//! What the elements of a character class are: each element of each range,
//! once, and nothing else.

use crate::model::{byte_elements, bytes, scalars, unicode_elements};
use crate::syntax::{ByteRange, ScalarRange};
use vstd::prelude::*;
use vstd::utf8::{
    encode_scalar, has_width_1_encoding, has_width_2_encoding, has_width_3_encoding, is_scalar,
};

verus! {

/// Whether each range ends below the start of every later range.
pub open spec fn scalar_ranges_ascend(ranges: Seq<ScalarRange>) -> bool {
    forall|a: int, b: int|
        0 <= a < b < ranges.len() ==> (#[trigger] ranges[a]).end < (#[trigger] ranges[b]).start
}

/// Whether each range ends below the start of every later range.
pub open spec fn byte_ranges_ascend(ranges: Seq<ByteRange>) -> bool {
    forall|a: int, b: int|
        0 <= a < b < ranges.len() ==> (#[trigger] ranges[a]).end < (#[trigger] ranges[b]).start
}

/// The scalar values from `low` through `high` are the scalar values `v`
/// with `low <= v <= high`, each at one position, ascending.
pub proof fn lemma_scalars_exact(low: u32, high: u32)
    ensures
        forall|i: int|
            0 <= i < scalars(low, high).len() ==> low <= (#[trigger] scalars(low, high)[i]) <= high
                && is_scalar(scalars(low, high)[i]),
        forall|i: int, j: int|
            0 <= i < j < scalars(low, high).len() ==> (#[trigger] scalars(low, high)[i]) < (
            #[trigger] scalars(low, high)[j]),
        forall|v: u32| low <= v <= high && is_scalar(v) ==> scalars(low, high).contains(v),
    decreases high + 1 - low,
{
    let all = scalars(low, high);
    if low < high {
        let tail = scalars((low + 1) as u32, high);
        lemma_scalars_exact((low + 1) as u32, high);
        let head = if is_scalar(low) {
            seq![low]
        } else {
            Seq::<u32>::empty()
        };
        assert(all == head + tail);
        assert forall|v: u32| low <= v <= high && is_scalar(v) implies all.contains(v) by {
            if v == low {
                assert(all[0] == v);
            } else {
                assert(tail.contains(v));
                let k = choose|k: int| 0 <= k < tail.len() && tail[k] == v;
                assert(all[head.len() + k] == v);
            }
        }
    } else if low == high {
        assert forall|v: u32| low <= v <= high && is_scalar(v) implies all.contains(v) by {
            assert(all[0] == v);
        }
    }
}

/// The byte values from `low` through `high` are the values `v` with
/// `low <= v <= high`, each at one position, ascending.
pub proof fn lemma_bytes_exact(low: u8, high: u8)
    ensures
        forall|i: int|
            0 <= i < bytes(low, high).len() ==> low <= (#[trigger] bytes(low, high)[i]) <= high,
        forall|i: int, j: int|
            0 <= i < j < bytes(low, high).len() ==> (#[trigger] bytes(low, high)[i]) < (
            #[trigger] bytes(low, high)[j]),
        forall|v: u8| low <= v <= high ==> bytes(low, high).contains(v),
{
    assert forall|v: u8| low <= v <= high implies bytes(low, high).contains(v) by {
        assert(bytes(low, high)[v - low] == v);
    }
}

/// Every element of a Unicode class is a scalar value of one of its ranges.
pub proof fn law_unicode_only(ranges: Seq<ScalarRange>, from: nat, i: int) -> (k: int)
    requires
        0 <= i < unicode_elements(ranges, from).len(),
    ensures
        from <= k < ranges.len(),
        ranges[k].start as u32 <= unicode_elements(ranges, from)[i] <= ranges[k].end as u32,
        is_scalar(unicode_elements(ranges, from)[i]),
    decreases ranges.len() - from,
{
    let here = scalars(ranges[from as int].start as u32, ranges[from as int].end as u32);
    if i < here.len() {
        lemma_scalars_exact(ranges[from as int].start as u32, ranges[from as int].end as u32);
        from as int
    } else {
        law_unicode_only(ranges, from + 1, i - here.len())
    }
}

/// Every scalar value of every range of a Unicode class is an element of
/// the class.
pub proof fn law_unicode_covers(ranges: Seq<ScalarRange>, from: nat, k: int, v: u32)
    requires
        from <= k < ranges.len(),
        ranges[k].start as u32 <= v <= ranges[k].end as u32,
        is_scalar(v),
    ensures
        unicode_elements(ranges, from).contains(v),
    decreases ranges.len() - from,
{
    let here = scalars(ranges[from as int].start as u32, ranges[from as int].end as u32);
    let later = unicode_elements(ranges, from + 1);
    let all = unicode_elements(ranges, from);
    if k == from {
        lemma_scalars_exact(ranges[k].start as u32, ranges[k].end as u32);
        assert(here.contains(v));
        let at = choose|at: int| 0 <= at < here.len() && here[at] == v;
        assert(all[at] == v);
    } else {
        law_unicode_covers(ranges, from + 1, k, v);
        let at = choose|at: int| 0 <= at < later.len() && later[at] == v;
        assert(all[here.len() + at] == v);
    }
}

/// Where the ranges of a Unicode class ascend, so do its elements: none
/// comes twice.
pub proof fn law_unicode_once(ranges: Seq<ScalarRange>, from: nat, i: int, j: int)
    requires
        scalar_ranges_ascend(ranges),
        0 <= i < j < unicode_elements(ranges, from).len(),
    ensures
        unicode_elements(ranges, from)[i] < unicode_elements(ranges, from)[j],
    decreases ranges.len() - from,
{
    let low = ranges[from as int].start as u32;
    let high = ranges[from as int].end as u32;
    let here = scalars(low, high);
    lemma_scalars_exact(low, high);
    if j < here.len() {
    } else if i >= here.len() {
        law_unicode_once(ranges, from + 1, i - here.len(), j - here.len());
    } else {
        let k = law_unicode_only(ranges, from + 1, j - here.len());
        assert(ranges[from as int].end < ranges[k].start);
    }
}

/// Every element of a byte class is a value of one of its ranges.
pub proof fn law_bytes_only(ranges: Seq<ByteRange>, from: nat, i: int) -> (k: int)
    requires
        0 <= i < byte_elements(ranges, from).len(),
    ensures
        from <= k < ranges.len(),
        ranges[k].start <= byte_elements(ranges, from)[i] <= ranges[k].end,
    decreases ranges.len() - from,
{
    let here = bytes(ranges[from as int].start, ranges[from as int].end);
    if i < here.len() {
        lemma_bytes_exact(ranges[from as int].start, ranges[from as int].end);
        from as int
    } else {
        law_bytes_only(ranges, from + 1, i - here.len())
    }
}

/// Every value of every range of a byte class is an element of the class.
pub proof fn law_bytes_covers(ranges: Seq<ByteRange>, from: nat, k: int, v: u8)
    requires
        from <= k < ranges.len(),
        ranges[k].start <= v <= ranges[k].end,
    ensures
        byte_elements(ranges, from).contains(v),
    decreases ranges.len() - from,
{
    let here = bytes(ranges[from as int].start, ranges[from as int].end);
    let later = byte_elements(ranges, from + 1);
    let all = byte_elements(ranges, from);
    if k == from {
        lemma_bytes_exact(ranges[k].start, ranges[k].end);
        assert(here.contains(v));
        let at = choose|at: int| 0 <= at < here.len() && here[at] == v;
        assert(all[at] == v);
    } else {
        law_bytes_covers(ranges, from + 1, k, v);
        let at = choose|at: int| 0 <= at < later.len() && later[at] == v;
        assert(all[here.len() + at] == v);
    }
}

/// Where the ranges of a byte class ascend, so do its elements: none comes
/// twice.
pub proof fn law_bytes_once(ranges: Seq<ByteRange>, from: nat, i: int, j: int)
    requires
        byte_ranges_ascend(ranges),
        0 <= i < j < byte_elements(ranges, from).len(),
    ensures
        byte_elements(ranges, from)[i] < byte_elements(ranges, from)[j],
    decreases ranges.len() - from,
{
    let low = ranges[from as int].start;
    let high = ranges[from as int].end;
    let here = bytes(low, high);
    lemma_bytes_exact(low, high);
    if j < here.len() {
    } else if i >= here.len() {
        law_bytes_once(ranges, from + 1, i - here.len(), j - here.len());
    } else {
        let k = law_bytes_only(ranges, from + 1, j - here.len());
        assert(ranges[from as int].end < ranges[k].start);
    }
}

/// Two scalar values with the same UTF-8 form are the same.
pub proof fn law_encoding_distinct(a: u32, b: u32)
    requires
        is_scalar(a),
        is_scalar(b),
        encode_scalar(a) == encode_scalar(b),
    ensures
        a == b,
{
    let x = encode_scalar(a);
    let y = encode_scalar(b);
    assert(x.len() == y.len());
    if has_width_1_encoding(a) {
        assert(x[0] == y[0]);
        assert(a == b) by (bit_vector)
            requires
                a <= 0x7F,
                b <= 0x7F,
                (a & 0x7F) as u8 == (b & 0x7F) as u8,
        ;
    } else if has_width_2_encoding(a) {
        assert(x[0] == y[0] && x[1] == y[1]);
        assert(a == b) by (bit_vector)
            requires
                0x80 <= a <= 0x7FF,
                0x80 <= b <= 0x7FF,
                0xC0u8 | ((a >> 6) & 0x1F) as u8 == 0xC0u8 | ((b >> 6) & 0x1F) as u8,
                0x80u8 | (a & 0x3F) as u8 == 0x80u8 | (b & 0x3F) as u8,
        ;
    } else if has_width_3_encoding(a) {
        assert(x[0] == y[0] && x[1] == y[1] && x[2] == y[2]);
        assert(a == b) by (bit_vector)
            requires
                0x800 <= a <= 0xFFFF,
                0x800 <= b <= 0xFFFF,
                0xE0u8 | ((a >> 12) & 0x0F) as u8 == 0xE0u8 | ((b >> 12) & 0x0F) as u8,
                0x80u8 | ((a >> 6) & 0x3F) as u8 == 0x80u8 | ((b >> 6) & 0x3F) as u8,
                0x80u8 | (a & 0x3F) as u8 == 0x80u8 | (b & 0x3F) as u8,
        ;
    } else {
        assert(x[0] == y[0] && x[1] == y[1] && x[2] == y[2] && x[3] == y[3]);
        assert(a == b) by (bit_vector)
            requires
                0x10000 <= a <= 0x10FFFF,
                0x10000 <= b <= 0x10FFFF,
                0xF0u8 | ((a >> 18) & 0x7) as u8 == 0xF0u8 | ((b >> 18) & 0x7) as u8,
                0x80u8 | ((a >> 12) & 0x3F) as u8 == 0x80u8 | ((b >> 12) & 0x3F) as u8,
                0x80u8 | ((a >> 6) & 0x3F) as u8 == 0x80u8 | ((b >> 6) & 0x3F) as u8,
                0x80u8 | (a & 0x3F) as u8 == 0x80u8 | (b & 0x3F) as u8,
        ;
    }
}

} // verus!

//! Walking through the elements of a character class, range by range.

use crate::encode::encode;
use crate::model::{byte_elements, bytes, encoded, scalars, single_bytes, unicode_elements};
use crate::sequences::{
    lemma_bytes_first, lemma_encoded_first, lemma_scalars_empty, lemma_scalars_first,
    lemma_scalars_gap, lemma_single_bytes_first,
};
use crate::syntax::{CharClass, Class};
use vstd::prelude::*;
use vstd::utf8::is_scalar;

verus! {

/// The number of ranges of a class.
pub(crate) open spec fn class_len_of(class: Class) -> nat {
    match class {
        Class::Unicode(ranges) => ranges.len(),
        Class::Bytes(ranges) => ranges.len(),
    }
}

/// The candidates of the class from the range at index `from` on.
pub(crate) open spec fn class_from(class: Class, from: nat) -> Seq<Seq<u8>> {
    match class {
        Class::Unicode(ranges) => encoded(unicode_elements(ranges, from)),
        Class::Bytes(ranges) => single_bytes(byte_elements(ranges, from)),
    }
}

/// The candidates of the class from `value` in the range at index `range`
/// on.
pub(crate) open spec fn class_rest(class: Class, range: nat, value: u32) -> Seq<Seq<u8>> {
    match class {
        Class::Unicode(ranges) => if range < ranges.len() {
            encoded(
                scalars(value, ranges[range as int].end as u32) + unicode_elements(
                    ranges,
                    range + 1,
                ),
            )
        } else {
            Seq::empty()
        },
        Class::Bytes(ranges) => if range < ranges.len() {
            single_bytes(
                bytes(value as u8, ranges[range as int].end) + byte_elements(ranges, range + 1),
            )
        } else {
            Seq::empty()
        },
    }
}

/// Whether `value` is an element of the range at index `range`, or `range`
/// is past the last range.
pub(crate) open spec fn class_at(class: Class, range: nat, value: u32) -> bool {
    match class {
        Class::Unicode(ranges) => {
            &&& range <= ranges.len()
            &&& range < ranges.len() ==> {
                &&& ranges[range as int].start as u32 <= value <= ranges[range as int].end as u32
                &&& is_scalar(value)
            }
        },
        Class::Bytes(ranges) => {
            &&& range <= ranges.len()
            &&& range < ranges.len() ==> ranges[range as int].start <= value
                <= ranges[range as int].end
        },
    }
}

/// Counts the ranges of a class.
pub(crate) fn class_len(class: &CharClass) -> (r: usize)
    ensures
        r == class_len_of(class@),
{
    match class {
        CharClass::Unicode(ranges) => ranges.len(),
        CharClass::Bytes(ranges) => ranges.len(),
    }
}

/// Finds the first range at or after index `from` that holds anything, and
/// its first value.
pub(crate) fn class_seek(class: &CharClass, from: usize) -> (r: (usize, u32))
    requires
        from <= class_len_of(class@),
    ensures
        from <= r.0 <= class_len_of(class@),
        class_at(class@, r.0 as nat, r.1),
        class_rest(class@, r.0 as nat, r.1) == class_from(class@, from as nat),
{
    let mut k: usize = from;
    match class {
        CharClass::Unicode(ranges) => {
            while k < ranges.len() && ranges[k].start > ranges[k].end
                invariant
                    from <= k <= ranges.len(),
                    unicode_elements(ranges@, k as nat) == unicode_elements(ranges@, from as nat),
                decreases ranges.len() - k,
            {
                proof {
                    lemma_scalars_empty(ranges@[k as int].start as u32, ranges@[k as int].end as u32);
                    assert(unicode_elements(ranges@, k as nat) =~= unicode_elements(
                        ranges@,
                        (k + 1) as nat,
                    ));
                }
                k += 1;
            }
            if k < ranges.len() {
                (k, ranges[k].start as u32)
            } else {
                (k, 0)
            }
        },
        CharClass::Bytes(ranges) => {
            while k < ranges.len() && ranges[k].start > ranges[k].end
                invariant
                    from <= k <= ranges.len(),
                    byte_elements(ranges@, k as nat) == byte_elements(ranges@, from as nat),
                decreases ranges.len() - k,
            {
                proof {
                    assert(byte_elements(ranges@, k as nat) =~= byte_elements(
                        ranges@,
                        (k + 1) as nat,
                    ));
                }
                k += 1;
            }
            if k < ranges.len() {
                (k, ranges[k].start as u32)
            } else {
                (k, 0)
            }
        },
    }
}

/// Yields the element of the class at `value` in the range at index
/// `range`, and finds the element after it.
pub(crate) fn class_step(class: &CharClass, range: usize, value: u32) -> (r: (Vec<u8>, usize, u32))
    requires
        class_at(class@, range as nat, value),
        range < class_len_of(class@),
    ensures
        class_at(class@, r.1 as nat, r.2),
        class_rest(class@, range as nat, value).len() > 0,
        class_rest(class@, range as nat, value)[0] == r.0@,
        class_rest(class@, range as nat, value).drop_first() == class_rest(
            class@,
            r.1 as nat,
            r.2,
        ),
{
    match class {
        CharClass::Unicode(ranges) => {
            let end = ranges[range].end as u32;
            let ghost later = unicode_elements(ranges@, (range + 1) as nat);
            let candidate = encode(value);
            proof {
                lemma_scalars_first(value, end);
            }
            if value < end {
                let next: u32 = if value + 1 == 0xD800 {
                    0xE000
                } else {
                    value + 1
                };
                proof {
                    if value + 1 == 0xD800 {
                        lemma_scalars_gap(0xD800, end);
                    }
                    let after = scalars(next, end);
                    assert(scalars(value, end) + later =~= seq![value] + (after + later));
                    lemma_encoded_first(value, after + later);
                }
                (candidate, range, next)
            } else {
                assert(range < ranges.len());
                let (k, v) = class_seek(class, range + 1);
                proof {
                    assert(scalars(value, end) + later =~= seq![value] + later);
                    lemma_encoded_first(value, later);
                }
                (candidate, k, v)
            }
        },
        CharClass::Bytes(ranges) => {
            let end = ranges[range].end;
            let ghost later = byte_elements(ranges@, (range + 1) as nat);
            let byte = value as u8;
            let mut candidate: Vec<u8> = Vec::new();
            candidate.push(byte);
            proof {
                lemma_bytes_first(byte, end);
                assert(candidate@ =~= seq![byte]);
            }
            if byte < end {
                proof {
                    let after = bytes((byte + 1) as u8, end);
                    assert(bytes(byte, end) + later =~= seq![byte] + (after + later));
                    lemma_single_bytes_first(byte, after + later);
                }
                (candidate, range, value + 1)
            } else {
                assert(range < ranges.len());
                let (k, v) = class_seek(class, range + 1);
                proof {
                    assert(bytes(byte, end) + later =~= seq![byte] + later);
                    lemma_single_bytes_first(byte, later);
                }
                (candidate, k, v)
            }
        },
    }
}

} // verus!

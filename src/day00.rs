//! Sums a list of numbers, one per line.
use vstd::prelude::*;
use vstd::string::StringSliceAdditionalSpecFns;
use crate::text::{is_signed_number, lines, parse_i64, signed_value, split_lines, views};

verus! {

pub open spec fn fits_i32(v: int) -> bool {
    i32::MIN <= v <= i32::MAX
}

/// One number per line, each fitting in 32 bits; `None` otherwise.
pub fn parse(input: &str) -> (r: Option<Vec<i32>>)
    ensures
        r is Some <==> forall|i: int|
            0 <= i < lines(input.spec_bytes()).len() ==> is_signed_number(
                #[trigger] lines(input.spec_bytes())[i],
            ) && fits_i32(signed_value(lines(input.spec_bytes())[i])),
        r matches Some(v) ==> v@.len() == lines(input.spec_bytes()).len() && forall|i: int|
            0 <= i < v@.len() ==> v@[i] == signed_value(#[trigger] lines(input.spec_bytes())[i]),
{
    let ls = split_lines(input.as_bytes());
    let ghost ln = lines(input.spec_bytes());
    let mut out: Vec<i32> = Vec::new();
    let mut i: usize = 0;
    while i < ls.len()
        invariant
            views(ls@) == ln,
            ln == lines(input.spec_bytes()),
            i <= ls@.len(),
            out@.len() == i,
            forall|j: int|
                0 <= j < i ==> is_signed_number(#[trigger] ln[j]) && fits_i32(signed_value(ln[j])),
            forall|j: int| 0 <= j < i ==> out@[j] == signed_value(#[trigger] ln[j]),
        decreases ls@.len() - i,
    {
        assert(views(ls@).len() == ls@.len());
        assert(ls@[i as int]@ == ln[i as int]);
        match parse_i64(ls[i].as_slice()) {
            Some(v) => {
                if v < i32::MIN as i64 || v > i32::MAX as i64 {
                    assert(!fits_i32(signed_value(ln[i as int])));
                    return None;
                }
                out.push(v as i32);
            },
            None => {
                assert(!(is_signed_number(ln[i as int]) && fits_i32(signed_value(ln[i as int]))));
                return None;
            },
        }
        i = i + 1;
    }
    Some(out)
}

/// The sum of the first `k` numbers.
pub open spec fn sum(s: Seq<i32>, k: int) -> int
    decreases k,
{
    if k <= 0 {
        0
    } else {
        sum(s, k - 1) + s[k - 1]
    }
}

/// The sum of the numbers; every partial sum must fit in 32 bits.
pub fn add_numbers(input: Vec<i32>) -> (r: i32)
    requires
        forall|k: int| 0 <= k <= input@.len() ==> fits_i32(#[trigger] sum(input@, k)),
    ensures
        r == sum(input@, input@.len() as int),
{
    let mut total: i32 = 0;
    let mut i: usize = 0;
    while i < input.len()
        invariant
            i <= input@.len(),
            forall|k: int| 0 <= k <= input@.len() ==> fits_i32(#[trigger] sum(input@, k)),
            total == sum(input@, i as int),
        decreases input@.len() - i,
    {
        assert(fits_i32(sum(input@, i + 1)));
        total = total + input[i];
        i = i + 1;
    }
    total
}

} // verus!

//! Calibration values: the first and the last digit of each line, read as a
//! two-digit number, summed over the lines. Part two also reads the digits
//! spelled out as words.
use vstd::prelude::*;
use vstd::string::StringSliceAdditionalSpecFns;
use crate::text::{is_digit, lines, split_lines, views};

verus! {

/// The name of digit `k`, for `1 <= k <= 9`.
pub open spec fn word(k: nat) -> Seq<u8> {
    if k == 1 {
        seq![0x6fu8, 0x6e, 0x65]
    } else if k == 2 {
        seq![0x74u8, 0x77, 0x6f]
    } else if k == 3 {
        seq![0x74u8, 0x68, 0x72, 0x65, 0x65]
    } else if k == 4 {
        seq![0x66u8, 0x6f, 0x75, 0x72]
    } else if k == 5 {
        seq![0x66u8, 0x69, 0x76, 0x65]
    } else if k == 6 {
        seq![0x73u8, 0x69, 0x78]
    } else if k == 7 {
        seq![0x73u8, 0x65, 0x76, 0x65, 0x6e]
    } else if k == 8 {
        seq![0x65u8, 0x69, 0x67, 0x68, 0x74]
    } else {
        seq![0x6eu8, 0x69, 0x6e, 0x65]
    }
}

/// `s` holds word `w` from index `i` on.
pub open spec fn word_at(s: Seq<u8>, i: int, w: Seq<u8>) -> bool {
    i + w.len() <= s.len() && s.subrange(i, i + w.len()) == w
}

/// The lowest `k` in `from..=9` whose name starts at `i`.
pub open spec fn named_digit(s: Seq<u8>, i: int, from: nat) -> Option<nat>
    decreases 10 - from,
{
    if from > 9 || from == 0 {
        None
    } else if word_at(s, i, word(from)) {
        Some(from)
    } else {
        named_digit(s, i, from + 1)
    }
}

/// The digit that stands at index `i`: a digit byte, or with `words` also a
/// digit's name.
pub open spec fn digit_value(s: Seq<u8>, i: int, words: bool) -> Option<nat> {
    if is_digit(s[i]) {
        Some((s[i] - 0x30) as nat)
    } else if words {
        named_digit(s, i, 1)
    } else {
        None
    }
}

pub open spec fn is_first_digit(s: Seq<u8>, f: int, words: bool) -> bool {
    &&& 0 <= f < s.len()
    &&& digit_value(s, f, words) is Some
    &&& forall|j: int| 0 <= j < f ==> digit_value(s, j, words) is None
}

pub open spec fn is_last_digit(s: Seq<u8>, l: int, words: bool) -> bool {
    &&& 0 <= l < s.len()
    &&& digit_value(s, l, words) is Some
    &&& forall|j: int| l < j < s.len() ==> digit_value(s, j, words) is None
}

pub open spec fn has_digit(s: Seq<u8>, words: bool) -> bool {
    exists|i: int| 0 <= i < s.len() && digit_value(s, i, words) is Some
}

/// The calibration value of a line: ten times its first digit plus its last.
pub open spec fn calibration(s: Seq<u8>, words: bool, v: int) -> bool {
    exists|f: int, l: int|
        is_first_digit(s, f, words) && is_last_digit(s, l, words) && v == 10 * (digit_value(
            s,
            f,
            words,
        )->0 as int) + digit_value(s, l, words)->0 as int
}

fn word_bytes(k: u32) -> (r: Vec<u8>)
    requires
        1 <= k <= 9,
    ensures
        r@ == word(k as nat),
{
    let r = if k == 1 {
        vec![0x6fu8, 0x6e, 0x65]
    } else if k == 2 {
        vec![0x74u8, 0x77, 0x6f]
    } else if k == 3 {
        vec![0x74u8, 0x68, 0x72, 0x65, 0x65]
    } else if k == 4 {
        vec![0x66u8, 0x6f, 0x75, 0x72]
    } else if k == 5 {
        vec![0x66u8, 0x69, 0x76, 0x65]
    } else if k == 6 {
        vec![0x73u8, 0x69, 0x78]
    } else if k == 7 {
        vec![0x73u8, 0x65, 0x76, 0x65, 0x6e]
    } else if k == 8 {
        vec![0x65u8, 0x69, 0x67, 0x68, 0x74]
    } else {
        vec![0x6eu8, 0x69, 0x6e, 0x65]
    };
    assert(r@ =~= word(k as nat));
    r
}

fn matches_at(s: &[u8], i: usize, w: &Vec<u8>) -> (r: bool)
    requires
        i <= s@.len(),
    ensures
        r == word_at(s@, i as int, w@),
{
    if w.len() > s.len() - i {
        return false;
    }
    let end = i + w.len();
    let mut j: usize = 0;
    while j < w.len()
        invariant
            j <= w@.len(),
            end == i + w@.len(),
            i + w@.len() <= s@.len(),
            forall|a: int| 0 <= a < j ==> s@[i + a] == w@[a],
        decreases w@.len() - j,
    {
        if s[i + j] != w[j] {
            assert(s@.subrange(i as int, i + w@.len())[j as int] != w@[j as int]);
            return false;
        }
        j = j + 1;
    }
    assert(s@.subrange(i as int, i + w@.len()) =~= w@);
    true
}

fn digit_at(s: &[u8], i: usize, words: bool) -> (r: Option<u32>)
    requires
        i < s@.len(),
    ensures
        r matches Some(v) ==> digit_value(s@, i as int, words) == Some(v as nat) && v <= 9,
        r is None ==> digit_value(s@, i as int, words) is None,
{
    let b = s[i];
    if 0x30 <= b && b <= 0x39 {
        return Some((b - 0x30) as u32);
    }
    assert(!is_digit(s@[i as int]));
    if !words {
        return None;
    }
    let mut k: u32 = 1;
    while k <= 9
        invariant
            1 <= k <= 10,
            i < s@.len(),
            words,
            !is_digit(s@[i as int]),
            named_digit(s@, i as int, 1) == named_digit(s@, i as int, k as nat),
        decreases 10 - k,
    {
        let w = word_bytes(k);
        if matches_at(s, i, &w) {
            assert(named_digit(s@, i as int, k as nat) == Some(k as nat));
            return Some(k);
        }
        k = k + 1;
    }
    None
}

/// The calibration value of one line, if it holds a digit.
fn line_value(s: &[u8], words: bool) -> (r: Option<u32>)
    ensures
        r is Some <==> has_digit(s@, words),
        r matches Some(v) ==> v <= 99 && calibration(s@, words, v as int),
{
    let n = s.len();
    let mut f: usize = 0;
    while f < n
        invariant
            f <= n == s@.len(),
            forall|j: int| 0 <= j < f ==> digit_value(s@, j, words) is None,
        decreases n - f,
    {
        if let Some(a) = digit_at(s, f, words) {
            let mut l: usize = n;
            while l > f + 1
                invariant
                    f < l <= n == s@.len(),
                    digit_value(s@, f as int, words) == Some(a as nat),
                    a <= 9,
                    forall|j: int| 0 <= j < f ==> digit_value(s@, j, words) is None,
                    forall|j: int| l <= j < n ==> digit_value(s@, j, words) is None,
                decreases l,
            {
                if let Some(b) = digit_at(s, l - 1, words) {
                    assert(is_first_digit(s@, f as int, words));
                    assert(is_last_digit(s@, l - 1, words));
                    return Some(a * 10 + b);
                }
                l = l - 1;
            }
            assert(is_first_digit(s@, f as int, words));
            assert(is_last_digit(s@, f as int, words));
            return Some(a * 10 + a);
        }
        f = f + 1;
    }
    None
}

/// The first digit of a line times ten, plus its last digit.
pub fn extract_first_and_last_digits(input: &str) -> (r: u32)
    requires
        has_digit(input.spec_bytes(), false),
    ensures
        calibration(input.spec_bytes(), false, r as int),
{
    match line_value(input.as_bytes(), false) {
        Some(v) => v,
        None => 0,
    }
}

/// The sum of the calibration values of the first `k` lines.
pub open spec fn total(ls: Seq<Seq<u8>>, words: bool, vals: Seq<u32>, k: int) -> bool {
    &&& vals.len() == k
    &&& forall|i: int| 0 <= i < k ==> calibration(ls[i], words, #[trigger] vals[i] as int)
}

pub open spec fn sum_u32(vals: Seq<u32>) -> int
    decreases vals.len(),
{
    if vals.len() == 0 {
        0
    } else {
        sum_u32(vals.drop_last()) + vals.last()
    }
}

/// The sum of the calibration values of all lines; every line must hold a
/// digit, and the sum must fit in 32 bits, which holds up to tens of millions
/// of lines.
fn sum_lines(input: &str, words: bool) -> (r: u32)
    requires
        forall|i: int|
            0 <= i < lines(input.spec_bytes()).len() ==> has_digit(
                #[trigger] lines(input.spec_bytes())[i],
                words,
            ),
        lines(input.spec_bytes()).len() * 99 <= u32::MAX,
    ensures
        exists|vals: Seq<u32>|
            total(lines(input.spec_bytes()), words, vals, lines(input.spec_bytes()).len() as int)
                && r == sum_u32(vals),
{
    let ls = split_lines(input.as_bytes());
    let ghost ln = lines(input.spec_bytes());
    let ghost mut vals: Seq<u32> = Seq::empty();
    let mut sum: u32 = 0;
    let mut i: usize = 0;
    assert(views(ls@).len() == ls@.len());
    while i < ls.len()
        invariant
            views(ls@) == ln,
            ln == lines(input.spec_bytes()),
            ls@.len() == ln.len(),
            ln.len() * 99 <= u32::MAX,
            forall|j: int| 0 <= j < ln.len() ==> has_digit(#[trigger] ln[j], words),
            i <= ls@.len(),
            total(ln, words, vals, i as int),
            sum == sum_u32(vals),
            sum <= 99 * i,
        decreases ls@.len() - i,
    {
        assert(ls@[i as int]@ == ln[i as int]);
        let v = match line_value(ls[i].as_slice(), words) {
            Some(v) => v,
            None => 0,
        };
        proof {
            assert(vals.push(v).drop_last() =~= vals);
            vals = vals.push(v);
            assert(99 * i + 99 <= u32::MAX) by (nonlinear_arith)
                requires
                    i < ln.len(),
                    ln.len() * 99 <= u32::MAX,
            ;
        }
        sum = sum + v;
        i = i + 1;
    }
    sum
}

/// The sum of the calibration values, digits read from digit bytes only.
pub fn solve_1(input: &str) -> (r: u32)
    requires
        forall|i: int|
            0 <= i < lines(input.spec_bytes()).len() ==> has_digit(
                #[trigger] lines(input.spec_bytes())[i],
                false,
            ),
        lines(input.spec_bytes()).len() * 99 <= u32::MAX,
    ensures
        exists|vals: Seq<u32>|
            total(lines(input.spec_bytes()), false, vals, lines(input.spec_bytes()).len() as int)
                && r == sum_u32(vals),
{
    sum_lines(input, false)
}

/// The sum of the calibration values, digits also read from their names.
pub fn solve_2(input: &str) -> (r: u32)
    requires
        forall|i: int|
            0 <= i < lines(input.spec_bytes()).len() ==> has_digit(
                #[trigger] lines(input.spec_bytes())[i],
                true,
            ),
        lines(input.spec_bytes()).len() * 99 <= u32::MAX,
    ensures
        exists|vals: Seq<u32>|
            total(lines(input.spec_bytes()), true, vals, lines(input.spec_bytes()).len() as int)
                && r == sum_u32(vals),
{
    sum_lines(input, true)
}

} // verus!

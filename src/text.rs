//! Byte-level text helpers shared by the puzzle parsers: splitting on a
//! separator, lines, and decimal numbers.
use vstd::prelude::*;

verus! {

/// The pieces of `s` between occurrences of `sep`, in order; empty pieces
/// included, so there is always one piece more than separators.
pub open spec fn split(s: Seq<u8>, sep: u8) -> Seq<Seq<u8>>
    decreases s.len(),
{
    if s.len() == 0 {
        seq![Seq::<u8>::empty()]
    } else {
        let ps = split(s.drop_last(), sep);
        if s.last() == sep {
            ps.push(Seq::<u8>::empty())
        } else {
            ps.update(ps.len() - 1, ps.last().push(s.last()))
        }
    }
}

pub proof fn lemma_split_nonempty(s: Seq<u8>, sep: u8)
    ensures
        split(s, sep).len() >= 1,
    decreases s.len(),
{
    if s.len() > 0 {
        lemma_split_nonempty(s.drop_last(), sep);
    }
}

/// The lines of `s`: its pieces between line breaks, without the empty piece
/// after a final line break.
pub open spec fn lines(s: Seq<u8>) -> Seq<Seq<u8>> {
    let ps = split(s, 0x0a);
    if ps.last().len() == 0 {
        ps.drop_last()
    } else {
        ps
    }
}

pub open spec fn views(v: Seq<Vec<u8>>) -> Seq<Seq<u8>> {
    v.map_values(|x: Vec<u8>| x@)
}

/// Splits `s` at every `sep`.
pub fn split_on(s: &[u8], sep: u8) -> (r: Vec<Vec<u8>>)
    ensures
        views(r@) == split(s@, sep),
{
    let mut done: Vec<Vec<u8>> = Vec::new();
    let mut cur: Vec<u8> = Vec::new();
    let mut i: usize = 0;
    while i < s.len()
        invariant
            i <= s@.len(),
            views(done@).push(cur@) == split(s@.subrange(0, i as int), sep),
        decreases s@.len() - i,
    {
        let ghost pre = s@.subrange(0, i as int);
        let ghost ps = split(pre, sep);
        assert(s@.subrange(0, i + 1).drop_last() =~= pre);
        proof {
            lemma_split_nonempty(pre, sep);
        }
        let b = s[i];
        if b == sep {
            done.push(cur);
            cur = Vec::new();
            assert(views(done@).push(cur@) =~= ps.push(Seq::<u8>::empty()));
        } else {
            cur.push(b);
            assert(views(done@).push(cur@) =~= ps.update(ps.len() - 1, ps.last().push(b)));
        }
        i = i + 1;
    }
    assert(s@.subrange(0, s@.len() as int) =~= s@);
    done.push(cur);
    assert(views(done@) =~= split(s@, sep));
    done
}

/// The lines of `s`.
pub fn split_lines(s: &[u8]) -> (r: Vec<Vec<u8>>)
    ensures
        views(r@) == lines(s@),
{
    let mut ps = split_on(s, 0x0a);
    proof {
        lemma_split_nonempty(s@, 0x0a);
    }
    let n = ps.len();
    if ps[n - 1].len() == 0 {
        ps.pop();
        assert(views(ps@) =~= split(s@, 0x0a).drop_last());
    }
    ps
}

pub open spec fn is_digit(b: u8) -> bool {
    0x30 <= b <= 0x39
}

/// The value of a string of decimal digits.
pub open spec fn digits_value(s: Seq<u8>) -> nat
    decreases s.len(),
{
    if s.len() == 0 {
        0
    } else {
        digits_value(s.drop_last()) * 10 + (s.last() - 0x30) as nat
    }
}

/// One or more decimal digits and nothing else.
pub open spec fn all_digits(s: Seq<u8>) -> bool {
    s.len() > 0 && forall|i: int| 0 <= i < s.len() ==> is_digit(#[trigger] s[i])
}

/// Reads an unsigned decimal number that fits in 64 bits.
pub fn parse_u64(s: &[u8]) -> (r: Option<u64>)
    ensures
        r is Some <==> all_digits(s@) && digits_value(s@) <= u64::MAX,
        r matches Some(v) ==> v == digits_value(s@),
{
    if s.len() == 0 {
        return None;
    }
    let mut v: u64 = 0;
    let mut i: usize = 0;
    while i < s.len()
        invariant
            i <= s@.len(),
            s@.len() > 0,
            forall|j: int| 0 <= j < i ==> is_digit(#[trigger] s@[j]),
            v == digits_value(s@.subrange(0, i as int)),
        decreases s@.len() - i,
    {
        let b = s[i];
        assert(s@.subrange(0, i + 1).drop_last() =~= s@.subrange(0, i as int));
        if b < 0x30 || b > 0x39 {
            assert(!is_digit(s@[i as int]));
            return None;
        }
        let d = (b - 0x30) as u64;
        if v > (u64::MAX - d) / 10 {
            proof {
                assert(v * 10 + d > u64::MAX) by (nonlinear_arith)
                    requires
                        v > (u64::MAX - d) / 10,
                        0 <= d <= 9,
                ;
                assert(digits_value(s@.subrange(0, i + 1)) == v * 10 + d);
                if all_digits(s@) {
                    lemma_digits_grow(s@, i as int + 1);
                }
            }
            return None;
        }
        v = v * 10 + d;
        i = i + 1;
    }
    assert(s@.subrange(0, s@.len() as int) =~= s@);
    Some(v)
}

/// A longer run of digits is worth at least as much as its prefix.
proof fn lemma_digits_grow(s: Seq<u8>, k: int)
    requires
        0 <= k <= s.len(),
        forall|j: int| 0 <= j < s.len() ==> is_digit(#[trigger] s[j]),
    ensures
        digits_value(s.subrange(0, k)) <= digits_value(s),
    decreases s.len() - k,
{
    if k < s.len() {
        lemma_digits_grow(s, k + 1);
        assert(s.subrange(0, k + 1).drop_last() =~= s.subrange(0, k));
    } else {
        assert(s.subrange(0, k) =~= s);
    }
}

/// The value of an optionally negative decimal number.
pub open spec fn signed_value(s: Seq<u8>) -> int {
    if s.len() > 0 && s[0] == 0x2d {
        -(digits_value(s.drop_first()) as int)
    } else {
        digits_value(s) as int
    }
}

/// Digits, after an optional minus sign.
pub open spec fn is_signed_number(s: Seq<u8>) -> bool {
    if s.len() > 0 && s[0] == 0x2d {
        all_digits(s.drop_first())
    } else {
        all_digits(s)
    }
}

/// Reads an optionally negative decimal number that fits in 64 bits.
pub fn parse_i64(s: &[u8]) -> (r: Option<i64>)
    ensures
        r is Some <==> is_signed_number(s@) && i64::MIN <= signed_value(s@) <= i64::MAX,
        r matches Some(v) ==> v == signed_value(s@),
{
    let neg = s.len() > 0 && s[0] == 0x2d;
    let digits = if neg {
        let (_, rest) = s.split_at(1);
        rest
    } else {
        s
    };
    assert(neg ==> digits@ =~= s@.drop_first());
    match parse_u64(digits) {
        None => {
            proof {
                if is_signed_number(s@) && digits_value(digits@) > u64::MAX {
                    assert(signed_value(s@) < i64::MIN || signed_value(s@) > i64::MAX);
                }
            }
            None
        },
        Some(v) => {
            if neg {
                if v == 0 {
                    Some(0)
                } else if v <= 0x8000_0000_0000_0000u64 {
                    Some((0i64 - ((v - 1) as i64)) - 1)
                } else {
                    None
                }
            } else if v <= 0x7fff_ffff_ffff_ffffu64 {
                Some(v as i64)
            } else {
                None
            }
        },
    }
}


/// Whether two byte strings are equal.
pub fn eq_bytes(a: &[u8], b: &[u8]) -> (r: bool)
    ensures
        r == (a@ == b@),
{
    if a.len() != b.len() {
        return false;
    }
    let mut i: usize = 0;
    while i < a.len()
        invariant
            i <= a@.len(),
            a@.len() == b@.len(),
            forall|j: int| 0 <= j < i ==> a@[j] == b@[j],
        decreases a@.len() - i,
    {
        if a[i] != b[i] {
            return false;
        }
        i = i + 1;
    }
    assert(a@ =~= b@);
    true
}

/// `p` without one leading space, if it has one.
pub open spec fn strip_space(p: Seq<u8>) -> Seq<u8> {
    if p.len() > 0 && p[0] == 0x20 {
        p.drop_first()
    } else {
        p
    }
}

pub fn strip_leading_space(p: &[u8]) -> (r: &[u8])
    ensures
        r@ == strip_space(p@),
{
    if p.len() > 0 && p[0] == 0x20 {
        let (_, rest) = p.split_at(1);
        assert(rest@ =~= p@.drop_first());
        rest
    } else {
        p
    }
}

/// Reads a decimal number that fits in 32 bits.
pub fn parse_u32(s: &[u8]) -> (r: Option<u32>)
    ensures
        r is Some <==> all_digits(s@) && digits_value(s@) <= u32::MAX,
        r matches Some(v) ==> v == digits_value(s@),
{
    match parse_u64(s) {
        Some(v) => if v <= u32::MAX as u64 {
            Some(v as u32)
        } else {
            None
        },
        None => None,
    }
}


/// A copy of a byte string.
pub fn copy_bytes(s: &[u8]) -> (r: Vec<u8>)
    ensures
        r@ == s@,
{
    let mut r: Vec<u8> = Vec::new();
    let mut i: usize = 0;
    while i < s.len()
        invariant
            i <= s@.len(),
            r@ == s@.subrange(0, i as int),
        decreases s@.len() - i,
    {
        r.push(s[i]);
        i = i + 1;
        assert(r@ =~= s@.subrange(0, i as int));
    }
    assert(r@ =~= s@);
    r
}

} // verus!

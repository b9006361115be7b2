//! Sequence extrapolation: a report is extended by one value at its end (or
//! its start) from the pyramid of its successive differences.
use vstd::prelude::*;
use vstd::string::StringSliceAdditionalSpecFns;
use crate::text::{is_signed_number, lines, parse_i64, signed_value, split, split_lines, split_on, views};

verus! {

pub open spec fn in_i64(v: int) -> bool {
    i64::MIN <= v <= i64::MAX
}

pub open spec fn step(s: Seq<i64>, i: int) -> int {
    s[i + 1] - s[i]
}

/// The successive differences of `s`, if they all fit in 64 bits.
pub open spec fn diffs(s: Seq<i64>) -> Option<Seq<i64>> {
    if forall|i: int| 0 <= i < s.len() - 1 ==> in_i64(#[trigger] step(s, i)) {
        Some(Seq::new((s.len() - 1) as nat, |i: int| step(s, i) as i64))
    } else {
        None
    }
}

/// The next value of `s` (`backward`: the value before it): zero for a report
/// of zeros, else the last value plus (first value minus) the extrapolation of
/// the differences. `None` when a difference or a result leaves 64 bits.
pub open spec fn extrapolated(s: Seq<i64>, backward: bool) -> Option<i64>
    decreases s.len(),
{
    if forall|i: int| 0 <= i < s.len() ==> s[i] == 0 {
        Some(0)
    } else {
        match diffs(s) {
            None => None,
            Some(d) => {
                if d.len() < s.len() {
                    match extrapolated(d, backward) {
                        None => None,
                        Some(e) => {
                            let v = if backward {
                                s[0] - e
                            } else {
                                s.last() + e
                            };
                            if in_i64(v) {
                                Some(v as i64)
                            } else {
                                None
                            }
                        },
                    }
                } else {
                    None
                }
            },
        }
    }
}

fn differences(s: &[i64]) -> (r: Option<Vec<i64>>)
    requires
        s@.len() >= 1,
    ensures
        match r {
            Some(v) => diffs(s@) == Some(v@),
            None => diffs(s@) is None,
        },
{
    let mut out: Vec<i64> = Vec::new();
    let mut i: usize = 0;
    let last = s.len() - 1;
    while i < last
        invariant
            last == s@.len() - 1,
            i + 1 <= s@.len(),
            out@.len() == i,
            forall|j: int| 0 <= j < i ==> in_i64(#[trigger] step(s@, j)) && out@[j] == step(s@, j),
        decreases s@.len() - i,
    {
        match s[i + 1].checked_sub(s[i]) {
            Some(d) => out.push(d),
            None => {
                assert(!in_i64(step(s@, i as int)));
                return None;
            },
        }
        i = i + 1;
    }
    assert(out@ =~= Seq::new((s@.len() - 1) as nat, |j: int| step(s@, j) as i64));
    Some(out)
}

fn extrapolate(report: &[i64], backward: bool) -> (r: Option<i64>)
    ensures
        r == extrapolated(report@, backward),
    decreases report@.len(),
{
    let mut all_zero = true;
    let mut i: usize = 0;
    while i < report.len()
        invariant
            i <= report@.len(),
            all_zero == forall|j: int| 0 <= j < i ==> report@[j] == 0,
        decreases report@.len() - i,
    {
        if report[i] != 0 {
            all_zero = false;
        }
        i = i + 1;
    }
    if all_zero {
        return Some(0);
    }
    let d = match differences(report) {
        Some(d) => d,
        None => {
            return None;
        },
    };
    let e = match extrapolate(d.as_slice(), backward) {
        Some(e) => e,
        None => {
            return None;
        },
    };
    if backward {
        report[0].checked_sub(e)
    } else {
        report[report.len() - 1].checked_add(e)
    }
}

/// The value that continues a report at its end.
pub fn extrapolate_end(report: &[i64]) -> (r: Option<i64>)
    ensures
        r == extrapolated(report@, false),
{
    extrapolate(report, false)
}

/// The value that continues a report at its start.
pub fn extrapolate_begin(report: &[i64]) -> (r: Option<i64>)
    ensures
        r == extrapolated(report@, true),
{
    extrapolate(report, true)
}

/// The numbers among the first `k` space-separated pieces; empty pieces are
/// skipped.
pub open spec fn values_of(ps: Seq<Seq<u8>>, k: int) -> Option<Seq<i64>>
    decreases k,
{
    if k <= 0 {
        Some(Seq::empty())
    } else {
        match values_of(ps, k - 1) {
            None => None,
            Some(ns) => if ps[k - 1].len() == 0 {
                Some(ns)
            } else if is_signed_number(ps[k - 1]) && in_i64(signed_value(ps[k - 1])) {
                Some(ns.push(signed_value(ps[k - 1]) as i64))
            } else {
                None
            },
        }
    }
}

pub open spec fn report_of(line: Seq<u8>) -> Option<Seq<i64>> {
    values_of(split(line, 0x20), split(line, 0x20).len() as int)
}

proof fn lemma_values_stay_none(ps: Seq<Seq<u8>>, k: int, j: int)
    requires
        0 <= k <= j,
        values_of(ps, k) is None,
    ensures
        values_of(ps, j) is None,
    decreases j - k,
{
    if j > k {
        lemma_values_stay_none(ps, k, j - 1);
    }
}

fn parse_report(line: &[u8]) -> (r: Option<Vec<i64>>)
    ensures
        match r {
            Some(v) => report_of(line@) == Some(v@),
            None => report_of(line@) is None,
        },
{
    let ps = split_on(line, 0x20);
    let ghost sp = split(line@, 0x20);
    assert(views(ps@).len() == ps@.len());
    let mut out: Vec<i64> = Vec::new();
    let mut k: usize = 0;
    while k < ps.len()
        invariant
            views(ps@) == sp,
            sp == split(line@, 0x20),
            ps@.len() == sp.len(),
            k <= ps@.len(),
            values_of(sp, k as int) == Some(out@),
        decreases ps@.len() - k,
    {
        assert(ps@[k as int]@ == sp[k as int]);
        if ps[k].len() > 0 {
            match parse_i64(ps[k].as_slice()) {
                Some(v) => out.push(v),
                None => {
                    proof {
                        lemma_values_stay_none(sp, k + 1, sp.len() as int);
                    }
                    return None;
                },
            }
        }
        k = k + 1;
    }
    Some(out)
}

/// The reports of a text, one per line; `None` if a line holds anything but
/// numbers.
pub fn parse(input: &str) -> (r: Option<Vec<Vec<i64>>>)
    ensures
        r is Some <==> forall|i: int|
            0 <= i < lines(input.spec_bytes()).len() ==> report_of(
                #[trigger] lines(input.spec_bytes())[i],
            ) is Some,
        r matches Some(rs) ==> rs@.len() == lines(input.spec_bytes()).len() && forall|i: int|
            0 <= i < rs@.len() ==> report_of(#[trigger] lines(input.spec_bytes())[i]) == Some(
                rs@[i]@,
            ),
{
    let ls = split_lines(input.as_bytes());
    let ghost ln = lines(input.spec_bytes());
    assert(views(ls@).len() == ls@.len());
    let mut out: Vec<Vec<i64>> = Vec::new();
    let mut i: usize = 0;
    while i < ls.len()
        invariant
            views(ls@) == ln,
            ln == lines(input.spec_bytes()),
            ls@.len() == ln.len(),
            i <= ls@.len(),
            out@.len() == i,
            forall|j: int| 0 <= j < i ==> report_of(#[trigger] ln[j]) == Some(out@[j]@),
        decreases ls@.len() - i,
    {
        assert(ls@[i as int]@ == ln[i as int]);
        match parse_report(ls[i].as_slice()) {
            Some(r) => out.push(r),
            None => {
                return None;
            },
        }
        i = i + 1;
    }
    Some(out)
}

/// The sum of the extrapolations of the first `k` reports, if each and every
/// partial sum fits in 64 bits.
pub open spec fn sum_extrapolated(rs: Seq<Seq<i64>>, k: int, backward: bool) -> Option<i64>
    decreases k,
{
    if k <= 0 {
        Some(0)
    } else {
        match (sum_extrapolated(rs, k - 1, backward), extrapolated(rs[k - 1], backward)) {
            (Some(a), Some(b)) => if in_i64(a + b) {
                Some((a + b) as i64)
            } else {
                None
            },
            _ => None,
        }
    }
}

/// The sum of the extrapolations of all reports of a text, forward or
/// backward; `None` if the text holds no reports or a value leaves 64 bits.
pub fn solve_for(input: &str, backward: bool) -> (r: Option<i64>)
    ensures
        r matches Some(v) ==> exists|rs: Seq<Seq<i64>>|
            #[trigger] rs.len() == lines(input.spec_bytes()).len() && (forall|i: int|
                0 <= i < rs.len() ==> report_of(#[trigger] lines(input.spec_bytes())[i]) == Some(
                    rs[i],
                )) && sum_extrapolated(rs, rs.len() as int, backward) == Some(v),
{
    let reports = match parse(input) {
        Some(r) => r,
        None => {
            return None;
        },
    };
    let ghost rs = reports@.map_values(|r: Vec<i64>| r@);
    let mut total: i64 = 0;
    let mut i: usize = 0;
    while i < reports.len()
        invariant
            i <= reports@.len(),
            rs == reports@.map_values(|r: Vec<i64>| r@),
            sum_extrapolated(rs, i as int, backward) == Some(total),
        decreases reports@.len() - i,
    {
        assert(rs[i as int] == reports@[i as int]@);
        let e = match extrapolate(reports[i].as_slice(), backward) {
            Some(e) => e,
            None => {
                return None;
            },
        };
        total = match total.checked_add(e) {
            Some(t) => t,
            None => {
                return None;
            },
        };
        i = i + 1;
    }
    assert(rs.len() == lines(input.spec_bytes()).len());
    assert(forall|i: int|
        0 <= i < rs.len() ==> report_of(#[trigger] lines(input.spec_bytes())[i]) == Some(rs[i]));
    Some(total)
}

} // verus!

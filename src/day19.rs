//! Aplenty: parts rated x, m, a and s go through named workflows of rules;
//! each rule compares one rating and sends the part on to another workflow,
//! to acceptance (`A`) or to rejection (`R`).
use vstd::prelude::*;
use vstd::string::StringSliceAdditionalSpecFns;
use crate::text::{copy_bytes, is_signed_number, lines, parse_i64, signed_value, split, split_lines, split_on, views};

verus! {

#[derive(Debug, PartialEq, Eq, Clone, Copy, Structural)]
pub struct Part {
    pub x: i32,
    pub m: i32,
    pub a: i32,
    pub s: i32,
}

#[derive(Debug, PartialEq, Eq, Clone, Copy, Structural)]
pub enum Operator {
    LessThan,
    GreaterThan,
}

/// A rule: when `element` compares by `operator` with `reference`, or always
/// when it has no element, the part goes to `target`.
#[derive(Debug, PartialEq, Eq)]
pub struct Rule {
    pub operator: Option<Operator>,
    pub reference: Option<i32>,
    pub element: Option<u8>,
    pub target: Vec<u8>,
}

#[derive(Debug, PartialEq, Eq)]
pub struct Workflow {
    pub name: Vec<u8>,
    pub rules: Vec<Rule>,
}

/// The rating a one-byte element name selects: `x`, `m`, `a` or `s`.
pub open spec fn rating(p: Part, e: u8) -> Option<i32> {
    if e == 0x78 {
        Some(p.x)
    } else if e == 0x6d {
        Some(p.m)
    } else if e == 0x61 {
        Some(p.a)
    } else if e == 0x73 {
        Some(p.s)
    } else {
        None
    }
}

impl Part {
    /// The rating named by `element`; `None` for a name other than x, m, a, s.
    pub fn get(&self, element: u8) -> (r: Option<i32>)
        ensures
            r == rating(*self, element),
    {
        if element == 0x78 {
            Some(self.x)
        } else if element == 0x6d {
            Some(self.m)
        } else if element == 0x61 {
            Some(self.a)
        } else if element == 0x73 {
            Some(self.s)
        } else {
            None
        }
    }
}

/// Whether a rule sends the part on: always without an element or operator;
/// `None` when it names no rating or lacks its reference.
pub open spec fn rule_applies(
    operator: Option<Operator>,
    reference: Option<i32>,
    element: Option<u8>,
    p: Part,
) -> Option<bool> {
    match element {
        None => Some(true),
        Some(e) => match operator {
            None => Some(true),
            Some(op) => match (rating(p, e), reference) {
                (Some(v), Some(r)) => Some(
                    if op == Operator::LessThan {
                        v < r
                    } else {
                        v > r
                    },
                ),
                _ => None,
            },
        },
    }
}

/// Whether `rule` sends `part` on.
pub fn apply_operator(rule: &Rule, part: &Part) -> (r: Option<bool>)
    ensures
        r == rule_applies(rule.operator, rule.reference, rule.element, *part),
{
    let e = match rule.element {
        None => {
            return Some(true);
        },
        Some(e) => e,
    };
    let op = match rule.operator {
        None => {
            return Some(true);
        },
        Some(op) => op,
    };
    match (part.get(e), rule.reference) {
        (Some(v), Some(r)) => Some(
            if op == Operator::LessThan {
                v < r
            } else {
                v > r
            },
        ),
        _ => None,
    }
}

pub open spec fn is_ws(b: u8) -> bool {
    b == 0x20 || b == 0x09 || b == 0x0a || b == 0x0b || b == 0x0c || b == 0x0d
}

/// `p` without its leading bytes that are whitespace (`ws`) or equal `c`.
pub open spec fn skip_front(p: Seq<u8>, ws: bool, c: u8) -> Seq<u8>
    decreases p.len(),
{
    if p.len() > 0 && (if ws {
        is_ws(p[0])
    } else {
        p[0] == c
    }) {
        skip_front(p.drop_first(), ws, c)
    } else {
        p
    }
}

/// `p` without its trailing bytes that are whitespace (`ws`) or equal `c`.
pub open spec fn skip_back(p: Seq<u8>, ws: bool, c: u8) -> Seq<u8>
    decreases p.len(),
{
    if p.len() > 0 && (if ws {
        is_ws(p.last())
    } else {
        p.last() == c
    }) {
        skip_back(p.drop_last(), ws, c)
    } else {
        p
    }
}

pub open spec fn trim(p: Seq<u8>) -> Seq<u8> {
    skip_back(skip_front(p, true, 0), true, 0)
}

fn matches_class(b: u8, ws: bool, c: u8) -> (r: bool)
    ensures
        r == (if ws {
            is_ws(b)
        } else {
            b == c
        }),
{
    if ws {
        b == 0x20 || b == 0x09 || b == 0x0a || b == 0x0b || b == 0x0c || b == 0x0d
    } else {
        b == c
    }
}

fn skip_front_exec(p: &[u8], ws: bool, c: u8) -> (r: &[u8])
    ensures
        r@ == skip_front(p@, ws, c),
{
    let mut i: usize = 0;
    assert(p@.subrange(0, p@.len() as int) =~= p@);
    while i < p.len() && matches_class(p[i], ws, c)
        invariant
            i <= p@.len(),
            skip_front(p@.subrange(i as int, p@.len() as int), ws, c) == skip_front(p@, ws, c),
        decreases p@.len() - i,
    {
        assert(p@.subrange(i as int, p@.len() as int).drop_first() =~= p@.subrange(
            i + 1,
            p@.len() as int,
        ));
        i = i + 1;
    }
    let (_, rest) = p.split_at(i);
    assert(rest@ =~= p@.subrange(i as int, p@.len() as int));
    rest
}

fn skip_back_exec(p: &[u8], ws: bool, c: u8) -> (r: &[u8])
    ensures
        r@ == skip_back(p@, ws, c),
{
    let mut n: usize = p.len();
    assert(p@.subrange(0, p@.len() as int) =~= p@);
    while n > 0 && matches_class(p[n - 1], ws, c)
        invariant
            n <= p@.len(),
            skip_back(p@.subrange(0, n as int), ws, c) == skip_back(p@, ws, c),
        decreases n,
    {
        assert(p@.subrange(0, n as int).drop_last() =~= p@.subrange(0, n - 1));
        n = n - 1;
    }
    let (head, _) = p.split_at(n);
    assert(head@ =~= p@.subrange(0, n as int));
    assert(p@.subrange(0, p@.len() as int) =~= p@);
    head
}

fn trim_exec(p: &[u8]) -> (r: &[u8])
    ensures
        r@ == trim(p@),
{
    skip_back_exec(skip_front_exec(p, true, 0), true, 0)
}

pub open spec fn in_i32(v: int) -> bool {
    i32::MIN <= v <= i32::MAX
}

/// A `key=value` pair of a part line, trimmed; the value must be a number.
pub open spec fn pair_of(p: Seq<u8>) -> Option<(Seq<u8>, i32)> {
    let kv = split(p, 0x3d);
    if kv.len() < 2 {
        None
    } else {
        let v = trim(kv[1]);
        if is_signed_number(v) && in_i32(signed_value(v)) {
            Some((trim(kv[0]), signed_value(v) as i32))
        } else {
            None
        }
    }
}

/// `p` with the rating named `key` set to `v`; other keys change nothing.
pub open spec fn set_rating(p: Part, key: Seq<u8>, v: i32) -> Part {
    if key == seq![0x78u8] {
        Part { x: v, ..p }
    } else if key == seq![0x6du8] {
        Part { m: v, ..p }
    } else if key == seq![0x61u8] {
        Part { a: v, ..p }
    } else if key == seq![0x73u8] {
        Part { s: v, ..p }
    } else {
        p
    }
}

/// The part described by the first `k` pairs, from all ratings zero.
pub open spec fn part_fold(pairs: Seq<Seq<u8>>, k: int) -> Option<Part>
    decreases k,
{
    if k <= 0 {
        Some(Part { x: 0, m: 0, a: 0, s: 0 })
    } else {
        match (part_fold(pairs, k - 1), pair_of(pairs[k - 1])) {
            (Some(p), Some((key, v))) => Some(set_rating(p, key, v)),
            _ => None,
        }
    }
}

/// A part line: `{x=..,m=..,a=..,s=..}`.
pub open spec fn part_of(line: Seq<u8>) -> Option<Part> {
    let body = skip_back(skip_front(line, false, 0x7b), false, 0x7d);
    part_fold(split(body, 0x2c), split(body, 0x2c).len() as int)
}

fn parse_pair(p: &[u8]) -> (r: Option<(Vec<u8>, i32)>)
    ensures
        match r {
            Some((k, v)) => pair_of(p@) == Some((k@, v)),
            None => pair_of(p@) is None,
        },
{
    let kv = split_on(p, 0x3d);
    assert(views(kv@).len() == kv@.len());
    if kv.len() < 2 {
        return None;
    }
    assert(kv@[0]@ == split(p@, 0x3d)[0]);
    assert(kv@[1]@ == split(p@, 0x3d)[1]);
    let v = trim_exec(kv[1].as_slice());
    match parse_i64(v) {
        Some(n) => {
            if n < i32::MIN as i64 || n > i32::MAX as i64 {
                return None;
            }
            Some((copy_bytes(trim_exec(kv[0].as_slice())), n as i32))
        },
        None => None,
    }
}

fn set_rating_exec(p: Part, key: &Vec<u8>, v: i32) -> (r: Part)
    ensures
        r == set_rating(p, key@, v),
{
    if key.len() == 1 {
        let k = key[0];
        proof {
            assert(key@ =~= seq![k]);
        }
        if k == 0x78 {
            return Part { x: v, ..p };
        } else if k == 0x6d {
            return Part { m: v, ..p };
        } else if k == 0x61 {
            return Part { a: v, ..p };
        } else if k == 0x73 {
            return Part { s: v, ..p };
        }
    }
    proof {
        if key@.len() != 1 {
            assert(key@ != seq![0x78u8] && key@ != seq![0x6du8] && key@ != seq![0x61u8] && key@
                != seq![0x73u8]);
        }
    }
    p
}

proof fn lemma_fold_stays_none(pairs: Seq<Seq<u8>>, k: int, j: int)
    requires
        0 <= k <= j,
        part_fold(pairs, k) is None,
    ensures
        part_fold(pairs, j) is None,
    decreases j - k,
{
    if j > k {
        lemma_fold_stays_none(pairs, k, j - 1);
    }
}

fn parse_part(line: &[u8]) -> (r: Option<Part>)
    ensures
        r == part_of(line@),
{
    let body = skip_back_exec(skip_front_exec(line, false, 0x7b), false, 0x7d);
    let pairs = split_on(body, 0x2c);
    let ghost ps = split(body@, 0x2c);
    assert(views(pairs@).len() == pairs@.len());
    let mut p = Part { x: 0, m: 0, a: 0, s: 0 };
    let mut k: usize = 0;
    while k < pairs.len()
        invariant
            views(pairs@) == ps,
            ps == split(body@, 0x2c),
            body@ == skip_back(skip_front(line@, false, 0x7b), false, 0x7d),
            pairs@.len() == ps.len(),
            k <= pairs@.len(),
            part_fold(ps, k as int) == Some(p),
        decreases pairs@.len() - k,
    {
        assert(pairs@[k as int]@ == ps[k as int]);
        match parse_pair(pairs[k].as_slice()) {
            Some((key, v)) => {
                p = set_rating_exec(p, &key, v);
            },
            None => {
                proof {
                    lemma_fold_stays_none(ps, k + 1, ps.len() as int);
                }
                return None;
            },
        }
        k = k + 1;
    }
    Some(p)
}


pub open spec fn rule_view(r: Rule) -> (Option<Operator>, Option<i32>, Option<u8>, Seq<u8>) {
    (r.operator, r.reference, r.element, r.target@)
}

/// `k` is the first `:` of `r`.
pub open spec fn first_colon(r: Seq<u8>, k: int) -> bool {
    &&& 0 <= k < r.len()
    &&& r[k] == 0x3a
    &&& forall|j: int| 0 <= j < k ==> r[j] != 0x3a
}

/// A rule: `<element><operator><reference>:<target>`, or a bare target. The
/// element is the first byte, the operator the second (`<` or `>`), the
/// reference the number after them, if it is one.
pub open spec fn rule_of(r: Seq<u8>) -> (Option<Operator>, Option<i32>, Option<u8>, Seq<u8>) {
    if exists|k: int| first_colon(r, k) {
        let k = choose|k: int| first_colon(r, k);
        let cond = r.subrange(0, k);
        let element = if cond.len() > 0 {
            Some(cond[0])
        } else {
            None
        };
        let operator = if cond.len() > 1 && cond[1] == 0x3c {
            Some(Operator::LessThan)
        } else if cond.len() > 1 && cond[1] == 0x3e {
            Some(Operator::GreaterThan)
        } else {
            None
        };
        let rest = if cond.len() > 2 {
            cond.subrange(2, cond.len() as int)
        } else {
            Seq::empty()
        };
        let reference = if is_signed_number(rest) && in_i32(signed_value(rest)) {
            Some(signed_value(rest) as i32)
        } else {
            None
        };
        (operator, reference, element, r.subrange(k + 1, r.len() as int))
    } else {
        (None, None, None, r)
    }
}

fn parse_rule(r: &[u8]) -> (out: Rule)
    ensures
        rule_view(out) == rule_of(r@),
{
    let mut k: usize = 0;
    while k < r.len() && r[k] != 0x3a
        invariant
            k <= r@.len(),
            forall|j: int| 0 <= j < k ==> r@[j] != 0x3a,
        decreases r@.len() - k,
    {
        k = k + 1;
    }
    if k == r.len() {
        assert(forall|j: int| !first_colon(r@, j));
        return Rule { operator: None, reference: None, element: None, target: copy_bytes(r) };
    }
    assert(first_colon(r@, k as int));
    assert(forall|j: int| first_colon(r@, j) ==> j == k);
    let (cond, tail) = r.split_at(k);
    let (_, target) = tail.split_at(1);
    assert(cond@ =~= r@.subrange(0, k as int));
    assert(target@ =~= r@.subrange(k + 1, r@.len() as int));
    let element = if cond.len() > 0 {
        Some(cond[0])
    } else {
        None
    };
    let operator = if cond.len() > 1 && cond[1] == 0x3c {
        Some(Operator::LessThan)
    } else if cond.len() > 1 && cond[1] == 0x3e {
        Some(Operator::GreaterThan)
    } else {
        None
    };
    let reference = if cond.len() > 2 {
        let (_, rest) = cond.split_at(2);
        assert(rest@ =~= cond@.subrange(2, cond@.len() as int));
        match parse_i64(rest) {
            Some(v) => if v >= i32::MIN as i64 && v <= i32::MAX as i64 {
                Some(v as i32)
            } else {
                None
            },
            None => None,
        }
    } else {
        assert(!is_signed_number(Seq::<u8>::empty()));
        None
    };
    Rule { operator, reference, element, target: copy_bytes(target) }
}

pub open spec fn workflow_view(w: Workflow) -> (Seq<u8>, Seq<(Option<Operator>, Option<i32>, Option<u8>, Seq<u8>)>) {
    (w.name@, w.rules@.map_values(|r: Rule| rule_view(r)))
}

/// A workflow line: `<name>{<rule>,<rule>,...}`.
pub open spec fn workflow_of(line: Seq<u8>) -> Option<(Seq<u8>, Seq<(Option<Operator>, Option<i32>, Option<u8>, Seq<u8>)>)> {
    let pieces = split(line, 0x7b);
    if pieces.len() < 2 {
        None
    } else {
        let rs = split(skip_back(pieces[1], false, 0x7d), 0x2c);
        Some((trim(pieces[0]), Seq::new(rs.len(), |i: int| rule_of(rs[i]))))
    }
}

fn parse_workflow(line: &[u8]) -> (r: Option<Workflow>)
    ensures
        match r {
            Some(w) => workflow_of(line@) == Some(workflow_view(w)),
            None => workflow_of(line@) is None,
        },
{
    let pieces = split_on(line, 0x7b);
    assert(views(pieces@).len() == pieces@.len());
    if pieces.len() < 2 {
        return None;
    }
    assert(pieces@[0]@ == split(line@, 0x7b)[0]);
    assert(pieces@[1]@ == split(line@, 0x7b)[1]);
    let name = copy_bytes(trim_exec(pieces[0].as_slice()));
    let body = skip_back_exec(pieces[1].as_slice(), false, 0x7d);
    let rs = split_on(body, 0x2c);
    let ghost rsv = split(body@, 0x2c);
    assert(views(rs@).len() == rs@.len());
    let mut rules: Vec<Rule> = Vec::new();
    let mut i: usize = 0;
    while i < rs.len()
        invariant
            views(rs@) == rsv,
            rs@.len() == rsv.len(),
            i <= rs@.len(),
            rules@.len() == i,
            forall|j: int| 0 <= j < i ==> rule_view(#[trigger] rules@[j]) == rule_of(rsv[j]),
        decreases rs@.len() - i,
    {
        assert(rs@[i as int]@ == rsv[i as int]);
        rules.push(parse_rule(rs[i].as_slice()));
        i = i + 1;
    }
    let w = Workflow { name, rules };
    assert(w.rules@.map_values(|r: Rule| rule_view(r)) =~= Seq::new(rsv.len(), |i: int| rule_of(rsv[i])));
    Some(w)
}

/// The workflows and parts of the first `k` lines: a line starting with `{`
/// is a part, another non-empty line a workflow; `None` if one is malformed.
pub open spec fn parsed(ls: Seq<Seq<u8>>, k: int) -> Option<(Seq<(Seq<u8>, Seq<(Option<Operator>, Option<i32>, Option<u8>, Seq<u8>)>)>, Seq<Part>)>
    decreases k,
{
    if k <= 0 {
        Some((Seq::empty(), Seq::empty()))
    } else {
        match parsed(ls, k - 1) {
            None => None,
            Some((ws, ps)) => {
                let line = ls[k - 1];
                if line.len() > 0 && line[0] == 0x7b {
                    match part_of(line) {
                        Some(p) => Some((ws, ps.push(p))),
                        None => None,
                    }
                } else if line.len() > 0 {
                    match workflow_of(line) {
                        Some(w) => Some((ws.push(w), ps)),
                        None => None,
                    }
                } else {
                    Some((ws, ps))
                }
            },
        }
    }
}

proof fn lemma_parsed_stays_none(ls: Seq<Seq<u8>>, k: int, j: int)
    requires
        0 <= k <= j,
        parsed(ls, k) is None,
    ensures
        parsed(ls, j) is None,
    decreases j - k,
{
    if j > k {
        lemma_parsed_stays_none(ls, k, j - 1);
    }
}

/// The workflows and parts of a text; `None` if a line is malformed.
pub fn parse(input: &str) -> (r: Option<(Vec<Workflow>, Vec<Part>)>)
    ensures
        match r {
            Some((ws, ps)) => parsed(lines(input.spec_bytes()), lines(input.spec_bytes()).len() as int)
                == Some((ws@.map_values(|w: Workflow| workflow_view(w)), ps@)),
            None => parsed(lines(input.spec_bytes()), lines(input.spec_bytes()).len() as int) is None,
        },
{
    let ls = split_lines(input.as_bytes());
    let ghost ln = lines(input.spec_bytes());
    assert(views(ls@).len() == ls@.len());
    let mut ws: Vec<Workflow> = Vec::new();
    let mut ps: Vec<Part> = Vec::new();
    let mut i: usize = 0;
    while i < ls.len()
        invariant
            views(ls@) == ln,
            ln == lines(input.spec_bytes()),
            ls@.len() == ln.len(),
            i <= ls@.len(),
            parsed(ln, i as int) == Some((ws@.map_values(|w: Workflow| workflow_view(w)), ps@)),
        decreases ls@.len() - i,
    {
        let line = ls[i].as_slice();
        assert(line@ == ln[i as int]);
        if line.len() > 0 && line[0] == 0x7b {
            match parse_part(line) {
                Some(p) => ps.push(p),
                None => {
                    proof {
                        lemma_parsed_stays_none(ln, i + 1, ln.len() as int);
                    }
                    return None;
                },
            }
        } else if line.len() > 0 {
            match parse_workflow(line) {
                Some(w) => {
                    let ghost before = ws@;
                    ws.push(w);
                    assert(ws@.map_values(|w: Workflow| workflow_view(w)) =~= before.map_values(
                        |w: Workflow| workflow_view(w),
                    ).push(workflow_view(w)));
                },
                None => {
                    proof {
                        lemma_parsed_stays_none(ln, i + 1, ln.len() as int);
                    }
                    return None;
                },
            }
        }
        i = i + 1;
    }
    Some((ws, ps))
}


/// The last of the first `k` workflows named `name`.
pub open spec fn last_wf(ws: Seq<Workflow>, name: Seq<u8>, k: int) -> Option<int>
    decreases k,
{
    if k <= 0 {
        None
    } else if ws[k - 1].name@ == name {
        Some(k - 1)
    } else {
        last_wf(ws, name, k - 1)
    }
}

/// Where part `p` ends up from rule `j` of workflow `i` on, following at
/// most `fuel` more workflows: `Some(true)` accepted, `Some(false)` rejected,
/// `None` when a rule fails, a workflow is missing, no rule sends the part
/// on, or the fuel runs out.
pub open spec fn run(ws: Seq<Workflow>, p: Part, i: int, j: int, fuel: nat) -> Option<bool>
    decreases fuel, ws[i].rules@.len() - j,
{
    if !(0 <= i < ws.len()) || j < 0 || j >= ws[i].rules@.len() {
        None
    } else {
        let r = ws[i].rules@[j];
        match rule_applies(r.operator, r.reference, r.element, p) {
            None => None,
            Some(false) => run(ws, p, i, j + 1, fuel),
            Some(true) => if r.target@ == seq![0x41u8] {
                Some(true)
            } else if r.target@ == seq![0x52u8] {
                Some(false)
            } else if fuel == 0 {
                None
            } else {
                match last_wf(ws, r.target@, ws.len() as int) {
                    None => None,
                    Some(i2) => run(ws, p, i2, 0, (fuel - 1) as nat),
                }
            },
        }
    }
}

/// Where a part ends up from the workflow named `name`, following at most
/// as many workflows as there are, after which it would be going round.
pub open spec fn accepted(ws: Seq<Workflow>, p: Part, name: Seq<u8>) -> Option<bool> {
    match last_wf(ws, name, ws.len() as int) {
        None => None,
        Some(i) => run(ws, p, i, 0, ws.len() as nat),
    }
}

proof fn lemma_last_wf_range(ws: Seq<Workflow>, name: Seq<u8>, k: int)
    requires
        k <= ws.len(),
    ensures
        last_wf(ws, name, k) matches Some(i) ==> 0 <= i < k,
    decreases k,
{
    if k > 0 {
        lemma_last_wf_range(ws, name, k - 1);
    }
}

fn find_workflow(ws: &Vec<Workflow>, name: &[u8]) -> (r: Option<usize>)
    ensures
        match r {
            Some(i) => last_wf(ws@, name@, ws@.len() as int) == Some(i as int) && i < ws@.len(),
            None => last_wf(ws@, name@, ws@.len() as int) is None,
        },
{
    let mut k = ws.len();
    while k > 0
        invariant
            k <= ws@.len(),
            last_wf(ws@, name@, ws@.len() as int) == last_wf(ws@, name@, k as int),
        decreases k,
    {
        if crate::text::eq_bytes(ws[k - 1].name.as_slice(), name) {
            return Some(k - 1);
        }
        k = k - 1;
    }
    None
}

/// Whether the workflows starting at `current_workflow_name` accept the
/// part.
pub fn do_workflow(workflows: &Vec<Workflow>, part: &Part, current_workflow_name: &[u8]) -> (r:
    Option<bool>)
    ensures
        r == accepted(workflows@, *part, current_workflow_name@),
{
    let start = match find_workflow(workflows, current_workflow_name) {
        Some(i) => i,
        None => {
            return None;
        },
    };
    let ghost want = accepted(workflows@, *part, current_workflow_name@);
    let mut i = start;
    let mut j: usize = 0;
    let mut fuel: usize = workflows.len();
    let a = vec![0x41u8];
    let rj = vec![0x52u8];
    assert(a@ =~= seq![0x41u8]);
    assert(rj@ =~= seq![0x52u8]);
    loop
        invariant
            i < workflows@.len(),
            a@ == seq![0x41u8],
            rj@ == seq![0x52u8],
            run(workflows@, *part, i as int, j as int, fuel as nat) == want,
            want == accepted(workflows@, *part, current_workflow_name@),
        decreases fuel, workflows@[i as int].rules@.len() - j,
    {
        let rules = &workflows[i].rules;
        if j >= rules.len() {
            return None;
        }
        let rule = &rules[j];
        match apply_operator(rule, part) {
            None => {
                return None;
            },
            Some(false) => {
                j = j + 1;
            },
            Some(true) => {
                if crate::text::eq_bytes(rule.target.as_slice(), a.as_slice()) {
                    return Some(true);
                }
                if crate::text::eq_bytes(rule.target.as_slice(), rj.as_slice()) {
                    return Some(false);
                }
                if fuel == 0 {
                    return None;
                }
                match find_workflow(workflows, rule.target.as_slice()) {
                    None => {
                        return None;
                    },
                    Some(i2) => {
                        i = i2;
                        j = 0;
                        fuel = fuel - 1;
                    },
                }
            },
        }
    }
}

/// The sum of the four ratings of the first `k` parts that the workflows
/// starting at `in` accept; `None` when a part's way fails.
pub open spec fn accepted_total(ws: Seq<Workflow>, ps: Seq<Part>, k: int) -> Option<int>
    decreases k,
{
    if k <= 0 {
        Some(0)
    } else {
        match (accepted_total(ws, ps, k - 1), accepted(ws, ps[k - 1], seq![0x69u8, 0x6e])) {
            (Some(t), Some(true)) => Some(t + ps[k - 1].x + ps[k - 1].m + ps[k - 1].a + ps[k - 1].s),
            (Some(t), Some(false)) => Some(t),
            _ => None,
        }
    }
}

/// The sum of the ratings of the accepted parts; `None` if the text is
/// malformed, a part's way fails, or the sum leaves 64 bits.
pub fn solve_1(input: &str) -> (r: Option<i64>)
    ensures
        r matches Some(v) ==> exists|ws: Seq<Workflow>, ps: Seq<Part>|
            #[trigger] parsed(lines(input.spec_bytes()), lines(input.spec_bytes()).len() as int)
                == Some((ws.map_values(|w: Workflow| workflow_view(w)), ps)) && accepted_total(
                ws,
                ps,
                ps.len() as int,
            ) == Some(v as int),
{
    let (ws, ps) = match parse(input) {
        Some(x) => x,
        None => {
            return None;
        },
    };
    let name = vec![0x69u8, 0x6e];
    assert(name@ =~= seq![0x69u8, 0x6e]);
    let mut total: i64 = 0;
    let mut k: usize = 0;
    while k < ps.len()
        invariant
            name@ == seq![0x69u8, 0x6e],
            k <= ps@.len(),
            accepted_total(ws@, ps@, k as int) == Some(total as int),
        decreases ps@.len() - k,
    {
        let p = ps[k];
        match do_workflow(&ws, &p, name.as_slice()) {
            None => {
                return None;
            },
            Some(false) => {},
            Some(true) => {
                let sum = p.x as i64 + p.m as i64 + p.a as i64 + p.s as i64;
                total = match total.checked_add(sum) {
                    Some(t) => t,
                    None => {
                        return None;
                    },
                };
            },
        }
        k = k + 1;
    }
    Some(total)
}

} // verus!

//! Lens library: the HASH of a step label picks one of 256 boxes; `=` puts a
//! lens of a focal length into the box (in place of one with the same label),
//! `-` takes the lens with that label out.
use vstd::prelude::*;
use vstd::string::StringSliceAdditionalSpecFns;
use crate::text::{all_digits, copy_bytes, digits_value, parse_u64, split, split_on, views};

verus! {

/// The HASH of the first `k` bytes: add the byte, times 17, modulo 256.
pub open spec fn hash_of(s: Seq<u8>, k: int) -> nat
    decreases k,
{
    if k <= 0 {
        0
    } else {
        (((hash_of(s, k - 1) + s[k - 1]) * 17) % 256) as nat
    }
}

pub open spec fn hash(s: Seq<u8>) -> nat {
    hash_of(s, s.len() as int)
}

fn hash_bytes(s: &[u8]) -> (r: usize)
    ensures
        r == hash(s@),
        r < 256,
{
    let mut acc: usize = 0;
    let mut i: usize = 0;
    while i < s.len()
        invariant
            i <= s@.len(),
            acc == hash_of(s@, i as int),
            acc < 256,
        decreases s@.len() - i,
    {
        acc = ((acc + s[i] as usize) * 17) % 256;
        i = i + 1;
    }
    acc
}

/// The HASH of the bytes of a text.
pub fn get_hash(input: &str) -> (r: usize)
    ensures
        r == hash(input.spec_bytes()),
{
    hash_bytes(input.as_bytes())
}

/// The sum of the HASH values of the first `k` pieces.
pub open spec fn hash_total(ps: Seq<Seq<u8>>, k: int) -> int
    decreases k,
{
    if k <= 0 {
        0
    } else {
        hash_total(ps, k - 1) + hash(ps[k - 1])
    }
}

proof fn lemma_hash_total_grows(ps: Seq<Seq<u8>>, k: int, j: int)
    requires
        0 <= k <= j,
    ensures
        hash_total(ps, k) <= hash_total(ps, j),
    decreases j,
{
    if j > k {
        lemma_hash_total_grows(ps, k, j - 1);
    }
}

/// The sum of the HASH values of the comma-separated steps; `None` exactly
/// when it exceeds the word size.
pub fn sum_of_hashes(input: &str) -> (r: Option<usize>)
    ensures
        r matches Some(v) ==> v == hash_total(
            split(input.spec_bytes(), 0x2c),
            split(input.spec_bytes(), 0x2c).len() as int,
        ),
        r is None ==> hash_total(
            split(input.spec_bytes(), 0x2c),
            split(input.spec_bytes(), 0x2c).len() as int,
        ) > usize::MAX,
{
    let ps = split_on(input.as_bytes(), 0x2c);
    let ghost sp = split(input.spec_bytes(), 0x2c);
    assert(views(ps@).len() == ps@.len());
    let mut total: usize = 0;
    let mut k: usize = 0;
    while k < ps.len()
        invariant
            views(ps@) == sp,
            sp == split(input.spec_bytes(), 0x2c),
            ps@.len() == sp.len(),
            k <= ps@.len(),
            total == hash_total(sp, k as int),
        decreases ps@.len() - k,
    {
        assert(ps@[k as int]@ == sp[k as int]);
        total = match total.checked_add(hash_bytes(ps[k].as_slice())) {
            Some(t) => t,
            None => {
                proof {
                    lemma_hash_total_grows(sp, k + 1, sp.len() as int);
                }
                return None;
            },
        };
        k = k + 1;
    }
    Some(total)
}

/// One step: `<label>=<focal length>` or `<label>-`.
#[derive(Debug, PartialEq, Eq)]
pub struct Operation {
    pub operator: u8,
    pub label: Vec<u8>,
    pub hash: usize,
    pub val: Option<usize>,
}

pub open spec fn is_sep(b: u8) -> bool {
    b == 0x3d || b == 0x2d
}

/// `k` is the first `=` or `-` of `p`.
pub open spec fn first_sep(p: Seq<u8>, k: int) -> bool {
    &&& 0 <= k < p.len()
    &&& is_sep(p[k])
    &&& forall|j: int| 0 <= j < k ==> !is_sep(p[j])
}

/// A step's operator, label and focal length: the label ends at the first
/// `=` or `-`; nothing after it makes a removal, a number an insertion.
pub open spec fn op_of(p: Seq<u8>) -> Option<(u8, Seq<u8>, Option<usize>)> {
    if exists|k: int| first_sep(p, k) {
        let k = choose|k: int| first_sep(p, k);
        let value = p.subrange(k + 1, p.len() as int);
        if value.len() == 0 {
            Some((0x2du8, p.subrange(0, k), None))
        } else if all_digits(value) && digits_value(value) <= usize::MAX {
            Some((0x3du8, p.subrange(0, k), Some(digits_value(value) as usize)))
        } else {
            None
        }
    } else {
        None
    }
}

pub open spec fn op_view(o: Operation) -> (u8, Seq<u8>, Option<usize>) {
    (o.operator, o.label@, o.val)
}

fn parse_operation(p: &[u8]) -> (r: Option<Operation>)
    ensures
        r is Some <==> op_of(p@) is Some,
        r matches Some(o) ==> op_of(p@) == Some(op_view(o)) && o.hash == hash(o.label@),
{
    let mut k: usize = 0;
    while k < p.len() && p[k] != 0x3d && p[k] != 0x2d
        invariant
            k <= p@.len(),
            forall|j: int| 0 <= j < k ==> !is_sep(p@[j]),
        decreases p@.len() - k,
    {
        k = k + 1;
    }
    if k == p.len() {
        assert(forall|j: int| !first_sep(p@, j));
        return None;
    }
    assert(first_sep(p@, k as int));
    assert(forall|j: int| first_sep(p@, j) ==> j == k);
    let (head, rest) = p.split_at(k);
    let (_, value) = rest.split_at(1);
    assert(head@ =~= p@.subrange(0, k as int));
    assert(value@ =~= p@.subrange(k + 1, p@.len() as int));
    let label = copy_bytes(head);
    let h = hash_bytes(head);
    if value.len() == 0 {
        return Some(Operation { operator: 0x2d, label, hash: h, val: None });
    }
    match parse_u64(value) {
        Some(v) => {
            if v > usize::MAX as u64 {
                return None;
            }
            Some(Operation { operator: 0x3d, label, hash: h, val: Some(v as usize) })
        },
        None => None,
    }
}

/// The steps of the first `k` comma-separated pieces.
pub open spec fn ops_of(ps: Seq<Seq<u8>>, k: int) -> Option<Seq<(u8, Seq<u8>, Option<usize>)>>
    decreases k,
{
    if k <= 0 {
        Some(Seq::empty())
    } else {
        match (ops_of(ps, k - 1), op_of(ps[k - 1])) {
            (Some(os), Some(o)) => Some(os.push(o)),
            _ => None,
        }
    }
}

pub open spec fn ops_text(s: Seq<u8>) -> Option<Seq<(u8, Seq<u8>, Option<usize>)>> {
    ops_of(split(s, 0x2c), split(s, 0x2c).len() as int)
}

proof fn lemma_ops_stay_none(ps: Seq<Seq<u8>>, k: int, j: int)
    requires
        0 <= k <= j,
        ops_of(ps, k) is None,
    ensures
        ops_of(ps, j) is None,
    decreases j - k,
{
    if j > k {
        lemma_ops_stay_none(ps, k, j - 1);
    }
}

/// The steps of a comma-separated sequence; `None` if a piece is no step.
pub fn parse_operations(input: &str) -> (r: Option<Vec<Operation>>)
    ensures
        r is Some <==> ops_text(input.spec_bytes()) is Some,
        r matches Some(os) ==> ops_text(input.spec_bytes()) == Some(
            os@.map_values(|o: Operation| op_view(o)),
        ) && forall|i: int| 0 <= i < os@.len() ==> #[trigger] os@[i].hash == hash(os@[i].label@),
{
    let ps = split_on(input.as_bytes(), 0x2c);
    let ghost sp = split(input.spec_bytes(), 0x2c);
    assert(views(ps@).len() == ps@.len());
    let mut out: Vec<Operation> = Vec::new();
    let mut k: usize = 0;
    while k < ps.len()
        invariant
            views(ps@) == sp,
            sp == split(input.spec_bytes(), 0x2c),
            ps@.len() == sp.len(),
            k <= ps@.len(),
            ops_of(sp, k as int) == Some(out@.map_values(|o: Operation| op_view(o))),
            forall|i: int| 0 <= i < out@.len() ==> #[trigger] out@[i].hash == hash(out@[i].label@),
        decreases ps@.len() - k,
    {
        assert(ps@[k as int]@ == sp[k as int]);
        match parse_operation(ps[k].as_slice()) {
            Some(o) => {
                let ghost before = out@;
                out.push(o);
                assert(out@.map_values(|o: Operation| op_view(o)) =~= before.map_values(
                    |o: Operation| op_view(o),
                ).push(op_view(o)));
            },
            None => {
                proof {
                    lemma_ops_stay_none(sp, k + 1, sp.len() as int);
                }
                return None;
            },
        }
        k = k + 1;
    }
    Some(out)
}


/// A lens: its label and focal length.
pub open spec fn lens_view(e: (Vec<u8>, usize)) -> (Seq<u8>, usize) {
    (e.0@, e.1)
}

pub open spec fn box_view(b: Vec<(Vec<u8>, usize)>) -> Seq<(Seq<u8>, usize)> {
    b@.map_values(|e: (Vec<u8>, usize)| lens_view(e))
}

pub open spec fn boxes_view(bs: Seq<Vec<(Vec<u8>, usize)>>) -> Seq<Seq<(Seq<u8>, usize)>> {
    bs.map_values(|b: Vec<(Vec<u8>, usize)>| box_view(b))
}

/// The first slot among the first `k` that holds a lens labelled `label`.
pub open spec fn find(b: Seq<(Seq<u8>, usize)>, label: Seq<u8>, k: int) -> Option<int>
    decreases k,
{
    if k <= 0 {
        None
    } else {
        match find(b, label, k - 1) {
            Some(i) => Some(i),
            None => if b[k - 1].0 == label {
                Some(k - 1)
            } else {
                None
            },
        }
    }
}

/// The box after `label=v`: the lens with that label gets the new focal
/// length, or the new lens goes behind the others.
pub open spec fn put(b: Seq<(Seq<u8>, usize)>, label: Seq<u8>, v: usize) -> Seq<(Seq<u8>, usize)> {
    match find(b, label, b.len() as int) {
        Some(i) => b.update(i, (label, v)),
        None => b.push((label, v)),
    }
}

/// The first `k` lenses of the box, without those labelled `label`.
pub open spec fn without(b: Seq<(Seq<u8>, usize)>, label: Seq<u8>, k: int) -> Seq<(Seq<u8>, usize)>
    decreases k,
{
    if k <= 0 {
        Seq::empty()
    } else if b[k - 1].0 == label {
        without(b, label, k - 1)
    } else {
        without(b, label, k - 1).push(b[k - 1])
    }
}

/// The boxes after one step.
pub open spec fn apply(bs: Seq<Seq<(Seq<u8>, usize)>>, op: (u8, Seq<u8>, Option<usize>)) -> Seq<
    Seq<(Seq<u8>, usize)>,
> {
    let h = hash(op.1) as int;
    match op.2 {
        Some(v) => bs.update(h, put(bs[h], op.1, v)),
        None => bs.update(h, without(bs[h], op.1, bs[h].len() as int)),
    }
}

/// The boxes after the first `k` steps, starting from 256 empty boxes.
pub open spec fn boxes_after(ops: Seq<(u8, Seq<u8>, Option<usize>)>, k: int) -> Seq<
    Seq<(Seq<u8>, usize)>,
>
    decreases k,
{
    if k <= 0 {
        Seq::new(256, |i: int| Seq::<(Seq<u8>, usize)>::empty())
    } else {
        apply(boxes_after(ops, k - 1), ops[k - 1])
    }
}

proof fn lemma_boxes_len(ops: Seq<(u8, Seq<u8>, Option<usize>)>, k: int)
    ensures
        boxes_after(ops, k).len() == 256,
    decreases k,
{
    if k > 0 {
        lemma_boxes_len(ops, k - 1);
        lemma_hash_small(ops[k - 1].1, ops[k - 1].1.len() as int);
    }
}

proof fn lemma_hash_small(s: Seq<u8>, k: int)
    ensures
        hash_of(s, k) < 256,
    decreases k,
{
    if k > 0 {
        lemma_hash_small(s, k - 1);
    }
}

fn put_lens(b: &Vec<(Vec<u8>, usize)>, label: &Vec<u8>, v: usize) -> (r: Vec<(Vec<u8>, usize)>)
    ensures
        box_view(r) == put(box_view(*b), label@, v),
{
    let ghost bv = box_view(*b);
    let mut out: Vec<(Vec<u8>, usize)> = Vec::new();
    let mut found = false;
    let mut i: usize = 0;
    let ghost mut at: int = 0;
    while i < b.len()
        invariant
            i <= b@.len(),
            bv == box_view(*b),
            bv.len() == b@.len(),
            found ==> find(bv, label@, i as int) == Some(at) && 0 <= at < i && box_view(out)
                == bv.subrange(0, i as int).update(at, (label@, v)),
            !found ==> find(bv, label@, i as int) is None && box_view(out) == bv.subrange(
                0,
                i as int,
            ),
        decreases b@.len() - i,
    {
        let ghost before = box_view(out);
        assert(bv[i as int] == lens_view(b@[i as int]));
        if !found && crate::text::eq_bytes(b[i].0.as_slice(), label.as_slice()) {
            out.push((copy_bytes(label.as_slice()), v));
            proof {
                at = i as int;
            }
            found = true;
            assert(box_view(out) =~= bv.subrange(0, i + 1).update(at, (label@, v)));
        } else {
            out.push((copy_bytes(b[i].0.as_slice()), b[i].1));
            assert(box_view(out) =~= before.push(bv[i as int]));
            if found {
                assert(box_view(out) =~= bv.subrange(0, i + 1).update(at, (label@, v)));
            } else {
                assert(box_view(out) =~= bv.subrange(0, i + 1));
            }
        }
        i = i + 1;
    }
    assert(bv.subrange(0, bv.len() as int) =~= bv);
    if !found {
        let ghost before = box_view(out);
        out.push((copy_bytes(label.as_slice()), v));
        assert(box_view(out) =~= before.push((label@, v)));
    }
    out
}

fn remove_lens(b: &Vec<(Vec<u8>, usize)>, label: &Vec<u8>) -> (r: Vec<(Vec<u8>, usize)>)
    ensures
        box_view(r) == without(box_view(*b), label@, b@.len() as int),
{
    let ghost bv = box_view(*b);
    let mut out: Vec<(Vec<u8>, usize)> = Vec::new();
    let mut i: usize = 0;
    while i < b.len()
        invariant
            i <= b@.len(),
            bv == box_view(*b),
            bv.len() == b@.len(),
            box_view(out) == without(bv, label@, i as int),
        decreases b@.len() - i,
    {
        assert(bv[i as int] == lens_view(b@[i as int]));
        if !crate::text::eq_bytes(b[i].0.as_slice(), label.as_slice()) {
            let ghost before = box_view(out);
            out.push((copy_bytes(b[i].0.as_slice()), b[i].1));
            assert(box_view(out) =~= before.push(bv[i as int]));
        }
        i = i + 1;
    }
    out
}

/// The 256 boxes after every step of the sequence; `None` if a piece is no
/// step.
pub fn get_boxes(input: &str) -> (r: Option<Vec<Vec<(Vec<u8>, usize)>>>)
    ensures
        r is Some <==> ops_text(input.spec_bytes()) is Some,
        r matches Some(bs) ==> boxes_view(bs@) == boxes_after(
            ops_text(input.spec_bytes())->0,
            ops_text(input.spec_bytes())->0.len() as int,
        ),
{
    let ops = match parse_operations(input) {
        Some(o) => o,
        None => {
            return None;
        },
    };
    let ghost os = ops@.map_values(|o: Operation| op_view(o));
    let mut bs: Vec<Vec<(Vec<u8>, usize)>> = Vec::new();
    let mut h: usize = 0;
    while h < 256
        invariant
            h <= 256,
            bs@.len() == h,
            forall|j: int| 0 <= j < h ==> (#[trigger] bs@[j])@.len() == 0,
        decreases 256 - h,
    {
        bs.push(Vec::new());
        h = h + 1;
    }
    assert forall|j: int| 0 <= j < 256 implies #[trigger] boxes_view(bs@)[j] == Seq::<
        (Seq<u8>, usize),
    >::empty() by {
        assert(box_view(bs@[j]) =~= Seq::<(Seq<u8>, usize)>::empty());
    }
    assert(boxes_view(bs@) =~= boxes_after(os, 0));
    let mut k: usize = 0;
    while k < ops.len()
        invariant
            k <= ops@.len(),
            os == ops@.map_values(|o: Operation| op_view(o)),
            forall|i: int| 0 <= i < ops@.len() ==> #[trigger] ops@[i].hash == hash(ops@[i].label@),
            boxes_view(bs@) == boxes_after(os, k as int),
            bs@.len() == 256,
        decreases ops@.len() - k,
    {
        let op = &ops[k];
        let h = op.hash;
        proof {
            lemma_hash_small(op.label@, op.label@.len() as int);
            lemma_boxes_len(os, k as int);
        }
        let ghost before = bs@;
        let nb = match op.val {
            Some(v) => put_lens(&bs[h], &op.label, v),
            None => remove_lens(&bs[h], &op.label),
        };
        bs.set(h, nb);
        assert(boxes_view(bs@) =~= boxes_view(before).update(h as int, box_view(nb)));
        assert(os[k as int] == op_view(ops@[k as int]));
        k = k + 1;
    }
    Some(bs)
}

/// The focusing power of the first `k` lenses of box `h`.
pub open spec fn box_power(h: int, b: Seq<(Seq<u8>, usize)>, k: int) -> int
    decreases k,
{
    if k <= 0 {
        0
    } else {
        box_power(h, b, k - 1) + (h + 1) * k * b[k - 1].1
    }
}

/// The focusing power of the first `k` boxes.
pub open spec fn power(bs: Seq<Seq<(Seq<u8>, usize)>>, k: int) -> int
    decreases k,
{
    if k <= 0 {
        0
    } else {
        power(bs, k - 1) + box_power(k - 1, bs[k - 1], bs[k - 1].len() as int)
    }
}

proof fn lemma_box_grows(h: int, b: Seq<(Seq<u8>, usize)>, k: int, j: int)
    requires
        h >= 0,
        0 <= k <= j <= b.len(),
    ensures
        0 <= box_power(h, b, k) <= box_power(h, b, j),
    decreases j,
{
    if j > 0 {
        if j > k {
            lemma_box_grows(h, b, k, j - 1);
        } else {
            lemma_box_grows(h, b, j - 1, j - 1);
        }
        assert((h + 1) * j * b[j - 1].1 >= 0) by (nonlinear_arith)
            requires
                h >= 0,
                j >= 0,
                b[j - 1].1 >= 0,
        ;
    }
}

proof fn lemma_power_grows(bs: Seq<Seq<(Seq<u8>, usize)>>, k: int, j: int)
    requires
        0 <= k <= j <= bs.len(),
    ensures
        0 <= power(bs, k) <= power(bs, j),
    decreases j,
{
    if j > 0 {
        if j > k {
            lemma_power_grows(bs, k, j - 1);
        } else {
            lemma_power_grows(bs, j - 1, j - 1);
        }
        lemma_box_grows(j - 1, bs[j - 1], 0, bs[j - 1].len() as int);
    }
}

/// Once the first `s + 1` lenses of box `h` are worth more than the word
/// size, so are all boxes.
proof fn lemma_power_exceeds(bs: Seq<Seq<(Seq<u8>, usize)>>, h: int, s: int)
    requires
        0 <= h < bs.len(),
        0 <= s < bs[h].len(),
        box_power(h, bs[h], s + 1) > usize::MAX,
    ensures
        power(bs, bs.len() as int) > usize::MAX,
{
    lemma_box_grows(h, bs[h], s + 1, bs[h].len() as int);
    lemma_power_grows(bs, h + 1, bs.len() as int);
    lemma_power_grows(bs, 0, h);
}

/// The sum over all lenses of (box number + 1) times (slot + 1) times focal
/// length; `None` exactly when it exceeds the word size.
pub fn calculate_focusing_power(boxes: &Vec<Vec<(Vec<u8>, usize)>>) -> (r: Option<usize>)
    ensures
        r matches Some(v) ==> v == power(boxes_view(boxes@), boxes@.len() as int),
        r is None ==> power(boxes_view(boxes@), boxes@.len() as int) > usize::MAX,
{
    let ghost bv = boxes_view(boxes@);
    let mut total: usize = 0;
    let mut h: usize = 0;
    let nboxes = boxes.len();
    while h < nboxes
        invariant
            nboxes == boxes@.len(),
            h <= boxes@.len(),
            bv == boxes_view(boxes@),
            bv.len() == boxes@.len(),
            total == power(bv, h as int),
        decreases boxes@.len() - h,
    {
        let b = &boxes[h];
        assert(bv[h as int] == box_view(*b));
        let mut s: usize = 0;
        let mut sub: usize = 0;
        let nlens = b.len();
        while s < nlens
            invariant
                nlens == b@.len(),
                s <= b@.len(),
                nboxes == boxes@.len(),
                bv == boxes_view(boxes@),
                bv.len() == boxes@.len(),
                h < boxes@.len(),
                bv[h as int] == box_view(*b),
                box_view(*b).len() == b@.len(),
                sub == box_power(h as int, bv[h as int], s as int),
            decreases b@.len() - s,
        {
            assert(bv[h as int][s as int] == lens_view(b@[s as int]));
            let f = b[s].1;
            proof {
                lemma_box_grows(h as int, bv[h as int], s as int, s as int);
                assert((h + 1) * (s + 1) * f == f * (h + 1) * (s + 1)) by (nonlinear_arith);
                assert(f * (h + 1) * (s + 1) >= f * (h + 1)) by (nonlinear_arith)
                    requires
                        f >= 0,
                        h >= 0,
                        s >= 0,
                ;
                assert(box_power(h as int, bv[h as int], s + 1) == box_power(
                    h as int,
                    bv[h as int],
                    s as int,
                ) + (h + 1) * (s + 1) * f);
            }
            let term = match f.checked_mul(h + 1) {
                Some(x) => match x.checked_mul(s + 1) {
                    Some(y) => y,
                    None => {
                        proof {
                            assert(x * (s + 1) == f * (h + 1) * (s + 1));
                            lemma_power_exceeds(bv, h as int, s as int);
                        }
                        return None;
                    },
                },
                None => {
                    proof {
                        lemma_power_exceeds(bv, h as int, s as int);
                    }
                    return None;
                },
            };
            sub = match sub.checked_add(term) {
                Some(x) => x,
                None => {
                    proof {
                        lemma_power_exceeds(bv, h as int, s as int);
                    }
                    return None;
                },
            };
            s = s + 1;
        }
        total = match total.checked_add(sub) {
            Some(x) => x,
            None => {
                proof {
                    lemma_power_grows(bv, h + 1, bv.len() as int);
                }
                return None;
            },
        };
        h = h + 1;
    }
    Some(total)
}

} // verus!

//! Haunted wasteland: a network of named nodes, each leading left and right,
//! walked by a repeating list of directions.
use vstd::prelude::*;
use vstd::string::StringSliceAdditionalSpecFns;
use num_integer;
use crate::text::{copy_bytes, lines, split, split_lines, split_on, strip_leading_space, strip_space, views};

verus! {

/// A node: its name, and the names of the nodes to its left and right.
#[derive(Debug, PartialEq, Eq)]
pub struct Node {
    pub name: Vec<u8>,
    pub left: Vec<u8>,
    pub right: Vec<u8>,
}

/// `p` without one trailing byte `b`, if it ends with one.
pub open spec fn strip_end(p: Seq<u8>, b: u8) -> Seq<u8> {
    if p.len() > 0 && p.last() == b {
        p.drop_last()
    } else {
        p
    }
}

/// `p` without one leading byte `b`, if it starts with one.
pub open spec fn strip_start(p: Seq<u8>, b: u8) -> Seq<u8> {
    if p.len() > 0 && p[0] == b {
        p.drop_first()
    } else {
        p
    }
}

/// A node line: `<name> = (<left>, <right>)`.
pub open spec fn node_of(line: Seq<u8>) -> Option<(Seq<u8>, Seq<u8>, Seq<u8>)> {
    let halves = split(line, 0x3d);
    if halves.len() != 2 {
        None
    } else {
        let lr = split(strip_space(halves[1]), 0x2c);
        if lr.len() != 2 {
            None
        } else {
            Some(
                (
                    strip_end(halves[0], 0x20),
                    strip_start(lr[0], 0x28),
                    strip_end(strip_space(lr[1]), 0x29),
                ),
            )
        }
    }
}

fn strip_end_exec(p: &[u8], b: u8) -> (r: Vec<u8>)
    ensures
        r@ == strip_end(p@, b),
{
    let n = if p.len() > 0 && p[p.len() - 1] == b {
        p.len() - 1
    } else {
        p.len()
    };
    let mut r: Vec<u8> = Vec::new();
    let mut i: usize = 0;
    while i < n
        invariant
            n <= p@.len(),
            i <= n,
            r@ == p@.subrange(0, i as int),
        decreases n - i,
    {
        r.push(p[i]);
        i = i + 1;
        assert(r@ =~= p@.subrange(0, i as int));
    }
    assert(r@ =~= strip_end(p@, b));
    r
}

fn strip_start_exec(p: &[u8], b: u8) -> (r: &[u8])
    ensures
        r@ == strip_start(p@, b),
{
    if p.len() > 0 && p[0] == b {
        let (_, rest) = p.split_at(1);
        assert(rest@ =~= p@.drop_first());
        rest
    } else {
        p
    }
}

pub open spec fn node_view(n: Node) -> (Seq<u8>, Seq<u8>, Seq<u8>) {
    (n.name@, n.left@, n.right@)
}

fn parse_node(line: &[u8]) -> (r: Option<Node>)
    ensures
        r is Some <==> node_of(line@) is Some,
        r matches Some(n) ==> node_of(line@) == Some(node_view(n)),
{
    let halves = split_on(line, 0x3d);
    assert(views(halves@).len() == halves@.len());
    if halves.len() != 2 {
        return None;
    }
    assert(halves@[0]@ == split(line@, 0x3d)[0]);
    assert(halves@[1]@ == split(line@, 0x3d)[1]);
    let rest = strip_leading_space(halves[1].as_slice());
    let lr = split_on(rest, 0x2c);
    assert(views(lr@).len() == lr@.len());
    if lr.len() != 2 {
        return None;
    }
    assert(lr@[0]@ == split(rest@, 0x2c)[0]);
    assert(lr@[1]@ == split(rest@, 0x2c)[1]);
    let name = strip_end_exec(halves[0].as_slice(), 0x20);
    let left = copy_bytes(strip_start_exec(lr[0].as_slice(), 0x28));
    let right = strip_end_exec(strip_leading_space(lr[1].as_slice()), 0x29);
    Some(Node { name, left, right })
}


/// The nodes of a text, one per line; `None` if a line is no node.
pub fn parse_into_network(input: &str) -> (r: Option<Vec<Node>>)
    ensures
        r is Some <==> forall|i: int|
            0 <= i < lines(input.spec_bytes()).len() ==> node_of(
                #[trigger] lines(input.spec_bytes())[i],
            ) is Some,
        r matches Some(ns) ==> ns@.len() == lines(input.spec_bytes()).len() && forall|i: int|
            0 <= i < ns@.len() ==> node_of(#[trigger] lines(input.spec_bytes())[i]) == Some(
                node_view(ns@[i]),
            ),
{
    let ls = split_lines(input.as_bytes());
    let ghost ln = lines(input.spec_bytes());
    assert(views(ls@).len() == ls@.len());
    let mut ns: Vec<Node> = Vec::new();
    let mut i: usize = 0;
    while i < ls.len()
        invariant
            views(ls@) == ln,
            ln == lines(input.spec_bytes()),
            ls@.len() == ln.len(),
            i <= ls@.len(),
            ns@.len() == i,
            forall|j: int| 0 <= j < i ==> node_of(#[trigger] ln[j]) == Some(node_view(ns@[j])),
        decreases ls@.len() - i,
    {
        assert(ls@[i as int]@ == ln[i as int]);
        match parse_node(ls[i].as_slice()) {
            Some(n) => ns.push(n),
            None => {
                return None;
            },
        }
        i = i + 1;
    }
    Some(ns)
}

/// The directions, one byte each: `R` for right, anything else for left.
pub fn parse_directions(input: &str) -> (r: Vec<u8>)
    ensures
        r@ == input.spec_bytes(),
{
    copy_bytes(input.as_bytes())
}

/// The last of the first `k` nodes named `name`.
pub open spec fn last_named(ns: Seq<Node>, name: Seq<u8>, k: int) -> Option<int>
    decreases k,
{
    if k <= 0 {
        None
    } else if ns[k - 1].name@ == name {
        Some(k - 1)
    } else {
        last_named(ns, name, k - 1)
    }
}

/// Where each node leads, as indices: a name stands for the last node of
/// that name. `None` if some name has no node.
pub open spec fn links(ns: Seq<Node>) -> Option<Seq<(int, int)>> {
    if forall|i: int|
        0 <= i < ns.len() ==> (#[trigger] last_named(ns, ns[i].left@, ns.len() as int)) is Some
            && last_named(ns, ns[i].right@, ns.len() as int) is Some {
        Some(
            Seq::new(
                ns.len(),
                |i: int|
                    (
                        last_named(ns, ns[i].left@, ns.len() as int)->0,
                        last_named(ns, ns[i].right@, ns.len() as int)->0,
                    ),
            ),
        )
    } else {
        None
    }
}

fn find_last(ns: &Vec<Node>, name: &[u8]) -> (r: Option<usize>)
    ensures
        match r {
            Some(k) => last_named(ns@, name@, ns@.len() as int) == Some(k as int),
            None => last_named(ns@, name@, ns@.len() as int) is None,
        },
{
    let mut k = ns.len();
    while k > 0
        invariant
            k <= ns@.len(),
            last_named(ns@, name@, ns@.len() as int) == last_named(ns@, name@, k as int),
        decreases k,
    {
        if crate::text::eq_bytes(ns[k - 1].name.as_slice(), name) {
            return Some(k - 1);
        }
        k = k - 1;
    }
    None
}

fn resolve(ns: &Vec<Node>) -> (r: Option<Vec<(usize, usize)>>)
    ensures
        match r {
            Some(ts) => links(ns@) matches Some(l) && ts@.len() == l.len() && forall|i: int|
                0 <= i < l.len() ==> (ts@[i].0 as int, ts@[i].1 as int) == #[trigger] l[i],
            None => links(ns@) is None,
        },
{
    let mut ts: Vec<(usize, usize)> = Vec::new();
    let mut i: usize = 0;
    while i < ns.len()
        invariant
            i <= ns@.len(),
            ts@.len() == i,
            forall|j: int|
                0 <= j < i ==> last_named(ns@, ns@[j].left@, ns@.len() as int) == Some(
                    (#[trigger] ts@[j]).0 as int,
                ) && last_named(ns@, ns@[j].right@, ns@.len() as int) == Some(ts@[j].1 as int),
        decreases ns@.len() - i,
    {
        let l = match find_last(ns, ns[i].left.as_slice()) {
            Some(l) => l,
            None => {
                assert(last_named(ns@, ns@[i as int].left@, ns@.len() as int) is None);
                return None;
            },
        };
        let r = match find_last(ns, ns[i].right.as_slice()) {
            Some(r) => r,
            None => {
                assert(last_named(ns@, ns@[i as int].right@, ns@.len() as int) is None);
                return None;
            },
        };
        ts.push((l, r));
        i = i + 1;
    }
    assert forall|j: int| 0 <= j < ns@.len() implies (#[trigger] last_named(
        ns@,
        ns@[j].left@,
        ns@.len() as int,
    )) is Some && last_named(ns@, ns@[j].right@, ns@.len() as int) is Some by {
        assert(last_named(ns@, ns@[j].left@, ns@.len() as int) == Some(ts@[j].0 as int));
    }
    Some(ts)
}

/// The links as integers.
pub open spec fn link_ints(ts: Seq<(usize, usize)>) -> Seq<(int, int)> {
    ts.map_values(|t: (usize, usize)| (t.0 as int, t.1 as int))
}

/// The node reached after `k` steps from `start`, step `j` going right when
/// direction `j` (modulo their number) is `R`.
pub open spec fn pos(l: Seq<(int, int)>, dirs: Seq<u8>, start: int, k: nat) -> int
    decreases k,
{
    if k == 0 {
        start
    } else {
        let p = pos(l, dirs, start, (k - 1) as nat);
        if dirs[(k - 1) % dirs.len() as int] == 0x52 {
            l[p].1
        } else {
            l[p].0
        }
    }
}

/// The node names a walk stops at: `ZZZ`, or with `any_z` any name that ends
/// with `Z`.
pub open spec fn is_goal(name: Seq<u8>, any_z: bool) -> bool {
    if any_z {
        name.len() > 0 && name.last() == 0x5a
    } else {
        name == seq![0x5au8, 0x5a, 0x5a]
    }
}

/// A walk from `start` first stands on a goal after `k` steps.
pub open spec fn first_goal(ns: Seq<Node>, l: Seq<(int, int)>, dirs: Seq<u8>, start: int, any_z: bool, k: nat) -> bool {
    &&& is_goal(ns[pos(l, dirs, start, k)].name@, any_z)
    &&& forall|j: nat| j < k ==> !is_goal(ns[#[trigger] pos(l, dirs, start, j)].name@, any_z)
}

fn goal_exec(name: &Vec<u8>, any_z: bool) -> (r: bool)
    ensures
        r == is_goal(name@, any_z),
{
    if any_z {
        name.len() > 0 && name[name.len() - 1] == 0x5a
    } else {
        let zzz = vec![0x5au8, 0x5a, 0x5a];
        assert(zzz@ =~= seq![0x5au8, 0x5a, 0x5a]);
        crate::text::eq_bytes(name.as_slice(), zzz.as_slice())
    }
}

/// How many steps a walk from `start` takes to first reach a goal; `None`
/// if it does not within `limit` steps.
fn steps_to_goal(
    ns: &Vec<Node>,
    ts: &Vec<(usize, usize)>,
    dirs: &Vec<u8>,
    start: usize,
    any_z: bool,
    limit: usize,
) -> (r: Option<usize>)
    requires
        start < ns@.len(),
        ts@.len() == ns@.len(),
        dirs@.len() > 0,
        forall|i: int| 0 <= i < ts@.len() ==> (#[trigger] ts@[i]).0 < ns@.len() && ts@[i].1 < ns@.len(),
    ensures
        r matches Some(k) ==> first_goal(
            ns@,
            link_ints(ts@),
            dirs@,
            start as int,
            any_z,
            k as nat,
        ),
        r is None ==> forall|j: nat|
            j < limit ==> !is_goal(
                ns@[#[trigger] pos(
                    link_ints(ts@),
                    dirs@,
                    start as int,
                    j,
                )].name@,
                any_z,
            ),
{
    let ghost l = link_ints(ts@);
    assert forall|i: int| 0 <= i < l.len() implies 0 <= (#[trigger] l[i]).0 < ns@.len() && 0 <= l[i].1
        < ns@.len() by {
        assert(l[i] == (ts@[i].0 as int, ts@[i].1 as int));
    }
    let mut cur = start;
    let mut k: usize = 0;
    while k < limit
        invariant
            l == link_ints(ts@),
            ts@.len() == ns@.len(),
            l.len() == ns@.len(),
            dirs@.len() > 0,
            forall|i: int| 0 <= i < ts@.len() ==> (#[trigger] ts@[i]).0 < ns@.len() && ts@[i].1 < ns@.len(),
            start < ns@.len(),
            cur < ns@.len(),
            cur == pos(l, dirs@, start as int, k as nat),
            forall|j: nat| j < k ==> !is_goal(ns@[#[trigger] pos(l, dirs@, start as int, j)].name@, any_z),
        decreases limit - k,
    {
        if goal_exec(&ns[cur].name, any_z) {
            return Some(k);
        }
        let d = dirs[k % dirs.len()];
        assert(l[cur as int] == (ts@[cur as int].0 as int, ts@[cur as int].1 as int));
        cur = if d == 0x52 {
            ts[cur].1
        } else {
            ts[cur].0
        };
        k = k + 1;
    }
    None
}

/// How many steps a walk is followed before it is given up: as many as
/// there are (node, direction) pairs, or the largest word.
/// The name `AAA`.
pub open spec fn aaa() -> Seq<u8> {
    seq![0x41u8, 0x41, 0x41]
}

pub open spec fn walk_bound(n: nat, d: nat) -> nat {
    if n * d <= usize::MAX {
        n * d
    } else {
        usize::MAX as nat
    }
}

/// How many steps the walk from `AAA` takes to reach `ZZZ`; `None` if the
/// network lacks `AAA` or a node it names, there are no directions, or the
/// walk does not reach `ZZZ` within as many steps as there are (node,
/// direction) pairs, after which it would only repeat itself.
pub fn solve_1(network: &Vec<Node>, directions: &Vec<u8>) -> (r: Option<usize>)
    ensures
        r matches Some(k) ==> links(network@) matches Some(l) && exists|start: int|
            last_named(network@, seq![0x41u8, 0x41, 0x41], network@.len() as int) == Some(start)
                && #[trigger] first_goal(network@, l, directions@, start, false, k as nat),
        r is None ==> directions@.len() == 0 || last_named(
            network@,
            seq![0x41u8, 0x41, 0x41],
            network@.len() as int,
        ) is None || links(network@) is None || forall|j: nat|
            j < walk_bound(network@.len(), directions@.len()) ==> !is_goal(
                network@[#[trigger] pos(
                    links(network@)->0,
                    directions@,
                    last_named(network@, aaa(), network@.len() as int)->0,
                    j,
                )].name@,
                false,
            ),
{
    if directions.len() == 0 {
        return None;
    }
    let aaa = vec![0x41u8, 0x41, 0x41];
    assert(aaa@ =~= seq![0x41u8, 0x41, 0x41]);
    let start = match find_last(network, aaa.as_slice()) {
        Some(s) => s,
        None => {
            return None;
        },
    };
    let ts = match resolve(network) {
        Some(ts) => ts,
        None => {
            return None;
        },
    };
    proof {
        let l = links(network@)->0;
        assert(link_ints(ts@) =~= l);
        assert forall|i: int| 0 <= i < ts@.len() implies (#[trigger] ts@[i]).0 < network@.len()
            && ts@[i].1 < network@.len() by {
            assert((ts@[i].0 as int, ts@[i].1 as int) == l[i]);
            lemma_last_named_range(network@, network@[i].left@, network@.len() as int);
            lemma_last_named_range(network@, network@[i].right@, network@.len() as int);
        }
        lemma_last_named_range(network@, aaa@, network@.len() as int);
    }
    let limit = match network.len().checked_mul(directions.len()) {
        Some(x) => x,
        None => usize::MAX,
    };
    assert(limit == walk_bound(network@.len(), directions@.len()));
    steps_to_goal(network, &ts, directions, start, false, limit)
}

proof fn lemma_last_named_range(ns: Seq<Node>, name: Seq<u8>, k: int)
    requires
        k <= ns.len(),
    ensures
        last_named(ns, name, k) matches Some(i) ==> 0 <= i < k,
    decreases k,
{
    if k > 0 {
        lemma_last_named_range(ns, name, k - 1);
    }
}

/// `g` is the greatest common divisor of `a` and `b`, zero for two zeros.
pub open spec fn is_gcd(a: nat, b: nat, g: nat) -> bool {
    if a == 0 && b == 0 {
        g == 0
    } else {
        &&& g > 0
        &&& a % g == 0
        &&& b % g == 0
        &&& forall|d: nat| d > 0 && #[trigger] (a % d) == 0 && b % d == 0 ==> d <= g
    }
}

/// Relies on num_integer::gcd: for unsigned integers it returns their greatest
/// common divisor, and 0 for two zeros.
#[verifier::external_body]
fn gcd(a: usize, b: usize) -> (r: usize)
    ensures
        is_gcd(a as nat, b as nat, r as nat),
{
    num_integer::gcd(a, b)
}

/// `m` is `a / gcd(a, b) * b`, the least common multiple.
pub open spec fn lcm_step(a: nat, b: nat, m: nat) -> bool {
    exists|g: nat| #[trigger] is_gcd(a, b, g) && m == (a / g) * b
}

/// The least common multiple, as `a / gcd(a, b) * b`; `None` when it exceeds
/// the word size. Not both may be zero.
pub fn lcm(a: usize, b: usize) -> (r: Option<usize>)
    requires
        a != 0 || b != 0,
    ensures
        r matches Some(v) ==> lcm_step(a as nat, b as nat, v as nat),
{
    let g = gcd(a, b);
    assert(g > 0);
    (a / g).checked_mul(b)
}


pub open spec fn ends_with_a(n: Node) -> bool {
    n.name@.len() > 0 && n.name@.last() == 0x41
}

/// The indices among the first `k` nodes whose names end with `A`.
pub open spec fn a_nodes(ns: Seq<Node>, k: int) -> Seq<usize>
    decreases k,
{
    if k <= 0 {
        Seq::empty()
    } else if ends_with_a(ns[k - 1]) {
        a_nodes(ns, k - 1).push((k - 1) as usize)
    } else {
        a_nodes(ns, k - 1)
    }
}

proof fn lemma_a_nodes_range(ns: Seq<Node>, k: int)
    requires
        k <= ns.len() <= usize::MAX,
    ensures
        forall|i: int| 0 <= i < a_nodes(ns, k).len() ==> #[trigger] a_nodes(ns, k)[i] < ns.len(),
    decreases k,
{
    if k > 0 {
        lemma_a_nodes_range(ns, k - 1);
        assert forall|i: int| 0 <= i < a_nodes(ns, k).len() implies #[trigger] a_nodes(ns, k)[i]
            < ns.len() by {
            if i < a_nodes(ns, k - 1).len() {
                assert(a_nodes(ns, k)[i] == a_nodes(ns, k - 1)[i]);
            }
        }
    }
}

/// The indices of the nodes whose names end with `A`, in order.
pub fn get_all_nodes_ending_with_a(network: &Vec<Node>) -> (r: Vec<usize>)
    ensures
        r@ == a_nodes(network@, network@.len() as int),
{
    let mut r: Vec<usize> = Vec::new();
    let mut i: usize = 0;
    while i < network.len()
        invariant
            i <= network@.len(),
            r@ == a_nodes(network@, i as int),
        decreases network@.len() - i,
    {
        let name = &network[i].name;
        if name.len() > 0 && name[name.len() - 1] == 0x41 {
            r.push(i);
        }
        i = i + 1;
    }
    r
}

/// `acc` folds the least common multiple over `fs` from 1, one step
/// `acc[k + 1] == acc[k] / gcd(acc[k], fs[k]) * fs[k]` at a time.
pub open spec fn lcm_chain(fs: Seq<usize>, acc: Seq<nat>) -> bool {
    &&& acc.len() == fs.len() + 1
    &&& acc[0] == 1
    &&& forall|k: int| 0 <= k < fs.len() ==> #[trigger] lcm_step(acc[k], fs[k] as nat, acc[k + 1])
}

/// The least common multiple of the numbers of steps that the walks from the
/// nodes ending with `A` take to first stand on a node ending with `Z`. `None`
/// if a name has no node, there are no directions, a walk does not arrive
/// within as many steps as there are (node, direction) pairs, or the multiple
/// exceeds the word size.
pub fn solve_2(network: &Vec<Node>, directions: &Vec<u8>) -> (r: Option<usize>)
    ensures
        r matches Some(v) ==> links(network@) matches Some(l) && exists|fs: Seq<usize>, acc: Seq<nat>|
            #[trigger] lcm_chain(fs, acc) && fs.len() == a_nodes(network@, network@.len() as int).len()
                && (forall|i: int|
                0 <= i < fs.len() ==> first_goal(
                    network@,
                    l,
                    directions@,
                    a_nodes(network@, network@.len() as int)[i] as int,
                    true,
                    #[trigger] fs[i] as nat,
                )) && v == acc.last(),
{
    if directions.len() == 0 {
        return None;
    }
    let ts = match resolve(network) {
        Some(ts) => ts,
        None => {
            return None;
        },
    };
    let ghost l = links(network@)->0;
    let nn = network.len();
    proof {
        assert(link_ints(ts@) =~= l);
        assert forall|i: int| 0 <= i < ts@.len() implies (#[trigger] ts@[i]).0 < network@.len()
            && ts@[i].1 < network@.len() by {
            assert((ts@[i].0 as int, ts@[i].1 as int) == l[i]);
            lemma_last_named_range(network@, network@[i].left@, network@.len() as int);
            lemma_last_named_range(network@, network@[i].right@, network@.len() as int);
        }
        assert(network@.len() == nn);
        lemma_a_nodes_range(network@, network@.len() as int);
    }
    let starts = get_all_nodes_ending_with_a(network);
    let limit = match network.len().checked_mul(directions.len()) {
        Some(x) => x,
        None => usize::MAX,
    };
    let ghost mut fs: Seq<usize> = Seq::empty();
    let ghost mut acc: Seq<nat> = seq![1nat];
    let mut m: usize = 1;
    let mut i: usize = 0;
    while i < starts.len()
        invariant
            starts@ == a_nodes(network@, network@.len() as int),
            forall|j: int| 0 <= j < starts@.len() ==> #[trigger] starts@[j] < network@.len(),
            l == links(network@)->0,
            links(network@) is Some,
            link_ints(ts@) == l,
            ts@.len() == network@.len(),
            directions@.len() > 0,
            forall|j: int|
                0 <= j < ts@.len() ==> (#[trigger] ts@[j]).0 < network@.len() && ts@[j].1
                    < network@.len(),
            i <= starts@.len(),
            fs.len() == i,
            lcm_chain(fs, acc),
            m == acc.last(),
            forall|j: int|
                0 <= j < i ==> first_goal(
                    network@,
                    l,
                    directions@,
                    starts@[j] as int,
                    true,
                    #[trigger] fs[j] as nat,
                ),
        decreases starts@.len() - i,
    {
        let f = match steps_to_goal(network, &ts, directions, starts[i], true, limit) {
            Some(f) => f,
            None => {
                return None;
            },
        };
        if m == 0 && f == 0 {
            return None;
        }
        let g = gcd(m, f);
        let next = match (m / g).checked_mul(f) {
            Some(x) => x,
            None => {
                return None;
            },
        };
        proof {
            let fs0 = fs;
            let acc0 = acc;
            fs = fs.push(f);
            acc = acc.push(next as nat);
            assert forall|k: int| 0 <= k < fs.len() implies #[trigger] lcm_step(
                acc[k],
                fs[k] as nat,
                acc[k + 1],
            ) by {
                if k < fs0.len() {
                    assert(acc[k] == acc0[k] && acc[k + 1] == acc0[k + 1] && fs[k] == fs0[k]);
                } else {
                    assert(acc[k] == m && fs[k] == f && acc[k + 1] == next);
                    assert(is_gcd(m as nat, f as nat, g as nat));
                }
            }
            assert forall|j: int| 0 <= j < i + 1 implies first_goal(
                network@,
                l,
                directions@,
                starts@[j] as int,
                true,
                #[trigger] fs[j] as nat,
            ) by {
                if j < i {
                    assert(fs[j] == fs0[j]);
                }
            }
        }
        m = next;
        i = i + 1;
    }
    Some(m)
}

} // verus!

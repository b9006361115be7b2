//! Scratchcards: each card has winning numbers and guessed numbers; its
//! matches are the distinct winning numbers among the guesses.
use vstd::prelude::*;
use vstd::string::StringSliceAdditionalSpecFns;
use vstd::arithmetic::power2::{lemma2_to64, lemma_pow2_strictly_increases, lemma_pow2_unfold, pow2};
use crate::text::{all_digits, digits_value, lines, parse_u32, split, split_lines, split_on, views};

verus! {

#[derive(Debug, PartialEq, Eq)]
pub struct Card {
    pub winning_numbers: Vec<u32>,
    pub guess: Vec<u32>,
}

/// The numbers among the first `k` space-separated pieces; empty pieces are
/// skipped, and any other piece must be a number that fits in 32 bits.
pub open spec fn numbers_of(ps: Seq<Seq<u8>>, k: int) -> Option<Seq<u32>>
    decreases k,
{
    if k <= 0 {
        Some(Seq::empty())
    } else {
        match numbers_of(ps, k - 1) {
            None => None,
            Some(ns) => if ps[k - 1].len() == 0 {
                Some(ns)
            } else if all_digits(ps[k - 1]) && digits_value(ps[k - 1]) <= u32::MAX {
                Some(ns.push(digits_value(ps[k - 1]) as u32))
            } else {
                None
            },
        }
    }
}

pub open spec fn numbers_text(s: Seq<u8>) -> Option<Seq<u32>> {
    numbers_of(split(s, 0x20), split(s, 0x20).len() as int)
}

/// A card line: `Card <n>: <numbers> | <numbers>`.
pub open spec fn card_of(line: Seq<u8>) -> Option<(Seq<u32>, Seq<u32>)> {
    let halves = split(line, 0x7c);
    if halves.len() != 2 || split(halves[0], 0x3a).len() != 2 {
        None
    } else {
        match (numbers_text(split(halves[0], 0x3a)[1]), numbers_text(halves[1])) {
            (Some(w), Some(g)) => Some((w, g)),
            _ => None,
        }
    }
}

proof fn lemma_numbers_stay_none(ps: Seq<Seq<u8>>, k: int, j: int)
    requires
        0 <= k <= j,
        numbers_of(ps, k) is None,
    ensures
        numbers_of(ps, j) is None,
    decreases j - k,
{
    if j > k {
        lemma_numbers_stay_none(ps, k, j - 1);
    }
}

fn parse_numbers(s: &[u8]) -> (r: Option<Vec<u32>>)
    ensures
        r is Some <==> numbers_text(s@) is Some,
        r matches Some(v) ==> numbers_text(s@) == Some(v@),
{
    let ps = split_on(s, 0x20);
    let ghost sp = split(s@, 0x20);
    assert(views(ps@).len() == ps@.len());
    let mut out: Vec<u32> = Vec::new();
    let mut k: usize = 0;
    while k < ps.len()
        invariant
            views(ps@) == sp,
            sp == split(s@, 0x20),
            ps@.len() == sp.len(),
            k <= ps@.len(),
            numbers_of(sp, k as int) == Some(out@),
        decreases ps@.len() - k,
    {
        assert(ps@[k as int]@ == sp[k as int]);
        if ps[k].len() > 0 {
            match parse_u32(ps[k].as_slice()) {
                Some(v) => out.push(v),
                None => {
                    proof {
                        lemma_numbers_stay_none(sp, k + 1, sp.len() as int);
                    }
                    return None;
                },
            }
        }
        k = k + 1;
    }
    Some(out)
}

fn parse_card(line: &[u8]) -> (r: Option<Card>)
    ensures
        r is Some <==> card_of(line@) is Some,
        r matches Some(c) ==> card_of(line@) == Some((c.winning_numbers@, c.guess@)),
{
    let halves = split_on(line, 0x7c);
    assert(views(halves@).len() == halves@.len());
    if halves.len() != 2 {
        return None;
    }
    assert(halves@[0]@ == split(line@, 0x7c)[0]);
    assert(halves@[1]@ == split(line@, 0x7c)[1]);
    let head = split_on(halves[0].as_slice(), 0x3a);
    assert(views(head@).len() == head@.len());
    if head.len() != 2 {
        return None;
    }
    assert(head@[1]@ == split(halves@[0]@, 0x3a)[1]);
    let w = match parse_numbers(head[1].as_slice()) {
        Some(w) => w,
        None => {
            return None;
        },
    };
    let g = match parse_numbers(halves[1].as_slice()) {
        Some(g) => g,
        None => {
            return None;
        },
    };
    Some(Card { winning_numbers: w, guess: g })
}

/// The cards of a text, one per line; `None` if a line is no card.
pub fn parse(input: &str) -> (r: Option<Vec<Card>>)
    ensures
        r is Some <==> forall|i: int|
            0 <= i < lines(input.spec_bytes()).len() ==> card_of(
                #[trigger] lines(input.spec_bytes())[i],
            ) is Some,
        r matches Some(cs) ==> cs@.len() == lines(input.spec_bytes()).len() && forall|i: int|
            0 <= i < cs@.len() ==> card_of(#[trigger] lines(input.spec_bytes())[i]) == Some(
                (cs@[i].winning_numbers@, cs@[i].guess@),
            ),
{
    let ls = split_lines(input.as_bytes());
    let ghost ln = lines(input.spec_bytes());
    assert(views(ls@).len() == ls@.len());
    let mut cards: Vec<Card> = Vec::new();
    let mut i: usize = 0;
    while i < ls.len()
        invariant
            views(ls@) == ln,
            ln == lines(input.spec_bytes()),
            ls@.len() == ln.len(),
            i <= ls@.len(),
            cards@.len() == i,
            forall|j: int| 0 <= j < i ==> card_of(#[trigger] ln[j]) is Some,
            forall|j: int|
                0 <= j < i ==> card_of(#[trigger] ln[j]) == Some(
                    (cards@[j].winning_numbers@, cards@[j].guess@),
                ),
        decreases ls@.len() - i,
    {
        assert(ls@[i as int]@ == ln[i as int]);
        match parse_card(ls[i].as_slice()) {
            Some(c) => cards.push(c),
            None => {
                return None;
            },
        }
        i = i + 1;
    }
    Some(cards)
}

/// The number of distinct winning numbers that were also guessed.
pub open spec fn matches(w: Seq<u32>, g: Seq<u32>) -> nat {
    w.to_set().intersect(g.to_set()).len()
}

fn contains(v: &Vec<u32>, x: u32, end: usize) -> (r: bool)
    requires
        end <= v@.len(),
    ensures
        r == v@.subrange(0, end as int).contains(x),
{
    let mut i: usize = 0;
    while i < end
        invariant
            i <= end <= v@.len(),
            forall|j: int| 0 <= j < i ==> v@[j] != x,
        decreases end - i,
    {
        if v[i] == x {
            assert(v@.subrange(0, end as int)[i as int] == x);
            return true;
        }
        i = i + 1;
    }
    false
}

/// How many distinct winning numbers of the card were guessed.
pub fn get_count_of_matches(card: &Card) -> (r: usize)
    ensures
        r == matches(card.winning_numbers@, card.guess@),
        r <= card.winning_numbers@.len(),
{
    let w = &card.winning_numbers;
    let g = &card.guess;
    let ghost gs = g@.to_set();
    let mut count: usize = 0;
    let mut i: usize = 0;
    proof {
        assert(w@.subrange(0, 0).to_set() =~= Set::<u32>::empty());
        assert(w@.subrange(0, 0).to_set().intersect(gs) =~= Set::<u32>::empty());
    }
    while i < w.len()
        invariant
            i <= w@.len(),
            gs == g@.to_set(),
            count <= i,
            count == w@.subrange(0, i as int).to_set().intersect(gs).len(),
            w@.subrange(0, i as int).to_set().intersect(gs).finite(),
        decreases w@.len() - i,
    {
        let x = w[i];
        let ghost before = w@.subrange(0, i as int).to_set().intersect(gs);
        assert(w@.subrange(0, i + 1) =~= w@.subrange(0, i as int).push(x));
        proof {
            w@.subrange(0, i as int).lemma_push_to_set_commute(x);
        }
        let seen = contains(w, x, i);
        let hit = contains(g, x, g.len());
        assert(g@.subrange(0, g@.len() as int) =~= g@);
        if !seen && hit {
            assert(w@.subrange(0, i + 1).to_set().intersect(gs) =~= before.insert(x));
            assert(!before.contains(x));
            count = count + 1;
        } else {
            assert(w@.subrange(0, i + 1).to_set().intersect(gs) =~= before);
        }
        i = i + 1;
    }
    assert(w@.subrange(0, w@.len() as int) =~= w@);
    count
}


/// A card's points: none without matches, else one doubled for every match
/// after the first.
pub open spec fn points(m: nat) -> nat {
    if m == 0 {
        0
    } else {
        pow2((m - 1) as nat)
    }
}

/// The points of a card; it may have at most 32 matches, so that they fit in
/// 32 bits.
pub fn calculate_points(card: &Card) -> (r: u32)
    requires
        matches(card.winning_numbers@, card.guess@) <= 32,
    ensures
        r == points(matches(card.winning_numbers@, card.guess@)),
{
    let m = get_count_of_matches(card);
    if m == 0 {
        return 0;
    }
    let mut p: u32 = 1;
    let mut e: usize = 0;
    proof {
        lemma2_to64();
    }
    while e < m - 1
        invariant
            e <= m - 1,
            m <= 32,
            p == pow2(e as nat),
            pow2(31) == 0x8000_0000,
        decreases m - 1 - e,
    {
        proof {
            lemma_pow2_unfold((e + 1) as nat);
            if e + 1 < 31 {
                lemma_pow2_strictly_increases((e + 1) as nat, 31);
            }
        }
        p = p * 2;
        e = e + 1;
    }
    p
}

/// The match counts of the cards.
pub open spec fn match_counts(cards: Seq<Card>) -> Seq<nat> {
    cards.map_values(|c: Card| matches(c.winning_numbers@, c.guess@))
}

/// How many copies of each card there are after the first `k` cards have won:
/// card `i` with `m` matches adds one copy of each of the next `m` cards for
/// every copy of itself.
pub open spec fn copies(ms: Seq<nat>, k: int) -> Seq<int>
    decreases k,
{
    if k <= 0 {
        Seq::new(ms.len(), |j: int| 1int)
    } else {
        let prev = copies(ms, k - 1);
        Seq::new(
            ms.len(),
            |j: int|
                if k - 1 < j <= k - 1 + ms[k - 1] {
                    prev[j] + prev[k - 1]
                } else {
                    prev[j]
                },
        )
    }
}

proof fn lemma_copies_grow(ms: Seq<nat>, k1: int, k2: int, j: int)
    requires
        0 <= k1 <= k2,
        0 <= j < ms.len(),
    ensures
        copies(ms, k2).len() == ms.len(),
        1 <= copies(ms, k1)[j] <= copies(ms, k2)[j],
    decreases k2,
{
    if k2 > k1 {
        lemma_copies_grow(ms, k1, k2 - 1, j);
        if k2 - 1 < ms.len() {
            lemma_copies_grow(ms, 0, k2 - 1, k2 - 1);
        }
    } else if k1 > 0 {
        lemma_copies_grow(ms, 0, k1 - 1, j);
        if k1 - 1 < ms.len() {
            lemma_copies_grow(ms, 0, k1 - 1, k1 - 1);
        }
    }
}

/// The number of copies of every card once all cards have won; each card's
/// matches must stay within the list. `None` when a count exceeds the word
/// size.
pub fn count_of_total_cards(cards: &[Card]) -> (r: Option<Vec<usize>>)
    requires
        forall|i: int|
            0 <= i < cards@.len() ==> i + #[trigger] match_counts(cards@)[i] < cards@.len(),
    ensures
        r matches Some(v) ==> v@.len() == cards@.len() && forall|j: int|
            0 <= j < v@.len() ==> v@[j] == copies(match_counts(cards@), cards@.len() as int)[j],
        r is None ==> exists|j: int|
            0 <= j < cards@.len() && copies(match_counts(cards@), cards@.len() as int)[j]
                > usize::MAX,
{
    let n = cards.len();
    let ghost ms = match_counts(cards@);
    let mut counts: Vec<usize> = Vec::new();
    let mut i: usize = 0;
    while i < n
        invariant
            i <= n == cards@.len(),
            counts@.len() == i,
            forall|j: int| 0 <= j < i ==> counts@[j] == 1,
        decreases n - i,
    {
        counts.push(1);
        i = i + 1;
    }
    assert(ms.len() == n);
    let mut idx: usize = 0;
    while idx < n
        invariant
            idx <= n == cards@.len(),
            ms == match_counts(cards@),
            ms.len() == n,
            forall|a: int| 0 <= a < n ==> a + #[trigger] ms[a] < n,
            counts@.len() == n,
            forall|j: int| 0 <= j < n ==> counts@[j] == copies(ms, idx as int)[j],
        decreases n - idx,
    {
        let m = get_count_of_matches(&cards[idx]);
        assert(m == ms[idx as int]);
        let c = counts[idx];
        let ghost prev = copies(ms, idx as int);
        let mut i: usize = 1;
        while i <= m
            invariant
                1 <= i <= m + 1,
                idx < n == cards@.len(),
                ms == match_counts(cards@),
                idx + m < n,
                m == ms[idx as int],
                ms.len() == n,
                counts@.len() == n,
                prev == copies(ms, idx as int),
                c == prev[idx as int],
                forall|j: int|
                    0 <= j < n ==> counts@[j] == if idx < j < idx + i {
                        prev[j] + prev[idx as int]
                    } else {
                        prev[j]
                    },
            decreases m + 1 - i,
        {
            match counts[idx + i].checked_add(c) {
                Some(v) => counts.set(idx + i, v),
                None => {
                    proof {
                        let j = idx + i;
                        assert(copies(ms, idx + 1)[j as int] == prev[j as int] + prev[idx as int]);
                        lemma_copies_grow(ms, idx + 1, n as int, j as int);
                        assert(copies(match_counts(cards@), cards@.len() as int)[j as int]
                            > usize::MAX);
                    }
                    return None;
                },
            }
            i = i + 1;
        }
        idx = idx + 1;
        assert forall|j: int| 0 <= j < n implies counts@[j] == copies(ms, idx as int)[j] by {}
    }
    Some(counts)
}

/// The sum of the first `k` entries.
pub open spec fn sum_of(v: Seq<int>, k: int) -> int
    decreases k,
{
    if k <= 0 {
        0
    } else {
        sum_of(v, k - 1) + v[k - 1]
    }
}

/// The points of all cards of a text; `None` if a line is no card, a card has
/// more than 32 matches, or the sum exceeds 64 bits.
pub fn solve_1(input: &str) -> (r: Option<u64>)
    ensures
        r matches Some(v) ==> exists|cards: Seq<Card>|
            #[trigger] cards.len() == lines(input.spec_bytes()).len() && (forall|i: int|
                0 <= i < cards.len() ==> card_of(#[trigger] lines(input.spec_bytes())[i]) == Some(
                    (cards[i].winning_numbers@, cards[i].guess@),
                )) && v == sum_of(
                Seq::new(cards.len(), |i: int| points(match_counts(cards)[i]) as int),
                cards.len() as int,
            ),
{
    let cards = match parse(input) {
        Some(c) => c,
        None => {
            return None;
        },
    };
    let ghost pts = Seq::new(cards@.len(), |i: int| points(match_counts(cards@)[i]) as int);
    let mut total: u64 = 0;
    let mut i: usize = 0;
    while i < cards.len()
        invariant
            i <= cards@.len(),
            pts == Seq::new(cards@.len(), |i: int| points(match_counts(cards@)[i]) as int),
            total == sum_of(pts, i as int),
        decreases cards@.len() - i,
    {
        if get_count_of_matches(&cards[i]) > 32 {
            return None;
        }
        let p = calculate_points(&cards[i]);
        total = match total.checked_add(p as u64) {
            Some(t) => t,
            None => {
                return None;
            },
        };
        i = i + 1;
    }
    Some(total)
}

/// The total number of cards once every card has won its copies; `None` if a
/// line is no card, a card wins past the end of the list, or a count exceeds
/// the word size.
pub fn solve_2(input: &str) -> (r: Option<usize>)
    ensures
        r matches Some(v) ==> exists|cards: Seq<Card>|
            #[trigger] cards.len() == lines(input.spec_bytes()).len() && (forall|i: int|
                0 <= i < cards.len() ==> card_of(#[trigger] lines(input.spec_bytes())[i]) == Some(
                    (cards[i].winning_numbers@, cards[i].guess@),
                )) && v == sum_of(copies(match_counts(cards), cards.len() as int), cards.len() as int),
{
    let cards = match parse(input) {
        Some(c) => c,
        None => {
            return None;
        },
    };
    let n = cards.len();
    let mut k: usize = 0;
    while k < n
        invariant
            k <= n == cards@.len(),
            forall|i: int| 0 <= i < k ==> i + #[trigger] match_counts(cards@)[i] < n,
        decreases n - k,
    {
        let m = get_count_of_matches(&cards[k]);
        if m >= n - k {
            return None;
        }
        k = k + 1;
    }
    let counts = match count_of_total_cards(cards.as_slice()) {
        Some(c) => c,
        None => {
            return None;
        },
    };
    let ghost cs = copies(match_counts(cards@), n as int);
    let mut total: usize = 0;
    let mut i: usize = 0;
    while i < n
        invariant
            i <= n == cards@.len(),
            counts@.len() == n,
            cs == copies(match_counts(cards@), n as int),
            forall|j: int| 0 <= j < n ==> counts@[j] == cs[j],
            total == sum_of(cs, i as int),
        decreases n - i,
    {
        total = match total.checked_add(counts[i]) {
            Some(t) => t,
            None => {
                return None;
            },
        };
        i = i + 1;
    }
    Some(total)
}

} // verus!

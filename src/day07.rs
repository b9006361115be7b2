//! Camel cards: hands of five cards are ranked by type, then card by card;
//! each hand wins its bid times its rank. With jokers, a joker counts as the
//! weakest card but makes the strongest type it can.
use vstd::prelude::*;
use vstd::string::StringSliceAdditionalSpecFns;
use itertools::Itertools;
use crate::text::{all_digits, digits_value, lines, parse_u64, split, split_lines, split_on, views};

verus! {

#[derive(Debug, PartialEq, Eq)]
pub struct Hand {
    pub cards: Vec<u32>,
    pub bid: usize,
}

/// The value of a card byte: `A K Q J T` are 14 to 10 (a joker is 1 when
/// `jokers`), and a digit is its own value.
pub open spec fn card_value(b: u8, jokers: bool) -> Option<u32> {
    if b == 0x41 {
        Some(14)
    } else if b == 0x4b {
        Some(13)
    } else if b == 0x51 {
        Some(12)
    } else if b == 0x4a {
        Some(if jokers {
            1
        } else {
            11
        })
    } else if b == 0x54 {
        Some(10)
    } else if 0x30 <= b <= 0x39 {
        Some((b - 0x30) as u32)
    } else {
        None
    }
}

fn card_value_exec(b: u8, jokers: bool) -> (r: Option<u32>)
    ensures
        r == card_value(b, jokers),
{
    if b == 0x41 {
        Some(14)
    } else if b == 0x4b {
        Some(13)
    } else if b == 0x51 {
        Some(12)
    } else if b == 0x4a {
        Some(
            if jokers {
                1
            } else {
                11
            },
        )
    } else if b == 0x54 {
        Some(10)
    } else if 0x30 <= b && b <= 0x39 {
        Some((b - 0x30) as u32)
    } else {
        None
    }
}

/// A card's value, the jack counting 11.
pub fn convert_to_num_for_part1(character: u8) -> (r: Option<u32>)
    ensures
        r == card_value(character, false),
{
    card_value_exec(character, false)
}

/// A card's value, the joker counting 1.
pub fn convert_to_num_for_part2(character: u8) -> (r: Option<u32>)
    ensures
        r == card_value(character, true),
{
    card_value_exec(character, true)
}

/// The card values of a run of card bytes, if all are cards.
pub open spec fn cards_of(s: Seq<u8>, jokers: bool) -> Option<Seq<u32>> {
    if forall|i: int| 0 <= i < s.len() ==> (#[trigger] card_value(s[i], jokers)) is Some {
        Some(Seq::new(s.len(), |i: int| card_value(s[i], jokers)->0))
    } else {
        None
    }
}

/// A hand line: `<cards> <bid>`.
pub open spec fn hand_of(line: Seq<u8>, jokers: bool) -> Option<(Seq<u32>, usize)> {
    let parts = split(line, 0x20);
    if parts.len() != 2 || !all_digits(parts[1]) || digits_value(parts[1]) > usize::MAX {
        None
    } else {
        match cards_of(parts[0], jokers) {
            Some(c) => Some((c, digits_value(parts[1]) as usize)),
            None => None,
        }
    }
}

fn parse_hand(line: &[u8], jokers: bool) -> (r: Option<Hand>)
    ensures
        r is Some <==> hand_of(line@, jokers) is Some,
        r matches Some(h) ==> hand_of(line@, jokers) == Some((h.cards@, h.bid)),
{
    let parts = split_on(line, 0x20);
    assert(views(parts@).len() == parts@.len());
    if parts.len() != 2 {
        return None;
    }
    assert(parts@[0]@ == split(line@, 0x20)[0]);
    assert(parts@[1]@ == split(line@, 0x20)[1]);
    let bid = match parse_u64(parts[1].as_slice()) {
        Some(b) => {
            if b > usize::MAX as u64 {
                return None;
            }
            b as usize
        },
        None => {
            return None;
        },
    };
    let s = &parts[0];
    let mut cards: Vec<u32> = Vec::new();
    let mut i: usize = 0;
    while i < s.len()
        invariant
            s@ == split(line@, 0x20)[0],
            split(line@, 0x20).len() == 2,
            all_digits(split(line@, 0x20)[1]),
            bid == digits_value(split(line@, 0x20)[1]),
            digits_value(split(line@, 0x20)[1]) <= usize::MAX,
            i <= s@.len(),
            cards@.len() == i,
            forall|j: int| 0 <= j < i ==> card_value(s@[j], jokers) == Some(#[trigger] cards@[j]),
        decreases s@.len() - i,
    {
        match card_value_exec(s[i], jokers) {
            Some(v) => cards.push(v),
            None => {
                assert(card_value(s@[i as int], jokers) is None);
                return None;
            },
        }
        i = i + 1;
    }
    assert(cards@ =~= Seq::new(s@.len(), |j: int| card_value(s@[j], jokers)->0));
    assert forall|j: int| 0 <= j < s@.len() implies (#[trigger] card_value(s@[j], jokers)) is Some by {
        assert(card_value(s@[j], jokers) == Some(cards@[j]));
    }
    assert(cards_of(s@, jokers) == Some(cards@));
    Some(Hand { cards, bid })
}

/// The hands of a text, one per line; `None` if a line is no hand.
pub fn parse_hands(input: &str, jokers: bool) -> (r: Option<Vec<Hand>>)
    ensures
        r is Some <==> forall|i: int|
            0 <= i < lines(input.spec_bytes()).len() ==> hand_of(
                #[trigger] lines(input.spec_bytes())[i],
                jokers,
            ) is Some,
        r matches Some(hs) ==> hs@.len() == lines(input.spec_bytes()).len() && forall|i: int|
            0 <= i < hs@.len() ==> hand_of(#[trigger] lines(input.spec_bytes())[i], jokers)
                == Some((hs@[i].cards@, hs@[i].bid)),
{
    let ls = split_lines(input.as_bytes());
    let ghost ln = lines(input.spec_bytes());
    assert(views(ls@).len() == ls@.len());
    let mut hands: Vec<Hand> = Vec::new();
    let mut i: usize = 0;
    while i < ls.len()
        invariant
            views(ls@) == ln,
            ln == lines(input.spec_bytes()),
            ls@.len() == ln.len(),
            i <= ls@.len(),
            hands@.len() == i,
            forall|j: int|
                0 <= j < i ==> hand_of(#[trigger] ln[j], jokers) == Some(
                    (hands@[j].cards@, hands@[j].bid),
                ),
        decreases ls@.len() - i,
    {
        assert(ls@[i as int]@ == ln[i as int]);
        match parse_hand(ls[i].as_slice(), jokers) {
            Some(h) => hands.push(h),
            None => {
                return None;
            },
        }
        i = i + 1;
    }
    Some(hands)
}

/// How often `v` occurs among the first `k` cards.
pub open spec fn occ(s: Seq<u32>, v: u32, k: int) -> nat
    decreases k,
{
    if k <= 0 {
        0
    } else {
        occ(s, v, k - 1) + if s[k - 1] == v {
            1nat
        } else {
            0nat
        }
    }
}

/// Some card value occurs at least `n` times.
pub open spec fn has_kind(s: Seq<u32>, n: nat) -> bool {
    exists|i: int| 0 <= i < s.len() && occ(s, s[i], s.len() as int) >= n
}

/// A hand's type, from 1 (high card) to 7 (five of a kind): by how many
/// distinct values it holds, and, for three or two, whether one value
/// occurs three or four times.
pub open spec fn hand_type(s: Seq<u32>) -> u32 {
    let d = s.to_set().len();
    if d == 5 {
        1
    } else if d == 4 {
        2
    } else if d == 3 {
        if has_kind(s, 3) {
            4
        } else {
            3
        }
    } else if d == 2 {
        if has_kind(s, 4) {
            6
        } else {
            5
        }
    } else {
        7
    }
}

/// Relies on itertools' `Itertools::unique`, which yields each distinct item
/// once: its count is the number of distinct card values.
#[verifier::external_body]
fn distinct_count(cards: &Vec<u32>) -> (r: usize)
    ensures
        r == cards@.to_set().len(),
{
    cards.iter().unique().count()
}

fn occurrences(cards: &Vec<u32>, v: u32) -> (r: usize)
    ensures
        r == occ(cards@, v, cards@.len() as int),
        r <= cards@.len(),
{
    let mut c: usize = 0;
    let mut i: usize = 0;
    while i < cards.len()
        invariant
            i <= cards@.len(),
            c == occ(cards@, v, i as int),
            c <= i,
        decreases cards@.len() - i,
    {
        if cards[i] == v {
            c = c + 1;
        }
        i = i + 1;
    }
    c
}

/// Whether some card value occurs at least `n` times.
fn has_kind_exec(cards: &Vec<u32>, n: usize) -> (r: bool)
    ensures
        r == has_kind(cards@, n as nat),
{
    let mut i: usize = 0;
    while i < cards.len()
        invariant
            i <= cards@.len(),
            forall|j: int| 0 <= j < i ==> occ(cards@, cards@[j], cards@.len() as int) < n,
        decreases cards@.len() - i,
    {
        if occurrences(cards, cards[i]) >= n {
            return true;
        }
        i = i + 1;
    }
    false
}

/// The type of a hand, from 1 (high card) to 7 (five of a kind).
pub fn get_hand_type(cards: &Vec<u32>) -> (r: u32)
    ensures
        r == hand_type(cards@),
{
    let d = distinct_count(cards);
    if d == 5 {
        1
    } else if d == 4 {
        2
    } else if d == 3 {
        if has_kind_exec(cards, 3) {
            4
        } else {
            3
        }
    } else if d == 2 {
        if has_kind_exec(cards, 4) {
            6
        } else {
            5
        }
    } else {
        7
    }
}

/// The best type a hand can make when its jokers (cards of value 1) may
/// stand for any card.
pub open spec fn joker_type(s: Seq<u32>) -> u32 {
    let j = occ(s, 1, s.len() as int);
    let t = hand_type(s);
    if j == 0 {
        t
    } else if t >= 5 {
        7
    } else if t == 4 {
        6
    } else if t == 3 {
        if j == 1 {
            5
        } else {
            6
        }
    } else if t == 2 {
        4
    } else {
        2
    }
}

/// The type of a hand whose jokers make the best type they can.
pub fn get_hand_type_with_jokers(cards: &Vec<u32>) -> (r: u32)
    ensures
        r == joker_type(cards@),
{
    let j = occurrences(cards, 1);
    let t = get_hand_type(cards);
    if j == 0 {
        t
    } else if t >= 5 {
        7
    } else if t == 4 {
        6
    } else if t == 3 {
        if j == 1 {
            5
        } else {
            6
        }
    } else if t == 2 {
        4
    } else {
        2
    }
}

/// `a` comes before `b` card by card from index `k` on.
pub open spec fn lex_less(a: Seq<u32>, b: Seq<u32>, k: int) -> bool
    decreases a.len() - k,
{
    if k >= a.len() || k >= b.len() {
        a.len() < b.len() && k >= a.len()
    } else if a[k] < b[k] {
        true
    } else if a[k] > b[k] {
        false
    } else {
        lex_less(a, b, k + 1)
    }
}

/// Hand `a` is weaker than hand `b`: a lower type, or the same type and
/// lower cards, compared card by card.
pub open spec fn weaker(a: Seq<u32>, b: Seq<u32>) -> bool {
    joker_type(a) < joker_type(b) || (joker_type(a) == joker_type(b) && lex_less(a, b, 0))
}

/// Among the first `k` hands, how many rank below hand `i` in a stable sort:
/// the weaker ones, and the equal ones before it.
pub open spec fn below(hs: Seq<Seq<u32>>, i: int, k: int) -> nat
    decreases k,
{
    if k <= 0 {
        0
    } else {
        below(hs, i, k - 1) + if weaker(hs[k - 1], hs[i]) || (k - 1 < i && hs[k - 1] == hs[i]) {
            1nat
        } else {
            0nat
        }
    }
}

/// The winnings of the first `k` hands: each bid times its rank.
pub open spec fn winnings(hs: Seq<Seq<u32>>, bids: Seq<usize>, k: int) -> int
    decreases k,
{
    if k <= 0 {
        0
    } else {
        winnings(hs, bids, k - 1) + (below(hs, k - 1, hs.len() as int) + 1) * bids[k - 1]
    }
}

fn lex_less_exec(a: &Vec<u32>, b: &Vec<u32>) -> (r: bool)
    ensures
        r == lex_less(a@, b@, 0),
{
    let mut k: usize = 0;
    while k < a.len() && k < b.len() && a[k] == b[k]
        invariant
            k <= a@.len(),
            k <= b@.len(),
            lex_less(a@, b@, 0) == lex_less(a@, b@, k as int),
        decreases a@.len() - k,
    {
        k = k + 1;
    }
    if k >= a.len() || k >= b.len() {
        a.len() < b.len() && k >= a.len()
    } else {
        a[k] < b[k]
    }
}

fn same_cards(a: &Vec<u32>, b: &Vec<u32>) -> (r: bool)
    ensures
        r == (a@ == b@),
{
    if a.len() != b.len() {
        return false;
    }
    let mut k: usize = 0;
    while k < a.len()
        invariant
            k <= a@.len(),
            a@.len() == b@.len(),
            forall|j: int| 0 <= j < k ==> a@[j] == b@[j],
        decreases a@.len() - k,
    {
        if a[k] != b[k] {
            return false;
        }
        k = k + 1;
    }
    assert(a@ =~= b@);
    true
}

pub open spec fn card_seqs(hs: Seq<Hand>) -> Seq<Seq<u32>> {
    hs.map_values(|h: Hand| h.cards@)
}

pub open spec fn bids(hs: Seq<Hand>) -> Seq<usize> {
    hs.map_values(|h: Hand| h.bid)
}

/// The total winnings of the hands of a text; `None` if a line is no hand or
/// the total exceeds the word size.
fn total_winnings(input: &str, jokers: bool) -> (r: Option<usize>)
    ensures
        r matches Some(v) ==> exists|hs: Seq<Hand>|
            #[trigger] hs.len() == lines(input.spec_bytes()).len() && (forall|i: int|
                0 <= i < hs.len() ==> hand_of(#[trigger] lines(input.spec_bytes())[i], jokers)
                    == Some((hs[i].cards@, hs[i].bid))) && v == winnings(
                card_seqs(hs),
                bids(hs),
                hs.len() as int,
            ),
{
    let hands = match parse_hands(input, jokers) {
        Some(h) => h,
        None => {
            return None;
        },
    };
    let n = hands.len();
    let ghost cs = card_seqs(hands@);
    let ghost bs = bids(hands@);
    let mut types: Vec<u32> = Vec::new();
    let mut i: usize = 0;
    while i < n
        invariant
            n == hands@.len(),
            i <= n,
            types@.len() == i,
            forall|j: int| 0 <= j < i ==> types@[j] == joker_type(#[trigger] hands@[j].cards@),
        decreases n - i,
    {
        types.push(get_hand_type_with_jokers(&hands[i].cards));
        i = i + 1;
    }
    let mut total: usize = 0;
    let mut i: usize = 0;
    while i < n
        invariant
            n == hands@.len(),
            cs == card_seqs(hands@),
            bs == bids(hands@),
            cs.len() == n,
            types@.len() == n,
            forall|j: int| 0 <= j < n ==> types@[j] == joker_type(#[trigger] hands@[j].cards@),
            i <= n,
            total == winnings(cs, bs, i as int),
        decreases n - i,
    {
        let mut rank: usize = 0;
        let mut k: usize = 0;
        while k < n
            invariant
                n == hands@.len(),
                cs == card_seqs(hands@),
                cs.len() == n,
                types@.len() == n,
                forall|j: int| 0 <= j < n ==> types@[j] == joker_type(#[trigger] hands@[j].cards@),
                i < n,
                k <= n,
                rank == below(cs, i as int, k as int),
                rank <= k,
            decreases n - k,
        {
            assert(cs[k as int] == hands@[k as int].cards@);
            assert(cs[i as int] == hands@[i as int].cards@);
            let w = types[k] < types[i] || (types[k] == types[i] && lex_less_exec(
                &hands[k].cards,
                &hands[i].cards,
            ));
            if w || (k < i && same_cards(&hands[k].cards, &hands[i].cards)) {
                rank = rank + 1;
            }
            k = k + 1;
        }
        assert(bs[i as int] == hands@[i as int].bid);
        let place = match rank.checked_add(1) {
            Some(p) => p,
            None => {
                return None;
            },
        };
        let gain = match place.checked_mul(hands[i].bid) {
            Some(g) => g,
            None => {
                return None;
            },
        };
        total = match total.checked_add(gain) {
            Some(t) => t,
            None => {
                return None;
            },
        };
        i = i + 1;
    }
    Some(total)
}

/// The total winnings, the jack counting 11.
pub fn solve_1(input: &str) -> (r: Option<usize>)
    ensures
        r matches Some(v) ==> exists|hs: Seq<Hand>|
            #[trigger] hs.len() == lines(input.spec_bytes()).len() && (forall|i: int|
                0 <= i < hs.len() ==> hand_of(#[trigger] lines(input.spec_bytes())[i], false)
                    == Some((hs[i].cards@, hs[i].bid))) && v == winnings(
                card_seqs(hs),
                bids(hs),
                hs.len() as int,
            ),
{
    total_winnings(input, false)
}

/// The total winnings, the joker counting 1 and making the best type.
pub fn solve_2(input: &str) -> (r: Option<usize>)
    ensures
        r matches Some(v) ==> exists|hs: Seq<Hand>|
            #[trigger] hs.len() == lines(input.spec_bytes()).len() && (forall|i: int|
                0 <= i < hs.len() ==> hand_of(#[trigger] lines(input.spec_bytes())[i], true)
                    == Some((hs[i].cards@, hs[i].bid))) && v == winnings(
                card_seqs(hs),
                bids(hs),
                hs.len() as int,
            ),
{
    total_winnings(input, true)
}

} // verus!

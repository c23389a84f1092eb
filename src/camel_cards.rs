use vstd::prelude::*;

use std::cmp::Ordering;

verus! {

/// A hand of five cards, each given by its strength. `orig_cards` keeps the order
/// in which the cards were dealt once `cards` has been sorted.
#[derive(Debug, Clone, Copy)]
pub struct Hand {
    pub cards: (i64, i64, i64, i64, i64),
    pub orig_cards: Option<(i64, i64, i64, i64, i64)>,
}

pub open spec fn card_seq(c: (i64, i64, i64, i64, i64)) -> Seq<i64> {
    seq![c.0, c.1, c.2, c.3, c.4]
}

/// The strength of a card label; the joker counts one.
pub open spec fn card_value(c: char) -> Option<i64> {
    if c == 'A' {
        Some(14)
    } else if c == 'K' {
        Some(13)
    } else if c == 'Q' {
        Some(12)
    } else if c == 'J' {
        Some(1)
    } else if c == 'T' {
        Some(10)
    } else if '0' <= c && c <= '9' {
        Some((c as u32 - '0' as u32) as i64)
    } else {
        None
    }
}

pub fn parse(card: char) -> (r: Option<i64>)
    ensures
        r == card_value(card),
{
    match card {
        'A' => Some(14),
        'K' => Some(13),
        'Q' => Some(12),
        'J' => Some(1),
        'T' => Some(10),
        '0'..='9' => Some((card as u32 - '0' as u32) as i64),
        _ => None,
    }
}

/// The card before position `n` that is the last one in group `g`, zero if none.
pub open spec fn last_in_group(cs: Seq<i64>, ms: Seq<i64>, n: int, g: i64) -> i64
    decreases n,
{
    if n <= 0 {
        0
    } else if ms[n - 1] == g {
        cs[n - 1]
    } else {
        last_in_group(cs, ms, n - 1, g)
    }
}

/// Each card marked with a group in `ms` equals the card before it in the same
/// group, where that one is not zero.
pub open spec fn groups_agree(cs: Seq<i64>, ms: Seq<i64>) -> bool {
    forall|j: int|
        0 <= j < 5 && ms[j] != 0 ==> (#[trigger] last_in_group(cs, ms, j, ms[j]) == 0
            || last_in_group(cs, ms, j, ms[j]) == cs[j])
}

pub open spec fn agrees(c: (i64, i64, i64, i64, i64), m: Seq<i64>) -> bool {
    groups_agree(card_seq(c), m)
}

/// Whether the cards in each group of `mask` (one or two; zero is no group) agree.
pub fn ch_eq(cards: &(i64, i64, i64, i64, i64), mask: [i64; 5]) -> (r: bool)
    requires
        forall|j: int| 0 <= j < 5 ==> 0 <= #[trigger] mask@[j] <= 2,
    ensures
        r == groups_agree(card_seq(*cards), mask@),
{
    let ghost cs = card_seq(*cards);
    let ghost ms = mask@;
    let row = [cards.0, cards.1, cards.2, cards.3, cards.4];
    assert(row@ =~= cs);
    let mut ch1: i64 = 0;
    let mut ch2: i64 = 0;
    let mut j: usize = 0;
    while j < 5
        invariant
            row@ == cs,
            cs == card_seq(*cards),
            mask@ == ms,
            cs.len() == 5,
            ms.len() == 5,
            forall|k: int| 0 <= k < 5 ==> 0 <= #[trigger] ms[k] <= 2,
            j <= 5,
            ch1 == last_in_group(cs, ms, j as int, 1),
            ch2 == last_in_group(cs, ms, j as int, 2),
            forall|k: int|
                0 <= k < j && ms[k] != 0 ==> (#[trigger] last_in_group(cs, ms, k, ms[k]) == 0
                    || last_in_group(cs, ms, k, ms[k]) == cs[k]),
        decreases 5 - j,
    {
        let m = mask[j];
        let c = row[j];
        if m != 0 {
            let prev = if m == 1 {
                ch1
            } else {
                ch2
            };
            if prev != 0 && prev != c {
                assert(last_in_group(cs, ms, j as int, ms[j as int]) == prev);
                assert(c == cs[j as int]);
                assert(!(last_in_group(cs, ms, j as int, ms[j as int]) == 0 || last_in_group(
                    cs,
                    ms,
                    j as int,
                    ms[j as int],
                ) == cs[j as int]));
                assert(!groups_agree(cs, ms));
                return false;
            }
            if m == 1 {
                ch1 = c;
            } else {
                ch2 = c;
            }
        }
        j += 1;
    }
    true
}

pub open spec fn five_of_a_kind(c: (i64, i64, i64, i64, i64)) -> bool {
    agrees(c, seq![1, 1, 1, 1, 1])
}

pub open spec fn four_of_a_kind(c: (i64, i64, i64, i64, i64)) -> bool {
    agrees(c, seq![1, 1, 1, 1, 0]) || agrees(c, seq![0, 1, 1, 1, 1])
}

pub open spec fn full_house(c: (i64, i64, i64, i64, i64)) -> bool {
    agrees(c, seq![1, 1, 1, 2, 2]) || agrees(c, seq![2, 2, 1, 1, 1])
}

pub open spec fn three_of_a_kind(c: (i64, i64, i64, i64, i64)) -> bool {
    agrees(c, seq![1, 1, 1, 0, 0]) || agrees(c, seq![0, 1, 1, 1, 0]) || agrees(
        c,
        seq![0, 0, 1, 1, 1],
    )
}

pub open spec fn two_pair(c: (i64, i64, i64, i64, i64)) -> bool {
    ||| agrees(c, seq![1, 1, 2, 2, 0])
    ||| agrees(c, seq![1, 1, 0, 2, 2])
    ||| agrees(c, seq![0, 1, 1, 2, 2])
    ||| agrees(c, seq![2, 2, 1, 1, 0])
    ||| agrees(c, seq![2, 2, 0, 1, 1])
    ||| agrees(c, seq![0, 2, 2, 1, 1])
}

pub open spec fn one_pair(c: (i64, i64, i64, i64, i64)) -> bool {
    ||| agrees(c, seq![1, 1, 0, 0, 0])
    ||| agrees(c, seq![0, 1, 1, 0, 0])
    ||| agrees(c, seq![0, 0, 1, 1, 0])
    ||| agrees(c, seq![0, 0, 0, 1, 1])
}

/// The rank of a hand's kind, from six for five of a kind down to zero for a high
/// card; the patterns assume sorted cards.
pub open spec fn kind_of(c: (i64, i64, i64, i64, i64)) -> i64 {
    if five_of_a_kind(c) {
        6
    } else if four_of_a_kind(c) {
        5
    } else if full_house(c) {
        4
    } else if three_of_a_kind(c) {
        3
    } else if two_pair(c) {
        2
    } else if one_pair(c) {
        1
    } else {
        0
    }
}

fn matches_mask(cards: &(i64, i64, i64, i64, i64), a: i64, b: i64, c: i64, d: i64, e: i64) -> (r:
    bool)
    requires
        0 <= a <= 2,
        0 <= b <= 2,
        0 <= c <= 2,
        0 <= d <= 2,
        0 <= e <= 2,
    ensures
        r == agrees(*cards, seq![a, b, c, d, e]),
{
    let mask = [a, b, c, d, e];
    assert(mask@ =~= seq![a, b, c, d, e]);
    ch_eq(cards, mask)
}

/// Number of cards in the hand equal to `v`.
pub open spec fn count_of(c: (i64, i64, i64, i64, i64), v: i64) -> int {
    (if c.0 == v { 1int } else { 0 }) + (if c.1 == v { 1int } else { 0 }) + (if c.2 == v {
        1int
    } else {
        0
    }) + (if c.3 == v { 1int } else { 0 }) + (if c.4 == v { 1int } else { 0 })
}

pub open spec fn sorted5(c: (i64, i64, i64, i64, i64)) -> bool {
    c.0 <= c.1 <= c.2 <= c.3 <= c.4
}

fn order2(a: i64, b: i64) -> (r: (i64, i64))
    ensures
        r.0 <= r.1,
        (r.0 == a && r.1 == b) || (r.0 == b && r.1 == a),
{
    if a <= b {
        (a, b)
    } else {
        (b, a)
    }
}

/// The first position from `k` on where `a` and `b` differ decides; equal otherwise.
pub open spec fn lex_from(a: Seq<i64>, b: Seq<i64>, k: int) -> Ordering
    decreases 5 - k,
{
    if k >= 5 || k < 0 {
        Ordering::Equal
    } else if a[k] < b[k] {
        Ordering::Less
    } else if a[k] > b[k] {
        Ordering::Greater
    } else {
        lex_from(a, b, k + 1)
    }
}

/// Compares two rows of five values: the first position where they differ decides.
pub fn partial_cmp(a: [i64; 5], b: [i64; 5]) -> (r: Option<Ordering>)
    ensures
        r == Some(lex_from(a@, b@, 0)),
{
    let mut k: usize = 0;
    while k < 5
        invariant
            k <= 5,
            lex_from(a@, b@, 0) == lex_from(a@, b@, k as int),
        decreases 5 - k,
    {
        if a[k] < b[k] {
            return Some(Ordering::Less);
        } else if a[k] > b[k] {
            return Some(Ordering::Greater);
        }
        k += 1;
    }
    Some(Ordering::Equal)
}

/// How two hands order: by kind, then by the cards as dealt; undecided where the
/// kinds tie and a hand has not kept its dealt order.
pub open spec fn hand_order(a: Hand, b: Hand) -> Option<Ordering> {
    if kind_of(a.cards) < kind_of(b.cards) {
        Some(Ordering::Less)
    } else if kind_of(a.cards) > kind_of(b.cards) {
        Some(Ordering::Greater)
    } else {
        match (a.orig_cards, b.orig_cards) {
            (Some(x), Some(y)) => Some(lex_from(card_seq(x), card_seq(y), 0)),
            _ => None,
        }
    }
}

impl Hand {
    pub fn is_5_of_a_kind(cards: &(i64, i64, i64, i64, i64)) -> (r: bool)
        ensures
            r == five_of_a_kind(*cards),
    {
        matches_mask(cards, 1, 1, 1, 1, 1)
    }

    pub fn is_4_of_a_kind(cards: &(i64, i64, i64, i64, i64)) -> (r: bool)
        ensures
            r == four_of_a_kind(*cards),
    {
        matches_mask(cards, 1, 1, 1, 1, 0) || matches_mask(cards, 0, 1, 1, 1, 1)
    }

    pub fn is_full_house(cards: &(i64, i64, i64, i64, i64)) -> (r: bool)
        ensures
            r == full_house(*cards),
    {
        matches_mask(cards, 1, 1, 1, 2, 2) || matches_mask(cards, 2, 2, 1, 1, 1)
    }

    pub fn is_3_of_a_kind(cards: &(i64, i64, i64, i64, i64)) -> (r: bool)
        ensures
            r == three_of_a_kind(*cards),
    {
        matches_mask(cards, 1, 1, 1, 0, 0) || matches_mask(cards, 0, 1, 1, 1, 0) || matches_mask(
            cards,
            0,
            0,
            1,
            1,
            1,
        )
    }

    pub fn is_2_pair(cards: &(i64, i64, i64, i64, i64)) -> (r: bool)
        ensures
            r == two_pair(*cards),
    {
        matches_mask(cards, 1, 1, 2, 2, 0) || matches_mask(cards, 1, 1, 0, 2, 2) || matches_mask(
            cards,
            0,
            1,
            1,
            2,
            2,
        ) || matches_mask(cards, 2, 2, 1, 1, 0) || matches_mask(cards, 2, 2, 0, 1, 1)
            || matches_mask(cards, 0, 2, 2, 1, 1)
    }

    pub fn is_1_pair(cards: &(i64, i64, i64, i64, i64)) -> (r: bool)
        ensures
            r == one_pair(*cards),
    {
        matches_mask(cards, 1, 1, 0, 0, 0) || matches_mask(cards, 0, 1, 1, 0, 0) || matches_mask(
            cards,
            0,
            0,
            1,
            1,
            0,
        ) || matches_mask(cards, 0, 0, 0, 1, 1)
    }

    pub fn hand_type(&self) -> (r: i64)
        ensures
            r == kind_of(self.cards),
    {
        let cards = self.cards;
        if Hand::is_5_of_a_kind(&cards) {
            6
        } else if Hand::is_4_of_a_kind(&cards) {
            5
        } else if Hand::is_full_house(&cards) {
            4
        } else if Hand::is_3_of_a_kind(&cards) {
            3
        } else if Hand::is_2_pair(&cards) {
            2
        } else if Hand::is_1_pair(&cards) {
            1
        } else {
            0
        }
    }

    /// Sorts the cards in ascending order, keeping the dealt order the first time.
    pub fn sort(&mut self)
        ensures
            final(self).orig_cards == (if old(self).orig_cards is None {
                Some(old(self).cards)
            } else {
                old(self).orig_cards
            }),
            sorted5(final(self).cards),
            forall|v: i64| count_of(final(self).cards, v) == count_of(old(self).cards, v),
    {
        if self.orig_cards.is_none() {
            self.orig_cards = Some(self.cards);
        }
        let (c0, c1, c2, c3, c4) = self.cards;
        let (c0, c1) = order2(c0, c1);
        let (c3, c4) = order2(c3, c4);
        let (c2, c4) = order2(c2, c4);
        let (c2, c3) = order2(c2, c3);
        let (c0, c3) = order2(c0, c3);
        let (c0, c2) = order2(c0, c2);
        let (c1, c4) = order2(c1, c4);
        let (c1, c3) = order2(c1, c3);
        let (c1, c2) = order2(c1, c2);
        self.cards = (c0, c1, c2, c3, c4);
    }

    /// Orders hands by kind, then by the cards as dealt.
    pub fn partial_cmp(&self, other: &Hand) -> (r: Option<Ordering>)
        ensures
            r == hand_order(*self, *other),
    {
        let self_type = self.hand_type();
        let other_type = other.hand_type();
        if self_type < other_type {
            return Some(Ordering::Less);
        } else if self_type > other_type {
            return Some(Ordering::Greater);
        }
        match (self.orig_cards, other.orig_cards) {
            (Some(a), Some(b)) => {
                let r = partial_cmp([a.0, a.1, a.2, a.3, a.4], [b.0, b.1, b.2, b.3, b.4]);
                proof {
                    assert([a.0, a.1, a.2, a.3, a.4]@ =~= card_seq(a));
                    assert([b.0, b.1, b.2, b.3, b.4]@ =~= card_seq(b));
                }
                r
            },
            _ => None,
        }
    }
}

/// Hand `a` ranks below hand `b`.
pub open spec fn ranks_below(a: Hand, b: Hand) -> bool {
    hand_order(a, b) == Some(Ordering::Less)
}

pub open spec fn ranks_equal(a: Hand, b: Hand) -> bool {
    hand_order(a, b) == Some(Ordering::Equal)
}

/// How many of the first `n` hands rank below hand `i`, or tie with it and were
/// dealt before it.
pub open spec fn below_count(hs: Seq<(Hand, i64)>, i: int, n: int) -> int
    decreases n,
{
    if n <= 0 {
        0
    } else {
        below_count(hs, i, n - 1) + if ranks_below(hs[n - 1].0, hs[i].0) || (n - 1 < i && ranks_equal(
            hs[n - 1].0,
            hs[i].0,
        )) {
            1int
        } else {
            0int
        }
    }
}

/// The rank of hand `i` in the ordered list, counting from one.
pub open spec fn rank_of(hs: Seq<(Hand, i64)>, i: int) -> int {
    1 + below_count(hs, i, hs.len() as int)
}

/// The sum over the first `n` hands of bid times rank.
pub open spec fn winnings(hs: Seq<(Hand, i64)>, n: int) -> int
    decreases n,
{
    if n <= 0 {
        0
    } else {
        winnings(hs, n - 1) + rank_of(hs, n - 1) * hs[n - 1].1
    }
}

/// Every hand keeps its dealt order, so any two can be ordered.
pub open spec fn all_dealt(hs: Seq<(Hand, i64)>) -> bool {
    forall|i: int| 0 <= i < hs.len() ==> (#[trigger] hs[i]).0.orig_cards is Some
}

proof fn lemma_below_bound(hs: Seq<(Hand, i64)>, i: int, n: int)
    requires
        0 <= n,
    ensures
        0 <= below_count(hs, i, n) <= n,
    decreases n,
{
    if n > 0 {
        lemma_below_bound(hs, i, n - 1);
    }
}

/// The total winnings: each bid times the rank of its hand, the weakest hand
/// ranking one and ties going by the order in which the hands were dealt. `None`
/// where the total leaves `i64` or a hand has lost its dealt order.
pub fn total_winnings(hands_bids: &Vec<(Hand, i64)>) -> (r: Option<i64>)
    requires
        hands_bids@.len() <= u32::MAX,
    ensures
        r matches Some(t) ==> t == winnings(hands_bids@, hands_bids@.len() as int),
        all_dealt(hands_bids@) && i64::MIN <= winnings(hands_bids@, hands_bids@.len() as int)
            <= i64::MAX ==> r is Some,
{
    let n = hands_bids.len();
    let mut acc: i128 = 0;
    let mut i: usize = 0;
    while i < n
        invariant
            n == hands_bids@.len(),
            n <= u32::MAX,
            i <= n,
            acc == winnings(hands_bids@, i as int),
            -(i as int) * 0x8000_0000_0000_0000_0000_0000 <= acc <= (i as int)
                * 0x8000_0000_0000_0000_0000_0000,
        decreases n - i,
    {
        let hi = hands_bids[i].0;
        let mut below: u64 = 0;
        let mut j: usize = 0;
        while j < n
            invariant
                n == hands_bids@.len(),
                i < n,
                j <= n,
                hi == hands_bids@[i as int].0,
                below == below_count(hands_bids@, i as int, j as int),
                below <= j,
            decreases n - j,
        {
            let o = hands_bids[j].0.partial_cmp(&hi);
            match o {
                Some(Ordering::Less) => {
                    below += 1;
                },
                Some(Ordering::Equal) => {
                    if j < i {
                        below += 1;
                    }
                },
                Some(Ordering::Greater) => {},
                None => {
                    return None;
                },
            }
            j += 1;
        }
        let rank = below as i128 + 1;
        let bid = hands_bids[i].1 as i128;
        proof {
            lemma_below_bound(hands_bids@, i as int, n as int);
            assert(-(n as int + 1) * 0x8000_0000_0000_0000 <= rank * bid <= (n as int + 1)
                * 0x8000_0000_0000_0000) by (nonlinear_arith)
                requires
                    1 <= rank <= n + 1,
                    -0x8000_0000_0000_0000 <= bid < 0x8000_0000_0000_0000,
            ;
            assert((n as int + 1) * 0x8000_0000_0000_0000 <= 0x8000_0000_0000_0000_0000_0000) by (
            nonlinear_arith)
                requires
                    n <= 0xffff_ffff,
            ;
        }
        acc = acc + rank * bid;
        i += 1;
    }
    if acc < i64::MIN as i128 || acc > i64::MAX as i128 {
        None
    } else {
        Some(acc as i64)
    }
}

} // verus!

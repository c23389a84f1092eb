use vstd::prelude::*;

verus! {

/// A scratchcard: its number, the winning numbers and the numbers it has. Each list
/// stands for the set of values in it.
#[derive(Debug)]
pub struct Card {
    pub num_card: i64,
    pub winning_numbers: Vec<i64>,
    pub have_numbers: Vec<i64>,
}

/// The copies held of one card.
#[derive(Debug)]
pub struct CardPile {
    pub cards: Vec<Card>,
}

/// The values that are both winning numbers and numbers the card has.
pub open spec fn common_numbers(c: Card) -> Set<i64> {
    c.winning_numbers@.to_set().intersect(c.have_numbers@.to_set())
}

/// `a` holds the same values as `b`.
pub open spec fn same_card(a: Card, b: Card) -> bool {
    &&& a.num_card == b.num_card
    &&& a.winning_numbers@ == b.winning_numbers@
    &&& a.have_numbers@ == b.have_numbers@
}

/// Whether `i` is among the piles that a card with `n` matches adds a copy to.
pub open spec fn wins_copy(num_card: i64, n: int, i: int) -> bool {
    num_card >= 0 && num_card <= i < num_card + n
}

fn copy_numbers(v: &Vec<i64>) -> (r: Vec<i64>)
    ensures
        r@ == v@,
{
    let mut r: Vec<i64> = Vec::new();
    let mut i: usize = 0;
    while i < v.len()
        invariant
            i <= v@.len(),
            r@ == v@.subrange(0, i as int),
        decreases v@.len() - i,
    {
        r.push(v[i]);
        i += 1;
    }
    assert(r@ =~= v@);
    r
}

fn has_number(v: &Vec<i64>, x: i64) -> (r: bool)
    ensures
        r == v@.contains(x),
{
    let mut i: usize = 0;
    while i < v.len()
        invariant
            i <= v@.len(),
            forall|j: int| 0 <= j < i ==> v@[j] != x,
        decreases v@.len() - i,
    {
        if v[i] == x {
            assert(v@[i as int] == x);
            return true;
        }
        i += 1;
    }
    false
}

fn has_number_before(v: &Vec<i64>, n: usize, x: i64) -> (r: bool)
    requires
        n <= v@.len(),
    ensures
        r == v@.subrange(0, n as int).contains(x),
{
    let mut i: usize = 0;
    while i < n
        invariant
            n <= v@.len(),
            i <= n,
            forall|j: int| 0 <= j < i ==> v@[j] != x,
        decreases n - i,
    {
        if v[i] == x {
            assert(v@.subrange(0, n as int)[i as int] == x);
            return true;
        }
        i += 1;
    }
    assert forall|j: int| 0 <= j < n implies v@.subrange(0, n as int)[j] != x by {}
    false
}

impl Card {
    /// A card holding the same numbers.
    pub fn duplicate(&self) -> (r: Card)
        ensures
            same_card(r, *self),
    {
        Card {
            num_card: self.num_card,
            winning_numbers: copy_numbers(&self.winning_numbers),
            have_numbers: copy_numbers(&self.have_numbers),
        }
    }

    /// How many distinct winning numbers the card has.
    pub fn num_winning_numbers(&self) -> (r: usize)
        ensures
            r == common_numbers(*self).len(),
    {
        broadcast use {vstd::set::group_set_axioms, vstd::seq_lib::seq_to_set_is_finite};

        let ghost w = self.winning_numbers@;
        let ghost h = self.have_numbers@.to_set();
        let mut count: usize = 0;
        let mut i: usize = 0;
        assert(w.subrange(0, 0).to_set().intersect(h) =~= Set::empty());
        while i < self.winning_numbers.len()
            invariant
                w == self.winning_numbers@,
                h == self.have_numbers@.to_set(),
                i <= w.len(),
                count == w.subrange(0, i as int).to_set().intersect(h).len(),
                count <= i,
            decreases w.len() - i,
        {
            let x = self.winning_numbers[i];
            let fresh = !has_number_before(&self.winning_numbers, i, x);
            let held = has_number(&self.have_numbers, x);
            proof {
                let before = w.subrange(0, i as int).to_set();
                let after = w.subrange(0, i + 1).to_set();
                assert(after =~= before.insert(x)) by {
                    assert forall|y: i64| after.contains(y) <==> before.insert(x).contains(y) by {
                        if after.contains(y) {
                            let j = choose|j: int| 0 <= j < i + 1 && #[trigger] w.subrange(0, i + 1)[j] == y;
                            if j < i {
                                assert(w.subrange(0, i as int)[j] == y);
                            }
                        }
                        if before.contains(y) {
                            let j = choose|j: int| 0 <= j < i && #[trigger] w.subrange(0, i as int)[j] == y;
                            assert(w.subrange(0, i + 1)[j] == y);
                        }
                        if y == x {
                            assert(w.subrange(0, i + 1)[i as int] == y);
                        }
                    }
                }
                if fresh && held {
                    assert(after.intersect(h) =~= before.intersect(h).insert(x));
                    assert(!before.intersect(h).contains(x));
                } else {
                    assert(after.intersect(h) =~= before.intersect(h));
                }
            }
            if fresh && held {
                count += 1;
            }
            i += 1;
        }
        assert(w.subrange(0, w.len() as int) =~= w);
        count
    }

    /// Adds one copy of the card held on top of each of the next `n` piles, where
    /// `n` is the number of winning numbers of this card; piles past the end are
    /// not there to win.
    pub fn eval(&self, cards: &mut std::collections::VecDeque<CardPile>)
        requires
            forall|i: int| 0 <= i < old(cards)@.len() ==> #[trigger] old(cards)@[i].cards@.len() > 0,
        ensures
            final(cards)@.len() == old(cards)@.len(),
            forall|i: int|
                0 <= i < old(cards)@.len() && !wins_copy(
                    self.num_card,
                    common_numbers(*self).len() as int,
                    i,
                ) ==> #[trigger] final(cards)@[i] == old(cards)@[i],
            forall|i: int|
                0 <= i < old(cards)@.len() && wins_copy(
                    self.num_card,
                    common_numbers(*self).len() as int,
                    i,
                ) ==> {
                    let before = old(cards)@[i].cards@;
                    let after = #[trigger] final(cards)@[i].cards@;
                    &&& after.len() == before.len() + 1
                    &&& after.subrange(0, before.len() as int) == before
                    &&& same_card(after[before.len() as int], before[before.len() - 1])
                },
    {
        let n = self.num_winning_numbers();
        let ghost nn = n as int;
        let len = cards.len();
        if self.num_card < 0 || self.num_card as u64 > usize::MAX as u64 {
            assert(len <= usize::MAX);
            return;
        }
        let idx_init = self.num_card as usize;
        let mut idx = idx_init;
        while idx < cards.len() && idx - idx_init < n
            invariant
                idx_init == self.num_card,
                nn == common_numbers(*self).len(),
                n == nn,
                idx_init <= idx,
                cards@.len() == old(cards)@.len(),
                forall|i: int| 0 <= i < cards@.len() ==> #[trigger] old(cards)@[i].cards@.len() > 0,
                forall|i: int|
                    0 <= i < cards@.len() && !(idx_init <= i < idx) ==> #[trigger] cards@[i]
                        == old(cards)@[i],
                idx - idx_init <= n,
                idx == idx_init || idx <= cards@.len(),
                forall|i: int|
                    0 <= i < cards@.len() && idx_init <= i < idx ==> {
                        let before = old(cards)@[i].cards@;
                        let after = #[trigger] cards@[i].cards@;
                        &&& after.len() == before.len() + 1
                        &&& after.subrange(0, before.len() as int) == before
                        &&& same_card(after[before.len() as int], before[before.len() - 1])
                    },
            decreases cards@.len() - idx,
        {
            let ghost prev = cards@;
            match cards.remove(idx) {
                Some(mut pile) => {
                    let last = pile.cards.len() - 1;
                    let copy = pile.cards[last].duplicate();
                    let ghost before = pile.cards@;
                    pile.cards.push(copy);
                    proof {
                        assert(pile.cards@.subrange(0, before.len() as int) =~= before);
                    }
                    cards.insert(idx, pile);
                    proof {
                        assert forall|i: int| 0 <= i < cards@.len() && i != idx implies #[trigger] cards@[i]
                            == prev[i] by {}
                    }
                },
                None => {},
            }
            idx += 1;
        }
    }
}

/// The points a card with `n` distinct winning numbers is worth: one for the
/// first, doubled for each further one.
pub open spec fn points_for(n: nat) -> int
    decreases n,
{
    if n == 0 {
        0
    } else if n == 1 {
        1
    } else {
        2 * points_for((n - 1) as nat)
    }
}

/// The points a card with `n` distinct winning numbers is worth, where they fit.
pub fn card_points(n: u32) -> (r: Option<i64>)
    ensures
        points_for(n as nat) <= i64::MAX ==> r == Some(points_for(n as nat) as i64),
        points_for(n as nat) > i64::MAX ==> r is None,
{
    if n == 0 {
        return Some(0);
    }
    let mut p: i64 = 1;
    let mut k: u32 = 1;
    while k < n
        invariant
            1 <= k <= n,
            p == points_for(k as nat),
            p >= 1,
        decreases n - k,
    {
        if p > i64::MAX / 2 {
            proof {
                lemma_points_grow(k as nat, n as nat);
            }
            return None;
        }
        p = 2 * p;
        k += 1;
    }
    Some(p)
}

proof fn lemma_points_grow(k: nat, n: nat)
    requires
        1 <= k < n,
        points_for(k) > i64::MAX / 2,
    ensures
        points_for(n) > i64::MAX,
    decreases n - k,
{
    if k + 1 < n {
        lemma_points_positive(k);
        lemma_points_grow(k + 1, n);
    }
}

proof fn lemma_points_positive(k: nat)
    requires
        k >= 1,
    ensures
        points_for(k) >= 1,
    decreases k,
{
    if k > 1 {
        lemma_points_positive((k - 1) as nat);
    }
}

/// The size of pile `j` once the piles before `i` have been played: each starts
/// with one card, and playing pile `q` adds as many copies as it holds to every
/// pile that its card wins.
pub open spec fn pile_size(cards: Seq<Card>, i: int, j: int) -> int
    decreases i,
{
    if i <= 0 {
        1
    } else {
        let q = i - 1;
        pile_size(cards, q, j) + if wins_copy(cards[q].num_card, common_numbers(cards[q]).len() as int, j) {
            pile_size(cards, q, q)
        } else {
            0
        }
    }
}

/// The cards held once every pile before `n` has been played, counted as each
/// pile is reached.
pub open spec fn cards_total(cards: Seq<Card>, n: int) -> int
    decreases n,
{
    if n <= 0 {
        0
    } else {
        cards_total(cards, n - 1) + pile_size(cards, n - 1, n - 1)
    }
}

proof fn lemma_pile_size_pos(cards: Seq<Card>, i: int, j: int)
    ensures
        pile_size(cards, i, j) >= 1,
    decreases i,
{
    if i > 0 {
        lemma_pile_size_pos(cards, i - 1, j);
        lemma_pile_size_pos(cards, i - 1, i - 1);
    }
}

proof fn lemma_total_grows(cards: Seq<Card>, i: int, n: int)
    requires
        0 <= i <= n,
    ensures
        cards_total(cards, i) <= cards_total(cards, n),
    decreases n - i,
{
    if i < n {
        lemma_total_grows(cards, i, n - 1);
        lemma_pile_size_pos(cards, n - 1, n - 1);
    }
}

/// How many scratchcards are held in the end, each card winning copies of the
/// cards after it; `None` where a count leaves `u64`.
pub fn total_scratchcards(cards: &Vec<Card>) -> (r: Option<u64>)
    ensures
        r matches Some(t) ==> t == cards_total(cards@, cards@.len() as int),
        (forall|i: int, j: int|
            0 <= i <= cards@.len() && 0 <= j < cards@.len() ==> #[trigger] pile_size(cards@, i, j)
                <= u64::MAX) && cards_total(cards@, cards@.len() as int) <= u64::MAX ==> r is Some,
{
    let n = cards.len();
    let mut sizes: Vec<u64> = Vec::new();
    let mut k: usize = 0;
    while k < n
        invariant
            n == cards@.len(),
            k <= n,
            sizes@.len() == k,
            forall|j: int| 0 <= j < k ==> sizes@[j] == 1,
        decreases n - k,
    {
        sizes.push(1);
        k += 1;
    }
    let mut total: u64 = 0;
    let mut i: usize = 0;
    while i < n
        invariant
            n == cards@.len(),
            i <= n,
            sizes@.len() == n,
            forall|j: int| 0 <= j < n ==> sizes@[j] == #[trigger] pile_size(cards@, i as int, j),
            total == cards_total(cards@, i as int),
        decreases n - i,
    {
        let c = sizes[i];
        total = match total.checked_add(c) {
            Some(t) => t,
            None => {
                proof {
                    lemma_total_grows(cards@, i + 1, n as int);
                }
                return None;
            },
        };
        let card = &cards[i];
        let wins = card.num_winning_numbers();
        let mut j: usize = 0;
        while j < n
            invariant
                n == cards@.len(),
                i < n,
                j <= n,
                sizes@.len() == n,
                wins == common_numbers(cards@[i as int]).len(),
                card.num_card == cards@[i as int].num_card,
                c == pile_size(cards@, i as int, i as int),
                forall|q: int| j <= q < n ==> sizes@[q] == #[trigger] pile_size(cards@, i as int, q),
                forall|q: int| 0 <= q < j ==> sizes@[q] == #[trigger] pile_size(cards@, i + 1, q),
            decreases n - j,
        {
            let nc = card.num_card;
            let won = nc >= 0 && (nc as u128) <= (j as u128) && (j as u128) < (nc as u128) + (
            wins as u128);
            proof {
                assert(won == wins_copy(cards@[i as int].num_card, wins as int, j as int));
                assert(pile_size(cards@, i + 1, j as int) == pile_size(cards@, i as int, j as int) + if won {
                    pile_size(cards@, i as int, i as int)
                } else {
                    0
                });
            }
            if won {
                let grown = match sizes[j].checked_add(c) {
                    Some(g) => g,
                    None => {
                        proof {
                            assert(pile_size(cards@, i + 1, j as int) > u64::MAX);
                        }
                        return None;
                    },
                };
                sizes.set(j, grown);
            }
            j += 1;
        }
        i += 1;
    }
    Some(total)
}

pub open spec fn points_total(cards: Seq<Card>, n: int) -> int
    decreases n,
{
    if n <= 0 {
        0
    } else {
        points_total(cards, n - 1) + points_for(common_numbers(cards[n - 1]).len())
    }
}

proof fn lemma_points_total_grows(cards: Seq<Card>, i: int, n: int)
    requires
        0 <= i <= n,
    ensures
        points_total(cards, i) <= points_total(cards, n),
    decreases n - i,
{
    if i < n {
        lemma_points_total_grows(cards, i, n - 1);
        let k = common_numbers(cards[n - 1]).len();
        if k >= 1 {
            lemma_points_positive(k);
        }
    }
}

/// The points of all cards together; `None` where they leave `i64`.
pub fn pile_points(cards: &Vec<Card>) -> (r: Option<i64>)
    ensures
        points_total(cards@, cards@.len() as int) <= i64::MAX ==> r == Some(
            points_total(cards@, cards@.len() as int) as i64,
        ),
        points_total(cards@, cards@.len() as int) > i64::MAX ==> r is None,
{
    let mut acc: i64 = 0;
    let mut i: usize = 0;
    while i < cards.len()
        invariant
            i <= cards@.len(),
            acc == points_total(cards@, i as int),
            acc >= 0,
        decreases cards@.len() - i,
    {
        let n = cards[i].num_winning_numbers();
        if n > 63 {
            proof {
                reveal_with_fuel(points_for, 64);
                assert(points_for(63) == 0x4000_0000_0000_0000);
                if n > 63 {
                    if n > 64 {
                        lemma_points_grow(63, n as nat);
                    } else {
                        lemma_points_grow(63, 64);
                    }
                }
                lemma_points_total_grows(cards@, i + 1, cards@.len() as int);
            }
            return None;
        }
        let k = n as u32;
        let p = match card_points(k) {
            Some(p) => p,
            None => {
                proof {
                    lemma_points_total_grows(cards@, i + 1, cards@.len() as int);
                }
                return None;
            },
        };
        proof {
            if k >= 1 {
                lemma_points_positive(k as nat);
            }
        }
        if acc > i64::MAX - p {
            proof {
                lemma_points_total_grows(cards@, i + 1, cards@.len() as int);
            }
            return None;
        }
        acc = acc + p;
        i += 1;
    }
    Some(acc)
}

} // verus!

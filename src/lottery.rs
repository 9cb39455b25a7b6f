//! Weighted draw of winning tickets, without replacement.
use vstd::prelude::*;
use crate::ledger::{
    Ledger, TicketsDistribution, amounts_nonneg, ledger_sum, lemma_entry_le_sum,
    lemma_sum_nonneg, lemma_sum_update,
};

verus! {

/// Increment between the states of the generator.
pub const GOLDEN_GAMMA: u64 = 0x9e37_79b9_7f4a_7c15;

/// Output function of the generator: a bijective scrambling of a 64-bit state.
pub open spec fn spec_mix(z: u64) -> u64 {
    let a = (z ^ (z >> 30u64)).wrapping_mul(0xbf58_476d_1ce4_e5b9u64);
    let b = (a ^ (a >> 27u64)).wrapping_mul(0x94d0_49bb_1331_11ebu64);
    b ^ (b >> 31u64)
}

/// State of the generator started at `seed` after `i` steps.
pub open spec fn spec_state(seed: u64, i: nat) -> u64
    decreases i,
{
    if i == 0 {
        seed
    } else {
        spec_state(seed, (i - 1) as nat).wrapping_add(GOLDEN_GAMMA)
    }
}

/// The `i`-th number drawn from `seed`.
pub open spec fn spec_draw(seed: u64, i: nat) -> u64 {
    spec_mix(spec_state(seed, i + 1))
}

fn mix(z: u64) -> (r: u64)
    ensures
        r == spec_mix(z),
{
    let a = (z ^ (z >> 30u64)).wrapping_mul(0xbf58_476d_1ce4_e5b9u64);
    let b = (a ^ (a >> 27u64)).wrapping_mul(0x94d0_49bb_1331_11ebu64);
    b ^ (b >> 31u64)
}

/// The first `count` numbers of the sequence that `seed` determines.
pub fn draws_from_seed(seed: u64, count: u64) -> (r: Vec<u64>)
    ensures
        r@.len() == count,
        forall|i: int| 0 <= i < count ==> r@[i] == spec_draw(seed, i as nat),
{
    let mut out: Vec<u64> = Vec::new();
    let mut state: u64 = seed;
    let mut i: u64 = 0;
    while i < count
        invariant
            i <= count,
            out@.len() == i,
            state == spec_state(seed, i as nat),
            forall|k: int| 0 <= k < i ==> out@[k] == spec_draw(seed, k as nat),
        decreases count - i,
    {
        let next = state.wrapping_add(GOLDEN_GAMMA);
        out.push(mix(next));
        state = next;
        i = i + 1;
    }
    out
}

/// Position of the advisor holding ticket number `r`, tickets being numbered
/// in the order of the advisors.
pub open spec fn pick(l: Ledger, r: int) -> int
    decreases l.len(),
{
    if l.len() == 0 {
        0
    } else if r < ledger_sum(l.drop_last()) {
        pick(l.drop_last(), r)
    } else {
        l.len() - 1
    }
}

pub open spec fn zeroed(l: Ledger) -> Ledger {
    l.map_values(|e: (Seq<char>, int)| (e.0, 0int))
}

/// One draw: the ticket numbered `d` modulo the tickets left leaves the pool and
/// counts as won by its holder.
pub open spec fn draw_step(pool: (Ledger, Ledger), d: u64) -> (Ledger, Ledger) {
    let (left, won) = pool;
    let j = pick(left, d as int % ledger_sum(left));
    (left.update(j, (left[j].0, left[j].1 - 1)), won.update(j, (won[j].0, won[j].1 + 1)))
}

/// Tickets left and tickets won after the draws `ds`.
pub open spec fn lottery_of(l: Ledger, ds: Seq<u64>) -> (Ledger, Ledger)
    decreases ds.len(),
{
    if ds.len() == 0 {
        (l, zeroed(l))
    } else {
        draw_step(lottery_of(l, ds.drop_last()), ds.last())
    }
}

pub proof fn lemma_prefix_sum_le(l: Ledger, i: int)
    requires
        amounts_nonneg(l),
        0 <= i <= l.len(),
    ensures
        ledger_sum(l.subrange(0, i)) <= ledger_sum(l),
    decreases l.len(),
{
    if l.len() > 0 {
        if i == l.len() {
            assert(l.subrange(0, i) =~= l);
        } else {
            lemma_prefix_sum_le(l.drop_last(), i);
            assert(l.drop_last().subrange(0, i) =~= l.subrange(0, i));
            lemma_sum_nonneg(l.drop_last());
        }
    }
}

pub proof fn lemma_pick(l: Ledger, r: int, j: int)
    requires
        amounts_nonneg(l),
        0 <= j < l.len(),
        ledger_sum(l.subrange(0, j)) <= r < ledger_sum(l.subrange(0, j + 1)),
    ensures
        pick(l, r) == j,
    decreases l.len(),
{
    if j == l.len() - 1 {
        assert(l.subrange(0, j) =~= l.drop_last());
    } else {
        lemma_prefix_sum_le(l.drop_last(), j + 1);
        assert(l.drop_last().subrange(0, j + 1) =~= l.subrange(0, j + 1));
        assert(l.drop_last().subrange(0, j) =~= l.subrange(0, j));
        lemma_pick(l.drop_last(), r, j);
    }
}

/// Position of the holder of ticket number `r`.
fn find_ticket(left: &TicketsDistribution, r: u64) -> (j: usize)
    requires
        (r as int) < ledger_sum(left@),
    ensures
        j < left@.len(),
        j == pick(left@, r as int),
        left@[j as int].1 > 0,
{
    let ghost l = left@;
    let n = left.entries.len();
    let mut acc: u64 = 0;
    let mut j: usize = 0;
    proof {
        assert(l.subrange(0, 0) =~= Seq::<(Seq<char>, int)>::empty());
    }
    loop
        invariant
            l == left@,
            l.len() == left.entries@.len(),
            n == l.len(),
            (r as int) < ledger_sum(l),
            0 <= j < l.len(),
            acc == ledger_sum(l.subrange(0, j as int)),
            acc <= r,
        decreases l.len() - j,
    {
        proof {
            assert(l.subrange(0, j + 1).drop_last() =~= l.subrange(0, j as int));
            lemma_prefix_sum_le(l, j + 1);
        }
        let t = left.entries[j].tickets;
        if r - acc < t {
            proof {
                lemma_pick(l, r as int, j as int);
            }
            return j;
        }
        acc = acc + t;
        j = j + 1;
        proof {
            if j == l.len() {
                assert(l.subrange(0, j as int) =~= l);
            }
        }
    }
}

/// Draws `draws.len()` winning tickets from the tickets of `cas`, one after the
/// other, without replacement: each draw takes the ticket numbered by the drawn
/// number modulo the tickets left. The result gives each advisor of `cas`, in
/// the same order, the number of tickets it won.
pub fn lottery_distribution(cas: &TicketsDistribution, draws: &Vec<u64>) -> (r: TicketsDistribution)
    requires
        draws@.len() < ledger_sum(cas@),
        ledger_sum(cas@) <= u64::MAX,
    ensures
        r@ == lottery_of(cas@, draws@).1,
        r@.len() == cas@.len(),
        ledger_sum(r@) == draws@.len(),
        forall|k: int| 0 <= k < r@.len() ==> r@[k].0 == cas@[k].0,
        forall|k: int| 0 <= k < r@.len() ==> 0 <= #[trigger] r@[k].1 <= draws@.len(),
{
    let mut left = cas.clone_dist();
    let mut won = cas.zeroed_dist();
    let mut i: usize = 0;
    proof {
        lemma_sum_zeroed(cas@);
        assert(draws@.subrange(0, 0) =~= Seq::<u64>::empty());
    }
    while i < draws.len()
        invariant
            0 <= i <= draws@.len(),
            draws@.len() < ledger_sum(cas@),
            ledger_sum(cas@) <= u64::MAX,
            (left@, won@) == lottery_of(cas@, draws@.subrange(0, i as int)),
            left@.len() == cas@.len(),
            won@.len() == cas@.len(),
            forall|k: int| 0 <= k < won@.len() ==> won@[k].0 == cas@[k].0,
            ledger_sum(left@) == ledger_sum(cas@) - i,
            ledger_sum(won@) == i,
            amounts_nonneg(won@),
        decreases draws@.len() - i,
    {
        let ghost pre_left = left@;
        let ghost pre_won = won@;
        let total = left.total();
        let j = find_ticket(&left, draws[i] % total);
        proof {
            lemma_entry_le_sum(won@, j as int);
        }
        left.set_tickets(j, left.entries[j].tickets - 1);
        let w = won.entries[j].tickets;
        won.set_tickets(j, w + 1);
        proof {
            lemma_sum_update(pre_left, j as int, left@[j as int]);
            lemma_sum_update(pre_won, j as int, won@[j as int]);
            assert(draws@.subrange(0, i + 1).drop_last() =~= draws@.subrange(0, i as int));
            assert(left@ =~= draw_step((pre_left, pre_won), draws@[i as int]).0);
            assert(won@ =~= draw_step((pre_left, pre_won), draws@[i as int]).1);
        }
        i = i + 1;
    }
    assert(draws@.subrange(0, i as int) =~= draws@);
    proof {
        assert forall|k: int| 0 <= k < won@.len() implies 0 <= #[trigger] won@[k].1 <= draws@.len() by {
            lemma_entry_le_sum(won@, k);
        }
    }
    won
}

pub proof fn lemma_sum_zeroed(l: Ledger)
    ensures
        ledger_sum(zeroed(l)) == 0,
        amounts_nonneg(zeroed(l)),
        zeroed(l).len() == l.len(),
    decreases l.len(),
{
    if l.len() > 0 {
        lemma_sum_zeroed(l.drop_last());
        assert(zeroed(l).drop_last() =~= zeroed(l.drop_last()));
    }
}

} // verus!

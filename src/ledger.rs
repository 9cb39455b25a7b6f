//! Reviews, and the tickets that they earn their authors on one proposal.
use vstd::prelude::*;
use crate::funds::ProposalRewardSlots;
use crate::lottery::lemma_prefix_sum_le;

verus! {

/// Quality tier of a review of a proposal.
#[derive(Clone, Copy, Debug, PartialEq, Eq, Structural)]
pub enum ReviewScore {
    Excellent,
    Good,
}

/// One review of a proposal.
#[derive(Clone, Debug)]
pub struct AdvisorReviewRow {
    pub assessor: String,
    pub score: ReviewScore,
}

impl AdvisorReviewRow {
    pub fn score(&self) -> (r: ReviewScore)
        ensures
            r == self.score,
    {
        self.score
    }
}

/// Association list from advisor to an amount, in the order of first appearance.
pub type Ledger = Seq<(Seq<char>, int)>;

pub open spec fn weight(score: ReviewScore, slots: ProposalRewardSlots) -> int {
    match score {
        ReviewScore::Excellent => slots.excellent_slots as int,
        ReviewScore::Good => slots.good_slots as int,
    }
}

/// Tickets earned by all the reviews.
pub open spec fn total_weight(rows: Seq<AdvisorReviewRow>, slots: ProposalRewardSlots) -> int
    decreases rows.len(),
{
    if rows.len() == 0 {
        0
    } else {
        total_weight(rows.drop_last(), slots) + weight(rows.last().score, slots)
    }
}

/// Position of advisor `a` in `l`, or -1.
pub open spec fn index_of(l: Ledger, a: Seq<char>) -> int
    decreases l.len(),
{
    if l.len() == 0 {
        -1
    } else if index_of(l.drop_last(), a) >= 0 {
        index_of(l.drop_last(), a)
    } else if l.last().0 == a {
        l.len() - 1
    } else {
        -1
    }
}

/// `l` with `w` added to the amount of `a`, which is appended if absent.
pub open spec fn add_entry(l: Ledger, a: Seq<char>, w: int) -> Ledger {
    let i = index_of(l, a);
    if i >= 0 {
        l.update(i, (a, l[i].1 + w))
    } else {
        l.push((a, w))
    }
}

/// Tickets per advisor: each review adds the weight of its score to its author.
pub open spec fn ledger_of(rows: Seq<AdvisorReviewRow>, slots: ProposalRewardSlots) -> Ledger
    decreases rows.len(),
{
    if rows.len() == 0 {
        seq![]
    } else {
        add_entry(
            ledger_of(rows.drop_last(), slots),
            rows.last().assessor@,
            weight(rows.last().score, slots),
        )
    }
}

pub open spec fn ledger_sum(l: Ledger) -> int
    decreases l.len(),
{
    if l.len() == 0 {
        0
    } else {
        ledger_sum(l.drop_last()) + l.last().1
    }
}

/// Advisors appear at most once.
pub open spec fn keys_distinct(l: Ledger) -> bool {
    forall|i: int, j: int| 0 <= i < j < l.len() ==> l[i].0 != l[j].0
}

pub open spec fn amounts_nonneg(l: Ledger) -> bool {
    forall|i: int| 0 <= i < l.len() ==> l[i].1 >= 0
}

pub proof fn lemma_index_of(l: Ledger, a: Seq<char>)
    ensures
        -1 <= index_of(l, a) < l.len(),
        index_of(l, a) >= 0 ==> l[index_of(l, a)].0 == a,
        index_of(l, a) < 0 ==> forall|k: int| 0 <= k < l.len() ==> l[k].0 != a,
    decreases l.len(),
{
    if l.len() > 0 {
        lemma_index_of(l.drop_last(), a);
        assert forall|k: int| 0 <= k < l.len() - 1 implies l[k] == l.drop_last()[k] by {}
    }
}

pub proof fn lemma_sum_update(l: Ledger, i: int, e: (Seq<char>, int))
    requires
        0 <= i < l.len(),
    ensures
        ledger_sum(l.update(i, e)) == ledger_sum(l) - l[i].1 + e.1,
    decreases l.len(),
{
    let u = l.update(i, e);
    if i == l.len() - 1 {
        assert(u.drop_last() =~= l.drop_last());
    } else {
        lemma_sum_update(l.drop_last(), i, e);
        assert(u.drop_last() =~= l.drop_last().update(i, e));
    }
}

pub proof fn lemma_sum_push(l: Ledger, e: (Seq<char>, int))
    ensures
        ledger_sum(l.push(e)) == ledger_sum(l) + e.1,
{
    assert(l.push(e).drop_last() =~= l);
}

pub proof fn lemma_add_entry(l: Ledger, a: Seq<char>, w: int)
    requires
        keys_distinct(l),
        amounts_nonneg(l),
        w >= 0,
    ensures
        keys_distinct(add_entry(l, a, w)),
        amounts_nonneg(add_entry(l, a, w)),
        ledger_sum(add_entry(l, a, w)) == ledger_sum(l) + w,
{
    lemma_index_of(l, a);
    let i = index_of(l, a);
    if i >= 0 {
        lemma_sum_update(l, i, (a, l[i].1 + w));
    } else {
        lemma_sum_push(l, (a, w));
    }
}

pub proof fn lemma_entry_le_sum(l: Ledger, k: int)
    requires
        amounts_nonneg(l),
        0 <= k < l.len(),
    ensures
        l[k].1 <= ledger_sum(l),
    decreases l.len(),
{
    if k < l.len() - 1 {
        lemma_entry_le_sum(l.drop_last(), k);
    }
    lemma_sum_nonneg(l.drop_last());
}

pub proof fn lemma_sum_nonneg(l: Ledger)
    requires
        amounts_nonneg(l),
    ensures
        ledger_sum(l) >= 0,
    decreases l.len(),
{
    if l.len() > 0 {
        lemma_sum_nonneg(l.drop_last());
    }
}

pub proof fn lemma_ledger_of(rows: Seq<AdvisorReviewRow>, slots: ProposalRewardSlots)
    ensures
        keys_distinct(ledger_of(rows, slots)),
        amounts_nonneg(ledger_of(rows, slots)),
        ledger_sum(ledger_of(rows, slots)) == total_weight(rows, slots),
    decreases rows.len(),
{
    if rows.len() > 0 {
        lemma_ledger_of(rows.drop_last(), slots);
        lemma_add_entry(
            ledger_of(rows.drop_last(), slots),
            rows.last().assessor@,
            weight(rows.last().score, slots),
        );
    }
}

pub proof fn lemma_total_weight_prefix(rows: Seq<AdvisorReviewRow>, slots: ProposalRewardSlots, i: int)
    requires
        0 <= i <= rows.len(),
    ensures
        total_weight(rows.subrange(0, i), slots) <= total_weight(rows, slots),
        total_weight(rows.subrange(0, i), slots) >= 0,
    decreases rows.len(),
{
    if rows.len() > 0 {
        if i == rows.len() {
            assert(rows.subrange(0, i) =~= rows);
            lemma_total_weight_prefix(rows.drop_last(), slots, i - 1);
            assert(rows.drop_last().subrange(0, i - 1) =~= rows.subrange(0, i - 1));
        } else {
            lemma_total_weight_prefix(rows.drop_last(), slots, i);
            assert(rows.drop_last().subrange(0, i) =~= rows.subrange(0, i));
        }
    }
}

/// Tickets held by one advisor on one proposal.
#[derive(Clone, Debug)]
pub struct AdvisorTickets {
    pub advisor: String,
    pub tickets: u64,
}

/// Tickets per advisor on one proposal, each advisor once.
#[derive(Clone, Debug)]
pub struct TicketsDistribution {
    pub entries: Vec<AdvisorTickets>,
}

impl View for TicketsDistribution {
    type V = Ledger;

    open spec fn view(&self) -> Ledger {
        self.entries@.map_values(|e: AdvisorTickets| (e.advisor@, e.tickets as int))
    }
}

impl TicketsDistribution {
    pub fn new() -> (r: TicketsDistribution)
        ensures
            r@ == Seq::<(Seq<char>, int)>::empty(),
    {
        TicketsDistribution { entries: Vec::new() }
    }

    pub fn len(&self) -> (r: usize)
        ensures
            r == self@.len(),
    {
        self.entries.len()
    }

    /// Tickets held in all.
    pub fn total(&self) -> (r: u64)
        requires
            ledger_sum(self@) <= u64::MAX,
        ensures
            r == ledger_sum(self@),
    {
        let mut sum: u64 = 0;
        let mut i: usize = 0;
        while i < self.entries.len()
            invariant
                0 <= i <= self@.len(),
                ledger_sum(self@) <= u64::MAX,
                sum == ledger_sum(self@.subrange(0, i as int)),
            decreases self@.len() - i,
        {
            proof {
                assert(self@.subrange(0, i + 1).drop_last() =~= self@.subrange(0, i as int));
                lemma_prefix_sum_le(self@, i + 1);
            }
            sum = sum + self.entries[i].tickets;
            i = i + 1;
        }
        assert(self@.subrange(0, i as int) =~= self@);
        sum
    }

    /// A copy of the distribution.
    pub fn clone_dist(&self) -> (r: TicketsDistribution)
        ensures
            r@ == self@,
    {
        let mut out: Vec<AdvisorTickets> = Vec::new();
        let mut i: usize = 0;
        while i < self.entries.len()
            invariant
                0 <= i <= self@.len(),
                out@.len() == i,
                forall|k: int| 0 <= k < i ==> (#[trigger] out@[k]).advisor@ == self@[k].0
                    && out@[k].tickets == self@[k].1,
            decreases self@.len() - i,
        {
            out.push(AdvisorTickets {
                advisor: self.entries[i].advisor.clone(),
                tickets: self.entries[i].tickets,
            });
            i = i + 1;
        }
        let r = TicketsDistribution { entries: out };
        assert(r@ =~= self@);
        r
    }

    /// The same advisors, each holding no ticket.
    pub fn zeroed_dist(&self) -> (r: TicketsDistribution)
        ensures
            r@ == crate::lottery::zeroed(self@),
    {
        let mut out: Vec<AdvisorTickets> = Vec::new();
        let mut i: usize = 0;
        while i < self.entries.len()
            invariant
                0 <= i <= self@.len(),
                out@.len() == i,
                forall|k: int| 0 <= k < i ==> (#[trigger] out@[k]).advisor@ == self@[k].0
                    && out@[k].tickets == 0,
            decreases self@.len() - i,
        {
            out.push(AdvisorTickets { advisor: self.entries[i].advisor.clone(), tickets: 0 });
            i = i + 1;
        }
        let r = TicketsDistribution { entries: out };
        assert(r@ =~= crate::lottery::zeroed(self@));
        r
    }

    /// Sets the holdings of the advisor at position `j`.
    pub fn set_tickets(&mut self, j: usize, tickets: u64)
        requires
            j < old(self)@.len(),
        ensures
            final(self)@ == old(self)@.update(j as int, (old(self)@[j as int].0, tickets as int)),
    {
        let e = AdvisorTickets { advisor: self.entries[j].advisor.clone(), tickets };
        self.entries.set(j, e);
        assert(self@ =~= old(self)@.update(j as int, (old(self)@[j as int].0, tickets as int)));
    }

    /// Position of `advisor`, if present.
    pub fn find(&self, advisor: &String) -> (r: Option<usize>)
        ensures
            match r {
                Some(i) => i == index_of(self@, advisor@),
                None => index_of(self@, advisor@) == -1,
            },
    {
        proof {
            lemma_index_of(self@, advisor@);
        }
        let mut i: usize = 0;
        while i < self.entries.len()
            invariant
                0 <= i <= self.entries.len(),
                forall|k: int| 0 <= k < i ==> self@[k].0 != advisor@,
            decreases self.entries.len() - i,
        {
            if self.entries[i].advisor == *advisor {
                proof {
                    lemma_first_index(self@, advisor@, i as int);
                }
                return Some(i);
            }
            i = i + 1;
        }
        None
    }

    /// Adds `tickets` to the holdings of `advisor`.
    pub fn add(&mut self, advisor: &String, tickets: u64)
        requires
            index_of(old(self)@, advisor@) >= 0 ==> old(self)@[index_of(old(self)@, advisor@)].1
                + tickets <= u64::MAX,
        ensures
            final(self)@ == add_entry(old(self)@, advisor@, tickets as int),
    {
        proof {
            lemma_index_of(self@, advisor@);
        }
        match self.find(advisor) {
            Some(i) => {
                let held = self.entries[i].tickets;
                let e = AdvisorTickets { advisor: advisor.clone(), tickets: held + tickets };
                self.entries.set(i, e);
                assert(self@ =~= add_entry(old(self)@, advisor@, tickets as int));
            },
            None => {
                self.entries.push(AdvisorTickets { advisor: advisor.clone(), tickets });
                assert(self@ =~= add_entry(old(self)@, advisor@, tickets as int));
            },
        }
    }
}

pub proof fn lemma_first_index(l: Ledger, a: Seq<char>, i: int)
    requires
        0 <= i < l.len(),
        l[i].0 == a,
        forall|k: int| 0 <= k < i ==> l[k].0 != a,
    ensures
        index_of(l, a) == i,
    decreases l.len(),
{
    lemma_index_of(l, a);
    if i < l.len() - 1 {
        lemma_first_index(l.drop_last(), a, i);
    } else {
        lemma_index_of(l.drop_last(), a);
    }
}

/// Ticket weight of one review.
pub fn review_weight(score: ReviewScore, slots: &ProposalRewardSlots) -> (r: u64)
    ensures
        r == weight(score, *slots),
{
    match score {
        ReviewScore::Excellent => slots.excellent_slots,
        ReviewScore::Good => slots.good_slots,
    }
}

/// Tickets that the reviews of a proposal earn: the sum of their weights.
pub fn filled_slots(rows: &Vec<AdvisorReviewRow>, slots: &ProposalRewardSlots) -> (r: u64)
    requires
        total_weight(rows@, *slots) <= u64::MAX,
    ensures
        r == total_weight(rows@, *slots),
{
    let mut sum: u64 = 0;
    let mut i: usize = 0;
    while i < rows.len()
        invariant
            0 <= i <= rows.len(),
            total_weight(rows@, *slots) <= u64::MAX,
            sum == total_weight(rows@.subrange(0, i as int), *slots),
        decreases rows.len() - i,
    {
        proof {
            lemma_total_weight_prefix(rows@, *slots, i + 1);
            assert(rows@.subrange(0, i + 1).drop_last() =~= rows@.subrange(0, i as int));
        }
        sum = sum + review_weight(rows[i].score(), slots);
        i = i + 1;
    }
    assert(rows@.subrange(0, i as int) =~= rows@);
    sum
}

/// Tickets per advisor on one proposal: each review adds the weight of its score
/// to the holdings of its author.
pub fn load_tickets_from_reviews(rows: &Vec<AdvisorReviewRow>, slots: &ProposalRewardSlots) -> (r:
    TicketsDistribution)
    requires
        total_weight(rows@, *slots) <= u64::MAX,
    ensures
        r@ == ledger_of(rows@, *slots),
        keys_distinct(r@),
        ledger_sum(r@) == total_weight(rows@, *slots),
{
    proof {
        lemma_ledger_of(rows@, *slots);
    }
    let mut dist = TicketsDistribution::new();
    let mut i: usize = 0;
    while i < rows.len()
        invariant
            0 <= i <= rows.len(),
            total_weight(rows@, *slots) <= u64::MAX,
            dist@ == ledger_of(rows@.subrange(0, i as int), *slots),
        decreases rows.len() - i,
    {
        let ghost pre = rows@.subrange(0, i as int);
        proof {
            assert(rows@.subrange(0, i + 1).drop_last() =~= pre);
            lemma_total_weight_prefix(rows@, *slots, i + 1);
            lemma_ledger_of(pre, *slots);
            lemma_index_of(dist@, rows@[i as int].assessor@);
            let k = index_of(dist@, rows@[i as int].assessor@);
            if k >= 0 {
                lemma_entry_le_sum(dist@, k);
            }
        }
        let w = review_weight(rows[i].score(), slots);
        dist.add(&rows[i].assessor, w);
        i = i + 1;
    }
    assert(rows@.subrange(0, i as int) =~= rows@);
    dist
}

} // verus!

//! Counting outcomes by kind.
use vstd::prelude::*;

use crate::result::{CheckResult, Status};
#[allow(unused_imports)]
use crate::result::{result_views, ResultView, StatusView};

verus! {

/// The kinds of outcome.
#[derive(Debug, Clone, Copy, PartialEq, Eq, Structural)]
pub enum Kind {
    Available,
    Taken,
    Invalid,
    RateLimited,
    Error,
}

/// The kind of an outcome.
pub open spec fn kind(status: StatusView) -> Kind {
    match status {
        StatusView::Available => Kind::Available,
        StatusView::Taken => Kind::Taken,
        StatusView::Invalid { .. } => Kind::Invalid,
        StatusView::RateLimited { .. } => Kind::RateLimited,
        StatusView::Error { .. } => Kind::Error,
    }
}

/// How many of `results` are of the kind `k`.
pub open spec fn count(results: Seq<ResultView>, k: Kind) -> nat
    decreases results.len(),
{
    if results.len() == 0 {
        0
    } else {
        count(results.drop_last(), k) + if kind(results.last().status) == k {
            1nat
        } else {
            0nat
        }
    }
}

/// How many outcomes of each kind there were.
#[derive(Debug, Clone, Copy, PartialEq, Eq)]
pub struct Counts {
    pub available: usize,
    pub taken: usize,
    pub invalid: usize,
    pub rate_limited: usize,
    pub errors: usize,
}

impl Default for Counts {
    fn default() -> (counts: Self)
        ensures
            counts == no_counts(),
    {
        Counts { available: 0, taken: 0, invalid: 0, rate_limited: 0, errors: 0 }
    }
}

/// Nothing counted yet.
pub open spec fn no_counts() -> Counts {
    Counts { available: 0, taken: 0, invalid: 0, rate_limited: 0, errors: 0 }
}

/// The counts after one more outcome of the kind `k`.
pub open spec fn bumped(counts: Counts, k: Kind) -> Counts {
    match k {
        Kind::Available => Counts { available: (counts.available + 1) as usize, ..counts },
        Kind::Taken => Counts { taken: (counts.taken + 1) as usize, ..counts },
        Kind::Invalid => Counts { invalid: (counts.invalid + 1) as usize, ..counts },
        Kind::RateLimited => Counts { rate_limited: (counts.rate_limited + 1) as usize, ..counts },
        Kind::Error => Counts { errors: (counts.errors + 1) as usize, ..counts },
    }
}

impl Counts {
    /// The count for one kind.
    pub open spec fn get(self, k: Kind) -> nat {
        match k {
            Kind::Available => self.available as nat,
            Kind::Taken => self.taken as nat,
            Kind::Invalid => self.invalid as nat,
            Kind::RateLimited => self.rate_limited as nat,
            Kind::Error => self.errors as nat,
        }
    }

    /// The sum of the counts.
    pub open spec fn sum(self) -> nat {
        (self.available + self.taken + self.invalid + self.rate_limited + self.errors) as nat
    }

    pub fn total(&self) -> (total: usize)
        requires
            self.sum() <= usize::MAX,
        ensures
            total == self.sum(),
    {
        self.available + self.taken + self.invalid + self.rate_limited + self.errors
    }

    /// Counts one more outcome.
    pub fn bump(&mut self, status: &Status)
        requires
            old(self).get(kind(status@)) < usize::MAX,
        ensures
            *final(self) == bumped(*old(self), kind(status@)),
    {
        match status {
            Status::Available => self.available = self.available + 1,
            Status::Taken => self.taken = self.taken + 1,
            Status::Invalid { .. } => self.invalid = self.invalid + 1,
            Status::RateLimited { .. } => self.rate_limited = self.rate_limited + 1,
            Status::Error { .. } => self.errors = self.errors + 1,
        }
    }
}

/// Every outcome is counted once.
pub proof fn law_each_outcome_counts_once(results: Seq<ResultView>)
    ensures
        count(results, Kind::Available) + count(results, Kind::Taken) + count(
            results,
            Kind::Invalid,
        ) + count(results, Kind::RateLimited) + count(results, Kind::Error) == results.len(),
    decreases results.len(),
{
    if results.len() > 0 {
        law_each_outcome_counts_once(results.drop_last());
    }
}

/// Counts the outcomes of a batch by kind.
pub fn summarize(results: &Vec<CheckResult>) -> (summary: Counts)
    ensures
        forall|k: Kind| #[trigger] summary.get(k) == count(result_views(results@), k),
        summary.sum() == results@.len(),
{
    let ghost all = result_views(results@);
    let mut summary = Counts::default();
    let mut i: usize = 0;
    while i < results.len()
        invariant
            i <= results@.len(),
            all == result_views(results@),
            forall|k: Kind| #[trigger] summary.get(k) == count(all.take(i as int), k),
        decreases results@.len() - i,
    {
        proof {
            law_each_outcome_counts_once(all.take(i as int));
            let k = kind(results@[i as int].status@);
            assert(summary.get(k) <= i);
            assert(all.take(i + 1).drop_last() =~= all.take(i as int));
            assert(all.take(i + 1).last() == results@[i as int]@);
        }
        let ghost before = summary;
        summary.bump(&results[i].status);
        i = i + 1;
        assert forall|k: Kind| #[trigger] summary.get(k) == count(all.take(i as int), k) by {
            assert(before.get(k) == count(all.take(i - 1), k));
        }
    }
    proof {
        assert(all.take(i as int) =~= all);
        law_each_outcome_counts_once(all);
        assert(summary.get(Kind::Available) == count(all, Kind::Available));
        assert(summary.get(Kind::Taken) == count(all, Kind::Taken));
        assert(summary.get(Kind::Invalid) == count(all, Kind::Invalid));
        assert(summary.get(Kind::RateLimited) == count(all, Kind::RateLimited));
        assert(summary.get(Kind::Error) == count(all, Kind::Error));
    }
    summary
}

/// Each outcome is of the kind that it says.
pub proof fn law_kind_of_an_outcome(status: StatusView)
    ensures
        kind(status) == Kind::Available <==> status is Available,
        kind(status) == Kind::Taken <==> status is Taken,
        kind(status) == Kind::Invalid <==> status is Invalid,
        kind(status) == Kind::RateLimited <==> status is RateLimited,
        kind(status) == Kind::Error <==> status is Error,
{
}

/// Counting goes on: the outcomes of two lists are counted together, and one outcome
/// counts for its kind alone.
pub proof fn law_counts_add_up(a: Seq<ResultView>, b: Seq<ResultView>, one: ResultView, k: Kind)
    ensures
        count(a + b, k) == count(a, k) + count(b, k),
        count(seq![one], k) == if kind(one.status) == k {
            1nat
        } else {
            0nat
        },
    decreases b.len(),
{
    assert(seq![one].drop_last() =~= seq![]);
    assert(count(seq![one].drop_last(), k) == 0);
    if b.len() == 0 {
        assert(a + b =~= a);
    } else {
        law_counts_add_up(a, b.drop_last(), one, k);
        assert((a + b).drop_last() =~= a + b.drop_last());
    }
}

/// One more outcome raises the count of its kind by one and no other.
pub proof fn law_bump_counts_one(counts: Counts, status: StatusView)
    requires
        counts.available < usize::MAX,
        counts.taken < usize::MAX,
        counts.invalid < usize::MAX,
        counts.rate_limited < usize::MAX,
        counts.errors < usize::MAX,
    ensures
        ({
            let after = bumped(counts, kind(status));
            &&& after.available == counts.available + (if status is Available { 1int } else { 0 })
            &&& after.taken == counts.taken + (if status is Taken { 1int } else { 0 })
            &&& after.invalid == counts.invalid + (if status is Invalid { 1int } else { 0 })
            &&& after.rate_limited == counts.rate_limited + (if status is RateLimited {
                1int
            } else {
                0
            })
            &&& after.errors == counts.errors + (if status is Error { 1int } else { 0 })
        }),
        counts.sum() == counts.available + counts.taken + counts.invalid + counts.rate_limited
            + counts.errors,
        counts.get(Kind::Available) == counts.available,
        counts.get(Kind::Taken) == counts.taken,
        counts.get(Kind::Invalid) == counts.invalid,
        counts.get(Kind::RateLimited) == counts.rate_limited,
        counts.get(Kind::Error) == counts.errors,
{
}

} // verus!

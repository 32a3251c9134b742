//! Stopwatches for runs of many games: epochs, and iterations within them.
//!
//! Times are kept and handed out in nanoseconds.

use crate::deps::clock::{elapsed, nanoseconds, now};
use std::time::Instant;
use vstd::prelude::*;

verus! {

/// The sum of `times`.
pub open spec fn sum_of(times: Seq<u128>) -> nat
    decreases times.len(),
{
    if times.len() == 0 {
        0
    } else {
        sum_of(times.drop_last()) + times.last() as nat
    }
}

/// The sum of all times in all of `lists`.
pub open spec fn total_of(lists: Seq<Seq<u128>>) -> nat
    decreases lists.len(),
{
    if lists.len() == 0 {
        0
    } else {
        total_of(lists.drop_last()) + sum_of(lists.last())
    }
}

/// The times that the lists hold.
pub open spec fn times_of(lists: Seq<Vec<u128>>) -> Seq<Seq<u128>> {
    lists.map_values(|list: Vec<u128>| list@)
}

/// The number by which an average over `count` is divided: `count` cut to
/// its lower 32 bits.
pub open spec fn divisor(count: u64) -> nat {
    (count % 0x1_0000_0000) as nat
}

proof fn lemma_sum_grows(times: Seq<u128>, n: int)
    requires
        0 <= n <= times.len(),
    ensures
        sum_of(times.take(n)) <= sum_of(times),
    decreases times.len() - n,
{
    if n < times.len() {
        lemma_sum_grows(times, n + 1);
        assert(times.take(n + 1).drop_last() =~= times.take(n));
    } else {
        assert(times.take(n) =~= times);
    }
}

proof fn lemma_total_grows(lists: Seq<Seq<u128>>, n: int)
    requires
        0 <= n <= lists.len(),
    ensures
        total_of(lists.take(n)) <= total_of(lists),
    decreases lists.len() - n,
{
    if n < lists.len() {
        lemma_total_grows(lists, n + 1);
        assert(lists.take(n + 1).drop_last() =~= lists.take(n));
    } else {
        assert(lists.take(n) =~= lists);
    }
}

/// The sum of `times`.
fn sum(times: &Vec<u128>) -> (total: u128)
    requires
        sum_of(times@) <= u128::MAX,
    ensures
        total == sum_of(times@),
{
    let mut total: u128 = 0;
    let n = times.len();
    let mut i: usize = 0;
    while i < n
        invariant
            i <= n,
            n == times@.len(),
            sum_of(times@) <= u128::MAX,
            total == sum_of(times@.take(i as int)),
        decreases n - i,
    {
        proof {
            lemma_sum_grows(times@, i + 1);
            assert(times@.take(i + 1).drop_last() =~= times@.take(i as int));
        }
        total = total + times[i];
        i = i + 1;
    }
    assert(times@.take(n as int) =~= times@);
    total
}

/// Times epochs and the iterations within them.
pub struct Measurement {
    epochs: u64,
    iters_per_epoch: u64,
    epoch_times: Vec<u128>,
    iter_times: Vec<Vec<u128>>,
    epoch_start: Instant,
    iter_start: Instant,
}

impl Measurement {
    /// The number of epochs that the averages are taken over.
    pub closed spec fn epochs(&self) -> u64 {
        self.epochs
    }

    /// The number of iterations of an epoch that the averages are taken
    /// over.
    pub closed spec fn iters_per_epoch(&self) -> u64 {
        self.iters_per_epoch
    }

    /// The times of the epochs that have ended, in nanoseconds.
    pub closed spec fn epoch_times(&self) -> Seq<u128> {
        self.epoch_times@
    }

    /// The times of the iterations that have ended, in nanoseconds, a list
    /// for each epoch that has started.
    pub closed spec fn iter_times(&self) -> Seq<Seq<u128>> {
        times_of(self.iter_times@)
    }

    /// The number of epochs that the averages are taken over.
    pub fn planned_epochs(&self) -> (epochs: u64)
        ensures
            epochs == self.epochs(),
    {
        self.epochs
    }

    /// The number of iterations of an epoch that the averages are taken
    /// over.
    pub fn planned_iters(&self) -> (iters: u64)
        ensures
            iters == self.iters_per_epoch(),
    {
        self.iters_per_epoch
    }

    /// The times of the epochs that have ended, in nanoseconds.
    pub fn recorded_epochs(&self) -> (times: &Vec<u128>)
        ensures
            times@ == self.epoch_times(),
    {
        &self.epoch_times
    }

    /// The times of the iterations that have ended, in nanoseconds, a list
    /// for each epoch that has started.
    pub fn recorded_iters(&self) -> (times: &Vec<Vec<u128>>)
        ensures
            times_of(times@) == self.iter_times(),
    {
        &self.iter_times
    }

    /// A stopwatch for `epochs` epochs of `iters_per_epoch` iterations, with
    /// nothing timed yet.
    pub fn new(epochs: u64, iters_per_epoch: u64) -> (watch: Self)
        ensures
            watch.epochs() == epochs,
            watch.iters_per_epoch() == iters_per_epoch,
            watch.epoch_times() == Seq::<u128>::empty(),
            watch.iter_times() == Seq::<Seq<u128>>::empty(),
    {
        let watch = Self {
            epochs,
            iters_per_epoch,
            epoch_times: Vec::new(),
            iter_times: Vec::new(),
            epoch_start: now(),
            iter_start: now(),
        };
        assert(watch.iter_times() =~= Seq::<Seq<u128>>::empty());
        watch
    }

    /// Starts an epoch: it has no iteration yet.
    pub fn start_epoch(&mut self)
        ensures
            final(self).epochs() == old(self).epochs(),
            final(self).iters_per_epoch() == old(self).iters_per_epoch(),
            final(self).epoch_times() == old(self).epoch_times(),
            final(self).iter_times() == old(self).iter_times().push(Seq::empty()),
    {
        self.epoch_start = now();
        self.iter_times.push(Vec::new());
        assert(self.iter_times() =~= old(self).iter_times().push(Seq::empty()));
    }

    /// Ends the epoch: its time joins those of the epochs.
    pub fn end_epoch(&mut self)
        ensures
            final(self).epochs() == old(self).epochs(),
            final(self).iters_per_epoch() == old(self).iters_per_epoch(),
            final(self).epoch_times().len() == old(self).epoch_times().len() + 1,
            final(self).epoch_times().drop_last() == old(self).epoch_times(),
            final(self).iter_times() == old(self).iter_times(),
    {
        let time = nanoseconds(&elapsed(&self.epoch_start));
        self.epoch_times.push(time);
        assert(self.epoch_times().drop_last() =~= old(self).epoch_times());
    }

    /// Starts an iteration.
    pub fn start_iter(&mut self)
        ensures
            final(self).epochs() == old(self).epochs(),
            final(self).iters_per_epoch() == old(self).iters_per_epoch(),
            final(self).epoch_times() == old(self).epoch_times(),
            final(self).iter_times() == old(self).iter_times(),
    {
        self.iter_start = now();
    }

    /// Ends the iteration: its time joins those of epoch `epoch_idx`, which
    /// must have started.
    pub fn end_iter(&mut self, epoch_idx: usize)
        requires
            epoch_idx < old(self).iter_times().len(),
        ensures
            final(self).epochs() == old(self).epochs(),
            final(self).iters_per_epoch() == old(self).iters_per_epoch(),
            final(self).epoch_times() == old(self).epoch_times(),
            final(self).iter_times().len() == old(self).iter_times().len(),
            final(self).iter_times()[epoch_idx as int].len() == old(self).iter_times()[epoch_idx as int].len() + 1,
            final(self).iter_times()[epoch_idx as int].drop_last() == old(self).iter_times()[epoch_idx as int],
            forall|i: int|
                0 <= i < old(self).iter_times().len() && i != epoch_idx ==> #[trigger] final(self).iter_times()[i]
                    == old(self).iter_times()[i],
    {
        let dur = nanoseconds(&elapsed(&self.iter_start));
        self.iter_times[epoch_idx].push(dur);
        assert(self.iter_times()[epoch_idx as int].drop_last() =~= old(self).iter_times()[epoch_idx as int]);
    }

    /// The mean time of an epoch: the sum of the epoch times over the number
    /// of epochs.
    pub fn avg_epoch_time(&self) -> (mean: u128)
        requires
            divisor(self.epochs()) != 0,
            sum_of(self.epoch_times()) <= u128::MAX,
        ensures
            mean == sum_of(self.epoch_times()) / divisor(self.epochs()),
    {
        sum(&self.epoch_times) / ((self.epochs % 0x1_0000_0000) as u128)
    }

    /// The mean time of an iteration: the sum of all iteration times over
    /// the number of iterations of all epochs.
    pub fn avg_iter_time(&self) -> (mean: u128)
        requires
            self.epochs() * self.iters_per_epoch() <= u64::MAX,
            divisor((self.epochs() * self.iters_per_epoch()) as u64) != 0,
            total_of(self.iter_times()) <= u128::MAX,
        ensures
            mean == total_of(self.iter_times()) / divisor((self.epochs() * self.iters_per_epoch()) as u64),
    {
        let total_iters = self.epochs * self.iters_per_epoch;
        let ghost lists = times_of(self.iter_times@);
        let mut total: u128 = 0;
        let n = self.iter_times.len();
        let mut i: usize = 0;
        while i < n
            invariant
                i <= n,
                n == self.iter_times@.len(),
                lists == times_of(self.iter_times@),
                total_of(lists) <= u128::MAX,
                total == total_of(lists.take(i as int)),
            decreases n - i,
        {
            proof {
                lemma_total_grows(lists, i + 1);
                assert(lists.take(i + 1).drop_last() =~= lists.take(i as int));
                assert(lists[i as int] == self.iter_times@[i as int]@);
            }
            total = total + sum(&self.iter_times[i]);
            i = i + 1;
        }
        assert(lists.take(n as int) =~= lists);
        total / ((total_iters % 0x1_0000_0000) as u128)
    }

    /// The time of epoch `epoch_idx`, and the mean time of its iterations:
    /// their sum over the number of iterations of an epoch.
    pub fn epoch_report(&self, epoch_idx: usize) -> (report: (u128, u128))
        requires
            epoch_idx < self.epoch_times().len(),
            epoch_idx < self.iter_times().len(),
            divisor(self.iters_per_epoch()) != 0,
            sum_of(self.iter_times()[epoch_idx as int]) <= u128::MAX,
        ensures
            report.0 == self.epoch_times()[epoch_idx as int],
            report.1 == sum_of(self.iter_times()[epoch_idx as int]) / divisor(self.iters_per_epoch()),
    {
        let epoch_time = self.epoch_times[epoch_idx];
        let iters = &self.iter_times[epoch_idx];
        assert(self.iter_times()[epoch_idx as int] == iters@);
        let avg_iter = sum(iters) / ((self.iters_per_epoch % 0x1_0000_0000) as u128);
        (epoch_time, avg_iter)
    }
}

} // verus!

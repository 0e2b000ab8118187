//! What comes back from a batch of jobs, whichever order they finish in.

use crate::text;
use crate::text::push_decimal;
use vstd::prelude::*;
use vstd::string::*;

verus! {

/// Identifies one submitted job within its batch, in the order of submission from 0 on: a
/// dense index by which results are put back in that order.
#[derive(Debug, Clone, Copy, PartialEq, Eq, PartialOrd, Ord, Hash)]
pub struct JobId(pub u64);

impl JobId {
    pub fn index(self) -> (i: usize)
        requires
            self.0 <= usize::MAX,
        ensures
            i == self.0,
    {
        self.0 as usize
    }
}

/// One thing that happened to a job. A job that fails has still run: what it produced says
/// so itself.
#[derive(Debug)]
pub enum Event<T> {
    Started { id: JobId, label: String },
    Progress { id: JobId, done: u32, total: u32 },
    Finished { id: JobId, label: String, output: T },
    /// Never started, because the batch was cancelled first. Nothing ran to produce anything.
    Cancelled { id: JobId, label: String },
}

/// What the jobs of a batch produced so far, in the order of submission.
#[derive(Debug)]
pub struct Batch<T> {
    results: Vec<Option<T>>,
    done: usize,
}

/// Whether an event is the last that there is of its job.
pub open spec fn is_last<T>(e: Event<T>) -> bool {
    e is Finished || e is Cancelled
}

/// What the jobs produced, after one more event.
pub open spec fn after<T>(results: Seq<Option<T>>, e: Event<T>) -> Seq<Option<T>> {
    match e {
        Event::Finished { id, output, .. } => results.update(id.0 as int, Some(output)),
        _ => results,
    }
}

/// What the jobs produced, after some events.
pub open spec fn after_all<T>(results: Seq<Option<T>>, events: Seq<Event<T>>) -> Seq<Option<T>>
    decreases events.len(),
{
    if events.len() == 0 {
        results
    } else {
        after(after_all(results, events.drop_last()), events.last())
    }
}

impl<T> Batch<T> {
    /// What each job produced; `None` where it did not run, or has not finished.
    pub closed spec fn results(&self) -> Seq<Option<T>> {
        self.results@
    }

    /// How many jobs there is nothing more to come of.
    pub closed spec fn done(&self) -> nat {
        self.done as nat
    }

    /// A batch of `total` jobs, none of which has produced anything.
    pub fn new(total: usize) -> (b: Batch<T>)
        ensures
            b.results() == Seq::new(total as nat, |i: int| None::<T>),
            b.done() == 0,
    {
        let mut results: Vec<Option<T>> = Vec::new();
        let mut i: usize = 0;
        while i < total
            invariant
                i <= total,
                results@ == Seq::new(i as nat, |k: int| None::<T>),
            decreases total - i,
        {
            results.push(None);
            i += 1;
            assert(results@ =~= Seq::new(i as nat, |k: int| None::<T>));
        }
        Batch { results, done: 0 }
    }

    /// Takes in one event, and says whether it was the last of its job.
    pub fn take(&mut self, event: Event<T>) -> (last: bool)
        requires
            event matches Event::Finished { id, .. } ==> id.0 < old(self).results().len(),
            is_last(event) ==> old(self).done() < old(self).results().len(),
        ensures
            last == is_last(event),
            final(self).results() == after(old(self).results(), event),
            final(self).done() == old(self).done() + (if last {
                1int
            } else {
                0int
            }),
    {
        let total: usize = self.results.len();
        assert(is_last(event) ==> self.done < total);
        match event {
            Event::Finished { id, output, .. } => {
                let i: usize = id.0 as usize;
                self.results.set(i, Some(output));
                self.done = self.done + 1;
                true
            },
            Event::Cancelled { .. } => {
                self.done = self.done + 1;
                true
            },
            _ => false,
        }
    }

    /// Whether nothing more is to come of any job.
    pub fn is_finished(&self) -> (b: bool)
        ensures
            b == (self.done() >= self.results().len()),
    {
        self.done >= self.results.len()
    }

    /// `2 of 5 done`.
    pub fn progress(&self) -> (s: String)
        ensures
            s@ == text::decimal(self.done()) + " of "@ + text::decimal(self.results().len())
                + " done"@,
    {
        let mut s = String::new();
        push_decimal(&mut s, self.done as u64);
        s.append(" of ");
        push_decimal(&mut s, self.results.len() as u64);
        s.append(" done");
        assert(s@ =~= text::decimal(self.done()) + " of "@ + text::decimal(self.results().len())
            + " done"@);
        s
    }

    /// What each job produced, in the order of submission.
    pub fn into_results(self) -> (r: Vec<Option<T>>)
        ensures
            r@ == self.results(),
    {
        self.results
    }
}

/// Results come back in the order of submission, whatever order the jobs finish in: each
/// job's is where it was submitted, and nothing is there of one that never finished.
pub proof fn law_results_keep_submission_order<T>(total: nat, events: Seq<Event<T>>, i: int)
    requires
        0 <= i < total,
        forall|k: int|
            0 <= k < events.len() ==> ((#[trigger] events[k]) matches Event::Finished { id, .. }
                ==> id.0 < total),
        forall|j: int, k: int|
            0 <= j < k < events.len() && (#[trigger] events[j]) is Finished && (
            #[trigger] events[k]) is Finished ==> events[j]->Finished_id != events[k]->Finished_id,
    ensures
        ({
            let results = after_all(Seq::new(total, |n: int| None::<T>), events);
            &&& results.len() == total
            &&& forall|k: int|
                0 <= k < events.len() && (#[trigger] events[k]) is Finished
                    && events[k]->Finished_id.0 == i ==> results[i] == Some(
                    events[k]->Finished_output,
                )
            &&& (forall|k: int|
                0 <= k < events.len() && (#[trigger] events[k]) is Finished
                    ==> events[k]->Finished_id.0 != i) ==> results[i] is None
        }),
    decreases events.len(),
{
    let none = Seq::new(total, |n: int| None::<T>);
    if events.len() > 0 {
        let front = events.drop_last();
        assert forall|k: int| 0 <= k < front.len() implies ((
        #[trigger] front[k]) matches Event::Finished { id, .. } ==> id.0 < total) by {
            assert(front[k] == events[k]);
        }
        assert forall|j: int, k: int|
            0 <= j < k < front.len() && (#[trigger] front[j]) is Finished && (
            #[trigger] front[k]) is Finished implies front[j]->Finished_id
            != front[k]->Finished_id by {
            assert(front[j] == events[j] && front[k] == events[k]);
        }
        law_results_keep_submission_order(total, front, i);
        let last = events.last();
        let n = events.len() - 1;
        assert(last == events[n]);
        let results = after_all(none, events);
        assert forall|k: int|
            0 <= k < events.len() && (#[trigger] events[k]) is Finished
                && events[k]->Finished_id.0 == i implies results[i] == Some(
            events[k]->Finished_output,
        ) by {
            if k < n {
                assert(front[k] == events[k]);
                if last is Finished {
                    assert(events[k]->Finished_id != events[n]->Finished_id);
                }
            }
        }
        if forall|k: int|
            0 <= k < events.len() && (#[trigger] events[k]) is Finished
                ==> events[k]->Finished_id.0 != i {
            assert forall|k: int| 0 <= k < front.len() && (#[trigger] front[k]) is Finished implies
                front[k]->Finished_id.0 != i by {
                assert(front[k] == events[k]);
            }
        }
    }
}

} // verus!

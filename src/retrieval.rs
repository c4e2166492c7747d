//! Bookkeeping for one outstanding retrieval request: which state it is in,
//! when observers are signalled, and which received messages are new.

use vstd::prelude::*;

use crate::dedup::{observe_spec, DedupWindow};
use crate::message::{models, MessageModel, StoredMessage};

verus! {

#[derive(Clone, Copy, Debug, PartialEq, Eq, Structural)]
pub enum RetrievalState {
    /// The request went out; nothing has come back.
    Sent,
    /// At least one batch came back, not the final one.
    PartiallyReceived,
    /// The final batch came, or the deadline passed. Nothing reopens it.
    Complete,
}

#[derive(Clone, Copy, Debug, PartialEq, Eq, Structural)]
pub enum RetrievalOutcome {
    /// The final batch arrived.
    Full,
    /// The deadline passed first; what was collected is all there is.
    PartialResult,
}

#[derive(Clone, Copy, Debug, PartialEq, Eq, Structural)]
pub enum RetrievalEvent {
    /// A response batch arrived.
    Batch { is_final: bool },
    /// The clock reads `now`.
    Tick { now: u64 },
}

/// State of one outstanding retrieval request.
#[derive(Clone, Copy, Debug, PartialEq, Eq, Structural)]
pub struct RetrievalTracker {
    pub state: RetrievalState,
    /// Set exactly when the request is complete.
    pub outcome: Option<RetrievalOutcome>,
    /// Time at which the request completes if the final batch has not come.
    pub deadline: u64,
}

impl RetrievalTracker {
    pub open spec fn wf(&self) -> bool {
        (self.state == RetrievalState::Complete) == (self.outcome is Some)
    }
}

/// The tracker after `ev`, and whether observers are signalled.
pub open spec fn step(t: RetrievalTracker, ev: RetrievalEvent) -> (RetrievalTracker, bool) {
    if t.state == RetrievalState::Complete {
        (t, false)
    } else {
        match ev {
            RetrievalEvent::Batch { is_final } => if is_final {
                (
                    RetrievalTracker {
                        state: RetrievalState::Complete,
                        outcome: Some(RetrievalOutcome::Full),
                        ..t
                    },
                    true,
                )
            } else {
                (RetrievalTracker { state: RetrievalState::PartiallyReceived, ..t }, false)
            },
            RetrievalEvent::Tick { now } => if t.deadline <= now {
                (
                    RetrievalTracker {
                        state: RetrievalState::Complete,
                        outcome: Some(RetrievalOutcome::PartialResult),
                        ..t
                    },
                    true,
                )
            } else {
                (t, false)
            },
        }
    }
}

/// The tracker after `evs` in order, and how many signals they caused.
pub open spec fn run(t: RetrievalTracker, evs: Seq<RetrievalEvent>) -> (RetrievalTracker, nat)
    decreases evs.len(),
{
    if evs.len() == 0 {
        (t, 0)
    } else {
        let (t1, n) = run(t, evs.drop_last());
        let (t2, s) = step(t1, evs.last());
        (t2, n + if s { 1nat } else { 0nat })
    }
}

/// The messages of `batch` whose ids the window `w` has not seen, in order,
/// and the window after observing them all.
pub open spec fn fresh_spec(w: Seq<u64>, cap: nat, batch: Seq<MessageModel>) -> (
    Seq<MessageModel>,
    Seq<u64>,
)
    decreases batch.len(),
{
    if batch.len() == 0 {
        (Seq::empty(), w)
    } else {
        let (f, w1) = fresh_spec(w, cap, batch.drop_last());
        let (new, w2) = observe_spec(w1, cap, batch.last().id);
        (if new { f.push(batch.last()) } else { f }, w2)
    }
}

/// Starting from a request that is not complete, any sequence of events
/// signals observers at most once, and exactly once if the request ends
/// complete; once complete, no event changes it.
pub proof fn lemma_single_signal(t: RetrievalTracker, evs: Seq<RetrievalEvent>)
    requires
        t.wf(),
    ensures
        run(t, evs).0.wf(),
        t.state != RetrievalState::Complete ==> run(t, evs).1 == if run(t, evs).0.state
            == RetrievalState::Complete {
            1nat
        } else {
            0nat
        },
        t.state == RetrievalState::Complete ==> run(t, evs) == (t, 0nat),
    decreases evs.len(),
{
    if evs.len() > 0 {
        lemma_single_signal(t, evs.drop_last());
    }
}

/// What receiving one batch produced.
pub struct BatchReceipt {
    /// Messages of the batch not seen before, in the order received.
    pub fresh: Vec<StoredMessage>,
    /// Whether observers are to be signalled that the request is complete.
    pub signal: bool,
}

impl RetrievalTracker {
    /// A request sent just now that times out at `deadline`.
    pub fn new(deadline: u64) -> (r: RetrievalTracker)
        ensures
            r.wf(),
            r == (RetrievalTracker { state: RetrievalState::Sent, outcome: None, deadline }),
    {
        RetrievalTracker { state: RetrievalState::Sent, outcome: None, deadline }
    }

    pub fn is_complete(&self) -> (r: bool)
        ensures
            r == (self.state == RetrievalState::Complete),
    {
        self.state == RetrievalState::Complete
    }

    /// Applies `ev`; returns whether observers are to be signalled.
    pub fn handle(&mut self, ev: RetrievalEvent) -> (r: bool)
        requires
            old(self).wf(),
        ensures
            final(self).wf(),
            (*final(self), r) == step(*old(self), ev),
    {
        if self.state == RetrievalState::Complete {
            return false;
        }
        match ev {
            RetrievalEvent::Batch { is_final } => {
                if is_final {
                    self.state = RetrievalState::Complete;
                    self.outcome = Some(RetrievalOutcome::Full);
                    true
                } else {
                    self.state = RetrievalState::PartiallyReceived;
                    false
                }
            },
            RetrievalEvent::Tick { now } => {
                if self.deadline <= now {
                    self.state = RetrievalState::Complete;
                    self.outcome = Some(RetrievalOutcome::PartialResult);
                    true
                } else {
                    false
                }
            },
        }
    }

    /// Takes in a response batch: advances the request and picks out the
    /// messages that `seen` has not recorded, recording them. A batch that
    /// comes after completion is still screened and its new messages handed
    /// on, but the request stays complete and signals nothing.
    pub fn receive_batch(
        &mut self,
        batch: &Vec<StoredMessage>,
        is_final: bool,
        seen: &mut DedupWindow,
    ) -> (r: BatchReceipt)
        requires
            old(self).wf(),
            old(seen).wf(),
        ensures
            final(self).wf(),
            final(seen).wf(),
            final(seen).cap() == old(seen).cap(),
            (*final(self), r.signal) == step(*old(self), RetrievalEvent::Batch { is_final }),
            (models(r.fresh@), final(seen)@) == fresh_spec(old(seen)@, old(seen).cap(), models(batch@)),
    {
        let signal = self.handle(RetrievalEvent::Batch { is_final });
        let ghost b = models(batch@);
        let ghost w0 = seen@;
        let mut fresh: Vec<StoredMessage> = Vec::new();
        let mut i: usize = 0;
        assert(b.subrange(0, 0) =~= Seq::<MessageModel>::empty());
        assert(models(fresh@) =~= Seq::<MessageModel>::empty());
        while i < batch.len()
            invariant
                0 <= i <= batch@.len(),
                b == models(batch@),
                seen.wf(),
                seen.cap() == old(seen).cap(),
                (models(fresh@), seen@) == fresh_spec(w0, seen.cap(), b.subrange(0, i as int)),
            decreases batch@.len() - i,
        {
            assert(b.subrange(0, i + 1).drop_last() =~= b.subrange(0, i as int));
            assert(b.subrange(0, i + 1).last() == batch@[i as int]@);
            let ghost before = models(fresh@);
            if seen.observe(batch[i].id) {
                fresh.push(batch[i].clone());
                assert(models(fresh@) =~= before.push(batch@[i as int]@));
            }
            i += 1;
        }
        assert(b.subrange(0, i as int) =~= b);
        BatchReceipt { fresh, signal }
    }
}

} // verus!

verus! {

pub open spec fn ids_of(s: Seq<MessageModel>) -> Seq<u64> {
    s.map_values(|m: MessageModel| m.id)
}

/// While the window has room for every id of a batch, screening the batch
/// hands on no message whose id the window already held, hands on no id
/// twice, and the window afterwards holds its old ids followed by those
/// handed on.
pub proof fn lemma_fresh_no_repeats(w: Seq<u64>, cap: nat, batch: Seq<MessageModel>)
    requires
        w.len() + batch.len() <= cap,
    ensures
        fresh_spec(w, cap, batch).0.len() <= batch.len(),
        fresh_spec(w, cap, batch).1 == w + ids_of(fresh_spec(w, cap, batch).0),
        forall|i: int|
            0 <= i < fresh_spec(w, cap, batch).0.len() ==> !w.contains(
                #[trigger] fresh_spec(w, cap, batch).0[i].id,
            ),
        forall|i: int, j: int|
            0 <= i < j < fresh_spec(w, cap, batch).0.len() ==> fresh_spec(w, cap, batch).0[i].id
                != fresh_spec(w, cap, batch).0[j].id,
    decreases batch.len(),
{
    if batch.len() == 0 {
        assert(w + ids_of(Seq::<MessageModel>::empty()) =~= w);
    } else {
        let d = batch.drop_last();
        let m = batch.last();
        lemma_fresh_no_repeats(w, cap, d);
        let (f, w1) = fresh_spec(w, cap, d);
        if !w1.contains(m.id) {
            let f2 = f.push(m);
            assert(ids_of(f2) =~= ids_of(f).push(m.id));
            assert(w1.push(m.id) =~= w + ids_of(f2));
            assert forall|i: int| 0 <= i < w.len() implies w[i] != m.id by {
                assert(w1[i] == w[i]);
            }
            assert forall|i: int| 0 <= i < f.len() implies f[i].id != m.id by {
                assert(w1[w.len() + i] == f[i].id);
            }
        }
    }
}

} // verus!

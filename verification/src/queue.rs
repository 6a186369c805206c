//! The bounded holding area between the producer and the workers.
//!
//! An entry is either one document (`Some`) or a shutdown sentinel (`None`).
//! Only real documents count against the capacity; sentinels are always
//! accepted, so shutdown can never be blocked by backpressure.  The
//! discipline is FIFO, chosen deliberately: entries go in at the front and
//! come out at the back, so delivery order matches arrival order.
//!
//! The queue itself is purely sequential.  The caller that shares it
//! between threads holds it under one lock with two wait conditions and
//! performs the waiting; every decision — is there room, is a crash fatal
//! now, what comes out next — is made here.

use vstd::prelude::*;

verus! {

/// Number of real documents (non-sentinel entries) in a queue state.
pub open spec fn document_count(s: Seq<Option<String>>) -> int
    decreases s.len(),
{
    if s.len() == 0 {
        0
    } else {
        document_count(s.drop_last()) + if s.last() is Some {
            1int
        } else {
            0int
        }
    }
}

pub proof fn lemma_document_count_bounds(s: Seq<Option<String>>)
    ensures
        0 <= document_count(s) <= s.len(),
    decreases s.len(),
{
    if s.len() > 0 {
        lemma_document_count_bounds(s.drop_last());
    }
}

proof fn lemma_document_count_prepend(x: Option<String>, s: Seq<Option<String>>)
    ensures
        document_count(seq![x] + s) == document_count(s) + if x is Some {
            1int
        } else {
            0int
        },
    decreases s.len(),
{
    if s.len() == 0 {
        assert(seq![x] + s =~= seq![x]);
        assert((seq![x]).drop_last() =~= Seq::<Option<String>>::empty());
        assert((seq![x]).last() == x);
        assert(document_count(Seq::<Option<String>>::empty()) == 0);
        assert(document_count(s) == 0);
    } else {
        assert((seq![x] + s).drop_last() =~= seq![x] + s.drop_last());
        assert((seq![x] + s).last() == s.last());
        assert((seq![x] + s).len() == s.len() + 1);
        lemma_document_count_prepend(x, s.drop_last());
    }
}

/// What one push attempt decided.
#[derive(Clone, Copy, Debug, PartialEq, Eq, Structural)]
pub enum PushStep {
    /// The entry is in the queue.
    Inserted,
    /// No room for a document right now; the caller should wait for space
    /// and try again.
    Wait,
    /// No room, and a consumer has died: waiting any longer is pointless.
    /// The entry was not enqueued.
    Aborted,
}

/// A fixed-capacity FIFO buffer of pending documents and shutdown
/// sentinels.
pub struct BoundedQueue {
    entries: Vec<Option<String>>,
    capacity: usize,
    doc_count: usize,
}

impl BoundedQueue {
    /// The entries, front first; the back is popped next.
    pub closed spec fn entries_view(&self) -> Seq<Option<String>> {
        self.entries@
    }

    /// The fixed capacity the queue was created with.
    pub closed spec fn cap(&self) -> int {
        self.capacity as int
    }

    pub closed spec fn counted_docs(&self) -> int {
        self.doc_count as int
    }

    /// The queue invariant: the running document tally is exact, and the
    /// number of real documents never exceeds the capacity.
    pub open spec fn wf(&self) -> bool {
        &&& self.counted_docs() == document_count(self.entries_view())
        &&& document_count(self.entries_view()) <= self.cap()
    }

    /// Whether a push of `item` is accepted right now: sentinels always,
    /// documents only while the capacity is not yet reached.
    pub open spec fn accepts(&self, item: Option<String>) -> bool {
        item is None || document_count(self.entries_view()) < self.cap()
    }

    pub fn new(capacity: usize) -> (q: BoundedQueue)
        ensures
            q.wf(),
            q.cap() == capacity,
            q.entries_view() == Seq::<Option<String>>::empty(),
    {
        BoundedQueue { entries: Vec::new(), capacity, doc_count: 0 }
    }

    /// How many entries, documents and sentinels together, are pending.
    pub fn len(&self) -> (r: usize)
        ensures
            r == self.entries_view().len(),
    {
        self.entries.len()
    }

    /// How many real documents are pending.
    pub fn document_total(&self) -> (r: usize)
        requires
            self.wf(),
        ensures
            r == document_count(self.entries_view()),
    {
        self.doc_count
    }

    /// One push attempt by the producer.  `crash_seen` is the crash flag as
    /// sampled after a timed-out wait (false on the first attempt): a full
    /// queue turns into `Aborted` when a consumer has died, and into `Wait`
    /// otherwise.  The queue is unchanged unless the entry went in.
    pub fn push_step(&mut self, item: Option<String>, crash_seen: bool) -> (r: PushStep)
        requires
            old(self).wf(),
        ensures
            final(self).wf(),
            final(self).cap() == old(self).cap(),
            old(self).accepts(item) ==> r == PushStep::Inserted && final(self).entries_view()
                == seq![item] + old(self).entries_view(),
            !old(self).accepts(item) && crash_seen ==> r == PushStep::Aborted
                && final(self).entries_view() == old(self).entries_view(),
            !old(self).accepts(item) && !crash_seen ==> r == PushStep::Wait
                && final(self).entries_view() == old(self).entries_view(),
    {
        let ghost it = item;
        let ghost pre = self.entries@;
        let sentinel = item.is_none();
        if sentinel || self.doc_count < self.capacity {
            proof {
                lemma_document_count_prepend(it, pre);
            }
            self.entries.insert(0, item);
            proof {
                assert(self.entries@ =~= seq![it] + pre);
            }
            if !sentinel {
                self.doc_count = self.doc_count + 1;
            }
            PushStep::Inserted
        } else if crash_seen {
            PushStep::Aborted
        } else {
            PushStep::Wait
        }
    }

    /// Take the oldest entry, document or sentinel, or nothing if the queue
    /// is empty.  The caller that shares the queue blocks on its not-empty
    /// condition around this.
    pub fn try_pop(&mut self) -> (r: Option<Option<String>>)
        requires
            old(self).wf(),
        ensures
            final(self).wf(),
            final(self).cap() == old(self).cap(),
            old(self).entries_view().len() > 0 ==> r == Some(old(self).entries_view().last())
                && final(self).entries_view() == old(self).entries_view().drop_last(),
            old(self).entries_view().len() == 0 ==> r is None
                && final(self).entries_view() == old(self).entries_view(),
    {
        let ghost pre = self.entries@;
        if self.entries.len() == 0 {
            return None;
        }
        proof {
            lemma_document_count_bounds(pre.drop_last());
            assert(pre.subrange(0, pre.len() - 1) =~= pre.drop_last());
        }
        let v = match self.entries.pop() {
            Some(v) => v,
            None => {
                // unreachable: the queue was just seen to be non-empty
                proof {
                    assert(false);
                }
                None
            },
        };
        if v.is_some() {
            self.doc_count = self.doc_count - 1;
        }
        Some(v)
    }

    /// Deliver the shutdown order: exactly one sentinel per worker, in one
    /// batch.  Sentinels bypass the capacity, so this never waits and never
    /// fails, on the success path and on the early-abort path alike, and
    /// the documents already enqueued stay where they are.
    #[verifier::loop_isolation(false)]
    pub fn enqueue_shutdown(&mut self, workers: usize)
        requires
            old(self).wf(),
        ensures
            final(self).wf(),
            final(self).cap() == old(self).cap(),
            final(self).entries_view().len() == old(self).entries_view().len() + workers,
            forall|i: int| 0 <= i < workers ==> final(self).entries_view()[i] is None,
            forall|i: int| 0 <= i < old(self).entries_view().len() ==> final(self).entries_view()[
                workers + i
            ] == old(self).entries_view()[i],
            document_count(final(self).entries_view()) == document_count(old(self).entries_view()),
    {
        let ghost base = old(self).entries_view();
        let mut pushed: usize = 0;
        while pushed < workers
            invariant
                pushed <= workers,
                self.wf(),
                self.cap() == old(self).cap(),
                self.entries_view().len() == base.len() + pushed,
                forall|i: int| 0 <= i < pushed ==> self.entries_view()[i] is None,
                forall|i: int| 0 <= i < base.len() ==> self.entries_view()[pushed + i] == base[i],
                document_count(self.entries_view()) == document_count(base),
            decreases workers - pushed,
        {
            let ghost pre = self.entries_view();
            let step = self.push_step(None, false);
            proof {
                lemma_document_count_prepend(None, pre);
            }
            pushed = pushed + 1;
        }
    }
}

/// Backpressure law: a queue already holding `capacity` documents accepts
/// no further document, while a sentinel is accepted in every state.
pub proof fn lemma_push_respects_capacity(q: BoundedQueue, item: Option<String>)
    requires
        q.wf(),
    ensures
        item is Some && document_count(q.entries_view()) == q.cap() ==> !q.accepts(item),
        item is None ==> q.accepts(item),
{
}

} // verus!

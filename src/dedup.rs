use vstd::prelude::*;

verus! {

/// The window after observing `id` when it holds `w` and keeps at most `cap`
/// ids, and whether `id` was new.
pub open spec fn observe_spec(w: Seq<u64>, cap: nat, id: u64) -> (bool, Seq<u64>) {
    if w.contains(id) {
        (false, w)
    } else if w.len() + 1 > cap {
        (true, w.push(id).drop_first())
    } else {
        (true, w.push(id))
    }
}

/// A bounded recency window of message ids seen lately, oldest first; used
/// to avoid storing or handing on the same message twice.
pub struct DedupWindow {
    capacity: usize,
    ids: Vec<u64>,
}

impl View for DedupWindow {
    type V = Seq<u64>;

    closed spec fn view(&self) -> Seq<u64> {
        self.ids@
    }
}

impl DedupWindow {
    pub closed spec fn cap(&self) -> nat {
        self.capacity as nat
    }

    pub open spec fn wf(&self) -> bool {
        self@.len() <= self.cap()
    }

    /// An empty window that remembers up to `capacity` ids.
    pub fn new(capacity: usize) -> (r: DedupWindow)
        ensures
            r.wf(),
            r.cap() == capacity,
            r@ == Seq::<u64>::empty(),
    {
        DedupWindow { capacity, ids: Vec::new() }
    }

    pub fn len(&self) -> (r: usize)
        ensures
            r == self@.len(),
    {
        self.ids.len()
    }

    /// Whether `id` is among the ids remembered.
    pub fn contains(&self, id: u64) -> (r: bool)
        ensures
            r == self@.contains(id),
    {
        let mut i: usize = 0;
        while i < self.ids.len()
            invariant
                0 <= i <= self@.len(),
                forall|k: int| 0 <= k < i ==> self@[k] != id,
            decreases self@.len() - i,
        {
            if self.ids[i] == id {
                assert(self@[i as int] == id);
                return true;
            }
            i += 1;
        }
        false
    }

    /// Records `id`; returns whether it was new. When the window is full the
    /// oldest id is forgotten.
    pub fn observe(&mut self, id: u64) -> (r: bool)
        requires
            old(self).wf(),
        ensures
            final(self).wf(),
            final(self).cap() == old(self).cap(),
            (r, final(self)@) == observe_spec(old(self)@, old(self).cap(), id),
    {
        if self.contains(id) {
            return false;
        }
        self.ids.push(id);
        if self.ids.len() > self.capacity {
            self.ids.remove(0);
            assert(self.ids@ =~= old(self)@.push(id).drop_first());
        }
        true
    }
}

} // verus!

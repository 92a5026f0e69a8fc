use vstd::prelude::*;

verus! {

/// Subscription ids strictly increase along the list and stay below the next id.
pub open spec fn ids_ordered(s: Seq<u64>, next: u64) -> bool {
    &&& forall|i: int, j: int| 0 <= i < j < s.len() ==> #[trigger] s[i] < #[trigger] s[j]
    &&& forall|i: int| 0 <= i < s.len() ==> #[trigger] s[i] < next
}

/// A writable store: a value and the subscriptions to its changes. Each
/// subscription is an id; whoever holds the id keeps the callback, and runs
/// it for each id that `set` returns.
pub struct Writable<T> {
    state: T,
    listeners: Vec<u64>,
    next_id: u64,
}

impl<T> Writable<T> {
    pub closed spec fn value(&self) -> T {
        self.state
    }

    pub closed spec fn subscribers(&self) -> Seq<u64> {
        self.listeners@
    }

    pub closed spec fn next(&self) -> u64 {
        self.next_id
    }

    pub closed spec fn wf(&self) -> bool {
        ids_ordered(self.listeners@, self.next_id)
    }

    pub fn new(state: T) -> (r: Self)
        ensures
            r.wf(),
            r.value() == state,
            r.subscribers().len() == 0,
            r.next() == 0,
    {
        Writable { state, listeners: Vec::new(), next_id: 0 }
    }

    pub fn get(&self) -> (r: &T)
        ensures
            *r == self.value(),
    {
        &self.state
    }

    /// Adds a subscription and returns its id.
    pub fn subscribe(&mut self) -> (id: u64)
        requires
            old(self).wf(),
            old(self).next() < u64::MAX,
        ensures
            final(self).wf(),
            id == old(self).next(),
            final(self).next() == id + 1,
            final(self).subscribers() == old(self).subscribers().push(id),
            final(self).value() == old(self).value(),
    {
        let id = self.next_id;
        self.next_id = id + 1;
        self.listeners.push(id);
        id
    }

    /// Ends the subscription `id`, if it is still there.
    pub fn unsubscribe(&mut self, id: u64)
        requires
            old(self).wf(),
        ensures
            final(self).wf(),
            final(self).next() == old(self).next(),
            final(self).value() == old(self).value(),
            final(self).subscribers() == old(self).subscribers().filter(|x: u64| x != id),
    {
        let ghost s0 = self.listeners@;
        let mut i: usize = 0;
        while i < self.listeners.len()
            invariant
                self.listeners@ == s0,
                s0 == old(self).subscribers(),
                self.next_id == old(self).next(),
                self.state == old(self).value(),
                ids_ordered(s0, self.next_id),
                i <= s0.len(),
                forall|k: int| 0 <= k < i ==> s0[k] != id,
            decreases s0.len() - i,
        {
            if self.listeners[i] == id {
                self.listeners.remove(i);
                proof {
                    let s = self.listeners@;
                    assert(s =~= s0.remove(i as int));
                    lemma_filter_one(s0, i as int, id);
                    assert forall|a: int, b: int| 0 <= a < b < s.len() implies #[trigger] s[a] < #[trigger] s[b] by {
                        let a2 = if a < i { a } else { a + 1 };
                        let b2 = if b < i { b } else { b + 1 };
                        assert(s[a] == s0[a2] && s[b] == s0[b2]);
                    }
                    assert forall|a: int| 0 <= a < s.len() implies #[trigger] s[a] < self.next_id by {
                        let a2 = if a < i { a } else { a + 1 };
                        assert(s[a] == s0[a2]);
                    }
                }
                return;
            }
            i += 1;
        }
        proof {
            lemma_filter_none(s0, id);
        }
    }

    /// Replaces the value and returns the subscriptions to notify, in the
    /// order they were made.
    pub fn set(&mut self, state: T) -> (r: Vec<u64>)
        requires
            old(self).wf(),
        ensures
            final(self).wf(),
            final(self).value() == state,
            final(self).subscribers() == old(self).subscribers(),
            final(self).next() == old(self).next(),
            r@ == old(self).subscribers(),
    {
        self.state = state;
        self.listeners.clone()
    }
}

proof fn lemma_filter_none(s: Seq<u64>, id: u64)
    requires
        forall|k: int| 0 <= k < s.len() ==> s[k] != id,
    ensures
        s.filter(|x: u64| x != id) == s,
    decreases s.len(),
{
    reveal(Seq::filter);
    if s.len() > 0 {
        lemma_filter_none(s.drop_last(), id);
        assert(s.drop_last().push(s.last()) =~= s);
    } else {
        assert(s.filter(|x: u64| x != id) =~= s);
    }
}

proof fn lemma_filter_one(s: Seq<u64>, i: int, id: u64)
    requires
        0 <= i < s.len(),
        s[i] == id,
        forall|a: int, b: int| 0 <= a < b < s.len() ==> #[trigger] s[a] < #[trigger] s[b],
    ensures
        s.filter(|x: u64| x != id) == s.remove(i),
    decreases s.len(),
{
    reveal(Seq::filter);
    if i == s.len() - 1 {
        assert forall|k: int| 0 <= k < s.drop_last().len() implies s.drop_last()[k] != id by {
            assert(s[k] < s[i]);
        }
        lemma_filter_none(s.drop_last(), id);
        assert(s.remove(i) =~= s.drop_last());
    } else {
        lemma_filter_one(s.drop_last(), i, id);
        assert(s.last() != id) by {
            assert(s[i] < s[s.len() - 1]);
        }
        assert(s.remove(i) =~= s.drop_last().remove(i).push(s.last()));
    }
}

} // verus!

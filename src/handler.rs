use vstd::prelude::*;

verus! {

/// Tokens strictly increase along the list and stay below the next token.
pub open spec fn tokens_ordered<H>(s: Seq<(usize, H)>, next: usize) -> bool {
    &&& forall|i: int, j: int| 0 <= i < j < s.len() ==> #[trigger] s[i].0 < #[trigger] s[j].0
    &&& forall|i: int| 0 <= i < s.len() ==> #[trigger] s[i].0 < next
}

/// A node's event handlers, each kept under the token it was registered
/// with so that it can be removed later without disturbing the others.
/// Handlers run in registration order.
pub struct EventHandlerDatabase<H> {
    handlers: Vec<(usize, H)>,
    next_token: usize,
}

impl<H> EventHandlerDatabase<H> {
    pub closed spec fn entries(&self) -> Seq<(usize, H)> {
        self.handlers@
    }

    pub closed spec fn next(&self) -> usize {
        self.next_token
    }

    pub closed spec fn wf(&self) -> bool {
        tokens_ordered(self.handlers@, self.next_token)
    }

    /// A database with no handlers.
    pub fn empty() -> (r: Self)
        ensures
            r.wf(),
            r.entries().len() == 0,
            r.next() == 0,
    {
        EventHandlerDatabase { handlers: Vec::new(), next_token: 0 }
    }

    /// A database holding `handlers`, registered in order under tokens 0, 1, ...
    pub fn new(handlers: Vec<H>) -> (r: Self)
        ensures
            r.wf(),
            r.next() == handlers@.len(),
            r.entries().len() == handlers@.len(),
            forall|i: int| 0 <= i < handlers@.len() ==> #[trigger] r.entries()[i] == (i as usize, handlers@[i]),
    {
        let mut db = Self::empty();
        let mut rest = handlers;
        let total = rest.len();
        let ghost all = rest@;
        let mut rev: Vec<H> = Vec::new();
        while rest.len() > 0
            invariant
                rev@.len() + rest@.len() == all.len(),
                forall|i: int| 0 <= i < rest@.len() ==> rest@[i] == all[i],
                forall|i: int| 0 <= i < rev@.len() ==> rev@[i] == all[all.len() - 1 - i],
                all.len() == total,
            decreases rest@.len(),
        {
            let h = rest.pop().unwrap();
            rev.push(h);
        }
        while rev.len() > 0
            invariant
                db.wf(),
                db.next() == db.entries().len(),
                db.entries().len() + rev@.len() == all.len(),
                forall|i: int| 0 <= i < db.entries().len() ==> #[trigger] db.entries()[i] == (i as usize, all[i]),
                forall|i: int| 0 <= i < rev@.len() ==> rev@[i] == all[all.len() - 1 - i],
                all.len() <= usize::MAX,
            decreases rev@.len(),
        {
            let h = rev.pop().unwrap();
            let ghost k = db.entries().len();
            db.add_handler(h);
            assert(db.entries()[k as int] == (k as usize, all[k as int]));
        }
        db
    }

    /// Registers `handler` and returns its token.
    pub fn add_handler(&mut self, handler: H) -> (token: usize)
        requires
            old(self).wf(),
            old(self).next() < usize::MAX,
        ensures
            final(self).wf(),
            token == old(self).next(),
            final(self).next() == token + 1,
            final(self).entries() == old(self).entries().push((token, handler)),
    {
        let token = self.next_token;
        self.next_token = self.next_token + 1;
        self.handlers.push((token, handler));
        token
    }

    /// Removes the handler registered under `token`, if it is still there.
    pub fn remove_handler(&mut self, token: usize)
        requires
            old(self).wf(),
        ensures
            final(self).wf(),
            final(self).next() == old(self).next(),
            final(self).entries() == old(self).entries().filter(|e: (usize, H)| e.0 != token),
    {
        let ghost s0 = self.handlers@;
        let ghost n0 = self.next_token;
        let mut i: usize = 0;
        while i < self.handlers.len()
            invariant
                self.handlers@ == s0,
                self.next_token == n0,
                s0 == old(self).entries(),
                n0 == old(self).next(),
                tokens_ordered(s0, self.next_token),
                i <= s0.len(),
                forall|k: int| 0 <= k < i ==> s0[k].0 != token,
            decreases s0.len() - i,
        {
            if self.handlers[i].0 == token {
                self.handlers.remove(i);
                proof {
                    let s = self.handlers@;
                    assert(s =~= s0.remove(i as int));
                    lemma_filter_one(s0, i as int, token);
                    assert forall|a: int, b: int| 0 <= a < b < s.len() implies #[trigger] s[a].0 < #[trigger] s[b].0 by {
                        let a2 = if a < i { a } else { a + 1 };
                        let b2 = if b < i { b } else { b + 1 };
                        assert(s[a] == s0[a2] && s[b] == s0[b2]);
                    }
                    assert forall|a: int| 0 <= a < s.len() implies #[trigger] s[a].0 < self.next_token by {
                        let a2 = if a < i { a } else { a + 1 };
                        assert(s[a] == s0[a2]);
                    }
                }
                return;
            }
            i += 1;
        }
        proof {
            lemma_filter_none(s0, token);
        }
    }

    /// The registered handlers with their tokens, in registration order.
    pub fn handlers(&self) -> (r: &Vec<(usize, H)>)
        ensures
            r@ == self.entries(),
    {
        &self.handlers
    }

    pub fn len(&self) -> (r: usize)
        ensures
            r == self.entries().len(),
    {
        self.handlers.len()
    }
}

proof fn lemma_filter_none<H>(s: Seq<(usize, H)>, token: usize)
    requires
        forall|k: int| 0 <= k < s.len() ==> s[k].0 != token,
    ensures
        s.filter(|e: (usize, H)| e.0 != token) == s,
    decreases s.len(),
{
    if s.len() > 0 {
        lemma_filter_none(s.drop_last(), token);
        assert(s.drop_last().push(s.last()) =~= s);
    }
    assert(s.filter(|e: (usize, H)| e.0 != token) =~= s) by {
        reveal(Seq::filter);
        if s.len() > 0 {
            assert(s.drop_last().push(s.last()) =~= s);
        }
    }
}

proof fn lemma_filter_one<H>(s: Seq<(usize, H)>, i: int, token: usize)
    requires
        0 <= i < s.len(),
        s[i].0 == token,
        forall|a: int, b: int| 0 <= a < b < s.len() ==> #[trigger] s[a].0 < #[trigger] s[b].0,
    ensures
        s.filter(|e: (usize, H)| e.0 != token) == s.remove(i),
    decreases s.len(),
{
    reveal(Seq::filter);
    if i == s.len() - 1 {
        assert forall|k: int| 0 <= k < s.drop_last().len() implies s.drop_last()[k].0 != token by {
            assert(s[k].0 < s[i].0);
        }
        lemma_filter_none(s.drop_last(), token);
        assert(s.remove(i) =~= s.drop_last());
    } else {
        lemma_filter_one(s.drop_last(), i, token);
        assert(s.last().0 != token) by {
            assert(s[i].0 < s[s.len() - 1].0);
        }
        assert(s.remove(i) =~= s.drop_last().remove(i).push(s.last()));
    }
}

/// The handlers of one node as (node, token) pairs, in registration order.
pub open spec fn tagged<H>(n: usize, entries: Seq<(usize, H)>) -> Seq<(usize, usize)> {
    entries.map_values(|e: (usize, H)| (n, e.0))
}

/// The handler invocations for nodes visited in `order`: every handler of the
/// first node, then every handler of the second, and so on.
pub open spec fn schedule<H>(order: Seq<usize>, dbs: Seq<EventHandlerDatabase<H>>) -> Seq<(usize, usize)>
    decreases order.len(),
{
    if order.len() == 0 {
        Seq::empty()
    } else {
        schedule(order.drop_last(), dbs) + tagged(order.last(), dbs[order.last() as int].entries())
    }
}

/// The handler invocations for an event along `path` (root first, target
/// last), as (node, token) pairs: the target's handlers first, then its
/// parent's, up to the root's, each node's in registration order.
pub fn invocation_order<H>(path: &Vec<usize>, dbs: &Vec<EventHandlerDatabase<H>>) -> (r: Vec<(usize, usize)>)
    requires
        forall|i: int| 0 <= i < path@.len() ==> (#[trigger] path@[i] as int) < dbs@.len(),
    ensures
        r@ == schedule(path@.reverse(), dbs@),
{
    let order = crate::events::dispatch_order(path);
    let mut r: Vec<(usize, usize)> = Vec::new();
    let mut i: usize = 0;
    while i < order.len()
        invariant
            order@ == path@.reverse(),
            order@.len() == path@.len(),
            forall|k: int| 0 <= k < order@.len() ==> (#[trigger] order@[k] as int) < dbs@.len(),
            i <= order@.len(),
            r@ == schedule(order@.take(i as int), dbs@),
        decreases order@.len() - i,
    {
        let n = order[i];
        let hs = dbs[n].handlers();
        let ghost r0 = r@;
        let mut j: usize = 0;
        while j < hs.len()
            invariant
                r@ == r0 + tagged(n, hs@.take(j as int)),
                j <= hs@.len(),
            decreases hs@.len() - j,
        {
            r.push((n, hs[j].0));
            proof {
                assert(tagged(n, hs@.take(j as int + 1)) =~= tagged(n, hs@.take(j as int)).push((n, hs@[j as int].0)));
                assert(r@ =~= r0 + tagged(n, hs@.take(j as int + 1)));
            }
            j += 1;
        }
        proof {
            assert(hs@.take(hs@.len() as int) =~= hs@);
            assert(order@.take(i as int + 1).drop_last() =~= order@.take(i as int));
            assert(order@.take(i as int + 1).last() == n);
        }
        i += 1;
    }
    proof {
        assert(order@.take(order@.len() as int) =~= order@);
    }
    r
}

/// For a path root, middle, leaf, every handler of the leaf runs, then every
/// handler of the middle node, then every handler of the root.
pub proof fn lemma_leaf_handlers_first<H>(root: usize, mid: usize, leaf: usize, dbs: Seq<EventHandlerDatabase<H>>)
    ensures
        schedule(seq![root, mid, leaf].reverse(), dbs) == tagged(leaf, dbs[leaf as int].entries()) + tagged(
            mid,
            dbs[mid as int].entries(),
        ) + tagged(root, dbs[root as int].entries()),
{
    let o = seq![root, mid, leaf].reverse();
    let tl = tagged(leaf, dbs[leaf as int].entries());
    let tm = tagged(mid, dbs[mid as int].entries());
    let tr = tagged(root, dbs[root as int].entries());
    assert(o =~= seq![leaf, mid, root]);
    let o1 = seq![leaf];
    let o2 = seq![leaf, mid];
    assert(o1.drop_last() =~= Seq::<usize>::empty());
    assert(schedule(Seq::<usize>::empty(), dbs) == Seq::<(usize, usize)>::empty());
    assert(schedule(o1, dbs) == schedule(o1.drop_last(), dbs) + tl);
    assert(schedule(o1, dbs) =~= tl);
    assert(o2.drop_last() =~= o1);
    assert(schedule(o2, dbs) == schedule(o2.drop_last(), dbs) + tm);
    assert(o.drop_last() =~= o2);
    assert(schedule(o, dbs) == schedule(o.drop_last(), dbs) + tr);
}

} // verus!

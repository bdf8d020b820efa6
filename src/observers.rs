//! The observer registry: per-node subscription ids handed to the host.
use vstd::prelude::*;
use crate::graph::FrpContext;

verus! {

impl<V: Copy, F: Fn(Vec<V>) -> V> FrpContext<V, F> {
    /// Subscribes to node `id`: returns a fresh subscription id together with the
    /// node's current value, which the new observer sees at once.
    pub fn observe(&mut self, id: usize) -> (r: (usize, Option<V>))
        requires
            old(self).wf(),
            old(self).is_live(id as int),
            old(self).nodes@[id as int].next_observer < usize::MAX,
        ensures
            final(self).wf(),
            r.0 == old(self).nodes@[id as int].next_observer,
            r.1 == old(self).value_of(id as int),
            final(self).nodes@[id as int].observers@ == old(self).nodes@[id as int].observers@.push(r.0),
            final(self).nodes@[id as int].next_observer == r.0 + 1,
            final(self).nodes@.len() == old(self).nodes@.len(),
            final(self).dirty == old(self).dirty,
            final(self).transaction_depth == old(self).transaction_depth,
            final(self).inside_switch == old(self).inside_switch,
            forall|k: int|
                #![trigger final(self).nodes@[k]]
                0 <= k < old(self).nodes@.len() && k != id ==> final(self).nodes@[k] == old(self).nodes@[k],
            final(self).nodes@[id as int].value == old(self).nodes@[id as int].value,
            final(self).nodes@[id as int].live,
            final(self).nodes@[id as int].inputs == old(self).nodes@[id as int].inputs,
            final(self).nodes@[id as int].dependents == old(self).nodes@[id as int].dependents,
            final(self).nodes@[id as int].alias == old(self).nodes@[id as int].alias,
            final(self).nodes@[id as int].loop_target == old(self).nodes@[id as int].loop_target,
            final(self).nodes@[id as int].rule == old(self).nodes@[id as int].rule,
            final(self).nodes@[id as int].resets == old(self).nodes@[id as int].resets,
            final(self).nodes@[id as int].children == old(self).nodes@[id as int].children,
    {
        let value = self.current_value(id);
        let sub = self.nodes[id].next_observer;
        self.nodes[id].observers.push(sub);
        self.nodes[id].next_observer = sub + 1;
        assert(self.dirty_set() == old(self).dirty_set());
        (sub, value)
    }

    /// Removes subscription `sub` from node `id`; a no-op when it is not there.
    pub fn unobserve(&mut self, id: usize, sub: usize)
        requires
            old(self).wf(),
        ensures
            final(self).wf(),
            final(self).nodes@.len() == old(self).nodes@.len(),
            final(self).dirty == old(self).dirty,
            final(self).transaction_depth == old(self).transaction_depth,
            final(self).inside_switch == old(self).inside_switch,
            forall|k: int|
                #![trigger final(self).nodes@[k]]
                0 <= k < old(self).nodes@.len() && k != id ==> final(self).nodes@[k] == old(self).nodes@[k],
            id < old(self).nodes@.len() ==> {
                &&& final(self).nodes@[id as int].value == old(self).nodes@[id as int].value
                &&& final(self).nodes@[id as int].live == old(self).nodes@[id as int].live
                &&& final(self).nodes@[id as int].next_observer == old(self).nodes@[id as int].next_observer
                &&& final(self).nodes@[id as int].observers@ == old(self).nodes@[id as int].observers@.filter(
                    |o: usize| o != sub,
                )
            },
    {
        if id >= self.nodes.len() {
            return;
        }
        let mut kept: Vec<usize> = Vec::new();
        let mut j: usize = 0;
        let n = self.nodes[id].observers.len();
        while j < n
            invariant
                self.wf(),
                *self == *old(self),
                id < self.nodes@.len(),
                n == self.nodes@[id as int].observers@.len(),
                j <= n,
                kept@ == self.nodes@[id as int].observers@.subrange(0, j as int).filter(|o: usize| o != sub),
                kept@.no_duplicates(),
                forall|i: int| 0 <= i < kept@.len() ==> self.nodes@[id as int].observers@.subrange(0, j as int).contains(#[trigger] kept@[i]),
            decreases n - j,
        {
            let o = self.nodes[id].observers[j];
            proof {
                let s = self.nodes@[id as int].observers@;
                assert(s.subrange(0, j + 1) =~= s.subrange(0, j as int).push(o));
                s.subrange(0, j as int).lemma_filter_push(o, |o: usize| o != sub);
            }
            let ghost before = kept@;
            if o != sub {
                kept.push(o);
            }
            proof {
                let s = self.nodes@[id as int].observers@;
                assert forall|i: int| 0 <= i < kept@.len() implies s.subrange(0, j + 1).contains(#[trigger] kept@[i]) by {
                    if i < before.len() {
                        let w = s.subrange(0, j as int).index_of(kept@[i]);
                        assert(s.subrange(0, j + 1)[w] == kept@[i]);
                    } else {
                        assert(s.subrange(0, j + 1)[j as int] == o);
                    }
                }
                if o != sub {
                    assert forall|i: int| 0 <= i < before.len() implies #[trigger] before[i] != o by {
                        let w = s.subrange(0, j as int).index_of(before[i]);
                        assert(s[w] == before[i]);
                    }
                }
            }
            j = j + 1;
        }
        proof {
            assert(self.nodes@[id as int].observers@.subrange(0, n as int) =~= self.nodes@[id as int].observers@);
        }
        let ghost pre = *self;
        self.nodes[id].observers = kept;
        proof {
            assert(self.dirty_set() == old(self).dirty_set());
            let s = pre.nodes@[id as int].observers@;
            assert forall|i: int| 0 <= i < self.nodes@[id as int].observers@.len() implies
                #[trigger] self.nodes@[id as int].observers@[i] < self.nodes@[id as int].next_observer by {
                let w = s.index_of(self.nodes@[id as int].observers@[i]);
                assert(s[w] < pre.nodes@[id as int].next_observer);
            }
        }
    }
}

} // verus!

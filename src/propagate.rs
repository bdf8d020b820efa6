//! Transactions and the propagation sweep.
use vstd::prelude::*;
use crate::graph::{FrpContext, Node, computes, all_present, unwrap_all};
use crate::handles::{CellSink, StreamSink};
use crate::toposort::{ts_items, ts_links, ts_new, ts_insert, ts_add_dependency, ts_pop};

verus! {

/// One call owed to an observer: subscription `observer` of node `cell` sees `value`.
#[derive(Debug, PartialEq, Eq)]
pub struct Notification<V> {
    pub cell: usize,
    pub observer: usize,
    pub value: V,
}

/// What a sweep did: the nodes it visited, in order, the notifications owed to
/// observers, in order, and the switch nodes whose selector changed.
pub struct Sweep<V> {
    pub updated: Vec<usize>,
    pub notifications: Vec<Notification<V>>,
    pub switched: Vec<usize>,
}

/// `b` holds what `a` holds, but perhaps for the value.
pub open spec fn same_but_value<V, F>(a: Node<V, F>, b: Node<V, F>) -> bool {
    &&& b.live == a.live
    &&& b.alias == a.alias
    &&& b.loop_target == a.loop_target
    &&& b.rule == a.rule
    &&& b.is_switch == a.is_switch
    &&& b.inputs == a.inputs
    &&& b.dependents == a.dependents
    &&& b.observers == a.observers
    &&& b.next_observer == a.next_observer
    &&& b.resets == a.resets
    &&& b.children == a.children
    &&& b.enclosing == a.enclosing
}

/// When each member of `s` has a smaller member, every member is at least `k`.
proof fn lemma_none_below(s: Set<usize>, k: nat)
    requires
        forall|x: usize| #[trigger] s.contains(x) ==> exists|y: usize| s.contains(y) && y < x,
    ensures
        forall|x: usize| #[trigger] s.contains(x) ==> x >= k,
    decreases k,
{
    if k > 0 {
        lemma_none_below(s, (k - 1) as nat);
        assert forall|x: usize| #[trigger] s.contains(x) implies x >= k by {
            if x < k {
                let y = choose|y: usize| s.contains(y) && y < x;
                assert(s.contains(y));
            }
        }
    }
}

/// A set of handles in which every member has a smaller member is empty.
proof fn lemma_no_least_is_empty(s: Set<usize>)
    requires
        forall|x: usize| #[trigger] s.contains(x) ==> exists|y: usize| s.contains(y) && y < x,
    ensures
        s == Set::<usize>::empty(),
{
    assert forall|x: usize| !s.contains(x) by {
        if s.contains(x) {
            lemma_none_below(s, x as nat + 1);
        }
    }
    assert(s =~= Set::<usize>::empty());
}

impl<V: Copy, F: Fn(Vec<V>) -> V> FrpContext<V, F> {
    /// Every input of node `n` holds its value directly.
    pub open spec fn plain_inputs(&self, n: int) -> bool {
        forall|j: int|
            #![trigger self.nodes[n].inputs@[j]]
            0 <= j < self.nodes[n].inputs@.len() ==> {
                &&& self.nodes[self.nodes[n].inputs@[j] as int].alias is None
                &&& self.nodes[self.nodes[n].inputs@[j] as int].loop_target is None
            }
    }

    /// Node `n` is recomputed by the sweep from inputs that hold their values directly.
    pub open spec fn settles(&self, n: int) -> bool {
        &&& self.is_direct(n)
        &&& self.nodes[n].rule is Some
        &&& self.plain_inputs(n)
    }

    /// No input of node `n` is a stream.
    pub open spec fn persistent_inputs(&self, n: int) -> bool {
        forall|j: int|
            #![trigger self.nodes[n].inputs@[j]]
            0 <= j < self.nodes[n].inputs@.len()
                ==> !self.nodes[self.nodes[n].inputs@[j] as int].resets
    }

    /// The precedence links of a sweep: from each dirty node to each of its dependents.
    pub open spec fn sweep_links(&self) -> Set<(usize, usize)> {
        Set::new(
            |l: (usize, usize)|
                self.dirty_set().contains(l.0) && l.0 < self.nodes.len()
                    && self.nodes[l.0 as int].dependents@.contains(l.1),
        )
    }

    /// The notifications owed to the observers of node `x`.
    pub open spec fn node_notices(&self, x: usize) -> Seq<Notification<V>> {
        if self.is_live(x as int) && self.value_of(x as int) is Some {
            self.nodes[x as int].observers@.map_values(
                |o: usize| Notification { cell: x, observer: o, value: self.value_of(x as int)->0 },
            )
        } else {
            Seq::empty()
        }
    }

    /// The notifications owed to the observers of the nodes `xs`, in order.
    pub open spec fn notices(&self, xs: Seq<usize>) -> Seq<Notification<V>>
        decreases xs.len(),
    {
        if xs.len() == 0 {
            Seq::empty()
        } else {
            self.notices(xs.drop_last()) + self.node_notices(xs.last())
        }
    }

    /// `other` is `self` with only node values changed.
    pub open spec fn values_changed(&self, other: &Self) -> bool {
        &&& other.nodes.len() == self.nodes.len()
        &&& forall|k: int|
            #![trigger other.nodes[k]]
            0 <= k < self.nodes.len() ==> same_but_value(self.nodes[k], other.nodes[k])
        &&& other.inside_switch == self.inside_switch
    }

    /// A sort holding every dirty node, with a link from each dirty node to each of
    /// its dependents.
    fn build_order(&self) -> (ts: topological_sort::TopologicalSort<usize>)
        requires
            self.wf(),
        ensures
            ts_items(ts) == self.dirty_set(),
            ts_links(ts) == self.sweep_links(),
    {
        let mut ts = ts_new();
        let mut j: usize = 0;
        while j < self.dirty.len()
            invariant
                self.wf(),
                j <= self.dirty@.len(),
                ts_items(ts).subset_of(self.dirty_set()),
                forall|jj: int| 0 <= jj < j ==> ts_items(ts).contains(#[trigger] self.dirty@[jj]),
                ts_links(ts).subset_of(self.sweep_links()),
                forall|jj: int, k: int|
                    #![trigger self.nodes@[self.dirty@[jj] as int].dependents@[k]]
                    0 <= jj < j && 0 <= k < self.nodes@[self.dirty@[jj] as int].dependents@.len()
                        ==> ts_links(ts).contains(
                        (self.dirty@[jj], self.nodes@[self.dirty@[jj] as int].dependents@[k]),
                    ),
            decreases self.dirty@.len() - j,
        {
            let d = self.dirty[j];
            assert(self.dirty@.contains(d));
            ts_insert(&mut ts, d);
            let n_deps = self.nodes[d].dependents.len();
            let mut k: usize = 0;
            while k < n_deps
                invariant
                    self.wf(),
                    j < self.dirty@.len(),
                    d == self.dirty@[j as int],
                    self.dirty_set().contains(d),
                    n_deps == self.nodes@[d as int].dependents@.len(),
                    k <= n_deps,
                    ts_items(ts).subset_of(self.dirty_set()),
                    forall|jj: int| 0 <= jj <= j ==> ts_items(ts).contains(#[trigger] self.dirty@[jj]),
                    ts_links(ts).subset_of(self.sweep_links()),
                    forall|jj: int, kk: int|
                        #![trigger self.nodes@[self.dirty@[jj] as int].dependents@[kk]]
                        0 <= jj < j && 0 <= kk < self.nodes@[self.dirty@[jj] as int].dependents@.len()
                            ==> ts_links(ts).contains(
                            (self.dirty@[jj], self.nodes@[self.dirty@[jj] as int].dependents@[kk]),
                        ),
                    forall|kk: int|
                        0 <= kk < k ==> ts_links(ts).contains(
                            (d, #[trigger] self.nodes@[d as int].dependents@[kk]),
                        ),
                decreases n_deps - k,
            {
                let e = self.nodes[d].dependents[k];
                assert(self.dirty_set().contains(e));
                assert(self.sweep_links().contains((d, e)));
                ts_add_dependency(&mut ts, d, e);
                k = k + 1;
            }
            j = j + 1;
        }
        proof {
            assert forall|x: usize| #[trigger] self.dirty_set().contains(x) implies ts_items(ts).contains(x) by {
                let jj = self.dirty@.index_of(x);
            }
            assert(ts_items(ts) =~= self.dirty_set());
            assert forall|l: (usize, usize)| #[trigger] self.sweep_links().contains(l) implies ts_links(ts).contains(l) by {
                let jj = self.dirty@.index_of(l.0);
                let kk = self.nodes@[l.0 as int].dependents@.index_of(l.1);
                assert(self.nodes@[self.dirty@[jj] as int].dependents@[kk] == l.1);
            }
            assert(ts_links(ts) =~= self.sweep_links());
        }
        ts
    }

    /// Updates every dirty node once, each after the dirty nodes it depends on; returns
    /// the visited nodes in order and the switch nodes among them.
    fn run_updates(&mut self) -> (r: (Vec<usize>, Vec<usize>))
        requires
            old(self).wf(),
        ensures
            final(self).wf(),
            old(self).values_changed(final(self)),
            final(self).dirty == old(self).dirty,
            final(self).transaction_depth == old(self).transaction_depth,
            r.0@.no_duplicates(),
            r.0@.to_set() == old(self).dirty_set(),
            forall|k: int|
                #![trigger final(self).nodes@[k].value]
                0 <= k < old(self).nodes@.len() && !old(self).dirty_set().contains(k as usize)
                    ==> final(self).nodes@[k].value == old(self).nodes@[k].value,
            forall|k: int|
                #![trigger final(self).nodes@[k].value]
                0 <= k < old(self).nodes@.len() && old(self).nodes@[k].rule is None
                    ==> final(self).nodes@[k].value == old(self).nodes@[k].value,
            forall|k: int|
                #![trigger old(self).dirty_set().contains(k as usize)]
                0 <= k < old(self).nodes@.len() && old(self).dirty_set().contains(k as usize)
                    && old(self).settles(k) ==> final(self).rule_holds(k),
            forall|j: int|
                #![trigger r.1@[j]]
                0 <= j < r.1@.len() ==> old(self).dirty_set().contains(r.1@[j]) && old(
                    self,
                ).is_live(r.1@[j] as int) && old(self).nodes@[r.1@[j] as int].is_switch,
            forall|k: usize|
                #[trigger] old(self).dirty_set().contains(k) && old(self).is_live(k as int) && old(self).nodes@[k as int].is_switch
                    ==> r.1@.contains(k),
            forall|i: int, j: int|
                0 <= i < j < r.0@.len() ==> !old(self).sweep_links().contains((#[trigger] r.0@[j], #[trigger] r.0@[i])),
    {
        let mut ts = self.build_order();
        let ghost links = self.sweep_links();
        let ghost start = *self;
        let mut updated: Vec<usize> = Vec::new();
        let mut switched: Vec<usize> = Vec::new();
        proof {
            vstd::seq_lib::seq_to_set_is_finite(self.dirty@);
            assert(ts_links(ts) =~= links.filter(|l: (usize, usize)| !updated@.to_set().contains(l.0)));
            assert(ts_items(ts) =~= start.dirty_set().difference(updated@.to_set()));
        }
        loop
            invariant
                self.wf(),
                start.wf(),
                start == *old(self),
                links == start.sweep_links(),
                start.values_changed(self),
                self.dirty == start.dirty,
                self.transaction_depth == start.transaction_depth,
                ts_items(ts).finite(),
                ts_items(ts) == start.dirty_set().difference(updated@.to_set()),
                ts_links(ts) == links.filter(|l: (usize, usize)| !updated@.to_set().contains(l.0)),
                updated@.no_duplicates(),
                updated@.to_set().subset_of(start.dirty_set()),
                forall|u: usize, y: usize|
                    #![trigger updated@.to_set().contains(u), ts_items(ts).contains(y)]
                    updated@.to_set().contains(u) && ts_items(ts).contains(y) ==> !links.contains((y, u)),
                forall|k: int|
                    #![trigger self.nodes@[k].value]
                    0 <= k < start.nodes@.len() && !updated@.to_set().contains(k as usize)
                        ==> self.nodes@[k].value == start.nodes@[k].value,
                forall|k: int|
                    #![trigger self.nodes@[k].value]
                    0 <= k < start.nodes@.len() && start.nodes@[k].rule is None
                        ==> self.nodes@[k].value == start.nodes@[k].value,
                forall|u: usize|
                    #![trigger updated@.to_set().contains(u)]
                    updated@.to_set().contains(u) && start.settles(u as int) ==> self.rule_holds(u as int),
                forall|j: int|
                    #![trigger switched@[j]]
                    0 <= j < switched@.len() ==> start.dirty_set().contains(switched@[j]) && start.is_live(switched@[j] as int)
                        && start.nodes@[switched@[j] as int].is_switch,
                forall|u: usize|
                    #[trigger] updated@.to_set().contains(u) && start.is_live(u as int) && start.nodes@[u as int].is_switch
                        ==> switched@.contains(u),
                forall|i: int, j: int|
                    0 <= i < j < updated@.len() ==> !links.contains((#[trigger] updated@[j], #[trigger] updated@[i])),
            ensures
                ts_items(ts) == Set::<usize>::empty(),
            decreases ts_items(ts).len(),
        {
            let ghost items0 = ts_items(ts);
            let ghost links0 = ts_links(ts);
            match ts_pop(&mut ts) {
                None => {
                    proof {
                        assert forall|x: usize| #[trigger] items0.contains(x) implies exists|y: usize|
                            items0.contains(y) && y < x by {
                            let y = choose|y: usize| items0.contains(y) && links0.contains((y, x));
                            assert(links.contains((y, x)));
                            let jj = start.nodes@[y as int].dependents@.index_of(x);
                        }
                        lemma_no_least_is_empty(items0);
                    }
                    break;
                },
                Some(x) => {
                    let ghost pre = *self;
                    let ghost upd0 = updated@;
                    self.update_cell(x);
                    updated.push(x);
                    let ghost sw0 = switched@;
                    if self.nodes[x].live && self.nodes[x].is_switch {
                        switched.push(x);
                    }
                    proof {
                        assert forall|u: usize|
                            #[trigger] updated@.to_set().contains(u) && start.is_live(u as int) && start.nodes@[u as int].is_switch
                            implies switched@.contains(u) by {
                            assert(updated@ == upd0.push(x));
                            if u == x {
                                assert(switched@[switched@.len() - 1] == x);
                            } else {
                                assert(updated@.contains(u));
                                let i = updated@.index_of(u);
                                assert(upd0[i] == u);
                                assert(upd0.to_set().contains(u));
                                assert(sw0.contains(u));
                                assert(switched@[sw0.index_of(u)] == u);
                            }
                        }
                        assert forall|i: int, j: int|
                            0 <= i < j < updated@.len() implies !links.contains((#[trigger] updated@[j], #[trigger] updated@[i])) by {
                            assert(updated@ == upd0.push(x));
                            if j == upd0.len() {
                                assert(updated@[j] == x);
                                assert(upd0[i] == updated@[i]);
                                assert(upd0.to_set().contains(updated@[i]));
                                assert(items0.contains(x));
                            } else {
                                assert(upd0[i] == updated@[i] && upd0[j] == updated@[j]);
                            }
                        }
                        assert(updated@ == upd0.push(x));
                        assert forall|y: usize| #[trigger] updated@.to_set().contains(y)
                            <==> upd0.to_set().insert(x).contains(y) by {
                            if y == x {
                                assert(updated@[upd0.len() as int] == x);
                            }
                            if upd0.contains(y) {
                                assert(updated@[upd0.index_of(y)] == y);
                            }
                            if updated@.contains(y) && y != x {
                                let i = updated@.index_of(y);
                                assert(upd0[i] == y);
                            }
                        }
                        assert(updated@.to_set() =~= upd0.to_set().insert(x));
                        assert(ts_items(ts) =~= start.dirty_set().difference(updated@.to_set()));
                        assert(ts_links(ts) =~= links.filter(|l: (usize, usize)| !updated@.to_set().contains(l.0)));
                        assert forall|u: usize, y: usize|
                            #![trigger updated@.to_set().contains(u), ts_items(ts).contains(y)]
                            updated@.to_set().contains(u) && ts_items(ts).contains(y) implies !links.contains((y, u)) by {
                            if u == x {
                                assert(items0.contains(y));
                                assert(!links0.contains((y, x)));
                            } else {
                                assert(upd0.to_set().contains(u));
                                assert(items0.contains(y));
                            }
                        }
                        assert forall|u: usize|
                            #![trigger updated@.to_set().contains(u)]
                            updated@.to_set().contains(u) && start.settles(u as int) implies self.rule_holds(u as int) by {
                            if u != x {
                                assert(upd0.to_set().contains(u));
                                assert(pre.rule_holds(u as int));
                                assert(!upd0.to_set().contains(x)) by {
                                    assert(items0.contains(x));
                                }
                                assert(self.nodes@[u as int] == pre.nodes@[u as int]);
                                assert forall|j: int| 0 <= j < self.nodes@[u as int].inputs@.len() implies
                                    #[trigger] self.input_values(u as int)[j] == pre.input_values(u as int)[j] by {
                                    let i = self.nodes@[u as int].inputs@[j];
                                    if i == x && pre.nodes@[x as int].live {
                                        assert(start.nodes@[u as int].inputs@[j] == x);
                                        assert(pre.nodes@[x as int].dependents@.contains(u));
                                        assert(links.contains((x, u)));
                                        assert(items0.contains(x));
                                        assert(upd0.to_set().contains(u));
                                    } else if i != x {
                                        assert(self.nodes@[i as int] == pre.nodes@[i as int]);
                                    }
                                }
                                assert(self.input_values(u as int) =~= pre.input_values(u as int));
                            }
                        }
                    }
                },
            }
        }
        proof {
            assert forall|y: usize| #[trigger] start.dirty_set().contains(y) implies updated@.to_set().contains(y) by {
                assert(!ts_items(ts).contains(y));
            }
            assert(updated@.to_set() =~= start.dirty_set());
        }
        (updated, switched)
    }

    /// What a sweep from `self` to `after` that reported `r` guarantees.
    pub open spec fn swept(&self, after: &Self, r: &Sweep<V>) -> bool {
        &&& after.wf()
        &&& self.values_changed(after)
        &&& after.dirty@.len() == 0
        &&& r.updated@.no_duplicates()
        &&& r.updated@.to_set() == self.dirty_set()
        &&& forall|k: int|
            #![trigger after.nodes@[k].value]
            0 <= k < self.nodes@.len() && !self.dirty_set().contains(k as usize)
                ==> after.nodes@[k].value == self.nodes@[k].value
        &&& forall|k: int|
            #![trigger after.nodes@[k].value]
            0 <= k < self.nodes@.len() && self.nodes@[k].rule is None && !self.nodes@[k].resets
                ==> after.nodes@[k].value == self.nodes@[k].value
        &&& forall|k: int|
            #![trigger after.nodes@[k].value]
            0 <= k < self.nodes@.len() && self.dirty_set().contains(k as usize) && self.nodes@[k].resets
                ==> after.nodes@[k].value is None
        &&& forall|k: int|
            #![trigger self.dirty_set().contains(k as usize)]
            0 <= k < self.nodes@.len() && self.dirty_set().contains(k as usize) && self.settles(k)
                && !self.nodes@[k].resets && self.persistent_inputs(k) ==> after.rule_holds(k)
        &&& forall|i: int, j: int|
            0 <= i < r.updated@.len() && 0 <= j < r.updated@.len() && self.nodes@[r.updated@[i] as int].dependents@.contains(
                #[trigger] r.updated@[j],
            ) && #[trigger] r.updated@[i] < self.nodes@.len() ==> i < j
        &&& forall|k: usize|
            #[trigger] self.dirty_set().contains(k) && self.is_live(k as int) && self.nodes@[k as int].is_switch
                ==> r.switched@.contains(k)
        &&& exists|mid: Self|
            #![trigger mid.notices(r.updated@)]
            self.values_changed(&mid) && r.notifications@ == mid.notices(r.updated@)
                && (forall|k: int|
                #![trigger mid.nodes@[k].value]
                0 <= k < self.nodes@.len() && (self.nodes@[k].rule is None || !self.dirty_set().contains(k as usize))
                    ==> mid.nodes@[k].value == self.nodes@[k].value)
                && (forall|k: int|
                #![trigger self.dirty_set().contains(k as usize)]
                0 <= k < self.nodes@.len() && self.dirty_set().contains(k as usize) && self.settles(k)
                    ==> mid.rule_holds(k))
                && forall|k: int|
                #![trigger mid.nodes@[k].value]
                0 <= k < self.nodes@.len() ==> after.nodes@[k].value == (if mid.nodes@[k].resets
                    && self.dirty_set().contains(k as usize) {
                    None
                } else {
                    mid.nodes@[k].value
                })
        &&& forall|j: int|
            #![trigger r.switched@[j]]
            0 <= j < r.switched@.len() ==> self.dirty_set().contains(r.switched@[j]) && self.is_live(
                r.switched@[j] as int,
            ) && self.nodes@[r.switched@[j] as int].is_switch
    }

    /// The notifications owed after a sweep that visited `updated`, in order.
    fn collect_notifications(&self, updated: &Vec<usize>) -> (r: Vec<Notification<V>>)
        requires
            self.wf(),
        ensures
            r@ == self.notices(updated@),
    {
        let mut out: Vec<Notification<V>> = Vec::new();
        let mut j: usize = 0;
        while j < updated.len()
            invariant
                self.wf(),
                j <= updated@.len(),
                out@ == self.notices(updated@.subrange(0, j as int)),
            decreases updated@.len() - j,
        {
            let x = updated[j];
            let ghost before = out@;
            assert(updated@.subrange(0, j + 1).drop_last() =~= updated@.subrange(0, j as int));
            if x < self.nodes.len() && self.nodes[x].live {
                match self.current_value(x) {
                    Some(v) => {
                        let n_obs = self.nodes[x].observers.len();
                        let mut k: usize = 0;
                        while k < n_obs
                            invariant
                                self.wf(),
                                x < self.nodes@.len(),
                                self.value_of(x as int) == Some(v),
                                self.is_live(x as int),
                                n_obs == self.nodes@[x as int].observers@.len(),
                                k <= n_obs,
                                out@ == before + self.node_notices(x).subrange(0, k as int),
                            decreases n_obs - k,
                        {
                            out.push(Notification { cell: x, observer: self.nodes[x].observers[k], value: v });
                            assert(self.node_notices(x).subrange(0, k + 1) =~= self.node_notices(x).subrange(0, k as int).push(
                                self.node_notices(x)[k as int]));
                            k = k + 1;
                        }
                        assert(self.node_notices(x).subrange(0, k as int) =~= self.node_notices(x));
                    },
                    None => {
                        assert(out@ =~= before + self.node_notices(x));
                    },
                }
            } else {
                assert(out@ =~= before + self.node_notices(x));
            }
            j = j + 1;
        }
        assert(updated@.subrange(0, j as int) =~= updated@);
        out
    }

    /// Clears the value of each stream node among `updated`.
    fn reset_streams(&mut self, updated: &Vec<usize>)
        requires
            old(self).wf(),
        ensures
            final(self).wf(),
            old(self).values_changed(final(self)),
            final(self).dirty == old(self).dirty,
            final(self).transaction_depth == old(self).transaction_depth,
            forall|k: int|
                #![trigger final(self).nodes@[k].value]
                0 <= k < old(self).nodes@.len() ==> final(self).nodes@[k].value == (if old(
                    self,
                ).nodes@[k].resets && updated@.contains(k as usize) {
                    None
                } else {
                    old(self).nodes@[k].value
                }),
    {
        let mut j: usize = 0;
        while j < updated.len()
            invariant
                self.wf(),
                old(self).values_changed(self),
                self.dirty == old(self).dirty,
                self.transaction_depth == old(self).transaction_depth,
                j <= updated@.len(),
                forall|k: int|
                    #![trigger self.nodes@[k].value]
                    0 <= k < old(self).nodes@.len() ==> self.nodes@[k].value == (if old(
                        self,
                    ).nodes@[k].resets && updated@.subrange(0, j as int).contains(k as usize) {
                        None
                    } else {
                        old(self).nodes@[k].value
                    }),
            decreases updated@.len() - j,
        {
            let x = updated[j];
            let ghost sub = updated@.subrange(0, j as int);
            assert(updated@.subrange(0, j + 1) =~= sub.push(x));
            if x < self.nodes.len() && self.nodes[x].resets {
                self.nodes[x].value = None;
                assert(self.dirty_set() == old(self).dirty_set());
            }
            proof {
                assert forall|k: int|
                    #![trigger self.nodes@[k].value]
                    0 <= k < old(self).nodes@.len() implies self.nodes@[k].value == (if old(
                        self,
                    ).nodes@[k].resets && updated@.subrange(0, j + 1).contains(k as usize) {
                        None
                    } else {
                        old(self).nodes@[k].value
                    }) by {
                    if sub.contains(k as usize) {
                        assert(sub.push(x)[sub.index_of(k as usize)] == k);
                    }
                    if sub.push(x).contains(k as usize) && k != x {
                        let i = sub.push(x).index_of(k as usize);
                        assert(sub[i] == k);
                    }
                    assert(sub.push(x)[sub.len() as int] == x);
                }
            }
            j = j + 1;
        }
        assert(updated@.subrange(0, j as int) =~= updated@);
    }

    /// The sweep: updates every dirty node in dependency order, collects the
    /// notifications owed to observers once every value is final, then clears the
    /// streams and the dirty set.
    fn propagate(&mut self) -> (r: Sweep<V>)
        requires
            old(self).wf(),
        ensures
            old(self).swept(final(self), &r),
            final(self).transaction_depth == old(self).transaction_depth,
    {
        let (updated, switched) = self.run_updates();
        let notifications = self.collect_notifications(&updated);
        let ghost mid = *self;
        self.reset_streams(&updated);
        self.dirty = Vec::new();
        proof {
            assert(self.dirty_set() =~= Set::<usize>::empty());
            let r = Sweep { updated, notifications, switched };
            assert(mid.notices(r.updated@) == r.notifications@);
            assert forall|k: int| #![trigger self.nodes@[k].value]
                0 <= k < old(self).nodes@.len() implies self.nodes@[k].value == (if mid.nodes@[k].resets
                    && old(self).dirty_set().contains(k as usize) {
                    None
                } else {
                    mid.nodes@[k].value
                }) by {
                assert(updated@.contains(k as usize) == updated@.to_set().contains(k as usize));
            }
            assert forall|k: int|
                #![trigger old(self).dirty_set().contains(k as usize)]
                0 <= k < old(self).nodes@.len() && old(self).dirty_set().contains(k as usize) && old(self).settles(k)
                    && !old(self).nodes@[k].resets && old(self).persistent_inputs(k) implies self.rule_holds(k) by {
                assert(mid.rule_holds(k));
                assert(self.nodes@[k].value == mid.nodes@[k].value) by {
                    assert(updated@.contains(k as usize) == updated@.to_set().contains(k as usize));
                }
                assert forall|j: int| 0 <= j < self.nodes@[k].inputs@.len() implies
                    #[trigger] self.input_values(k)[j] == mid.input_values(k)[j] by {
                    let i = self.nodes@[k].inputs@[j] as int;
                    assert(old(self).nodes@[k].inputs@[j] < k);
                    assert(!old(self).nodes@[i].resets);
                }
                assert(self.input_values(k) =~= mid.input_values(k));
            }
        }
        Sweep { updated, notifications, switched }
    }

    /// The value node `k` holds after `writes` are applied in order: the last one
    /// to `k` wins.
    pub open spec fn written(&self, writes: Seq<(usize, V)>, k: int) -> Option<V>
        decreases writes.len(),
    {
        if writes.len() == 0 {
            self.nodes[k].value
        } else if writes.last().0 == k {
            Some(writes.last().1)
        } else {
            self.written(writes.drop_last(), k)
        }
    }

    /// A node written only from outside, by a cell or stream sink.
    pub open spec fn is_writable(&self, id: int) -> bool {
        &&& self.is_live(id)
        &&& self.nodes[id].rule is None
        &&& !self.nodes[id].is_switch
    }

    /// Opens a transaction, perhaps nested in another.
    pub fn begin_transaction(&mut self)
        requires
            old(self).wf(),
            old(self).transaction_depth < usize::MAX,
        ensures
            final(self).wf(),
            final(self).transaction_depth == old(self).transaction_depth + 1,
            final(self).nodes == old(self).nodes,
            final(self).dirty == old(self).dirty,
            final(self).inside_switch == old(self).inside_switch,
    {
        self.transaction_depth = self.transaction_depth + 1;
    }

    /// Closes a transaction; closing the outermost one runs the sweep, and only then.
    pub fn end_transaction(&mut self) -> (r: Sweep<V>)
        requires
            old(self).wf(),
            old(self).transaction_depth > 0,
        ensures
            final(self).transaction_depth == old(self).transaction_depth - 1,
            old(self).transaction_depth == 1 ==> old(self).swept(final(self), &r),
            old(self).transaction_depth > 1 ==> {
                &&& final(self).wf()
                &&& final(self).nodes == old(self).nodes
                &&& final(self).dirty == old(self).dirty
                &&& final(self).inside_switch == old(self).inside_switch
                &&& r.updated@.len() == 0
                &&& r.notifications@.len() == 0
                &&& r.switched@.len() == 0
            },
    {
        self.transaction_depth = self.transaction_depth - 1;
        if self.transaction_depth == 0 {
            self.propagate()
        } else {
            Sweep { updated: Vec::new(), notifications: Vec::new(), switched: Vec::new() }
        }
    }

    /// Writes `value` into the sink `id` and marks it and its descendants dirty.
    pub(crate) fn write_value(&mut self, id: usize, value: Option<V>)
        requires
            old(self).wf(),
            old(self).is_writable(id as int),
        ensures
            final(self).wf(),
            old(self).values_changed(final(self)),
            final(self).transaction_depth == old(self).transaction_depth,
            final(self).nodes@[id as int].value == value,
            forall|k: int|
                #![trigger final(self).nodes@[k].value]
                0 <= k < old(self).nodes@.len() && k != id ==> final(self).nodes@[k].value == old(
                    self,
                ).nodes@[k].value,
            old(self).dirty_set().subset_of(final(self).dirty_set()),
            final(self).dirty_set().contains(id),
            forall|x: usize|
                #[trigger] final(self).dirty_set().contains(x) ==> old(self).dirty_set().contains(x)
                    || old(self).reachable(id, x),
    {
        self.nodes[id].value = value;
        assert(self.dirty_set() == old(self).dirty_set());
        self.mark_all_decendent_cells_for_update(id);
        proof {
            assert forall|x: usize| #[trigger] self.dirty_set().contains(x) implies old(self).dirty_set().contains(x)
                || old(self).reachable(id, x) by {
                if !old(self).dirty_set().contains(x) {
                    assert(self.reachable(id, x));
                    let n = choose|n: nat| crate::graph::reaches(self.nodes@, id, x, n);
                    crate::graph::lemma_reaches_same_links(self.nodes@, old(self).nodes@, id, x, n);
                }
            }
        }
    }

    /// Runs one transaction that applies `writes` to sinks in order, then sweeps if
    /// it is the outermost one.
    pub fn transaction(&mut self, writes: &Vec<(usize, V)>) -> (r: Sweep<V>)
        requires
            old(self).wf(),
            old(self).transaction_depth < usize::MAX,
            forall|j: int| 0 <= j < writes@.len() ==> old(self).is_writable(#[trigger] writes@[j].0 as int),
        ensures
            final(self).transaction_depth == old(self).transaction_depth,
            old(self).transaction_depth == 0 ==> exists|w: Self|
                #![trigger w.swept(final(self), &r)]
                {
                    &&& old(self).values_changed(&w)
                    &&& forall|k: int|
                        #![trigger w.nodes@[k].value]
                        0 <= k < old(self).nodes@.len() ==> w.nodes@[k].value == old(self).written(writes@, k)
                    &&& w.wf()
                    &&& forall|j: int| 0 <= j < writes@.len() ==> w.dirty_set().contains(#[trigger] writes@[j].0)
                    &&& old(self).dirty_set().subset_of(w.dirty_set())
                    &&& forall|x: usize| #[trigger] w.dirty_set().contains(x) ==> old(self).dirty_set().contains(x)
                        || exists|j: int| 0 <= j < writes@.len() && old(self).reachable(#[trigger] writes@[j].0, x)
                    &&& w.swept(final(self), &r)
                },
            old(self).transaction_depth > 0 ==> {
                &&& final(self).wf()
                &&& old(self).values_changed(final(self))
                &&& forall|k: int|
                    #![trigger final(self).nodes@[k].value]
                    0 <= k < old(self).nodes@.len() ==> final(self).nodes@[k].value == old(self).written(writes@, k)
                &&& forall|j: int| 0 <= j < writes@.len() ==> final(self).dirty_set().contains(#[trigger] writes@[j].0)
                &&& old(self).dirty_set().subset_of(final(self).dirty_set())
                &&& forall|x: usize| #[trigger] final(self).dirty_set().contains(x) ==> old(self).dirty_set().contains(x)
                    || exists|j: int| 0 <= j < writes@.len() && old(self).reachable(#[trigger] writes@[j].0, x)
                &&& r.updated@.len() == 0
                &&& r.notifications@.len() == 0
            },
    {
        self.begin_transaction();
        let mut j: usize = 0;
        while j < writes.len()
            invariant
                self.wf(),
                old(self).values_changed(self),
                self.transaction_depth == old(self).transaction_depth + 1,
                j <= writes@.len(),
                forall|jj: int| 0 <= jj < writes@.len() ==> old(self).is_writable(#[trigger] writes@[jj].0 as int),
                forall|k: int|
                    #![trigger self.nodes@[k].value]
                    0 <= k < old(self).nodes@.len() ==> self.nodes@[k].value == old(self).written(
                        writes@.subrange(0, j as int),
                        k,
                    ),
                forall|jj: int| 0 <= jj < j ==> self.dirty_set().contains(#[trigger] writes@[jj].0),
                old(self).dirty_set().subset_of(self.dirty_set()),
                forall|x: usize| #[trigger] self.dirty_set().contains(x) ==> old(self).dirty_set().contains(x)
                    || exists|jj: int| 0 <= jj < j && old(self).reachable(#[trigger] writes@[jj].0, x),
            decreases writes@.len() - j,
        {
            let (id, v) = writes[j];
            assert(old(self).is_writable(writes@[j as int].0 as int));
            let ghost pre = *self;
            self.write_value(id, Some(v));
            proof {
                assert forall|x: usize| #[trigger] self.dirty_set().contains(x) implies old(self).dirty_set().contains(x)
                    || exists|jj: int| 0 <= jj < j + 1 && old(self).reachable(#[trigger] writes@[jj].0, x) by {
                    if !pre.dirty_set().contains(x) {
                        assert(pre.reachable(id, x));
                        let n = choose|n: nat| crate::graph::reaches(pre.nodes@, id, x, n);
                        crate::graph::lemma_reaches_same_links(pre.nodes@, old(self).nodes@, id, x, n);
                        assert(old(self).reachable(writes@[j as int].0, x));
                    }
                }
                let sub = writes@.subrange(0, j + 1);
                assert(sub.drop_last() =~= writes@.subrange(0, j as int));
                assert forall|k: int|
                    #![trigger self.nodes@[k].value]
                    0 <= k < old(self).nodes@.len() implies self.nodes@[k].value == old(self).written(sub, k) by {}
            }
            j = j + 1;
        }
        assert(writes@.subrange(0, j as int) =~= writes@);
        let ghost w = *self;
        let r = self.end_transaction();
        proof {
            if old(self).transaction_depth == 0 {
                assert(w.swept(self, &r));
            }
        }
        r
    }

    /// Recomputes node `x` from its inputs when it is live, direct and has a rule.
    fn update_cell(&mut self, x: usize)
        requires
            old(self).wf(),
            x < old(self).nodes@.len(),
        ensures
            final(self).wf(),
            old(self).values_changed(final(self)),
            final(self).dirty == old(self).dirty,
            final(self).transaction_depth == old(self).transaction_depth,
            forall|k: int|
                #![trigger final(self).nodes@[k]]
                0 <= k < old(self).nodes@.len() && k != x ==> final(self).nodes@[k] == old(
                    self,
                ).nodes@[k],
            !(old(self).is_direct(x as int) && old(self).nodes@[x as int].rule is Some)
                ==> final(self).nodes == old(self).nodes,
            old(self).settles(x as int) ==> final(self).rule_holds(x as int),
            old(self).is_direct(x as int) && old(self).nodes@[x as int].rule is Some ==> if all_present(
                old(self).input_values(x as int),
            ) {
                final(self).nodes@[x as int].value is Some && computes(
                    old(self).nodes@[x as int].rule->0,
                    unwrap_all(old(self).input_values(x as int)),
                    final(self).nodes@[x as int].value->0,
                )
            } else {
                final(self).nodes@[x as int].value is None
            },
    {
        if self.nodes[x].live && self.nodes[x].alias.is_none() && self.nodes[x].loop_target.is_none() {
            let value = match &self.nodes[x].rule {
                Some(f) => match self.gather(&self.nodes[x].inputs) {
                    Some(args) => {
                        let ghost a = args;
                        let v = f(args);
                        assert(computes(*f, a@, v));
                        Some(v)
                    },
                    None => None,
                },
                None => {
                    return;
                },
            };
            let ghost pre = *self;
            self.nodes[x].value = value;
            proof {
                assert(self.dirty_set() == pre.dirty_set());
                assert forall|k: int|
                    #![trigger self.nodes@[k]]
                    0 <= k < self.nodes.len() && k != x implies self.nodes@[k] == pre.nodes@[k] by {}
                if pre.settles(x as int) {
                    assert forall|j: int| 0 <= j < self.nodes@[x as int].inputs@.len() implies
                        #[trigger] self.input_values(x as int)[j] == pre.input_values(x as int)[j] by {
                        let i = self.nodes@[x as int].inputs@[j] as int;
                        assert(pre.nodes@[x as int].inputs@[j] < x);
                        assert(self.nodes@[i] == pre.nodes@[i]);
                    }
                    assert(self.input_values(x as int) =~= pre.input_values(x as int));
                }
            }
        }
    }
}

impl CellSink {
    /// Writes `value` into this cell; the sweep runs unless a transaction is open.
    pub fn change_value<V: Copy, F: Fn(Vec<V>) -> V>(&self, ctx: &mut FrpContext<V, F>, value: V) -> (r: Sweep<V>)
        requires
            old(ctx).wf(),
            old(ctx).transaction_depth < usize::MAX,
            old(ctx).is_writable(self.id as int),
        ensures
            final(ctx).transaction_depth == old(ctx).transaction_depth,
            old(ctx).transaction_depth == 0 ==> exists|w: FrpContext<V, F>|
                #![trigger w.swept(final(ctx), &r)]
                {
                    &&& old(ctx).values_changed(&w)
                    &&& w.nodes@[self.id as int].value == Some(value)
                    &&& forall|k: int|
                        #![trigger w.nodes@[k].value]
                        0 <= k < old(ctx).nodes@.len() && k != self.id ==> w.nodes@[k].value == old(ctx).nodes@[k].value
                    &&& w.wf()
                    &&& w.dirty_set().contains(self.id)
                    &&& old(ctx).dirty_set().subset_of(w.dirty_set())
                    &&& forall|x: usize| #[trigger] w.dirty_set().contains(x) ==> old(ctx).dirty_set().contains(x)
                        || old(ctx).reachable(self.id, x)
                    &&& w.swept(final(ctx), &r)
                },
            old(ctx).transaction_depth > 0 ==> {
                &&& final(ctx).wf()
                &&& old(ctx).values_changed(final(ctx))
                &&& final(ctx).nodes@[self.id as int].value == Some(value)
                &&& forall|k: int|
                    #![trigger final(ctx).nodes@[k].value]
                    0 <= k < old(ctx).nodes@.len() && k != self.id ==> final(ctx).nodes@[k].value == old(ctx).nodes@[k].value
                &&& final(ctx).dirty_set().contains(self.id)
                &&& old(ctx).dirty_set().subset_of(final(ctx).dirty_set())
                &&& forall|x: usize| #[trigger] final(ctx).dirty_set().contains(x) ==> old(ctx).dirty_set().contains(x)
                    || old(ctx).reachable(self.id, x)
                &&& r.updated@.len() == 0
                &&& r.notifications@.len() == 0
            },
    {
        let mut writes: Vec<(usize, V)> = Vec::new();
        writes.push((self.id, value));
        proof {
            assert(writes@.drop_last() =~= Seq::<(usize, V)>::empty());
            assert forall|k: int| 0 <= k < old(ctx).nodes@.len() implies #[trigger] old(ctx).written(writes@, k)
                == (if k == self.id { Some(value) } else { old(ctx).nodes@[k].value }) by {
                assert(writes@.last() == (self.id, value));
                assert(old(ctx).written(writes@.drop_last(), k) == old(ctx).nodes@[k].value);
            }
            assert(writes@[0].0 == self.id);
            assert forall|x: usize| (exists|j: int| 0 <= j < writes@.len() && old(ctx).reachable(#[trigger] writes@[j].0, x))
                implies old(ctx).reachable(self.id, x) by {
                let j = choose|j: int| 0 <= j < writes@.len() && old(ctx).reachable(#[trigger] writes@[j].0, x);
                assert(j == 0);
            }
        }
        ctx.transaction(&writes)
    }
}

impl StreamSink {
    /// Sends `value` on this stream for one round; the sweep runs unless a transaction is open.
    pub fn send<V: Copy, F: Fn(Vec<V>) -> V>(&self, ctx: &mut FrpContext<V, F>, value: V) -> (r: Sweep<V>)
        requires
            old(ctx).wf(),
            old(ctx).transaction_depth < usize::MAX,
            old(ctx).is_writable(self.id as int),
        ensures
            final(ctx).transaction_depth == old(ctx).transaction_depth,
            old(ctx).transaction_depth == 0 ==> exists|w: FrpContext<V, F>|
                #![trigger w.swept(final(ctx), &r)]
                {
                    &&& old(ctx).values_changed(&w)
                    &&& w.nodes@[self.id as int].value == Some(value)
                    &&& forall|k: int|
                        #![trigger w.nodes@[k].value]
                        0 <= k < old(ctx).nodes@.len() && k != self.id ==> w.nodes@[k].value == old(ctx).nodes@[k].value
                    &&& w.wf()
                    &&& w.dirty_set().contains(self.id)
                    &&& old(ctx).dirty_set().subset_of(w.dirty_set())
                    &&& forall|x: usize| #[trigger] w.dirty_set().contains(x) ==> old(ctx).dirty_set().contains(x)
                        || old(ctx).reachable(self.id, x)
                    &&& w.swept(final(ctx), &r)
                },
            old(ctx).transaction_depth > 0 ==> {
                &&& final(ctx).wf()
                &&& old(ctx).values_changed(final(ctx))
                &&& final(ctx).nodes@[self.id as int].value == Some(value)
                &&& forall|k: int|
                    #![trigger final(ctx).nodes@[k].value]
                    0 <= k < old(ctx).nodes@.len() && k != self.id ==> final(ctx).nodes@[k].value == old(ctx).nodes@[k].value
                &&& final(ctx).dirty_set().contains(self.id)
                &&& old(ctx).dirty_set().subset_of(final(ctx).dirty_set())
                &&& forall|x: usize| #[trigger] final(ctx).dirty_set().contains(x) ==> old(ctx).dirty_set().contains(x)
                    || old(ctx).reachable(self.id, x)
                &&& r.updated@.len() == 0
                &&& r.notifications@.len() == 0
            },
    {
        let mut writes: Vec<(usize, V)> = Vec::new();
        writes.push((self.id, value));
        proof {
            assert(writes@.drop_last() =~= Seq::<(usize, V)>::empty());
            assert forall|k: int| 0 <= k < old(ctx).nodes@.len() implies #[trigger] old(ctx).written(writes@, k)
                == (if k == self.id { Some(value) } else { old(ctx).nodes@[k].value }) by {
                assert(writes@.last() == (self.id, value));
                assert(old(ctx).written(writes@.drop_last(), k) == old(ctx).nodes@[k].value);
            }
            assert(writes@[0].0 == self.id);
            assert forall|x: usize| (exists|j: int| 0 <= j < writes@.len() && old(ctx).reachable(#[trigger] writes@[j].0, x))
                implies old(ctx).reachable(self.id, x) by {
                let j = choose|j: int| 0 <= j < writes@.len() && old(ctx).reachable(#[trigger] writes@[j].0, x);
                assert(j == 0);
            }
        }
        ctx.transaction(&writes)
    }
}

} // verus!

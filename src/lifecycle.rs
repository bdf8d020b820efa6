//! Freeing nodes together with the sub-graph they own.
use vstd::prelude::*;
use crate::graph::{FrpContext, Node};

verus! {

broadcast use vstd::seq_lib::group_filter_ensures;

/// `v` without any occurrence of `x`.
fn without(v: &Vec<usize>, x: usize) -> (r: Vec<usize>)
    ensures
        r@ == v@.filter(|y: usize| y != x),
{
    let mut kept: Vec<usize> = Vec::new();
    let mut j: usize = 0;
    while j < v.len()
        invariant
            j <= v@.len(),
            kept@ == v@.subrange(0, j as int).filter(|y: usize| y != x),
        decreases v@.len() - j,
    {
        let y = v[j];
        proof {
            assert(v@.subrange(0, j + 1) =~= v@.subrange(0, j as int).push(y));
            v@.subrange(0, j as int).lemma_filter_push(y, |y: usize| y != x);
        }
        if y != x {
            kept.push(y);
        }
        j = j + 1;
    }
    assert(v@.subrange(0, j as int) =~= v@);
    kept
}

/// In `nodes`, node `b` is owned by `a` through exactly `n` links of owned children.
pub open spec fn owns<V, F>(nodes: Seq<Node<V, F>>, a: usize, b: usize, n: nat) -> bool
    decreases n,
{
    if n == 0 {
        a == b
    } else {
        exists|c: usize|
            #![trigger nodes[a as int].children@.contains(c)]
            a < nodes.len() && nodes[a as int].children@.contains(c) && owns(nodes, c, b, (n - 1) as nat)
    }
}

/// Ownership depends on the lists of owned children alone.
proof fn lemma_owns_same_children<V, F>(x: Seq<Node<V, F>>, y: Seq<Node<V, F>>, a: usize, b: usize, n: nat)
    requires
        x.len() == y.len(),
        forall|k: int| 0 <= k < x.len() ==> (#[trigger] x[k]).children == y[k].children,
    ensures
        owns(x, a, b, n) == owns(y, a, b, n),
    decreases n,
{
    if n > 0 {
        if owns(x, a, b, n) {
            let c = choose|c: usize|
                #![trigger x[a as int].children@.contains(c)]
                a < x.len() && x[a as int].children@.contains(c) && owns(x, c, b, (n - 1) as nat);
            lemma_owns_same_children(x, y, c, b, (n - 1) as nat);
            assert(x[a as int].children == y[a as int].children);
            assert(a < y.len() && y[a as int].children@.contains(c) && owns(y, c, b, (n - 1) as nat));
        }
        if owns(y, a, b, n) {
            let c = choose|c: usize|
                #![trigger y[a as int].children@.contains(c)]
                a < y.len() && y[a as int].children@.contains(c) && owns(y, c, b, (n - 1) as nat);
            lemma_owns_same_children(x, y, c, b, (n - 1) as nat);
            assert(x[a as int].children == y[a as int].children);
            assert(a < x.len() && x[a as int].children@.contains(c) && owns(x, c, b, (n - 1) as nat));
        }
    }
}

impl<V: Copy, F: Fn(Vec<V>) -> V> FrpContext<V, F> {
    /// `other` is `self` after freeing nodes: records are kept but for liveness,
    /// observers and dependents, no node comes back to life, and dependent lists
    /// only lose entries.
    pub open spec fn freed_into(&self, other: &Self) -> bool {
        &&& other.nodes.len() == self.nodes.len()
        &&& other.dirty == self.dirty
        &&& other.transaction_depth == self.transaction_depth
        &&& other.inside_switch == self.inside_switch
        &&& forall|k: int|
            #![trigger other.nodes[k]]
            0 <= k < self.nodes.len() ==> {
                &&& other.nodes[k].live ==> self.nodes[k].live
                &&& other.nodes[k].live ==> other.nodes[k].observers == self.nodes[k].observers
                &&& other.nodes[k].value == self.nodes[k].value
                &&& other.nodes[k].alias == self.nodes[k].alias
                &&& other.nodes[k].loop_target == self.nodes[k].loop_target
                &&& other.nodes[k].rule == self.nodes[k].rule
                &&& other.nodes[k].is_switch == self.nodes[k].is_switch
                &&& other.nodes[k].inputs == self.nodes[k].inputs
                &&& other.nodes[k].resets == self.nodes[k].resets
                &&& other.nodes[k].children == self.nodes[k].children
                &&& other.nodes[k].enclosing == self.nodes[k].enclosing
                &&& other.nodes[k].next_observer == self.nodes[k].next_observer
                &&& forall|j: int|
                    0 <= j < other.nodes[k].dependents@.len() ==> self.nodes[k].dependents@.contains(
                        #[trigger] other.nodes[k].dependents@[j],
                    )
                &&& (other.nodes[k].live ==> forall|d: usize|
                    #[trigger] self.nodes[k].dependents@.contains(d) && other.is_live(d as int)
                        ==> other.nodes[k].dependents@.contains(d))
            }
    }

    /// Frees node `id`: detaches it from the dependent lists of its inputs, frees
    /// the nodes it owns, drops its observers and retires its handle.
    pub(crate) fn free_cell(&mut self, id: usize)
        requires
            old(self).wf(),
            id < old(self).nodes@.len(),
        ensures
            final(self).wf(),
            old(self).freed_into(final(self)),
            !final(self).nodes@[id as int].live,
            forall|k: int|
                #![trigger final(self).nodes@[k].live]
                0 <= k < id ==> final(self).nodes@[k].live == old(self).nodes@[k].live,
            forall|j: int|
                0 <= j < old(self).nodes@[id as int].children@.len() ==> !final(self).nodes@[
                    old(self).nodes@[id as int].children@[j] as int].live,
            forall|b: usize, n: nat|
                #[trigger] owns(old(self).nodes@, id, b, n) ==> b < old(self).nodes@.len() && !final(self).nodes@[b as int].live,
            forall|j: int|
                0 <= j < old(self).nodes@[id as int].inputs@.len() ==> !final(self).nodes@[
                    #[trigger] old(self).nodes@[id as int].inputs@[j] as int].dependents@.contains(id),
        decreases old(self).nodes@.len() - id,
    {
        self.nodes[id].live = false;
        self.nodes[id].observers = Vec::new();
        proof {
            assert(self.dirty_set() == old(self).dirty_set());
            assert forall|n: int, jj: int|
                #![trigger self.nodes@[n].inputs@[jj]]
                0 <= n < self.nodes.len() && 0 <= jj < self.nodes@[n].inputs@.len()
                    && self.nodes@[n].live && self.nodes@[self.nodes@[n].inputs@[jj] as int].live
                implies self.nodes@[self.nodes@[n].inputs@[jj] as int].dependents@.contains(n as usize) by {
                let i = old(self).nodes@[n].inputs@[jj] as int;
                assert(old(self).nodes@[i].dependents@.contains(n as usize));
                assert(self.nodes@[i].dependents == old(self).nodes@[i].dependents);
            }
            assert forall|n: int, jj: int|
                0 <= n < self.nodes.len() && 0 <= jj < self.nodes@[n].dependents@.len()
                implies n < #[trigger] self.nodes@[n].dependents@[jj] < self.nodes.len() by {
                assert(old(self).nodes@[n].dependents@[jj] == self.nodes@[n].dependents@[jj]);
            }
            assert forall|n: int, jj: int|
                0 <= n < self.nodes.len() && 0 <= jj < self.nodes@[n].inputs@.len()
                implies #[trigger] self.nodes@[n].inputs@[jj] < n by {
                assert(old(self).nodes@[n].inputs@[jj] == self.nodes@[n].inputs@[jj]);
            }
            assert forall|n: int, jj: int|
                0 <= n < self.nodes.len() && 0 <= jj < self.nodes@[n].children@.len()
                implies n < #[trigger] self.nodes@[n].children@[jj] < self.nodes.len() by {
                assert(old(self).nodes@[n].children@[jj] == self.nodes@[n].children@[jj]);
            }
            assert(self.wf_links());
            assert forall|x: usize, jj: int|
                #![trigger self.dirty_set().contains(x), self.nodes@[x as int].dependents@[jj]]
                self.dirty_set().contains(x) && 0 <= x < self.nodes.len() && 0 <= jj
                    < self.nodes@[x as int].dependents@.len() implies self.dirty_set().contains(
                    self.nodes@[x as int].dependents@[jj],
                ) by {
                assert(old(self).nodes@[x as int].dependents@[jj] == self.nodes@[x as int].dependents@[jj]);
            }
        }
        let n_inputs = self.nodes[id].inputs.len();
        let mut j: usize = 0;
        while j < n_inputs
            invariant
                self.wf(),
                old(self).freed_into(self),
                id < self.nodes@.len(),
                !self.nodes@[id as int].live,
                forall|k: int|
                    #![trigger self.nodes@[k].live]
                    0 <= k < id ==> self.nodes@[k].live == old(self).nodes@[k].live,
                n_inputs == self.nodes@[id as int].inputs@.len(),
                j <= n_inputs,
                forall|jj: int| 0 <= jj < j ==> !self.nodes@[#[trigger] self.nodes@[id as int].inputs@[jj] as int].dependents@.contains(id),
            decreases n_inputs - j,
        {
            let i = self.nodes[id].inputs[j];
            let kept = without(&self.nodes[i].dependents, id);
            let ghost pre = *self;
            self.nodes[i].dependents = kept;
            proof {
                assert(self.dirty_set() == pre.dirty_set());
                let od = pre.nodes@[i as int].dependents@;
                let nd = self.nodes@[i as int].dependents@;
                assert(!nd.contains(id)) by {
                    if nd.contains(id) {
                        let w = nd.index_of(id);
                        assert(nd[w] != id);
                    }
                }
                assert forall|jj: int| 0 <= jj < nd.len() implies od.contains(#[trigger] nd[jj]) by {
                    assert(nd.contains(nd[jj]));
                    od.lemma_filter_contains_rev(|y: usize| y != id, nd[jj]);
                }
                assert forall|d: usize| #[trigger] od.contains(d) && d != id implies nd.contains(d) by {
                    let w = od.index_of(d);
                    od.lemma_filter_contains(|y: usize| y != id, w);
                }
                assert forall|n: int, jj: int|
                    0 <= n < self.nodes.len() && 0 <= jj < self.nodes@[n].dependents@.len()
                    implies n < #[trigger] self.nodes@[n].dependents@[jj] < self.nodes.len() by {
                    if n == i {
                        let w = od.index_of(nd[jj]);
                    }
                }
                assert forall|n: int, jj: int|
                    #![trigger self.nodes@[n].inputs@[jj]]
                    0 <= n < self.nodes.len() && 0 <= jj < self.nodes@[n].inputs@.len()
                        && self.nodes@[n].live && self.nodes@[self.nodes@[n].inputs@[jj] as int].live
                    implies self.nodes@[self.nodes@[n].inputs@[jj] as int].dependents@.contains(n as usize) by {
                    assert(pre.nodes@[self.nodes@[n].inputs@[jj] as int].dependents@.contains(n as usize));
                }
                assert forall|x: usize, jj: int|
                    #![trigger self.dirty_set().contains(x), self.nodes@[x as int].dependents@[jj]]
                    self.dirty_set().contains(x) && 0 <= x < self.nodes.len() && 0 <= jj
                        < self.nodes@[x as int].dependents@.len() implies self.dirty_set().contains(
                        self.nodes@[x as int].dependents@[jj],
                    ) by {
                    if x == i {
                        let w = od.index_of(nd[jj]);
                        assert(pre.nodes@[x as int].dependents@[w] == nd[jj]);
                    }
                }
                assert forall|k: int| 0 <= k < old(self).nodes@.len() && self.nodes@[k].live implies
                    (forall|d: usize| #[trigger] old(self).nodes@[k].dependents@.contains(d) && self.is_live(d as int)
                        ==> self.nodes@[k].dependents@.contains(d)) by {
                    if k == i {
                        assert forall|d: usize| #[trigger] old(self).nodes@[k].dependents@.contains(d) && self.is_live(d as int)
                            implies self.nodes@[k].dependents@.contains(d) by {
                            assert(pre.nodes@[k].dependents@.contains(d));
                        }
                    }
                }
                assert forall|k: int, jj: int| 0 <= k < old(self).nodes@.len() && 0 <= jj < self.nodes@[k].dependents@.len() implies
                    old(self).nodes@[k].dependents@.contains(#[trigger] self.nodes@[k].dependents@[jj]) by {
                    if k == i {
                        assert(od.contains(nd[jj]));
                    } else {
                        assert(pre.nodes@[k].dependents@.contains(self.nodes@[k].dependents@[jj]));
                    }
                }
            }
            j = j + 1;
        }
        let ghost after_detach = *self;
        let n_children = self.nodes[id].children.len();
        let mut c: usize = 0;
        while c < n_children
            invariant
                self.wf(),
                old(self).freed_into(self),
                id < self.nodes@.len(),
                !self.nodes@[id as int].live,
                forall|k: int|
                    #![trigger self.nodes@[k].live]
                    0 <= k < id ==> self.nodes@[k].live == old(self).nodes@[k].live,
                n_children == old(self).nodes@[id as int].children@.len(),
                c <= n_children,
                forall|cc: int| 0 <= cc < c ==> !self.nodes@[#[trigger] old(self).nodes@[id as int].children@[cc] as int].live,
                after_detach.freed_into(self),
                forall|jj: int|
                    0 <= jj < old(self).nodes@[id as int].inputs@.len() ==> !after_detach.nodes@[
                        #[trigger] old(self).nodes@[id as int].inputs@[jj] as int].dependents@.contains(id),
                forall|cc: int, b: usize, n: nat|
                    0 <= cc < c && #[trigger] owns(old(self).nodes@, old(self).nodes@[id as int].children@[cc], b, n)
                        ==> b < old(self).nodes@.len() && !self.nodes@[b as int].live,
            decreases n_children - c,
        {
            let child = self.nodes[id].children[c];
            let ghost pre = *self;
            self.free_cell(child);
            proof {
                assert forall|cc: int, b: usize, n: nat|
                    0 <= cc < c + 1 && #[trigger] owns(old(self).nodes@, old(self).nodes@[id as int].children@[cc], b, n)
                        implies b < old(self).nodes@.len() && !self.nodes@[b as int].live by {
                    if cc == c {
                        assert(forall|k: int| 0 <= k < old(self).nodes@.len() ==> (#[trigger] old(self).nodes@[k]).children
                            == pre.nodes@[k].children);
                        lemma_owns_same_children(old(self).nodes@, pre.nodes@, child, b, n);
                        assert(owns(pre.nodes@, child, b, n));
                    } else {
                        assert(!pre.nodes@[b as int].live);
                    }
                }
            }
            c = c + 1;
        }
        proof {
            assert forall|b: usize, n: nat| #[trigger] owns(old(self).nodes@, id, b, n)
                implies b < old(self).nodes@.len() && !self.nodes@[b as int].live by {
                if n == 0 {
                    assert(b == id);
                } else {
                    assert(owns(old(self).nodes@, id, b, n));
                    let ch = choose|ch: usize| #![trigger old(self).nodes@[id as int].children@.contains(ch)]
                        id < old(self).nodes@.len() && old(self).nodes@[id as int].children@.contains(ch)
                            && owns(old(self).nodes@, ch, b, (n - 1) as nat);
                    let cc = old(self).nodes@[id as int].children@.index_of(ch);
                    assert(owns(old(self).nodes@, old(self).nodes@[id as int].children@[cc], b, (n - 1) as nat));
                }
            }
            assert forall|jj: int|
                0 <= jj < old(self).nodes@[id as int].inputs@.len() implies !self.nodes@[
                    #[trigger] old(self).nodes@[id as int].inputs@[jj] as int].dependents@.contains(id) by {
                let i = old(self).nodes@[id as int].inputs@[jj] as int;
                if self.nodes@[i].dependents@.contains(id) {
                    let w = self.nodes@[i].dependents@.index_of(id);
                    assert(after_detach.nodes@[i].dependents@.contains(self.nodes@[i].dependents@[w]));
                }
            }
        }
    }
}

} // verus!

//! The cell registry: node records keyed by handle, value resolution through
//! aliases, the structural invariant, node creation and freeing.
use vstd::prelude::*;

verus! {

/// One node of the dataflow graph.
pub struct Node<V, F> {
    /// False once the node has been freed; its handle is never reused.
    pub live: bool,
    /// The value held directly (`None` for a stream with no event this round).
    pub value: Option<V>,
    /// Set on a switch node: the node whose value this one shows.
    pub alias: Option<usize>,
    /// Set on a loop placeholder: the node that defines it.
    pub loop_target: Option<usize>,
    /// The update rule over the inputs' values; `None` on sinks and switches.
    pub rule: Option<F>,
    /// True on a switch node, whose selector is its only input.
    pub is_switch: bool,
    /// The handles this node depends on.
    pub inputs: Vec<usize>,
    /// The handles that depend on this node.
    pub dependents: Vec<usize>,
    /// The live subscription ids of this node's observers.
    pub observers: Vec<usize>,
    /// The next subscription id to hand out.
    pub next_observer: usize,
    /// True on stream nodes: the value reverts to `None` after each sweep.
    pub resets: bool,
    /// Nodes created while this switch node was choosing its inner cell.
    pub children: Vec<usize>,
    /// On a switch node: the switch whose branch was under construction when this
    /// one began choosing its inner cell, restored when it is done.
    pub enclosing: Option<usize>,
}

/// The engine's state: every node, the dirty set, the transaction depth and the
/// notifications queued for the host.
pub struct FrpContext<V, F> {
    pub nodes: Vec<Node<V, F>>,
    pub dirty: Vec<usize>,
    pub inside_switch: Option<usize>,
    pub transaction_depth: usize,
}

/// `b` holds what `a` holds, but perhaps for the links to dependents and owned children.
pub open spec fn same_record<V, F>(a: Node<V, F>, b: Node<V, F>) -> bool {
    &&& b.live == a.live
    &&& b.value == a.value
    &&& b.alias == a.alias
    &&& b.loop_target == a.loop_target
    &&& b.rule == a.rule
    &&& b.is_switch == a.is_switch
    &&& b.inputs == a.inputs
    &&& b.observers == a.observers
    &&& b.next_observer == a.next_observer
    &&& b.resets == a.resets
    &&& b.enclosing == a.enclosing
}

/// `b` is `a` with zero or more copies of `x` appended.
pub open spec fn extended_by<T>(a: Seq<T>, b: Seq<T>, x: T) -> bool {
    &&& a.len() <= b.len()
    &&& b.subrange(0, a.len() as int) == a
    &&& forall|j: int| a.len() <= j < b.len() ==> b[j] == x
}

/// In `nodes`, node `to` can be reached from `from` in exactly `n` steps along
/// dependent links.
pub open spec fn reaches<V, F>(nodes: Seq<Node<V, F>>, from: usize, to: usize, n: nat) -> bool
    decreases n,
{
    if n == 0 {
        from == to
    } else {
        exists|c: usize|
            #![trigger nodes[c as int].dependents@.contains(to)]
            reaches(nodes, from, c, (n - 1) as nat) && c < nodes.len() && nodes[c as int].dependents@.contains(to)
    }
}

/// Reachability depends on the dependent links alone.
pub proof fn lemma_reaches_same_links<V, F>(a: Seq<Node<V, F>>, b: Seq<Node<V, F>>, from: usize, to: usize, n: nat)
    requires
        a.len() == b.len(),
        forall|k: int| 0 <= k < a.len() ==> (#[trigger] a[k]).dependents == b[k].dependents,
    ensures
        reaches(a, from, to, n) == reaches(b, from, to, n),
    decreases n,
{
    if n > 0 {
        if reaches(a, from, to, n) {
            let c = choose|c: usize|
                #![trigger a[c as int].dependents@.contains(to)]
                reaches(a, from, c, (n - 1) as nat) && c < a.len() && a[c as int].dependents@.contains(to);
            lemma_reaches_same_links(a, b, from, c, (n - 1) as nat);
            assert(b[c as int].dependents@.contains(to));
        }
        if reaches(b, from, to, n) {
            let c = choose|c: usize|
                #![trigger b[c as int].dependents@.contains(to)]
                reaches(b, from, c, (n - 1) as nat) && c < b.len() && b[c as int].dependents@.contains(to);
            lemma_reaches_same_links(a, b, from, c, (n - 1) as nat);
            assert(a[c as int].dependents@.contains(to));
        }
    }
}

/// True when every entry is present.
pub open spec fn all_present<V>(s: Seq<Option<V>>) -> bool {
    forall|i: int| 0 <= i < s.len() ==> (#[trigger] s[i]) is Some
}

/// The entries of a sequence of present values.
pub open spec fn unwrap_all<V>(s: Seq<Option<V>>) -> Seq<V> {
    s.map_values(|o: Option<V>| o->0)
}

/// `r` is a result that `f` may return on arguments `args`.
pub open spec fn computes<V, F: Fn(Vec<V>) -> V>(f: F, args: Seq<V>, r: V) -> bool {
    exists|a: Vec<V>| a@ == args && #[trigger] f.ensures((a,), r)
}

/// `f` accepts every argument vector.
pub open spec fn total<V, F: Fn(Vec<V>) -> V>(f: F) -> bool {
    forall|a: Vec<V>| #[trigger] f.requires((a,))
}

impl<V: Copy, F: Fn(Vec<V>) -> V> FrpContext<V, F> {
    pub open spec fn valid_id(&self, id: int) -> bool {
        0 <= id < self.nodes.len()
    }

    pub open spec fn is_live(&self, id: int) -> bool {
        self.valid_id(id) && self.nodes[id].live
    }

    /// A node whose value is held directly, with no alias of either kind.
    pub open spec fn is_direct(&self, id: int) -> bool {
        self.is_live(id) && self.nodes[id].alias is None && self.nodes[id].loop_target is None
    }

    /// A node written only from outside: live, direct, with no rule.
    pub open spec fn is_source(&self, id: int) -> bool {
        self.is_direct(id) && self.nodes[id].rule is None && !self.nodes[id].is_switch
    }

    /// The value read at `id`, following at most `fuel` aliases.
    pub open spec fn resolve(&self, id: int, fuel: nat) -> Option<V>
        decreases fuel,
    {
        if fuel == 0 || !self.is_live(id) {
            None
        } else if let Some(t) = self.nodes[id].loop_target {
            self.resolve(t as int, (fuel - 1) as nat)
        } else if let Some(t) = self.nodes[id].alias {
            self.resolve(t as int, (fuel - 1) as nat)
        } else {
            self.nodes[id].value
        }
    }

    /// The current value of the node `id`: `None` for a stream without an event,
    /// a freed or unknown handle, or an alias chain that never reaches a value.
    pub open spec fn value_of(&self, id: int) -> Option<V> {
        self.resolve(id, usize::MAX as nat)
    }

    /// `other` keeps every node of `self` as it reads: same liveness, value and aliases.
    pub open spec fn reads_alike(&self, other: &Self) -> bool {
        &&& self.nodes.len() <= other.nodes.len()
        &&& forall|k: int|
            #![trigger other.nodes[k]]
            0 <= k < self.nodes.len() ==> {
                &&& other.nodes[k].live == self.nodes[k].live
                &&& other.nodes[k].value == self.nodes[k].value
                &&& other.nodes[k].alias == self.nodes[k].alias
                &&& other.nodes[k].loop_target == self.nodes[k].loop_target
            }
    }

    /// The current values of the nodes `ids`, in order.
    pub open spec fn values_of(&self, ids: Seq<usize>) -> Seq<Option<V>> {
        ids.map_values(|i: usize| self.value_of(i as int))
    }

    /// The values of the inputs of node `n`, in order.
    pub open spec fn input_values(&self, n: int) -> Seq<Option<V>> {
        self.values_of(self.nodes[n].inputs@)
    }

    /// Node `n` holds what its rule gives on its inputs' current values.
    pub open spec fn rule_holds(&self, n: int) -> bool {
        match self.nodes[n].rule {
            Some(f) => if all_present(self.input_values(n)) {
                self.nodes[n].value is Some && computes(
                    f,
                    unwrap_all(self.input_values(n)),
                    self.nodes[n].value->0,
                )
            } else {
                self.nodes[n].value is None
            },
            None => true,
        }
    }

    /// Node `to` is `from` or one of its descendants along dependent links.
    pub open spec fn reachable(&self, from: usize, to: usize) -> bool {
        exists|n: nat| reaches(self.nodes@, from, to, n)
    }

    /// A node just created: live, with no dependents, observers or owned children.
    pub open spec fn fresh(&self, r: int) -> bool {
        &&& self.is_live(r)
        &&& self.nodes[r].dependents@.len() == 0
        &&& self.nodes[r].observers@.len() == 0
        &&& self.nodes[r].next_observer == 0
        &&& self.nodes[r].children@.len() == 0
    }

    /// `m` holds every dependent of each of its members.
    pub open spec fn closed_under_dependents(&self, m: Set<usize>) -> bool {
        forall|x: usize, j: int|
            #![trigger m.contains(x), self.nodes[x as int].dependents@[j]]
            m.contains(x) && 0 <= x < self.nodes.len() && 0 <= j < self.nodes[x as int].dependents@.len()
                ==> m.contains(self.nodes[x as int].dependents@[j])
    }

    /// `other` is `self` with one node added: every earlier node keeps its record and
    /// reads the same, and the transaction state is untouched.
    pub open spec fn grown_by_one(&self, other: &Self) -> bool {
        &&& other.nodes.len() == self.nodes.len() + 1
        &&& forall|k: int|
            #![trigger other.nodes[k]]
            0 <= k < self.nodes.len() ==> same_record(self.nodes[k], other.nodes[k])
                && extended_by(self.nodes[k].dependents@, other.nodes[k].dependents@, self.nodes.len() as usize)
                && (other.nodes[self.nodes.len() as int].inputs@.contains(k as usize)
                    ==> other.nodes[k].dependents@.contains(self.nodes.len() as usize))
        &&& other.fresh(self.nodes.len() as int)
        &&& forall|k: int|
            #![trigger other.value_of(k)]
            0 <= k < self.nodes.len() ==> other.value_of(k) == self.value_of(k)
        &&& self.dirty_set().subset_of(other.dirty_set())
        &&& other.dirty_set().subset_of(self.dirty_set().insert(self.nodes.len() as usize))
        &&& other.transaction_depth == self.transaction_depth
    }

    /// The dirty set as a set.
    pub open spec fn dirty_set(&self) -> Set<usize> {
        self.dirty@.to_set()
    }

    /// The structural invariant of the registry: the links and the dirty set are
    /// consistent, and the dirty set holds every dependent of its members.
    pub open spec fn wf(&self) -> bool {
        &&& self.wf_links()
        &&& self.closed_under_dependents(self.dirty_set())
    }

    /// The link and bound part of the invariant.
    pub open spec fn wf_links(&self) -> bool {
        &&& forall|n: int, j: int|
            #![trigger self.nodes[n].inputs@[j]]
            0 <= n < self.nodes.len() && 0 <= j < self.nodes[n].inputs@.len()
                ==> self.nodes[n].inputs@[j] < n
        &&& forall|n: int, j: int|
            #![trigger self.nodes[n].dependents@[j]]
            0 <= n < self.nodes.len() && 0 <= j < self.nodes[n].dependents@.len()
                ==> n < self.nodes[n].dependents@[j] < self.nodes.len()
        &&& forall|n: int, j: int|
            #![trigger self.nodes[n].inputs@[j]]
            0 <= n < self.nodes.len() && 0 <= j < self.nodes[n].inputs@.len()
                && self.nodes[n].live && self.nodes[self.nodes[n].inputs@[j] as int].live
                ==> self.nodes[self.nodes[n].inputs@[j] as int].dependents@.contains(n as usize)
        &&& forall|n: int, j: int|
            #![trigger self.nodes[n].children@[j]]
            0 <= n < self.nodes.len() && 0 <= j < self.nodes[n].children@.len()
                ==> n < self.nodes[n].children@[j] < self.nodes.len()
        &&& forall|n: int|
            #![trigger self.nodes[n].rule]
            0 <= n < self.nodes.len() && self.nodes[n].rule is Some ==> total(
                self.nodes[n].rule->0,
            )
        &&& forall|n: int|
            #![trigger self.nodes[n].alias]
            0 <= n < self.nodes.len() && self.nodes[n].alias is Some
                ==> self.nodes[n].alias->0 < self.nodes.len()
        &&& forall|n: int|
            #![trigger self.nodes[n].enclosing]
            0 <= n < self.nodes.len() && self.nodes[n].enclosing is Some
                ==> self.nodes[n].enclosing->0 < self.nodes.len()
        &&& forall|n: int|
            #![trigger self.nodes[n].loop_target]
            0 <= n < self.nodes.len() && self.nodes[n].loop_target is Some
                ==> self.nodes[n].loop_target->0 < self.nodes.len()
        &&& forall|n: int|
            #![trigger self.nodes[n].is_switch]
            0 <= n < self.nodes.len() && self.nodes[n].is_switch ==> self.nodes[n].rule is None
                && self.nodes[n].loop_target is None
        &&& forall|n: int|
            #![trigger self.nodes[n].observers]
            0 <= n < self.nodes.len() ==> {
                &&& self.nodes[n].observers@.no_duplicates()
                &&& forall|j: int|
                    0 <= j < self.nodes[n].observers@.len() ==> #[trigger] self.nodes[n].observers@[j]
                        < self.nodes[n].next_observer
            }
        &&& forall|j: int|
            #![trigger self.dirty@[j]]
            0 <= j < self.dirty@.len() ==> self.dirty@[j] < self.nodes.len()
        &&& self.dirty@.no_duplicates()
        &&& match self.inside_switch {
            Some(s) => s < self.nodes.len(),
            None => true,
        }
    }
}

/// Every node of `a` reads the same in a registry that keeps it as it reads.
pub proof fn lemma_values_alike<V: Copy, F: Fn(Vec<V>) -> V>(a: &FrpContext<V, F>, b: &FrpContext<V, F>)
    requires
        a.wf(),
        a.reads_alike(b),
    ensures
        forall|k: int| #![trigger b.value_of(k)] a.valid_id(k) ==> b.value_of(k) == a.value_of(k),
{
    assert forall|k: int| #![trigger b.value_of(k)] a.valid_id(k) implies b.value_of(k) == a.value_of(k) by {
        lemma_resolve_alike(a, b, k, usize::MAX as nat);
    }
}

/// The invariant survives a change of aliases that keeps them within bounds.
pub proof fn lemma_links_kept<V: Copy, F: Fn(Vec<V>) -> V>(a: &FrpContext<V, F>, b: &FrpContext<V, F>)
    requires
        a.wf(),
        a.dirty == b.dirty,
        a.nodes@.len() == b.nodes@.len(),
        forall|k: int|
            #![trigger b.nodes@[k]]
            0 <= k < a.nodes@.len() ==> {
                &&& b.nodes@[k].live == a.nodes@[k].live
                &&& b.nodes@[k].rule == a.nodes@[k].rule
                &&& b.nodes@[k].is_switch == a.nodes@[k].is_switch
                &&& b.nodes@[k].inputs == a.nodes@[k].inputs
                &&& b.nodes@[k].dependents == a.nodes@[k].dependents
                &&& b.nodes@[k].observers == a.nodes@[k].observers
                &&& b.nodes@[k].next_observer == a.nodes@[k].next_observer
                &&& b.nodes@[k].children == a.nodes@[k].children
                &&& b.nodes@[k].enclosing == a.nodes@[k].enclosing
                &&& (b.nodes@[k].alias is Some ==> b.nodes@[k].alias->0 < a.nodes@.len())
                &&& (b.nodes@[k].loop_target is Some ==> b.nodes@[k].loop_target->0 < a.nodes@.len())
                &&& (b.nodes@[k].is_switch ==> b.nodes@[k].loop_target is None)
            },
        match b.inside_switch {
            Some(s) => s < a.nodes@.len(),
            None => true,
        },
    ensures
        b.wf(),
{
    assert(b.dirty_set() == a.dirty_set());
    assert forall|n: int, j: int|
        #![trigger b.nodes[n].inputs@[j]]
        0 <= n < b.nodes.len() && 0 <= j < b.nodes[n].inputs@.len() && b.nodes[n].live
            && b.nodes[b.nodes[n].inputs@[j] as int].live
        implies b.nodes[b.nodes[n].inputs@[j] as int].dependents@.contains(n as usize) by {
        assert(a.nodes[n].inputs@[j] == b.nodes[n].inputs@[j]);
        assert(b.nodes@[b.nodes[n].inputs@[j] as int].dependents == a.nodes@[a.nodes[n].inputs@[j] as int].dependents);
    }
    assert forall|n: int, j: int|
        0 <= n < b.nodes.len() && 0 <= j < b.nodes[n].dependents@.len()
        implies n < #[trigger] b.nodes[n].dependents@[j] < b.nodes.len() by {
        assert(a.nodes[n].dependents@[j] == b.nodes[n].dependents@[j]);
    }
    assert forall|n: int, j: int|
        0 <= n < b.nodes.len() && 0 <= j < b.nodes[n].inputs@.len()
        implies #[trigger] b.nodes[n].inputs@[j] < n by {
        assert(a.nodes[n].inputs@[j] == b.nodes[n].inputs@[j]);
    }
    assert forall|n: int, j: int|
        0 <= n < b.nodes.len() && 0 <= j < b.nodes[n].children@.len()
        implies n < #[trigger] b.nodes[n].children@[j] < b.nodes.len() by {
        assert(a.nodes[n].children@[j] == b.nodes[n].children@[j]);
    }
    assert forall|n: int|
        #![trigger b.nodes[n].observers]
        0 <= n < b.nodes.len() implies b.nodes[n].observers@.no_duplicates() && forall|j: int|
            0 <= j < b.nodes[n].observers@.len() ==> #[trigger] b.nodes[n].observers@[j] < b.nodes[n].next_observer by {
        assert(a.nodes[n].observers == b.nodes[n].observers);
    }
    assert forall|n: int|
        #![trigger b.nodes[n].rule]
        0 <= n < b.nodes.len() && b.nodes[n].rule is Some implies total(b.nodes[n].rule->0) by {
        assert(a.nodes[n].rule == b.nodes[n].rule);
    }
    assert forall|n: int|
        #![trigger b.nodes[n].is_switch]
        0 <= n < b.nodes.len() && b.nodes[n].is_switch implies b.nodes[n].rule is None
            && b.nodes[n].loop_target is None by {
        assert(a.nodes[n].is_switch == b.nodes[n].is_switch);
    }
    assert forall|n: int|
        #![trigger b.nodes[n].enclosing]
        0 <= n < b.nodes.len() && b.nodes[n].enclosing is Some implies b.nodes[n].enclosing->0 < b.nodes.len() by {
        assert(a.nodes[n].enclosing == b.nodes[n].enclosing);
    }
    assert forall|n: int|
        #![trigger b.nodes[n].alias]
        0 <= n < b.nodes.len() && b.nodes[n].alias is Some implies b.nodes[n].alias->0 < b.nodes.len() by {
        assert(b.nodes@[n].alias is Some ==> b.nodes@[n].alias->0 < a.nodes@.len());
    }
    assert forall|n: int|
        #![trigger b.nodes[n].loop_target]
        0 <= n < b.nodes.len() && b.nodes[n].loop_target is Some implies b.nodes[n].loop_target->0 < b.nodes.len() by {
        assert(b.nodes@[n].loop_target is Some ==> b.nodes@[n].loop_target->0 < a.nodes@.len());
    }
    lemma_closed_same_links(a, b);
}

/// The dirty set stays closed when the dependent lists and the dirty set are kept.
pub proof fn lemma_closed_same_links<V: Copy, F: Fn(Vec<V>) -> V>(a: &FrpContext<V, F>, b: &FrpContext<V, F>)
    requires
        a.closed_under_dependents(a.dirty_set()),
        a.dirty == b.dirty,
        a.nodes@.len() == b.nodes@.len(),
        forall|k: int| 0 <= k < a.nodes@.len() ==> (#[trigger] b.nodes@[k]).dependents == a.nodes@[k].dependents,
    ensures
        b.closed_under_dependents(b.dirty_set()),
{
    assert forall|x: usize, j: int|
        #![trigger b.dirty_set().contains(x), b.nodes[x as int].dependents@[j]]
        b.dirty_set().contains(x) && 0 <= x < b.nodes.len() && 0 <= j < b.nodes[x as int].dependents@.len()
        implies b.dirty_set().contains(b.nodes[x as int].dependents@[j]) by {
        assert(b.nodes@[x as int].dependents == a.nodes@[x as int].dependents);
        assert(a.dirty_set().contains(x));
    }
}

/// A node that holds its value directly reads as that value.
pub proof fn lemma_direct_value<V: Copy, F: Fn(Vec<V>) -> V>(ctx: &FrpContext<V, F>, id: int)
    requires
        ctx.is_direct(id),
    ensures
        ctx.value_of(id) == ctx.nodes[id].value,
{
    assert(usize::MAX as nat > 0);
}

/// A finite set of handles below `n` has at most `n` members.
pub proof fn lemma_bounded_len(m: Set<usize>, n: usize)
    requires
        m.finite(),
        forall|x: usize| #[trigger] m.contains(x) ==> x < n,
    ensures
        m.len() <= n,
{
    let r = vstd::set_lib::set_int_range(0, n as int);
    vstd::set_lib::lemma_int_range(0, n as int);
    let y = r.map(|i: int| i as usize);
    vstd::set_lib::lemma_map_size_bound(r, y, |i: int| i as usize);
    assert forall|x: usize| m.contains(x) implies #[trigger] y.contains(x) by {
        assert(r.contains(x as int));
    }
    vstd::set_lib::lemma_len_subset(m, y);
}

/// Reading through aliases gives the same values in a registry that keeps every
/// node as it reads.
pub proof fn lemma_resolve_alike<V: Copy, F: Fn(Vec<V>) -> V>(
    a: &FrpContext<V, F>,
    b: &FrpContext<V, F>,
    id: int,
    fuel: nat,
)
    requires
        a.wf(),
        a.reads_alike(b),
    ensures
        a.valid_id(id) ==> a.resolve(id, fuel) == b.resolve(id, fuel),
    decreases fuel,
{
    if fuel > 0 && a.valid_id(id) {
        assert(b.nodes[id].live == a.nodes[id].live);
        if let Some(t) = a.nodes[id].loop_target {
            lemma_resolve_alike(a, b, t as int, (fuel - 1) as nat);
        } else if let Some(t) = a.nodes[id].alias {
            lemma_resolve_alike(a, b, t as int, (fuel - 1) as nat);
        }
    }
}

impl<V: Copy, F: Fn(Vec<V>) -> V> FrpContext<V, F> {
    /// An empty registry, outside any transaction.
    pub fn new() -> (r: Self)
        ensures
            r.wf(),
            r.nodes@.len() == 0,
            r.dirty@.len() == 0,
            r.transaction_depth == 0,
            r.inside_switch is None,
    {
        FrpContext { nodes: Vec::new(), dirty: Vec::new(), inside_switch: None, transaction_depth: 0 }
    }

    /// Adds `node` under the next handle, registers it as a dependent of each of
    /// its inputs and as an owned child of the switch under construction, if any.
    pub(crate) fn insert_cell(&mut self, node: Node<V, F>) -> (r: usize)
        requires
            old(self).wf(),
            old(self).nodes@.len() < usize::MAX,
            node.live,
            node.alias is None,
            node.loop_target is None,
            node.dependents@.len() == 0,
            node.children@.len() == 0,
            node.enclosing is None,
            node.observers@.len() == 0,
            node.is_switch ==> node.rule is None,
            node.rule is Some ==> total(node.rule->0),
            forall|j: int|
                0 <= j < node.inputs@.len() ==> #[trigger] node.inputs@[j] < old(self).nodes@.len(),
        ensures
            final(self).wf(),
            r == old(self).nodes@.len(),
            final(self).nodes@.len() == r + 1,
            final(self).nodes@[r as int] == node,
            final(self).dirty_set() == (if exists|j: int|
                0 <= j < node.inputs@.len() && old(self).dirty_set().contains(
                    #[trigger] node.inputs@[j],
                ) {
                old(self).dirty_set().insert(r)
            } else {
                old(self).dirty_set()
            }),
            final(self).transaction_depth == old(self).transaction_depth,
            final(self).inside_switch == old(self).inside_switch,
            old(self).reads_alike(final(self)),
            forall|k: int|
                #![trigger final(self).nodes@[k]]
                0 <= k < r ==> {
                    &&& same_record(old(self).nodes@[k], final(self).nodes@[k])
                    &&& extended_by(
                        old(self).nodes@[k].dependents@,
                        final(self).nodes@[k].dependents@,
                        r,
                    )
                    &&& (node.inputs@.contains(k as usize)
                        ==> final(self).nodes@[k].dependents@.contains(r))
                    &&& final(self).nodes@[k].children@ == if old(self).inside_switch == Some(
                        k as usize,
                    ) {
                        old(self).nodes@[k].children@.push(r)
                    } else {
                        old(self).nodes@[k].children@
                    }
                },
    {
        let r = self.nodes.len();
        let ghost old_nodes = self.nodes@;
        self.nodes.push(node);
        let mut j: usize = 0;
        assert forall|k: int| 0 <= k < r implies #[trigger] self.nodes@[k].dependents@.subrange(
            0,
            old_nodes[k].dependents@.len() as int,
        ) == old_nodes[k].dependents@ by {
            assert(self.nodes@[k].dependents@.subrange(0, old_nodes[k].dependents@.len() as int)
                =~= old_nodes[k].dependents@);
        }
        let n_inputs = self.nodes[r].inputs.len();
        while j < n_inputs
            invariant
                old(self).wf(),
                r == old_nodes.len(),
                old_nodes == old(self).nodes@,
                self.inside_switch == old(self).inside_switch,
                self.dirty == old(self).dirty,
                self.transaction_depth == old(self).transaction_depth,
                self.nodes@.len() == r + 1,
                self.nodes@[r as int] == node,
                n_inputs == node.inputs@.len(),
                j <= n_inputs,
                forall|jj: int|
                    0 <= jj < node.inputs@.len() ==> #[trigger] node.inputs@[jj] < r,
                forall|k: int|
                    #![trigger self.nodes@[k]]
                    0 <= k < r ==> {
                        &&& same_record(old_nodes[k], self.nodes@[k])
                        &&& extended_by(old_nodes[k].dependents@, self.nodes@[k].dependents@, r)
                        &&& self.nodes@[k].children == old_nodes[k].children
                    },
                forall|jj: int|
                    0 <= jj < j ==> self.nodes@[node.inputs@[jj] as int].dependents@.contains(r),
                forall|k: int|
                    0 <= k < r && #[trigger] self.nodes@[k].dependents@.len()
                        > old_nodes[k].dependents@.len() ==> node.inputs@.contains(k as usize),
            decreases n_inputs - j,
        {
            let i = self.nodes[r].inputs[j];
            self.nodes[i].dependents.push(r);
            proof {
                let d = self.nodes@[i as int].dependents@;
                assert(d[d.len() - 1] == r);
                assert forall|k: int| 0 <= k < r implies extended_by(
                    old_nodes[k].dependents@,
                    #[trigger] self.nodes@[k].dependents@,
                    r,
                ) by {
                    if k == i {
                        let o = old_nodes[k].dependents@;
                        assert(self.nodes@[k].dependents@.subrange(0, o.len() as int)
                            =~= o);
                    }
                }
            }
            j = j + 1;
        }
        if let Some(s) = self.inside_switch {
            self.nodes[s].children.push(r);
        }
        proof {
            assert forall|k: int| 0 <= k < r && node.inputs@.contains(k as usize)
                implies #[trigger] self.nodes@[k].dependents@.contains(r) by {
                let jj = node.inputs@.index_of(k as usize);
                assert(self.nodes@[node.inputs@[jj] as int].dependents@.contains(r));
            }
            assert forall|n: int, jj: int|
                0 <= n < self.nodes.len() && 0 <= jj < self.nodes@[n].dependents@.len()
                implies n < #[trigger] self.nodes@[n].dependents@[jj] < self.nodes.len() by {
                if n < r {
                    let o = old_nodes[n].dependents@;
                    if jj < o.len() {
                        assert(self.nodes@[n].dependents@.subrange(0, o.len() as int)[jj] == o[jj]);
                    }
                }
            }
            assert forall|n: int, jj: int|
                #![trigger self.nodes@[n].inputs@[jj]]
                0 <= n < self.nodes.len() && 0 <= jj < self.nodes@[n].inputs@.len()
                    && self.nodes@[n].live && self.nodes@[self.nodes@[n].inputs@[jj] as int].live
                implies self.nodes@[self.nodes@[n].inputs@[jj] as int].dependents@.contains(n as usize) by {
                let i = self.nodes@[n].inputs@[jj] as int;
                if n < r {
                    let o = old_nodes[i].dependents@;
                    assert(old_nodes[i].dependents@.contains(n as usize));
                    let w = o.index_of(n as usize);
                    assert(self.nodes@[i].dependents@.subrange(0, o.len() as int)[w] == o[w]);
                } else {
                    assert(node.inputs@.contains(i as usize));
                }
            }
        }
        let any_dirty = self.any_dirty(&self.nodes[r].inputs);
        let ghost pre_mark = *self;
        if any_dirty {
            self.mark_dirty(r);
        }
        proof {
            assert forall|x: usize, jj: int|
                #![trigger self.dirty_set().contains(x), self.nodes@[x as int].dependents@[jj]]
                self.dirty_set().contains(x) && 0 <= x < self.nodes.len() && 0 <= jj
                    < self.nodes@[x as int].dependents@.len() implies self.dirty_set().contains(
                    self.nodes@[x as int].dependents@[jj],
                ) by {
                if x < r {
                    let o = old_nodes[x as int].dependents@;
                    if jj < o.len() {
                        assert(self.nodes@[x as int].dependents@.subrange(0, o.len() as int)[jj] == o[jj]);
                        if !old(self).dirty_set().contains(x) {
                            assert(pre_mark.dirty_set().contains(x));
                        }
                    } else {
                        assert(self.nodes@[x as int].dependents@.len() > o.len());
                        assert(node.inputs@.contains(x as usize));
                        if old(self).dirty_set().contains(x) {
                            let w = node.inputs@.index_of(x as usize);
                            assert(old(self).dirty_set().contains(node.inputs@[w]));
                        }
                    }
                }
            }
        }
        r
    }

    /// True when `id` is in the dirty set.
    pub(crate) fn is_dirty(&self, id: usize) -> (r: bool)
        ensures
            r == self.dirty_set().contains(id),
    {
        let mut j: usize = 0;
        while j < self.dirty.len()
            invariant
                j <= self.dirty@.len(),
                forall|jj: int| 0 <= jj < j ==> self.dirty@[jj] != id,
            decreases self.dirty@.len() - j,
        {
            if self.dirty[j] == id {
                assert(self.dirty@.contains(id));
                return true;
            }
            j = j + 1;
        }
        false
    }

    /// True when one of `ids` is in the dirty set.
    pub(crate) fn any_dirty(&self, ids: &Vec<usize>) -> (r: bool)
        ensures
            r == exists|j: int| 0 <= j < ids@.len() && self.dirty_set().contains(#[trigger] ids@[j]),
    {
        let mut j: usize = 0;
        while j < ids.len()
            invariant
                j <= ids@.len(),
                forall|jj: int| 0 <= jj < j ==> !self.dirty_set().contains(#[trigger] ids@[jj]),
            decreases ids@.len() - j,
        {
            if self.is_dirty(ids[j]) {
                return true;
            }
            j = j + 1;
        }
        false
    }

    /// Adds `id` to the dirty set, once.
    pub(crate) fn mark_dirty(&mut self, id: usize)
        requires
            old(self).wf_links(),
            id < old(self).nodes@.len(),
        ensures
            final(self).wf_links(),
            final(self).nodes == old(self).nodes,
            final(self).inside_switch == old(self).inside_switch,
            final(self).transaction_depth == old(self).transaction_depth,
            final(self).dirty_set() == old(self).dirty_set().insert(id),
    {
        let mut j: usize = 0;
        while j < self.dirty.len()
            invariant
                self.wf_links(),
                id < self.nodes@.len(),
                *self == *old(self),
                j <= self.dirty@.len(),
                forall|jj: int| 0 <= jj < j ==> self.dirty@[jj] != id,
            decreases self.dirty@.len() - j,
        {
            if self.dirty[j] == id {
                proof {
                    assert(self.dirty_set() =~= self.dirty_set().insert(id));
                }
                return;
            }
            j = j + 1;
        }
        let ghost before = self.dirty@;
        self.dirty.push(id);
        proof {
            assert(self.dirty@ =~= before.push(id));
            assert(self.dirty_set() =~= before.to_set().insert(id)) by {
                assert forall|x: usize| #[trigger] self.dirty_set().contains(x)
                    <==> (x == id || before.contains(x)) by {
                    if x != id && before.contains(x) {
                        assert(self.dirty@[before.index_of(x)] == x);
                    }
                    if x == id {
                        assert(self.dirty@[before.len() as int] == x);
                    }
                }
            }
        }
    }

    /// Marks `id` and every node reachable from it through dependents as dirty.
    pub(crate) fn mark_all_decendent_cells_for_update(&mut self, id: usize)
        requires
            old(self).wf(),
            id < old(self).nodes@.len(),
        ensures
            final(self).wf(),
            final(self).nodes == old(self).nodes,
            final(self).inside_switch == old(self).inside_switch,
            final(self).transaction_depth == old(self).transaction_depth,
            old(self).dirty_set().subset_of(final(self).dirty_set()),
            final(self).dirty_set().contains(id),
            exists|m: Set<usize>|
                #![trigger final(self).closed_under_dependents(m)]
                m.contains(id) && m.subset_of(final(self).dirty_set())
                    && final(self).closed_under_dependents(m)
                    && final(self).dirty_set() == old(self).dirty_set().union(m)
                    && forall|x: usize| #[trigger] m.contains(x) ==> final(self).reachable(id, x),
    {
        let n = self.nodes.len();
        let mut marked: Vec<bool> = Vec::new();
        while marked.len() < n
            invariant
                marked@.len() <= n,
                forall|k: int| 0 <= k < marked@.len() ==> !marked@[k],
            decreases n - marked@.len(),
        {
            marked.push(false);
        }
        let ghost m: Set<usize> = Set::empty();
        marked.set(id, true);
        proof {
            m = m.insert(id);
        }
        self.mark_dirty(id);
        assert(self.dirty_set() =~= old(self).dirty_set().union(m));
        assert(reaches(self.nodes@, id, id, 0));
        assert(self.reachable(id, id));
        let mut worklist: Vec<usize> = Vec::new();
        worklist.push(id);
        assert(worklist@[0] == id);
        loop
            invariant
                self.wf_links(),
                self.dirty_set() == old(self).dirty_set().union(m),
                self.nodes == old(self).nodes,
                n == self.nodes@.len(),
                self.inside_switch == old(self).inside_switch,
                self.transaction_depth == old(self).transaction_depth,
                old(self).dirty_set().subset_of(self.dirty_set()),
                marked@.len() == n,
                m.finite(),
                m.contains(id),
                forall|x: usize| #[trigger] m.contains(x) <==> (x < n && marked@[x as int]),
                m.subset_of(self.dirty_set()),
                forall|j: int| 0 <= j < worklist@.len() ==> m.contains(#[trigger] worklist@[j]),
                forall|x: usize| #[trigger] m.contains(x) ==> self.reachable(id, x),
                forall|x: usize, j: int|
                    #![trigger m.contains(x), self.nodes[x as int].dependents@[j]]
                    m.contains(x) && !worklist@.contains(x) && 0 <= j
                        < self.nodes[x as int].dependents@.len() ==> m.contains(
                        self.nodes[x as int].dependents@[j],
                    ),
            ensures
                worklist@.len() == 0,
            decreases n - m.len(), worklist@.len(),
        {
            proof {
                lemma_bounded_len(m, n);
            }
            let ghost wl_before = worklist@;
            let w = match worklist.pop() {
                Some(w) => w,
                None => {
                    assert(forall|x: usize| !worklist@.contains(x));
                    break;
                },
            };
            let ghost wl = worklist@;
            assert(wl_before == wl.push(w));
            assert forall|x: usize| x != w && !wl.contains(x) implies !wl_before.contains(x) by {
                if wl_before.contains(x) {
                    let i = wl_before.index_of(x);
                    if i < wl.len() {
                        assert(wl[i] == x);
                    }
                }
            }
            let ghost m0 = m;
            let n_deps = self.nodes[w].dependents.len();
            let mut j: usize = 0;
            while j < n_deps
                invariant
                    self.wf_links(),
                    self.dirty_set() == old(self).dirty_set().union(m),
                    self.nodes == old(self).nodes,
                    n == self.nodes@.len(),
                    w < n,
                    n_deps == self.nodes@[w as int].dependents@.len(),
                    j <= n_deps,
                    self.inside_switch == old(self).inside_switch,
                    self.transaction_depth == old(self).transaction_depth,
                    old(self).dirty_set().subset_of(self.dirty_set()),
                    marked@.len() == n,
                    m.finite(),
                    m0.subset_of(m),
                    m.contains(id),
                    m.contains(w),
                    forall|x: usize| #[trigger] m.contains(x) ==> self.reachable(id, x),
                    forall|x: usize| #[trigger] m.contains(x) <==> (x < n && marked@[x as int]),
                    m.subset_of(self.dirty_set()),
                    wl.len() <= worklist@.len(),
                    worklist@.len() - wl.len() == m.len() - m0.len(),
                    forall|k: int| 0 <= k < wl.len() ==> worklist@[k] == wl[k],
                    forall|k: int| 0 <= k < worklist@.len() ==> m.contains(#[trigger] worklist@[k]),
                    forall|k: int|
                        wl.len() <= k < worklist@.len() ==> !m0.contains(#[trigger] worklist@[k]),
                    forall|jj: int|
                        0 <= jj < j ==> m.contains(#[trigger] self.nodes[w as int].dependents@[jj]),
                    forall|x: usize, k: int|
                        #![trigger m.contains(x), self.nodes[x as int].dependents@[k]]
                        m.contains(x) && x != w && !worklist@.contains(x) && 0 <= k
                            < self.nodes[x as int].dependents@.len() ==> m.contains(
                            self.nodes[x as int].dependents@[k],
                        ),
                decreases n_deps - j,
            {
                let d = self.nodes[w].dependents[j];
                let ghost wk = worklist@;
                if !marked[d] {
                    marked.set(d, true);
                    proof {
                        let k = choose|k: nat| reaches(self.nodes@, id, w, k);
                        assert(self.nodes@[w as int].dependents@.contains(d));
                        assert(reaches(self.nodes@, id, d, k + 1));
                        m = m.insert(d);
                    }
                    self.mark_dirty(d);
                    assert(self.dirty_set() =~= old(self).dirty_set().union(m));
                    worklist.push(d);
                    proof {
                        assert(worklist@ == wk.push(d));
                        assert forall|x: usize| !worklist@.contains(x) implies !wk.contains(x) by {
                            if wk.contains(x) {
                                assert(worklist@[wk.index_of(x)] == x);
                            }
                        }
                        assert forall|x: usize, k: int|
                            #![trigger m.contains(x), self.nodes[x as int].dependents@[k]]
                            m.contains(x) && x != w && !worklist@.contains(x) && 0 <= k
                                < self.nodes[x as int].dependents@.len() implies m.contains(
                                self.nodes[x as int].dependents@[k],
                            ) by {
                            assert(!wk.contains(x));
                            assert(worklist@[worklist@.len() - 1] == d);
                            assert(x != d);
                            assert(m.remove(d).contains(x));
                        }
                    }
                }
                j = j + 1;
            }
            proof {
                assert forall|x: usize, k: int|
                    #![trigger m.contains(x), self.nodes[x as int].dependents@[k]]
                    m.contains(x) && !worklist@.contains(x) && 0 <= k
                        < self.nodes[x as int].dependents@.len() implies m.contains(
                        self.nodes[x as int].dependents@[k],
                    ) by {
                    if x != w {
                    }
                }
                lemma_bounded_len(m, n);
            }
        }
        proof {
            assert forall|x: usize, j: int|
                #![trigger m.contains(x), self.nodes[x as int].dependents@[j]]
                m.contains(x) && 0 <= x < self.nodes.len() && 0 <= j
                    < self.nodes[x as int].dependents@.len() implies m.contains(
                    self.nodes[x as int].dependents@[j],
                ) by {
                assert(!worklist@.contains(x));
            }
            assert(self.closed_under_dependents(m));
            assert(old(self).closed_under_dependents(old(self).dirty_set()));
            assert(self.closed_under_dependents(self.dirty_set()));
        }
    }

    /// The current values of the nodes `ids`, or `None` when one of them is absent.
    pub(crate) fn gather(&self, ids: &Vec<usize>) -> (r: Option<Vec<V>>)
        requires
            self.wf(),
        ensures
            r is Some <==> all_present(self.values_of(ids@)),
            r is Some ==> r->0@ == unwrap_all(self.values_of(ids@)),
    {
        let mut args: Vec<V> = Vec::new();
        let mut j: usize = 0;
        while j < ids.len()
            invariant
                self.wf(),
                j <= ids@.len(),
                args@.len() == j,
                forall|jj: int|
                    0 <= jj < j ==> self.value_of(ids@[jj] as int) == Some(#[trigger] args@[jj]),
            decreases ids@.len() - j,
        {
            match self.read_value(ids[j]) {
                Some(v) => {
                    args.push(v);
                },
                None => {
                    assert(self.values_of(ids@)[j as int] is None);
                    return None;
                },
            }
            j = j + 1;
        }
        assert(unwrap_all(self.values_of(ids@)) =~= args@);
        assert forall|i: int| 0 <= i < self.values_of(ids@).len() implies (
        #[trigger] self.values_of(ids@)[i]) is Some by {
            assert(self.value_of(ids@[i] as int) == Some(args@[i]));
        }
        Some(args)
    }

    /// The value of node `id`, read through loop and switch aliases. Reading a
    /// handle that was never issued, or was freed, is a caller's error.
    pub fn current_value(&self, id: usize) -> (r: Option<V>)
        requires
            self.wf(),
            self.is_live(id as int),
        ensures
            r == self.value_of(id as int),
    {
        self.read_value(id)
    }

    /// The value of node `id`, absent for a freed or unknown handle.
    pub(crate) fn read_value(&self, id: usize) -> (r: Option<V>)
        requires
            self.wf(),
        ensures
            r == self.value_of(id as int),
    {
        let mut cur: usize = id;
        let mut fuel: usize = usize::MAX;
        while fuel > 0
            invariant
                self.resolve(cur as int, fuel as nat) == self.value_of(id as int),
            decreases fuel,
        {
            if cur >= self.nodes.len() {
                return None;
            }
            let n = &self.nodes[cur];
            if !n.live {
                return None;
            }
            match n.loop_target {
                Some(t) => {
                    cur = t;
                },
                None => match n.alias {
                    Some(t) => {
                        cur = t;
                    },
                    None => {
                        return n.value;
                    },
                },
            }
            fuel = fuel - 1;
        }
        None
    }
}

} // verus!

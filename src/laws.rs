//! Laws of the engine, proved from the contracts of its operations.
use vstd::prelude::*;
use crate::graph::{FrpContext, computes};
use crate::propagate::{Notification, Sweep};

verus! {

broadcast use vstd::seq_lib::group_filter_ensures;

/// The values delivered to subscription `o` of node `x`, in order.
pub open spec fn deliveries<V>(s: Seq<Notification<V>>, x: usize, o: usize) -> Seq<V> {
    s.filter(|n: Notification<V>| n.cell == x && n.observer == o).map_values(|n: Notification<V>| n.value)
}

/// Filtering keeps nothing when no entry passes.
proof fn lemma_filter_none<A>(s: Seq<A>, p: spec_fn(A) -> bool)
    requires
        forall|i: int| 0 <= i < s.len() ==> !p(#[trigger] s[i]),
    ensures
        s.filter(p) == Seq::<A>::empty(),
{
    if s.filter(p).len() > 0 {
        let e = s.filter(p)[0];
        assert(s.filter(p).contains(e));
        s.lemma_filter_contains_rev(p, e);
        let i = s.index_of(e);
        assert(!p(s[i]));
    }
    assert(s.filter(p) =~= Seq::<A>::empty());
}

/// One notification per distinct subscription: `o` appears once among `obs`.
proof fn lemma_one_delivery<V>(obs: Seq<usize>, x: usize, o: usize, v: V)
    requires
        obs.no_duplicates(),
        obs.contains(o),
    ensures
        obs.map_values(|p: usize| Notification { cell: x, observer: p, value: v }).filter(
            |n: Notification<V>| n.cell == x && n.observer == o,
        ) == seq![Notification { cell: x, observer: o, value: v }],
    decreases obs.len(),
{
    let f = |p: usize| Notification { cell: x, observer: p, value: v };
    let pred = |n: Notification<V>| n.cell == x && n.observer == o;
    let dl = obs.drop_last();
    assert(obs.map_values(f) =~= dl.map_values(f).push(f(obs.last())));
    dl.map_values(f).lemma_filter_push(f(obs.last()), pred);
    if obs.last() == o {
        assert forall|i: int| 0 <= i < dl.map_values(f).len() implies !pred(#[trigger] dl.map_values(f)[i]) by {
            assert(obs[i] == dl[i]);
        }
        lemma_filter_none(dl.map_values(f), pred);
    } else {
        let w = obs.index_of(o);
        assert(dl[w] == o);
        lemma_one_delivery(dl, x, o, v);
    }
}

/// Each notification owed for nodes `xs` is about one of them.
proof fn lemma_notices_about<V: Copy, F: Fn(Vec<V>) -> V>(ctx: &FrpContext<V, F>, xs: Seq<usize>)
    ensures
        forall|i: int| 0 <= i < ctx.notices(xs).len() ==> xs.contains(#[trigger] ctx.notices(xs)[i].cell),
    decreases xs.len(),
{
    if xs.len() > 0 {
        let dl = xs.drop_last();
        lemma_notices_about(ctx, dl);
        let a = ctx.notices(dl);
        assert forall|i: int| 0 <= i < ctx.notices(xs).len() implies xs.contains(#[trigger] ctx.notices(xs)[i].cell) by {
            if i >= a.len() {
                assert(ctx.notices(xs)[i] == ctx.node_notices(xs.last())[i - a.len()]);
                assert(xs[xs.len() - 1] == xs.last());
            } else {
                assert(ctx.notices(xs)[i] == a[i]);
                let w = dl.index_of(a[i].cell);
                assert(xs[w] == dl[w]);
            }
        }
    }
}

/// When `xs` lists node `x` once, subscription `o` of `x` is owed exactly one
/// notification, carrying `x`'s value.
proof fn lemma_notified_once<V: Copy, F: Fn(Vec<V>) -> V>(
    ctx: &FrpContext<V, F>,
    xs: Seq<usize>,
    x: usize,
    o: usize,
    v: V,
)
    requires
        ctx.nodes@[x as int].observers@.no_duplicates(),
        xs.no_duplicates(),
        xs.contains(x),
        ctx.is_live(x as int),
        ctx.value_of(x as int) == Some(v),
        ctx.nodes@[x as int].observers@.contains(o),
    ensures
        ctx.notices(xs).filter(|n: Notification<V>| n.cell == x && n.observer == o) == seq![
            Notification { cell: x, observer: o, value: v },
        ],
    decreases xs.len(),
{
    let pred = |n: Notification<V>| n.cell == x && n.observer == o;
    let dl = xs.drop_last();
    let last = xs.last();
    Seq::filter_distributes_over_add(ctx.notices(dl), ctx.node_notices(last), pred);
    if last == x {
        lemma_notices_about(ctx, dl);
        assert forall|i: int| 0 <= i < ctx.notices(dl).len() implies !pred(#[trigger] ctx.notices(dl)[i]) by {
            if ctx.notices(dl)[i].cell == x {
                let w = dl.index_of(x);
                assert(xs[w] == x);
                assert(xs[xs.len() - 1] == x);
            }
        }
        lemma_filter_none(ctx.notices(dl), pred);
        assert(ctx.nodes@[x as int].observers@.no_duplicates());
        lemma_one_delivery(ctx.nodes@[x as int].observers@, x, o, v);
        assert(ctx.notices(dl).filter(pred) + ctx.node_notices(x).filter(pred) =~= seq![
            Notification { cell: x, observer: o, value: v },
        ]);
    } else {
        assert forall|i: int| 0 <= i < ctx.node_notices(last).len() implies !pred(#[trigger] ctx.node_notices(last)[i]) by {}
        lemma_filter_none(ctx.node_notices(last), pred);
        let w = xs.index_of(x);
        assert(dl[w] == x);
        lemma_notified_once(ctx, dl, x, o, v);
        assert(ctx.notices(dl).filter(pred) + ctx.node_notices(last).filter(pred) =~= ctx.notices(dl).filter(pred));
    }
}

/// Every notification owed for nodes `xs` carries the current value of its node.
pub proof fn lemma_notices_carry_values<V: Copy, F: Fn(Vec<V>) -> V>(ctx: &FrpContext<V, F>, xs: Seq<usize>)
    ensures
        forall|i: int|
            0 <= i < ctx.notices(xs).len() ==> ctx.value_of(#[trigger] ctx.notices(xs)[i].cell as int)
                == Some(ctx.notices(xs)[i].value),
    decreases xs.len(),
{
    if xs.len() > 0 {
        lemma_notices_carry_values(ctx, xs.drop_last());
        let a = ctx.notices(xs.drop_last());
        let b = ctx.node_notices(xs.last());
        assert forall|i: int| 0 <= i < ctx.notices(xs).len() implies ctx.value_of(
            #[trigger] ctx.notices(xs)[i].cell as int,
        ) == Some(ctx.notices(xs)[i].value) by {
            if i >= a.len() {
                assert(ctx.notices(xs)[i] == b[i - a.len()]);
            } else {
                assert(ctx.notices(xs)[i] == a[i]);
            }
        }
    }
}

/// Within one transaction the last write to a cell wins: after the sweep the cell
/// holds that value, the sweep visits the cell exactly once, every notification about
/// the cell carries that value, and each of its observers receives it exactly once.
pub proof fn lemma_last_write_wins<V: Copy, F: Fn(Vec<V>) -> V>(
    pre: &FrpContext<V, F>,
    written: &FrpContext<V, F>,
    after: &FrpContext<V, F>,
    r: &Sweep<V>,
    writes: Seq<(usize, V)>,
    x: usize,
    v: V,
)
    requires
        pre.wf(),
        pre.is_source(x as int),
        !pre.nodes@[x as int].resets,
        pre.values_changed(written),
        forall|k: int|
            #![trigger written.nodes@[k].value]
            0 <= k < pre.nodes@.len() ==> written.nodes@[k].value == pre.written(writes, k),
        pre.written(writes, x as int) == Some(v),
        written.dirty_set().contains(x),
        written.swept(after, r),
    ensures
        after.value_of(x as int) == Some(v),
        r.updated@.contains(x),
        forall|i: int, j: int|
            0 <= i < r.updated@.len() && 0 <= j < r.updated@.len() && r.updated@[i] == x
                && r.updated@[j] == x ==> i == j,
        forall|i: int|
            0 <= i < r.notifications@.len() && (#[trigger] r.notifications@[i]).cell == x
                ==> r.notifications@[i].value == v,
        forall|o: usize|
            #[trigger] after.nodes@[x as int].observers@.contains(o) ==> deliveries(r.notifications@, x, o)
                == seq![v],
{
    assert(written.nodes@[x as int].value == Some(v));
    assert(after.nodes@[x as int].value == Some(v));
    assert(r.updated@.to_set().contains(x));
    let mid = choose|mid: FrpContext<V, F>|
        #![trigger mid.notices(r.updated@)]
        written.values_changed(&mid) && r.notifications@ == mid.notices(r.updated@)
            && forall|k: int|
            #![trigger mid.nodes@[k].value]
            0 <= k < written.nodes@.len() ==> after.nodes@[k].value == (if mid.nodes@[k].resets
                && written.dirty_set().contains(k as usize) {
                None
            } else {
                mid.nodes@[k].value
            });
    assert(mid.nodes@[x as int].value == Some(v));
    lemma_notices_carry_values(&mid, r.updated@);
    assert forall|i: int|
        0 <= i < r.notifications@.len() && (#[trigger] r.notifications@[i]).cell == x
            implies r.notifications@[i].value == v by {
        assert(mid.value_of(x as int) == Some(v));
    }
    assert forall|o: usize|
        #[trigger] after.nodes@[x as int].observers@.contains(o) implies deliveries(r.notifications@, x, o)
            == seq![v] by {
        assert(mid.nodes@[x as int].observers == after.nodes@[x as int].observers);
        assert(after.nodes@[x as int].observers@.no_duplicates());
        assert(mid.value_of(x as int) == Some(v));
        lemma_notified_once(&mid, r.updated@, x, o, v);
        assert(deliveries(r.notifications@, x, o) =~= seq![v]);
    }
}

/// An event sent on a stream sink is delivered, during the sweep of its
/// transaction, exactly once to each observer of the stream, and the stream reads
/// as absent once that sweep is over.
pub proof fn lemma_stream_delivers<V: Copy, F: Fn(Vec<V>) -> V>(
    sent: &FrpContext<V, F>,
    after: &FrpContext<V, F>,
    r: &Sweep<V>,
    s: usize,
    v: V,
)
    requires
        sent.wf(),
        sent.is_source(s as int),
        sent.nodes@[s as int].resets,
        sent.nodes@[s as int].value == Some(v),
        sent.dirty_set().contains(s),
        sent.swept(after, r),
    ensures
        after.value_of(s as int) is None,
        forall|o: usize|
            #[trigger] after.nodes@[s as int].observers@.contains(o) ==> deliveries(r.notifications@, s, o)
                == seq![v],
{
    assert(after.nodes@[s as int].value is None);
    crate::graph::lemma_direct_value(after, s as int);
    let mid = choose|mid: FrpContext<V, F>|
        #![trigger mid.notices(r.updated@)]
        sent.values_changed(&mid) && r.notifications@ == mid.notices(r.updated@)
            && (forall|k: int|
            #![trigger mid.nodes@[k].value]
            0 <= k < sent.nodes@.len() && (sent.nodes@[k].rule is None || !sent.dirty_set().contains(k as usize))
                ==> mid.nodes@[k].value == sent.nodes@[k].value)
            && (forall|k: int|
            #![trigger sent.dirty_set().contains(k as usize)]
            0 <= k < sent.nodes@.len() && sent.dirty_set().contains(k as usize) && sent.settles(k)
                ==> mid.rule_holds(k))
            && forall|k: int|
            #![trigger mid.nodes@[k].value]
            0 <= k < sent.nodes@.len() ==> after.nodes@[k].value == (if mid.nodes@[k].resets
                && sent.dirty_set().contains(k as usize) {
                None
            } else {
                mid.nodes@[k].value
            });
    assert(mid.nodes@[s as int].value == Some(v));
    assert(mid.is_direct(s as int));
    crate::graph::lemma_direct_value(&mid, s as int);
    assert(r.updated@.to_set().contains(s));
    assert forall|o: usize|
        #[trigger] after.nodes@[s as int].observers@.contains(o) implies deliveries(r.notifications@, s, o)
            == seq![v] by {
        assert(mid.nodes@[s as int].observers == after.nodes@[s as int].observers);
        assert(after.nodes@[s as int].observers@.no_duplicates());
        lemma_notified_once(&mid, r.updated@, s, o, v);
        assert(deliveries(r.notifications@, s, o) =~= seq![v]);
    }
}

/// After a sweep in which a dirty input changed, a node that settles holds what its
/// rule gives on its inputs' new values, the sweep recomputed it exactly once, and
/// each of its observers received that new value exactly once.
pub proof fn lemma_recomputed_once<V: Copy, F: Fn(Vec<V>) -> V>(
    pre: &FrpContext<V, F>,
    after: &FrpContext<V, F>,
    r: &Sweep<V>,
    n: usize,
    changed: usize,
)
    requires
        pre.wf(),
        pre.swept(after, r),
        pre.settles(n as int),
        !pre.nodes@[n as int].resets,
        pre.persistent_inputs(n as int),
        pre.nodes@[n as int].inputs@.contains(changed),
        pre.is_live(changed as int),
        pre.dirty_set().contains(changed),
    ensures
        after.rule_holds(n as int),
        r.updated@.contains(n),
        forall|i: int, j: int|
            0 <= i < r.updated@.len() && 0 <= j < r.updated@.len() && r.updated@[i] == n
                && r.updated@[j] == n ==> i == j,
        after.value_of(n as int) is Some ==> forall|o: usize|
            #[trigger] after.nodes@[n as int].observers@.contains(o) ==> deliveries(r.notifications@, n, o)
                == seq![after.value_of(n as int)->0],
{
    let j = pre.nodes@[n as int].inputs@.index_of(changed);
    assert(pre.nodes@[changed as int].dependents@.contains(n));
    let k = pre.nodes@[changed as int].dependents@.index_of(n);
    assert(pre.dirty_set().contains(pre.nodes@[changed as int].dependents@[k]));
    assert(r.updated@.to_set().contains(n));
    let mid = choose|mid: FrpContext<V, F>|
        #![trigger mid.notices(r.updated@)]
        pre.values_changed(&mid) && r.notifications@ == mid.notices(r.updated@)
            && (forall|k: int|
            #![trigger mid.nodes@[k].value]
            0 <= k < pre.nodes@.len() && (pre.nodes@[k].rule is None || !pre.dirty_set().contains(k as usize))
                ==> mid.nodes@[k].value == pre.nodes@[k].value)
            && (forall|k: int|
            #![trigger pre.dirty_set().contains(k as usize)]
            0 <= k < pre.nodes@.len() && pre.dirty_set().contains(k as usize) && pre.settles(k)
                ==> mid.rule_holds(k))
            && forall|k: int|
            #![trigger mid.nodes@[k].value]
            0 <= k < pre.nodes@.len() ==> after.nodes@[k].value == (if mid.nodes@[k].resets
                && pre.dirty_set().contains(k as usize) {
                None
            } else {
                mid.nodes@[k].value
            });
    assert(mid.nodes@[n as int].value == after.nodes@[n as int].value);
    crate::graph::lemma_direct_value(after, n as int);
    assert(mid.is_direct(n as int));
    crate::graph::lemma_direct_value(&mid, n as int);
    if after.value_of(n as int) is Some {
        let val = after.value_of(n as int)->0;
        assert forall|o: usize|
            #[trigger] after.nodes@[n as int].observers@.contains(o) implies deliveries(r.notifications@, n, o)
                == seq![val] by {
            assert(mid.nodes@[n as int].observers == after.nodes@[n as int].observers);
            assert(after.nodes@[n as int].observers@.no_duplicates());
            lemma_notified_once(&mid, r.updated@, n, o, val);
            assert(deliveries(r.notifications@, n, o) =~= seq![val]);
        }
    }
}

/// A mapped cell tracks its source: after a sweep in which the source changed, the
/// mapped cell holds `f` of the source's new value, and each of its observers
/// receives that value once.
pub proof fn lemma_map_tracks_source<V: Copy, F: Fn(Vec<V>) -> V>(
    pre: &FrpContext<V, F>,
    after: &FrpContext<V, F>,
    r: &Sweep<V>,
    m: usize,
    src: usize,
)
    requires
        pre.wf(),
        pre.swept(after, r),
        pre.is_source(src as int),
        !pre.nodes@[src as int].resets,
        pre.dirty_set().contains(src),
        pre.value_of(src as int) is Some,
        pre.is_direct(m as int),
        pre.nodes@[m as int].rule is Some,
        pre.nodes@[m as int].inputs@ == seq![src],
        !pre.nodes@[m as int].resets,
    ensures
        after.value_of(src as int) is Some,
        after.value_of(m as int) is Some,
        computes(
            pre.nodes@[m as int].rule->0,
            seq![after.value_of(src as int)->0],
            after.value_of(m as int)->0,
        ),
        forall|o: usize|
            #[trigger] after.nodes@[m as int].observers@.contains(o) ==> deliveries(r.notifications@, m, o)
                == seq![after.value_of(m as int)->0],
{
    assert(pre.nodes@[m as int].inputs@[0] == src);
    lemma_recomputed_once(pre, after, r, m, src);
    assert(after.input_values(m as int)[0] == after.value_of(src as int));
    assert(after.nodes@[src as int].value == pre.nodes@[src as int].value);
    assert(after.value_of(src as int) == pre.value_of(src as int));
    assert(crate::graph::all_present(after.input_values(m as int)));
    assert(seq![after.value_of(src as int)->0] =~= crate::graph::unwrap_all(after.input_values(m as int)));
}

/// `lift2` over two cells that changed in one transaction holds `f` of both new
/// values after the sweep, computed once, and each of its observers receives that
/// value once.
pub proof fn lemma_lift2_settles_once<V: Copy, F: Fn(Vec<V>) -> V>(
    pre: &FrpContext<V, F>,
    after: &FrpContext<V, F>,
    r: &Sweep<V>,
    c: usize,
    a: usize,
    b: usize,
)
    requires
        pre.wf(),
        pre.swept(after, r),
        pre.is_source(a as int),
        pre.is_source(b as int),
        !pre.nodes@[a as int].resets,
        !pre.nodes@[b as int].resets,
        pre.dirty_set().contains(a),
        pre.is_direct(c as int),
        pre.nodes@[c as int].rule is Some,
        pre.nodes@[c as int].inputs@ == seq![a, b],
        !pre.nodes@[c as int].resets,
    ensures
        after.value_of(a as int) is Some && after.value_of(b as int) is Some ==> computes(
            pre.nodes@[c as int].rule->0,
            seq![after.value_of(a as int)->0, after.value_of(b as int)->0],
            after.value_of(c as int)->0,
        ),
        forall|i: int, j: int|
            0 <= i < r.updated@.len() && 0 <= j < r.updated@.len() && r.updated@[i] == c
                && r.updated@[j] == c ==> i == j,
        after.value_of(c as int) is Some ==> forall|o: usize|
            #[trigger] after.nodes@[c as int].observers@.contains(o) ==> deliveries(r.notifications@, c, o)
                == seq![after.value_of(c as int)->0],
{
    assert(pre.nodes@[c as int].inputs@[0] == a);
    lemma_recomputed_once(pre, after, r, c, a);
    assert(after.input_values(c as int)[0] == after.value_of(a as int));
    assert(after.input_values(c as int)[1] == after.value_of(b as int));
    assert(seq![after.value_of(a as int)->0, after.value_of(b as int)->0] =~= crate::graph::unwrap_all(
        after.input_values(c as int),
    ));
}

/// A stream's event lasts one round: once the sweep of its transaction is over, the
/// stream reads as absent, whatever was sent.
pub proof fn lemma_stream_cleared<V: Copy, F: Fn(Vec<V>) -> V>(
    pre: &FrpContext<V, F>,
    after: &FrpContext<V, F>,
    r: &Sweep<V>,
    s: usize,
)
    requires
        pre.wf(),
        pre.swept(after, r),
        pre.is_direct(s as int),
        pre.nodes@[s as int].resets,
        pre.dirty_set().contains(s),
    ensures
        after.value_of(s as int) is None,
{
    assert(after.nodes@[s as int].value is None);
    crate::graph::lemma_direct_value(after, s as int);
}

/// A switch whose inner cell holds its value directly reads exactly that cell,
/// whatever any other cell holds.
pub proof fn lemma_switch_reads_inner<V: Copy, F: Fn(Vec<V>) -> V>(
    ctx: &FrpContext<V, F>,
    outer: usize,
    inner: usize,
)
    requires
        ctx.wf(),
        ctx.is_live(outer as int),
        ctx.nodes@[outer as int].is_switch,
        ctx.nodes@[outer as int].alias == Some(inner),
        ctx.is_direct(inner as int),
    ensures
        ctx.value_of(outer as int) == ctx.value_of(inner as int),
{
    assert(ctx.nodes@[outer as int].loop_target is None);
    assert(ctx.resolve(inner as int, (usize::MAX - 1) as nat) == ctx.nodes@[inner as int].value);
}

/// A sweep keeps the switch structure: every switch points where it pointed before.
pub proof fn lemma_sweep_keeps_aliases<V: Copy, F: Fn(Vec<V>) -> V>(
    pre: &FrpContext<V, F>,
    after: &FrpContext<V, F>,
    r: &Sweep<V>,
    k: usize,
)
    requires
        pre.swept(after, r),
        k < pre.nodes@.len(),
    ensures
        after.nodes@[k as int].alias == pre.nodes@[k as int].alias,
        after.nodes@[k as int].loop_target == pre.nodes@[k as int].loop_target,
{
}

/// A cell sink keeps its value through any sweep: only a write changes it.
pub proof fn lemma_sink_keeps_value<V: Copy, F: Fn(Vec<V>) -> V>(
    pre: &FrpContext<V, F>,
    after: &FrpContext<V, F>,
    r: &Sweep<V>,
    p: usize,
)
    requires
        pre.swept(after, r),
        pre.is_source(p as int),
        !pre.nodes@[p as int].resets,
    ensures
        after.value_of(p as int) == pre.value_of(p as int),
{
    assert(after.nodes@[p as int].value == pre.nodes@[p as int].value);
}

} // verus!

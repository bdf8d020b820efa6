use rusty_frp::{Cell, CellSink, CellTrait, FrpContext, Notification, StreamTrait};

type Rule = Box<dyn Fn(Vec<i64>) -> i64>;
type Ctx = FrpContext<i64, Rule>;

fn rule(f: impl Fn(Vec<i64>) -> i64 + 'static) -> Rule {
    Box::new(f)
}

#[test]
fn map_observer_sees_only_final_value() {
    let mut ctx: Ctx = FrpContext::new();
    let a = ctx.new_cell_sink(1);
    let b = ctx.map_cell(&a, rule(|v| v[0] * 2));
    assert_eq!(ctx.current_value(b.id()), Some(2));
    let (sub, now) = ctx.observe(b.id());
    assert_eq!(now, Some(2));
    let sweep = a.change_value(&mut ctx, 5);
    assert_eq!(ctx.current_value(b.id()), Some(10));
    assert_eq!(sweep.notifications, vec![Notification { cell: b.id, observer: sub, value: 10 }]);
}

#[test]
fn stream_event_lasts_one_transaction() {
    let mut ctx: Ctx = FrpContext::new();
    let s = ctx.new_stream_sink();
    assert_eq!(ctx.current_value(s.id()), None);
    let (sub, now) = ctx.observe(s.id());
    assert_eq!(now, None);
    ctx.begin_transaction();
    let inner = s.send(&mut ctx, 7);
    assert!(inner.notifications.is_empty());
    assert_eq!(ctx.current_value(s.id()), Some(7));
    let sweep = ctx.end_transaction();
    assert_eq!(sweep.notifications, vec![Notification { cell: s.id, observer: sub, value: 7 }]);
    assert_eq!(ctx.current_value(s.id()), None);
}

#[test]
fn lift2_recomputes_once_per_transaction() {
    let mut ctx: Ctx = FrpContext::new();
    let x = ctx.new_cell_sink(2);
    let y = ctx.new_cell_sink(3);
    let c = ctx.lift2_cell(rule(|v| v[0] + v[1]), &x, &y);
    assert_eq!(ctx.current_value(c.id()), Some(5));
    let (sub, _) = ctx.observe(c.id());
    let sweep = ctx.transaction(&vec![(x.id, 10), (y.id, 20)]);
    assert_eq!(ctx.current_value(c.id()), Some(30));
    let about_c: Vec<&Notification<i64>> = sweep.notifications.iter().filter(|n| n.cell == c.id).collect();
    assert_eq!(about_c, vec![&Notification { cell: c.id, observer: sub, value: 30 }]);
    assert_eq!(sweep.updated.iter().filter(|&&u| u == c.id).count(), 1);
}

#[test]
fn last_write_in_a_transaction_wins() {
    let mut ctx: Ctx = FrpContext::new();
    let a = ctx.new_cell_sink(0);
    let (sub, _) = ctx.observe(a.id());
    let doubled = ctx.map_cell(&a, rule(|v| v[0] * 2));
    let (dsub, _) = ctx.observe(doubled.id());
    ctx.begin_transaction();
    a.change_value(&mut ctx, 1);
    a.change_value(&mut ctx, 2);
    let sweep = ctx.end_transaction();
    assert_eq!(ctx.current_value(a.id()), Some(2));
    assert_eq!(ctx.current_value(doubled.id()), Some(4));
    let mut seen: Vec<(usize, usize, i64)> =
        sweep.notifications.iter().map(|n| (n.cell, n.observer, n.value)).collect();
    seen.sort();
    assert_eq!(seen, vec![(a.id, sub, 2), (doubled.id, dsub, 4)]);
}

#[test]
fn transaction_batches_writes() {
    let mut ctx: Ctx = FrpContext::new();
    let a = ctx.new_cell_sink(1);
    let sweep = ctx.transaction(&vec![(a.id, 3), (a.id, 9)]);
    assert_eq!(ctx.current_value(a.id()), Some(9));
    assert_eq!(sweep.updated, vec![a.id]);
}

#[test]
fn nested_transactions_sweep_once_at_the_outermost_exit() {
    let mut ctx: Ctx = FrpContext::new();
    let a = ctx.new_cell_sink(1);
    let m = ctx.map_cell(&a, rule(|v| v[0] + 100));
    ctx.begin_transaction();
    ctx.begin_transaction();
    let first = a.change_value(&mut ctx, 5);
    assert!(first.updated.is_empty());
    let inner = ctx.end_transaction();
    assert!(inner.updated.is_empty());
    assert_eq!(ctx.current_value(m.id()), Some(101));
    let outer = ctx.end_transaction();
    assert_eq!(ctx.current_value(m.id()), Some(105));
    let mut updated = outer.updated.clone();
    updated.sort();
    assert_eq!(updated, vec![a.id, m.id]);
    assert_eq!(ctx.transaction_depth, 0);
}

#[test]
fn map_chain_sees_settled_values() {
    let mut ctx: Ctx = FrpContext::new();
    let a = ctx.new_cell_sink(1);
    let b = ctx.map_cell(&a, rule(|v| v[0] + 1));
    let c = ctx.map_cell(&b, rule(|v| v[0] * 10));
    let d = ctx.lift2_cell(rule(|v| v[0] - v[1]), &c, &a);
    assert_eq!(ctx.current_value(d.id()), Some(19));
    a.change_value(&mut ctx, 4);
    assert_eq!(ctx.current_value(b.id()), Some(5));
    assert_eq!(ctx.current_value(c.id()), Some(50));
    assert_eq!(ctx.current_value(d.id()), Some(46));
}

#[test]
fn sweep_orders_dependencies_first() {
    let mut ctx: Ctx = FrpContext::new();
    let a = ctx.new_cell_sink(1);
    let b = ctx.map_cell(&a, rule(|v| v[0] + 1));
    let c = ctx.map_cell(&b, rule(|v| v[0] + 1));
    let sweep = a.change_value(&mut ctx, 2);
    let pos = |x: usize| sweep.updated.iter().position(|&u| u == x).unwrap();
    assert!(pos(a.id) < pos(b.id));
    assert!(pos(b.id) < pos(c.id));
}

#[test]
fn lift3_and_lift4_combine_all_inputs() {
    let mut ctx: Ctx = FrpContext::new();
    let a = ctx.new_cell_sink(1);
    let b = ctx.new_cell_sink(2);
    let c = ctx.new_cell_sink(3);
    let d = ctx.new_cell_sink(4);
    let l3 = ctx.lift3_cell(rule(|v| v[0] * 100 + v[1] * 10 + v[2]), &a, &b, &c);
    let l4 = ctx.lift4_cell(rule(|v| v[0] + v[1] + v[2] + v[3]), &a, &b, &c, &d);
    assert_eq!(ctx.current_value(l3.id()), Some(123));
    assert_eq!(ctx.current_value(l4.id()), Some(10));
    ctx.transaction(&vec![(a.id, 5), (d.id, 0)]);
    assert_eq!(ctx.current_value(l3.id()), Some(523));
    assert_eq!(ctx.current_value(l4.id()), Some(10));
}

#[test]
fn mapped_stream_fires_and_clears() {
    let mut ctx: Ctx = FrpContext::new();
    let s = ctx.new_stream_sink();
    let t = ctx.map_stream(&s, rule(|v| v[0] + 1));
    assert_eq!(ctx.current_value(t.id()), None);
    let (sub, _) = ctx.observe(t.id());
    let sweep = s.send(&mut ctx, 41);
    assert!(sweep.notifications.contains(&Notification { cell: t.id, observer: sub, value: 42 }));
    assert_eq!(ctx.current_value(t.id()), None);
    assert_eq!(ctx.current_value(s.as_cell().id), None);
}

#[test]
fn cell_over_stream_is_absent_without_event() {
    let mut ctx: Ctx = FrpContext::new();
    let s = ctx.new_stream_sink();
    let c = ctx.map_cell(&s.as_cell(), rule(|v| v[0]));
    assert_eq!(ctx.current_value(c.id()), None);
}

#[test]
fn unobserve_is_idempotent() {
    let mut ctx: Ctx = FrpContext::new();
    let a = ctx.new_cell_sink(1);
    let (sub, _) = ctx.observe(a.id());
    let (other, _) = ctx.observe(a.id());
    assert_ne!(sub, other);
    ctx.unobserve(a.id(), sub);
    ctx.unobserve(a.id(), sub);
    ctx.unobserve(999, sub);
    let sweep = a.change_value(&mut ctx, 2);
    assert_eq!(sweep.notifications, vec![Notification { cell: a.id, observer: other, value: 2 }]);
}

#[test]
fn switch_follows_selected_cell() {
    let mut ctx: Ctx = FrpContext::new();
    let selector = ctx.new_cell_sink(0);
    let c1 = ctx.new_cell_sink(10);
    let c2 = ctx.new_cell_sink(20);
    let outer = ctx.begin_switch(&selector);
    ctx.end_switch(&outer, &c1);
    assert_eq!(ctx.current_value(outer.id()), Some(10));
    c1.change_value(&mut ctx, 11);
    assert_eq!(ctx.current_value(outer.id()), Some(11));
    let sweep = selector.change_value(&mut ctx, 1);
    assert_eq!(sweep.switched, vec![outer.id]);
    ctx.resume_switch(&outer);
    ctx.end_switch(&outer, &c2);
    assert_eq!(ctx.current_value(outer.id()), Some(20));
    c1.change_value(&mut ctx, 12);
    assert_eq!(ctx.current_value(outer.id()), Some(20));
    c2.change_value(&mut ctx, 21);
    assert_eq!(ctx.current_value(outer.id()), Some(21));
}

#[test]
fn switch_frees_discarded_branch() {
    let mut ctx: Ctx = FrpContext::new();
    let selector = ctx.new_cell_sink(0);
    let base = ctx.new_cell_sink(3);
    let outer = ctx.begin_switch(&selector);
    let branch = ctx.map_cell(&base, rule(|v| v[0] * 7));
    ctx.end_switch(&outer, &branch);
    assert_eq!(ctx.current_value(outer.id()), Some(21));
    assert_eq!(ctx.nodes[outer.id].children, vec![branch.id]);
    ctx.resume_switch(&outer);
    let next = ctx.map_cell(&base, rule(|v| v[0] + 1));
    ctx.end_switch(&outer, &next);
    assert!(!ctx.nodes[branch.id].live);
    assert!(!ctx.nodes[base.id].dependents.contains(&branch.id));
    assert_eq!(ctx.current_value(outer.id()), Some(4));
    base.change_value(&mut ctx, 9);
    assert_eq!(ctx.current_value(outer.id()), Some(10));
}

#[test]
fn loop_returning_placeholder_keeps_initial_value() {
    let mut ctx: Ctx = FrpContext::new();
    let placeholder = ctx.new_cell_sink(5);
    let other = ctx.new_cell_sink(0);
    let looped = ctx.cell_loop(&placeholder, &Cell::of(placeholder.id));
    assert_eq!(looped.id, placeholder.id);
    assert_eq!(ctx.current_value(looped.id()), Some(5));
    other.change_value(&mut ctx, 8);
    assert_eq!(ctx.current_value(looped.id()), Some(5));
}

#[test]
fn loop_placeholder_reads_defining_cell() {
    let mut ctx: Ctx = FrpContext::new();
    let placeholder = ctx.new_cell_sink(0);
    let source = ctx.new_cell_sink(1);
    let defined = ctx.map_cell(&source, rule(|v| v[0] + 100));
    let looped = ctx.cell_loop(&placeholder, &defined);
    assert_eq!(looped.id, defined.id);
    assert_eq!(ctx.current_value(placeholder.id()), Some(101));
    source.change_value(&mut ctx, 2);
    assert_eq!(ctx.current_value(placeholder.id()), Some(102));
}

#[test]
fn trait_reads_and_subscriptions() {
    let mut ctx: Ctx = FrpContext::new();
    let a = ctx.new_cell_sink(6);
    let s = ctx.new_stream_sink();
    assert_eq!(a.current_value(&ctx), Some(6));
    let (sub, now) = CellTrait::observe(&a, &mut ctx);
    assert_eq!((sub, now), (0, Some(6)));
    let (ssub, snow) = StreamTrait::observe(&s, &mut ctx);
    assert_eq!((ssub, snow), (0, None));
    assert_eq!(s.as_cell().current_value(&ctx), None);
}

#[test]
fn handles_report_their_ids() {
    let mut ctx: Ctx = FrpContext::new();
    let a: CellSink = ctx.new_cell_sink(1);
    let s = ctx.new_stream_sink();
    assert_eq!(a.id(), 0);
    assert_eq!(StreamTrait::id(&s), 1);
    assert_eq!(Cell::of(4).id(), 4);
    assert_eq!(CellSink::of(4).id, 4);
}

#[test]
fn switch_dependents_follow_new_branch() {
    let mut ctx: Ctx = FrpContext::new();
    let selector = ctx.new_cell_sink(0);
    let c1 = ctx.new_cell_sink(10);
    let c2 = ctx.new_cell_sink(20);
    let outer = ctx.begin_switch(&selector);
    ctx.end_switch(&outer, &c1);
    let settle = ctx.transaction(&vec![]);
    assert_eq!(settle.switched, vec![outer.id]);
    let doubled = ctx.map_cell(&outer, rule(|v| v[0] * 2));
    assert_eq!(ctx.current_value(doubled.id()), Some(20));
    let sweep = selector.change_value(&mut ctx, 1);
    assert_eq!(sweep.switched, vec![outer.id]);
    ctx.begin_transaction();
    ctx.resume_switch(&outer);
    ctx.end_switch(&outer, &c2);
    let (sub, _) = ctx.observe(doubled.id());
    let rebuilt = ctx.end_transaction();
    assert_eq!(ctx.current_value(outer.id()), Some(20));
    assert_eq!(ctx.current_value(doubled.id()), Some(40));
    assert!(rebuilt.notifications.contains(&Notification { cell: doubled.id, observer: sub, value: 40 }));
    let pos = |x: usize| rebuilt.updated.iter().position(|&u| u == x).unwrap();
    assert!(pos(outer.id) < pos(doubled.id));
}

#[test]
fn nested_switch_keeps_enclosing_branch_tracking() {
    let mut ctx: Ctx = FrpContext::new();
    let selector = ctx.new_cell_sink(0);
    let base = ctx.new_cell_sink(1);
    let outer = ctx.begin_switch(&selector);
    let inner_switch = ctx.begin_switch(&selector);
    assert_eq!(ctx.inside_switch, Some(inner_switch.id));
    ctx.end_switch(&inner_switch, &base);
    assert_eq!(ctx.inside_switch, Some(outer.id));
    let later = ctx.map_cell(&base, rule(|v| v[0] + 1));
    ctx.end_switch(&outer, &later);
    assert_eq!(ctx.inside_switch, None);
    assert_eq!(ctx.nodes[outer.id].children, vec![inner_switch.id, later.id]);
    ctx.resume_switch(&outer);
    ctx.end_switch(&outer, &base);
    assert!(!ctx.nodes[inner_switch.id].live);
    assert!(!ctx.nodes[later.id].live);
    assert_eq!(ctx.current_value(outer.id()), Some(1));
}

#[test]
fn fresh_nodes_can_be_observed() {
    let mut ctx: Ctx = FrpContext::new();
    let a = ctx.new_cell_sink(3);
    let m = ctx.map_cell(&a, rule(|v| v[0] * 3));
    assert_eq!(ctx.nodes[m.id].next_observer, 0);
    assert!(ctx.nodes[m.id].observers.is_empty());
    assert_eq!(ctx.nodes[a.id].dependents, vec![m.id]);
    let (sub, now) = ctx.observe(m.id());
    assert_eq!((sub, now), (0, Some(9)));
}

#[test]
fn writes_inside_open_transaction_mark_dependents() {
    let mut ctx: Ctx = FrpContext::new();
    let a = ctx.new_cell_sink(1);
    let m = ctx.map_cell(&a, rule(|v| v[0] + 1));
    let other = ctx.new_cell_sink(7);
    ctx.begin_transaction();
    a.change_value(&mut ctx, 2);
    let mut dirty = ctx.dirty.clone();
    dirty.sort();
    assert_eq!(dirty, vec![a.id, m.id]);
    assert!(!ctx.dirty.contains(&other.id));
    ctx.end_transaction();
    assert!(ctx.dirty.is_empty());
    assert_eq!(ctx.current_value(m.id()), Some(3));
}

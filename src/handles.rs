//! Typed handles to nodes of the registry: plain copyable ids.
use vstd::prelude::*;
use crate::graph::FrpContext;

verus! {

/// Read access to a node that holds a persistent value.
pub trait CellTrait: Sized {
    spec fn handle(&self) -> usize;

    fn id(&self) -> (r: usize)
        ensures
            r == self.handle(),
    ;

    /// The cell's current value, read through aliases.
    fn current_value<V: Copy, F: Fn(Vec<V>) -> V>(&self, ctx: &FrpContext<V, F>) -> (r: Option<V>)
        requires
            ctx.wf(),
            ctx.is_live(self.handle() as int),
        ensures
            r == ctx.value_of(self.handle() as int),
    {
        ctx.current_value(self.id())
    }

    /// Subscribes to the cell: a fresh subscription id and the value the new
    /// observer sees at once.
    fn observe<V: Copy, F: Fn(Vec<V>) -> V>(&self, ctx: &mut FrpContext<V, F>) -> (r: (usize, Option<V>))
        requires
            old(ctx).wf(),
            old(ctx).is_live(self.handle() as int),
            old(ctx).nodes@[self.handle() as int].next_observer < usize::MAX,
        ensures
            final(ctx).wf(),
            r.0 == old(ctx).nodes@[self.handle() as int].next_observer,
            r.1 == old(ctx).value_of(self.handle() as int),
            final(ctx).nodes@[self.handle() as int].observers@ == old(ctx).nodes@[self.handle() as int].observers@.push(r.0),
            final(ctx).nodes@[self.handle() as int].next_observer == r.0 + 1,
            final(ctx).nodes@[self.handle() as int].value == old(ctx).nodes@[self.handle() as int].value,
            final(ctx).nodes@[self.handle() as int].live,
            final(ctx).nodes@[self.handle() as int].inputs == old(ctx).nodes@[self.handle() as int].inputs,
            final(ctx).nodes@[self.handle() as int].dependents == old(ctx).nodes@[self.handle() as int].dependents,
            final(ctx).nodes@[self.handle() as int].alias == old(ctx).nodes@[self.handle() as int].alias,
            final(ctx).nodes@[self.handle() as int].loop_target == old(ctx).nodes@[self.handle() as int].loop_target,
            final(ctx).nodes@[self.handle() as int].rule == old(ctx).nodes@[self.handle() as int].rule,
            final(ctx).nodes@[self.handle() as int].resets == old(ctx).nodes@[self.handle() as int].resets,
            final(ctx).nodes@[self.handle() as int].children == old(ctx).nodes@[self.handle() as int].children,
            final(ctx).nodes@.len() == old(ctx).nodes@.len(),
            final(ctx).dirty == old(ctx).dirty,
            final(ctx).transaction_depth == old(ctx).transaction_depth,
            final(ctx).inside_switch == old(ctx).inside_switch,
            forall|k: int|
                #![trigger final(ctx).nodes@[k]]
                0 <= k < old(ctx).nodes@.len() && k != self.handle() ==> final(ctx).nodes@[k] == old(ctx).nodes@[k],
    {
        ctx.observe(self.id())
    }
}

/// Read access to a node whose value is present only in the round it was sent.
pub trait StreamTrait: Sized {
    spec fn handle(&self) -> usize;

    fn id(&self) -> (r: usize)
        ensures
            r == self.handle(),
    ;

    /// Subscribes to the stream: a fresh subscription id, and the event of the
    /// current round if there is one.
    fn observe<V: Copy, F: Fn(Vec<V>) -> V>(&self, ctx: &mut FrpContext<V, F>) -> (r: (usize, Option<V>))
        requires
            old(ctx).wf(),
            old(ctx).is_live(self.handle() as int),
            old(ctx).nodes@[self.handle() as int].next_observer < usize::MAX,
        ensures
            final(ctx).wf(),
            r.0 == old(ctx).nodes@[self.handle() as int].next_observer,
            r.1 == old(ctx).value_of(self.handle() as int),
            final(ctx).nodes@[self.handle() as int].observers@ == old(ctx).nodes@[self.handle() as int].observers@.push(r.0),
            final(ctx).nodes@[self.handle() as int].next_observer == r.0 + 1,
            final(ctx).nodes@[self.handle() as int].value == old(ctx).nodes@[self.handle() as int].value,
            final(ctx).nodes@[self.handle() as int].live,
            final(ctx).nodes@[self.handle() as int].inputs == old(ctx).nodes@[self.handle() as int].inputs,
            final(ctx).nodes@[self.handle() as int].dependents == old(ctx).nodes@[self.handle() as int].dependents,
            final(ctx).nodes@[self.handle() as int].alias == old(ctx).nodes@[self.handle() as int].alias,
            final(ctx).nodes@[self.handle() as int].loop_target == old(ctx).nodes@[self.handle() as int].loop_target,
            final(ctx).nodes@[self.handle() as int].rule == old(ctx).nodes@[self.handle() as int].rule,
            final(ctx).nodes@[self.handle() as int].resets == old(ctx).nodes@[self.handle() as int].resets,
            final(ctx).nodes@[self.handle() as int].children == old(ctx).nodes@[self.handle() as int].children,
            final(ctx).nodes@.len() == old(ctx).nodes@.len(),
            final(ctx).dirty == old(ctx).dirty,
            final(ctx).transaction_depth == old(ctx).transaction_depth,
            final(ctx).inside_switch == old(ctx).inside_switch,
            forall|k: int|
                #![trigger final(ctx).nodes@[k]]
                0 <= k < old(ctx).nodes@.len() && k != self.handle() ==> final(ctx).nodes@[k] == old(ctx).nodes@[k],
    {
        ctx.observe(self.id())
    }

    /// The stream seen as a cell whose value is absent between events.
    fn as_cell(&self) -> (r: Cell)
        ensures
            r.id == self.handle(),
    {
        Cell::of(self.id())
    }
}

/// A derived cell.
#[derive(Clone, Copy, Debug, PartialEq, Eq)]
pub struct Cell {
    pub id: usize,
}

/// A cell written from outside.
#[derive(Clone, Copy, Debug, PartialEq, Eq)]
pub struct CellSink {
    pub id: usize,
}

/// A derived stream.
#[derive(Clone, Copy, Debug, PartialEq, Eq)]
pub struct Stream {
    pub id: usize,
}

/// A stream sent to from outside.
#[derive(Clone, Copy, Debug, PartialEq, Eq)]
pub struct StreamSink {
    pub id: usize,
}

impl Cell {
    pub fn of(id: usize) -> (r: Cell)
        ensures
            r.id == id,
    {
        Cell { id }
    }
}

impl CellSink {
    pub fn of(id: usize) -> (r: CellSink)
        ensures
            r.id == id,
    {
        CellSink { id }
    }
}

impl Stream {
    pub fn of(id: usize) -> (r: Stream)
        ensures
            r.id == id,
    {
        Stream { id }
    }
}

impl StreamSink {
    pub fn of(id: usize) -> (r: StreamSink)
        ensures
            r.id == id,
    {
        StreamSink { id }
    }
}

impl CellTrait for Cell {
    open spec fn handle(&self) -> usize {
        self.id
    }

    fn id(&self) -> (r: usize) {
        self.id
    }
}

impl CellTrait for CellSink {
    open spec fn handle(&self) -> usize {
        self.id
    }

    fn id(&self) -> (r: usize) {
        self.id
    }
}

impl StreamTrait for Stream {
    open spec fn handle(&self) -> usize {
        self.id
    }

    fn id(&self) -> (r: usize) {
        self.id
    }
}

impl StreamTrait for StreamSink {
    open spec fn handle(&self) -> usize {
        self.id
    }

    fn id(&self) -> (r: usize) {
        self.id
    }
}

} // verus!

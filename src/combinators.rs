//! Building the graph: sinks, `map`, `lift`, loops and switches.
use vstd::prelude::*;
use crate::graph::{FrpContext, Node, total, computes, all_present, unwrap_all, same_record, lemma_values_alike};
use crate::handles::{Cell, CellSink, Stream, StreamSink, CellTrait, StreamTrait};

verus! {

impl<V: Copy, F: Fn(Vec<V>) -> V> FrpContext<V, F> {
    /// A fresh live record with the given value, rule, inputs and reset flag.
    fn record(value: Option<V>, rule: Option<F>, is_switch: bool, inputs: Vec<usize>, resets: bool) -> (r: Node<V, F>)
        ensures
            r.live,
            r.value == value,
            r.rule == rule,
            r.is_switch == is_switch,
            r.inputs == inputs,
            r.resets == resets,
            r.alias is None,
            r.loop_target is None,
            r.dependents@.len() == 0,
            r.observers@.len() == 0,
            r.next_observer == 0,
            r.children@.len() == 0,
            r.enclosing is None,
    {
        Node {
            live: true,
            value,
            alias: None,
            loop_target: None,
            rule,
            is_switch,
            inputs,
            dependents: Vec::new(),
            observers: Vec::new(),
            next_observer: 0,
            resets,
            children: Vec::new(),
            enclosing: None,
        }
    }

    /// Adds a node without rule holding `value`; every earlier node reads the same.
    fn new_source(&mut self, value: Option<V>, resets: bool) -> (r: usize)
        requires
            old(self).wf(),
            old(self).nodes@.len() < usize::MAX,
        ensures
            final(self).wf(),
            old(self).grown_by_one(final(self)),
            final(self).inside_switch == old(self).inside_switch,
            r == old(self).nodes@.len(),
            final(self).is_source(r as int),
            final(self).nodes@[r as int].value == value,
            final(self).nodes@[r as int].resets == resets,
            final(self).nodes@[r as int].inputs@.len() == 0,
            final(self).value_of(r as int) == value,
    {
        let node = Self::record(value, None, false, Vec::new(), resets);
        let r = self.insert_cell(node);
        proof {
            lemma_values_alike(&*old(self), &*self);
        }
        r
    }

    /// A new cell written from outside, holding `value`.
    pub fn new_cell_sink(&mut self, value: V) -> (r: CellSink)
        requires
            old(self).wf(),
            old(self).nodes@.len() < usize::MAX,
        ensures
            final(self).wf(),
            old(self).grown_by_one(final(self)),
            final(self).inside_switch == old(self).inside_switch,
            r.id == old(self).nodes@.len(),
            final(self).is_source(r.id as int),
            !final(self).nodes@[r.id as int].resets,
            final(self).value_of(r.id as int) == Some(value),
    {
        CellSink::of(self.new_source(Some(value), false))
    }

    /// A new stream sent to from outside, without an event.
    pub fn new_stream_sink(&mut self) -> (r: StreamSink)
        requires
            old(self).wf(),
            old(self).nodes@.len() < usize::MAX,
        ensures
            final(self).wf(),
            old(self).grown_by_one(final(self)),
            final(self).inside_switch == old(self).inside_switch,
            r.id == old(self).nodes@.len(),
            final(self).is_source(r.id as int),
            final(self).nodes@[r.id as int].resets,
            final(self).value_of(r.id as int) is None,
    {
        StreamSink::of(self.new_source(None, true))
    }

    /// Adds a node computing `f` over the values of `inputs`; its value is computed now.
    fn derive_node(&mut self, inputs: Vec<usize>, f: F, resets: bool) -> (r: usize)
        requires
            old(self).wf(),
            old(self).nodes@.len() < usize::MAX,
            total(f),
            forall|j: int| 0 <= j < inputs@.len() ==> #[trigger] inputs@[j] < old(self).nodes@.len(),
        ensures
            final(self).wf(),
            old(self).grown_by_one(final(self)),
            final(self).inside_switch == old(self).inside_switch,
            r == old(self).nodes@.len(),
            final(self).is_direct(r as int),
            !final(self).nodes@[r as int].is_switch,
            final(self).nodes@[r as int].rule == Some(f),
            final(self).nodes@[r as int].inputs@ == inputs@,
            final(self).nodes@[r as int].resets == resets,
            final(self).value_of(r as int) == final(self).nodes@[r as int].value,
            final(self).rule_holds(r as int),
            final(self).input_values(r as int) == old(self).values_of(inputs@),
    {
        let value = match self.gather(&inputs) {
            Some(args) => {
                let ghost a = args;
                let v = f(args);
                assert(computes(f, a@, v));
                Some(v)
            },
            None => None,
        };
        let node = Self::record(value, Some(f), false, inputs, resets);
        let r = self.insert_cell(node);
        proof {
            lemma_values_alike(&*old(self), &*self);
            assert(self.input_values(r as int) =~= old(self).values_of(inputs@));
        }
        r
    }

    /// A cell whose value is `f` applied to `cell`'s value, kept up to date.
    pub fn map_cell<C: CellTrait>(&mut self, cell: &C, f: F) -> (r: Cell)
        requires
            old(self).wf(),
            old(self).nodes@.len() < usize::MAX,
            cell.handle() < old(self).nodes@.len(),
            total(f),
        ensures
            final(self).wf(),
            old(self).grown_by_one(final(self)),
            final(self).inside_switch == old(self).inside_switch,
            r.id == old(self).nodes@.len(),
            final(self).is_direct(r.id as int),
            final(self).nodes@[r.id as int].rule == Some(f),
            final(self).nodes@[r.id as int].inputs@ == seq![cell.handle()],
            !final(self).nodes@[r.id as int].resets,
            final(self).rule_holds(r.id as int),
            match old(self).value_of(cell.handle() as int) {
                Some(a) => final(self).value_of(r.id as int) is Some && computes(
                    f,
                    seq![a],
                    final(self).value_of(r.id as int)->0,
                ),
                None => final(self).value_of(r.id as int) is None,
            },
    {
        let mut inputs: Vec<usize> = Vec::new();
        inputs.push(cell.id());
        let r = self.derive_node(inputs, f, false);
        proof {
            assert(unwrap_all(self.input_values(r as int)) =~= seq![
                old(self).value_of(cell.handle() as int)->0,
            ]);
            assert(self.input_values(r as int)[0] == old(self).value_of(cell.handle() as int));
            if old(self).value_of(cell.handle() as int) is None {
                assert(!all_present(self.input_values(r as int)));
            }
        }
        Cell::of(r)
    }

    /// A stream carrying `f` of each event of `stream`, absent between events.
    pub fn map_stream<S: StreamTrait>(&mut self, stream: &S, f: F) -> (r: Stream)
        requires
            old(self).wf(),
            old(self).nodes@.len() < usize::MAX,
            stream.handle() < old(self).nodes@.len(),
            total(f),
        ensures
            final(self).wf(),
            old(self).grown_by_one(final(self)),
            final(self).inside_switch == old(self).inside_switch,
            r.id == old(self).nodes@.len(),
            final(self).is_direct(r.id as int),
            final(self).nodes@[r.id as int].rule == Some(f),
            final(self).nodes@[r.id as int].inputs@ == seq![stream.handle()],
            final(self).nodes@[r.id as int].resets,
            final(self).rule_holds(r.id as int),
            match old(self).value_of(stream.handle() as int) {
                Some(a) => final(self).value_of(r.id as int) is Some && computes(
                    f,
                    seq![a],
                    final(self).value_of(r.id as int)->0,
                ),
                None => final(self).value_of(r.id as int) is None,
            },
    {
        let mut inputs: Vec<usize> = Vec::new();
        inputs.push(stream.id());
        let r = self.derive_node(inputs, f, true);
        proof {
            assert(unwrap_all(self.input_values(r as int)) =~= seq![
                old(self).value_of(stream.handle() as int)->0,
            ]);
            assert(self.input_values(r as int)[0] == old(self).value_of(stream.handle() as int));
            if old(self).value_of(stream.handle() as int) is None {
                assert(!all_present(self.input_values(r as int)));
            }
        }
        Stream::of(r)
    }


    /// A cell whose value is `f` applied to the values of 2 cells, recomputed once per
    /// sweep however many of them changed.
    pub fn lift2_cell<CA: CellTrait, CB: CellTrait>(&mut self, f: F, cell_a: &CA, cell_b: &CB) -> (r: Cell)
        requires
            old(self).wf(),
            old(self).nodes@.len() < usize::MAX,
            cell_a.handle() < old(self).nodes@.len(),
            cell_b.handle() < old(self).nodes@.len(),
            total(f),
        ensures
            final(self).wf(),
            old(self).grown_by_one(final(self)),
            final(self).inside_switch == old(self).inside_switch,
            r.id == old(self).nodes@.len(),
            final(self).is_direct(r.id as int),
            final(self).nodes@[r.id as int].rule == Some(f),
            final(self).nodes@[r.id as int].inputs@ == seq![cell_a.handle(), cell_b.handle()],
            !final(self).nodes@[r.id as int].resets,
            final(self).rule_holds(r.id as int),
            if old(self).value_of(cell_a.handle() as int) is Some && old(self).value_of(cell_b.handle() as int) is Some {
                final(self).value_of(r.id as int) is Some && computes(
                    f,
                    seq![old(self).value_of(cell_a.handle() as int)->0, old(self).value_of(cell_b.handle() as int)->0],
                    final(self).value_of(r.id as int)->0,
                )
            } else {
                final(self).value_of(r.id as int) is None
            },
    {
        let mut inputs: Vec<usize> = Vec::new();
        inputs.push(cell_a.id());
        inputs.push(cell_b.id());
        let r = self.derive_node(inputs, f, false);
        proof {
            assert(self.input_values(r as int)[0] == old(self).value_of(cell_a.handle() as int));
            assert(self.input_values(r as int)[1] == old(self).value_of(cell_b.handle() as int));
            assert(unwrap_all(self.input_values(r as int)) =~= seq![old(self).value_of(cell_a.handle() as int)->0, old(self).value_of(cell_b.handle() as int)->0]);
            if old(self).value_of(cell_a.handle() as int) is None {
                assert(!all_present(self.input_values(r as int)));
            }
            if old(self).value_of(cell_b.handle() as int) is None {
                assert(!all_present(self.input_values(r as int)));
            }
        }
        Cell::of(r)
    }

    /// A cell whose value is `f` applied to the values of 3 cells, recomputed once per
    /// sweep however many of them changed.
    pub fn lift3_cell<CA: CellTrait, CB: CellTrait, CC: CellTrait>(&mut self, f: F, cell_a: &CA, cell_b: &CB, cell_c: &CC) -> (r: Cell)
        requires
            old(self).wf(),
            old(self).nodes@.len() < usize::MAX,
            cell_a.handle() < old(self).nodes@.len(),
            cell_b.handle() < old(self).nodes@.len(),
            cell_c.handle() < old(self).nodes@.len(),
            total(f),
        ensures
            final(self).wf(),
            old(self).grown_by_one(final(self)),
            final(self).inside_switch == old(self).inside_switch,
            r.id == old(self).nodes@.len(),
            final(self).is_direct(r.id as int),
            final(self).nodes@[r.id as int].rule == Some(f),
            final(self).nodes@[r.id as int].inputs@ == seq![cell_a.handle(), cell_b.handle(), cell_c.handle()],
            !final(self).nodes@[r.id as int].resets,
            final(self).rule_holds(r.id as int),
            if old(self).value_of(cell_a.handle() as int) is Some && old(self).value_of(cell_b.handle() as int) is Some && old(self).value_of(cell_c.handle() as int) is Some {
                final(self).value_of(r.id as int) is Some && computes(
                    f,
                    seq![old(self).value_of(cell_a.handle() as int)->0, old(self).value_of(cell_b.handle() as int)->0, old(self).value_of(cell_c.handle() as int)->0],
                    final(self).value_of(r.id as int)->0,
                )
            } else {
                final(self).value_of(r.id as int) is None
            },
    {
        let mut inputs: Vec<usize> = Vec::new();
        inputs.push(cell_a.id());
        inputs.push(cell_b.id());
        inputs.push(cell_c.id());
        let r = self.derive_node(inputs, f, false);
        proof {
            assert(self.input_values(r as int)[0] == old(self).value_of(cell_a.handle() as int));
            assert(self.input_values(r as int)[1] == old(self).value_of(cell_b.handle() as int));
            assert(self.input_values(r as int)[2] == old(self).value_of(cell_c.handle() as int));
            assert(unwrap_all(self.input_values(r as int)) =~= seq![old(self).value_of(cell_a.handle() as int)->0, old(self).value_of(cell_b.handle() as int)->0, old(self).value_of(cell_c.handle() as int)->0]);
            if old(self).value_of(cell_a.handle() as int) is None {
                assert(!all_present(self.input_values(r as int)));
            }
            if old(self).value_of(cell_b.handle() as int) is None {
                assert(!all_present(self.input_values(r as int)));
            }
            if old(self).value_of(cell_c.handle() as int) is None {
                assert(!all_present(self.input_values(r as int)));
            }
        }
        Cell::of(r)
    }

    /// A cell whose value is `f` applied to the values of 4 cells, recomputed once per
    /// sweep however many of them changed.
    pub fn lift4_cell<CA: CellTrait, CB: CellTrait, CC: CellTrait, CD: CellTrait>(&mut self, f: F, cell_a: &CA, cell_b: &CB, cell_c: &CC, cell_d: &CD) -> (r: Cell)
        requires
            old(self).wf(),
            old(self).nodes@.len() < usize::MAX,
            cell_a.handle() < old(self).nodes@.len(),
            cell_b.handle() < old(self).nodes@.len(),
            cell_c.handle() < old(self).nodes@.len(),
            cell_d.handle() < old(self).nodes@.len(),
            total(f),
        ensures
            final(self).wf(),
            old(self).grown_by_one(final(self)),
            final(self).inside_switch == old(self).inside_switch,
            r.id == old(self).nodes@.len(),
            final(self).is_direct(r.id as int),
            final(self).nodes@[r.id as int].rule == Some(f),
            final(self).nodes@[r.id as int].inputs@ == seq![cell_a.handle(), cell_b.handle(), cell_c.handle(), cell_d.handle()],
            !final(self).nodes@[r.id as int].resets,
            final(self).rule_holds(r.id as int),
            if old(self).value_of(cell_a.handle() as int) is Some && old(self).value_of(cell_b.handle() as int) is Some && old(self).value_of(cell_c.handle() as int) is Some && old(self).value_of(cell_d.handle() as int) is Some {
                final(self).value_of(r.id as int) is Some && computes(
                    f,
                    seq![old(self).value_of(cell_a.handle() as int)->0, old(self).value_of(cell_b.handle() as int)->0, old(self).value_of(cell_c.handle() as int)->0, old(self).value_of(cell_d.handle() as int)->0],
                    final(self).value_of(r.id as int)->0,
                )
            } else {
                final(self).value_of(r.id as int) is None
            },
    {
        let mut inputs: Vec<usize> = Vec::new();
        inputs.push(cell_a.id());
        inputs.push(cell_b.id());
        inputs.push(cell_c.id());
        inputs.push(cell_d.id());
        let r = self.derive_node(inputs, f, false);
        proof {
            assert(self.input_values(r as int)[0] == old(self).value_of(cell_a.handle() as int));
            assert(self.input_values(r as int)[1] == old(self).value_of(cell_b.handle() as int));
            assert(self.input_values(r as int)[2] == old(self).value_of(cell_c.handle() as int));
            assert(self.input_values(r as int)[3] == old(self).value_of(cell_d.handle() as int));
            assert(unwrap_all(self.input_values(r as int)) =~= seq![old(self).value_of(cell_a.handle() as int)->0, old(self).value_of(cell_b.handle() as int)->0, old(self).value_of(cell_c.handle() as int)->0, old(self).value_of(cell_d.handle() as int)->0]);
            if old(self).value_of(cell_a.handle() as int) is None {
                assert(!all_present(self.input_values(r as int)));
            }
            if old(self).value_of(cell_b.handle() as int) is None {
                assert(!all_present(self.input_values(r as int)));
            }
            if old(self).value_of(cell_c.handle() as int) is None {
                assert(!all_present(self.input_values(r as int)));
            }
            if old(self).value_of(cell_d.handle() as int) is None {
                assert(!all_present(self.input_values(r as int)));
            }
        }
        Cell::of(r)
    }

    /// Starts a switch on `selector`: returns its outer cell, which owns every node
    /// created until `end_switch` names the inner cell.
    pub fn begin_switch<C: CellTrait>(&mut self, selector: &C) -> (r: Cell)
        requires
            old(self).wf(),
            old(self).nodes@.len() < usize::MAX,
            selector.handle() < old(self).nodes@.len(),
        ensures
            final(self).wf(),
            old(self).grown_by_one(final(self)),
            r.id == old(self).nodes@.len(),
            final(self).is_live(r.id as int),
            final(self).nodes@[r.id as int].is_switch,
            final(self).nodes@[r.id as int].inputs@ == seq![selector.handle()],
            final(self).nodes@[r.id as int].alias is None,
            final(self).nodes@[r.id as int].enclosing == old(self).inside_switch,
            final(self).fresh(r.id as int),
            final(self).inside_switch == Some(r.id),
    {
        let mut inputs: Vec<usize> = Vec::new();
        inputs.push(selector.id());
        let node = Self::record(None, None, true, inputs, false);
        let enclosing = self.inside_switch;
        let r = self.insert_cell(node);
        self.nodes[r].enclosing = enclosing;
        self.inside_switch = Some(r);
        proof {
            assert(self.dirty_set() == old(self).dirty_set() || self.dirty_set() == old(self).dirty_set().insert(r));
            lemma_values_alike(&*old(self), &*self);
        }
        Cell::of(r)
    }

    /// Frees the branch a switch built for its previous inner cell and starts
    /// building the next one, owned by the switch.
    pub fn resume_switch(&mut self, outer: &Cell)
        requires
            old(self).wf(),
            old(self).is_live(outer.id as int),
            old(self).nodes@[outer.id as int].is_switch,
        ensures
            final(self).wf(),
            final(self).nodes@.len() == old(self).nodes@.len(),
            final(self).is_live(outer.id as int),
            final(self).nodes@[outer.id as int].children@.len() == 0,
            forall|j: int|
                0 <= j < old(self).nodes@[outer.id as int].children@.len() ==> !final(self).nodes@[
                    old(self).nodes@[outer.id as int].children@[j] as int].live,
            final(self).nodes@[outer.id as int].enclosing == old(self).inside_switch,
            final(self).inside_switch == Some(outer.id),
            final(self).transaction_depth == old(self).transaction_depth,
            final(self).dirty == old(self).dirty,
    {
        let id = outer.id;
        let n_children = self.nodes[id].children.len();
        let mut c: usize = 0;
        while c < n_children
            invariant
                self.wf(),
                old(self).freed_into(self),
                id < self.nodes@.len(),
                self.nodes@[id as int].live,
                n_children == old(self).nodes@[id as int].children@.len(),
                c <= n_children,
                forall|cc: int| 0 <= cc < c ==> !self.nodes@[#[trigger] old(self).nodes@[id as int].children@[cc] as int].live,
            decreases n_children - c,
        {
            let child = self.nodes[id].children[c];
            let ghost pre = *self;
            self.free_cell(child);
            proof {
                assert(id < child);
                assert forall|cc: int| 0 <= cc < c + 1 implies !self.nodes@[#[trigger] old(self).nodes@[id as int].children@[cc] as int].live by {
                    let k = old(self).nodes@[id as int].children@[cc] as int;
                    if cc < c {
                        assert(!pre.nodes@[k].live);
                    }
                }
            }
            c = c + 1;
        }
        let ghost pre = *self;
        let enclosing = self.inside_switch;
        self.nodes[id].children = Vec::new();
        self.nodes[id].enclosing = enclosing;
        proof {
            assert(self.dirty_set() == pre.dirty_set());
            assert forall|n: int, jj: int|
                #![trigger self.nodes@[n].inputs@[jj]]
                0 <= n < self.nodes.len() && 0 <= jj < self.nodes@[n].inputs@.len()
                    && self.nodes@[n].live && self.nodes@[self.nodes@[n].inputs@[jj] as int].live
                implies self.nodes@[self.nodes@[n].inputs@[jj] as int].dependents@.contains(n as usize) by {
                let i = pre.nodes@[n].inputs@[jj] as int;
                assert(pre.nodes@[i].dependents@.contains(n as usize));
            }
            assert forall|n: int, jj: int|
                0 <= n < self.nodes.len() && 0 <= jj < self.nodes@[n].dependents@.len()
                implies n < #[trigger] self.nodes@[n].dependents@[jj] < self.nodes.len() by {
                assert(pre.nodes@[n].dependents@[jj] == self.nodes@[n].dependents@[jj]);
            }
            assert forall|n: int, jj: int|
                0 <= n < self.nodes.len() && 0 <= jj < self.nodes@[n].inputs@.len()
                implies #[trigger] self.nodes@[n].inputs@[jj] < n by {
                assert(pre.nodes@[n].inputs@[jj] == self.nodes@[n].inputs@[jj]);
            }
            assert forall|n: int, jj: int|
                0 <= n < self.nodes.len() && 0 <= jj < self.nodes@[n].children@.len()
                implies n < #[trigger] self.nodes@[n].children@[jj] < self.nodes.len() by {
                assert(pre.nodes@[n].children@[jj] == self.nodes@[n].children@[jj]);
            }
            assert forall|x: usize, jj: int|
                #![trigger self.dirty_set().contains(x), self.nodes@[x as int].dependents@[jj]]
                self.dirty_set().contains(x) && 0 <= x < self.nodes.len() && 0 <= jj
                    < self.nodes@[x as int].dependents@.len() implies self.dirty_set().contains(
                    self.nodes@[x as int].dependents@[jj],
                ) by {
                assert(pre.nodes@[x as int].dependents@[jj] == self.nodes@[x as int].dependents@[jj]);
            }
        }
        self.inside_switch = Some(id);
    }

    /// Points the switch `outer` at `inner` and ends the construction of its branch,
    /// handing construction back to the switch that was building before; reading
    /// `outer` now reads `inner`. The switch and everything that depends on it are
    /// marked dirty, so the next sweep recomputes them from the new branch.
    pub fn end_switch<C: CellTrait>(&mut self, outer: &Cell, inner: &C)
        requires
            old(self).wf(),
            old(self).is_live(outer.id as int),
            old(self).nodes@[outer.id as int].is_switch,
            inner.handle() < old(self).nodes@.len(),
        ensures
            final(self).wf(),
            final(self).nodes@.len() == old(self).nodes@.len(),
            final(self).nodes@[outer.id as int].alias == Some(inner.handle()),
            same_record(
                final(self).nodes@[outer.id as int],
                Node { alias: Some(inner.handle()), ..old(self).nodes@[outer.id as int] },
            ),
            forall|k: int|
                #![trigger final(self).nodes@[k]]
                0 <= k < old(self).nodes@.len() && k != outer.id ==> final(self).nodes@[k] == old(self).nodes@[k],
            final(self).inside_switch == old(self).nodes@[outer.id as int].enclosing,
            final(self).transaction_depth == old(self).transaction_depth,
            old(self).dirty_set().subset_of(final(self).dirty_set()),
            final(self).dirty_set().contains(outer.id),
            exists|m: Set<usize>|
                #![trigger final(self).closed_under_dependents(m)]
                m.contains(outer.id) && m.subset_of(final(self).dirty_set())
                    && final(self).closed_under_dependents(m)
                    && final(self).dirty_set() == old(self).dirty_set().union(m)
                    && forall|x: usize| #[trigger] m.contains(x) ==> final(self).reachable(outer.id, x),
            final(self).value_of(outer.id as int) == final(self).resolve(inner.handle() as int, (usize::MAX - 1) as nat),
            final(self).is_direct(inner.handle() as int) ==> final(self).value_of(outer.id as int) == final(self).value_of(inner.handle() as int),
    {
        self.nodes[outer.id].alias = Some(inner.id());
        assert(old(self).nodes@[outer.id as int].enclosing is Some ==> old(self).nodes@[outer.id as int].enclosing->0
            < old(self).nodes@.len());
        self.inside_switch = self.nodes[outer.id].enclosing;
        assert(self.dirty_set() == old(self).dirty_set());
        assert(self.nodes@[outer.id as int].loop_target is None);
        proof {
            crate::graph::lemma_links_kept(&*old(self), &*self);
        }
        self.mark_all_decendent_cells_for_update(outer.id);
    }

    /// Closes a loop: reads of `placeholder` now go to `defined`, the cell that the
    /// placeholder helped define. A `defined` that is the placeholder itself leaves it a
    /// plain sink holding its initial value.
    pub fn cell_loop<C: CellTrait>(&mut self, placeholder: &CellSink, defined: &C) -> (r: Cell)
        requires
            old(self).wf(),
            old(self).is_source(placeholder.id as int),
            defined.handle() < old(self).nodes@.len(),
        ensures
            final(self).wf(),
            r.id == defined.handle(),
            final(self).nodes@.len() == old(self).nodes@.len(),
            forall|k: int|
                #![trigger final(self).nodes@[k]]
                0 <= k < old(self).nodes@.len() && k != placeholder.id ==> final(self).nodes@[k] == old(self).nodes@[k],
            final(self).inside_switch == old(self).inside_switch,
            final(self).transaction_depth == old(self).transaction_depth,
            final(self).dirty == old(self).dirty,
            defined.handle() == placeholder.id ==> final(self).nodes == old(self).nodes,
            defined.handle() != placeholder.id ==> {
                &&& final(self).nodes@[placeholder.id as int].loop_target == Some(defined.handle())
                &&& final(self).value_of(placeholder.id as int) == final(self).resolve(
                    defined.handle() as int,
                    (usize::MAX - 1) as nat,
                )
            },
    {
        let target = defined.id();
        if target != placeholder.id {
            self.nodes[placeholder.id].loop_target = Some(target);
            proof {
                crate::graph::lemma_links_kept(&*old(self), &*self);
            }
        }
        Cell::of(target)
    }
} // impl

} // verus!

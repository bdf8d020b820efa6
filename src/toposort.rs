//! The ordering collaborator: a topological sort of node handles.
use vstd::prelude::*;
use topological_sort::TopologicalSort;

verus! {

#[verifier::external_type_specification]
#[verifier::external_body]
#[verifier::reject_recursive_types(T)]
pub struct ExTopologicalSort<T>(TopologicalSort<T>);

/// The elements still held by a sort.
pub uninterp spec fn ts_items(ts: TopologicalSort<usize>) -> Set<usize>;

/// The precedence links `(before, after)` registered whose `before` is still held.
pub uninterp spec fn ts_links(ts: TopologicalSort<usize>) -> Set<(usize, usize)>;

/// Relies on `TopologicalSort::new`: a sort with no element and no link.
#[verifier::external_body]
pub(crate) fn ts_new() -> (r: TopologicalSort<usize>)
    ensures
        ts_items(r) == Set::<usize>::empty(),
        ts_links(r) == Set::<(usize, usize)>::empty(),
{
    TopologicalSort::<usize>::new()
}

/// Relies on `TopologicalSort::insert`: the element is held afterwards, links unchanged.
#[verifier::external_body]
pub(crate) fn ts_insert(ts: &mut TopologicalSort<usize>, x: usize)
    ensures
        ts_items(*final(ts)) == ts_items(*old(ts)).insert(x),
        ts_links(*final(ts)) == ts_links(*old(ts)),
{
    let _ = ts.insert(x);
}

/// Relies on `TopologicalSort::add_dependency`: both ends are held afterwards and
/// `before` must come out ahead of `after`.
#[verifier::external_body]
pub(crate) fn ts_add_dependency(ts: &mut TopologicalSort<usize>, before: usize, after: usize)
    ensures
        ts_items(*final(ts)) == ts_items(*old(ts)).insert(before).insert(after),
        ts_links(*final(ts)) == ts_links(*old(ts)).insert((before, after)),
{
    ts.add_dependency(before, after);
}

/// Relies on `TopologicalSort::pop`: it removes and returns an element that no
/// held element must precede, or returns `None` when every held element has a
/// held predecessor (an empty sort included).
#[verifier::external_body]
pub(crate) fn ts_pop(ts: &mut TopologicalSort<usize>) -> (r: Option<usize>)
    ensures
        match r {
            Some(x) => {
                &&& ts_items(*old(ts)).contains(x)
                &&& forall|y: usize| #[trigger]
                    ts_items(*old(ts)).contains(y) ==> !ts_links(*old(ts)).contains((y, x))
                &&& ts_items(*final(ts)) == ts_items(*old(ts)).remove(x)
                &&& ts_links(*final(ts)) == ts_links(*old(ts)).filter(
                    |l: (usize, usize)| l.0 != x,
                )
            },
            None => {
                &&& ts_items(*final(ts)) == ts_items(*old(ts))
                &&& ts_links(*final(ts)) == ts_links(*old(ts))
                &&& forall|x: usize| #[trigger]
                    ts_items(*old(ts)).contains(x) ==> exists|y: usize|
                        ts_items(*old(ts)).contains(y) && ts_links(*old(ts)).contains((y, x))
            },
        },
{
    ts.pop()
}

} // verus!

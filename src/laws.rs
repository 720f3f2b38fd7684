use vstd::prelude::*;
use crate::graph::{GraphModel, without, handle_at, lemma_without_contains};
use crate::types::{Handle, ResourceId};

verus! {

/// In a consistent store, a live object `e` is listed in the inverse index of
/// the live object `d` exactly when the relationship link of `e` targets `d`.
pub proof fn lemma_closure(m: GraphModel, d: Handle, e: Handle)
    requires
        m.well_formed(),
        m.is_live(d),
        m.indexed[d.bits as int],
        m.is_live(e),
    ensures
        m.deps[d.bits as int].contains(e) <==> m.links[e.bits as int] == Some(d),
{
    assert(handle_at(d.bits as int) == d);
    assert(handle_at(e.bits as int) == e);
    if m.deps[d.bits as int].contains(e) {
        let k = choose|k: int| 0 <= k < m.deps[d.bits as int].len() && m.deps[d.bits as int][k] == e;
        assert(m.deps[d.bits as int][k] == e);
    }
    if m.links[e.bits as int] == Some(d) {
        assert(m.links[e.bits as int] is Some);
    }
}

/// In a consistent store, the relationship link of a live object always
/// targets a live object: no link dangles.
pub proof fn lemma_links_target_live(m: GraphModel, e: Handle)
    requires
        m.well_formed(),
        m.is_live(e),
        m.links[e.bits as int] is Some,
    ensures
        m.is_live(m.links[e.bits as int]->0),
{
}

/// Propagating a change of the same resource twice in a row marks exactly
/// what propagating it once does: a marked object stays marked once.
pub proof fn lemma_notify_idempotent(m: GraphModel, id: ResourceId)
    requires
        m.well_formed(),
    ensures
        m.notified(id).notified(id) == m.notified(id),
{
    let once = m.notified(id);
    assert(once.notified(id).marked =~= once.marked);
}

/// Marking the dependents of the same object twice in a row marks exactly
/// what marking them once does.
pub proof fn lemma_dependents_marked_idempotent(m: GraphModel, d: Handle)
    requires
        m.well_formed(),
    ensures
        m.dependents_marked(d).dependents_marked(d) == m.dependents_marked(d),
{
    let once = m.dependents_marked(d);
    assert(once.dependents_marked(d).marked =~= once.marked);
}

/// Moving the link of `e` from `d1` to `d2` takes `e` out of the inverse
/// index of `d1` and appends it to the index of `d2` in one step, with both
/// records consistent afterwards.
pub proof fn lemma_reattach(m: GraphModel, e: Handle, d1: Handle, d2: Handle, id: Option<ResourceId>)
    requires
        m.well_formed(),
        m.is_live(e),
        m.is_live(d2),
        m.links[e.bits as int] == Some(d1),
        d1 != d2,
    ensures
        m.linked(e, d2, id).well_formed(),
        m.linked(e, d2, id).links[e.bits as int] == Some(d2),
        m.linked(e, d2, id).deps[d1.bits as int] == without(m.deps[d1.bits as int], e),
        m.linked(e, d2, id).deps[d2.bits as int] == m.deps[d2.bits as int].push(e),
        !m.linked(e, d2, id).deps[d1.bits as int].contains(e),
        m.linked(e, d2, id).deps[d2.bits as int].contains(e),
{
    assert(m.links[e.bits as int] is Some);
    m.lemma_linked_wf(e, d2, id);
    lemma_without_contains(m.deps[d1.bits as int], e);
    let n = m.linked(e, d2, id);
    assert(n.deps[d2.bits as int][m.deps[d2.bits as int].len() as int] == e);
    assert(!m.deps[d2.bits as int].contains(e)) by {
        if m.deps[d2.bits as int].contains(e) {
            let k = choose|k: int| 0 <= k < m.deps[d2.bits as int].len() && m.deps[d2.bits as int][k] == e;
            assert(m.links[e.bits as int] == Some(handle_at(d2.bits as int)));
        }
    }
}

} // verus!

use vstd::prelude::*;
use crate::types::{Handle, ResourceId, LinkError};
use crate::records::{AssetDependency, AssetDependencyChanged, AssetDependent, Dependency, Dependent};

verus! {

/// `s` with every occurrence of `h` taken out, the order of the rest kept.
pub open spec fn without(s: Seq<Handle>, h: Handle) -> Seq<Handle>
    decreases s.len(),
{
    if s.len() == 0 {
        s
    } else if s.last() == h {
        without(s.drop_last(), h)
    } else {
        without(s.drop_last(), h).push(s.last())
    }
}

pub open spec fn handle_at(i: int) -> Handle {
    Handle { bits: i as u64 }
}

pub(crate) proof fn lemma_without_contains(s: Seq<Handle>, h: Handle)
    ensures
        forall|x: Handle| #[trigger] without(s, h).contains(x) <==> (s.contains(x) && x != h),
    decreases s.len(),
{
    if s.len() > 0 {
        lemma_without_contains(s.drop_last(), h);
        let w = without(s.drop_last(), h);
        assert forall|x: Handle| #[trigger] without(s, h).contains(x) <==> (s.contains(x) && x != h) by {
            if s.contains(x) {
                let i = choose|i: int| 0 <= i < s.len() && s[i] == x;
                if i < s.len() - 1 {
                    assert(s.drop_last()[i] == x);
                }
            }
            if s.drop_last().contains(x) {
                let i = choose|i: int| 0 <= i < s.len() - 1 && s.drop_last()[i] == x;
                assert(s[i] == x);
            }
            if s.last() != h {
                assert(w.push(s.last())[w.len() as int] == s.last());
                if w.push(s.last()).contains(x) {
                    let i = choose|i: int| 0 <= i < w.len() + 1 && w.push(s.last())[i] == x;
                    if i < w.len() {
                        assert(w[i] == x);
                    }
                }
                if w.contains(x) {
                    let i = choose|i: int| 0 <= i < w.len() && w[i] == x;
                    assert(w.push(s.last())[i] == x);
                }
            }
        }
    }
}

proof fn lemma_without_no_duplicates(s: Seq<Handle>, h: Handle)
    requires
        s.no_duplicates(),
    ensures
        without(s, h).no_duplicates(),
    decreases s.len(),
{
    if s.len() > 0 {
        let p = s.drop_last();
        assert(p.no_duplicates());
        lemma_without_no_duplicates(p, h);
        lemma_without_contains(p, h);
        if s.last() != h {
            let w = without(p, h);
            assert(!p.contains(s.last())) by {
                if p.contains(s.last()) {
                    let i = choose|i: int| 0 <= i < p.len() && p[i] == s.last();
                    assert(s[i] == s[s.len() - 1]);
                }
            }
            assert(!w.contains(s.last()));
            assert forall|i: int, j: int|
                0 <= i < w.len() + 1 && 0 <= j < w.len() + 1 && i != j
                    implies #[trigger] w.push(s.last())[i] != #[trigger] w.push(s.last())[j] by {
                if i < w.len() && j == w.len() {
                    assert(w.contains(w[i]));
                }
                if j < w.len() && i == w.len() {
                    assert(w.contains(w[j]));
                }
            }
        }
    }
}

proof fn lemma_without_absent(s: Seq<Handle>, h: Handle)
    requires
        !s.contains(h),
    ensures
        without(s, h) == s,
    decreases s.len(),
{
    if s.len() > 0 {
        let p = s.drop_last();
        assert(!p.contains(h)) by {
            if p.contains(h) {
                let i = choose|i: int| 0 <= i < p.len() && p[i] == h;
                assert(s[i] == h);
            }
        }
        assert(s.last() != h) by {
            assert(s[s.len() - 1] == s.last());
        }
        lemma_without_absent(p, h);
        assert(p.push(s.last()) =~= s);
    }
}

proof fn lemma_without_first(s: Seq<Handle>)
    requires
        s.len() > 0,
        s.no_duplicates(),
    ensures
        without(s, s[0]) == s.subrange(1, s.len() as int),
{
    let r = s.subrange(1, s.len() as int);
    assert(!r.contains(s[0])) by {
        if r.contains(s[0]) {
            let i = choose|i: int| 0 <= i < r.len() && r[i] == s[0];
            assert(s[i + 1] == s[0]);
        }
    }
    lemma_without_prefix(s, s[0], r);
}

proof fn lemma_without_prefix(s: Seq<Handle>, h: Handle, r: Seq<Handle>)
    requires
        s.len() > 0,
        s[0] == h,
        r == s.subrange(1, s.len() as int),
        !r.contains(h),
    ensures
        without(s, h) == r,
    decreases s.len(),
{
    if s.len() == 1 {
        assert(s.drop_last() =~= Seq::<Handle>::empty());
        assert(r =~= Seq::<Handle>::empty());
        assert(s.last() == h);
        assert(without(s.drop_last(), h) == s.drop_last());
    } else {
        let p = s.drop_last();
        let rp = p.subrange(1, p.len() as int);
        assert(rp =~= r.drop_last());
        assert(!rp.contains(h)) by {
            if rp.contains(h) {
                let i = choose|i: int| 0 <= i < rp.len() && rp[i] == h;
                assert(r[i] == h);
            }
        }
        lemma_without_prefix(p, h, rp);
        assert(s.last() == r[r.len() - 1]);
        assert(s.last() != h);
        assert(rp.push(s.last()) =~= r);
        assert(without(s, h) == without(p, h).push(s.last()));
    }
}

/// The number of live objects.
pub open spec fn live_count(s: Seq<bool>) -> nat
    decreases s.len(),
{
    if s.len() == 0 {
        0
    } else {
        live_count(s.drop_last()) + if s.last() { 1nat } else { 0nat }
    }
}

proof fn lemma_live_count_update(s: Seq<bool>, i: int)
    requires
        0 <= i < s.len(),
        s[i],
    ensures
        live_count(s.update(i, false)) < live_count(s),
    decreases s.len(),
{
    if i == s.len() - 1 {
        assert(s.update(i, false).drop_last() =~= s.drop_last());
    } else {
        lemma_live_count_update(s.drop_last(), i);
        assert(s.update(i, false).drop_last() =~= s.drop_last().update(i, false));
    }
}

/// Objects that survive keep their links; so whatever reaches a destroyed
/// object through them is destroyed too.
proof fn lemma_chain_destroyed(o: GraphModel, g: GraphModel, h: Handle, d: Handle, k: nat)
    requires
        g.well_formed(),
        g.len() == o.len(),
        !g.is_live(d),
        forall|i: int| 0 <= i < g.len() && #[trigger] g.live[i] ==> g.links[i] == o.links[i],
        o.reaches_within(h, d, k),
    ensures
        !g.is_live(h),
    decreases k,
{
    if h != d && g.is_live(h) {
        let t = o.links[h.bits as int]->0;
        assert(g.links[h.bits as int] is Some);
        lemma_chain_destroyed(o, g, t, d, (k - 1) as nat);
    }
}

/// A copy of a sequence of handles.
fn copy_handles(v: &Vec<Handle>) -> (r: Vec<Handle>)
    ensures
        r@ == v@,
{
    let mut r: Vec<Handle> = Vec::new();
    let mut i: usize = 0;
    while i < v.len()
        invariant
            i <= v.len(),
            r@ == v@.subrange(0, i as int),
        decreases v.len() - i,
    {
        r.push(v[i]);
        i = i + 1;
        assert(r@ =~= v@.subrange(0, i as int));
    }
    assert(r@ =~= v@);
    r
}

/// `v` with every occurrence of `h` taken out, the order of the rest kept.
fn without_handle(v: &Vec<Handle>, h: Handle) -> (r: Vec<Handle>)
    ensures
        r@ == without(v@, h),
{
    let mut r: Vec<Handle> = Vec::new();
    let mut i: usize = 0;
    while i < v.len()
        invariant
            i <= v.len(),
            r@ == without(v@.subrange(0, i as int), h),
        decreases v.len() - i,
    {
        assert(v@.subrange(0, i + 1).drop_last() =~= v@.subrange(0, i as int));
        if v[i] != h {
            r.push(v[i]);
        }
        i = i + 1;
    }
    assert(v@.subrange(0, v.len() as int) =~= v@);
    r
}

/// The abstract state of the store: one entry per handle ever issued, at the
/// position given by the handle's bits.
pub struct GraphModel {
    /// Whether the object is alive.
    pub live: Seq<bool>,
    /// The target of the object's relationship link, if it carries one.
    pub links: Seq<Option<Handle>>,
    /// The resource id of the object's relationship link, if it names one.
    pub link_ids: Seq<Option<ResourceId>>,
    /// Whether the object carries an inverse index.
    pub indexed: Seq<bool>,
    /// The dependents listed in the object's inverse index, in registration order.
    pub deps: Seq<Seq<Handle>>,
    /// The resource id that the object's inverse index is bound to.
    pub index_ids: Seq<Option<ResourceId>>,
    /// Whether the object carries a change marker.
    pub marked: Seq<bool>,
}

impl GraphModel {
    pub open spec fn len(self) -> nat {
        self.live.len()
    }

    pub open spec fn is_live(self, h: Handle) -> bool {
        h.bits < self.len() && self.live[h.bits as int]
    }

    /// The two records agree: every link is listed, exactly once, in its
    /// target's inverse index, and every listed dependent links to the index's
    /// owner. Destroyed objects carry no record.
    pub open spec fn well_formed(self) -> bool {
        &&& self.len() <= u64::MAX
        &&& self.links.len() == self.len()
        &&& self.link_ids.len() == self.len()
        &&& self.indexed.len() == self.len()
        &&& self.deps.len() == self.len()
        &&& self.index_ids.len() == self.len()
        &&& self.marked.len() == self.len()
        &&& forall|i: int|
            0 <= i < self.len() && !#[trigger] self.live[i] ==> {
                &&& self.links[i] is None
                &&& !self.indexed[i]
                &&& !self.marked[i]
            }
        &&& forall|i: int|
            0 <= i < self.len() && !#[trigger] self.indexed[i] ==> {
                &&& self.deps[i].len() == 0
                &&& self.index_ids[i] is None
            }
        &&& forall|i: int|
            0 <= i < self.len() && #[trigger] self.links[i] is None ==> self.link_ids[i] is None
        &&& forall|i: int|
            0 <= i < self.len() && #[trigger] self.links[i] is Some ==> {
                let t = self.links[i]->0;
                &&& t.bits < self.len()
                &&& self.indexed[t.bits as int]
                &&& self.deps[t.bits as int].contains(handle_at(i))
            }
        &&& forall|d: int, k: int|
            0 <= d < self.len() && 0 <= k < self.deps[d].len() ==> {
                let e = #[trigger] self.deps[d][k];
                &&& e.bits < self.len()
                &&& self.links[e.bits as int] == Some(handle_at(d))
            }
        &&& forall|d: int| 0 <= d < self.len() ==> #[trigger] self.deps[d].no_duplicates()
    }

    /// The state after a new object is created: alive, with no record.
    pub open spec fn spawned(self) -> GraphModel {
        GraphModel {
            live: self.live.push(true),
            links: self.links.push(None),
            link_ids: self.link_ids.push(None),
            indexed: self.indexed.push(false),
            deps: self.deps.push(Seq::empty()),
            index_ids: self.index_ids.push(None),
            marked: self.marked.push(false),
        }
    }

    /// The state after the link of `e`, if any, is removed and `e` is taken
    /// out of its target's inverse index.
    pub open spec fn unlinked(self, e: Handle) -> GraphModel {
        let i = e.bits as int;
        match self.links[i] {
            Some(t) => GraphModel {
                links: self.links.update(i, None),
                link_ids: self.link_ids.update(i, None),
                deps: self.deps.update(t.bits as int, without(self.deps[t.bits as int], e)),
                ..self
            },
            None => self,
        }
    }

    /// The state after `e` is linked to `t` with resource id `id`: `e` leaves
    /// the index of its former target and is appended to the index of `t`,
    /// which is created empty if `t` had none.
    pub open spec fn linked(self, e: Handle, t: Handle, id: Option<ResourceId>) -> GraphModel {
        let i = e.bits as int;
        let ti = t.bits as int;
        if self.links[i] == Some(t) {
            GraphModel { link_ids: self.link_ids.update(i, id), ..self }
        } else {
            let u = self.unlinked(e);
            GraphModel {
                links: u.links.update(i, Some(t)),
                link_ids: u.link_ids.update(i, id),
                indexed: u.indexed.update(ti, true),
                deps: u.deps.update(ti, u.deps[ti].push(e)),
                ..u
            }
        }
    }

    /// `e` reaches `d` within `k` steps of following relationship links.
    pub open spec fn reaches_within(self, e: Handle, d: Handle, k: nat) -> bool
        decreases k,
    {
        e == d || (k > 0 && e.bits < self.len() && self.links[e.bits as int] is Some
            && self.reaches_within(self.links[e.bits as int]->0, d, (k - 1) as nat))
    }

    /// `e` is `d` or a transitive dependent of `d`.
    pub open spec fn reaches(self, e: Handle, d: Handle) -> bool {
        exists|k: nat| #[trigger] self.reaches_within(e, d, k)
    }

    /// The state after every object linked to `d` is marked as changed.
    pub open spec fn dependents_marked(self, d: Handle) -> GraphModel {
        GraphModel {
            marked: Seq::new(self.len(), |i: int| self.marked[i] || self.links[i] == Some(d)),
            ..self
        }
    }

    /// Whether object `i` is linked to an object whose inverse index is bound
    /// to `id`.
    pub open spec fn affected_by(self, i: int, id: ResourceId) -> bool {
        &&& self.links[i] is Some
        &&& self.index_ids[self.links[i]->0.bits as int] == Some(id)
    }

    /// The state after a change of the resource `id` is propagated: every
    /// dependent of an object bound to `id` is marked as changed.
    pub open spec fn notified(self, id: ResourceId) -> GraphModel {
        GraphModel {
            marked: Seq::new(self.len(), |i: int| self.marked[i] || self.affected_by(i, id)),
            ..self
        }
    }

    /// The state after a new object carrying an empty inverse index bound to
    /// `id` is created.
    pub open spec fn spawned_dependency(self, id: ResourceId) -> GraphModel {
        let s = self.spawned();
        GraphModel {
            indexed: s.indexed.update(self.len() as int, true),
            index_ids: s.index_ids.update(self.len() as int, Some(id)),
            ..s
        }
    }

    /// The state after the inverse index of `d` is bound to `id`; the index is
    /// created empty if `d` had none, and keeps its dependents otherwise.
    pub open spec fn bound(self, d: Handle, id: ResourceId) -> GraphModel {
        GraphModel {
            indexed: self.indexed.update(d.bits as int, true),
            index_ids: self.index_ids.update(d.bits as int, Some(id)),
            ..self
        }
    }

    pub(crate) proof fn lemma_unlinked_wf(self, e: Handle)
        requires
            self.well_formed(),
            self.is_live(e),
        ensures
            self.unlinked(e).well_formed(),
    {
        let i = e.bits as int;
        if let Some(t) = self.links[i] {
            let n = self.unlinked(e);
            let ti = t.bits as int;
            let w = without(self.deps[ti], e);
            lemma_without_contains(self.deps[ti], e);
            lemma_without_no_duplicates(self.deps[ti], e);
            assert(self.deps[ti].contains(handle_at(i)));
            assert forall|j: int| 0 <= j < n.len() && #[trigger] n.links[j] is Some implies {
                let u = n.links[j]->0;
                &&& u.bits < n.len()
                &&& n.indexed[u.bits as int]
                &&& n.deps[u.bits as int].contains(handle_at(j))
            } by {
                assert(j != i);
                assert(self.links[j] is Some);
                assert(handle_at(j) != e);
            }
            assert forall|d: int, k: int| 0 <= d < n.len() && 0 <= k < n.deps[d].len() implies {
                let x = #[trigger] n.deps[d][k];
                &&& x.bits < n.len()
                &&& n.links[x.bits as int] == Some(handle_at(d))
            } by {
                let x = n.deps[d][k];
                if d == ti {
                    assert(w.contains(x));
                    let k2 = choose|k2: int| 0 <= k2 < self.deps[ti].len() && self.deps[ti][k2] == x;
                    assert(self.deps[d][k2] == x);
                } else {
                    assert(self.deps[d][k] == x);
                }
            }
            assert forall|d: int| 0 <= d < n.len() implies #[trigger] n.deps[d].no_duplicates() by {
                if d != ti {
                    assert(n.deps[d] == self.deps[d]);
                }
            }
        }
    }

    pub(crate) proof fn lemma_linked_wf(self, e: Handle, t: Handle, id: Option<ResourceId>)
        requires
            self.well_formed(),
            self.is_live(e),
            self.is_live(t),
        ensures
            self.linked(e, t, id).well_formed(),
    {
        let i = e.bits as int;
        let ti = t.bits as int;
        let n = self.linked(e, t, id);
        if self.links[i] == Some(t) {
            assert forall|j: int| 0 <= j < n.len() && #[trigger] n.links[j] is Some implies {
                let u = n.links[j]->0;
                &&& u.bits < n.len()
                &&& n.indexed[u.bits as int]
                &&& n.deps[u.bits as int].contains(handle_at(j))
            } by {
                assert(self.links[j] is Some);
            }
            assert forall|j: int| 0 <= j < n.len() && #[trigger] n.links[j] is None implies n.link_ids[j] is None by {
                assert(self.links[j] is None);
            }
        } else {
            self.lemma_unlinked_wf(e);
            let u = self.unlinked(e);
            assert(u.links[i] is None);
            assert(handle_at(ti) == t);
            assert(handle_at(i) == e);
            assert(n.deps[ti][u.deps[ti].len() as int] == e);
            assert forall|j: int| 0 <= j < n.len() && #[trigger] n.links[j] is Some implies {
                let v = n.links[j]->0;
                &&& v.bits < n.len()
                &&& n.indexed[v.bits as int]
                &&& n.deps[v.bits as int].contains(handle_at(j))
            } by {
                if j != i {
                    assert(u.links[j] is Some);
                    let v = u.links[j]->0;
                    if v.bits as int == ti {
                        let k = choose|k: int| 0 <= k < u.deps[ti].len() && u.deps[ti][k] == handle_at(j);
                        assert(n.deps[ti][k] == handle_at(j));
                    }
                }
            }
            assert forall|d: int, k: int| 0 <= d < n.len() && 0 <= k < n.deps[d].len() implies {
                let x = #[trigger] n.deps[d][k];
                &&& x.bits < n.len()
                &&& n.links[x.bits as int] == Some(handle_at(d))
            } by {
                if d != ti || k < u.deps[ti].len() {
                    assert(u.deps[d][k] == n.deps[d][k]);
                }
            }
            assert(!u.deps[ti].contains(e)) by {
                if u.deps[ti].contains(e) {
                    let k = choose|k: int| 0 <= k < u.deps[ti].len() && u.deps[ti][k] == e;
                    assert(u.links[e.bits as int] == Some(handle_at(ti)));
                }
            }
            assert forall|d: int| 0 <= d < n.len() implies #[trigger] n.deps[d].no_duplicates() by {
                if d != ti {
                    assert(n.deps[d] == u.deps[d]);
                } else {
                    assert(u.deps[d].no_duplicates());
                    assert forall|a: int, b: int| 0 <= a < n.deps[d].len() && 0 <= b < n.deps[d].len() && a != b
                        implies n.deps[d][a] != n.deps[d][b] by {
                        if a == u.deps[d].len() && b < u.deps[d].len() {
                            assert(u.deps[d].contains(u.deps[d][b]));
                        }
                        if b == u.deps[d].len() && a < u.deps[d].len() {
                            assert(u.deps[d].contains(u.deps[d][a]));
                        }
                    }
                }
            }
        }
    }
}

/// A store of objects with the relationship records between them.
pub struct DependencyGraph {
    live: Vec<bool>,
    links: Vec<Option<Handle>>,
    link_ids: Vec<Option<ResourceId>>,
    indexed: Vec<bool>,
    deps: Vec<Vec<Handle>>,
    index_ids: Vec<Option<ResourceId>>,
    marked: Vec<bool>,
}

impl View for DependencyGraph {
    type V = GraphModel;

    closed spec fn view(&self) -> GraphModel {
        GraphModel {
            live: self.live@,
            links: self.links@,
            link_ids: self.link_ids@,
            indexed: self.indexed@,
            deps: self.deps@.map_values(|v: Vec<Handle>| v@),
            index_ids: self.index_ids@,
            marked: self.marked@,
        }
    }
}

impl DependencyGraph {
    pub open spec fn wf(&self) -> bool {
        self@.well_formed()
    }

    proof fn lemma_lengths(&self)
        requires
            self.wf(),
        ensures
            self.live.len() == self@.len(),
            self.links.len() == self@.len(),
            self.link_ids.len() == self@.len(),
            self.indexed.len() == self@.len(),
            self.deps.len() == self@.len(),
            self.index_ids.len() == self@.len(),
            self.marked.len() == self@.len(),
            forall|i: int| 0 <= i < self@.len() ==> #[trigger] self.deps@[i]@ == self@.deps[i],
    {
    }

    /// An empty store.
    pub fn new() -> (r: Self)
        ensures
            r.wf(),
            r@.len() == 0,
    {
        let r = DependencyGraph {
            live: Vec::new(),
            links: Vec::new(),
            link_ids: Vec::new(),
            indexed: Vec::new(),
            deps: Vec::new(),
            index_ids: Vec::new(),
            marked: Vec::new(),
        };
        assert(r@.deps =~= Seq::empty());
        r
    }

    /// Creates a new object with no record and returns its handle.
    pub fn spawn(&mut self) -> (h: Handle)
        requires
            old(self).wf(),
            old(self)@.len() < u64::MAX,
        ensures
            final(self).wf(),
            h.bits == old(self)@.len(),
            final(self)@ == old(self)@.spawned(),
    {
        proof { self.lemma_lengths(); }
        let h = Handle { bits: self.live.len() as u64 };
        self.live.push(true);
        self.links.push(None);
        self.link_ids.push(None);
        self.indexed.push(false);
        self.deps.push(Vec::new());
        self.index_ids.push(None);
        self.marked.push(false);
        proof {
            let o = old(self)@;
            let s = o.spawned();
            assert(self@.deps =~= s.deps);
            assert(self@ == s);
            assert forall|i: int| 0 <= i < s.len() && #[trigger] s.links[i] is Some implies
                s.deps[s.links[i]->0.bits as int].contains(handle_at(i)) by {
                assert(o.links[i] is Some);
                assert(s.deps[s.links[i]->0.bits as int] == o.deps[o.links[i]->0.bits as int]);
            }
        }
        h
    }

    /// Whether `h` names a live object.
    pub fn is_live(&self, h: Handle) -> (r: bool)
        requires
            self.wf(),
        ensures
            r == self@.is_live(h),
    {
        proof { self.lemma_lengths(); }
        h.bits < self.live.len() as u64 && self.live[h.bits as usize]
    }
    /// Removes the relationship link of `e`, if it carries one, and takes `e`
    /// out of its target's inverse index. An index left empty stays in place.
    /// Nothing changes when `e` is not live or carries no link.
    pub fn detach(&mut self, e: Handle)
        requires
            old(self).wf(),
        ensures
            final(self).wf(),
            final(self)@ == if old(self)@.is_live(e) { old(self)@.unlinked(e) } else { old(self)@ },
    {
        proof { self.lemma_lengths(); }
        if e.bits >= self.live.len() as u64 || !self.live[e.bits as usize] {
            return;
        }
        let i = e.bits as usize;
        match self.links[i] {
            Some(t) => {
                let ti = t.bits as usize;
                let w = without_handle(&self.deps[ti], e);
                self.deps.set(ti, w);
                self.links.set(i, None);
                self.link_ids.set(i, None);
                proof {
                    let o = old(self)@;
                    assert(self@.deps =~= o.unlinked(e).deps);
                    assert(self@ == o.unlinked(e));
                    o.lemma_unlinked_wf(e);
                }
            },
            None => {},
        }
    }

    /// Links `dependent` to `target` with the resource id `id`, registering
    /// `dependent` in the inverse index of `target` (created if absent) and
    /// removing it from the index of its former target in the same step.
    /// Linking again to the same target only replaces the resource id.
    pub fn attach(&mut self, dependent: Handle, target: Handle, id: Option<ResourceId>) -> (r: Result<(), LinkError>)
        requires
            old(self).wf(),
        ensures
            final(self).wf(),
            !old(self)@.is_live(dependent) ==> r == Err::<(), LinkError>(LinkError::InvalidDependent),
            old(self)@.is_live(dependent) && !old(self)@.is_live(target) ==> r == Err::<(), LinkError>(LinkError::InvalidTarget),
            r is Ok <==> old(self)@.is_live(dependent) && old(self)@.is_live(target),
            r is Ok ==> final(self)@ == old(self)@.linked(dependent, target, id),
            r is Err ==> final(self)@ == old(self)@,
    {
        if !self.is_live(dependent) {
            return Err(LinkError::InvalidDependent);
        }
        if !self.is_live(target) {
            return Err(LinkError::InvalidTarget);
        }
        proof { self.lemma_lengths(); }
        let i = dependent.bits as usize;
        let ti = target.bits as usize;
        if let Some(t) = self.links[i] {
            if t == target {
                self.link_ids.set(i, id);
                proof {
                    let o = old(self)@;
                    assert(self@.deps =~= o.linked(dependent, target, id).deps);
                    assert(self@ == o.linked(dependent, target, id));
                    o.lemma_linked_wf(dependent, target, id);
                }
                return Ok(());
            }
        }
        self.detach(dependent);
        proof { self.lemma_lengths(); }
        let mut v = copy_handles(&self.deps[ti]);
        v.push(dependent);
        self.deps.set(ti, v);
        self.indexed.set(ti, true);
        self.links.set(i, Some(target));
        self.link_ids.set(i, id);
        proof {
            let o = old(self)@;
            assert(self@.deps =~= o.linked(dependent, target, id).deps);
            assert(self@ == o.linked(dependent, target, id));
            o.lemma_linked_wf(dependent, target, id);
        }
        Ok(())
    }
    /// Destroys the live object `x`: its own link is removed, every object
    /// linked to it loses its link, and then `x` is destroyed with its records.
    fn destroy_one(&mut self, x: Handle)
        requires
            old(self).wf(),
            old(self)@.is_live(x),
        ensures
            final(self).wf(),
            final(self)@.len() == old(self)@.len(),
            final(self)@.live == old(self)@.live.update(x.bits as int, false),
            forall|j: int| 0 <= j < old(self)@.len() && j != x.bits ==> {
                &&& #[trigger] final(self)@.indexed[j] == old(self)@.indexed[j]
                &&& final(self)@.index_ids[j] == old(self)@.index_ids[j]
                &&& final(self)@.marked[j] == old(self)@.marked[j]
                &&& final(self)@.links[j] == if old(self)@.links[j] == Some(x) { None } else { old(self)@.links[j] }
                &&& final(self)@.link_ids[j] == if old(self)@.links[j] == Some(x) { None } else { old(self)@.link_ids[j] }
                &&& final(self)@.deps[j] == if old(self)@.links[x.bits as int] == Some(handle_at(j)) {
                    without(old(self)@.deps[j], x)
                } else {
                    old(self)@.deps[j]
                }
            },
    {
        self.detach(x);
        proof { self.lemma_lengths(); }
        let xi = x.bits as usize;
        let snap = copy_handles(&self.deps[xi]);
        let ghost m = self@;
        assert(m.deps[xi as int].no_duplicates());
        let mut j: usize = 0;
        while j < snap.len()
            invariant
                self.wf(),
                self@.len() == m.len(),
                m.well_formed(),
                m.links[xi as int] is None,
                self@.live == m.live,
                self@.indexed == m.indexed,
                self@.index_ids == m.index_ids,
                self@.marked == m.marked,
                xi == x.bits,
                xi < m.len(),
                m.live[xi as int],
                snap@ == m.deps[xi as int],
                j <= snap.len(),
                self@.deps[xi as int] == snap@.subrange(j as int, snap@.len() as int),
                forall|k: int| 0 <= k < m.len() && k != xi ==> #[trigger] self@.deps[k] == m.deps[k],
                forall|k: int| 0 <= k < m.len() ==>
                    (#[trigger] self@.links[k] == m.links[k] && self@.link_ids[k] == m.link_ids[k])
                    || (m.links[k] == Some(x) && self@.links[k] is None && self@.link_ids[k] is None),
            decreases snap.len() - j,
        {
            let e = snap[j];
            proof {
                let cur = self@.deps[xi as int];
                assert(cur[0] == e);
                assert(cur.no_duplicates());
                assert(handle_at(xi as int) == x);
                lemma_without_first(cur);
                assert(cur.subrange(1, cur.len() as int) =~= snap@.subrange(j + 1, snap@.len() as int));
                assert(self@.links[e.bits as int] == Some(x));
            }
            self.detach(e);
            j = j + 1;
        }
        proof { self.lemma_lengths(); }
        self.live.set(xi, false);
        self.indexed.set(xi, false);
        self.index_ids.set(xi, None);
        self.marked.set(xi, false);
        proof {
            let g = self@;
            let o = old(self)@;
            assert(g.deps[xi as int].len() == 0);
            assert(g.deps =~= m.deps.update(xi as int, snap@.subrange(snap@.len() as int, snap@.len() as int)));
            assert forall|k: int| 0 <= k < g.len() && #[trigger] g.links[k] is Some implies {
                let t = g.links[k]->0;
                &&& t.bits < g.len()
                &&& g.indexed[t.bits as int]
                &&& g.deps[t.bits as int].contains(handle_at(k))
            } by {
                let t = g.links[k]->0;
                assert(g.links[k] == m.links[k]);
                assert(t.bits != xi) by {
                    if t.bits == xi {
                        let q = choose|q: int| 0 <= q < snap@.len() && snap@[q] == handle_at(k);
                    }
                }
            }
            assert forall|d: int, k: int| 0 <= d < g.len() && 0 <= k < g.deps[d].len() implies {
                let e = #[trigger] g.deps[d][k];
                &&& e.bits < g.len()
                &&& g.links[e.bits as int] == Some(handle_at(d))
            } by {
                let e = g.deps[d][k];
                assert(m.deps[d][k] == e);
                assert(m.links[e.bits as int] == Some(handle_at(d)));
                assert(handle_at(d) != x);
            }
            assert forall|d: int| 0 <= d < g.len() implies #[trigger] g.deps[d].no_duplicates() by {
                if d != xi {
                    assert(g.deps[d] == m.deps[d]);
                }
            }
            assert forall|i: int| 0 <= i < g.len() && !#[trigger] g.indexed[i] implies {
                &&& g.deps[i].len() == 0
                &&& g.index_ids[i] is None
            } by {
                if i != xi {
                    assert(!m.indexed[i]);
                }
            }
            assert(g.well_formed());
            assert forall|k: int| 0 <= k < o.len() && k != x.bits implies {
                &&& #[trigger] g.indexed[k] == o.indexed[k]
                &&& g.index_ids[k] == o.index_ids[k]
                &&& g.marked[k] == o.marked[k]
                &&& g.links[k] == if o.links[k] == Some(x) { None } else { o.links[k] }
                &&& g.link_ids[k] == if o.links[k] == Some(x) { None } else { o.link_ids[k] }
                &&& g.deps[k] == if o.links[x.bits as int] == Some(handle_at(k)) {
                    without(o.deps[k], x)
                } else {
                    o.deps[k]
                }
            } by {
                assert(handle_at(k) != x);
                if m.links[k] == Some(x) && g.links[k] == m.links[k] {
                    assert(m.deps[xi as int].contains(handle_at(k)));
                    let q = choose|q: int| 0 <= q < snap@.len() && snap@[q] == handle_at(k);
                }
            }
            assert(g.live =~= o.live.update(x.bits as int, false));
        }
    }

    /// Destroys `d` and, transitively, every object that depends on it,
    /// each exactly once. Returns the destroyed handles in the order of
    /// destruction; nothing happens when `d` is not live. Every other object
    /// keeps its records, but for `d` leaving the index of its own target.
    /// Links that form a cycle are followed too: an object already destroyed
    /// is skipped, so the walk ends and destroys each object once.
    pub fn despawn(&mut self, d: Handle) -> (r: Vec<Handle>)
        requires
            old(self).wf(),
        ensures
            final(self).wf(),
            final(self)@.len() == old(self)@.len(),
            r@.no_duplicates(),
            forall|h: Handle| #[trigger] r@.contains(h) <==> old(self)@.is_live(h) && old(self)@.reaches(h, d),
            forall|i: int| 0 <= i < old(self)@.len() ==>
                #[trigger] final(self)@.live[i] == (old(self)@.live[i] && !r@.contains(handle_at(i))),
            forall|i: int| 0 <= i < old(self)@.len() && #[trigger] final(self)@.live[i] ==> {
                &&& final(self)@.links[i] == old(self)@.links[i]
                &&& final(self)@.link_ids[i] == old(self)@.link_ids[i]
                &&& final(self)@.indexed[i] == old(self)@.indexed[i]
                &&& final(self)@.index_ids[i] == old(self)@.index_ids[i]
                &&& final(self)@.marked[i] == old(self)@.marked[i]
                &&& final(self)@.deps[i] == without(old(self)@.deps[i], d)
            },
            forall|i: int| 0 <= i < old(self)@.len() && #[trigger] final(self)@.live[i]
                && final(self)@.links[i] is Some ==> final(self)@.is_live(final(self)@.links[i]->0),
    {
        let mut out: Vec<Handle> = Vec::new();
        let ghost o = self@;
        if !self.is_live(d) {
            proof {
                assert forall|h: Handle| #[trigger] out@.contains(h) <==> o.is_live(h) && o.reaches(h, d) by {
                    if o.is_live(h) && o.reaches(h, d) {
                        let k = choose|k: nat| o.reaches_within(h, d, k);
                        lemma_chain_destroyed(o, o, h, d, k);
                    }
                }
                assert forall|i: int| 0 <= i < o.len() && #[trigger] o.live[i] implies
                    o.deps[i] == without(o.deps[i], d) by {
                    assert(!o.deps[i].contains(d)) by {
                        if o.deps[i].contains(d) {
                            let q = choose|q: int| 0 <= q < o.deps[i].len() && o.deps[i][q] == d;
                        }
                    }
                    lemma_without_absent(o.deps[i], d);
                }
            }
            return out;
        }
        proof { self.lemma_lengths(); }
        let mut work = copy_handles(&self.deps[d.bits as usize]);
        self.destroy_one(d);
        out.push(d);
        proof {
            let g = self@;
            assert(o.reaches_within(d, d, 0));
            assert forall|q: int| 0 <= q < work@.len() implies
                (#[trigger] work@[q]).bits < o.len() && o.reaches(work@[q], d)
                && (g.live[work@[q].bits as int] ==> g.links[work@[q].bits as int] is None) by {
                let w = work@[q];
                assert(o.links[w.bits as int] == Some(handle_at(d.bits as int)));
                assert(handle_at(d.bits as int) == d);
                assert(o.reaches_within(w, d, 1));
                if g.live[w.bits as int] {
                    assert(g.indexed[w.bits as int] == o.indexed[w.bits as int]);
                }
            }
            assert(out@[0] == d);
            assert forall|i: int| 0 <= i < o.len() && #[trigger] g.live[i] implies {
                &&& (g.links[i] == o.links[i] && g.link_ids[i] == o.link_ids[i])
                    || (g.links[i] is None && g.link_ids[i] is None && work@.contains(handle_at(i)))
                &&& g.indexed[i] == o.indexed[i]
                &&& g.index_ids[i] == o.index_ids[i]
                &&& g.marked[i] == o.marked[i]
                &&& g.deps[i] == without(o.deps[i], d)
            } by {
                assert(g.indexed[i] == o.indexed[i]);
                if o.links[d.bits as int] != Some(handle_at(i)) {
                    assert(!o.deps[i].contains(d)) by {
                        if o.deps[i].contains(d) {
                            let q = choose|q: int| 0 <= q < o.deps[i].len() && o.deps[i][q] == d;
                        }
                    }
                    lemma_without_absent(o.deps[i], d);
                }
                if o.links[i] == Some(d) {
                    assert(o.deps[d.bits as int].contains(handle_at(i)));
                }
            }
            assert forall|i: int| 0 <= i < o.len() implies
                #[trigger] g.live[i] == (o.live[i] && !out@.contains(handle_at(i))) by {
                if out@.contains(handle_at(i)) {
                    assert(out@[0] == d);
                }
                if i == d.bits {
                    assert(out@[0] == handle_at(i));
                }
            }
        }
        while work.len() > 0
            invariant
                o.well_formed(),
                self.wf(),
                self@.len() == o.len(),
                o.is_live(d),
                forall|i: int| 0 <= i < o.len() ==>
                    #[trigger] self@.live[i] == (o.live[i] && !out@.contains(handle_at(i))),
                out@.contains(d),
                out@.no_duplicates(),
                forall|q: int| 0 <= q < out@.len() ==>
                    o.is_live(#[trigger] out@[q]) && o.reaches(out@[q], d),
                forall|q: int| 0 <= q < work@.len() ==>
                    (#[trigger] work@[q]).bits < o.len() && o.reaches(work@[q], d)
                    && (self@.live[work@[q].bits as int] ==> self@.links[work@[q].bits as int] is None),
                forall|i: int| 0 <= i < o.len() && #[trigger] self@.live[i] ==> {
                    &&& (self@.links[i] == o.links[i] && self@.link_ids[i] == o.link_ids[i])
                        || (self@.links[i] is None && self@.link_ids[i] is None && work@.contains(handle_at(i)))
                    &&& self@.indexed[i] == o.indexed[i]
                    &&& self@.index_ids[i] == o.index_ids[i]
                    &&& self@.marked[i] == o.marked[i]
                    &&& self@.deps[i] == without(o.deps[i], d)
                },
            decreases live_count(self@.live), work@.len(),
        {
            let ghost w0 = work@;
            let x = work.pop().unwrap();
            assert(w0 =~= work@.push(x));
            if self.is_live(x) {
                proof { self.lemma_lengths(); }
                let ghost g0 = self@;
                let xi = x.bits as usize;
                let ds = copy_handles(&self.deps[xi]);
                let mut k: usize = 0;
                let ghost base = work@;
                while k < ds.len()
                    invariant
                        k <= ds.len(),
                        work@ == base + ds@.subrange(0, k as int),
                    decreases ds.len() - k,
                {
                    work.push(ds[k]);
                    k = k + 1;
                    assert(work@ =~= base + ds@.subrange(0, k as int));
                }
                assert(ds@.subrange(0, ds@.len() as int) =~= ds@);
                self.destroy_one(x);
                let ghost out0 = out@;
                out.push(x);
                proof {
                    let g = self@;
                    lemma_live_count_update(g0.live, xi as int);
                    assert(w0[w0.len() - 1] == x);
                    assert(o.reaches(x, d));
                    assert(handle_at(xi as int) == x);
                    assert(out@ == out0.push(x));
                    assert(!out0.contains(x)) by {
                        if out0.contains(x) {
                            assert(!g0.live[xi as int]);
                        }
                    }
                    assert(g0.links[xi as int] is None);
                    assert forall|q: int| 0 <= q < ds@.len() implies o.reaches(#[trigger] ds@[q], d) by {
                        let e = ds@[q];
                        assert(g0.links[e.bits as int] == Some(handle_at(xi as int)));
                        assert(g0.live[e.bits as int]);
                        assert(o.links[e.bits as int] == Some(x));
                        let kk = choose|kk: nat| o.reaches_within(x, d, kk);
                        assert(o.reaches_within(e, d, kk + 1));
                    }
                    assert forall|i: int| 0 <= i < o.len() implies
                        #[trigger] g.live[i] == (o.live[i] && !out@.contains(handle_at(i))) by {
                        assert(g0.live[i] == (o.live[i] && !out0.contains(handle_at(i))));
                        if i == xi {
                            assert(out@[out0.len() as int] == x);
                        } else {
                            assert(handle_at(i) != x);
                            if out@.contains(handle_at(i)) {
                                let q = choose|q: int| 0 <= q < out@.len() && out@[q] == handle_at(i);
                                assert(out0[q] == handle_at(i));
                            }
                            if out0.contains(handle_at(i)) {
                                let q = choose|q: int| 0 <= q < out0.len() && out0[q] == handle_at(i);
                                assert(out@[q] == handle_at(i));
                            }
                        }
                    }
                    assert(out@.contains(d)) by {
                        let q = choose|q: int| 0 <= q < out0.len() && out0[q] == d;
                        assert(out@[q] == d);
                    }
                    assert forall|q: int| 0 <= q < out@.len() implies
                        o.is_live(#[trigger] out@[q]) && o.reaches(out@[q], d) by {
                        if q < out0.len() {
                            assert(out0[q] == out@[q]);
                        }
                    }
                    assert forall|q: int| 0 <= q < work@.len() implies
                        (#[trigger] work@[q]).bits < o.len() && o.reaches(work@[q], d)
                        && (g.live[work@[q].bits as int] ==> g.links[work@[q].bits as int] is None) by {
                        let w = work@[q];
                        if q < base.len() {
                            assert(w0[q] == w);
                        } else {
                            assert(ds@[q - base.len()] == w);
                            assert(g0.links[w.bits as int] == Some(handle_at(xi as int)));
                        }
                        if g.live[w.bits as int] {
                            assert(g.indexed[w.bits as int] == g0.indexed[w.bits as int]);
                        }
                    }
                    assert forall|i: int| 0 <= i < o.len() && #[trigger] g.live[i] implies {
                        &&& (g.links[i] == o.links[i] && g.link_ids[i] == o.link_ids[i])
                            || (g.links[i] is None && g.link_ids[i] is None && work@.contains(handle_at(i)))
                        &&& g.indexed[i] == o.indexed[i]
                        &&& g.index_ids[i] == o.index_ids[i]
                        &&& g.marked[i] == o.marked[i]
                        &&& g.deps[i] == without(o.deps[i], d)
                    } by {
                        assert(i != xi);
                        assert(g0.live[i]);
                        assert(g.indexed[i] == g0.indexed[i]);
                        assert(g0.deps[i] == without(o.deps[i], d));
                        assert(g.deps[i] == g0.deps[i]);
                        if g0.links[i] == Some(x) {
                            assert(g0.deps[xi as int].contains(handle_at(i)));
                            let q = choose|q: int| 0 <= q < ds@.len() && ds@[q] == handle_at(i);
                            assert(work@[base.len() + q] == handle_at(i));
                        } else if !(g0.links[i] == o.links[i] && g0.link_ids[i] == o.link_ids[i]) {
                            assert(w0.contains(handle_at(i)));
                            let q = choose|q: int| 0 <= q < w0.len() && w0[q] == handle_at(i);
                            assert(handle_at(i) != x);
                            assert(q < base.len());
                            assert(work@[q] == handle_at(i));
                        }
                    }
                }
            } else {
                proof {
                    let g = self@;
                    assert forall|q: int| 0 <= q < work@.len() implies
                        (#[trigger] work@[q]).bits < o.len() && o.reaches(work@[q], d)
                        && (g.live[work@[q].bits as int] ==> g.links[work@[q].bits as int] is None) by {
                        assert(w0[q] == work@[q]);
                    }
                    assert forall|i: int| 0 <= i < o.len() && #[trigger] g.live[i] implies
                        (g.links[i] == o.links[i] && g.link_ids[i] == o.link_ids[i])
                        || (g.links[i] is None && g.link_ids[i] is None && work@.contains(handle_at(i))) by {
                        if !(g.links[i] == o.links[i] && g.link_ids[i] == o.link_ids[i]) {
                            let q = choose|q: int| 0 <= q < w0.len() && w0[q] == handle_at(i);
                            if q == work@.len() {
                                assert(handle_at(i) == x);
                                assert(handle_at(i).bits == i);
                            }
                            assert(work@[q] == handle_at(i));
                        }
                    }
                }
            }
        }
        proof {
            let g = self@;
            assert(!g.is_live(d)) by {
                assert(g.live[d.bits as int] == (o.live[d.bits as int] && !out@.contains(handle_at(d.bits as int))));
                assert(handle_at(d.bits as int) == d);
            }
            assert forall|i: int| 0 <= i < g.len() && #[trigger] g.live[i] implies g.links[i] == o.links[i] by {
                if !(g.links[i] == o.links[i] && g.link_ids[i] == o.link_ids[i]) {
                    assert(work@.contains(handle_at(i)));
                }
            }
            assert forall|h: Handle| #[trigger] out@.contains(h) <==> o.is_live(h) && o.reaches(h, d) by {
                if out@.contains(h) {
                    let q = choose|q: int| 0 <= q < out@.len() && out@[q] == h;
                }
                if o.is_live(h) && o.reaches(h, d) {
                    let k = choose|k: nat| o.reaches_within(h, d, k);
                    lemma_chain_destroyed(o, g, h, d, k);
                    assert(handle_at(h.bits as int) == h);
                    assert(g.live[h.bits as int] == (o.live[h.bits as int] && !out@.contains(handle_at(h.bits as int))));
                }
            }
        }
        out
    }
    /// Marks every object linked to `d` as changed. Objects already marked
    /// stay marked once; nothing else changes.
    pub fn notify_dependency_changed(&mut self, d: Handle)
        requires
            old(self).wf(),
        ensures
            final(self).wf(),
            final(self)@ == old(self)@.dependents_marked(d),
    {
        let ghost o = self@;
        proof { self.lemma_lengths(); }
        if !self.is_live(d) || !self.indexed[d.bits as usize] {
            proof {
                assert forall|i: int| 0 <= i < o.len() implies !(#[trigger] o.links[i] == Some(d)) by {
                    if o.links[i] == Some(d) {
                        assert(o.links[i] is Some);
                    }
                }
                assert(o.dependents_marked(d).marked =~= o.marked);
                assert(o.dependents_marked(d) == o);
            }
            return;
        }
        proof { self.lemma_lengths(); }
        let ds = copy_handles(&self.deps[d.bits as usize]);
        let mut k: usize = 0;
        while k < ds.len()
            invariant
                o.well_formed(),
                self@.len() == o.len(),
                d.bits < o.len(),
                ds@ == o.deps[d.bits as int],
                k <= ds.len(),
                self.marked.len() == o.len(),
                self@ == (GraphModel { marked: self@.marked, ..o }),
                forall|i: int| 0 <= i < o.len() ==>
                    #[trigger] self@.marked[i] == (o.marked[i] || ds@.subrange(0, k as int).contains(handle_at(i))),
            decreases ds.len() - k,
        {
            let e = ds[k];
            assert(e.bits < o.len());
            self.marked.set(e.bits as usize, true);
            k = k + 1;
            proof {
                assert forall|i: int| 0 <= i < o.len() implies
                    #[trigger] self@.marked[i] == (o.marked[i] || ds@.subrange(0, k as int).contains(handle_at(i))) by {
                    let pre = ds@.subrange(0, k - 1);
                    assert(ds@.subrange(0, k as int) =~= pre.push(e));
                    if i == e.bits {
                        assert(handle_at(i) == e);
                        assert(ds@.subrange(0, k as int)[k - 1] == e);
                    } else {
                        assert(handle_at(i) != e);
                        if pre.push(e).contains(handle_at(i)) {
                            let q = choose|q: int| 0 <= q < k && pre.push(e)[q] == handle_at(i);
                            assert(pre[q] == handle_at(i));
                        }
                        if pre.contains(handle_at(i)) {
                            let q = choose|q: int| 0 <= q < k - 1 && pre[q] == handle_at(i);
                            assert(pre.push(e)[q] == handle_at(i));
                        }
                    }
                }
            }
        }
        proof {
            let g = self@;
            assert(ds@.subrange(0, ds@.len() as int) =~= ds@);
            assert(handle_at(d.bits as int) == d);
            assert forall|i: int| 0 <= i < o.len() implies
                #[trigger] g.marked[i] == (o.marked[i] || o.links[i] == Some(d)) by {
                if ds@.contains(handle_at(i)) {
                    let q = choose|q: int| 0 <= q < ds@.len() && ds@[q] == handle_at(i);
                    assert(o.deps[d.bits as int][q] == handle_at(i));
                }
                if o.links[i] == Some(d) {
                    assert(o.links[i] is Some);
                }
            }
            assert(g.marked =~= o.dependents_marked(d).marked);
            assert forall|i: int| 0 <= i < g.len() && !#[trigger] g.live[i] implies {
                &&& g.links[i] is None
                &&& !g.indexed[i]
                &&& !g.marked[i]
            } by {
                assert(o.links[i] is None);
            }
        }
    }

    /// Propagates a change of the resource `id`: every dependent of every
    /// object whose inverse index is bound to `id` is marked as changed.
    /// Objects already marked stay marked once; nothing else changes.
    pub fn notify_changed(&mut self, id: ResourceId)
        requires
            old(self).wf(),
        ensures
            final(self).wf(),
            final(self)@ == old(self)@.notified(id),
    {
        let ghost o = self@;
        proof { self.lemma_lengths(); }
        let n = self.live.len();
        let mut j: usize = 0;
        while j < n
            invariant
                o.well_formed(),
                self.wf(),
                n == o.len(),
                j <= n,
                self@ == (GraphModel { marked: self@.marked, ..o }),
                self@.marked.len() == o.len(),
                forall|i: int| 0 <= i < o.len() ==>
                    #[trigger] self@.marked[i] == (o.marked[i] || (o.affected_by(i, id) && o.links[i]->0.bits < j)),
            decreases n - j,
        {
            proof { self.lemma_lengths(); }
            let ghost g0 = self@;
            if self.indexed[j] && self.index_ids[j] == Some(id) {
                self.notify_dependency_changed(Handle { bits: j as u64 });
                proof {
                    assert forall|i: int| 0 <= i < o.len() implies
                        #[trigger] self@.marked[i] == (o.marked[i] || (o.affected_by(i, id) && o.links[i]->0.bits < j + 1)) by {
                        assert(g0.marked[i] == (o.marked[i] || (o.affected_by(i, id) && o.links[i]->0.bits < j)));
                        if o.links[i] == Some(Handle { bits: j as u64 }) {
                            assert(o.links[i] is Some);
                        }
                    }
                }
            } else {
                proof {
                    assert forall|i: int| 0 <= i < o.len() implies
                        #[trigger] self@.marked[i] == (o.marked[i] || (o.affected_by(i, id) && o.links[i]->0.bits < j + 1)) by {
                        if o.links[i] is Some && o.links[i]->0.bits == j {
                            assert(o.indexed[j as int]);
                            if o.index_ids[j as int] == Some(id) {
                                assert(self.index_ids@[j as int] == Some(id));
                            }
                        }
                    }
                }
            }
            j = j + 1;
        }
        proof {
            assert(self@.marked =~= o.notified(id).marked);
        }
    }

    /// Whether `h` carries a change marker.
    pub fn has_marker(&self, h: Handle) -> (r: bool)
        requires
            self.wf(),
        ensures
            r == (self@.is_live(h) && self@.marked[h.bits as int]),
    {
        proof { self.lemma_lengths(); }
        self.is_live(h) && self.marked[h.bits as usize]
    }

    /// Removes the change marker of `h`, if it carries one.
    pub fn clear_marker(&mut self, h: Handle)
        requires
            old(self).wf(),
        ensures
            final(self).wf(),
            final(self)@ == if old(self)@.is_live(h) {
                GraphModel { marked: old(self)@.marked.update(h.bits as int, false), ..old(self)@ }
            } else {
                old(self)@
            },
    {
        proof { self.lemma_lengths(); }
        if self.is_live(h) {
            self.marked.set(h.bits as usize, false);
            proof {
                let o = old(self)@;
                assert(self@.deps =~= o.deps);
            }
        }
    }

    /// The dependents listed in the inverse index of `d`, in registration
    /// order, or `None` when `d` is not live or carries no inverse index.
    pub fn dependents_of(&self, d: Handle) -> (r: Option<Vec<Handle>>)
        requires
            self.wf(),
        ensures
            r is Some <==> self@.is_live(d) && self@.indexed[d.bits as int],
            r is Some ==> r->0@ == self@.deps[d.bits as int],
    {
        proof { self.lemma_lengths(); }
        if self.is_live(d) && self.indexed[d.bits as usize] {
            Some(copy_handles(&self.deps[d.bits as usize]))
        } else {
            None
        }
    }

    /// The target of the relationship link of `e`, or `None` when `e` is not
    /// live or carries no link.
    pub fn link_of(&self, e: Handle) -> (r: Option<Handle>)
        requires
            self.wf(),
        ensures
            r == if self@.is_live(e) { self@.links[e.bits as int] } else { None },
    {
        proof { self.lemma_lengths(); }
        if self.is_live(e) {
            self.links[e.bits as usize]
        } else {
            None
        }
    }

    /// The resource id of the relationship link of `e`, or `None` when `e` is
    /// not live or its link names none.
    pub fn link_id_of(&self, e: Handle) -> (r: Option<ResourceId>)
        requires
            self.wf(),
        ensures
            r == if self@.is_live(e) { self@.link_ids[e.bits as int] } else { None },
    {
        proof { self.lemma_lengths(); }
        if self.is_live(e) {
            self.link_ids[e.bits as usize]
        } else {
            None
        }
    }

    /// The resource id that the inverse index of `d` is bound to, or `None`
    /// when `d` is not live or its index is bound to none.
    pub fn index_id_of(&self, d: Handle) -> (r: Option<ResourceId>)
        requires
            self.wf(),
        ensures
            r == if self@.is_live(d) { self@.index_ids[d.bits as int] } else { None },
    {
        proof { self.lemma_lengths(); }
        if self.is_live(d) {
            self.index_ids[d.bits as usize]
        } else {
            None
        }
    }
    /// Creates a new object carrying an empty inverse index bound to `id`.
    pub fn spawn_asset_dependency(&mut self, id: ResourceId) -> (h: Handle)
        requires
            old(self).wf(),
            old(self)@.len() < u64::MAX,
        ensures
            final(self).wf(),
            h.bits == old(self)@.len(),
            final(self)@ == old(self)@.spawned_dependency(id),
    {
        let h = self.spawn();
        self.insert_asset_dependency(h, id);
        h
    }

    /// Binds the inverse index of the live object `d` to `id`, creating the
    /// index empty if `d` carries none.
    pub fn insert_asset_dependency(&mut self, d: Handle, id: ResourceId) -> (r: Result<(), LinkError>)
        requires
            old(self).wf(),
        ensures
            final(self).wf(),
            r is Ok <==> old(self)@.is_live(d),
            r is Err ==> r == Err::<(), LinkError>(LinkError::InvalidTarget) && final(self)@ == old(self)@,
            r is Ok ==> final(self)@ == old(self)@.bound(d, id),
    {
        if !self.is_live(d) {
            return Err(LinkError::InvalidTarget);
        }
        proof { self.lemma_lengths(); }
        self.indexed.set(d.bits as usize, true);
        self.index_ids.set(d.bits as usize, Some(id));
        proof {
            let o = old(self)@;
            let g = self@;
            assert(g.deps =~= o.deps);
            assert(g == o.bound(d, id));
            assert forall|i: int| 0 <= i < g.len() && #[trigger] g.links[i] is Some implies {
                let t = g.links[i]->0;
                &&& t.bits < g.len()
                &&& g.indexed[t.bits as int]
                &&& g.deps[t.bits as int].contains(handle_at(i))
            } by {
                assert(o.links[i] is Some);
            }
        }
        Ok(())
    }

    /// Creates a new object linked to `dependency` with the resource id `id`,
    /// and registers it in the inverse index of `dependency`.
    pub fn with_dependent_asset(&mut self, dependency: Handle, id: ResourceId) -> (r: Result<Handle, LinkError>)
        requires
            old(self).wf(),
            old(self)@.len() < u64::MAX,
        ensures
            final(self).wf(),
            r is Ok <==> old(self)@.is_live(dependency),
            r is Err ==> r == Err::<Handle, LinkError>(LinkError::InvalidTarget) && final(self)@ == old(self)@,
            r is Ok ==> r->Ok_0.bits == old(self)@.len()
                && final(self)@ == old(self)@.spawned().linked(r->Ok_0, dependency, Some(id)),
    {
        if !self.is_live(dependency) {
            return Err(LinkError::InvalidTarget);
        }
        let h = self.spawn();
        let res = self.attach(h, dependency, Some(id));
        assert(res is Ok);
        Ok(h)
    }
    /// The relationship link carried by `e`, if `e` is live and carries one.
    pub fn get_dependent(&self, e: Handle) -> (r: Option<Dependent>)
        requires
            self.wf(),
        ensures
            r is Some <==> self@.is_live(e) && self@.links[e.bits as int] is Some,
            r is Some ==> Some(r->0.dependency) == self@.links[e.bits as int],
    {
        match self.link_of(e) {
            Some(t) => Some(Dependent { dependency: t }),
            None => None,
        }
    }

    /// The relationship link carried by `e` with its resource id, if `e` is
    /// live and carries a link bound to a resource id.
    pub fn get_asset_dependent(&self, e: Handle) -> (r: Option<AssetDependent>)
        requires
            self.wf(),
        ensures
            r is Some <==> self@.is_live(e) && self@.link_ids[e.bits as int] is Some,
            r is Some ==> Some(r->0.spec_dependency()) == self@.links[e.bits as int]
                && Some(r->0.spec_asset_id()) == self@.link_ids[e.bits as int],
    {
        proof { self.lemma_lengths(); }
        match (self.link_of(e), self.link_id_of(e)) {
            (Some(t), Some(id)) => Some(AssetDependent::new(t, id)),
            _ => None,
        }
    }

    /// A copy of the inverse index carried by `d`, if `d` is live and carries one.
    pub fn get_dependency(&self, d: Handle) -> (r: Option<Dependency>)
        requires
            self.wf(),
        ensures
            r is Some <==> self@.is_live(d) && self@.indexed[d.bits as int],
            r is Some ==> r->0@ == self@.deps[d.bits as int],
    {
        match self.dependents_of(d) {
            Some(v) => Some(Dependency::from_handles(v)),
            None => None,
        }
    }

    /// A copy of the inverse index carried by `d` with its resource id, if
    /// `d` is live and carries an index bound to a resource id.
    pub fn get_asset_dependency(&self, d: Handle) -> (r: Option<AssetDependency>)
        requires
            self.wf(),
        ensures
            r is Some <==> self@.is_live(d) && self@.index_ids[d.bits as int] is Some,
            r is Some ==> r->0@ == self@.deps[d.bits as int]
                && Some(r->0.spec_asset_id()) == self@.index_ids[d.bits as int],
    {
        proof { self.lemma_lengths(); }
        match (self.dependents_of(d), self.index_id_of(d)) {
            (Some(v), Some(id)) => Some(AssetDependency::from_parts(v, id)),
            _ => None,
        }
    }

    /// The change marker carried by `h`, if `h` is live and carries one.
    pub fn get_marker(&self, h: Handle) -> (r: Option<AssetDependencyChanged>)
        requires
            self.wf(),
        ensures
            r is Some <==> self@.is_live(h) && self@.marked[h.bits as int],
    {
        if self.has_marker(h) {
            Some(AssetDependencyChanged)
        } else {
            None
        }
    }
}

} // verus!

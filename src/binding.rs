use vstd::prelude::*;
use crate::diff::{apply_op, apply_ops, DiffOp, WorldDiff};
use crate::feed::{
    ids_of, is_changed, is_despawned, is_removed, lists_exactly, matches_query, values_match, ArchetypeFilter,
    Class, QueryState, seen_of, next_seen,
};
use crate::store::{ComponentIndex, ECSError, EntityId, StoreModel, World, NULL_ENTITY};

verus! {

/// Which matching entities a first-match binding accepts.
#[derive(Clone, Copy, Debug, PartialEq, Eq, Structural)]
pub enum Selector {
    Any,
    Only(EntityId),
}

/// What a tick did to a binding.
#[derive(Clone, Copy, Debug, PartialEq, Eq, Structural)]
pub enum BindingEvent {
    Idle,
    Updated,
    Cleared,
}

pub open spec fn selected(sel: Selector, e: EntityId) -> bool {
    match sel {
        Selector::Any => true,
        Selector::Only(x) => e == x,
    }
}

/// Tracks the component on the first entity (lowest id) that matches the filter and the
/// selector; when that entity stops matching it clears, and finds a new one on a later tick.
#[derive(Clone, Debug)]
pub struct FirstMatchBinding {
    pub component: ComponentIndex,
    pub filter: ArchetypeFilter,
    pub selector: Selector,
    /// The tracked entity, or the null id.
    pub entity: EntityId,
    /// The content version of the last delivered value.
    pub version: u64,
    pub value: Option<u64>,
}

pub open spec fn candidate(m: StoreModel, b: FirstMatchBinding, e: EntityId) -> bool {
    matches_query(m, b.component, b.filter, e) && selected(b.selector, e)
}

pub open spec fn is_first(m: StoreModel, b: FirstMatchBinding, e: EntityId) -> bool {
    candidate(m, b, e) && forall|x: EntityId| 1 <= x < e ==> !#[trigger] candidate(m, b, x)
}

pub open spec fn same_config(b: FirstMatchBinding, n: FirstMatchBinding) -> bool {
    n.component == b.component && n.filter == b.filter && n.selector == b.selector
}

/// Tracks `e`, holding its current value.
pub open spec fn holds_current(m: StoreModel, n: FirstMatchBinding, e: EntityId) -> bool {
    n.entity == e && n.version == m.version(e, n.component) && n.value == m.value(e, n.component)
}

pub open spec fn is_empty(n: FirstMatchBinding) -> bool {
    n.entity == NULL_ENTITY && n.version == 0 && n.value is None
}

/// One tick of a first-match binding `b` on a store `m`, giving `n` and event `ev`.
pub open spec fn ticked(b: FirstMatchBinding, m: StoreModel, n: FirstMatchBinding, ev: BindingEvent) -> bool {
    &&& same_config(b, n)
    &&& if b.entity != NULL_ENTITY {
        if !candidate(m, b, b.entity) {
            is_empty(n) && ev == BindingEvent::Cleared
        } else if m.version(b.entity, b.component) != b.version {
            holds_current(m, n, b.entity) && ev == BindingEvent::Updated
        } else {
            n == b && ev == BindingEvent::Idle
        }
    } else if exists|e: EntityId| #[trigger] candidate(m, b, e) {
        is_first(m, b, n.entity) && holds_current(m, n, n.entity) && ev == BindingEvent::Updated
    } else {
        n == b && ev == BindingEvent::Idle
    }
}

/// The operations a setter sends: a set for `Some`, a removal for `None`.
pub open spec fn setter_ops(e: EntityId, c: ComponentIndex, value: Option<u64>) -> Seq<DiffOp> {
    match value {
        Some(v) => seq![DiffOp::SetComponent { entity: e, component: c, value: v }],
        None => seq![DiffOp::RemoveComponent { entity: e, component: c }],
    }
}

/// The diff that sets (`Some`) or removes (`None`) component `c` of entity `e`.
pub fn setter_diff(e: EntityId, c: ComponentIndex, value: Option<u64>) -> (d: WorldDiff)
    ensures
        d.ops@ == setter_ops(e, c, value),
{
    let d = WorldDiff::new();
    match value {
        Some(v) => {
            let d = d.set(e, c, v);
            assert(d.ops@ =~= setter_ops(e, c, value));
            d
        },
        None => {
            let d = d.remove_component(e, c);
            assert(d.ops@ =~= setter_ops(e, c, value));
            d
        },
    }
}


/// A binding that tracks an entity after a tick hands its setter's diff to the authority;
/// once that diff comes back and is applied, the next tick surfaces the value that was
/// set, and a removal clears the binding to empty.
pub proof fn law_setter_round_trip(
    b0: FirstMatchBinding,
    m: StoreModel,
    b1: FirstMatchBinding,
    ev1: BindingEvent,
    value: Option<u64>,
    b2: FirstMatchBinding,
    ev2: BindingEvent,
)
    requires
        ticked(b0, m, b1, ev1),
        b1.entity != NULL_ENTITY,
        m.version(b1.entity, b1.component) < u64::MAX,
        ticked(b1, apply_ops(m, setter_ops(b1.entity, b1.component, value)), b2, ev2),
    ensures
        b2.value == value,
        value is Some ==> b2.entity == b1.entity && ev2 == BindingEvent::Updated,
        value is None ==> is_empty(b2) && ev2 == BindingEvent::Cleared,
{
    let e = b1.entity;
    let c = b1.component;
    let ops = setter_ops(e, c, value);
    assert(ops.drop_last() =~= Seq::<DiffOp>::empty());
    assert(apply_ops(m, Seq::<DiffOp>::empty()) == m);
    let m2 = apply_ops(m, ops);
    assert(m2 == apply_op(m, ops.last()));
    assert(candidate(m, b1, e));
    assert(b1.version == m.version(e, c));
    match value {
        Some(v) => {
            assert(m2 == m.with_set(e, c, v));
            assert forall|k: int| 0 <= k < b1.filter.incl@.len() implies m2.has(e, #[trigger] b1.filter.incl@[k]) by {
                assert(m.has(e, b1.filter.incl@[k]));
            }
            assert forall|k: int| 0 <= k < b1.filter.excl@.len() implies !m2.has(e, #[trigger] b1.filter.excl@[k]) by {
                assert(!m.has(e, b1.filter.excl@[k]));
            }
            assert(candidate(m2, b1, e));
        },
        None => {
            assert(m2 == m.with_removed(e, c));
            assert(!m2.has(e, c));
        },
    }
}

/// With two matching entities A and B, a binding on A that sees A despawn becomes empty on
/// that tick, and on the next tick binds B (B being the first entity that still matches).
pub proof fn law_reacquire(
    m0: StoreModel,
    a: EntityId,
    b: EntityId,
    b0: FirstMatchBinding,
    b1: FirstMatchBinding,
    ev1: BindingEvent,
    b2: FirstMatchBinding,
    ev2: BindingEvent,
)
    requires
        !m0.alive.contains(NULL_ENTITY),
        a != NULL_ENTITY,
        candidate(m0, b0, a),
        candidate(m0, b0, b),
        b0.entity == a,
        is_first(m0.despawned(a), b0, b),
        ticked(b0, m0.despawned(a), b1, ev1),
        ticked(b1, m0.despawned(a), b2, ev2),
    ensures
        is_empty(b1),
        ev1 == BindingEvent::Cleared,
        b2.entity == b,
        b2.value == m0.value(b, b0.component),
        b2.value is Some,
        ev2 == BindingEvent::Updated,
{
    let m = m0.despawned(a);
    assert(!candidate(m, b0, a));
    assert(candidate(m, b1, b));
    assert(candidate(m, b1, b2.entity) == candidate(m, b0, b2.entity));
    assert(b2.entity != NULL_ENTITY);
    if b2.entity != b {
        if b2.entity < b {
            assert(!candidate(m, b0, b2.entity));
        } else {
            assert(!candidate(m, b1, b));
        }
    }
}

impl FirstMatchBinding {
    /// An empty binding.
    pub fn new(component: ComponentIndex, filter: ArchetypeFilter, selector: Selector) -> (b: FirstMatchBinding)
        ensures
            b.component == component,
            b.filter == filter,
            b.selector == selector,
            is_empty(b),
    {
        FirstMatchBinding { component, filter, selector, entity: NULL_ENTITY, version: 0, value: None }
    }

    /// A shared resource that persists: the first entity tagged `tag`.
    pub fn persisted_resource(component: ComponentIndex, tag: ComponentIndex) -> (b: FirstMatchBinding)
        ensures
            b.component == component,
            b.filter.incl@ == seq![tag],
            b.filter.excl@.len() == 0,
            b.selector == Selector::Any,
            is_empty(b),
    {
        let f = ArchetypeFilter::new().incl(tag);
        assert(f.incl@ =~= seq![tag]);
        FirstMatchBinding::new(component, f, Selector::Any)
    }

    /// A shared resource of the session: the first entity tagged `tag`.
    pub fn synced_resource(component: ComponentIndex, tag: ComponentIndex) -> (b: FirstMatchBinding)
        ensures
            b.component == component,
            b.filter.incl@ == seq![tag],
            b.filter.excl@.len() == 0,
            b.selector == Selector::Any,
            is_empty(b),
    {
        let f = ArchetypeFilter::new().incl(tag);
        assert(f.incl@ =~= seq![tag]);
        FirstMatchBinding::new(component, f, Selector::Any)
    }

    /// A resource of this connection: the component on its own resource entity.
    pub fn resource(component: ComponentIndex, resource_entity: EntityId) -> (b: FirstMatchBinding)
        ensures
            b.component == component,
            b.filter.incl@.len() == 0,
            b.filter.excl@.len() == 0,
            b.selector == Selector::Only(resource_entity),
            is_empty(b),
    {
        FirstMatchBinding::new(component, ArchetypeFilter::new(), Selector::Only(resource_entity))
    }

    fn is_candidate(&self, world: &World, e: EntityId) -> (r: bool)
        requires
            world.wf(),
        ensures
            r == candidate(world@, *self, e),
    {
        let sel = match self.selector {
            Selector::Any => true,
            Selector::Only(x) => e == x,
        };
        sel && world.has_component(e, self.component) && self.filter.passes(world, e)
    }

    fn find_first(&self, world: &World) -> (r: Option<EntityId>)
        requires
            world.wf(),
        ensures
            match r {
                Some(e) => is_first(world@, *self, e),
                None => forall|e: EntityId| !#[trigger] candidate(world@, *self, e),
            },
    {
        let n = world.issued();
        let mut i: usize = 0;
        while i < n
            invariant
                world.wf(),
                n == world@.issued,
                i <= n,
                forall|x: EntityId| 1 <= x <= i ==> !#[trigger] candidate(world@, *self, x),
            decreases n - i,
        {
            let e: EntityId = (i + 1) as u64;
            if self.is_candidate(world, e) {
                return Some(e);
            }
            i = i + 1;
        }
        proof {
            world.lemma_wf_facts();
        }
        None
    }

    /// Runs one tick against `world`.
    pub fn tick(&mut self, world: &World) -> (ev: BindingEvent)
        requires
            world.wf(),
        ensures
            ticked(*old(self), world@, *final(self), ev),
    {
        let c = self.component;
        if self.entity != NULL_ENTITY {
            let e = self.entity;
            if !self.is_candidate(world, e) {
                self.entity = NULL_ENTITY;
                self.version = 0;
                self.value = None;
                return BindingEvent::Cleared;
            }
            let ver = world.set_count(e, c);
            if ver != self.version {
                self.version = ver;
                self.value = world.get(e, c).ok();
                return BindingEvent::Updated;
            }
            BindingEvent::Idle
        } else {
            match self.find_first(world) {
                Some(e) => {
                    self.entity = e;
                    self.version = world.set_count(e, c);
                    self.value = world.get(e, c).ok();
                    BindingEvent::Updated
                },
                None => BindingEvent::Idle,
            }
        }
    }

    /// The diff that the setter hands to the session: it targets the tracked entity.
    pub fn setter(&self, value: Option<u64>) -> (d: WorldDiff)
        ensures
            d.ops@ == setter_ops(self.entity, self.component, value),
    {
        setter_diff(self.entity, self.component, value)
    }
}


/// The value a multi-entity binding holds for `e` after a tick: the new value of a changed
/// entity, nothing for a removed or despawned one, else what it held.
pub open spec fn next_value(
    m: StoreModel,
    seen: Seq<u64>,
    c: ComponentIndex,
    f: ArchetypeFilter,
    held: Option<u64>,
    e: EntityId,
) -> Option<u64> {
    if is_changed(m, seen, c, f, e) {
        m.value(e, c)
    } else if is_removed(m, seen, c, e) || is_despawned(m, seen, e) {
        None
    } else {
        held
    }
}

/// Whether a poll reports `e` in any of its three classes.
pub open spec fn reported(m: StoreModel, seen: Seq<u64>, c: ComponentIndex, f: ArchetypeFilter, e: EntityId) -> bool {
    is_changed(m, seen, c, f, e) || is_removed(m, seen, c, e) || is_despawned(m, seen, e)
}

/// Holds the component of every entity that matches the filter, kept up to date from the
/// change feed: changed entities are upserted, removed and despawned ones dropped.
pub struct ComponentsBinding {
    pub component: ComponentIndex,
    pub filter: ArchetypeFilter,
    pub cursor: QueryState,
    /// The value held for entity `e` stands at `e - 1`.
    pub slots: Vec<Option<u64>>,
}

impl ComponentsBinding {
    /// The value held for `e`.
    pub open spec fn held(&self, e: EntityId) -> Option<u64> {
        if 1 <= e <= self.slots@.len() {
            self.slots@[e - 1]
        } else {
            None
        }
    }

    pub open spec fn seen(&self) -> Seq<u64> {
        self.cursor@
    }

    pub fn new(component: ComponentIndex, filter: ArchetypeFilter) -> (b: ComponentsBinding)
        ensures
            b.component == component,
            b.filter == filter,
            b.seen() == Seq::<u64>::empty(),
            forall|e: EntityId| #[trigger] b.held(e) is None,
    {
        ComponentsBinding { component, filter, cursor: QueryState::new(), slots: Vec::new() }
    }

    /// The value held for `e`.
    pub fn get(&self, e: EntityId) -> (r: Option<u64>)
        ensures
            r == self.held(e),
    {
        if 1 <= e && e <= self.slots.len() as u64 {
            self.slots[(e - 1) as usize]
        } else {
            None
        }
    }

    /// Polls `world` and applies what it reports; true when anything was reported.
    pub fn tick(&mut self, world: &World) -> (any: bool)
        requires
            world.wf(),
        ensures
            final(self).component == old(self).component,
            final(self).filter == old(self).filter,
            forall|e: EntityId| #[trigger] final(self).held(e) == next_value(world@, old(self).seen(), old(self).component, old(self).filter, old(self).held(e), e),
            forall|e: EntityId| #[trigger] seen_of(final(self).seen(), e) == next_seen(world@, old(self).seen(), old(self).component, old(self).filter, e),
            any == exists|e: EntityId| #[trigger] reported(world@, old(self).seen(), old(self).component, old(self).filter, e),
    {
        let ghost m = world@;
        let ghost s0 = self.cursor@;
        let ghost c = self.component;
        let ghost f = self.filter;
        let ghost h0 = *self;
        let r = self.cursor.poll(world, self.component, &self.filter);
        let ghost q1 = self.cursor@;
        proof {
            world.lemma_wf_facts();
        }
        let issued = world.issued();
        while self.slots.len() < issued
            invariant
                self.component == c,
                self.filter == f,
                self.cursor@ == q1,
                forall|e: EntityId| #[trigger] self.held(e) == h0.held(e),
            decreases issued - self.slots@.len(),
        {
            let ghost before = *self;
            self.slots.push(None);
            assert forall|e: EntityId| #[trigger] self.held(e) == before.held(e) by {
                if 1 <= e <= before.slots@.len() {
                    assert(self.slots@[e - 1] == before.slots@[e - 1]);
                }
            }
        }
        let len = self.slots.len();
        let mut k: usize = 0;
        while k < r.changed.len()
            invariant
                self.component == c,
                self.filter == f,
                self.cursor@ == q1,
                world.wf(),
                m == world@,
                self.slots@.len() == len,
                len >= m.issued,
                lists_exactly(ids_of(r.changed@), m, s0, c, f, Class::Changed),
                values_match(r.changed@, m, c),
                forall|e: EntityId| #[trigger] m.alive.contains(e) ==> 1 <= e <= m.issued,
                forall|j: int| 0 <= j < k ==> self.held(#[trigger] r.changed@[j].0) == Some(r.changed@[j].1),
                forall|e: EntityId| !#[trigger] is_changed(m, s0, c, f, e) ==> self.held(e) == h0.held(e),
            decreases r.changed@.len() - k,
        {
            let (e, v) = r.changed[k];
            let ghost before = *self;
            proof {
                assert(ids_of(r.changed@)[k as int] == e);
                assert(crate::feed::in_class(m, s0, c, f, Class::Changed, e));
                assert forall|j: int| 0 <= j < k implies #[trigger] r.changed@[j].0 != e by {
                    assert(ids_of(r.changed@)[j] < ids_of(r.changed@)[k as int]);
                }
            }
            self.slots[(e - 1) as usize] = Some(v);
            proof {
                assert forall|x: EntityId| x != e implies #[trigger] self.held(x) == before.held(x) by {
                    if 1 <= x <= len {
                        assert(self.slots@[x - 1] == before.slots@[x - 1]);
                    }
                }
            }
            k = k + 1;
        }
        proof {
            assert forall|e: EntityId| #[trigger] self.held(e) == (if is_changed(m, s0, c, f, e) { m.value(e, c) } else { h0.held(e) }) by {
                if is_changed(m, s0, c, f, e) {
                    assert(crate::feed::in_class(m, s0, c, f, Class::Changed, e));
                    assert(ids_of(r.changed@).contains(e));
                    let j = choose|j: int| 0 <= j < ids_of(r.changed@).len() && ids_of(r.changed@)[j] == e;
                    assert(r.changed@[j].0 == e);
                }
            }
        }
        let ghost h1 = *self;
        let mut k2: usize = 0;
        while k2 < r.removed.len()
            invariant
                self.component == c,
                self.filter == f,
                self.cursor@ == q1,
                self.slots@.len() == len,
                lists_exactly(r.removed@, m, s0, c, f, Class::Removed),
                forall|j: int| 0 <= j < k2 ==> self.held(#[trigger] r.removed@[j]) is None,
                forall|e: EntityId| !#[trigger] is_removed(m, s0, c, e) ==> self.held(e) == h1.held(e),
            decreases r.removed@.len() - k2,
        {
            let e = r.removed[k2];
            let ghost before = *self;
            proof {
                assert(crate::feed::in_class(m, s0, c, f, Class::Removed, e));
            }
            if 1 <= e && e <= len as u64 {
                self.slots[(e - 1) as usize] = None;
            }
            proof {
                assert forall|x: EntityId| x != e implies #[trigger] self.held(x) == before.held(x) by {
                    if 1 <= x <= len {
                        assert(self.slots@[x - 1] == before.slots@[x - 1]);
                    }
                }
            }
            k2 = k2 + 1;
        }
        proof {
            assert forall|e: EntityId| #[trigger] self.held(e) == (if is_removed(m, s0, c, e) { None } else { h1.held(e) }) by {
                if is_removed(m, s0, c, e) {
                    assert(crate::feed::in_class(m, s0, c, f, Class::Removed, e));
                    assert(r.removed@.contains(e));
                }
            }
        }
        let ghost h2 = *self;
        let mut k3: usize = 0;
        while k3 < r.despawned.len()
            invariant
                self.component == c,
                self.filter == f,
                self.cursor@ == q1,
                self.slots@.len() == len,
                lists_exactly(r.despawned@, m, s0, c, f, Class::Despawned),
                forall|j: int| 0 <= j < k3 ==> self.held(#[trigger] r.despawned@[j]) is None,
                forall|e: EntityId| !#[trigger] is_despawned(m, s0, e) ==> self.held(e) == h2.held(e),
            decreases r.despawned@.len() - k3,
        {
            let e = r.despawned[k3];
            let ghost before = *self;
            proof {
                assert(crate::feed::in_class(m, s0, c, f, Class::Despawned, e));
            }
            if 1 <= e && e <= len as u64 {
                self.slots[(e - 1) as usize] = None;
            }
            proof {
                assert forall|x: EntityId| x != e implies #[trigger] self.held(x) == before.held(x) by {
                    if 1 <= x <= len {
                        assert(self.slots@[x - 1] == before.slots@[x - 1]);
                    }
                }
            }
            k3 = k3 + 1;
        }
        proof {
            assert forall|e: EntityId| #[trigger] self.held(e) == next_value(m, s0, c, f, h0.held(e), e) by {
                if is_despawned(m, s0, e) {
                    assert(crate::feed::in_class(m, s0, c, f, Class::Despawned, e));
                    assert(r.despawned@.contains(e));
                }
                assert(h2.held(e) == (if is_removed(m, s0, c, e) { None } else { h1.held(e) }));
                assert(h1.held(e) == (if is_changed(m, s0, c, f, e) { m.value(e, c) } else { h0.held(e) }));
            }
        }
        let any = r.changed.len() > 0 || r.removed.len() > 0 || r.despawned.len() > 0;
        proof {
            if r.changed@.len() > 0 {
                assert(crate::feed::in_class(m, s0, c, f, Class::Changed, ids_of(r.changed@)[0]));
                assert(reported(m, s0, c, f, ids_of(r.changed@)[0]));
            }
            if r.removed@.len() > 0 {
                assert(crate::feed::in_class(m, s0, c, f, Class::Removed, r.removed@[0]));
                assert(reported(m, s0, c, f, r.removed@[0]));
            }
            if r.despawned@.len() > 0 {
                assert(crate::feed::in_class(m, s0, c, f, Class::Despawned, r.despawned@[0]));
                assert(reported(m, s0, c, f, r.despawned@[0]));
            }
            if exists|e: EntityId| #[trigger] reported(m, s0, c, f, e) {
                let e = choose|e: EntityId| #[trigger] reported(m, s0, c, f, e);
                if is_changed(m, s0, c, f, e) {
                    assert(crate::feed::in_class(m, s0, c, f, Class::Changed, e));
                    assert(ids_of(r.changed@).contains(e));
                } else if is_removed(m, s0, c, e) {
                    assert(crate::feed::in_class(m, s0, c, f, Class::Removed, e));
                    assert(r.removed@.contains(e));
                } else {
                    assert(is_despawned(m, s0, e));
                    assert(crate::feed::in_class(m, s0, c, f, Class::Despawned, e));
                    assert(r.despawned@.contains(e));
                }
            }
        }
        any
    }

    /// The held entries in increasing order of entity id.
    pub fn values(&self) -> (r: Vec<(EntityId, u64)>)
        ensures
            forall|k: int| 0 <= k < r@.len() ==> self.held((#[trigger] r@[k]).0) == Some(r@[k].1),
            forall|k1: int, k2: int| 0 <= k1 < k2 < r@.len() ==> (#[trigger] r@[k1]).0 < (#[trigger] r@[k2]).0,
            forall|e: EntityId| #[trigger] self.held(e) is Some ==> ids_of(r@).contains(e),
    {
        let mut r: Vec<(EntityId, u64)> = Vec::new();
        let mut i: usize = 0;
        while i < self.slots.len()
            invariant
                i <= self.slots@.len(),
                forall|k: int| 0 <= k < r@.len() ==> 1 <= (#[trigger] r@[k]).0 <= i && self.held(r@[k].0) == Some(r@[k].1),
                forall|k1: int, k2: int| 0 <= k1 < k2 < r@.len() ==> (#[trigger] r@[k1]).0 < (#[trigger] r@[k2]).0,
                forall|e: EntityId| 1 <= e <= i && #[trigger] self.held(e) is Some ==> ids_of(r@).contains(e),
            decreases self.slots@.len() - i,
        {
            let e: EntityId = (i + 1) as u64;
            let ghost before = r@;
            match self.slots[i] {
                Some(v) => {
                    r.push((e, v));
                },
                None => {},
            }
            proof {
                assert forall|x: EntityId| 1 <= x <= i + 1 && #[trigger] self.held(x) is Some implies ids_of(r@).contains(x) by {
                    if x <= i {
                        let k = choose|k: int| 0 <= k < ids_of(before).len() && ids_of(before)[k] == x;
                        assert(ids_of(r@)[k] == x);
                    } else {
                        assert(ids_of(r@)[r@.len() - 1] == x);
                    }
                }
            }
            i = i + 1;
        }
        r
    }
}


/// `e` is a changed player entity whose user id is `me`, and no later one is.
pub open spec fn is_last_claim(
    m: StoreModel,
    seen: Seq<u64>,
    c: ComponentIndex,
    f: ArchetypeFilter,
    me: u64,
    e: EntityId,
) -> bool {
    &&& is_changed(m, seen, c, f, e) && m.value(e, c) == Some(me)
    &&& forall|x: EntityId| x > e && #[trigger] is_changed(m, seen, c, f, x) ==> m.value(x, c) != Some(me)
}

/// Finds the entity of this connection's player: among entities tagged as players whose
/// user id component changed, the one whose user id is ours.
pub struct PlayerIdBinding {
    pub user_id_component: ComponentIndex,
    pub filter: ArchetypeFilter,
    pub my_user_id: u64,
    pub cursor: QueryState,
    pub player: Option<EntityId>,
}

impl PlayerIdBinding {
    pub fn new(user_id_component: ComponentIndex, player_tag: ComponentIndex, my_user_id: u64) -> (b: PlayerIdBinding)
        ensures
            b.user_id_component == user_id_component,
            b.filter.incl@ == seq![player_tag],
            b.filter.excl@.len() == 0,
            b.my_user_id == my_user_id,
            b.cursor@ == Seq::<u64>::empty(),
            b.player is None,
    {
        let filter = ArchetypeFilter::new().incl(player_tag);
        assert(filter.incl@ =~= seq![player_tag]);
        PlayerIdBinding { user_id_component, filter, my_user_id, cursor: QueryState::new(), player: None }
    }

    /// Polls `world`; a changed player entity with our user id becomes the player (the
    /// highest id, when several are reported at once).
    pub fn tick(&mut self, world: &World)
        requires
            world.wf(),
        ensures
            final(self).user_id_component == old(self).user_id_component,
            final(self).filter == old(self).filter,
            final(self).my_user_id == old(self).my_user_id,
            forall|e: EntityId| #[trigger] seen_of(final(self).cursor@, e) == next_seen(world@, old(self).cursor@, old(self).user_id_component, old(self).filter, e),
            match final(self).player {
                Some(e) => is_last_claim(world@, old(self).cursor@, old(self).user_id_component, old(self).filter, old(self).my_user_id, e)
                    || (final(self).player == old(self).player && forall|x: EntityId| !#[trigger] is_last_claim(world@, old(self).cursor@, old(self).user_id_component, old(self).filter, old(self).my_user_id, x)),
                None => old(self).player is None && forall|x: EntityId| !#[trigger] is_last_claim(world@, old(self).cursor@, old(self).user_id_component, old(self).filter, old(self).my_user_id, x),
            },
            (exists|x: EntityId| #[trigger] is_last_claim(world@, old(self).cursor@, old(self).user_id_component, old(self).filter, old(self).my_user_id, x))
                ==> final(self).player is Some && is_last_claim(world@, old(self).cursor@, old(self).user_id_component, old(self).filter, old(self).my_user_id, final(self).player->0),
    {
        let ghost m = world@;
        let ghost s0 = self.cursor@;
        let ghost c = self.user_id_component;
        let ghost f = self.filter;
        let ghost me = self.my_user_id;
        let ghost p0 = self.player;
        let r = self.cursor.poll(world, self.user_id_component, &self.filter);
        let ghost q1 = self.cursor@;
        let mut k: usize = r.changed.len();
        while k > 0
            invariant
                self.user_id_component == c,
                self.filter == f,
                c == old(self).user_id_component,
                f == old(self).filter,
                me == old(self).my_user_id,
                m == world@,
                s0 == old(self).cursor@,
                forall|e: EntityId| #[trigger] seen_of(q1, e) == next_seen(m, s0, c, f, e),
                self.cursor@ == q1,
                self.player == p0,
                k <= r.changed@.len(),
                lists_exactly(ids_of(r.changed@), m, s0, c, f, Class::Changed),
                values_match(r.changed@, m, c),
                me == self.my_user_id,
                forall|j: int| k <= j < r.changed@.len() ==> (#[trigger] r.changed@[j]).1 != me,
            decreases k,
        {
            let (e, v) = r.changed[k - 1];
            if v == self.my_user_id {
                self.player = Some(e);
                proof {
                    assert(ids_of(r.changed@)[k - 1] == e);
                    assert(crate::feed::in_class(m, s0, c, f, Class::Changed, e));
                    assert forall|x: EntityId| x > e && #[trigger] is_changed(m, s0, c, f, x) implies m.value(x, c) != Some(me) by {
                        assert(crate::feed::in_class(m, s0, c, f, Class::Changed, x));
                        assert(ids_of(r.changed@).contains(x));
                        let j = choose|j: int| 0 <= j < ids_of(r.changed@).len() && ids_of(r.changed@)[j] == x;
                        if j < k - 1 {
                            assert(ids_of(r.changed@)[j] < ids_of(r.changed@)[k - 1]);
                        }
                        if j == k - 1 {
                            assert(ids_of(r.changed@)[j] == e);
                        }
                        assert(r.changed@[j].1 != me);
                    }
                    assert(is_last_claim(m, s0, c, f, me, e));
                }
                return;
            }
            k = k - 1;
        }
        proof {
            assert forall|x: EntityId| !#[trigger] is_last_claim(m, s0, c, f, me, x) by {
                if is_last_claim(m, s0, c, f, me, x) {
                    assert(crate::feed::in_class(m, s0, c, f, Class::Changed, x));
                    assert(ids_of(r.changed@).contains(x));
                    let j = choose|j: int| 0 <= j < ids_of(r.changed@).len() && ids_of(r.changed@)[j] == x;
                    assert(r.changed@[j].0 == x);
                }
            }
        }
    }
}

/// Follows one component of the player's entity; it starts from the default value.
pub struct PlayerComponentBinding {
    pub component: ComponentIndex,
    pub filter: ArchetypeFilter,
    pub cursor: QueryState,
    pub value: u64,
}

impl PlayerComponentBinding {
    pub fn new(component: ComponentIndex) -> (b: PlayerComponentBinding)
        ensures
            b.component == component,
            b.filter.incl@.len() == 0,
            b.filter.excl@.len() == 0,
            b.cursor@ == Seq::<u64>::empty(),
            b.value == 0,
    {
        PlayerComponentBinding { component, filter: ArchetypeFilter::new(), cursor: QueryState::new(), value: 0 }
    }

    /// Polls `world`; a change on the player's entity becomes the value.
    pub fn tick(&mut self, world: &World, player: Option<EntityId>)
        requires
            world.wf(),
        ensures
            final(self).component == old(self).component,
            final(self).filter == old(self).filter,
            forall|e: EntityId| #[trigger] seen_of(final(self).cursor@, e) == next_seen(world@, old(self).cursor@, old(self).component, old(self).filter, e),
            player is Some && is_changed(world@, old(self).cursor@, old(self).component, old(self).filter, player->0)
                ==> world@.value(player->0, old(self).component) == Some(final(self).value),
            !(player is Some && is_changed(world@, old(self).cursor@, old(self).component, old(self).filter, player->0))
                ==> final(self).value == old(self).value,
    {
        let ghost m = world@;
        let ghost s0 = self.cursor@;
        let ghost c = self.component;
        let ghost f = self.filter;
        let ghost v0 = self.value;
        let r = self.cursor.poll(world, self.component, &self.filter);
        let ghost q1 = self.cursor@;
        if let Some(p) = player {
            let mut k: usize = 0;
            while k < r.changed.len()
                invariant
                    self.component == c,
                    self.filter == f,
                    c == old(self).component,
                    f == old(self).filter,
                    m == world@,
                    s0 == old(self).cursor@,
                    forall|e: EntityId| #[trigger] seen_of(q1, e) == next_seen(m, s0, c, f, e),
                    self.cursor@ == q1,
                    self.value == v0,
                    player == Some(p),
                    k <= r.changed@.len(),
                    lists_exactly(ids_of(r.changed@), m, s0, c, f, Class::Changed),
                    values_match(r.changed@, m, c),
                    forall|j: int| 0 <= j < k ==> (#[trigger] r.changed@[j]).0 != p,
                decreases r.changed@.len() - k,
            {
                let (e, v) = r.changed[k];
                if e == p {
                    self.value = v;
                    proof {
                        assert(ids_of(r.changed@)[k as int] == e);
                        assert(crate::feed::in_class(m, s0, c, f, Class::Changed, e));
                        assert(m.value(e, c) == Some(v));
                    }
                    return;
                }
                k = k + 1;
            }
            proof {
                if is_changed(m, s0, c, f, p) {
                    assert(crate::feed::in_class(m, s0, c, f, Class::Changed, p));
                    assert(ids_of(r.changed@).contains(p));
                    let j = choose|j: int| 0 <= j < ids_of(r.changed@).len() && ids_of(r.changed@)[j] == p;
                    assert(r.changed@[j].0 == p);
                }
            }
        }
    }

    /// The diff that sets the player's component; none while the player is unknown.
    pub fn setter(&self, player: Option<EntityId>, value: u64) -> (d: Option<WorldDiff>)
        ensures
            match player {
                Some(p) => d is Some && d->0.ops@ == setter_ops(p, self.component, Some(value)),
                None => d is None,
            },
    {
        match player {
            Some(p) => Some(setter_diff(p, self.component, Some(value))),
            None => None,
        }
    }
}

/// Follows one component of one entity, as the entity's content version moves.
#[derive(Clone, Copy, Debug)]
pub struct ComponentBinding {
    pub entity: EntityId,
    pub component: ComponentIndex,
    pub version: Option<u64>,
    pub value: Result<u64, ECSError>,
}

impl ComponentBinding {
    /// Starts with the current state of the component.
    pub fn new(world: &World, entity: EntityId, component: ComponentIndex) -> (b: ComponentBinding)
        requires
            world.wf(),
        ensures
            b.entity == entity,
            b.component == component,
            b.version == world@.content_version(entity, component),
            b.value == world.get_spec(entity, component),
    {
        ComponentBinding {
            entity,
            component,
            version: world.content_version(entity, component),
            value: world.get_ref(entity, component),
        }
    }

    /// Reads the component again when its content version moved; true when it did.
    pub fn tick(&mut self, world: &World) -> (changed: bool)
        requires
            world.wf(),
        ensures
            final(self).entity == old(self).entity,
            final(self).component == old(self).component,
            final(self).version == world@.content_version(old(self).entity, old(self).component),
            changed == (old(self).version != final(self).version),
            changed ==> final(self).value == world.get_spec(old(self).entity, old(self).component),
            !changed ==> final(self).value == old(self).value,
    {
        let v = world.content_version(self.entity, self.component);
        if v != self.version {
            self.version = v;
            self.value = world.get_ref(self.entity, self.component);
            true
        } else {
            false
        }
    }
}

} // verus!

use vstd::prelude::*;
use crate::diff::{apply_op, apply_ops, DiffOp};
use crate::store::{ComponentIndex, EntityId, StoreModel, World};

verus! {

/// Which components an entity must carry (`incl`) and must not carry (`excl`).
#[derive(Clone, Debug)]
pub struct ArchetypeFilter {
    pub incl: Vec<ComponentIndex>,
    pub excl: Vec<ComponentIndex>,
}

pub open spec fn passes(m: StoreModel, f: ArchetypeFilter, e: EntityId) -> bool {
    &&& forall|k: int| 0 <= k < f.incl@.len() ==> m.has(e, #[trigger] f.incl@[k])
    &&& forall|k: int| 0 <= k < f.excl@.len() ==> !m.has(e, #[trigger] f.excl@[k])
}

/// The entity carries the queried component and passes the filter.
pub open spec fn matches_query(m: StoreModel, c: ComponentIndex, f: ArchetypeFilter, e: EntityId) -> bool {
    m.has(e, c) && passes(m, f, e)
}

/// The version a cursor recorded for `e`; 0 when it has none.
pub open spec fn seen_of(seen: Seq<u64>, e: EntityId) -> u64 {
    if 1 <= e <= seen.len() {
        seen[e - 1]
    } else {
        0
    }
}

pub open spec fn is_changed(m: StoreModel, seen: Seq<u64>, c: ComponentIndex, f: ArchetypeFilter, e: EntityId) -> bool {
    matches_query(m, c, f, e) && seen_of(seen, e) != m.version(e, c)
}

pub open spec fn is_removed(m: StoreModel, seen: Seq<u64>, c: ComponentIndex, e: EntityId) -> bool {
    seen_of(seen, e) != 0 && m.alive.contains(e) && !m.has(e, c)
}

pub open spec fn is_despawned(m: StoreModel, seen: Seq<u64>, e: EntityId) -> bool {
    seen_of(seen, e) != 0 && !m.alive.contains(e)
}

/// What the cursor records for `e` after a poll.
pub open spec fn next_seen(m: StoreModel, seen: Seq<u64>, c: ComponentIndex, f: ArchetypeFilter, e: EntityId) -> u64 {
    if is_changed(m, seen, c, f, e) {
        m.version(e, c)
    } else if is_removed(m, seen, c, e) || is_despawned(m, seen, e) {
        0
    } else {
        seen_of(seen, e)
    }
}

/// The number of entities a poll walks: every spawned id and every id the cursor knows.
pub open spec fn poll_bound(m: StoreModel, seen: Seq<u64>) -> nat {
    if m.issued >= seen.len() {
        m.issued
    } else {
        seen.len()
    }
}

/// The three classes of a poll report.
#[derive(Clone, Copy, Debug, PartialEq, Eq, Structural)]
pub enum Class {
    Changed,
    Removed,
    Despawned,
}

pub open spec fn in_class(
    m: StoreModel,
    seen: Seq<u64>,
    c: ComponentIndex,
    f: ArchetypeFilter,
    class: Class,
    e: EntityId,
) -> bool {
    match class {
        Class::Changed => is_changed(m, seen, c, f, e),
        Class::Removed => is_removed(m, seen, c, e),
        Class::Despawned => is_despawned(m, seen, e),
    }
}

/// Entity ids in increasing order: those up to `n` of the class, and no others.
pub open spec fn lists_upto(
    ids: Seq<EntityId>,
    m: StoreModel,
    seen: Seq<u64>,
    c: ComponentIndex,
    f: ArchetypeFilter,
    class: Class,
    n: nat,
) -> bool {
    &&& forall|k: int| 0 <= k < ids.len() ==> 1 <= #[trigger] ids[k] <= n && in_class(m, seen, c, f, class, ids[k])
    &&& forall|k1: int, k2: int| 0 <= k1 < k2 < ids.len() ==> #[trigger] ids[k1] < #[trigger] ids[k2]
    &&& forall|e: EntityId| 1 <= e <= n && #[trigger] in_class(m, seen, c, f, class, e) ==> ids.contains(e)
}

/// Entity ids in increasing order: exactly those of the class.
pub open spec fn lists_exactly(
    ids: Seq<EntityId>,
    m: StoreModel,
    seen: Seq<u64>,
    c: ComponentIndex,
    f: ArchetypeFilter,
    class: Class,
) -> bool {
    &&& forall|k: int| 0 <= k < ids.len() ==> #[trigger] in_class(m, seen, c, f, class, ids[k])
    &&& forall|k1: int, k2: int| 0 <= k1 < k2 < ids.len() ==> #[trigger] ids[k1] < #[trigger] ids[k2]
    &&& forall|e: EntityId| #[trigger] in_class(m, seen, c, f, class, e) ==> ids.contains(e)
}

/// The values that go with the listed changed entities.
pub open spec fn values_match(s: Seq<(EntityId, u64)>, m: StoreModel, c: ComponentIndex) -> bool {
    forall|k: int| 0 <= k < s.len() ==> m.value((#[trigger] s[k]).0, c) == Some(s[k].1)
}


/// A second poll with no mutation since the first reports no entity as changed: every
/// change was recorded by the first poll.
pub proof fn law_no_double_report(
    m: StoreModel,
    seen: Seq<u64>,
    next: Seq<u64>,
    c: ComponentIndex,
    f: ArchetypeFilter,
    changed_again: Seq<EntityId>,
)
    requires
        forall|e: EntityId| #[trigger] seen_of(next, e) == next_seen(m, seen, c, f, e),
        lists_exactly(changed_again, m, next, c, f, Class::Changed),
    ensures
        forall|e: EntityId| !#[trigger] is_changed(m, next, c, f, e),
        changed_again.len() == 0,
{
    assert forall|e: EntityId| !#[trigger] is_changed(m, next, c, f, e) by {
        assert(seen_of(next, e) == next_seen(m, seen, c, f, e));
    }
    if changed_again.len() > 0 {
        assert(in_class(m, next, c, f, Class::Changed, changed_again[0]));
    }
}

/// The three classes are disjoint; and an entity that was delivered before, then
/// changed in any way and despawned before the next poll, is reported as despawned only.
pub proof fn law_despawn_precedence(
    m: StoreModel,
    ops: Seq<DiffOp>,
    seen: Seq<u64>,
    c: ComponentIndex,
    f: ArchetypeFilter,
    e: EntityId,
)
    requires
        seen_of(seen, e) != 0,
    ensures
        forall|x: EntityId, m2: StoreModel| !(#[trigger] is_changed(m2, seen, c, f, x) && is_despawned(m2, seen, x)),
        forall|x: EntityId, m2: StoreModel| !(#[trigger] is_removed(m2, seen, c, x) && is_despawned(m2, seen, x)),
        forall|x: EntityId, m2: StoreModel| !(#[trigger] is_changed(m2, seen, c, f, x) && is_removed(m2, seen, c, x)),
        is_despawned(apply_op(apply_ops(m, ops), DiffOp::Despawn { entity: e }), seen, e),
        !is_changed(apply_op(apply_ops(m, ops), DiffOp::Despawn { entity: e }), seen, c, f, e),
        !is_removed(apply_op(apply_ops(m, ops), DiffOp::Despawn { entity: e }), seen, c, e),
{
}

/// A cursor: per entity, the last content version that was delivered as changed.
pub struct QueryState {
    seen: Vec<u64>,
}

/// What one poll reports; the three lists are disjoint.
pub struct PollResult {
    pub changed: Vec<(EntityId, u64)>,
    pub removed: Vec<EntityId>,
    pub despawned: Vec<EntityId>,
}

pub open spec fn ids_of(s: Seq<(EntityId, u64)>) -> Seq<EntityId> {
    s.map_values(|p: (EntityId, u64)| p.0)
}

impl ArchetypeFilter {
    pub fn new() -> (f: ArchetypeFilter)
        ensures
            f.incl@ == Seq::<ComponentIndex>::empty(),
            f.excl@ == Seq::<ComponentIndex>::empty(),
    {
        ArchetypeFilter { incl: Vec::new(), excl: Vec::new() }
    }

    pub fn incl(self, c: ComponentIndex) -> (f: ArchetypeFilter)
        ensures
            f.incl@ == self.incl@.push(c),
            f.excl@ == self.excl@,
    {
        let mut incl = self.incl;
        incl.push(c);
        ArchetypeFilter { incl, excl: self.excl }
    }

    pub fn excl(self, c: ComponentIndex) -> (f: ArchetypeFilter)
        ensures
            f.incl@ == self.incl@,
            f.excl@ == self.excl@.push(c),
    {
        let mut excl = self.excl;
        excl.push(c);
        ArchetypeFilter { incl: self.incl, excl }
    }

    /// Whether `e` passes the filter in `world`.
    pub fn passes(&self, world: &World, e: EntityId) -> (r: bool)
        requires
            world.wf(),
        ensures
            r == passes(world@, *self, e),
    {
        let mut i: usize = 0;
        while i < self.incl.len()
            invariant
                world.wf(),
                i <= self.incl@.len(),
                forall|k: int| 0 <= k < i ==> world@.has(e, #[trigger] self.incl@[k]),
            decreases self.incl@.len() - i,
        {
            if !world.has_component(e, self.incl[i]) {
                return false;
            }
            i = i + 1;
        }
        let mut j: usize = 0;
        while j < self.excl.len()
            invariant
                world.wf(),
                j <= self.excl@.len(),
                forall|k: int| 0 <= k < self.incl@.len() ==> world@.has(e, #[trigger] self.incl@[k]),
                forall|k: int| 0 <= k < j ==> !world@.has(e, #[trigger] self.excl@[k]),
            decreases self.excl@.len() - j,
        {
            if world.has_component(e, self.excl[j]) {
                return false;
            }
            j = j + 1;
        }
        true
    }
}

impl QueryState {
    pub closed spec fn view(&self) -> Seq<u64> {
        self.seen@
    }

    pub fn new() -> (q: QueryState)
        ensures
            q@ == Seq::<u64>::empty(),
    {
        QueryState { seen: Vec::new() }
    }

    /// Reports what changed in `world` since this cursor's previous poll, and moves the
    /// cursor on: changed entities record their version, removed and despawned ones are
    /// forgotten.
    pub fn poll(&mut self, world: &World, c: ComponentIndex, filter: &ArchetypeFilter) -> (r: PollResult)
        requires
            world.wf(),
        ensures
            forall|e: EntityId| #[trigger] seen_of(final(self)@, e) == next_seen(world@, old(self)@, c, *filter, e),
            lists_exactly(ids_of(r.changed@), world@, old(self)@, c, *filter, Class::Changed),
            values_match(r.changed@, world@, c),
            lists_exactly(r.removed@, world@, old(self)@, c, *filter, Class::Removed),
            lists_exactly(r.despawned@, world@, old(self)@, c, *filter, Class::Despawned),
    {
        let ghost m = world@;
        let ghost s0 = self@;
        let ghost f = *filter;
        let issued = world.issued();
        let n: usize = if issued >= self.seen.len() { issued } else { self.seen.len() };
        let mut seen: Vec<u64> = Vec::new();
        let mut changed: Vec<(EntityId, u64)> = Vec::new();
        let mut removed: Vec<EntityId> = Vec::new();
        let mut despawned: Vec<EntityId> = Vec::new();
        let mut i: usize = 0;
        while i < n
            invariant
                world.wf(),
                m == world@,
                s0 == self@,
                f == *filter,
                n == poll_bound(m, s0),
                i <= n,
                seen@.len() == i,
                forall|j: int| 0 <= j < i ==> #[trigger] seen@[j] == next_seen(m, s0, c, f, (j + 1) as u64),
                lists_upto(ids_of(changed@), m, s0, c, f, Class::Changed, i as nat),
                values_match(changed@, m, c),
                lists_upto(removed@, m, s0, c, f, Class::Removed, i as nat),
                lists_upto(despawned@, m, s0, c, f, Class::Despawned, i as nat),
            decreases n - i,
        {
            let e: EntityId = (i + 1) as u64;
            let s = if i < self.seen.len() { self.seen[i] } else { 0 };
            assert(s == seen_of(s0, e));
            let ghost old_changed = ids_of(changed@);
            let ghost old_removed = removed@;
            let ghost old_despawned = despawned@;
            if !world.is_alive(e) {
                if s != 0 {
                    despawned.push(e);
                }
                seen.push(0);
            } else {
                match world.content_version(e, c) {
                    None => {
                        if s != 0 {
                            removed.push(e);
                        }
                        seen.push(0);
                    },
                    Some(ver) => {
                        if s != ver && filter.passes(world, e) {
                            let v = match world.get(e, c) {
                                Ok(v) => v,
                                Err(_) => 0,
                            };
                            changed.push((e, v));
                            seen.push(ver);
                        } else {
                            seen.push(s);
                        }
                    },
                }
            }
            proof {
                assert(ids_of(changed@) == old_changed || ids_of(changed@) =~= old_changed.push(e));
                assert forall|x: EntityId| 1 <= x <= i + 1 && in_class(m, s0, c, f, Class::Changed, x) implies ids_of(changed@).contains(x) by {
                    if x <= i {
                        assert(old_changed.contains(x));
                        let k = choose|k: int| 0 <= k < old_changed.len() && old_changed[k] == x;
                        assert(ids_of(changed@)[k] == x);
                    } else {
                        assert(ids_of(changed@)[ids_of(changed@).len() - 1] == x);
                    }
                }
                assert forall|x: EntityId| 1 <= x <= i + 1 && in_class(m, s0, c, f, Class::Removed, x) implies removed@.contains(x) by {
                    if x <= i {
                        let k = choose|k: int| 0 <= k < old_removed.len() && old_removed[k] == x;
                        assert(removed@[k] == x);
                    } else {
                        assert(removed@[removed@.len() - 1] == x);
                    }
                }
                assert forall|x: EntityId| 1 <= x <= i + 1 && in_class(m, s0, c, f, Class::Despawned, x) implies despawned@.contains(x) by {
                    if x <= i {
                        let k = choose|k: int| 0 <= k < old_despawned.len() && old_despawned[k] == x;
                        assert(despawned@[k] == x);
                    } else {
                        assert(despawned@[despawned@.len() - 1] == x);
                    }
                }
            }
            i = i + 1;
        }
        self.seen = seen;
        proof {
            world.lemma_wf_facts();
            assert forall|e: EntityId| #[trigger] seen_of(self@, e) == next_seen(m, s0, c, f, e) by {
                if 1 <= e <= n {
                    assert(self@[e - 1] == next_seen(m, s0, c, f, ((e - 1) + 1) as u64));
                }
            }
            assert forall|e: EntityId| #[trigger] in_class(m, s0, c, f, Class::Changed, e) implies ids_of(changed@).contains(e) by {
                assert(1 <= e <= n);
            }
            assert forall|e: EntityId| #[trigger] in_class(m, s0, c, f, Class::Removed, e) implies removed@.contains(e) by {
                assert(1 <= e <= n);
            }
            assert forall|e: EntityId| #[trigger] in_class(m, s0, c, f, Class::Despawned, e) implies despawned@.contains(e) by {
                assert(1 <= e <= n);
            }
        }
        PollResult { changed, removed, despawned }
    }

    /// The version recorded for `e` (0 when none).
    pub fn last_seen(&self, e: EntityId) -> (r: u64)
        ensures
            r == seen_of(self@, e),
    {
        if 1 <= e && e <= self.seen.len() as u64 {
            self.seen[(e - 1) as usize]
        } else {
            0
        }
    }
}

} // verus!

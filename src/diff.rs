use vstd::prelude::*;
use crate::store::{ComponentIndex, EntityId, StoreModel, World};

verus! {

/// One operation of a diff.
#[derive(Clone, Copy, Debug, PartialEq, Eq, Structural)]
pub enum DiffOp {
    /// Spawns the next entity; ids are handed out in order, so a mirror that applies
    /// the authority's diffs in arrival order gives the same ids.
    Spawn,
    SetComponent { entity: EntityId, component: ComponentIndex, value: u64 },
    RemoveComponent { entity: EntityId, component: ComponentIndex },
    Despawn { entity: EntityId },
}

/// An ordered batch of operations, applied as a unit.
#[derive(Clone, Debug)]
pub struct WorldDiff {
    pub ops: Vec<DiffOp>,
}

/// What one operation does; an operation that cannot be carried out is skipped.
pub open spec fn apply_op(m: StoreModel, op: DiffOp) -> StoreModel {
    match op {
        DiffOp::Spawn => if m.issued < usize::MAX {
            m.spawned()
        } else {
            m
        },
        DiffOp::SetComponent { entity, component, value } => if m.can_set(entity, component) {
            m.with_set(entity, component, value)
        } else {
            m
        },
        DiffOp::RemoveComponent { entity, component } => if m.alive.contains(entity) {
            m.with_removed(entity, component)
        } else {
            m
        },
        DiffOp::Despawn { entity } => m.despawned(entity),
    }
}

/// The operations applied one after the other, first to last.
pub open spec fn apply_ops(m: StoreModel, ops: Seq<DiffOp>) -> StoreModel
    decreases ops.len(),
{
    if ops.len() == 0 {
        m
    } else {
        apply_op(apply_ops(m, ops.drop_last()), ops.last())
    }
}


pub open spec fn count_spawns(ops: Seq<DiffOp>) -> nat
    decreases ops.len(),
{
    if ops.len() == 0 {
        0
    } else {
        count_spawns(ops.drop_last()) + if ops.last() is Spawn {
            1nat
        } else {
            0nat
        }
    }
}

pub open spec fn is_set_of(op: DiffOp, e: EntityId, c: ComponentIndex) -> bool {
    match op {
        DiffOp::SetComponent { entity, component, value } => entity == e && component == c,
        _ => false,
    }
}

/// How many operations set the pair.
pub open spec fn count_sets(ops: Seq<DiffOp>, e: EntityId, c: ComponentIndex) -> nat
    decreases ops.len(),
{
    if ops.len() == 0 {
        0
    } else {
        count_sets(ops.drop_last(), e, c) + if is_set_of(ops.last(), e, c) {
            1nat
        } else {
            0nat
        }
    }
}

/// The value of the last operation that sets the pair.
pub open spec fn last_set(ops: Seq<DiffOp>, e: EntityId, c: ComponentIndex) -> Option<u64>
    decreases ops.len(),
{
    if ops.len() == 0 {
        None
    } else {
        match ops.last() {
            DiffOp::SetComponent { entity, component, value } if entity == e && component == c => Some(value),
            _ => last_set(ops.drop_last(), e, c),
        }
    }
}

pub open spec fn spawns_and_sets_only(ops: Seq<DiffOp>) -> bool {
    forall|k: int| 0 <= k < ops.len() ==> #[trigger] ops[k] is Spawn || ops[k] is SetComponent
}

/// Every set targets an entity that an earlier operation spawned.
pub open spec fn sets_target_spawned(ops: Seq<DiffOp>) -> bool
    decreases ops.len(),
{
    if ops.len() == 0 {
        true
    } else {
        sets_target_spawned(ops.drop_last()) && match ops.last() {
            DiffOp::SetComponent { entity, component, value } => 1 <= entity <= count_spawns(ops.drop_last()),
            _ => true,
        }
    }
}

spec fn built_from_sets(m: StoreModel, ops: Seq<DiffOp>) -> bool {
    &&& m.issued == count_spawns(ops)
    &&& count_spawns(ops) <= ops.len()
    &&& forall|e: EntityId| #[trigger] m.alive.contains(e) <==> 1 <= e <= m.issued
    &&& forall|e: EntityId, c: ComponentIndex| #[trigger] count_sets(ops, e, c) <= ops.len()
    &&& forall|e: EntityId, c: ComponentIndex| #[trigger] m.versions.contains_key((e, c)) == (count_sets(ops, e, c) > 0)
    &&& forall|e: EntityId, c: ComponentIndex| #[trigger] m.values.contains_key((e, c)) == (count_sets(ops, e, c) > 0)
    &&& forall|e: EntityId, c: ComponentIndex| #[trigger] last_set(ops, e, c) is Some == (count_sets(ops, e, c) > 0)
    &&& forall|e: EntityId, c: ComponentIndex| count_sets(ops, e, c) > 0 ==> 1 <= e <= m.issued
        && m.versions[(e, c)] == #[trigger] count_sets(ops, e, c)
        && Some(m.values[(e, c)]) == last_set(ops, e, c)
}

proof fn lemma_built_from_sets(ops: Seq<DiffOp>)
    requires
        spawns_and_sets_only(ops),
        sets_target_spawned(ops),
        ops.len() < usize::MAX,
    ensures
        built_from_sets(apply_ops(StoreModel::empty(), ops), ops),
    decreases ops.len(),
{
    let m0 = StoreModel::empty();
    if ops.len() == 0 {
        return;
    }
    let p = ops.drop_last();
    let op = ops.last();
    assert(spawns_and_sets_only(p)) by {
        assert forall|k: int| 0 <= k < p.len() implies #[trigger] p[k] is Spawn || p[k] is SetComponent by {
            assert(p[k] == ops[k]);
        }
    }
    lemma_built_from_sets(p);
    let mp = apply_ops(m0, p);
    let m = apply_ops(m0, ops);
    assert(m == apply_op(mp, op));
    assert(op == ops[ops.len() - 1]);
    match op {
        DiffOp::Spawn => {
            assert(m == mp.spawned());
            assert forall|e: EntityId, c: ComponentIndex| #[trigger] count_sets(ops, e, c) == count_sets(p, e, c)
                && last_set(ops, e, c) == last_set(p, e, c) by {}
        },
        DiffOp::SetComponent { entity, component, value } => {
            assert(mp.can_set(entity, component));
            assert(m == mp.with_set(entity, component, value));
            assert forall|e: EntityId, c: ComponentIndex| (e, c) != (entity, component) implies #[trigger] count_sets(ops, e, c) == count_sets(p, e, c)
                && last_set(ops, e, c) == last_set(p, e, c) by {}
            assert(count_sets(ops, entity, component) == count_sets(p, entity, component) + 1);
            assert(last_set(ops, entity, component) == Some(value));
        },
        _ => {
            assert(ops[ops.len() - 1] is Spawn || ops[ops.len() - 1] is SetComponent);
        },
    }
}

/// Applied to an empty store, a sequence of spawns and sets (each set on an entity
/// already spawned) leaves on every pair the value of its last set, and a version
/// equal to the number of sets of that pair.
pub proof fn law_last_set_wins(ops: Seq<DiffOp>)
    requires
        spawns_and_sets_only(ops),
        sets_target_spawned(ops),
        ops.len() < usize::MAX,
    ensures
        forall|e: EntityId, c: ComponentIndex| #[trigger] apply_ops(StoreModel::empty(), ops).value(e, c) == last_set(ops, e, c),
        forall|e: EntityId, c: ComponentIndex| #[trigger] apply_ops(StoreModel::empty(), ops).version(e, c) == count_sets(ops, e, c),
{
    lemma_built_from_sets(ops);
    let m = apply_ops(StoreModel::empty(), ops);
    assert forall|e: EntityId, c: ComponentIndex| #[trigger] m.value(e, c) == last_set(ops, e, c) by {
        if count_sets(ops, e, c) > 0 {
            assert(m.alive.contains(e));
        }
    }
    assert forall|e: EntityId, c: ComponentIndex| #[trigger] m.version(e, c) == count_sets(ops, e, c) by {
        if count_sets(ops, e, c) > 0 {
            assert(m.versions[(e, c)] == count_sets(ops, e, c));
        }
    }
}

impl WorldDiff {
    pub fn new() -> (d: WorldDiff)
        ensures
            d.ops@ == Seq::<DiffOp>::empty(),
    {
        WorldDiff { ops: Vec::new() }
    }

    pub fn spawn(self) -> (d: WorldDiff)
        ensures
            d.ops@ == self.ops@.push(DiffOp::Spawn),
    {
        let mut ops = self.ops;
        ops.push(DiffOp::Spawn);
        WorldDiff { ops }
    }

    pub fn set(self, entity: EntityId, component: ComponentIndex, value: u64) -> (d: WorldDiff)
        ensures
            d.ops@ == self.ops@.push(DiffOp::SetComponent { entity, component, value }),
    {
        let mut ops = self.ops;
        ops.push(DiffOp::SetComponent { entity, component, value });
        WorldDiff { ops }
    }

    pub fn remove_component(self, entity: EntityId, component: ComponentIndex) -> (d: WorldDiff)
        ensures
            d.ops@ == self.ops@.push(DiffOp::RemoveComponent { entity, component }),
    {
        let mut ops = self.ops;
        ops.push(DiffOp::RemoveComponent { entity, component });
        WorldDiff { ops }
    }

    pub fn despawn(self, entity: EntityId) -> (d: WorldDiff)
        ensures
            d.ops@ == self.ops@.push(DiffOp::Despawn { entity }),
    {
        let mut ops = self.ops;
        ops.push(DiffOp::Despawn { entity });
        WorldDiff { ops }
    }
}

impl World {
    /// Applies one operation, skipping it when it cannot be carried out.
    pub fn apply_op(&mut self, op: DiffOp)
        requires
            old(self).wf(),
        ensures
            final(self).wf(),
            final(self)@ == apply_op(old(self)@, op),
    {
        match op {
            DiffOp::Spawn => {
                if self.issued() < usize::MAX {
                    let _ = self.spawn_empty();
                }
            },
            DiffOp::SetComponent { entity, component, value } => {
                if self.is_alive(entity) && self.set_count(entity, component) < u64::MAX {
                    let _ = self.set(entity, component, value);
                }
            },
            DiffOp::RemoveComponent { entity, component } => {
                let _ = self.remove_component(entity, component);
            },
            DiffOp::Despawn { entity } => {
                let _ = self.despawn(entity);
            },
        }
    }

    /// Applies the operations of `diff` in order.
    pub fn apply_diff(&mut self, diff: &WorldDiff)
        requires
            old(self).wf(),
        ensures
            final(self).wf(),
            final(self)@ == apply_ops(old(self)@, diff.ops@),
    {
        let mut i: usize = 0;
        while i < diff.ops.len()
            invariant
                self.wf(),
                i <= diff.ops@.len(),
                self@ == apply_ops(old(self)@, diff.ops@.take(i as int)),
            decreases diff.ops@.len() - i,
        {
            self.apply_op(diff.ops[i]);
            proof {
                assert(diff.ops@.take(i as int + 1).drop_last() =~= diff.ops@.take(i as int));
            }
            i = i + 1;
        }
        assert(diff.ops@.take(diff.ops@.len() as int) =~= diff.ops@);
    }
}

} // verus!

use vstd::prelude::*;

verus! {

/// Entities are numbered from 1 in the order they are spawned; 0 is the null id.
pub type EntityId = u64;

/// A component is named by its stable index.
pub type ComponentIndex = u32;

/// The identifier that never names a live entity.
pub const NULL_ENTITY: EntityId = 0;

#[derive(Clone, Copy, Debug, PartialEq, Eq, Structural)]
pub enum ECSError {
    EntityDoesntHaveComponent,
    NoSuchEntity,
}

/// The mathematical content of a store.
pub struct StoreModel {
    /// How many entities were ever spawned; their ids are `1..=issued`.
    pub issued: nat,
    pub alive: Set<EntityId>,
    /// The component values that are currently attached (for live entities).
    pub values: Map<(EntityId, ComponentIndex), u64>,
    /// How many times each pair was set; a removed component keeps its count.
    pub versions: Map<(EntityId, ComponentIndex), u64>,
}

impl StoreModel {
    pub open spec fn empty() -> StoreModel {
        StoreModel { issued: 0, alive: Set::empty(), values: Map::empty(), versions: Map::empty() }
    }

    pub open spec fn has(self, e: EntityId, c: ComponentIndex) -> bool {
        self.alive.contains(e) && self.values.contains_key((e, c))
    }

    pub open spec fn value(self, e: EntityId, c: ComponentIndex) -> Option<u64> {
        if self.has(e, c) {
            Some(self.values[(e, c)])
        } else {
            None
        }
    }

    /// The number of sets of the pair so far (0 if it was never set).
    pub open spec fn version(self, e: EntityId, c: ComponentIndex) -> u64 {
        if self.versions.contains_key((e, c)) {
            self.versions[(e, c)]
        } else {
            0
        }
    }

    pub open spec fn content_version(self, e: EntityId, c: ComponentIndex) -> Option<u64> {
        if self.has(e, c) {
            Some(self.version(e, c))
        } else {
            None
        }
    }

    /// The id that the next spawn hands out.
    pub open spec fn next_id(self) -> nat {
        self.issued + 1
    }

    pub open spec fn spawned(self) -> StoreModel {
        StoreModel {
            issued: self.issued + 1,
            alive: self.alive.insert((self.issued + 1) as u64),
            ..self
        }
    }

    pub open spec fn despawned(self, e: EntityId) -> StoreModel {
        StoreModel { alive: self.alive.remove(e), ..self }
    }

    pub open spec fn with_set(self, e: EntityId, c: ComponentIndex, v: u64) -> StoreModel {
        StoreModel {
            values: self.values.insert((e, c), v),
            versions: self.versions.insert((e, c), (self.version(e, c) + 1) as u64),
            ..self
        }
    }

    pub open spec fn with_removed(self, e: EntityId, c: ComponentIndex) -> StoreModel {
        StoreModel { values: self.values.remove((e, c)), ..self }
    }

    /// A set is carried out only on a live entity whose count for the pair can still grow.
    pub open spec fn can_set(self, e: EntityId, c: ComponentIndex) -> bool {
        self.alive.contains(e) && self.version(e, c) < u64::MAX
    }

    /// Sets each pair of `comps` on `e` in order.
    pub open spec fn with_sets(self, e: EntityId, comps: Seq<(ComponentIndex, u64)>) -> StoreModel
        decreases comps.len(),
    {
        if comps.len() == 0 {
            self
        } else {
            self.with_sets(e, comps.drop_last()).with_set(e, comps.last().0, comps.last().1)
        }
    }
}

#[derive(Clone, Copy)]
struct Cell {
    entity: EntityId,
    component: ComponentIndex,
    value: u64,
    version: u64,
    present: bool,
}

spec fn key_of(cell: Cell) -> (EntityId, ComponentIndex) {
    (cell.entity, cell.component)
}

/// A versioned table of entities and their components.
pub struct World {
    alive: Vec<bool>,
    cells: Vec<Cell>,
    values: Ghost<Map<(EntityId, ComponentIndex), u64>>,
    versions: Ghost<Map<(EntityId, ComponentIndex), u64>>,
}

impl World {
    pub closed spec fn view(&self) -> StoreModel {
        StoreModel {
            issued: self.alive@.len(),
            alive: Set::new(|e: u64| 1 <= e <= self.alive@.len() && self.alive@[e - 1]),
            values: self.values@,
            versions: self.versions@,
        }
    }

    pub closed spec fn wf(&self) -> bool {
        &&& forall|i: int|
            #![trigger self.cells@[i]]
            0 <= i < self.cells@.len() ==> {
                let cell = self.cells@[i];
                &&& self.versions@.contains_key(key_of(cell))
                &&& self.versions@[key_of(cell)] == cell.version
                &&& cell.version >= 1
                &&& 1 <= cell.entity <= self.alive@.len()
                &&& cell.present == self.values@.contains_key(key_of(cell))
                &&& cell.present ==> self.values@[key_of(cell)] == cell.value
            }
        &&& forall|i: int, j: int|
            0 <= i < self.cells@.len() && 0 <= j < self.cells@.len() && i != j ==> key_of(
                #[trigger] self.cells@[i],
            ) != key_of(#[trigger] self.cells@[j])
        &&& forall|k: (EntityId, ComponentIndex)|
            #[trigger] self.versions@.contains_key(k) ==> exists|i: int|
                0 <= i < self.cells@.len() && key_of(#[trigger] self.cells@[i]) == k
        &&& forall|k: (EntityId, ComponentIndex)|
            #[trigger] self.values@.contains_key(k) ==> self.versions@.contains_key(k)
    }

    /// Every pair that was ever set belongs to an entity that was spawned.
    pub proof fn lemma_versions_of_issued(&self, e: EntityId, c: ComponentIndex)
        requires
            self.wf(),
            e > self@.issued || e == 0,
        ensures
            self@.version(e, c) == 0,
            !self@.values.contains_key((e, c)),
    {
        if self.versions@.contains_key((e, c)) {
            let i = choose|i: int| 0 <= i < self.cells@.len() && key_of(self.cells@[i]) == (e, c);
            assert(self.cells@[i].entity == e);
        }
    }

    /// Live entities are among those spawned; a live component has been set at least once.
    pub proof fn lemma_wf_facts(&self)
        requires
            self.wf(),
        ensures
            forall|e: EntityId| #[trigger] self@.alive.contains(e) ==> 1 <= e <= self@.issued,
            forall|e: EntityId, c: ComponentIndex| #[trigger] self@.has(e, c) ==> self@.version(e, c) >= 1,
    {
        assert forall|e: EntityId, c: ComponentIndex| #[trigger] self@.has(e, c) implies self@.version(e, c) >= 1 by {
            let i = choose|i: int| 0 <= i < self.cells@.len() && key_of(self.cells@[i]) == (e, c);
            assert(self.cells@[i].version >= 1);
        }
    }

    pub fn new() -> (w: World)
        ensures
            w.wf(),
            w@ == StoreModel::empty(),
    {
        let w = World {
            alive: Vec::new(),
            cells: Vec::new(),
            values: Ghost(Map::empty()),
            versions: Ghost(Map::empty()),
        };
        assert(w@.alive =~= Set::empty());
        w
    }

    pub fn is_alive(&self, e: EntityId) -> (r: bool)
        ensures
            r == self@.alive.contains(e),
    {
        1 <= e && e <= self.alive.len() as u64 && self.alive[(e - 1) as usize]
    }

    /// The number of entities spawned so far.
    pub fn issued(&self) -> (r: usize)
        ensures
            r == self@.issued,
    {
        self.alive.len()
    }

    fn find(&self, e: EntityId, c: ComponentIndex) -> (r: Option<usize>)
        requires
            self.wf(),
        ensures
            match r {
                Some(i) => i < self.cells@.len() && key_of(self.cells@[i as int]) == (e, c),
                None => !self.versions@.contains_key((e, c)) && !self.values@.contains_key(
                    (e, c),
                ),
            },
    {
        let mut i: usize = 0;
        while i < self.cells.len()
            invariant
                i <= self.cells@.len(),
                forall|j: int| 0 <= j < i ==> key_of(#[trigger] self.cells@[j]) != (e, c),
            decreases self.cells@.len() - i,
        {
            if self.cells[i].entity == e && self.cells[i].component == c {
                return Some(i);
            }
            i = i + 1;
        }
        None
    }

    /// Spawns an entity without components and returns its id.
    pub fn spawn_empty(&mut self) -> (r: EntityId)
        requires
            old(self).wf(),
            old(self)@.issued < usize::MAX,
        ensures
            final(self).wf(),
            r == old(self)@.next_id(),
            final(self)@ == old(self)@.spawned(),
    {
        self.alive.push(true);
        let r = self.alive.len() as u64;
        assert(self.cells@ == old(self).cells@);
        assert forall|i: int| 0 <= i < self.cells@.len() implies 1 <= #[trigger] self.cells@[i].entity <= self.alive@.len() by {
            assert(old(self).cells@[i] == self.cells@[i]);
        }
        assert(self@.alive =~= old(self)@.alive.insert(r));
        r
    }

    /// Spawns an entity that carries `components` (a later pair of one index wins)
    /// and returns its id.
    pub fn spawn(&mut self, components: &Vec<(ComponentIndex, u64)>) -> (r: EntityId)
        requires
            old(self).wf(),
            old(self)@.issued < usize::MAX,
        ensures
            final(self).wf(),
            r == old(self)@.next_id(),
            final(self)@ == old(self)@.spawned().with_sets(r, components@),
    {
        let r = self.spawn_empty();
        let ghost start = self@;
        proof {
            assert forall|c: ComponentIndex| start.version(r, c) == 0 by {
                old(self).lemma_versions_of_issued(r, c);
            }
        }
        let mut i: usize = 0;
        while i < components.len()
            invariant
                self.wf(),
                i <= components@.len(),
                start.alive.contains(r),
                forall|c: ComponentIndex| start.version(r, c) == 0,
                self@ == start.with_sets(r, components@.take(i as int)),
                forall|c: ComponentIndex| self@.version(r, c) <= i,
            decreases components@.len() - i,
        {
            let (c, v) = components[i];
            proof {
                lemma_with_sets_frame(start, r, components@.take(i as int));
            }
            let ghost before = self@;
            let _ = self.set(r, c, v);
            proof {
                assert forall|c2: ComponentIndex| self@.version(r, c2) <= i + 1 by {
                    if c2 != c {
                        assert(self@.version(r, c2) == before.version(r, c2));
                    }
                }
                let t = components@.take(i as int + 1);
                assert(t.drop_last() =~= components@.take(i as int));
            }
            i = i + 1;
        }
        assert(components@.take(components@.len() as int) =~= components@);
        r
    }

    /// Sets a component on a live entity (adding it when absent); its version grows by one.
    pub fn set(&mut self, e: EntityId, c: ComponentIndex, v: u64) -> (r: Result<(), ECSError>)
        requires
            old(self).wf(),
            old(self)@.version(e, c) < u64::MAX,
        ensures
            final(self).wf(),
            old(self)@.alive.contains(e) ==> r is Ok && final(self)@ == old(self)@.with_set(e, c, v),
            !old(self)@.alive.contains(e) ==> r == Err::<(), ECSError>(ECSError::NoSuchEntity)
                && final(self)@ == old(self)@,
    {
        if !self.is_alive(e) {
            return Err(ECSError::NoSuchEntity);
        }
        match self.find(e, c) {
            Some(i) => {
                let old_version = self.cells[i].version;
                self.cells[i] = Cell { entity: e, component: c, value: v, version: old_version + 1, present: true };
                self.values = Ghost(self.values@.insert((e, c), v));
                self.versions = Ghost(self.versions@.insert((e, c), (old_version + 1) as u64));
                proof {
                    assert forall|k: (EntityId, ComponentIndex)| #[trigger] self.versions@.contains_key(k) implies exists|j: int|
                        0 <= j < self.cells@.len() && key_of(#[trigger] self.cells@[j]) == k by {
                        if k != (e, c) {
                            let j = choose|j: int| 0 <= j < old(self).cells@.len() && key_of(old(self).cells@[j]) == k;
                            assert(key_of(self.cells@[j]) == k);
                        } else {
                            assert(key_of(self.cells@[i as int]) == k);
                        }
                    }
                }
            },
            None => {
                self.cells.push(Cell { entity: e, component: c, value: v, version: 1, present: true });
                self.values = Ghost(self.values@.insert((e, c), v));
                self.versions = Ghost(self.versions@.insert((e, c), 1));
                proof {
                    let n = self.cells@.len() - 1;
                    assert forall|k: (EntityId, ComponentIndex)| #[trigger] self.versions@.contains_key(k) implies exists|j: int|
                        0 <= j < self.cells@.len() && key_of(#[trigger] self.cells@[j]) == k by {
                        if k != (e, c) {
                            let j = choose|j: int| 0 <= j < old(self).cells@.len() && key_of(old(self).cells@[j]) == k;
                            assert(key_of(self.cells@[j]) == k);
                        } else {
                            assert(key_of(self.cells@[n]) == k);
                        }
                    }
                }
            },
        }
        Ok(())
    }

    /// Removes a component from a live entity; its version count is kept.
    pub fn remove_component(&mut self, e: EntityId, c: ComponentIndex) -> (r: Result<(), ECSError>)
        requires
            old(self).wf(),
        ensures
            final(self).wf(),
            old(self)@.alive.contains(e) ==> r is Ok && final(self)@ == old(self)@.with_removed(e, c),
            !old(self)@.alive.contains(e) ==> r == Err::<(), ECSError>(ECSError::NoSuchEntity)
                && final(self)@ == old(self)@,
    {
        if !self.is_alive(e) {
            return Err(ECSError::NoSuchEntity);
        }
        match self.find(e, c) {
            Some(i) => {
                let cell = self.cells[i];
                self.cells[i] = Cell { present: false, ..cell };
                self.values = Ghost(self.values@.remove((e, c)));
                proof {
                    assert forall|k: (EntityId, ComponentIndex)| #[trigger] self.versions@.contains_key(k) implies exists|j: int|
                        0 <= j < self.cells@.len() && key_of(#[trigger] self.cells@[j]) == k by {
                        let j = choose|j: int| 0 <= j < old(self).cells@.len() && key_of(old(self).cells@[j]) == k;
                        assert(key_of(self.cells@[j]) == k);
                    }
                }
            },
            None => {
                assert(self.values@.remove((e, c)) =~= self.values@);
            },
        }
        Ok(())
    }

    /// Despawns a live entity; false when it was not alive. Its id is never handed out again.
    pub fn despawn(&mut self, e: EntityId) -> (r: bool)
        requires
            old(self).wf(),
        ensures
            final(self).wf(),
            r == old(self)@.alive.contains(e),
            final(self)@ == old(self)@.despawned(e),
    {
        if !self.is_alive(e) {
            assert(self@.alive.remove(e) =~= self@.alive);
            return false;
        }
        assert(old(self)@.alive.contains(e));
        let n = self.alive.len();
        assert(1 <= e <= n);
        let idx: usize = (e - 1) as usize;
        assert(idx as int == e - 1);
        self.alive[idx] = false;
        assert(self.cells@ == old(self).cells@);
        assert(self.alive@ == old(self).alive@.update(idx as int, false));
        assert forall|x: u64| self@.alive.contains(x) == old(self)@.alive.remove(e).contains(x) by {
            if 1 <= x <= self.alive@.len() && x != e {
                assert(self.alive@[x - 1] == old(self).alive@[x - 1]);
            }
        }
        assert(self@.alive =~= old(self)@.alive.remove(e));
        true
    }

    /// Whether `e` is alive and carries `c`.
    pub fn has_component(&self, e: EntityId, c: ComponentIndex) -> (r: bool)
        requires
            self.wf(),
        ensures
            r == self@.has(e, c),
    {
        if !self.is_alive(e) {
            return false;
        }
        match self.find(e, c) {
            Some(i) => self.cells[i].present,
            None => false,
        }
    }

    /// Reads a component: the value, or which of the entity and the component is missing.
    pub fn get(&self, e: EntityId, c: ComponentIndex) -> (r: Result<u64, ECSError>)
        requires
            self.wf(),
        ensures
            self@.has(e, c) ==> r == Ok::<u64, ECSError>(self@.values[(e, c)]),
            self@.alive.contains(e) && !self@.has(e, c) ==> r == Err::<u64, ECSError>(
                ECSError::EntityDoesntHaveComponent,
            ),
            !self@.alive.contains(e) ==> r == Err::<u64, ECSError>(ECSError::NoSuchEntity),
    {
        if !self.is_alive(e) {
            return Err(ECSError::NoSuchEntity);
        }
        match self.find(e, c) {
            Some(i) => {
                if self.cells[i].present {
                    Ok(self.cells[i].value)
                } else {
                    Err(ECSError::EntityDoesntHaveComponent)
                }
            },
            None => Err(ECSError::EntityDoesntHaveComponent),
        }
    }

    /// Same as `get`: values are plain integers, handed out by copy.
    pub fn get_ref(&self, e: EntityId, c: ComponentIndex) -> (r: Result<u64, ECSError>)
        requires
            self.wf(),
        ensures
            r == self.get_spec(e, c),
    {
        self.get(e, c)
    }

    pub open spec fn get_spec(&self, e: EntityId, c: ComponentIndex) -> Result<u64, ECSError> {
        if self@.has(e, c) {
            Ok(self@.values[(e, c)])
        } else if self@.alive.contains(e) {
            Err(ECSError::EntityDoesntHaveComponent)
        } else {
            Err(ECSError::NoSuchEntity)
        }
    }

    /// The version of an attached component: how many times the pair has been set.
    pub fn content_version(&self, e: EntityId, c: ComponentIndex) -> (r: Option<u64>)
        requires
            self.wf(),
        ensures
            r == self@.content_version(e, c),
    {
        if !self.is_alive(e) {
            return None;
        }
        match self.find(e, c) {
            Some(i) => {
                if self.cells[i].present {
                    Some(self.cells[i].version)
                } else {
                    None
                }
            },
            None => None,
        }
    }

    /// The number of sets of the pair so far, also for a removed component (0 if never set).
    pub fn set_count(&self, e: EntityId, c: ComponentIndex) -> (r: u64)
        requires
            self.wf(),
        ensures
            r == self@.version(e, c),
    {
        match self.find(e, c) {
            Some(i) => self.cells[i].version,
            None => 0,
        }
    }

    /// Adds or overwrites a component: the same operation as `set`.
    pub fn add_component(&mut self, e: EntityId, c: ComponentIndex, v: u64) -> (r: Result<(), ECSError>)
        requires
            old(self).wf(),
            old(self)@.version(e, c) < u64::MAX,
        ensures
            final(self).wf(),
            old(self)@.alive.contains(e) ==> r is Ok && final(self)@ == old(self)@.with_set(e, c, v),
            !old(self)@.alive.contains(e) ==> r == Err::<(), ECSError>(ECSError::NoSuchEntity)
                && final(self)@ == old(self)@,
    {
        self.set(e, c, v)
    }

    /// Sets each pair of `components` on a live entity, in order.
    pub fn add_components(&mut self, e: EntityId, components: &Vec<(ComponentIndex, u64)>) -> (r: Result<(), ECSError>)
        requires
            old(self).wf(),
            forall|c: ComponentIndex| old(self)@.version(e, c) + components@.len() < u64::MAX,
        ensures
            final(self).wf(),
            old(self)@.alive.contains(e) ==> r is Ok && final(self)@ == old(self)@.with_sets(e, components@),
            !old(self)@.alive.contains(e) ==> r == Err::<(), ECSError>(ECSError::NoSuchEntity)
                && final(self)@ == old(self)@,
    {
        if !self.is_alive(e) {
            return Err(ECSError::NoSuchEntity);
        }
        let ghost start = self@;
        assert(components@.take(0) =~= Seq::<(ComponentIndex, u64)>::empty());
        let mut i: usize = 0;
        while i < components.len()
            invariant
                self.wf(),
                i <= components@.len(),
                start == old(self)@,
                start.alive.contains(e),
                forall|c: ComponentIndex| start.version(e, c) + components@.len() < u64::MAX,
                self@ == start.with_sets(e, components@.take(i as int)),
                forall|c: ComponentIndex| self@.version(e, c) <= start.version(e, c) + i,
            decreases components@.len() - i,
        {
            let (c, v) = components[i];
            proof {
                lemma_with_sets_frame(start, e, components@.take(i as int));
            }
            let ghost before = self@;
            assert(self@.version(e, c) <= start.version(e, c) + i);
            assert(start.version(e, c) + components@.len() < u64::MAX);
            let _ = self.set(e, c, v);
            proof {
                assert forall|c2: ComponentIndex| self@.version(e, c2) <= start.version(e, c2) + i + 1 by {
                    if c2 != c {
                        assert(self@.version(e, c2) == before.version(e, c2));
                    }
                }
                let t = components@.take(i as int + 1);
                assert(t.drop_last() =~= components@.take(i as int));
            }
            i = i + 1;
        }
        assert(components@.take(components@.len() as int) =~= components@);
        Ok(())
    }
}

/// Describes a component by its index, without its value type.
#[derive(Clone, Copy, Debug, PartialEq, Eq, Structural)]
pub struct ComponentDesc {
    pub component: ComponentIndex,
}

impl ComponentDesc {
    pub fn index(&self) -> (r: u32)
        ensures
            r == self.component,
    {
        self.component
    }
}

pub proof fn lemma_with_sets_frame(start: StoreModel, e: EntityId, comps: Seq<(ComponentIndex, u64)>)
    ensures
        start.with_sets(e, comps).alive == start.alive,
        start.with_sets(e, comps).issued == start.issued,
    decreases comps.len(),
{
    if comps.len() > 0 {
        lemma_with_sets_frame(start, e, comps.drop_last());
    }
}

} // verus!

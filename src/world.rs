use std::collections::HashMap;
use vstd::prelude::*;

use crate::any_vec::AnyVec;

verus! {

broadcast use vstd::std_specs::hash::group_hash_axioms;

/// Identifier of an entity: its position in the order of creation.
pub type EntityId = usize;

/// Identity of a component type, chosen by the caller: values stored under
/// one identity must all be values of the same kind.
pub type ComponentId = u64;

/// Identifier of an archetype: its position in the order of creation.
pub type ArchetypeId = usize;

/// Where the data of one entity lives.
#[derive(Clone, Copy, PartialEq, Eq, Debug, Structural)]
pub struct EntityRecord {
    pub id: EntityId,
    pub archetype_id: ArchetypeId,
    pub row: usize,
}

/// The storage of one component type inside one archetype.
pub struct Column<C> {
    components: AnyVec<C>,
}

/// Storage for all entities that share one exact set of component types: one
/// column per type, with row `i` of every column and `entities[i]` describing
/// the same entity.
pub struct Archetype<C> {
    columns: Vec<Column<C>>,
    entities: Vec<EntityId>,
    /// The component type of each column, by column position.
    column_index: Vec<ComponentId>,
}

/// Whether `s` holds no value twice.
pub open spec fn distinct(s: Seq<ComponentId>) -> bool {
    forall|i: int, j: int| 0 <= i < s.len() && 0 <= j < s.len() && i != j ==> s[i] != s[j]
}

/// Whether `s` is strictly increasing: the canonical form of a set of
/// component types.
pub open spec fn sorted(s: Seq<ComponentId>) -> bool {
    forall|i: int, j: int| 0 <= i < j < s.len() ==> s[i] < s[j]
}

/// Position of `c` in `s`.
pub open spec fn position_of(s: Seq<ComponentId>, c: ComponentId) -> int {
    choose|k: int| 0 <= k < s.len() && s[k] == c
}

proof fn lemma_position_of(s: Seq<ComponentId>, k: int)
    requires
        distinct(s),
        0 <= k < s.len(),
    ensures
        position_of(s, s[k]) == k,
{
    let c = s[k];
    assert(exists|j: int| 0 <= j < s.len() && s[j] == c);
}

/// Two strictly increasing sequences with the same members are equal.
proof fn lemma_sorted_set_unique(a: Seq<ComponentId>, b: Seq<ComponentId>)
    requires
        sorted(a),
        sorted(b),
        a.to_set() == b.to_set(),
    ensures
        a == b,
    decreases a.len(),
{
    if a.len() == 0 {
        if b.len() > 0 {
            assert(b.to_set().contains(b[0]));
        }
        assert(a =~= b);
    } else {
        assert(a.to_set().contains(a[0]));
        assert(b.to_set().contains(a[0]));
        assert(b.len() > 0);
        assert(b.to_set().contains(b[0]));
        assert(a.to_set().contains(b[0]));
        let j = choose|j: int| 0 <= j < b.len() && b[j] == a[0];
        let i = choose|i: int| 0 <= i < a.len() && a[i] == b[0];
        assert(a[0] == b[0]);
        let ta = a.drop_first();
        let tb = b.drop_first();
        assert forall|x: ComponentId| ta.to_set().contains(x) <==> tb.to_set().contains(x) by {
            if ta.to_set().contains(x) {
                let p = choose|p: int| 0 <= p < ta.len() && ta[p] == x;
                assert(a[p + 1] == x);
                assert(a.to_set().contains(x));
                assert(b.to_set().contains(x));
                let q = choose|q: int| 0 <= q < b.len() && b[q] == x;
                assert(q != 0);
                assert(tb[q - 1] == x);
            }
            if tb.to_set().contains(x) {
                let p = choose|p: int| 0 <= p < tb.len() && tb[p] == x;
                assert(b[p + 1] == x);
                assert(b.to_set().contains(x));
                assert(a.to_set().contains(x));
                let q = choose|q: int| 0 <= q < a.len() && a[q] == x;
                assert(q != 0);
                assert(ta[q - 1] == x);
            }
        }
        assert(ta.to_set() =~= tb.to_set());
        lemma_sorted_set_unique(ta, tb);
        assert(a =~= seq![a[0]] + ta);
        assert(b =~= seq![b[0]] + tb);
    }
}

/// Whether the component index `ci` lists archetype `a` under type `c`.
spec fn index_entry(
    ci: Map<ComponentId, HashMap<ArchetypeId, usize>>,
    c: ComponentId,
    a: ArchetypeId,
) -> bool {
    ci.contains_key(c) && ci[c]@.contains_key(a)
}

impl<C> Archetype<C> {
    /// The component type of each column, by column position.
    pub closed spec fn types(&self) -> Seq<ComponentId> {
        self.column_index@
    }

    /// The number of entities stored.
    pub open spec fn rows(&self) -> nat {
        self.entity_ids().len()
    }

    /// The entity stored at each row.
    pub closed spec fn entity_ids(&self) -> Seq<EntityId> {
        self.entities@
    }

    /// The values of the column at position `k`, by row.
    pub closed spec fn column_values(&self, k: int) -> Seq<C> {
        self.columns@[k].components@
    }

    pub closed spec fn wf(&self) -> bool {
        &&& self.columns@.len() == self.column_index@.len()
        &&& distinct(self.column_index@)
        &&& forall|k: int|
            0 <= k < self.columns@.len() ==> {
                &&& (#[trigger] self.columns@[k]).components.wf()
                &&& self.columns@[k].components@.len() == self.entities@.len()
                &&& self.columns@[k].components.spec_capacity() <= 2 * self.entities@.len()
            }
    }

    /// Position of the column that holds component type `c`, if any.
    fn find_column(&self, c: ComponentId) -> (r: Option<usize>)
        requires
            distinct(self.column_index@),
        ensures
            r.is_some() <==> self.column_index@.contains(c),
            r.is_some() ==> r.unwrap() == position_of(self.column_index@, c) && r.unwrap()
                < self.column_index@.len() && self.column_index@[r.unwrap() as int] == c,
    {
        let mut k: usize = 0;
        while k < self.column_index.len()
            invariant
                k <= self.column_index@.len(),
                distinct(self.column_index@),
                forall|j: int| 0 <= j < k ==> self.column_index@[j] != c,
            decreases self.column_index@.len() - k,
        {
            if self.column_index[k] == c {
                proof {
                    lemma_position_of(self.column_index@, k as int);
                }
                return Some(k);
            }
            k = k + 1;
        }
        None
    }
}

impl<C> Archetype<C> {
    /// Mutable access to the value of column `k` at `row`.
    fn value_mut(&mut self, k: usize, row: usize) -> (r: &mut C)
        requires
            old(self).wf(),
            k < old(self).types().len(),
            row < old(self).rows(),
        ensures
            *r == old(self).column_values(k as int)[row as int],
            final(self).wf(),
            final(self).types() == old(self).types(),
            final(self).entity_ids() == old(self).entity_ids(),
            final(self).column_values(k as int) == old(self).column_values(k as int).update(
                row as int,
                *final(r),
            ),
            forall|j: int|
                0 <= j < old(self).types().len() && j != k ==> final(self).column_values(j) == old(
                    self,
                ).column_values(j),
    {
        let column = &mut self.columns[k];
        column.components.get_mut(row).unwrap()
    }
}

/// The aggregate root: every archetype, and the three indices that locate
/// entities and components in them.
pub struct World<C> {
    archetypes: Vec<Archetype<C>>,
    /// Entity id to location; the record of entity `e` stands at position `e`.
    entity_index: Vec<EntityRecord>,
    /// Set of component types to archetype id: entry `a` is the set of
    /// archetype `a` in increasing order.
    archetype_index: Vec<Vec<ComponentId>>,
    /// Component type to the archetypes that hold it, each with the position
    /// of the column for that type.
    component_index: HashMap<ComponentId, HashMap<ArchetypeId, usize>>,
}

impl<C> World<C> {
    /// The number of entities built so far.
    pub closed spec fn entity_count(&self) -> nat {
        self.entity_index@.len()
    }

    /// The number of archetypes created so far.
    pub closed spec fn archetype_count(&self) -> nat {
        self.archetypes@.len()
    }

    /// The component types of archetype `a`, by column position.
    pub closed spec fn archetype_types(&self, a: int) -> Seq<ComponentId> {
        self.archetypes@[a].types()
    }

    /// The number of rows of archetype `a`.
    pub open spec fn archetype_rows(&self, a: int) -> nat {
        self.archetype_entities(a).len()
    }

    /// The entity stored at each row of archetype `a`.
    pub closed spec fn archetype_entities(&self, a: int) -> Seq<EntityId> {
        self.archetypes@[a].entity_ids()
    }

    /// The location of entity `e`.
    pub closed spec fn record(&self, e: int) -> EntityRecord {
        self.entity_index@[e]
    }

    /// The value of component type `c` at `row` of archetype `a`, if that
    /// archetype has the type and the row.
    pub open spec fn value_at(&self, a: int, row: int, c: ComponentId) -> Option<C> {
        if 0 <= a < self.archetype_count() && self.archetype_types(a).contains(c) && 0 <= row
            < self.archetype_rows(a) {
            Some(self.spec_archetype(a).column_values(position_of(self.archetype_types(a), c))[row])
        } else {
            None
        }
    }

    /// The value of component type `c` of entity `e`, if the entity exists
    /// and has that type.
    pub open spec fn component(&self, e: int, c: ComponentId) -> Option<C> {
        if 0 <= e < self.entity_count() {
            self.value_at(self.record(e).archetype_id as int, self.record(e).row as int, c)
        } else {
            None
        }
    }

    /// Whether some archetype holds component type `c`.
    pub open spec fn is_registered(&self, c: ComponentId) -> bool {
        exists|a: int| 0 <= a < self.archetype_count() && #[trigger] self.archetype_types(a).contains(c)
    }

    /// Whether entity `e` exists.
    pub open spec fn has_entity(&self, e: int) -> bool {
        0 <= e < self.entity_count()
    }

    /// Everything but the component values is the same in `self` and `other`.
    pub open spec fn same_structure(&self, other: &Self) -> bool {
        &&& self.entity_count() == other.entity_count()
        &&& self.archetype_count() == other.archetype_count()
        &&& forall|e: int| 0 <= e < self.entity_count() ==> #[trigger] self.record(e) == other.record(e)
        &&& forall|a: int|
            0 <= a < self.archetype_count() ==> {
                &&& #[trigger] self.archetype_types(a) == other.archetype_types(a)
                &&& self.archetype_rows(a) == other.archetype_rows(a)
                &&& self.archetype_entities(a) == other.archetype_entities(a)
            }
    }

    pub closed spec fn wf(&self) -> bool {
        &&& self.archetype_index@.len() == self.archetypes@.len()
        &&& self.archetypes@.len() <= self.entity_index@.len()
        &&& self.entity_index@.len() < usize::MAX
        &&& forall|a: int| 0 <= a < self.archetypes@.len() ==> (#[trigger] self.archetypes@[a]).wf()
        &&& forall|a: int|
            0 <= a < self.archetypes@.len() ==> {
                &&& sorted(#[trigger] self.archetype_index@[a]@)
                &&& self.archetype_index@[a]@.to_set() == self.archetypes@[a].types().to_set()
                &&& self.archetypes@[a].rows() <= self.entity_index@.len()
            }
        &&& forall|a: int, b: int|
            0 <= a < self.archetypes@.len() && 0 <= b < self.archetypes@.len() && a != b
                ==> #[trigger] self.archetype_index@[a]@ != #[trigger] self.archetype_index@[b]@
        &&& forall|e: int|
            0 <= e < self.entity_index@.len() ==> {
                let r = #[trigger] self.entity_index@[e];
                &&& r.id == e
                &&& r.archetype_id < self.archetypes@.len()
                &&& r.row < self.archetypes@[r.archetype_id as int].rows()
                &&& self.archetypes@[r.archetype_id as int].entity_ids()[r.row as int] == e
            }
        &&& forall|a: int, row: int|
            0 <= a < self.archetypes@.len() && 0 <= row < self.archetypes@[a].rows() ==> {
                let e = #[trigger] self.archetypes@[a].entity_ids()[row];
                &&& e < self.entity_index@.len()
                &&& self.entity_index@[e as int].archetype_id == a
                &&& self.entity_index@[e as int].row == row
            }
        &&& forall|c: ComponentId, a: ArchetypeId|
            #[trigger] index_entry(self.component_index@, c, a) ==> {
                let k = self.component_index@[c]@[a];
                &&& a < self.archetypes@.len()
                &&& k < self.archetypes@[a as int].types().len()
                &&& self.archetypes@[a as int].types()[k as int] == c
            }
        &&& forall|a: int, k: int|
            0 <= a < self.archetypes@.len() && 0 <= k < self.archetypes@[a].types().len()
                ==> index_entry(
                    self.component_index@,
                    #[trigger] self.archetypes@[a].types()[k],
                    a as ArchetypeId,
                )
        &&& forall|c: ComponentId|
            #[trigger] self.component_index@.contains_key(c) ==> exists|a: ArchetypeId|
                index_entry(self.component_index@, c, a)
    }

    /// An empty world.
    pub fn new() -> (r: Self)
        ensures
            r.wf(),
            r.entity_count() == 0,
            r.archetype_count() == 0,
    {
        World {
            archetypes: Vec::new(),
            entity_index: Vec::new(),
            archetype_index: Vec::new(),
            component_index: HashMap::new(),
        }
    }

    /// Column position of component type `c` in archetype `a`, read from the
    /// component index.
    pub fn column_of(&self, c: ComponentId, a: ArchetypeId) -> (r: Option<usize>)
        requires
            self.wf(),
            a < self.archetype_count(),
        ensures
            r.is_some() <==> self.archetype_types(a as int).contains(c),
            r.is_some() ==> r.unwrap() < self.archetype_types(a as int).len() && r.unwrap()
                == position_of(self.archetype_types(a as int), c),
    {
        match self.component_index.get(&c) {
            None => {
                proof {
                    if self.archetype_types(a as int).contains(c) {
                        let k = choose|k: int|
                            0 <= k < self.archetype_types(a as int).len()
                                && self.archetype_types(a as int)[k] == c;
                        assert(index_entry(self.component_index@, self.archetypes@[a as int].types()[k], a));
                    }
                }
                None
            },
            Some(columns) => {
                match columns.get(&a) {
                    None => {
                        proof {
                            if self.archetype_types(a as int).contains(c) {
                                let k = choose|k: int|
                                    0 <= k < self.archetype_types(a as int).len()
                                        && self.archetype_types(a as int)[k] == c;
                                assert(index_entry(self.component_index@, self.archetypes@[a as int].types()[k], a));
                            }
                        }
                        None
                    },
                    Some(k) => {
                        proof {
                            assert(index_entry(self.component_index@, c, a));
                            assert(self.archetypes@[a as int].wf());
                            lemma_position_of(self.archetype_types(a as int), *k as int);
                        }
                        Some(*k)
                    },
                }
            },
        }
    }

    /// Whether entity `entity` exists and has component type `c`.
    pub fn has_component(&self, entity: EntityId, c: ComponentId) -> (r: bool)
        requires
            self.wf(),
        ensures
            r == self.component(entity as int, c).is_some(),
    {
        if entity >= self.entity_index.len() {
            return false;
        }
        let record = self.entity_index[entity];
        proof {
            assert(self.entity_index@[entity as int] == record);
        }
        self.column_of(c, record.archetype_id).is_some()
    }

    /// The value of component type `c` of entity `entity`, if the entity
    /// exists and has that type.
    pub fn get_component(&self, entity: EntityId, c: ComponentId) -> (r: Option<&C>)
        requires
            self.wf(),
        ensures
            r.is_some() == self.component(entity as int, c).is_some(),
            r.is_some() ==> *r.unwrap() == self.component(entity as int, c).unwrap(),
    {
        if entity >= self.entity_index.len() {
            return None;
        }
        let record = self.entity_index[entity];
        proof {
            assert(self.entity_index@[entity as int] == record);
        }
        match self.column_of(c, record.archetype_id) {
            None => None,
            Some(k) => {
                let archetype = &self.archetypes[record.archetype_id];
                proof {
                    assert(self.archetypes@[record.archetype_id as int].wf());
                }
                archetype.columns[k].components.get(record.row)
            },
        }
    }

    /// Mutable access to the value of component type `c` at `row` of
    /// archetype `a`, if there is one. Only that value can change.
    pub(crate) fn value_at_mut(&mut self, a: ArchetypeId, row: usize, c: ComponentId) -> (r: Option<&mut C>)
        requires
            old(self).wf(),
        ensures
            final(self).wf(),
            final(self).same_structure(old(self)),
            old(self).value_at(a as int, row as int, c).is_none() ==> r.is_none() && *final(self)
                == *old(self),
            old(self).value_at(a as int, row as int, c).is_some() ==> {
                &&& r.is_some()
                &&& *r.unwrap() == old(self).value_at(a as int, row as int, c).unwrap()
                &&& final(self).value_at(a as int, row as int, c) == Some(*final(r.unwrap()))
                &&& forall|b: int, i: int, d: ComponentId|
                    !(b == a && i == row && d == c) ==> #[trigger] final(self).value_at(b, i, d)
                        == old(self).value_at(b, i, d)
            },
    {
        if a >= self.archetypes.len() {
            return None;
        }
        proof {
            assert(self.archetypes@[a as int].wf());
        }
        if row >= self.archetypes[a].entities.len() {
            return None;
        }
        match self.column_of(c, a) {
            None => None,
            Some(k) => {
                let archetype = &mut self.archetypes[a];
                let r = archetype.value_mut(k, row);
                Some(r)
            },
        }
    }

    /// Mutable access to the value of component type `c` of entity `entity`,
    /// if the entity exists and has that type. Only that value can change.
    pub fn get_component_mut(&mut self, entity: EntityId, c: ComponentId) -> (r: Option<&mut C>)
        requires
            old(self).wf(),
        ensures
            final(self).wf(),
            final(self).same_structure(old(self)),
            old(self).component(entity as int, c).is_none() ==> r.is_none() && *final(self) == *old(
                self,
            ),
            old(self).component(entity as int, c).is_some() ==> {
                &&& r.is_some()
                &&& *r.unwrap() == old(self).component(entity as int, c).unwrap()
                &&& final(self).component(entity as int, c) == Some(*final(r.unwrap()))
                &&& forall|a: int, row: int, d: ComponentId|
                    !(a == old(self).record(entity as int).archetype_id && row == old(self).record(
                        entity as int,
                    ).row && d == c) ==> #[trigger] final(self).value_at(a, row, d) == old(
                        self,
                    ).value_at(a, row, d)
                &&& forall|e: int, d: ComponentId|
                    !(e == entity && d == c) ==> #[trigger] final(self).component(e, d) == old(
                        self,
                    ).component(e, d)
            },
    {
        if entity >= self.entity_index.len() {
            return None;
        }
        let record = self.entity_index[entity];
        proof {
            assert(self.entity_index@[entity as int] == record);
            assert forall|e: int| 0 <= e < self.entity_count() implies #[trigger] self.archetype_entities(
                self.record(e).archetype_id as int,
            )[self.record(e).row as int] == e by {
                lemma_entity_location(self, e);
            }
        }
        self.value_at_mut(record.archetype_id, record.row, c)
    }
}

impl<C> Default for World<C> {
    fn default() -> (r: Self)
        ensures
            r.wf(),
            r.entity_count() == 0,
            r.archetype_count() == 0,
    {
        World::new()
    }
}

/// Inserts `c` into the strictly increasing `set`, at its place.
fn insert_sorted(set: &mut Vec<ComponentId>, c: ComponentId)
    requires
        sorted(old(set)@),
        !old(set)@.contains(c),
    ensures
        sorted(final(set)@),
        final(set)@.to_set() == old(set)@.to_set().insert(c),
{
    let mut p: usize = 0;
    while p < set.len() && set[p] < c
        invariant
            p <= set@.len(),
            forall|i: int| 0 <= i < p ==> set@[i] < c,
        decreases set@.len() - p,
    {
        p = p + 1;
    }
    let ghost before = set@;
    set.insert(p, c);
    proof {
        assert(forall|i: int| p <= i < before.len() ==> before[i] > c) by {
            assert forall|i: int| p <= i < before.len() implies before[i] > c by {
                assert(before[p as int] >= c);
                assert(before[p as int] != c);
                if i > p {
                    assert(before[p as int] < before[i]);
                }
            }
        }
        assert forall|i: int, j: int| 0 <= i < j < set@.len() implies set@[i] < set@[j] by {
            if j < p {
            } else if j == p {
            } else if i < p {
                assert(set@[j] == before[j - 1]);
            } else if i == p {
                assert(set@[j] == before[j - 1]);
            } else {
                assert(set@[i] == before[i - 1]);
                assert(set@[j] == before[j - 1]);
            }
        }
        assert forall|x: ComponentId| set@.to_set().contains(x) <==> before.to_set().insert(
            c,
        ).contains(x) by {
            if set@.to_set().contains(x) {
                let i = choose|i: int| 0 <= i < set@.len() && set@[i] == x;
                if i < p {
                    assert(before[i] == x);
                } else if i > p {
                    assert(before[i - 1] == x);
                }
            }
            if before.to_set().contains(x) {
                let i = choose|i: int| 0 <= i < before.len() && before[i] == x;
                if i < p {
                    assert(set@[i] == x);
                } else {
                    assert(set@[i + 1] == x);
                }
            }
            if x == c {
                assert(set@[p as int] == c);
            }
        }
        assert(set@.to_set() =~= before.to_set().insert(c));
    }
}

/// Stages the components of one entity before it is committed to a world.
pub struct EntityCreator<C> {
    /// A single-row archetype that holds the staged values, by order of
    /// staging.
    archetype: Archetype<C>,
    /// The staged component types in increasing order.
    components_set: Vec<ComponentId>,
}

impl<C> EntityCreator<C> {
    /// The staged component types, in the order they were staged.
    pub closed spec fn staged_types(&self) -> Seq<ComponentId> {
        self.archetype.column_index@
    }

    /// The staged values, in the order they were staged.
    pub closed spec fn staged_values(&self) -> Seq<C> {
        Seq::new(self.archetype.columns@.len(), |k: int| self.archetype.columns@[k].components@[0])
    }

    pub closed spec fn wf(&self) -> bool {
        &&& self.archetype.columns@.len() == self.archetype.column_index@.len()
        &&& distinct(self.archetype.column_index@)
        &&& self.archetype.entities@.len() == 0
        &&& forall|k: int|
            0 <= k < self.archetype.columns@.len() ==> {
                &&& (#[trigger] self.archetype.columns@[k]).components.wf()
                &&& self.archetype.columns@[k].components@.len() == 1
                &&& self.archetype.columns@[k].components.spec_capacity() == 1
            }
        &&& sorted(self.components_set@)
        &&& self.components_set@.to_set() == self.archetype.column_index@.to_set()
    }

    /// Stages `component` as the value of component type `c`. Staging one
    /// type twice for one entity is a caller error, which `requires` rules
    /// out.
    pub fn with_component(self, c: ComponentId, component: C) -> (r: Self)
        requires
            self.wf(),
            !self.staged_types().contains(c),
        ensures
            r.wf(),
            r.staged_types() == self.staged_types().push(c),
            r.staged_values() == self.staged_values().push(component),
    {
        let mut creator = self;
        let mut components = AnyVec::new();
        components.push(component);
        proof {
            if creator.components_set@.contains(c) {
                assert(creator.components_set@.to_set().contains(c));
                assert(self.staged_types().to_set().contains(c));
            }
        }
        creator.archetype.columns.push(Column { components });
        creator.archetype.column_index.push(c);
        insert_sorted(&mut creator.components_set, c);
        proof {
            let t = creator.archetype.column_index@;
            assert forall|i: int, j: int| 0 <= i < t.len() && 0 <= j < t.len() && i != j implies t[i]
                != t[j] by {
                if i == t.len() - 1 {
                    assert(self.staged_types()[j] == t[j]);
                } else if j == t.len() - 1 {
                    assert(self.staged_types()[i] == t[i]);
                }
            }
            assert(t.to_set() =~= self.staged_types().to_set().insert(c)) by {
                assert forall|x: ComponentId| t.to_set().contains(x) <==> self.staged_types().to_set().insert(
                    c,
                ).contains(x) by {
                    if t.to_set().contains(x) {
                        let i = choose|i: int| 0 <= i < t.len() && t[i] == x;
                        if i < t.len() - 1 {
                            assert(self.staged_types()[i] == x);
                        }
                    }
                    if self.staged_types().to_set().contains(x) {
                        let i = choose|i: int| 0 <= i < self.staged_types().len() && self.staged_types()[i] == x;
                        assert(t[i] == x);
                    }
                    if x == c {
                        assert(t[t.len() - 1] == c);
                    }
                }
            }
            assert(creator.staged_values() =~= self.staged_values().push(component));
        }
        creator
    }
}

impl<C> World<C> {
    /// A builder for one new entity, with nothing staged.
    pub fn spawn(&self) -> (r: EntityCreator<C>)
        ensures
            r.wf(),
            r.staged_types() == Seq::<ComponentId>::empty(),
            r.staged_values() == Seq::<C>::empty(),
    {
        let r = EntityCreator {
            archetype: Archetype { columns: Vec::new(), entities: Vec::new(), column_index: Vec::new() },
            components_set: Vec::new(),
        };
        assert(r.staged_values() =~= Seq::<C>::empty());
        r
    }
}

/// Whether `a` and `b` hold the same ids in the same order.
fn same_ids(a: &Vec<ComponentId>, b: &Vec<ComponentId>) -> (r: bool)
    ensures
        r == (a@ == b@),
{
    if a.len() != b.len() {
        return false;
    }
    let mut i: usize = 0;
    while i < a.len()
        invariant
            a@.len() == b@.len(),
            i <= a@.len(),
            forall|j: int| 0 <= j < i ==> a@[j] == b@[j],
        decreases a@.len() - i,
    {
        if a[i] != b[i] {
            return false;
        }
        i = i + 1;
    }
    assert(a@ =~= b@);
    true
}

impl<C> Archetype<C> {
    /// Appends one row: `values[k]` to column `k`, and `e` to the entities.
    fn push_row(&mut self, values: Vec<C>, e: EntityId)
        requires
            old(self).wf(),
            values@.len() == old(self).types().len(),
            4 * old(self).rows() + 4 <= usize::MAX,
        ensures
            final(self).wf(),
            final(self).types() == old(self).types(),
            final(self).entity_ids() == old(self).entity_ids().push(e),
            forall|k: int|
                0 <= k < old(self).types().len() ==> #[trigger] final(self).column_values(k) == old(
                    self,
                ).column_values(k).push(values@[k]),
    {
        let ghost orig = values@;
        let ghost rows = self.entities@.len();
        let mut values = values;
        let mut k: usize = self.columns.len();
        while k > 0
            invariant
                k <= self.columns@.len(),
                self.columns@.len() == old(self).columns@.len(),
                self.column_index@ == old(self).column_index@,
                self.entities@ == old(self).entities@,
                rows == old(self).entities@.len(),
                4 * rows + 4 <= usize::MAX,
                old(self).wf(),
                orig.len() == self.columns@.len(),
                values@ == orig.subrange(0, k as int),
                forall|j: int|
                    0 <= j < k ==> #[trigger] self.columns@[j] == old(self).columns@[j],
                forall|j: int|
                    k <= j < self.columns@.len() ==> {
                        &&& (#[trigger] self.columns@[j]).components.wf()
                        &&& self.columns@[j].components@ == old(self).columns@[j].components@.push(
                            orig[j],
                        )
                        &&& self.columns@[j].components.spec_capacity() <= 2 * (rows + 1)
                    },
            decreases k,
        {
            k = k - 1;
            assert(values@.len() > 0);
            let v = values.pop().unwrap();
            assert(v == orig[k as int]);
            assert(values@ =~= orig.subrange(0, k as int));
            let ghost col = self.columns@[k as int];
            assert(col == old(self).columns@[k as int]);
            assert(col.components.spec_capacity() <= 2 * rows);
            let column = &mut self.columns[k];
            column.components.push(v);
        }
        self.entities.push(e);
    }
}

impl<C> EntityCreator<C> {
    /// Moves the staged values out, in the order of component types given by
    /// `order`.
    fn take_values(&mut self, order: &Vec<ComponentId>) -> (r: Vec<C>)
        requires
            old(self).wf(),
            distinct(order@),
            forall|k: int| 0 <= k < order@.len() ==> old(self).staged_types().contains(#[trigger] order@[k]),
        ensures
            r@.len() == order@.len(),
            forall|k: int|
                0 <= k < order@.len() ==> #[trigger] r@[k] == old(self).staged_values()[position_of(
                    old(self).staged_types(),
                    order@[k],
                )],
    {
        let ghost staged = self.archetype.column_index@;
        let ghost orig = self.staged_values();
        let mut r: Vec<C> = Vec::new();
        let mut k: usize = 0;
        while k < order.len()
            invariant
                k <= order@.len(),
                distinct(order@),
                forall|i: int| 0 <= i < order@.len() ==> staged.contains(#[trigger] order@[i]),
                staged == old(self).staged_types(),
                orig == old(self).staged_values(),
                distinct(staged),
                self.archetype.column_index@ == staged,
                self.archetype.columns@.len() == staged.len(),
                r@.len() == k,
                forall|i: int| 0 <= i < k ==> #[trigger] r@[i] == orig[position_of(staged, order@[i])],
                forall|j: int|
                    0 <= j < staged.len() ==> {
                        &&& (#[trigger] self.archetype.columns@[j]).components.wf()
                        &&& self.archetype.columns@[j].components@ == if order@.subrange(
                            0,
                            k as int,
                        ).contains(staged[j]) {
                            Seq::<C>::empty()
                        } else {
                            seq![orig[j]]
                        }
                    },
            decreases order@.len() - k,
        {
            let c = order[k];
            let j = self.archetype.find_column(c).unwrap();
            proof {
                if order@.subrange(0, k as int).contains(staged[j as int]) {
                    let i = choose|i: int|
                        0 <= i < k && #[trigger] order@.subrange(0, k as int)[i] == staged[j as int];
                    assert(order@[i] == c);
                }
            }
            let column = &mut self.archetype.columns[j];
            let v = column.components.pop().unwrap();
            r.push(v);
            proof {
                assert forall|jj: int| 0 <= jj < staged.len() implies self.archetype.columns@[jj].components@
                    == if order@.subrange(0, k + 1).contains(staged[jj]) {
                    Seq::<C>::empty()
                } else {
                    seq![orig[jj]]
                } by {
                    if order@.subrange(0, k + 1).contains(staged[jj]) && !order@.subrange(
                        0,
                        k as int,
                    ).contains(staged[jj]) {
                        let i = choose|i: int|
                            0 <= i < k + 1 && #[trigger] order@.subrange(0, k + 1)[i] == staged[jj];
                        if i < k {
                            assert(order@.subrange(0, k as int)[i] == staged[jj]);
                        }
                        assert(jj == j);
                    }
                    if order@.subrange(0, k as int).contains(staged[jj]) {
                        let i = choose|i: int|
                            0 <= i < k && #[trigger] order@.subrange(0, k as int)[i] == staged[jj];
                        assert(order@.subrange(0, k + 1)[i] == staged[jj]);
                    }
                    if jj == j {
                        assert(order@.subrange(0, k + 1)[k as int] == staged[jj]);
                    }
                }
            }
            k = k + 1;
        }
        r
    }
}

impl<C> World<C> {
    /// The archetype whose set of component types, in increasing order, is
    /// `set`.
    fn find_archetype(&self, set: &Vec<ComponentId>) -> (r: Option<ArchetypeId>)
        requires
            self.wf(),
        ensures
            r.is_some() ==> r.unwrap() < self.archetype_count() && self.archetype_index@[r.unwrap() as int]@
                == set@,
            r.is_none() ==> forall|a: int|
                0 <= a < self.archetype_count() ==> self.archetype_index@[a]@ != set@,
    {
        let mut a: usize = 0;
        while a < self.archetype_index.len()
            invariant
                a <= self.archetype_index@.len(),
                self.wf(),
                forall|b: int| 0 <= b < a ==> self.archetype_index@[b]@ != set@,
            decreases self.archetype_index@.len() - a,
        {
            if same_ids(&self.archetype_index[a], set) {
                return Some(a);
            }
            a = a + 1;
        }
        None
    }
}

impl<C> World<C> {
    /// What building one entity from the staged `types` and `values` does,
    /// with `before` the world before and `self` the world after: the new
    /// entity takes the next id and holds exactly the staged values; every
    /// earlier entity keeps its location and its values; every archetype
    /// keeps its component types, and only the one that receives the entity
    /// gains a row, at its end.
    pub open spec fn spawned(
        &self,
        before: &Self,
        types: Seq<ComponentId>,
        values: Seq<C>,
        r: EntityRecord,
    ) -> bool {
        &&& r.id == before.entity_count()
        &&& self.entity_count() == before.entity_count() + 1
        &&& self.record(r.id as int) == r
        &&& forall|e: int| 0 <= e < before.entity_count() ==> #[trigger] self.record(e) == before.record(e)
        &&& forall|e: int, c: ComponentId|
            0 <= e < before.entity_count() ==> #[trigger] self.component(e, c) == before.component(e, c)
        &&& forall|k: int| 0 <= k < types.len() ==> self.component(r.id as int, #[trigger] types[k]) == Some(values[k])
        &&& forall|c: ComponentId| !types.contains(c) ==> #[trigger] self.component(r.id as int, c).is_none()
        &&& forall|a: int|
            0 <= a < before.archetype_count() ==> {
                &&& #[trigger] self.archetype_types(a) == before.archetype_types(a)
                &&& self.archetype_entities(a) == if a == r.archetype_id {
                    before.archetype_entities(a).push(r.id)
                } else {
                    before.archetype_entities(a)
                }
            }
        &&& r.archetype_id < self.archetype_count()
        &&& self.archetype_types(r.archetype_id as int).to_set() == types.to_set()
        &&& r.row == before.archetype_rows(r.archetype_id as int) || r.archetype_id
            == before.archetype_count()
    }

    /// Whether some archetype has exactly the component types `s`.
    pub open spec fn has_archetype_for(&self, s: Set<ComponentId>) -> bool {
        exists|a: int| 0 <= a < self.archetype_count() && #[trigger] self.archetype_types(a).to_set() == s
    }

    /// Registers, in the component index, every column of the archetype about
    /// to be added with component types `types`.
    fn register_columns(&mut self, types: &Vec<ComponentId>)
        requires
            old(self).wf(),
            distinct(types@),
        ensures
            final(self).archetypes == old(self).archetypes,
            final(self).entity_index == old(self).entity_index,
            final(self).archetype_index == old(self).archetype_index,
            forall|c: ComponentId, a: ArchetypeId|
                #[trigger] index_entry(final(self).component_index@, c, a) ==> {
                    let k = final(self).component_index@[c]@[a];
                    ||| (a < old(self).archetypes@.len() && k < old(self).archetypes@[a as int].types().len()
                        && old(self).archetypes@[a as int].types()[k as int] == c)
                    ||| (a == old(self).archetypes@.len() && k < types@.len() && types@[k as int] == c)
                },
            forall|a: int, k: int|
                0 <= a < old(self).archetypes@.len() && 0 <= k < old(self).archetypes@[a].types().len()
                    ==> index_entry(
                    final(self).component_index@,
                    #[trigger] old(self).archetypes@[a].types()[k],
                    a as ArchetypeId,
                ),
            forall|k: int|
                0 <= k < types@.len() ==> index_entry(
                    final(self).component_index@,
                    #[trigger] types@[k],
                    old(self).archetypes@.len() as ArchetypeId,
                ) && final(self).component_index@[types@[k]]@[old(self).archetypes@.len() as ArchetypeId]
                    == k,
            forall|c: ComponentId|
                #[trigger] final(self).component_index@.contains_key(c) ==> exists|a: ArchetypeId|
                    index_entry(final(self).component_index@, c, a),
    {
        let new_id: ArchetypeId = self.archetypes.len();
        let mut k: usize = 0;
        while k < types.len()
            invariant
                k <= types@.len(),
                distinct(types@),
                new_id == old(self).archetypes@.len(),
                self.archetypes == old(self).archetypes,
                self.entity_index == old(self).entity_index,
                self.archetype_index == old(self).archetype_index,
                old(self).wf(),
                forall|c: ComponentId, a: ArchetypeId|
                    #[trigger] index_entry(self.component_index@, c, a) ==> {
                        let j = self.component_index@[c]@[a];
                        ||| (a < old(self).archetypes@.len() && j < old(
                            self,
                        ).archetypes@[a as int].types().len() && old(self).archetypes@[a as int].types()[j as int]
                            == c)
                        ||| (a == new_id && j < k && types@[j as int] == c)
                    },
                forall|a: int, j: int|
                    0 <= a < old(self).archetypes@.len() && 0 <= j < old(
                        self,
                    ).archetypes@[a].types().len() ==> index_entry(
                        self.component_index@,
                        #[trigger] old(self).archetypes@[a].types()[j],
                        a as ArchetypeId,
                    ),
                forall|j: int|
                    0 <= j < k ==> index_entry(self.component_index@, #[trigger] types@[j], new_id)
                        && self.component_index@[types@[j]]@[new_id] == j,
                forall|c: ComponentId|
                    #[trigger] self.component_index@.contains_key(c) ==> exists|a: ArchetypeId|
                        index_entry(self.component_index@, c, a),
            decreases types@.len() - k,
        {
            let c = types[k];
            let ghost before = self.component_index@;
            let mut columns = match self.component_index.remove(&c) {
                Some(m) => m,
                None => HashMap::new(),
            };
            assert(before.contains_key(c) ==> columns@ == before[c]@);
            assert(!before.contains_key(c) ==> columns@ == Map::<ArchetypeId, usize>::empty());
            columns.insert(new_id, k);
            self.component_index.insert(c, columns);
            proof {
                let ci = self.component_index@;
                assert(ci == before.insert(c, columns));
                assert forall|d: ComponentId, a: ArchetypeId| #[trigger] index_entry(ci, d, a) implies {
                    let j = ci[d]@[a];
                    ||| (a < old(self).archetypes@.len() && j < old(self).archetypes@[a as int].types().len()
                        && old(self).archetypes@[a as int].types()[j as int] == d)
                    ||| (a == new_id && j < k + 1 && types@[j as int] == d)
                } by {
                    if d != c {
                        assert(index_entry(before, d, a));
                    } else if a != new_id {
                        assert(index_entry(before, d, a));
                    }
                }
                assert forall|a: int, j: int|
                    0 <= a < old(self).archetypes@.len() && 0 <= j < old(self).archetypes@[a].types().len()
                        implies index_entry(ci, #[trigger] old(self).archetypes@[a].types()[j], a as ArchetypeId) by {
                    assert(index_entry(before, old(self).archetypes@[a].types()[j], a as ArchetypeId));
                }
                assert forall|j: int| 0 <= j < k + 1 implies index_entry(ci, #[trigger] types@[j], new_id)
                    && ci[types@[j]]@[new_id] == j by {
                    if j < k {
                        assert(index_entry(before, types@[j], new_id));
                        assert(types@[j] != c);
                    }
                }
                assert forall|d: ComponentId| #[trigger] ci.contains_key(d) implies exists|a: ArchetypeId|
                    index_entry(ci, d, a) by {
                    if d == c {
                        assert(index_entry(ci, d, new_id));
                    } else {
                        assert(before.contains_key(d));
                        let a = choose|a: ArchetypeId| index_entry(before, d, a);
                        assert(index_entry(ci, d, a));
                    }
                }
            }
            k = k + 1;
        }
    }
}

/// A member of `s` is a member of any sequence with the same set.
proof fn lemma_same_set_contains(s: Seq<ComponentId>, t: Seq<ComponentId>, k: int)
    requires
        s.to_set() == t.to_set(),
        0 <= k < s.len(),
    ensures
        t.contains(s[k]),
{
    assert(s.to_set().contains(s[k]));
}

impl<C> EntityCreator<C> {
    /// Commits the staged entity as the first row of a new archetype.
    fn spawn_new(self, world: &mut World<C>) -> (r: EntityRecord)
        requires
            self.wf(),
            old(world).wf(),
            !old(world).has_archetype_for(self.staged_types().to_set()),
            4 * old(world).entity_count() + 4 <= usize::MAX,
        ensures
            final(world).wf(),
            final(world).spawned(old(world), self.staged_types(), self.staged_values(), r),
            r.archetype_id == old(world).archetype_count(),
            r.row == 0,
            final(world).archetype_count() == old(world).archetype_count() + 1,
            final(world).archetype_types(r.archetype_id as int) == self.staged_types(),
            final(world).archetype_entities(r.archetype_id as int) == seq![r.id],
    {
        let ghost s = self.staged_types();
        let ghost v = self.staged_values();
        let ghost w0 = *world;
        let n = world.entity_index.len();
        let new_id = world.archetypes.len();
        let EntityCreator { mut archetype, components_set } = self;
        world.register_columns(&archetype.column_index);
        archetype.entities.push(n);
        let record = EntityRecord { id: n, archetype_id: new_id, row: 0 };
        proof {
            assert forall|a: int| 0 <= a < w0.archetypes@.len() implies w0.archetype_index@[a]@
                != components_set@ by {
                if w0.archetype_index@[a]@ == components_set@ {
                    assert(w0.archetype_types(a).to_set() == s.to_set());
                }
            }
            assert(archetype.wf());
        }
        world.archetype_index.push(components_set);
        world.archetypes.push(archetype);
        world.entity_index.push(record);
        proof {
            let w = *world;
            assert(w.archetypes@[new_id as int] == archetype);
            assert forall|a: int| 0 <= a < w0.archetypes@.len() implies #[trigger] w.archetypes@[a]
                == w0.archetypes@[a] by {}
            assert forall|e: int| 0 <= e < w0.entity_index@.len() implies #[trigger] w.entity_index@[e]
                == w0.entity_index@[e] by {}
            assert forall|a: int, k: int|
                0 <= a < w.archetypes@.len() && 0 <= k < w.archetypes@[a].types().len()
                    implies index_entry(
                    w.component_index@,
                    #[trigger] w.archetypes@[a].types()[k],
                    a as ArchetypeId,
                ) by {
                if a < new_id {
                    assert(w.archetypes@[a] == w0.archetypes@[a]);
                    assert(index_entry(w.component_index@, w0.archetypes@[a].types()[k], a as ArchetypeId));
                } else {
                    assert(index_entry(w.component_index@, s[k], new_id));
                }
            }
            assert forall|c: ComponentId, a: ArchetypeId| #[trigger] index_entry(w.component_index@, c, a)
                implies {
                let k = w.component_index@[c]@[a];
                &&& a < w.archetypes@.len()
                &&& k < w.archetypes@[a as int].types().len()
                &&& w.archetypes@[a as int].types()[k as int] == c
            } by {
                if a < new_id {
                    assert(w.archetypes@[a as int] == w0.archetypes@[a as int]);
                }
            }
            assert forall|k: int| 0 <= k < s.len() implies w.component(n as int, #[trigger] s[k]) == Some(
                v[k],
            ) by {
                lemma_position_of(s, k);
            }
            assert forall|e: int, c: ComponentId| 0 <= e < w0.entity_count() implies #[trigger] w.component(
                e,
                c,
            ) == w0.component(e, c) by {
                assert(w.entity_index@[e] == w0.entity_index@[e]);
                let a = w0.entity_index@[e].archetype_id;
                assert(w.archetypes@[a as int] == w0.archetypes@[a as int]);
            }
            assert forall|a: int| 0 <= a < w0.archetype_count() implies #[trigger] w.archetype_types(a)
                == w0.archetype_types(a) && w.archetype_entities(a) == w0.archetype_entities(a) by {
                assert(w.archetypes@[a] == w0.archetypes@[a]);
            }
            assert(w.archetypes@[new_id as int].entity_ids() =~= seq![n]);
        }
        record
    }

    /// Commits the staged entity as a new last row of archetype `a`, whose
    /// set of component types is the staged one.
    fn spawn_into(self, world: &mut World<C>, a: ArchetypeId) -> (r: EntityRecord)
        requires
            self.wf(),
            old(world).wf(),
            a < old(world).archetype_count(),
            old(world).archetype_index@[a as int]@ == self.components_set@,
            4 * old(world).entity_count() + 4 <= usize::MAX,
        ensures
            final(world).wf(),
            final(world).spawned(old(world), self.staged_types(), self.staged_values(), r),
            r.archetype_id == a,
            r.row == old(world).archetype_rows(a as int),
            final(world).archetype_count() == old(world).archetype_count(),
    {
        let ghost s = self.staged_types();
        let ghost v = self.staged_values();
        let ghost w0 = *world;
        let ghost t = w0.archetype_types(a as int);
        proof {
            assert(w0.archetypes@[a as int].wf());
            assert(t.to_set() == s.to_set());
            assert forall|k: int| 0 <= k < t.len() implies s.contains(#[trigger] t[k]) by {
                lemma_same_set_contains(t, s, k);
            }
        }
        let mut creator = self;
        let values = creator.take_values(&world.archetypes[a].column_index);
        let n = world.entity_index.len();
        let record = EntityRecord { id: n, archetype_id: a, row: world.archetypes[a].entities.len() };
        let archetype = &mut world.archetypes[a];
        archetype.push_row(values, n);
        world.entity_index.push(record);
        proof {
            let w = *world;
            assert forall|b: int| 0 <= b < w0.archetypes@.len() && b != a implies #[trigger] w.archetypes@[b]
                == w0.archetypes@[b] by {}
            assert forall|e: int| 0 <= e < w0.entity_index@.len() implies #[trigger] w.entity_index@[e]
                == w0.entity_index@[e] by {}
            assert(w.archetypes@[a as int].wf());
            assert forall|b: int| 0 <= b < w.archetypes@.len() implies (#[trigger] w.archetypes@[b]).wf() by {
                if b != a {
                    assert(w0.archetypes@[b].wf());
                }
            }
            assert forall|b: int, k: int|
                0 <= b < w.archetypes@.len() && 0 <= k < w.archetypes@[b].types().len()
                    implies index_entry(
                    w.component_index@,
                    #[trigger] w.archetypes@[b].types()[k],
                    b as ArchetypeId,
                ) by {
                assert(w.archetypes@[b].types() == w0.archetypes@[b].types());
                assert(index_entry(w0.component_index@, w0.archetypes@[b].types()[k], b as ArchetypeId));
            }
            assert forall|c: ComponentId, b: ArchetypeId| #[trigger] index_entry(w.component_index@, c, b)
                implies {
                let k = w.component_index@[c]@[b];
                &&& b < w.archetypes@.len()
                &&& k < w.archetypes@[b as int].types().len()
                &&& w.archetypes@[b as int].types()[k as int] == c
            } by {
                assert(index_entry(w0.component_index@, c, b));
                if b < w.archetypes@.len() {
                    assert(w.archetypes@[b as int].types() == w0.archetypes@[b as int].types());
                }
            }
            assert forall|e: int| 0 <= e < w.entity_index@.len() implies {
                let r = #[trigger] w.entity_index@[e];
                &&& r.id == e
                &&& r.archetype_id < w.archetypes@.len()
                &&& r.row < w.archetypes@[r.archetype_id as int].rows()
                &&& w.archetypes@[r.archetype_id as int].entity_ids()[r.row as int] == e
            } by {
                if e < n {
                    assert(w.entity_index@[e] == w0.entity_index@[e]);
                }
            }
            assert forall|k: int| 0 <= k < s.len() implies w.component(n as int, #[trigger] s[k]) == Some(
                v[k],
            ) by {
                lemma_same_set_contains(s, t, k);
                let p = position_of(t, s[k]);
                assert(t[p] == s[k]);
                lemma_position_of(s, k);
                assert(w.archetypes@[a as int].column_values(p) == w0.archetypes@[a as int].column_values(p).push(
                    values@[p],
                ));
            }
            assert forall|c: ComponentId| !s.contains(c) implies #[trigger] w.component(
                n as int,
                c,
            ).is_none() by {
                if t.contains(c) {
                    let p = choose|p: int| 0 <= p < t.len() && t[p] == c;
                    lemma_same_set_contains(t, s, p);
                }
            }
            assert forall|e: int, c: ComponentId| 0 <= e < w0.entity_count() implies #[trigger] w.component(
                e,
                c,
            ) == w0.component(e, c) by {
                let b = w0.entity_index@[e].archetype_id;
                if b == a && t.contains(c) {
                    let p = position_of(t, c);
                    assert(w.archetypes@[a as int].column_values(p) == w0.archetypes@[a as int].column_values(p).push(
                        values@[p],
                    ));
                }
            }
            assert forall|b: int| 0 <= b < w0.archetype_count() implies #[trigger] w.archetype_types(b)
                == w0.archetype_types(b) && w.archetype_entities(b) == if b == a {
                w0.archetype_entities(b).push(n)
            } else {
                w0.archetype_entities(b)
            } by {}
            assert(w.archetype_index == w0.archetype_index);
            assert(w.component_index == w0.component_index);
            assert forall|b: int, row: int|
                0 <= b < w.archetypes@.len() && 0 <= row < w.archetypes@[b].rows() implies {
                let e = #[trigger] w.archetypes@[b].entity_ids()[row];
                &&& e < w.entity_index@.len()
                &&& w.entity_index@[e as int].archetype_id == b
                &&& w.entity_index@[e as int].row == row
            } by {
                if b != a || row < w0.archetypes@[b].rows() {
                    assert(w.archetypes@[b].entity_ids()[row] == w0.archetypes@[b].entity_ids()[row]);
                }
            }
            assert(w.wf());
        }
        record
    }

    /// Builds the staged entity into `world`: into the archetype with exactly
    /// the staged set of component types if there is one, as a new last row;
    /// else into a new archetype, whose columns are in the order of staging.
    pub fn spawn(self, world: &mut World<C>) -> (r: EntityRecord)
        requires
            self.wf(),
            old(world).wf(),
            4 * old(world).entity_count() + 4 <= usize::MAX,
        ensures
            final(world).wf(),
            final(world).spawned(old(world), self.staged_types(), self.staged_values(), r),
            old(world).has_archetype_for(self.staged_types().to_set()) ==> {
                &&& r.archetype_id < old(world).archetype_count()
                &&& r.row == old(world).archetype_rows(r.archetype_id as int)
                &&& final(world).archetype_count() == old(world).archetype_count()
                &&& forall|a: int|
                    0 <= a < old(world).archetype_count() && #[trigger] old(world).archetype_types(
                        a,
                    ).to_set() == self.staged_types().to_set() ==> r.archetype_id == a
            },
            !old(world).has_archetype_for(self.staged_types().to_set()) ==> {
                &&& r.archetype_id == old(world).archetype_count()
                &&& r.row == 0
                &&& final(world).archetype_count() == old(world).archetype_count() + 1
                &&& final(world).archetype_types(r.archetype_id as int) == self.staged_types()
                &&& final(world).archetype_entities(r.archetype_id as int) == seq![r.id]
            },
    {
        let ghost s = self.staged_types();
        match world.find_archetype(&self.components_set) {
            Some(a) => {
                proof {
                    assert(world.archetypes@[a as int].wf());
                    assert(world.archetype_types(a as int).to_set() == s.to_set());
                    assert forall|b: int|
                        0 <= b < world.archetype_count() && #[trigger] world.archetype_types(b).to_set()
                            == s.to_set() implies b == a by {
                        if b != a {
                            lemma_archetype_sets_distinct(world, a as int, b);
                        }
                    }
                }
                self.spawn_into(world, a)
            },
            None => {
                proof {
                    if world.has_archetype_for(s.to_set()) {
                        let a = choose|a: int|
                            0 <= a < world.archetype_count() && #[trigger] world.archetype_types(a).to_set()
                                == s.to_set();
                        lemma_sorted_set_unique(world.archetype_index@[a]@, self.components_set@);
                    }
                }
                self.spawn_new(world)
            },
        }
    }
}

impl<C> World<C> {
    /// Whether some archetype holds component type `c`, read from the
    /// component index.
    pub(crate) fn is_component_registered(&self, c: ComponentId) -> (r: bool)
        requires
            self.wf(),
        ensures
            r == self.is_registered(c),
    {
        let r = self.component_index.contains_key(&c);
        proof {
            if r {
                let a = choose|a: ArchetypeId| index_entry(self.component_index@, c, a);
                let k = self.component_index@[c]@[a];
                assert(self.archetype_types(a as int)[k as int] == c);
                assert(self.archetype_types(a as int).contains(c));
            }
            if self.is_registered(c) {
                let a = choose|a: int|
                    0 <= a < self.archetype_count() && #[trigger] self.archetype_types(a).contains(c);
                let k = choose|k: int|
                    0 <= k < self.archetype_types(a).len() && self.archetype_types(a)[k] == c;
                assert(index_entry(self.component_index@, self.archetypes@[a].types()[k], a as ArchetypeId));
            }
        }
        r
    }

    /// Whether archetype `a` holds every component type of `ids`, read from
    /// the component index.
    pub(crate) fn archetype_has_all(&self, a: ArchetypeId, ids: &Vec<ComponentId>) -> (r: bool)
        requires
            self.wf(),
            a < self.archetype_count(),
        ensures
            r == forall|i: int| 0 <= i < ids@.len() ==> self.archetype_types(a as int).contains(#[trigger] ids@[i]),
    {
        let mut i: usize = 0;
        while i < ids.len()
            invariant
                self.wf(),
                a < self.archetype_count(),
                i <= ids@.len(),
                forall|j: int| 0 <= j < i ==> self.archetype_types(a as int).contains(#[trigger] ids@[j]),
            decreases ids@.len() - i,
        {
            if self.column_of(ids[i], a).is_none() {
                return false;
            }
            i = i + 1;
        }
        true
    }

    pub(crate) fn archetype_len(&self) -> (r: usize)
        ensures
            r == self.archetype_count(),
    {
        self.archetypes.len()
    }

    /// The number of rows of archetype `a`; 0 for an unknown archetype.
    pub(crate) fn rows_of(&self, a: ArchetypeId) -> (r: usize)
        ensures
            r == self.rows_or_zero(a as int),
    {
        if a < self.archetypes.len() {
            self.archetypes[a].entities.len()
        } else {
            0
        }
    }

    /// The number of rows of archetype `a`; 0 for an unknown archetype.
    pub open spec fn rows_or_zero(&self, a: int) -> nat {
        if 0 <= a < self.archetype_count() {
            self.archetype_rows(a)
        } else {
            0
        }
    }

    /// The entity at `row` of archetype `a`.
    pub(crate) fn entity_at(&self, a: ArchetypeId, row: usize) -> (r: EntityId)
        requires
            a < self.archetype_count(),
            row < self.archetype_rows(a as int),
        ensures
            r == self.archetype_entities(a as int)[row as int],
    {
        self.archetypes[a].entities[row]
    }

    /// The value of component type `c` at `row` of archetype `a`, if there
    /// is one.
    pub(crate) fn value_at_ref(&self, a: ArchetypeId, row: usize, c: ComponentId) -> (r: Option<&C>)
        requires
            self.wf(),
        ensures
            r.is_some() == self.value_at(a as int, row as int, c).is_some(),
            r.is_some() ==> *r.unwrap() == self.value_at(a as int, row as int, c).unwrap(),
    {
        if a >= self.archetypes.len() {
            return None;
        }
        proof {
            assert(self.archetypes@[a as int].wf());
        }
        match self.column_of(c, a) {
            None => None,
            Some(k) => self.archetypes[a].columns[k].components.get(row),
        }
    }
}

/// Archetype uniqueness: two entities of a world lie in the same archetype
/// exactly when their archetypes have the same set of component types. With
/// `spawned`, which gives each new entity an archetype whose set is the
/// staged one, entities built from one set share an archetype id, and
/// entities built from different sets do not.
pub proof fn lemma_archetype_uniqueness<C>(world: &World<C>, e1: int, e2: int)
    requires
        world.wf(),
        world.has_entity(e1),
        world.has_entity(e2),
    ensures
        world.archetype_types(world.record(e1).archetype_id as int).to_set() == world.archetype_types(
            world.record(e2).archetype_id as int,
        ).to_set() <==> world.record(e1).archetype_id == world.record(e2).archetype_id,
{
    let a1 = world.record(e1).archetype_id as int;
    let a2 = world.record(e2).archetype_id as int;
    assert(world.entity_index@[e1] == world.record(e1));
    assert(world.entity_index@[e2] == world.record(e2));
    if world.archetype_types(a1).to_set() == world.archetype_types(a2).to_set() {
        assert(sorted(world.archetype_index@[a1]@));
        assert(sorted(world.archetype_index@[a2]@));
        lemma_sorted_set_unique(world.archetype_index@[a1]@, world.archetype_index@[a2]@);
    }
}

/// Round trip: after an entity is built from staged `types` and `values`,
/// looking up any staged type on it gives the staged value.
pub proof fn lemma_round_trip<C>(
    before: &World<C>,
    after: &World<C>,
    types: Seq<ComponentId>,
    values: Seq<C>,
    r: EntityRecord,
    k: int,
)
    requires
        after.spawned(before, types, values, r),
        0 <= k < types.len(),
    ensures
        after.component(r.id as int, types[k]) == Some(values[k]),
{
}

impl<C> Column<C> {
    /// The stored values, by row.
    pub closed spec fn values(&self) -> Seq<C> {
        self.components@
    }

    /// The buffer that holds the values.
    pub fn components(&self) -> (r: &AnyVec<C>)
        ensures
            r@ == self.values(),
    {
        &self.components
    }
}

impl<C> Archetype<C> {
    /// The number of columns.
    pub fn column_count(&self) -> (r: usize)
        ensures
            r == self.types().len(),
    {
        self.column_index.len()
    }

    /// The column at position `k`, if there is one.
    pub fn get_column(&self, k: usize) -> (r: Option<&Column<C>>)
        requires
            self.wf(),
        ensures
            r.is_some() == (k < self.types().len()),
            r.is_some() ==> r.unwrap().values() == self.column_values(k as int),
    {
        if k >= self.columns.len() {
            return None;
        }
        Some(&self.columns[k])
    }

    /// The number of entities stored.
    pub fn len(&self) -> (r: usize)
        ensures
            r == self.rows(),
    {
        self.entities.len()
    }
}

impl<C> World<C> {
    /// Archetype `a`.
    pub closed spec fn spec_archetype(&self, a: int) -> Archetype<C> {
        self.archetypes@[a]
    }

    /// The component types that some archetype holds.
    pub open spec fn registered_types(&self) -> Set<ComponentId> {
        Set::new(|c: ComponentId| self.is_registered(c))
    }

    /// The archetypes that hold component type `c`.
    pub open spec fn archetypes_holding(&self, c: ComponentId) -> Set<ArchetypeId> {
        Set::new(
            |a: ArchetypeId| a < self.archetype_count() && self.archetype_types(a as int).contains(c),
        )
    }

    /// The number of entities built so far.
    pub fn num_entities(&self) -> (r: usize)
        ensures
            r == self.entity_count(),
    {
        self.entity_index.len()
    }

    /// The number of archetypes created so far.
    pub fn num_archetypes(&self) -> (r: usize)
        ensures
            r == self.archetype_count(),
    {
        self.archetypes.len()
    }

    /// The number of component types that some archetype holds.
    pub fn num_component_types(&self) -> (r: usize)
        requires
            self.wf(),
        ensures
            r == self.registered_types().len(),
    {
        proof {
            assert(self.component_index@.dom() =~= self.registered_types()) by {
                assert forall|c: ComponentId| self.component_index@.dom().contains(c)
                    <==> self.registered_types().contains(c) by {
                    if self.component_index@.contains_key(c) {
                        let a = choose|a: ArchetypeId| index_entry(self.component_index@, c, a);
                        let k = self.component_index@[c]@[a];
                        assert(self.archetype_types(a as int)[k as int] == c);
                        assert(self.archetype_types(a as int).contains(c));
                    }
                    if self.is_registered(c) {
                        let a = choose|a: int|
                            0 <= a < self.archetype_count() && #[trigger] self.archetype_types(a).contains(c);
                        let k = choose|k: int|
                            0 <= k < self.archetype_types(a).len() && self.archetype_types(a)[k] == c;
                        assert(index_entry(self.component_index@, self.archetypes@[a].types()[k], a as ArchetypeId));
                    }
                }
            }
        }
        self.component_index.len()
    }

    /// The number of archetypes that hold component type `c`, read from the
    /// component index.
    pub fn archetypes_with(&self, c: ComponentId) -> (r: usize)
        requires
            self.wf(),
        ensures
            r == self.archetypes_holding(c).len(),
    {
        match self.component_index.get(&c) {
            None => {
                proof {
                    assert(self.archetypes_holding(c) =~= Set::empty()) by {
                        assert forall|a: ArchetypeId| !self.archetypes_holding(c).contains(a) by {
                            if self.archetypes_holding(c).contains(a) {
                                let k = choose|k: int|
                                    0 <= k < self.archetype_types(a as int).len()
                                        && self.archetype_types(a as int)[k] == c;
                                assert(index_entry(
                                    self.component_index@,
                                    self.archetypes@[a as int].types()[k],
                                    a,
                                ));
                            }
                        }
                    }
                }
                0
            },
            Some(columns) => {
                proof {
                    assert(columns@.dom() =~= self.archetypes_holding(c)) by {
                        assert forall|a: ArchetypeId| columns@.dom().contains(a)
                            <==> self.archetypes_holding(c).contains(a) by {
                            if columns@.contains_key(a) {
                                assert(index_entry(self.component_index@, c, a));
                                let k = self.component_index@[c]@[a];
                                assert(self.archetype_types(a as int)[k as int] == c);
                            }
                            if self.archetypes_holding(c).contains(a) {
                                let k = choose|k: int|
                                    0 <= k < self.archetype_types(a as int).len()
                                        && self.archetype_types(a as int)[k] == c;
                                assert(index_entry(
                                    self.component_index@,
                                    self.archetypes@[a as int].types()[k],
                                    a,
                                ));
                            }
                        }
                    }
                }
                columns.len()
            },
        }
    }

    /// The location of entity `e`, if it exists.
    pub fn entity_record(&self, e: EntityId) -> (r: Option<EntityRecord>)
        ensures
            r.is_some() == self.has_entity(e as int),
            r.is_some() ==> r.unwrap() == self.record(e as int),
    {
        if e >= self.entity_index.len() {
            return None;
        }
        Some(self.entity_index[e])
    }

    /// Archetype `a`, if it exists.
    pub fn get_archetype(&self, a: ArchetypeId) -> (r: Option<&Archetype<C>>)
        requires
            self.wf(),
        ensures
            r.is_some() == (a < self.archetype_count()),
            r.is_some() ==> {
                &&& *r.unwrap() == self.spec_archetype(a as int)
                &&& r.unwrap().wf()
                &&& r.unwrap().types() == self.archetype_types(a as int)
                &&& r.unwrap().entity_ids() == self.archetype_entities(a as int)
                &&& r.unwrap().rows() == self.archetype_rows(a as int)
            },
    {
        if a >= self.archetypes.len() {
            return None;
        }
        Some(&self.archetypes[a])
    }

    /// The archetype whose set of component types is `ids`, given in
    /// increasing order.
    pub fn archetype_of_set(&self, ids: &Vec<ComponentId>) -> (r: Option<ArchetypeId>)
        requires
            self.wf(),
        ensures
            r.is_some() ==> r.unwrap() < self.archetype_count() && self.archetype_types(
                r.unwrap() as int,
            ).to_set() == ids@.to_set(),
            sorted(ids@) ==> (r.is_some() <==> self.has_archetype_for(ids@.to_set())),
    {
        let r = self.find_archetype(ids);
        proof {
            if r.is_some() {
                let a = r.unwrap() as int;
                assert(self.archetypes@[a].wf());
                assert(sorted(self.archetype_index@[a]@));
                assert(self.archetype_types(a).to_set() == ids@.to_set());
                assert(self.has_archetype_for(ids@.to_set()));
            }
            if sorted(ids@) && r.is_none() && self.has_archetype_for(ids@.to_set()) {
                let a = choose|a: int|
                    0 <= a < self.archetype_count() && #[trigger] self.archetype_types(a).to_set()
                        == ids@.to_set();
                lemma_sorted_set_unique(self.archetype_index@[a]@, ids@);
            }
        }
        r
    }
}

/// Each row of each archetype holds an entity whose record points back at
/// that row, so the values at the row are that entity's components.
pub proof fn lemma_row_is_entity<C>(world: &World<C>, a: int, row: int)
    requires
        world.wf(),
        0 <= a < world.archetype_count(),
        0 <= row < world.archetype_rows(a),
    ensures
        ({
            let e = world.archetype_entities(a)[row];
            &&& world.has_entity(e as int)
            &&& world.record(e as int).id == e
            &&& world.record(e as int).archetype_id == a
            &&& world.record(e as int).row == row
            &&& forall|c: ComponentId| #[trigger] world.component(e as int, c) == world.value_at(a, row, c)
        }),
{
    let e = world.archetypes@[a].entity_ids()[row];
    assert(world.entity_index@[e as int] == world.record(e as int));
}

impl<C> World<C> {
    /// Archetype ids fit in `usize`: a world never has more archetypes than
    /// entities, and every entity lies in one.
    pub proof fn lemma_archetype_count_fits(&self)
        requires
            self.wf(),
        ensures
            self.archetype_count() <= usize::MAX + 1,
    {
    }
}

/// Where an entity lives: the record of every entity points at an existing
/// archetype and a row inside it, and that row holds the entity. So no two
/// entities share a location.
pub proof fn lemma_entity_location<C>(world: &World<C>, e: int)
    requires
        world.wf(),
        world.has_entity(e),
    ensures
        world.record(e).id == e,
        world.record(e).archetype_id < world.archetype_count(),
        world.record(e).row < world.archetype_rows(world.record(e).archetype_id as int),
        world.archetype_entities(world.record(e).archetype_id as int)[world.record(e).row as int] == e,
{
    assert(world.entity_index@[e] == world.record(e));
}

/// One set, one archetype: two different archetypes of a world have
/// different sets of component types.
pub proof fn lemma_archetype_sets_distinct<C>(world: &World<C>, a: int, b: int)
    requires
        world.wf(),
        0 <= a < world.archetype_count(),
        0 <= b < world.archetype_count(),
        a != b,
    ensures
        world.archetype_types(a).to_set() != world.archetype_types(b).to_set(),
{
    if world.archetype_types(a).to_set() == world.archetype_types(b).to_set() {
        assert(sorted(world.archetype_index@[a]@));
        assert(sorted(world.archetype_index@[b]@));
        lemma_sorted_set_unique(world.archetype_index@[a]@, world.archetype_index@[b]@);
    }
}

} // verus!

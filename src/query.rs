use vstd::prelude::*;

use crate::world::{ArchetypeId, ComponentId, EntityId, World};

verus! {

/// Why a query could not be evaluated.
#[derive(Clone, Copy, Debug, PartialEq, Eq, Structural)]
pub enum QueryError {
    /// The query requires a component type that no entity has ever had.
    UnregisteredComponent(ComponentId),
}

/// Whether archetype `a` of `world` holds every component type of `ids`. No
/// archetype matches a query that requires nothing.
pub open spec fn archetype_matches<C>(world: &World<C>, ids: Seq<ComponentId>, a: int) -> bool {
    &&& ids.len() > 0
    &&& forall|i: int| 0 <= i < ids.len() ==> world.archetype_types(a).contains(#[trigger] ids[i])
}

/// The archetypes among the first `n` that match `ids`, in increasing order.
pub open spec fn matching_archetypes<C>(
    world: &World<C>,
    ids: Seq<ComponentId>,
    n: nat,
) -> Seq<ArchetypeId>
    decreases n,
{
    if n == 0 {
        Seq::empty()
    } else {
        let prev = matching_archetypes(world, ids, (n - 1) as nat);
        if archetype_matches(world, ids, n - 1) {
            prev.push((n - 1) as ArchetypeId)
        } else {
            prev
        }
    }
}

/// The locations (archetype, row) visited from row `ei` of the archetype at
/// position `ai` of `archetypes` onwards: every row of each archetype in
/// increasing order, archetype after archetype.
pub open spec fn rows_from<C>(
    world: &World<C>,
    archetypes: Seq<ArchetypeId>,
    ai: int,
    ei: int,
) -> Seq<(ArchetypeId, int)>
    decreases archetypes.len() - ai, world.rows_or_zero(archetypes[ai] as int) - ei,
{
    if ai < 0 || ai >= archetypes.len() || ei < 0 {
        Seq::empty()
    } else if ei >= world.rows_or_zero(archetypes[ai] as int) {
        rows_from(world, archetypes, ai + 1, 0)
    } else {
        seq![(archetypes[ai], ei)] + rows_from(world, archetypes, ai, ei + 1)
    }
}

/// The locations that a query for `ids` visits in `world`: each row of each
/// matching archetype, archetypes by increasing id, rows in order of
/// insertion.
pub open spec fn query_rows<C>(world: &World<C>, ids: Seq<ComponentId>) -> Seq<(ArchetypeId, int)> {
    rows_from(world, matching_archetypes(world, ids, world.archetype_count()), 0, 0)
}

fn copy_ids(ids: &Vec<ComponentId>) -> (r: Vec<ComponentId>)
    ensures
        r@ == ids@,
{
    let mut r: Vec<ComponentId> = Vec::new();
    let mut i: usize = 0;
    while i < ids.len()
        invariant
            i <= ids@.len(),
            r@ == ids@.subrange(0, i as int),
        decreases ids@.len() - i,
    {
        r.push(ids[i]);
        i = i + 1;
    }
    assert(r@ =~= ids@);
    r
}

/// A request for the entities that have every one of a list of component
/// types.
pub struct QueryCreator {
    component_ids: Vec<ComponentId>,
}

impl QueryCreator {
    /// The required component types, in the order they were added.
    pub closed spec fn ids(&self) -> Seq<ComponentId> {
        self.component_ids@
    }

    /// Adds `c` to the required component types.
    pub fn with_component(self, c: ComponentId) -> (r: Self)
        ensures
            r.ids() == self.ids().push(c),
    {
        let mut q = self;
        q.component_ids.push(c);
        q
    }

    /// Starts iterating over the entities of `world` that have every
    /// required component type. Fails with the first required type, in the
    /// order they were added, that no archetype holds.
    pub fn iter<C>(&self, world: &World<C>) -> (r: Result<QueryIter, QueryError>)
        requires
            world.wf(),
        ensures
            r.is_err() <==> exists|i: int| 0 <= i < self.ids().len() && !world.is_registered(#[trigger] self.ids()[i]),
            r matches Err(QueryError::UnregisteredComponent(c)) ==> exists|i: int|
                0 <= i < self.ids().len() && self.ids()[i] == c && !world.is_registered(c) && forall|j: int|
                    0 <= j < i ==> world.is_registered(#[trigger] self.ids()[j]),
            r matches Ok(it) ==> it.ids() == self.ids() && it.remaining(world) == query_rows(
                world,
                self.ids(),
            ),
    {
        let mut i: usize = 0;
        while i < self.component_ids.len()
            invariant
                world.wf(),
                i <= self.ids().len(),
                forall|j: int| 0 <= j < i ==> world.is_registered(#[trigger] self.ids()[j]),
            decreases self.ids().len() - i,
        {
            let c = self.component_ids[i];
            if !world.is_component_registered(c) {
                return Err(QueryError::UnregisteredComponent(c));
            }
            i = i + 1;
        }
        let n = world.archetype_len();
        let mut archetype_ids: Vec<ArchetypeId> = Vec::new();
        let mut a: usize = 0;
        while a < n
            invariant
                world.wf(),
                n == world.archetype_count(),
                a <= n,
                archetype_ids@ == matching_archetypes(world, self.ids(), a as nat),
            decreases n - a,
        {
            if self.component_ids.len() > 0 && world.archetype_has_all(a, &self.component_ids) {
                archetype_ids.push(a);
            }
            a = a + 1;
        }
        Ok(
            QueryIter {
                archetype_ids,
                component_ids: copy_ids(&self.component_ids),
                archetype_index: 0,
                entity_index: 0,
            },
        )
    }
}

impl<C> World<C> {
    /// A query that requires nothing yet.
    pub fn query(&self) -> (r: QueryCreator)
        ensures
            r.ids() == Seq::<ComponentId>::empty(),
    {
        QueryCreator { component_ids: Vec::new() }
    }
}

/// A forward-only pass over the rows of the archetypes that matched a query.
pub struct QueryIter {
    archetype_ids: Vec<ArchetypeId>,
    component_ids: Vec<ComponentId>,
    archetype_index: usize,
    entity_index: usize,
}

impl QueryIter {
    /// The required component types.
    pub closed spec fn ids(&self) -> Seq<ComponentId> {
        self.component_ids@
    }

    /// The locations still to be visited in `world`.
    pub closed spec fn remaining<C>(&self, world: &World<C>) -> Seq<(ArchetypeId, int)> {
        rows_from(world, self.archetype_ids@, self.archetype_index as int, self.entity_index as int)
    }

    /// The next matching entity, or `None` when all have been visited.
    pub fn next<C>(&mut self, world: &World<C>) -> (r: Option<QueryResult>)
        ensures
            final(self).ids() == old(self).ids(),
            old(self).remaining(world).len() == 0 ==> r.is_none()
                && final(self).remaining(world).len() == 0,
            old(self).remaining(world).len() > 0 ==> {
                let (a, row) = old(self).remaining(world)[0];
                &&& r.is_some()
                &&& r.unwrap().archetype_id() == a
                &&& r.unwrap().row() == row
                &&& r.unwrap().spec_entity() == world.archetype_entities(a as int)[row]
                &&& r.unwrap().ids() == old(self).ids()
                &&& final(self).remaining(world) == old(self).remaining(world).drop_first()
            },
    {
        let ghost rem = self.remaining(world);
        loop
            invariant
                self.ids() == old(self).ids(),
                self.remaining(world) == rem,
                rem == old(self).remaining(world),
            decreases self.archetype_ids@.len() - self.archetype_index,
        {
            if self.archetype_index >= self.archetype_ids.len() {
                return None;
            }
            let a = self.archetype_ids[self.archetype_index];
            let rows = world.rows_of(a);
            if self.entity_index >= rows {
                self.archetype_index = self.archetype_index + 1;
                self.entity_index = 0;
            } else {
                let row = self.entity_index;
                let entity = world.entity_at(a, row);
                self.entity_index = row + 1;
                let component_ids = copy_ids(&self.component_ids);
                return Some(QueryResult { entity, archetype_id: a, row, component_ids });
            }
        }
    }
}

/// One entity visited by a query: a handle on its row, through which the
/// required components are read or written. Each access borrows the world,
/// so no two accesses can alias a value while one of them writes it.
pub struct QueryResult {
    entity: EntityId,
    archetype_id: ArchetypeId,
    row: usize,
    component_ids: Vec<ComponentId>,
}

impl QueryResult {
    pub closed spec fn spec_entity(&self) -> EntityId {
        self.entity
    }

    pub closed spec fn archetype_id(&self) -> ArchetypeId {
        self.archetype_id
    }

    pub closed spec fn row(&self) -> int {
        self.row as int
    }

    /// The component types that the query required.
    pub closed spec fn ids(&self) -> Seq<ComponentId> {
        self.component_ids@
    }

    /// The entity visited.
    pub fn entity(&self) -> (r: EntityId)
        ensures
            r == self.spec_entity(),
    {
        self.entity
    }

    fn requires_id(&self, c: ComponentId) -> (r: bool)
        ensures
            r == self.ids().contains(c),
    {
        let mut i: usize = 0;
        while i < self.component_ids.len()
            invariant
                i <= self.ids().len(),
                forall|j: int| 0 <= j < i ==> self.ids()[j] != c,
            decreases self.ids().len() - i,
        {
            if self.component_ids[i] == c {
                return true;
            }
            i = i + 1;
        }
        false
    }

    /// The value of component type `c` of the visited entity, if the query
    /// required `c`.
    pub fn get<'w, C>(&self, world: &'w World<C>, c: ComponentId) -> (r: Option<&'w C>)
        requires
            world.wf(),
        ensures
            r.is_some() == (self.ids().contains(c) && world.value_at(
                self.archetype_id() as int,
                self.row(),
                c,
            ).is_some()),
            r.is_some() ==> *r.unwrap() == world.value_at(
                self.archetype_id() as int,
                self.row(),
                c,
            ).unwrap(),
    {
        if !self.requires_id(c) {
            return None;
        }
        world.value_at_ref(self.archetype_id, self.row, c)
    }

    /// Mutable access to the value of component type `c` of the visited
    /// entity, if the query required `c`. Only that value can change.
    pub fn get_mut<'w, C>(&self, world: &'w mut World<C>, c: ComponentId) -> (r: Option<&'w mut C>)
        requires
            old(world).wf(),
        ensures
            final(world).wf(),
            final(world).same_structure(old(world)),
            !(self.ids().contains(c) && old(world).value_at(
                self.archetype_id() as int,
                self.row(),
                c,
            ).is_some()) ==> r.is_none() && *final(world) == *old(world),
            self.ids().contains(c) && old(world).value_at(
                self.archetype_id() as int,
                self.row(),
                c,
            ).is_some() ==> {
                &&& r.is_some()
                &&& *r.unwrap() == old(world).value_at(self.archetype_id() as int, self.row(), c).unwrap()
                &&& final(world).value_at(self.archetype_id() as int, self.row(), c) == Some(
                    *final(r.unwrap()),
                )
                &&& forall|b: int, i: int, d: ComponentId|
                    !(b == self.archetype_id() && i == self.row() && d == c)
                        ==> #[trigger] final(world).value_at(b, i, d) == old(world).value_at(b, i, d)
                &&& forall|e: int, d: ComponentId|
                    !(old(world).record(e).archetype_id == self.archetype_id() && old(world).record(
                        e,
                    ).row == self.row() && d == c) ==> #[trigger] final(world).component(e, d) == old(
                        world,
                    ).component(e, d)
            },
    {
        if !self.requires_id(c) {
            return None;
        }
        world.value_at_mut(self.archetype_id, self.row, c)
    }
}

/// Whether location `x` comes before location `y`: a smaller archetype id,
/// or the same archetype and an earlier row.
pub open spec fn location_before(x: (ArchetypeId, int), y: (ArchetypeId, int)) -> bool {
    x.0 < y.0 || (x.0 == y.0 && x.1 < y.1)
}

/// Whether `rows_from(world, s, ai, ei)` should visit row `row` of archetype
/// `a`.
spec fn visits<C>(world: &World<C>, s: Seq<ArchetypeId>, ai: int, ei: int, a: ArchetypeId, row: int) -> bool {
    exists|i: int|
        ai <= i < s.len() && s[i] == a && 0 <= row < world.rows_or_zero(a as int) && (i > ai || row
            >= ei)
}

proof fn lemma_rows_from_members<C>(world: &World<C>, s: Seq<ArchetypeId>, ai: int, ei: int)
    requires
        0 <= ai,
        0 <= ei,
    ensures
        forall|a: ArchetypeId, row: int|
            #[trigger] rows_from(world, s, ai, ei).contains((a, row)) <==> visits(world, s, ai, ei, a, row),
    decreases s.len() - ai, world.rows_or_zero(s[ai] as int) - ei,
{
    let r = rows_from(world, s, ai, ei);
    if ai >= s.len() {
        assert(r.len() == 0);
        assert forall|a: ArchetypeId, row: int|
            #[trigger] r.contains((a, row)) <==> visits(world, s, ai, ei, a, row) by {}
    } else if ei >= world.rows_or_zero(s[ai] as int) {
        lemma_rows_from_members(world, s, ai + 1, 0);
        assert(r == rows_from(world, s, ai + 1, 0));
        assert forall|a: ArchetypeId, row: int|
            visits(world, s, ai, ei, a, row) <==> visits(world, s, ai + 1, 0, a, row) by {
            if visits(world, s, ai, ei, a, row) {
                let i = choose|i: int|
                    ai <= i < s.len() && s[i] == a && 0 <= row < world.rows_or_zero(a as int) && (i
                        > ai || row >= ei);
                assert(ai + 1 <= i);
            }
            if visits(world, s, ai + 1, 0, a, row) {
                let i = choose|i: int|
                    ai + 1 <= i < s.len() && s[i] == a && 0 <= row < world.rows_or_zero(a as int) && (
                    i > ai + 1 || row >= 0);
                assert(ai <= i && i > ai);
            }
        }
    } else {
        let tail = rows_from(world, s, ai, ei + 1);
        lemma_rows_from_members(world, s, ai, ei + 1);
        assert(r == seq![(s[ai], ei)] + tail);
        assert forall|a: ArchetypeId, row: int|
            r.contains((a, row)) <==> visits(world, s, ai, ei, a, row) by {
            if r.contains((a, row)) {
                let k = choose|k: int| 0 <= k < r.len() && r[k] == (a, row);
                if k == 0 {
                    assert(s[ai] == a && row == ei);
                } else {
                    assert(tail[k - 1] == (a, row));
                    assert(tail.contains((a, row)));
                    let i = choose|i: int|
                        ai <= i < s.len() && s[i] == a && 0 <= row < world.rows_or_zero(a as int) && (
                        i > ai || row >= ei + 1);
                }
            }
            if visits(world, s, ai, ei, a, row) {
                let i = choose|i: int|
                    ai <= i < s.len() && s[i] == a && 0 <= row < world.rows_or_zero(a as int) && (i
                        > ai || row >= ei);
                if i == ai && row == ei {
                    assert(r[0] == (a, row));
                } else {
                    assert(visits(world, s, ai, ei + 1, a, row));
                    assert(tail.contains((a, row)));
                    let k = choose|k: int| 0 <= k < tail.len() && tail[k] == (a, row);
                    assert(r[k + 1] == (a, row));
                }
            }
        }
    }
}

proof fn lemma_rows_from_ordered<C>(world: &World<C>, s: Seq<ArchetypeId>, ai: int, ei: int)
    requires
        0 <= ai,
        0 <= ei,
        forall|i: int, j: int| 0 <= i < j < s.len() ==> s[i] < s[j],
    ensures
        forall|j: int, k: int|
            0 <= j < k < rows_from(world, s, ai, ei).len() ==> location_before(
                #[trigger] rows_from(world, s, ai, ei)[j],
                #[trigger] rows_from(world, s, ai, ei)[k],
            ),
    decreases s.len() - ai, world.rows_or_zero(s[ai] as int) - ei,
{
    if ai >= s.len() {
        assert(rows_from(world, s, ai, ei).len() == 0);
    } else if ei >= world.rows_or_zero(s[ai] as int) {
        lemma_rows_from_ordered(world, s, ai + 1, 0);
        assert(rows_from(world, s, ai, ei) == rows_from(world, s, ai + 1, 0));
    } else {
        let r = rows_from(world, s, ai, ei);
        let tail = rows_from(world, s, ai, ei + 1);
        lemma_rows_from_ordered(world, s, ai, ei + 1);
        lemma_rows_from_members(world, s, ai, ei + 1);
        assert(r == seq![(s[ai], ei)] + tail);
        assert forall|j: int, k: int| 0 <= j < k < r.len() implies location_before(
            #[trigger] r[j],
            #[trigger] r[k],
        ) by {
            if j == 0 {
                let loc = tail[k - 1];
                assert(tail.contains(loc));
                assert(visits(world, s, ai, ei + 1, loc.0, loc.1));
                let i = choose|i: int|
                    ai <= i < s.len() && s[i] == loc.0 && 0 <= loc.1 < world.rows_or_zero(
                        loc.0 as int,
                    ) && (i > ai || loc.1 >= ei + 1);
            } else {
                assert(r[j] == tail[j - 1] && r[k] == tail[k - 1]);
            }
        }
    }
}

proof fn lemma_matching_archetypes<C>(world: &World<C>, ids: Seq<ComponentId>, n: nat)
    requires
        n <= usize::MAX + 1,
    ensures
        forall|i: int, j: int|
            0 <= i < j < matching_archetypes(world, ids, n).len() ==> #[trigger] matching_archetypes(
                world,
                ids,
                n,
            )[i] < #[trigger] matching_archetypes(world, ids, n)[j],
        forall|a: ArchetypeId|
            #[trigger] matching_archetypes(world, ids, n).contains(a) <==> (a < n && archetype_matches(
                world,
                ids,
                a as int,
            )),
    decreases n,
{
    if n > 0 {
        let m = (n - 1) as nat;
        lemma_matching_archetypes(world, ids, m);
        let prev = matching_archetypes(world, ids, m);
        if archetype_matches(world, ids, m as int) {
            let cur = prev.push(m as ArchetypeId);
            assert forall|i: int, j: int| 0 <= i < j < cur.len() implies #[trigger] cur[i] < #[trigger] cur[j] by {
                if j == cur.len() - 1 {
                    assert(prev.contains(cur[i]));
                } else {
                    assert(cur[i] == prev[i] && cur[j] == prev[j]);
                }
            }
            assert forall|a: ArchetypeId| #[trigger] cur.contains(a) <==> (a < n && archetype_matches(
                world,
                ids,
                a as int,
            )) by {
                if cur.contains(a) && a != m {
                    let k = choose|k: int| 0 <= k < cur.len() && cur[k] == a;
                    assert(k < prev.len());
                    assert(prev[k] == a);
                    assert(prev.contains(a));
                }
                if a < n && archetype_matches(world, ids, a as int) {
                    if a == m {
                        assert(cur[cur.len() - 1] == a);
                    } else {
                        assert(prev.contains(a));
                        let k = choose|k: int| 0 <= k < prev.len() && prev[k] == a;
                        assert(cur[k] == a);
                    }
                }
            }
        } else {
            assert forall|a: ArchetypeId| #[trigger] prev.contains(a) <==> (a < n && archetype_matches(
                world,
                ids,
                a as int,
            )) by {}
        }
    }
}

/// Query completeness: a query for `ids` visits row `row` of archetype `a`
/// exactly when that archetype holds every required type and has that row;
/// it visits each such location once, by increasing archetype id and, within
/// an archetype, in order of insertion.
pub proof fn lemma_query_visits_exactly_the_matching_rows<C>(world: &World<C>, ids: Seq<ComponentId>)
    requires
        world.wf(),
    ensures
        forall|a: ArchetypeId, row: int|
            #[trigger] query_rows(world, ids).contains((a, row)) <==> (a < world.archetype_count()
                && archetype_matches(world, ids, a as int) && 0 <= row < world.archetype_rows(a as int)),
        forall|j: int, k: int|
            0 <= j < k < query_rows(world, ids).len() ==> location_before(
                #[trigger] query_rows(world, ids)[j],
                #[trigger] query_rows(world, ids)[k],
            ),
{
    let n = world.archetype_count();
    world.lemma_archetype_count_fits();
    let m = matching_archetypes(world, ids, n);
    lemma_matching_archetypes(world, ids, n);
    lemma_rows_from_members(world, m, 0, 0);
    lemma_rows_from_ordered(world, m, 0, 0);
    assert forall|a: ArchetypeId, row: int|
        #[trigger] query_rows(world, ids).contains((a, row)) <==> (a < world.archetype_count()
            && archetype_matches(world, ids, a as int) && 0 <= row < world.archetype_rows(a as int)) by {
        if query_rows(world, ids).contains((a, row)) {
            assert(visits(world, m, 0, 0, a, row));
            let i = choose|i: int|
                0 <= i < m.len() && m[i] == a && 0 <= row < world.rows_or_zero(a as int) && (i > 0
                    || row >= 0);
            assert(m.contains(a));
        }
        if a < world.archetype_count() && archetype_matches(world, ids, a as int) && 0 <= row
            < world.archetype_rows(a as int) {
            assert(m.contains(a));
            let i = choose|i: int| 0 <= i < m.len() && m[i] == a;
            assert(visits(world, m, 0, 0, a, row));
        }
    }
}

} // verus!

#![verifier::loop_isolation(false)]

use vstd::prelude::*;
use crate::db_tables::DbTableEntity;
use crate::util::{ids_contain, strings_contain, string_views};

verus! {

/// Mathematical image of one entity of a working set: the entity row together
/// with its one-hop neighbourhood and the rights accumulated on it.
pub ghost struct EntityV {
    pub id: usize,
    pub name: Seq<char>,
    pub external_id: Seq<char>,
    pub child_ids: Seq<usize>,
    pub parent_ids: Seq<usize>,
    pub rights: Seq<Seq<char>>,
}

/// Whether the group holds an entity with the given id.
pub open spec fn contains_id(g: Seq<EntityV>, id: usize) -> bool {
    exists|i: int| 0 <= i < g.len() && #[trigger] g[i].id == id
}

/// The position of the entity with the given id (meaningful when ids are
/// unique and the id is present).
pub open spec fn index_of_id(g: Seq<EntityV>, id: usize) -> int {
    choose|i: int| 0 <= i < g.len() && #[trigger] g[i].id == id
}

/// The entity with the given id.
pub open spec fn entry(g: Seq<EntityV>, id: usize) -> EntityV {
    g[index_of_id(g, id)]
}

/// Whether no two members of the group share an id.
pub open spec fn unique_ids(g: Seq<EntityV>) -> bool {
    forall|i: int, j: int|
        0 <= i < j < g.len() ==> #[trigger] g[i].id != #[trigger] g[j].id
}

/// The ids of the group, in group order.
pub open spec fn group_ids(g: Seq<EntityV>) -> Seq<usize> {
    g.map_values(|e: EntityV| e.id)
}

/// Replace the member with `e`'s id by `e`, or append `e` if the id is new.
pub open spec fn upsert(g: Seq<EntityV>, e: EntityV) -> Seq<EntityV> {
    if contains_id(g, e.id) {
        g.update(index_of_id(g, e.id), e)
    } else {
        g.push(e)
    }
}

/// Fold a sequence of entities into a group, later entries replacing earlier
/// ones with the same id.
pub open spec fn group_fold(s: Seq<EntityV>) -> Seq<EntityV>
    decreases s.len(),
{
    if s.len() == 0 {
        Seq::empty()
    } else {
        upsert(group_fold(s.drop_last()), s.last())
    }
}

/// Append to `a` every member of `b` that `a` does not yet hold; order of
/// first occurrence is kept, nothing is dropped from `a`.
pub open spec fn merge_ids(a: Seq<usize>, b: Seq<usize>) -> Seq<usize>
    decreases b.len(),
{
    if b.len() == 0 {
        a
    } else {
        merge_ids(if a.contains(b[0]) { a } else { a.push(b[0]) }, b.drop_first())
    }
}

/// Append to `a` every right of `b` that `a` does not yet hold.
pub open spec fn merge_rights(a: Seq<Seq<char>>, b: Seq<Seq<char>>) -> Seq<Seq<char>>
    decreases b.len(),
{
    if b.len() == 0 {
        a
    } else {
        merge_rights(if a.contains(b[0]) { a } else { a.push(b[0]) }, b.drop_first())
    }
}

/// Union of two working-set members with the same id: neighbourhood and
/// rights are merged, the row fields of `a` win.
pub open spec fn merge_entity(a: EntityV, b: EntityV) -> EntityV {
    EntityV {
        id: a.id,
        name: a.name,
        external_id: a.external_id,
        child_ids: merge_ids(a.child_ids, b.child_ids),
        parent_ids: merge_ids(a.parent_ids, b.parent_ids),
        rights: merge_rights(a.rights, b.rights),
    }
}

/// Merge one entity into a group.
pub open spec fn merge_one(g: Seq<EntityV>, e: EntityV) -> Seq<EntityV> {
    if contains_id(g, e.id) {
        g.update(index_of_id(g, e.id), merge_entity(entry(g, e.id), e))
    } else {
        g.push(e)
    }
}

/// Merge every member of `h` into `g`, in order.
pub open spec fn merge_groups(g: Seq<EntityV>, h: Seq<EntityV>) -> Seq<EntityV>
    decreases h.len(),
{
    if h.len() == 0 {
        g
    } else {
        merge_groups(merge_one(g, h[0]), h.drop_first())
    }
}


/// Record one child edge: append the child to the parent's one-hop child
/// list, when the parent is in the set.
pub open spec fn add_child_edge(g: Seq<EntityV>, p: usize, c: usize) -> Seq<EntityV> {
    if contains_id(g, p) {
        g.update(
            index_of_id(g, p),
            EntityV { child_ids: entry(g, p).child_ids.push(c), ..entry(g, p) },
        )
    } else {
        g
    }
}

/// Record a list of child edges, in order.
pub open spec fn add_child_edges(g: Seq<EntityV>, edges: Seq<(usize, usize)>) -> Seq<EntityV>
    decreases edges.len(),
{
    if edges.len() == 0 {
        g
    } else {
        add_child_edges(add_child_edge(g, edges[0].0, edges[0].1), edges.drop_first())
    }
}

/// Record one parent edge: append the parent to the child's one-hop parent
/// list, when the child is in the set.
pub open spec fn add_parent_edge(g: Seq<EntityV>, p: usize, c: usize) -> Seq<EntityV> {
    if contains_id(g, c) {
        g.update(
            index_of_id(g, c),
            EntityV { parent_ids: entry(g, c).parent_ids.push(p), ..entry(g, c) },
        )
    } else {
        g
    }
}

/// Record a list of parent edges, in order.
pub open spec fn add_parent_edges(g: Seq<EntityV>, edges: Seq<(usize, usize)>) -> Seq<EntityV>
    decreases edges.len(),
{
    if edges.len() == 0 {
        g
    } else {
        add_parent_edges(add_parent_edge(g, edges[0].0, edges[0].1), edges.drop_first())
    }
}

/// Attach one granted right: append it to the rights of the entity of the
/// pair, when that entity is in the set.
pub open spec fn add_right_annotation(g: Seq<EntityV>, id: usize, r: Seq<char>) -> Seq<EntityV> {
    if contains_id(g, id) {
        g.update(index_of_id(g, id), EntityV { rights: entry(g, id).rights.push(r), ..entry(g, id) })
    } else {
        g
    }
}

/// Attach a list of granted (entity, right) pairs, in order.
pub open spec fn add_right_annotations(g: Seq<EntityV>, pairs: Seq<(usize, Seq<char>)>) -> Seq<
    EntityV,
>
    decreases pairs.len(),
{
    if pairs.len() == 0 {
        g
    } else {
        add_right_annotations(
            add_right_annotation(g, pairs[0].0, pairs[0].1),
            pairs.drop_first(),
        )
    }
}

/// A node of the managed resource hierarchy, as handed around by the engine:
/// the stored row plus the one-hop edges and rights a query has attached.
#[derive(Clone, Debug)]
pub struct Entity {
    pub id: usize,
    pub name: String,
    pub external_id: String,
    pub child_ids: Vec<usize>,
    pub parent_ids: Vec<usize>,
    pub rights: Vec<String>,
}

impl View for Entity {
    type V = EntityV;

    open spec fn view(&self) -> EntityV {
        EntityV {
            id: self.id,
            name: self.name@,
            external_id: self.external_id@,
            child_ids: self.child_ids@,
            parent_ids: self.parent_ids@,
            rights: string_views(self.rights@),
        }
    }
}

impl Entity {
    /// A bare entity taken from a stored row: no edges, no rights yet.
    pub fn from_table_entity(e: &DbTableEntity) -> (r: Self)
        ensures
            r@ == (EntityV {
                id: e.id,
                name: e.name@,
                external_id: e.external_id@,
                child_ids: Seq::empty(),
                parent_ids: Seq::empty(),
                rights: Seq::empty(),
            }),
    {
        let r = Entity {
            id: e.id,
            name: e.name.clone(),
            external_id: e.external_id.clone(),
            child_ids: vec![],
            parent_ids: vec![],
            rights: vec![],
        };
        proof {
            assert(r@.child_ids =~= Seq::<usize>::empty());
            assert(r@.parent_ids =~= Seq::<usize>::empty());
            assert(r@.rights =~= Seq::<Seq<char>>::empty());
        }
        r
    }

    /// A copy of the entity whose contract states that nothing changes.
    pub fn duplicate(&self) -> (r: Self)
        ensures
            r@ == self@,
    {
        let r = Entity {
            id: self.id,
            name: self.name.clone(),
            external_id: self.external_id.clone(),
            child_ids: self.child_ids.clone(),
            parent_ids: self.parent_ids.clone(),
            rights: self.rights.clone(),
        };
        proof {
            assert(r.child_ids@ =~= self.child_ids@);
            assert(r.parent_ids@ =~= self.parent_ids@);
            assert(r.rights@ =~= self.rights@);
        }
        r
    }
}

impl PartialEq for Entity {
    /// Entities compare by id alone, as working sets key them by id.
    fn eq(&self, other: &Self) -> (r: bool) {
        self.id == other.id
    }
}

impl vstd::std_specs::cmp::PartialEqSpecImpl for Entity {
    open spec fn obeys_eq_spec() -> bool {
        true
    }

    open spec fn eq_spec(&self, other: &Entity) -> bool {
        self.id == other.id
    }
}

/// A transient working set of entities, keyed by id.
#[derive(Clone, Debug)]
pub struct EntityGroup {
    entities: Vec<Entity>,
}

impl View for EntityGroup {
    type V = Seq<EntityV>;

    closed spec fn view(&self) -> Seq<EntityV> {
        self.entities@.map_values(|e: Entity| e@)
    }
}

impl EntityGroup {
    /// Well-formedness: members carry pairwise distinct ids.
    pub open spec fn wf(&self) -> bool {
        unique_ids(self@)
    }

    /// The stored entity at one position.
    pub closed spec fn spec_entity_at(&self, i: int) -> Entity {
        self.entities@[i]
    }

    /// The empty working set.
    pub fn empty() -> (r: Self)
        ensures
            r.wf(),
            r@ == Seq::<EntityV>::empty(),
    {
        let r = EntityGroup { entities: vec![] };
        proof {
            assert(r@ =~= Seq::<EntityV>::empty());
        }
        r
    }

    /// Build a group from a list; a later entry replaces an earlier one with
    /// the same id.
    pub fn from_vec(entities: Vec<Entity>) -> (r: Self)
        ensures
            r.wf(),
            r@ == group_fold(entities@.map_values(|e: Entity| e@)),
    {
        let ghost s = entities@.map_values(|e: Entity| e@);
        let mut r = EntityGroup::empty();
        let mut i: usize = 0;
        while i < entities.len()
            invariant
                0 <= i <= entities@.len(),
                s == entities@.map_values(|e: Entity| e@),
                r.wf(),
                r@ == group_fold(s.take(i as int)),
            decreases entities@.len() - i,
        {
            let e = entities[i].duplicate();
            r.insert(e);
            proof {
                assert(s.take(i + 1 as int).drop_last() =~= s.take(i as int));
                assert(s.take(i + 1 as int).last() == s[i as int]);
            }
            i += 1;
        }
        proof {
            assert(s.take(s.len() as int) =~= s);
        }
        r
    }

    /// Whether an entity with this id is in the set.
    pub fn has(&self, id: usize) -> (b: bool)
        ensures
            b == contains_id(self@, id),
    {
        let mut i: usize = 0;
        while i < self.entities.len()
            invariant
                0 <= i <= self.entities@.len(),
                self@ == self.entities@.map_values(|e: Entity| e@),
                forall|j: int| 0 <= j < i ==> #[trigger] self@[j].id != id,
            decreases self.entities@.len() - i,
        {
            if self.entities[i].id == id {
                assert(self@[i as int].id == id);
                return true;
            }
            i += 1;
        }
        false
    }

    /// The entity with this id, if present.
    pub fn get(&self, id: usize) -> (r: Option<&Entity>)
        requires
            self.wf(),
        ensures
            match r {
                Some(e) => contains_id(self@, id) && e@ == entry(self@, id),
                None => !contains_id(self@, id),
            },
    {
        let mut i: usize = 0;
        while i < self.entities.len()
            invariant
                0 <= i <= self.entities@.len(),
                self.wf(),
                self@ == self.entities@.map_values(|e: Entity| e@),
                forall|j: int| 0 <= j < i ==> #[trigger] self@[j].id != id,
            decreases self.entities@.len() - i,
        {
            if self.entities[i].id == id {
                proof {
                    assert(self@[i as int].id == id);
                    let k = index_of_id(self@, id);
                    assert(0 <= k < self@.len() && self@[k].id == id);
                    assert(k == i as int);
                }
                return Some(&self.entities[i]);
            }
            i += 1;
        }
        None
    }


    /// A mutable borrow of the entity with this id, if present. The caller
    /// must leave the id in place, or the set's key invariant is lost.
    pub fn get_mut(&mut self, id: usize) -> (r: Option<&mut Entity>)
        requires
            old(self).wf(),
        ensures
            match r {
                Some(e) => contains_id(old(self)@, id) && *e == old(self).spec_entity_at(
                    index_of_id(old(self)@, id),
                ) && final(self)@ == old(self)@.update(index_of_id(old(self)@, id), final(e)@),
                None => !contains_id(old(self)@, id) && final(self)@ == old(self)@,
            },
    {
        let ghost g = self@;
        let n = self.entities.len();
        let mut i: usize = 0;
        while i < n
            invariant
                0 <= i <= n,
                n == self.entities@.len(),
                self@ == g,
                self@ == self.entities@.map_values(|x: Entity| x@),
                forall|j: int| 0 <= j < i ==> #[trigger] g[j].id != id,
            decreases n - i,
        {
            if self.entities[i].id == id {
                proof {
                    assert(g[i as int].id == id);
                    assert(contains_id(g, id));
                }
                break;
            }
            i += 1;
        }
        if i < n {
            proof {
                let k = index_of_id(g, id);
                assert(0 <= k < g.len() && g[k].id == id);
            }
            Some(&mut self.entities[i])
        } else {
            None
        }
    }


    /// A mutable borrow of the entity with the argument's id, inserting the
    /// argument first when the id is new. The caller must leave the id in
    /// place, or the set's key invariant is lost.
    pub fn get_create_mut(&mut self, entity: Entity) -> (r: &mut Entity)
        requires
            old(self).wf(),
        ensures
            *r == if contains_id(old(self)@, entity.id) {
                old(self).spec_entity_at(index_of_id(old(self)@, entity.id))
            } else {
                entity
            },
            contains_id(old(self)@, entity.id) ==> final(self)@ == old(self)@.update(
                index_of_id(old(self)@, entity.id),
                final(r)@,
            ),
            !contains_id(old(self)@, entity.id) ==> final(self)@ == old(self)@.push(final(r)@),
    {
        let id = entity.id;
        let ghost g = self@;
        let n = self.entities.len();
        let mut i: usize = 0;
        while i < n
            invariant
                0 <= i <= n,
                n == self.entities@.len(),
                self@ == g,
                self@ == self.entities@.map_values(|x: Entity| x@),
                forall|j: int| 0 <= j < i ==> #[trigger] g[j].id != id,
            decreases n - i,
        {
            if self.entities[i].id == id {
                proof {
                    assert(g[i as int].id == id);
                    assert(contains_id(g, id));
                }
                break;
            }
            i += 1;
        }
        if i < n {
            proof {
                let k = index_of_id(g, id);
                assert(0 <= k < g.len() && g[k].id == id);
            }
            &mut self.entities[i]
        } else {
            proof {
                assert(!contains_id(g, id));
            }
            self.entities.push(entity);
            proof {
                assert(self.entities@.map_values(|x: Entity| x@) =~= g.push(
                    self.entities@[i as int]@,
                ));
            }
            &mut self.entities[i]
        }
    }

    /// Replace the member with `e`'s id by `e`, or append `e` if its id is
    /// new.
    pub fn insert(&mut self, e: Entity)
        requires
            old(self).wf(),
        ensures
            final(self).wf(),
            final(self)@ == upsert(old(self)@, e@),
    {
        let ghost g = self@;
        let mut i: usize = 0;
        while i < self.entities.len()
            invariant
                0 <= i <= self.entities@.len(),
                self.wf(),
                self@ == g,
                self@ == self.entities@.map_values(|x: Entity| x@),
                forall|j: int| 0 <= j < i ==> #[trigger] g[j].id != e@.id,
            decreases self.entities@.len() - i,
        {
            if self.entities[i].id == e.id {
                proof {
                    assert(g[i as int].id == e@.id);
                    assert(contains_id(g, e@.id));
                    let k = index_of_id(g, e@.id);
                    assert(0 <= k < g.len() && g[k].id == e@.id);
                    assert(k == i as int);
                }
                self.entities.set(i, e);
                proof {
                    assert(self@ =~= g.update(i as int, e@));
                    assert(self@ == upsert(g, e@));
                }
                return;
            }
            i += 1;
        }
        self.entities.push(e);
        proof {
            assert(self@ =~= g.push(e@));
        }
    }

    /// The entities of the set, in set order.
    pub fn as_vec(&self) -> (r: Vec<Entity>)
        ensures
            r@.map_values(|e: Entity| e@) == self@,
    {
        let mut r: Vec<Entity> = Vec::new();
        let mut i: usize = 0;
        while i < self.entities.len()
            invariant
                0 <= i <= self.entities@.len(),
                self@ == self.entities@.map_values(|e: Entity| e@),
                r@.len() == i,
                forall|j: int| 0 <= j < i ==> #[trigger] r@[j]@ == self@[j],
            decreases self.entities@.len() - i,
        {
            r.push(self.entities[i].duplicate());
            i += 1;
        }
        proof {
            assert(r@.map_values(|e: Entity| e@) =~= self@);
        }
        r
    }

    /// The entities of the set, ordered by ascending id.
    pub fn as_sorted_vec(&self) -> (r: Vec<Entity>)
        requires
            self.wf(),
        ensures
            r@.len() == self@.len(),
            forall|i: int, j: int|
                0 <= i < j < r@.len() ==> #[trigger] r@[i].id < #[trigger] r@[j].id,
            forall|v: EntityV| #[trigger] self@.contains(v) <==> r@.map_values(|e: Entity| e@).contains(v),
    {
        let mut r: Vec<Entity> = Vec::new();
        let mut i: usize = 0;
        while i < self.entities.len()
            invariant
                0 <= i <= self.entities@.len(),
                self.wf(),
                self@ == self.entities@.map_values(|e: Entity| e@),
                r@.len() == i,
                forall|a: int, b: int|
                    0 <= a < b < r@.len() ==> #[trigger] r@[a].id < #[trigger] r@[b].id,
                r@.map_values(|e: Entity| e@).to_set() =~= self@.take(i as int).to_set(),
                forall|a: int|
                    0 <= a < r@.len() ==> contains_id(self@.take(i as int), #[trigger] r@[a].id),
            decreases self.entities@.len() - i,
        {
            let e = self.entities[i].duplicate();
            proof {
                // the id of the next source element is not yet in `r`
                assert forall|a: int| 0 <= a < r@.len() implies #[trigger] r@[a].id != e.id by {
                    if r@[a].id == e.id {
                        let t = self@.take(i as int);
                        let k = choose|k: int| 0 <= k < t.len() && #[trigger] t[k].id == r@[a].id;
                        assert(self@[k].id == e.id);
                        assert(self@[i as int].id == e.id);
                    }
                }
            }
            let mut pos: usize = 0;
            while pos < r.len() && r[pos].id < e.id
                invariant
                    0 <= pos <= r@.len(),
                    forall|a: int| 0 <= a < pos ==> #[trigger] r@[a].id < e.id,
                decreases r@.len() - pos,
            {
                pos += 1;
            }
            let ghost r_old = r@;
            proof {
                vstd::seq::Seq::insert_ensures(r@, pos as int, e);
            }
            r.insert(pos, e);
            proof {
                assert(r@ =~= r_old.insert(pos as int, e));
                assert(r@.map_values(|x: Entity| x@) =~= r_old.map_values(|x: Entity| x@).insert(
                    pos as int,
                    e@,
                ));
                assert(self@.take(i + 1 as int).drop_last() =~= self@.take(i as int));
                assert(r@.map_values(|x: Entity| x@).to_set() =~= self@.take(i + 1 as int).to_set())
                    by {
                    let m_new = r@.map_values(|x: Entity| x@);
                    let m_old = r_old.map_values(|x: Entity| x@);
                    vstd::seq::Seq::insert_ensures(m_old, pos as int, e@);
                    assert forall|v: EntityV| m_new.to_set().contains(v) implies self@.take(
                        i + 1 as int,
                    ).to_set().contains(v) by {
                        let a = choose|a: int| 0 <= a < m_new.len() && #[trigger] m_new[a] == v;
                        if a == pos as int {
                            assert(self@.take(i + 1 as int)[i as int] == e@);
                            assert(self@.take(i + 1 as int).contains(e@));
                        } else {
                            let b = if a < pos as int { a } else { a - 1 };
                            assert(m_old[b] == v);
                            assert(m_old.to_set().contains(v));
                            let t0 = self@.take(i as int);
                            assert(t0.to_set().contains(v));
                            let c = choose|c: int| 0 <= c < t0.len() && #[trigger] t0[c] == v;
                            assert(self@.take(i + 1 as int)[c] == v);
                        }
                    }
                    assert forall|v: EntityV| self@.take(i + 1 as int).to_set().contains(v) implies
                        m_new.to_set().contains(v) by {
                        let t1 = self@.take(i + 1 as int);
                        let c = choose|c: int| 0 <= c < t1.len() && #[trigger] t1[c] == v;
                        if c == i as int {
                            assert(m_new[pos as int] == e@);
                            assert(m_new.contains(v));
                        } else {
                            assert(self@.take(i as int)[c] == v);
                            assert(self@.take(i as int).to_set().contains(v));
                            let b = choose|b: int| 0 <= b < m_old.len() && #[trigger] m_old[b] == v;
                            let a = if b < pos as int { b } else { b + 1 };
                            assert(m_new[a] == v);
                        }
                    }
                }
                assert forall|a: int| 0 <= a < r@.len() implies contains_id(
                    self@.take(i + 1 as int),
                    #[trigger] r@[a].id,
                ) by {
                    let v = r@.map_values(|x: Entity| x@)[a];
                    assert(r@.map_values(|x: Entity| x@).to_set().contains(v));
                    let t1 = self@.take(i + 1 as int);
                    assert(t1.to_set().contains(v));
                    let c = choose|c: int| 0 <= c < t1.len() && #[trigger] t1[c] == v;
                    assert(self@.take(i + 1 as int)[c].id == r@[a].id);
                }
            }
            i += 1;
        }
        proof {
            assert(self@.take(self@.len() as int) =~= self@);
            let m = r@.map_values(|x: Entity| x@);
            assert forall|v: EntityV| self@.contains(v) implies m.contains(v) by {
                assert(self@.to_set().contains(v));
                assert(m.to_set().contains(v));
            }
            assert forall|v: EntityV| m.contains(v) implies self@.contains(v) by {
                assert(m.to_set().contains(v));
                assert(self@.to_set().contains(v));
            }
        }
        r
    }

    /// The ids of the set, in set order.
    pub fn ids(&self) -> (r: Vec<usize>)
        ensures
            r@ == group_ids(self@),
    {
        let mut r: Vec<usize> = Vec::new();
        let mut i: usize = 0;
        while i < self.entities.len()
            invariant
                0 <= i <= self.entities@.len(),
                self@ == self.entities@.map_values(|e: Entity| e@),
                r@ =~= group_ids(self@).take(i as int),
            decreases self.entities@.len() - i,
        {
            r.push(self.entities[i].id);
            proof {
                assert(r@ =~= group_ids(self@).take(i + 1 as int));
            }
            i += 1;
        }
        proof {
            assert(group_ids(self@).take(self@.len() as int) =~= group_ids(self@));
        }
        r
    }


    /// Append one child id to the entity of the given id, if present.
    pub fn push_child_id(&mut self, id: usize, child: usize)
        requires
            old(self).wf(),
        ensures
            final(self).wf(),
            final(self)@ == add_child_edge(old(self)@, id, child),
    {
        let ghost g = self@;
        let mut i: usize = 0;
        while i < self.entities.len()
            invariant
                0 <= i <= self.entities@.len(),
                self.wf(),
                self@ == g,
                self@ == self.entities@.map_values(|x: Entity| x@),
                forall|j: int| 0 <= j < i ==> #[trigger] g[j].id != id,
            decreases self.entities@.len() - i,
        {
            if self.entities[i].id == id {
                proof {
                    assert(g[i as int].id == id);
                    assert(contains_id(g, id));
                    let k = index_of_id(g, id);
                    assert(0 <= k < g.len() && g[k].id == id);
                    assert(k == i as int);
                }
                let mut e = self.entities[i].duplicate();
                e.child_ids.push(child);
                self.entities.set(i, e);
                proof {
                    assert(self@ =~= g.update(
                        i as int,
                        (EntityV { child_ids: entry(g, id).child_ids.push(child), ..entry(g, id) }),
                    ));
                    assert(self@ == add_child_edge(g, id, child));
                }
                return;
            }
            i += 1;
        }
        proof {
            assert(!contains_id(g, id));
        }
    }

    /// Append one parent id to the entity of the given id, if present.
    pub fn push_parent_id(&mut self, id: usize, parent: usize)
        requires
            old(self).wf(),
        ensures
            final(self).wf(),
            final(self)@ == add_parent_edge(old(self)@, parent, id),
    {
        let ghost g = self@;
        let mut i: usize = 0;
        while i < self.entities.len()
            invariant
                0 <= i <= self.entities@.len(),
                self.wf(),
                self@ == g,
                self@ == self.entities@.map_values(|x: Entity| x@),
                forall|j: int| 0 <= j < i ==> #[trigger] g[j].id != id,
            decreases self.entities@.len() - i,
        {
            if self.entities[i].id == id {
                proof {
                    assert(g[i as int].id == id);
                    assert(contains_id(g, id));
                    let k = index_of_id(g, id);
                    assert(0 <= k < g.len() && g[k].id == id);
                    assert(k == i as int);
                }
                let mut e = self.entities[i].duplicate();
                e.parent_ids.push(parent);
                self.entities.set(i, e);
                proof {
                    assert(self@ =~= g.update(
                        i as int,
                        (EntityV {
                            parent_ids: entry(g, id).parent_ids.push(parent),
                            ..entry(g, id)
                        }),
                    ));
                    assert(self@ == add_parent_edge(g, parent, id));
                }
                return;
            }
            i += 1;
        }
        proof {
            assert(!contains_id(g, id));
        }
    }

    /// Append one granted right to the entity of the given id, if present.
    pub fn push_right(&mut self, id: usize, right: &String)
        requires
            old(self).wf(),
        ensures
            final(self).wf(),
            final(self)@ == add_right_annotation(old(self)@, id, right@),
    {
        let ghost g = self@;
        let mut i: usize = 0;
        while i < self.entities.len()
            invariant
                0 <= i <= self.entities@.len(),
                self.wf(),
                self@ == g,
                self@ == self.entities@.map_values(|x: Entity| x@),
                forall|j: int| 0 <= j < i ==> #[trigger] g[j].id != id,
            decreases self.entities@.len() - i,
        {
            if self.entities[i].id == id {
                proof {
                    assert(g[i as int].id == id);
                    assert(contains_id(g, id));
                    let k = index_of_id(g, id);
                    assert(0 <= k < g.len() && g[k].id == id);
                    assert(k == i as int);
                }
                let mut e = self.entities[i].duplicate();
                e.rights.push(right.clone());
                self.entities.set(i, e);
                proof {
                    assert(string_views(e.rights@) =~= entry(g, id).rights.push(right@));
                    assert(self@ =~= g.update(
                        i as int,
                        (EntityV { rights: entry(g, id).rights.push(right@), ..entry(g, id) }),
                    ));
                    assert(self@ == add_right_annotation(g, id, right@));
                }
                return;
            }
            i += 1;
        }
        proof {
            assert(!contains_id(g, id));
        }
    }

    /// Merge another working set into this one, member by member.
    pub fn merge_from(&mut self, other: EntityGroup)
        requires
            old(self).wf(),
        ensures
            final(self).wf(),
            final(self)@ == merge_groups(old(self)@, other@),
    {
        let ghost h = other@;
        proof {
            assert(h.skip(0) =~= h);
        }
        let mut i: usize = 0;
        while i < other.entities.len()
            invariant
                0 <= i <= other.entities@.len(),
                h == other.entities@.map_values(|e: Entity| e@),
                self.wf(),
                merge_groups(self@, h.skip(i as int)) == merge_groups(old(self)@, h),
            decreases other.entities@.len() - i,
        {
            let e = other.entities[i].duplicate();
            proof {
                assert(h.skip(i as int)[0] == h[i as int]);
                assert(h.skip(i as int).drop_first() =~= h.skip(i + 1 as int));
            }
            self.merge_in(e);
            i += 1;
        }
        proof {
            assert(h.skip(h.len() as int) =~= Seq::<EntityV>::empty());
        }
    }

    /// Merge a single entity into this set.
    pub(crate) fn merge_in(&mut self, e: Entity)
        requires
            old(self).wf(),
        ensures
            final(self).wf(),
            final(self)@ == merge_one(old(self)@, e@),
    {
        let ghost g = self@;
        let mut i: usize = 0;
        while i < self.entities.len()
            invariant
                0 <= i <= self.entities@.len(),
                self.wf(),
                self@ == g,
                self@ == self.entities@.map_values(|x: Entity| x@),
                forall|j: int| 0 <= j < i ==> #[trigger] g[j].id != e@.id,
            decreases self.entities@.len() - i,
        {
            if self.entities[i].id == e.id {
                proof {
                    assert(g[i as int].id == e@.id);
                    assert(contains_id(g, e@.id));
                    let k = index_of_id(g, e@.id);
                    assert(0 <= k < g.len() && g[k].id == e@.id);
                    assert(k == i as int);
                }
                let cur = self.entities[i].duplicate();
                let merged = merge_entities(cur, &e);
                self.entities.set(i, merged);
                proof {
                    assert(self@ =~= g.update(i as int, merge_entity(entry(g, e@.id), e@)));
                    assert(self@ == merge_one(g, e@));
                }
                return;
            }
            i += 1;
        }
        self.entities.push(e);
        proof {
            assert(self@ =~= g.push(e@));
        }
    }
}

/// Merge two entities with the same id, as `merge_entity` states.
fn merge_entities(a: Entity, b: &Entity) -> (r: Entity)
    ensures
        r@ == merge_entity(a@, b@),
{
    let Entity { id, name, external_id, child_ids, parent_ids, rights } = a;
    Entity {
        id,
        name,
        external_id,
        child_ids: merge_id_vec(child_ids, &b.child_ids),
        parent_ids: merge_id_vec(parent_ids, &b.parent_ids),
        rights: merge_right_vec(rights, &b.rights),
    }
}

/// Append to `a` the ids of `b` that `a` does not yet hold.
pub fn merge_id_vec(a: Vec<usize>, b: &Vec<usize>) -> (r: Vec<usize>)
    ensures
        r@ == merge_ids(a@, b@),
{
    let mut r = a;
    proof {
        assert(b@.skip(0) =~= b@);
    }
    let mut i: usize = 0;
    while i < b.len()
        invariant
            0 <= i <= b@.len(),
            merge_ids(r@, b@.skip(i as int)) == merge_ids(a@, b@),
        decreases b@.len() - i,
    {
        proof {
            assert(b@.skip(i as int)[0] == b@[i as int]);
            assert(b@.skip(i as int).drop_first() =~= b@.skip(i + 1 as int));
        }
        if !ids_contain(r.as_slice(), b[i]) {
            r.push(b[i]);
        }
        i += 1;
    }
    proof {
        assert(b@.skip(b@.len() as int) =~= Seq::<usize>::empty());
    }
    r
}

/// Append to `a` the rights of `b` that `a` does not yet hold.
pub fn merge_right_vec(a: Vec<String>, b: &Vec<String>) -> (r: Vec<String>)
    ensures
        string_views(r@) == merge_rights(string_views(a@), string_views(b@)),
{
    let ghost bv = string_views(b@);
    let mut r = a;
    proof {
        assert(bv.skip(0) =~= bv);
    }
    let mut i: usize = 0;
    while i < b.len()
        invariant
            0 <= i <= b@.len(),
            bv == string_views(b@),
            merge_rights(string_views(r@), bv.skip(i as int)) == merge_rights(
                string_views(a@),
                bv,
            ),
        decreases b@.len() - i,
    {
        proof {
            assert(bv.skip(i as int)[0] == bv[i as int]);
            assert(bv.skip(i as int).drop_first() =~= bv.skip(i + 1 as int));
        }
        if !strings_contain(&r, &b[i]) {
            let ghost rv = string_views(r@);
            r.push(b[i].clone());
            proof {
                assert(string_views(r@) =~= rv.push(bv[i as int]));
            }
        }
        i += 1;
    }
    proof {
        assert(bv.skip(bv.len() as int) =~= Seq::<Seq<char>>::empty());
    }
    r
}

/// Recording edges or rights never changes the ids of a working set.
pub proof fn lemma_child_edges_ids(g: Seq<EntityV>, edges: Seq<(usize, usize)>)
    ensures
        group_ids(add_child_edges(g, edges)) == group_ids(g),
    decreases edges.len(),
{
    if edges.len() == 0 {
    } else {
        let g2 = add_child_edge(g, edges[0].0, edges[0].1);
        assert(group_ids(g2) =~= group_ids(g)) by {
            if contains_id(g, edges[0].0) {
                let k = index_of_id(g, edges[0].0);
                assert(0 <= k < g.len() && g[k].id == edges[0].0);
            }
        }
        lemma_child_edges_ids(g2, edges.drop_first());
    }
}

/// Recording parent edges never changes the ids of a working set.
pub proof fn lemma_parent_edges_ids(g: Seq<EntityV>, edges: Seq<(usize, usize)>)
    ensures
        group_ids(add_parent_edges(g, edges)) == group_ids(g),
    decreases edges.len(),
{
    if edges.len() == 0 {
    } else {
        let g2 = add_parent_edge(g, edges[0].0, edges[0].1);
        assert(group_ids(g2) =~= group_ids(g)) by {
            if contains_id(g, edges[0].1) {
                let k = index_of_id(g, edges[0].1);
                assert(0 <= k < g.len() && g[k].id == edges[0].1);
            }
        }
        lemma_parent_edges_ids(g2, edges.drop_first());
    }
}

/// Attaching granted rights never changes the ids of a working set.
pub proof fn lemma_annotations_ids(g: Seq<EntityV>, pairs: Seq<(usize, Seq<char>)>)
    ensures
        group_ids(add_right_annotations(g, pairs)) == group_ids(g),
    decreases pairs.len(),
{
    if pairs.len() == 0 {
    } else {
        let g2 = add_right_annotation(g, pairs[0].0, pairs[0].1);
        assert(group_ids(g2) =~= group_ids(g)) by {
            if contains_id(g, pairs[0].0) {
                let k = index_of_id(g, pairs[0].0);
                assert(0 <= k < g.len() && g[k].id == pairs[0].0);
            }
        }
        lemma_annotations_ids(g2, pairs.drop_first());
    }
}

/// Unique ids are exactly a duplicate-free id sequence.
pub proof fn lemma_group_ids_no_dup(g: Seq<EntityV>)
    requires
        unique_ids(g),
    ensures
        group_ids(g).no_duplicates(),
{
    assert forall|i: int, j: int|
        0 <= i < group_ids(g).len() && 0 <= j < group_ids(g).len() && i != j implies group_ids(g)[i]
        != group_ids(g)[j] by {
        assert(group_ids(g)[i] == g[i].id && group_ids(g)[j] == g[j].id);
    }
}

/// Sequences with the same ids are unique together.
pub proof fn lemma_unique_from_ids(a: Seq<EntityV>, b: Seq<EntityV>)
    requires
        group_ids(a) == group_ids(b),
        unique_ids(b),
    ensures
        unique_ids(a),
{
    assert(group_ids(a).len() == a.len());
    assert(group_ids(b).len() == b.len());
    assert(a.len() == b.len());
    assert forall|i: int, j: int| 0 <= i < j < a.len() implies #[trigger] a[i].id
        != #[trigger] a[j].id by {
        assert(group_ids(a)[i] == a[i].id && group_ids(a)[j] == a[j].id);
        assert(b[i].id == group_ids(b)[i] && b[j].id == group_ids(b)[j]);
    }
}

/// Merging one entity adds its id, or leaves the ids alone if it was known.
pub proof fn lemma_merge_one_ids(g: Seq<EntityV>, e: EntityV)
    requires
        unique_ids(g),
    ensures
        unique_ids(merge_one(g, e)),
        forall|x: usize|
            #[trigger] contains_id(merge_one(g, e), x) <==> (contains_id(g, x) || x == e.id),
        group_ids(merge_one(g, e)) == if contains_id(g, e.id) {
            group_ids(g)
        } else {
            group_ids(g).push(e.id)
        },
{
    let m = merge_one(g, e);
    if contains_id(g, e.id) {
        let k = index_of_id(g, e.id);
        assert(0 <= k < g.len() && g[k].id == e.id);
        assert(m[k].id == e.id);
        assert(group_ids(m) =~= group_ids(g));
        lemma_unique_from_ids(m, g);
        assert forall|x: usize| #[trigger] contains_id(m, x) implies (contains_id(g, x) || x
            == e.id) by {
            let i = choose|i: int| 0 <= i < m.len() && #[trigger] m[i].id == x;
            assert(g[i].id == x || i == k);
        }
        assert forall|x: usize| contains_id(g, x) implies #[trigger] contains_id(m, x) by {
            let i = choose|i: int| 0 <= i < g.len() && #[trigger] g[i].id == x;
            assert(m[i].id == x || i == k);
            if i == k {
                assert(m[k].id == e.id && g[k].id == e.id);
            }
        }
    } else {
        assert(group_ids(m) =~= group_ids(g).push(e.id));
        assert forall|i: int, j: int| 0 <= i < j < m.len() implies #[trigger] m[i].id
            != #[trigger] m[j].id by {
            if j == m.len() - 1 {
                if m[i].id == e.id {
                    assert(g[i].id == e.id);
                }
            }
        }
        assert forall|x: usize| #[trigger] contains_id(m, x) implies (contains_id(g, x) || x
            == e.id) by {
            let i = choose|i: int| 0 <= i < m.len() && #[trigger] m[i].id == x;
            if i < g.len() {
                assert(g[i].id == x);
            }
        }
        assert forall|x: usize| contains_id(g, x) implies #[trigger] contains_id(m, x) by {
            let i = choose|i: int| 0 <= i < g.len() && #[trigger] g[i].id == x;
            assert(m[i].id == x);
        }
        assert(m[m.len() - 1].id == e.id);
        assert(contains_id(m, e.id));
    }
}

/// Merging keeps every right already present.
pub proof fn lemma_merge_rights_keeps(a: Seq<Seq<char>>, b: Seq<Seq<char>>)
    ensures
        forall|x: Seq<char>| a.contains(x) ==> #[trigger] merge_rights(a, b).contains(x),
    decreases b.len(),
{
    if b.len() == 0 {
    } else {
        let a2 = if a.contains(b[0]) {
            a
        } else {
            a.push(b[0])
        };
        assert forall|x: Seq<char>| a.contains(x) implies a2.contains(x) by {
            let i = choose|i: int| 0 <= i < a.len() && #[trigger] a[i] == x;
            assert(a2[i] == x);
        }
        lemma_merge_rights_keeps(a2, b.drop_first());
        assert(merge_rights(a, b) == merge_rights(a2, b.drop_first()));
        assert forall|x: Seq<char>| a.contains(x) implies #[trigger] merge_rights(a, b).contains(
            x,
        ) by {
            assert(a2.contains(x));
            assert(merge_rights(a2, b.drop_first()).contains(x));
        }
    }
}

/// Recording child edges keeps every member's id and rights in place.
pub proof fn lemma_child_edges_positional(g: Seq<EntityV>, edges: Seq<(usize, usize)>)
    ensures
        add_child_edges(g, edges).len() == g.len(),
        forall|j: int|
            0 <= j < g.len() ==> #[trigger] add_child_edges(g, edges)[j].id == g[j].id
                && add_child_edges(g, edges)[j].rights == g[j].rights,
    decreases edges.len(),
{
    if edges.len() == 0 {
    } else {
        let g2 = add_child_edge(g, edges[0].0, edges[0].1);
        assert(g2.len() == g.len() && forall|j: int|
            0 <= j < g.len() ==> #[trigger] g2[j].id == g[j].id && g2[j].rights == g[j].rights) by {
            if contains_id(g, edges[0].0) {
                let k = index_of_id(g, edges[0].0);
                assert(0 <= k < g.len() && g[k].id == edges[0].0);
            }
        }
        lemma_child_edges_positional(g2, edges.drop_first());
        assert(add_child_edges(g, edges) == add_child_edges(g2, edges.drop_first()));
        assert forall|j: int| 0 <= j < g.len() implies #[trigger] add_child_edges(g, edges)[j].id
            == g[j].id && add_child_edges(g, edges)[j].rights == g[j].rights by {
            assert(add_child_edges(g2, edges.drop_first())[j].id == g2[j].id);
            assert(add_child_edges(g2, edges.drop_first())[j].rights == g2[j].rights);
        }
    }
}

/// Recording parent edges keeps every member's id and rights in place.
pub proof fn lemma_parent_edges_positional(g: Seq<EntityV>, edges: Seq<(usize, usize)>)
    ensures
        add_parent_edges(g, edges).len() == g.len(),
        forall|j: int|
            0 <= j < g.len() ==> #[trigger] add_parent_edges(g, edges)[j].id == g[j].id
                && add_parent_edges(g, edges)[j].rights == g[j].rights,
    decreases edges.len(),
{
    if edges.len() == 0 {
    } else {
        let g2 = add_parent_edge(g, edges[0].0, edges[0].1);
        assert(g2.len() == g.len() && forall|j: int|
            0 <= j < g.len() ==> #[trigger] g2[j].id == g[j].id && g2[j].rights == g[j].rights) by {
            if contains_id(g, edges[0].1) {
                let k = index_of_id(g, edges[0].1);
                assert(0 <= k < g.len() && g[k].id == edges[0].1);
            }
        }
        lemma_parent_edges_positional(g2, edges.drop_first());
        assert(add_parent_edges(g, edges) == add_parent_edges(g2, edges.drop_first()));
        assert forall|j: int| 0 <= j < g.len() implies #[trigger] add_parent_edges(g, edges)[j].id
            == g[j].id && add_parent_edges(g, edges)[j].rights == g[j].rights by {
            assert(add_parent_edges(g2, edges.drop_first())[j].id == g2[j].id);
            assert(add_parent_edges(g2, edges.drop_first())[j].rights == g2[j].rights);
        }
    }
}

/// Attaching rights keeps ids in place and never drops a right.
pub proof fn lemma_annotations_positional(g: Seq<EntityV>, pairs: Seq<(usize, Seq<char>)>)
    ensures
        add_right_annotations(g, pairs).len() == g.len(),
        forall|j: int|
            0 <= j < g.len() ==> #[trigger] add_right_annotations(g, pairs)[j].id == g[j].id,
        forall|j: int, x: Seq<char>|
            0 <= j < g.len() && g[j].rights.contains(x) ==> #[trigger] add_right_annotations(
                g,
                pairs,
            )[j].rights.contains(x),
    decreases pairs.len(),
{
    if pairs.len() == 0 {
    } else {
        let g2 = add_right_annotation(g, pairs[0].0, pairs[0].1);
        assert(g2.len() == g.len() && (forall|j: int|
            0 <= j < g.len() ==> #[trigger] g2[j].id == g[j].id) && (forall|j: int, x: Seq<char>|
            0 <= j < g.len() && g[j].rights.contains(x) ==> #[trigger] g2[j].rights.contains(x)))
            by {
            if contains_id(g, pairs[0].0) {
                let k = index_of_id(g, pairs[0].0);
                assert(0 <= k < g.len() && g[k].id == pairs[0].0);
                assert forall|j: int, x: Seq<char>|
                    0 <= j < g.len() && g[j].rights.contains(x) implies #[trigger] g2[
                    j].rights.contains(x) by {
                    if j == k {
                        let i = choose|i: int|
                            0 <= i < g[j].rights.len() && #[trigger] g[j].rights[i] == x;
                        assert(g2[j].rights[i] == x);
                    }
                }
            }
        }
        lemma_annotations_positional(g2, pairs.drop_first());
        assert(add_right_annotations(g, pairs) == add_right_annotations(g2, pairs.drop_first()));
        assert forall|j: int| 0 <= j < g.len() implies #[trigger] add_right_annotations(g, pairs)[
        j].id == g[j].id by {
            assert(add_right_annotations(g2, pairs.drop_first())[j].id == g2[j].id);
        }
        assert forall|j: int, x: Seq<char>|
            0 <= j < g.len() && g[j].rights.contains(x) implies #[trigger] add_right_annotations(
            g,
            pairs,
        )[j].rights.contains(x) by {
            assert(g2[j].rights.contains(x));
            assert(add_right_annotations(g2, pairs.drop_first())[j].rights.contains(x));
        }
    }
}

/// After attaching a list of pairs that all carry one right, every member
/// named by some pair carries that right.
pub proof fn lemma_annotations_give_right(g: Seq<EntityV>, pairs: Seq<(usize, Seq<char>)>, rt: Seq<char>)
    requires
        unique_ids(g),
        forall|k: int| 0 <= k < pairs.len() ==> #[trigger] pairs[k].1 == rt,
    ensures
        forall|j: int|
            0 <= j < add_right_annotations(g, pairs).len() && (exists|k: int|
                0 <= k < pairs.len() && #[trigger] pairs[k].0 == add_right_annotations(g, pairs)[
                j].id) ==> #[trigger] add_right_annotations(g, pairs)[j].rights.contains(rt),
    decreases pairs.len(),
{
    if pairs.len() == 0 {
    } else {
        let g2 = add_right_annotation(g, pairs[0].0, pairs[0].1);
        assert(unique_ids(g2)) by {
            assert(g2.len() == g.len() && forall|j: int|
                0 <= j < g.len() ==> #[trigger] g2[j].id == g[j].id) by {
                if contains_id(g, pairs[0].0) {
                    let k = index_of_id(g, pairs[0].0);
                    assert(0 <= k < g.len() && g[k].id == pairs[0].0);
                }
            }
        }
        lemma_annotations_give_right(g2, pairs.drop_first(), rt);
        lemma_annotations_positional(g2, pairs.drop_first());
        let gf = add_right_annotations(g, pairs);
        assert(gf == add_right_annotations(g2, pairs.drop_first()));
        assert forall|j: int|
            0 <= j < gf.len() && (exists|k: int|
                0 <= k < pairs.len() && #[trigger] pairs[k].0 == gf[j].id) implies #[trigger] gf[
            j].rights.contains(rt) by {
            let k = choose|k: int| 0 <= k < pairs.len() && #[trigger] pairs[k].0 == gf[j].id;
            if k == 0 {
                // the first pair annotated this member before the rest ran
                assert(g2.len() == g.len());
                assert(gf[j].id == g2[j].id);
                if contains_id(g, pairs[0].0) {
                    let i = index_of_id(g, pairs[0].0);
                    assert(0 <= i < g.len() && g[i].id == pairs[0].0);
                    if j == i {
                        assert(g2[j].rights == g[j].rights.push(rt));
                        assert(g2[j].rights[g2[j].rights.len() - 1] == rt);
                        assert(g2[j].rights.contains(rt));
                        assert(gf[j].rights.contains(rt));
                    } else {
                        // a second member with the same id would break the
                        // uniqueness of ids
                        assert(g2[j].id == g[j].id);
                        assert(g[j].id == pairs[0].0);
                        assert(g[i].id == g[j].id);
                        assert(false);
                    }
                } else {
                    assert(!contains_id(g, pairs[0].0));
                    assert(g2 == g);
                    assert(g2[j].id == pairs[0].0);
                    assert(contains_id(g, pairs[0].0));
                }
            } else {
                assert(pairs.drop_first()[k - 1].0 == gf[j].id);
            }
        }
    }
}

/// Merging introduces no right from outside the two lists.
pub proof fn lemma_merge_rights_bound(a: Seq<Seq<char>>, b: Seq<Seq<char>>)
    ensures
        forall|x: Seq<char>|
            #[trigger] merge_rights(a, b).contains(x) ==> a.contains(x) || b.contains(x),
    decreases b.len(),
{
    if b.len() == 0 {
    } else {
        let a2 = if a.contains(b[0]) {
            a
        } else {
            a.push(b[0])
        };
        lemma_merge_rights_bound(a2, b.drop_first());
        assert(merge_rights(a, b) == merge_rights(a2, b.drop_first()));
        assert forall|x: Seq<char>| #[trigger] merge_rights(a, b).contains(x) implies a.contains(x)
            || b.contains(x) by {
            if a2.contains(x) {
                let i = choose|i: int| 0 <= i < a2.len() && #[trigger] a2[i] == x;
                if i < a.len() {
                    assert(a[i] == x);
                } else {
                    assert(x == b[0]);
                    assert(b[0int] == x);
                }
            } else {
                let i = choose|i: int|
                    0 <= i < b.drop_first().len() && #[trigger] b.drop_first()[i] == x;
                assert(b[i + 1] == x);
            }
        }
    }
}

/// Every right of a working set lies in the given pool of rights.
pub open spec fn rights_within(g: Seq<EntityV>, pool: Set<Seq<char>>) -> bool {
    forall|j: int, k: int|
        0 <= j < g.len() && 0 <= k < g[j].rights.len() ==> pool.contains(#[trigger] g[j].rights[k])
}

/// Attaching pairs whose rights come from the pool keeps the set's rights
/// in the pool.
pub proof fn lemma_annotations_bound(
    g: Seq<EntityV>,
    pairs: Seq<(usize, Seq<char>)>,
    pool: Set<Seq<char>>,
)
    requires
        rights_within(g, pool),
        forall|k: int| 0 <= k < pairs.len() ==> pool.contains(#[trigger] pairs[k].1),
    ensures
        rights_within(add_right_annotations(g, pairs), pool),
    decreases pairs.len(),
{
    if pairs.len() == 0 {
    } else {
        let g2 = add_right_annotation(g, pairs[0].0, pairs[0].1);
        assert(rights_within(g2, pool)) by {
            if contains_id(g, pairs[0].0) {
                let i = index_of_id(g, pairs[0].0);
                assert(0 <= i < g.len() && g[i].id == pairs[0].0);
                assert forall|j: int, k: int|
                    0 <= j < g2.len() && 0 <= k < g2[j].rights.len() implies pool.contains(
                    #[trigger] g2[j].rights[k],
                ) by {
                    if j == i && k == g[i].rights.len() {
                        assert(g2[j].rights[k] == pairs[0].1);
                    } else if j == i {
                        assert(g2[j].rights[k] == g[j].rights[k]);
                    }
                }
            }
        }
        lemma_annotations_bound(g2, pairs.drop_first(), pool);
    }
}

} // verus!

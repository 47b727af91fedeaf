#![verifier::loop_isolation(false)]

use vstd::prelude::*;
use crate::db_tables::{
    AccessRowV, ConnectionRowV, DbTableAccess, DbTableConnection, DbTableEntity, EntityRowV,
};
use crate::external_system::{
    ExternalAccessRequest, ExternalSystem, ExternalSystemUser, RequestRowV, UserRowV,
};
use crate::entity::{contains_id, Entity, EntityGroup, EntityV};
use crate::util::{ids_contain, str_eq};

verus! {

broadcast use vstd::seq_lib::group_filter_ensures;

/// Mathematical image of the system of record: the five tables of the engine
/// and the next generated id of each.
#[verifier::ext_equal]
pub ghost struct StoreV {
    pub access: Seq<AccessRowV>,
    pub connection: Seq<ConnectionRowV>,
    pub entity: Seq<EntityRowV>,
    pub user: Seq<UserRowV>,
    pub access_request: Seq<RequestRowV>,
    pub next_access_id: usize,
    pub next_connection_id: usize,
    pub next_entity_id: usize,
    pub next_user_id: u64,
    pub next_request_id: usize,
}

// ------------------------------------------------------------------
// queries over single tables
// ------------------------------------------------------------------

/// Whether the access table holds the triple (user, entity, right).
pub open spec fn has_triple(a: Seq<AccessRowV>, u: usize, e: usize, r: Seq<char>) -> bool {
    exists|i: int|
        0 <= i < a.len() && #[trigger] a[i].user_id == u && a[i].entity_id == e && a[i].right == r
}

/// The grants of the access table as a set of (user, entity, right) triples.
pub open spec fn grants_of(a: Seq<AccessRowV>) -> Set<(usize, usize, Seq<char>)> {
    a.map_values(|x: AccessRowV| (x.user_id, x.entity_id, x.right)).to_set()
}

/// The (entity, right) pairs granted to one user, in table order.
pub open spec fn user_rights_of(a: Seq<AccessRowV>, u: usize) -> Seq<(usize, Seq<char>)> {
    a.filter(|x: AccessRowV| x.user_id == u).map_values(
        |x: AccessRowV| (x.entity_id, x.right),
    )
}

/// The (user, entity, right) triples granted directly on any of the given
/// entities, in table order.
pub open spec fn access_for_entities(a: Seq<AccessRowV>, ids: Seq<usize>) -> Seq<
    (usize, usize, Seq<char>),
> {
    a.filter(|x: AccessRowV| ids.contains(x.entity_id)).map_values(
        |x: AccessRowV| (x.user_id, x.entity_id, x.right),
    )
}

/// The (parent, child) pairs of edges leaving any of the given entities.
pub open spec fn children_of(c: Seq<ConnectionRowV>, ids: Seq<usize>) -> Seq<(usize, usize)> {
    c.filter(|x: ConnectionRowV| ids.contains(x.parent_id)).map_values(
        |x: ConnectionRowV| (x.parent_id, x.child_id),
    )
}

/// The (parent, child) pairs of edges entering any of the given entities.
pub open spec fn parents_of(c: Seq<ConnectionRowV>, ids: Seq<usize>) -> Seq<(usize, usize)> {
    c.filter(|x: ConnectionRowV| ids.contains(x.child_id)).map_values(
        |x: ConnectionRowV| (x.parent_id, x.child_id),
    )
}

/// Whether an entity row with the given id exists.
pub open spec fn has_entity_row(e: Seq<EntityRowV>, id: usize) -> bool {
    exists|i: int| 0 <= i < e.len() && #[trigger] e[i].id == id
}

/// The entity row with the given id.
pub open spec fn entity_row(e: Seq<EntityRowV>, id: usize) -> EntityRowV {
    e[choose|i: int| 0 <= i < e.len() && #[trigger] e[i].id == id]
}

/// Whether a user row with the given id exists.
pub open spec fn has_user_id(us: Seq<UserRowV>, uid: usize) -> bool {
    exists|i: int| 0 <= i < us.len() && #[trigger] us[i].id == Some(uid as u64)
}

/// The user row with the given id.
pub open spec fn user_by_id(us: Seq<UserRowV>, uid: usize) -> UserRowV {
    us[choose|i: int| 0 <= i < us.len() && #[trigger] us[i].id == Some(uid as u64)]
}

/// Whether a user row with the given identity key exists.
pub open spec fn has_user_key(us: Seq<UserRowV>, system: ExternalSystem, ext: Seq<char>) -> bool {
    exists|i: int|
        0 <= i < us.len() && #[trigger] us[i].system == system && us[i].external_id == ext
}

/// Whether a pending request of this user on this entity exists.
pub open spec fn has_request(q: Seq<RequestRowV>, u: usize, e: usize) -> bool {
    exists|i: int|
        0 <= i < q.len() && #[trigger] q[i].user_id == u && q[i].entity_id == e
}

/// The pending requests on one entity, in table order.
pub open spec fn requests_for(q: Seq<RequestRowV>, e: usize) -> Seq<RequestRowV> {
    q.filter(|x: RequestRowV| x.entity_id == e)
}

/// The access table without the rows of one (user, entity, right) triple.
pub open spec fn access_without(a: Seq<AccessRowV>, u: usize, e: usize, r: Seq<char>) -> Seq<
    AccessRowV,
> {
    a.filter(|x: AccessRowV| !(x.user_id == u && x.entity_id == e && x.right == r))
}

/// The request table without the rows of one (user, entity) pair.
pub open spec fn requests_without(q: Seq<RequestRowV>, u: usize, e: usize) -> Seq<RequestRowV> {
    q.filter(|x: RequestRowV| !(x.user_id == u && x.entity_id == e))
}

/// The user table with the opaque payload of one identity key replaced.
pub open spec fn users_with_bespoke(
    us: Seq<UserRowV>,
    system: ExternalSystem,
    ext: Seq<char>,
    bespoke: Seq<char>,
) -> Seq<UserRowV> {
    us.map_values(
        |row: UserRowV|
            if row.system == system && row.external_id == ext {
                UserRowV { bespoke_data: bespoke, ..row }
            } else {
                row
            },
    )
}

// ------------------------------------------------------------------
// well-formedness
// ------------------------------------------------------------------

/// Row ids are fresh with respect to the id generators, row ids are unique,
/// and the uniqueness keys of the schema hold: one row per
/// (user, entity, right) grant, one pending request per (user, entity), one
/// user per (system, external id), every user row carrying a generated id.
pub open spec fn store_wf(s: StoreV) -> bool {
    &&& forall|i: int| 0 <= i < s.access.len() ==> #[trigger] s.access[i].id < s.next_access_id
    &&& forall|i: int, j: int|
        0 <= i < j < s.access.len() ==> #[trigger] s.access[i].id != #[trigger] s.access[j].id
    &&& forall|i: int, j: int|
        0 <= i < j < s.access.len() ==> !(#[trigger] s.access[i].user_id == #[trigger] s.access[j].user_id
            && s.access[i].entity_id == s.access[j].entity_id && s.access[i].right
            == s.access[j].right)
    &&& forall|i: int|
        0 <= i < s.connection.len() ==> #[trigger] s.connection[i].id < s.next_connection_id
    &&& forall|i: int, j: int|
        0 <= i < j < s.connection.len() ==> #[trigger] s.connection[i].id
            != #[trigger] s.connection[j].id
    &&& forall|i: int| 0 <= i < s.entity.len() ==> #[trigger] s.entity[i].id < s.next_entity_id
    &&& forall|i: int, j: int|
        0 <= i < j < s.entity.len() ==> #[trigger] s.entity[i].id != #[trigger] s.entity[j].id
    &&& forall|i: int|
        0 <= i < s.user.len() ==> #[trigger] s.user[i].id is Some && s.user[i].id->0
            < s.next_user_id
    &&& forall|i: int, j: int|
        0 <= i < j < s.user.len() ==> #[trigger] s.user[i].id != #[trigger] s.user[j].id
    &&& forall|i: int, j: int|
        0 <= i < j < s.user.len() ==> !(#[trigger] s.user[i].system == #[trigger] s.user[j].system
            && s.user[i].external_id == s.user[j].external_id)
    &&& forall|i: int|
        0 <= i < s.access_request.len() ==> #[trigger] s.access_request[i].id < s.next_request_id
    &&& forall|i: int, j: int|
        0 <= i < j < s.access_request.len() ==> #[trigger] s.access_request[i].id
            != #[trigger] s.access_request[j].id
    &&& forall|i: int, j: int|
        0 <= i < j < s.access_request.len() ==> !(#[trigger] s.access_request[i].user_id
            == #[trigger] s.access_request[j].user_id && s.access_request[i].entity_id
            == s.access_request[j].entity_id)
}

// ------------------------------------------------------------------
// transitions
// ------------------------------------------------------------------

/// Grant one right: insert the (user, entity, right) row unless it already
/// exists, and drop any pending request of the pair — granting resolves a
/// request.
pub open spec fn add_right_t(s: StoreV, u: usize, e: usize, r: Seq<char>) -> StoreV {
    let s1 = if has_triple(s.access, u, e, r) {
        s
    } else {
        StoreV {
            access: s.access.push(
                AccessRowV { id: s.next_access_id, user_id: u, entity_id: e, right: r },
            ),
            next_access_id: (s.next_access_id + 1) as usize,
            ..s
        }
    };
    StoreV { access_request: requests_without(s1.access_request, u, e), ..s1 }
}

/// Revoke one right: delete the exact triple; absence is not an error.
pub open spec fn remove_right_t(s: StoreV, u: usize, e: usize, r: Seq<char>) -> StoreV {
    StoreV { access: access_without(s.access, u, e, r), ..s }
}

/// File one access request: the new note replaces any pending request of the
/// same (user, entity) pair.
pub open spec fn request_right_t(s: StoreV, u: usize, e: usize, note: Seq<char>) -> StoreV {
    StoreV {
        access_request: requests_without(s.access_request, u, e).push(
            RequestRowV { id: s.next_request_id, user_id: u, entity_id: e, note },
        ),
        next_request_id: (s.next_request_id + 1) as usize,
        ..s
    }
}

/// Persist an external identity: a new row under a fresh id, or, for a known
/// (system, external id) key, an update of the opaque payload alone.
pub open spec fn add_user_t(
    s: StoreV,
    system: ExternalSystem,
    external_id: Seq<char>,
    name: Seq<char>,
    email: Seq<char>,
    bespoke: Seq<char>,
) -> StoreV {
    if has_user_key(s.user, system, external_id) {
        StoreV { user: users_with_bespoke(s.user, system, external_id, bespoke), ..s }
    } else {
        StoreV {
            user: s.user.push(
                UserRowV {
                    id: Some(s.next_user_id),
                    system,
                    name,
                    email,
                    external_id,
                    bespoke_data: bespoke,
                },
            ),
            next_user_id: (s.next_user_id + 1) as u64,
            ..s
        }
    }
}

/// Create a child entity: one new entity row and one new edge row from the
/// given parent, both under fresh ids.
pub open spec fn create_child_entity_t(
    s: StoreV,
    parent_id: usize,
    name: Seq<char>,
    external_id: Seq<char>,
) -> StoreV {
    StoreV {
        entity: s.entity.push(EntityRowV { id: s.next_entity_id, name, external_id }),
        connection: s.connection.push(
            ConnectionRowV {
                id: s.next_connection_id,
                parent_id,
                child_id: s.next_entity_id,
            },
        ),
        next_entity_id: (s.next_entity_id + 1) as usize,
        next_connection_id: (s.next_connection_id + 1) as usize,
        ..s
    }
}

/// The (entity, right) pairs of every entity of `ids` with every right of
/// `rs`, grouped by entity, in argument order.
pub open spec fn pair_list(ids: Seq<usize>, rs: Seq<Seq<char>>) -> Seq<(usize, Seq<char>)>
    decreases ids.len(),
{
    if ids.len() == 0 {
        Seq::empty()
    } else {
        pair_list(ids.drop_last(), rs) + rs.map_values(|r: Seq<char>| (ids.last(), r))
    }
}

/// Grant a list of (entity, right) pairs to one user, in order.
pub open spec fn apply_rights(s: StoreV, u: usize, pairs: Seq<(usize, Seq<char>)>) -> StoreV
    decreases pairs.len(),
{
    if pairs.len() == 0 {
        s
    } else {
        apply_rights(add_right_t(s, u, pairs[0].0, pairs[0].1), u, pairs.drop_first())
    }
}

/// Revoke a list of (entity, right) pairs from one user, in order.
pub open spec fn apply_removals(s: StoreV, u: usize, pairs: Seq<(usize, Seq<char>)>) -> StoreV
    decreases pairs.len(),
{
    if pairs.len() == 0 {
        s
    } else {
        apply_removals(remove_right_t(s, u, pairs[0].0, pairs[0].1), u, pairs.drop_first())
    }
}

// ------------------------------------------------------------------
// the store itself
// ------------------------------------------------------------------

/// The system of record of the engine: the five tables, held as plain rows,
/// and the id generator of each table. In a deployment its contents mirror
/// the relational store one to one; the surrounding process loads the rows at
/// start-up and replays every write.
pub struct BackingStore {
    pub access: Vec<DbTableAccess>,
    pub connection: Vec<DbTableConnection>,
    pub entity: Vec<DbTableEntity>,
    pub user: Vec<ExternalSystemUser>,
    pub access_request: Vec<ExternalAccessRequest>,
    pub next_access_id: usize,
    pub next_connection_id: usize,
    pub next_entity_id: usize,
    pub next_user_id: u64,
    pub next_request_id: usize,
}

impl View for BackingStore {
    type V = StoreV;

    open spec fn view(&self) -> StoreV {
        StoreV {
            access: access_views(self.access@),
            connection: connection_views(self.connection@),
            entity: entity_views(self.entity@),
            user: user_views(self.user@),
            access_request: request_views(self.access_request@),
            next_access_id: self.next_access_id,
            next_connection_id: self.next_connection_id,
            next_entity_id: self.next_entity_id,
            next_user_id: self.next_user_id,
            next_request_id: self.next_request_id,
        }
    }
}

impl BackingStore {
    /// Well-formedness of the record store.
    pub open spec fn wf(&self) -> bool {
        store_wf(self@)
    }

    /// An empty store.
    pub fn new() -> (r: Self)
        ensures
            r.wf(),
            r@.access == Seq::<AccessRowV>::empty(),
            r@.connection == Seq::<ConnectionRowV>::empty(),
            r@.entity == Seq::<EntityRowV>::empty(),
            r@.user == Seq::<UserRowV>::empty(),
            r@.access_request == Seq::<RequestRowV>::empty(),
            r@.next_access_id == 0,
            r@.next_connection_id == 0,
            r@.next_entity_id == 0,
            r@.next_user_id == 0,
            r@.next_request_id == 0,
    {
        let r = BackingStore {
            access: Vec::new(),
            connection: Vec::new(),
            entity: Vec::new(),
            user: Vec::new(),
            access_request: Vec::new(),
            next_access_id: 0,
            next_connection_id: 0,
            next_entity_id: 0,
            next_user_id: 0,
            next_request_id: 0,
        };
        proof {
            assert(r@.access =~= Seq::<AccessRowV>::empty());
            assert(r@.connection =~= Seq::<ConnectionRowV>::empty());
            assert(r@.entity =~= Seq::<EntityRowV>::empty());
            assert(r@.user =~= Seq::<UserRowV>::empty());
            assert(r@.access_request =~= Seq::<RequestRowV>::empty());
        }
        r
    }

    /// Load one entity row as handed over by the relational store, keeping
    /// the id it already carries. The row is refused — and nothing changes —
    /// when its id is taken, or leaves no room for the id generator.
    pub fn load_entity_row(&mut self, row: DbTableEntity) -> (ok: bool)
        requires
            old(self).wf(),
        ensures
            final(self).wf(),
            ok == (row.id < usize::MAX && !has_entity_row(old(self)@.entity, row.id)),
            ok ==> final(self)@ == (StoreV {
                entity: old(self)@.entity.push(row@),
                next_entity_id: if row.id >= old(self)@.next_entity_id {
                    (row.id + 1) as usize
                } else {
                    old(self)@.next_entity_id
                },
                ..old(self)@
            }),
            !ok ==> final(self)@ == old(self)@,
    {
        if row.id == usize::MAX {
            return false;
        }
        let mut i: usize = 0;
        while i < self.entity.len()
            invariant
                0 <= i <= self.entity@.len(),
                forall|j: int| 0 <= j < i ==> #[trigger] self@.entity[j].id != row.id,
            decreases self.entity@.len() - i,
        {
            if self.entity[i].id == row.id {
                assert(self@.entity[i as int].id == row.id);
                return false;
            }
            i += 1;
        }
        if row.id >= self.next_entity_id {
            self.next_entity_id = row.id + 1;
        }
        let ghost old_rows = self@.entity;
        self.entity.push(row);
        proof {
            assert(self@.entity =~= old_rows.push(self@.entity.last()));
        }
        true
    }

    /// Load one edge row as handed over by the relational store.
    pub fn load_connection_row(&mut self, row: DbTableConnection) -> (ok: bool)
        requires
            old(self).wf(),
        ensures
            final(self).wf(),
            ok == (row.id < usize::MAX && !exists|i: int|
                0 <= i < old(self)@.connection.len() && #[trigger] old(
                    self,
                )@.connection[i].id == row.id),
            ok ==> final(self)@ == (StoreV {
                connection: old(self)@.connection.push(row@),
                next_connection_id: if row.id >= old(self)@.next_connection_id {
                    (row.id + 1) as usize
                } else {
                    old(self)@.next_connection_id
                },
                ..old(self)@
            }),
            !ok ==> final(self)@ == old(self)@,
    {
        if row.id == usize::MAX {
            return false;
        }
        let mut i: usize = 0;
        while i < self.connection.len()
            invariant
                0 <= i <= self.connection@.len(),
                forall|j: int| 0 <= j < i ==> #[trigger] self@.connection[j].id != row.id,
            decreases self.connection@.len() - i,
        {
            if self.connection[i].id == row.id {
                assert(self@.connection[i as int].id == row.id);
                return false;
            }
            i += 1;
        }
        if row.id >= self.next_connection_id {
            self.next_connection_id = row.id + 1;
        }
        let ghost old_rows = self@.connection;
        self.connection.push(row);
        proof {
            assert(self@.connection =~= old_rows.push(self@.connection.last()));
        }
        true
    }

    /// Load one grant row as handed over by the relational store. The row is
    /// refused when its id or its (user, entity, right) key is taken.
    pub fn load_access_row(&mut self, row: DbTableAccess) -> (ok: bool)
        requires
            old(self).wf(),
        ensures
            final(self).wf(),
            ok == (row.id < usize::MAX && !has_triple(
                old(self)@.access,
                row.user_id,
                row.entity_id,
                row.right@,
            ) && !exists|i: int|
                0 <= i < old(self)@.access.len() && #[trigger] old(self)@.access[i].id == row.id),
            ok ==> final(self)@ == (StoreV {
                access: old(self)@.access.push(row@),
                next_access_id: if row.id >= old(self)@.next_access_id {
                    (row.id + 1) as usize
                } else {
                    old(self)@.next_access_id
                },
                ..old(self)@
            }),
            !ok ==> final(self)@ == old(self)@,
    {
        if row.id == usize::MAX {
            return false;
        }
        let mut i: usize = 0;
        while i < self.access.len()
            invariant
                0 <= i <= self.access@.len(),
                forall|j: int| 0 <= j < i ==> #[trigger] self@.access[j].id != row.id,
                forall|j: int|
                    0 <= j < i ==> !(#[trigger] self@.access[j].user_id == row.user_id
                        && self@.access[j].entity_id == row.entity_id && self@.access[j].right
                        == row.right@),
            decreases self.access@.len() - i,
        {
            if self.access[i].id == row.id {
                assert(self@.access[i as int].id == row.id);
                return false;
            }
            if self.access[i].user_id == row.user_id && self.access[i].entity_id == row.entity_id
                && self.access[i].right == row.right {
                assert(self@.access[i as int].user_id == row.user_id);
                return false;
            }
            i += 1;
        }
        if row.id >= self.next_access_id {
            self.next_access_id = row.id + 1;
        }
        let ghost old_rows = self@.access;
        self.access.push(row);
        proof {
            assert(self@.access =~= old_rows.push(self@.access.last()));
        }
        true
    }

    /// Load one user row as handed over by the relational store. The row is
    /// refused when it carries no id, or its id or (system, external id) key
    /// is taken.
    pub fn load_user_row(&mut self, row: ExternalSystemUser) -> (ok: bool)
        requires
            old(self).wf(),
        ensures
            final(self).wf(),
            ok == (row.id is Some && row.id->0 < u64::MAX && !has_user_key(
                old(self)@.user,
                row.system,
                row.external_id@,
            ) && !exists|i: int|
                0 <= i < old(self)@.user.len() && #[trigger] old(self)@.user[i].id == row.id),
            ok ==> final(self)@ == (StoreV {
                user: old(self)@.user.push(row@),
                next_user_id: if row.id->0 >= old(self)@.next_user_id {
                    (row.id->0 + 1) as u64
                } else {
                    old(self)@.next_user_id
                },
                ..old(self)@
            }),
            !ok ==> final(self)@ == old(self)@,
    {
        let rid: u64 = match row.id {
            Some(v) => v,
            None => {
                return false;
            },
        };
        if rid == u64::MAX {
            return false;
        }
        let mut i: usize = 0;
        while i < self.user.len()
            invariant
                0 <= i <= self.user@.len(),
                row.id == Some(rid),
                forall|j: int| 0 <= j < i ==> #[trigger] self@.user[j].id != Some(rid),
                forall|j: int|
                    0 <= j < i ==> !(#[trigger] self@.user[j].system == row.system
                        && self@.user[j].external_id == row.external_id@),
            decreases self.user@.len() - i,
        {
            let same_id = match self.user[i].id {
                Some(v) => v == rid,
                None => false,
            };
            if same_id {
                assert(self@.user[i as int].id == Some(rid));
                return false;
            }
            if self.user[i].system == row.system && self.user[i].external_id == row.external_id {
                assert(self@.user[i as int].system == row.system);
                return false;
            }
            i += 1;
        }
        if rid >= self.next_user_id {
            self.next_user_id = rid + 1;
        }
        let ghost old_rows = self@.user;
        self.user.push(row);
        proof {
            assert(self@.user =~= old_rows.push(self@.user.last()));
        }
        true
    }

    /// Load one pending-request row as handed over by the relational store.
    pub fn load_request_row(&mut self, row: ExternalAccessRequest) -> (ok: bool)
        requires
            old(self).wf(),
        ensures
            final(self).wf(),
            ok == (row.id < usize::MAX && !has_request(
                old(self)@.access_request,
                row.user_id,
                row.entity_id,
            ) && !exists|i: int|
                0 <= i < old(self)@.access_request.len() && #[trigger] old(
                    self,
                )@.access_request[i].id == row.id),
            ok ==> final(self)@ == (StoreV {
                access_request: old(self)@.access_request.push(row@),
                next_request_id: if row.id >= old(self)@.next_request_id {
                    (row.id + 1) as usize
                } else {
                    old(self)@.next_request_id
                },
                ..old(self)@
            }),
            !ok ==> final(self)@ == old(self)@,
    {
        if row.id == usize::MAX {
            return false;
        }
        let mut i: usize = 0;
        while i < self.access_request.len()
            invariant
                0 <= i <= self.access_request@.len(),
                forall|j: int| 0 <= j < i ==> #[trigger] self@.access_request[j].id != row.id,
                forall|j: int|
                    0 <= j < i ==> !(#[trigger] self@.access_request[j].user_id == row.user_id
                        && self@.access_request[j].entity_id == row.entity_id),
            decreases self.access_request@.len() - i,
        {
            if self.access_request[i].id == row.id {
                assert(self@.access_request[i as int].id == row.id);
                return false;
            }
            if self.access_request[i].user_id == row.user_id && self.access_request[i].entity_id
                == row.entity_id {
                assert(self@.access_request[i as int].user_id == row.user_id);
                return false;
            }
            i += 1;
        }
        if row.id >= self.next_request_id {
            self.next_request_id = row.id + 1;
        }
        let ghost old_rows = self@.access_request;
        self.access_request.push(row);
        proof {
            assert(self@.access_request =~= old_rows.push(self@.access_request.last()));
        }
        true
    }
}

// ------------------------------------------------------------------
// table views and row scans shared by the live and the mirrored path
// ------------------------------------------------------------------

/// The views of a vector of access rows.
pub open spec fn access_views(v: Seq<DbTableAccess>) -> Seq<AccessRowV> {
    v.map_values(|x: DbTableAccess| x@)
}

/// The views of a vector of edge rows.
pub open spec fn connection_views(v: Seq<DbTableConnection>) -> Seq<ConnectionRowV> {
    v.map_values(|x: DbTableConnection| x@)
}

/// The views of a vector of entity rows.
pub open spec fn entity_views(v: Seq<DbTableEntity>) -> Seq<EntityRowV> {
    v.map_values(|x: DbTableEntity| x@)
}

/// The views of a vector of user rows.
pub open spec fn user_views(v: Seq<ExternalSystemUser>) -> Seq<UserRowV> {
    v.map_values(|x: ExternalSystemUser| x@)
}

/// The views of a vector of request rows.
pub open spec fn request_views(v: Seq<ExternalAccessRequest>) -> Seq<RequestRowV> {
    v.map_values(|x: ExternalAccessRequest| x@)
}

/// The views of a vector of (entity id, right) pairs.
pub open spec fn pair_views(v: Seq<(usize, String)>) -> Seq<(usize, Seq<char>)> {
    v.map_values(|p: (usize, String)| (p.0, p.1@))
}

/// The views of a vector of (user id, entity id, right) triples.
pub open spec fn triple_views(v: Seq<(usize, usize, String)>) -> Seq<(usize, usize, Seq<char>)> {
    v.map_values(|p: (usize, usize, String)| (p.0, p.1, p.2@))
}

/// Scan one access table for the (entity, right) pairs of one user.
pub(crate) fn user_rights_vec(rows: &Vec<DbTableAccess>, u: usize) -> (r: Vec<(usize, String)>)
    ensures
        pair_views(r@) == user_rights_of(access_views(rows@), u),
{
    let ghost rv = access_views(rows@);
    let mut out: Vec<(usize, String)> = Vec::new();
    proof {
        reveal(Seq::filter);
        assert(rv.take(0) =~= Seq::<AccessRowV>::empty());
        assert(pair_views(out@) =~= user_rights_of(rv.take(0), u));
    }
    let mut i: usize = 0;
    while i < rows.len()
        invariant
            0 <= i <= rows@.len(),
            rv == access_views(rows@),
            pair_views(out@) == user_rights_of(rv.take(i as int), u),
        decreases rows@.len() - i,
    {
        let ghost out_v = pair_views(out@);
        proof {
            reveal(Seq::filter);
            assert(rv.take(i + 1 as int).drop_last() =~= rv.take(i as int));
            assert(rv.take(i + 1 as int).last() == rv[i as int]);
        }
        if rows[i].user_id == u {
            out.push((rows[i].entity_id, rows[i].right.clone()));
            proof {
                assert(rv[i as int].user_id == u);
                assert(pair_views(out@) =~= out_v.push((rv[i as int].entity_id, rv[
                    i as int].right)));
                assert(user_rights_of(rv.take(i + 1 as int), u) =~= user_rights_of(
                    rv.take(i as int),
                    u,
                ).push((rv[i as int].entity_id, rv[i as int].right)));
            }
        } else {
            proof {
                assert(!(rv[i as int].user_id == u));
                assert(user_rights_of(rv.take(i + 1 as int), u) =~= user_rights_of(
                    rv.take(i as int),
                    u,
                ));
            }
        }
        i += 1;
    }
    proof {
        assert(rv.take(rv.len() as int) =~= rv);
    }
    out
}

/// Scan one access table for the triples granted on any of the given
/// entities.
pub(crate) fn access_triples_vec(rows: &Vec<DbTableAccess>, ids: &[usize]) -> (r: Vec<
    (usize, usize, String),
>)
    ensures
        triple_views(r@) == access_for_entities(access_views(rows@), ids@),
{
    let ghost rv = access_views(rows@);
    let mut out: Vec<(usize, usize, String)> = Vec::new();
    proof {
        reveal(Seq::filter);
        assert(rv.take(0) =~= Seq::<AccessRowV>::empty());
        assert(triple_views(out@) =~= access_for_entities(rv.take(0), ids@));
    }
    let mut i: usize = 0;
    while i < rows.len()
        invariant
            0 <= i <= rows@.len(),
            rv == access_views(rows@),
            triple_views(out@) == access_for_entities(rv.take(i as int), ids@),
        decreases rows@.len() - i,
    {
        let ghost out_v = triple_views(out@);
        proof {
            reveal(Seq::filter);
            assert(rv.take(i + 1 as int).drop_last() =~= rv.take(i as int));
            assert(rv.take(i + 1 as int).last() == rv[i as int]);
        }
        if ids_contain(ids, rows[i].entity_id) {
            out.push((rows[i].user_id, rows[i].entity_id, rows[i].right.clone()));
            proof {
                assert(ids@.contains(rv[i as int].entity_id));
                assert(triple_views(out@) =~= out_v.push(
                    (rv[i as int].user_id, rv[i as int].entity_id, rv[i as int].right),
                ));
                assert(access_for_entities(rv.take(i + 1 as int), ids@) =~= access_for_entities(
                    rv.take(i as int),
                    ids@,
                ).push((rv[i as int].user_id, rv[i as int].entity_id, rv[i as int].right)));
            }
        } else {
            proof {
                assert(!ids@.contains(rv[i as int].entity_id));
                assert(access_for_entities(rv.take(i + 1 as int), ids@) =~= access_for_entities(
                    rv.take(i as int),
                    ids@,
                ));
            }
        }
        i += 1;
    }
    proof {
        assert(rv.take(rv.len() as int) =~= rv);
    }
    out
}

/// Scan one edge table for the edges leaving any of the given entities.
pub(crate) fn children_vec(rows: &Vec<DbTableConnection>, ids: &[usize]) -> (r: Vec<(usize, usize)>)
    ensures
        r@ == children_of(connection_views(rows@), ids@),
{
    let ghost rv = connection_views(rows@);
    let mut out: Vec<(usize, usize)> = Vec::new();
    proof {
        reveal(Seq::filter);
        assert(rv.take(0) =~= Seq::<ConnectionRowV>::empty());
        assert(out@ =~= children_of(rv.take(0), ids@));
    }
    let mut i: usize = 0;
    while i < rows.len()
        invariant
            0 <= i <= rows@.len(),
            rv == connection_views(rows@),
            out@ == children_of(rv.take(i as int), ids@),
        decreases rows@.len() - i,
    {
        proof {
            reveal(Seq::filter);
            assert(rv.take(i + 1 as int).drop_last() =~= rv.take(i as int));
            assert(rv.take(i + 1 as int).last() == rv[i as int]);
        }
        if ids_contain(ids, rows[i].parent_id) {
            out.push((rows[i].parent_id, rows[i].child_id));
            proof {
                assert(ids@.contains(rv[i as int].parent_id));
                assert(children_of(rv.take(i + 1 as int), ids@) =~= children_of(
                    rv.take(i as int),
                    ids@,
                ).push((rv[i as int].parent_id, rv[i as int].child_id)));
            }
        } else {
            proof {
                assert(!ids@.contains(rv[i as int].parent_id));
                assert(children_of(rv.take(i + 1 as int), ids@) =~= children_of(
                    rv.take(i as int),
                    ids@,
                ));
            }
        }
        i += 1;
    }
    proof {
        assert(rv.take(rv.len() as int) =~= rv);
    }
    out
}

/// Scan one edge table for the edges entering any of the given entities.
pub(crate) fn parents_vec(rows: &Vec<DbTableConnection>, ids: &[usize]) -> (r: Vec<(usize, usize)>)
    ensures
        r@ == parents_of(connection_views(rows@), ids@),
{
    let ghost rv = connection_views(rows@);
    let mut out: Vec<(usize, usize)> = Vec::new();
    proof {
        reveal(Seq::filter);
        assert(rv.take(0) =~= Seq::<ConnectionRowV>::empty());
        assert(out@ =~= parents_of(rv.take(0), ids@));
    }
    let mut i: usize = 0;
    while i < rows.len()
        invariant
            0 <= i <= rows@.len(),
            rv == connection_views(rows@),
            out@ == parents_of(rv.take(i as int), ids@),
        decreases rows@.len() - i,
    {
        proof {
            reveal(Seq::filter);
            assert(rv.take(i + 1 as int).drop_last() =~= rv.take(i as int));
            assert(rv.take(i + 1 as int).last() == rv[i as int]);
        }
        if ids_contain(ids, rows[i].child_id) {
            out.push((rows[i].parent_id, rows[i].child_id));
            proof {
                assert(ids@.contains(rv[i as int].child_id));
                assert(parents_of(rv.take(i + 1 as int), ids@) =~= parents_of(
                    rv.take(i as int),
                    ids@,
                ).push((rv[i as int].parent_id, rv[i as int].child_id)));
            }
        } else {
            proof {
                assert(!ids@.contains(rv[i as int].child_id));
                assert(parents_of(rv.take(i + 1 as int), ids@) =~= parents_of(
                    rv.take(i as int),
                    ids@,
                ));
            }
        }
        i += 1;
    }
    proof {
        assert(rv.take(rv.len() as int) =~= rv);
    }
    out
}

/// A bare working-set entity made from a stored row.
pub open spec fn entity_of_row(r: EntityRowV) -> EntityV {
    EntityV {
        id: r.id,
        name: r.name,
        external_id: r.external_id,
        child_ids: Seq::empty(),
        parent_ids: Seq::empty(),
        rights: Seq::empty(),
    }
}

/// The working set selected by a list of ids: ids are taken in argument
/// order, an id already taken or without an entity row is passed over.
pub open spec fn load_group(ents: Seq<EntityRowV>, ids: Seq<usize>) -> Seq<EntityV>
    decreases ids.len(),
{
    if ids.len() == 0 {
        Seq::empty()
    } else {
        let rest = load_group(ents, ids.drop_last());
        let id = ids.last();
        if has_entity_row(ents, id) && !contains_id(rest, id) {
            rest.push(entity_of_row(entity_row(ents, id)))
        } else {
            rest
        }
    }
}

/// Scan one entity table for the rows of the given ids; unknown ids are
/// dropped silently, ids already seen are not repeated.
pub(crate) fn load_group_vec(rows: &Vec<DbTableEntity>, ids: &[usize]) -> (g: EntityGroup)
    requires
        forall|i: int, j: int|
            0 <= i < j < entity_views(rows@).len() ==> #[trigger] entity_views(rows@)[i].id
                != #[trigger] entity_views(rows@)[j].id,
    ensures
        g.wf(),
        g@ == load_group(entity_views(rows@), ids@),
{
    let ghost ev = entity_views(rows@);
    let mut g = EntityGroup::empty();
    proof {
        assert(ids@.take(0) =~= Seq::<usize>::empty());
    }
    let mut i: usize = 0;
    while i < ids.len()
        invariant
            0 <= i <= ids@.len(),
            ev == entity_views(rows@),
            forall|a: int, b: int|
                0 <= a < b < ev.len() ==> #[trigger] ev[a].id != #[trigger] ev[b].id,
            g.wf(),
            g@ == load_group(ev, ids@.take(i as int)),
        decreases ids@.len() - i,
    {
        let id = ids[i];
        proof {
            assert(ids@.take(i + 1 as int).drop_last() =~= ids@.take(i as int));
            assert(ids@.take(i + 1 as int).last() == ids@[i as int]);
        }
        if !g.has(id) {
            let mut k: usize = 0;
            let mut found = false;
            while k < rows.len()
                invariant
                    0 <= k <= rows@.len(),
                    ev == entity_views(rows@),
                    !found ==> forall|j: int| 0 <= j < k ==> #[trigger] ev[j].id != id,
                    found ==> k < rows@.len() && ev[k as int].id == id,
                decreases rows@.len() - k + (if found { 0int } else { 1int }),
            {
                if found {
                    break;
                }
                if rows[k].id == id {
                    assert(ev[k as int].id == id);
                    found = true;
                } else {
                    k += 1;
                }
            }
            if found {
                let e = Entity::from_table_entity(&rows[k]);
                proof {
                    assert(has_entity_row(ev, id));
                    let c = choose|c: int| 0 <= c < ev.len() && #[trigger] ev[c].id == id;
                    assert(c == k as int);
                    assert(entity_row(ev, id) == ev[k as int]);
                }
                g.insert(e);
                proof {
                    assert(g@ =~= load_group(ev, ids@.take(i + 1 as int)));
                }
            } else {
                proof {
                    assert(!has_entity_row(ev, id));
                    assert(g@ =~= load_group(ev, ids@.take(i + 1 as int)));
                }
            }
        } else {
            proof {
                assert(g@ =~= load_group(ev, ids@.take(i + 1 as int)));
            }
        }
        i += 1;
    }
    proof {
        assert(ids@.take(ids@.len() as int) =~= ids@);
    }
    g
}

/// Scan one user table for the row of one generated id.
pub(crate) fn find_user_vec(rows: &Vec<ExternalSystemUser>, uid: usize) -> (r: Option<
    ExternalSystemUser,
>)
    requires
        forall|i: int, j: int|
            0 <= i < j < user_views(rows@).len() ==> #[trigger] user_views(rows@)[i].id
                != #[trigger] user_views(rows@)[j].id,
    ensures
        match r {
            Some(u) => has_user_id(user_views(rows@), uid) && u@ == user_by_id(
                user_views(rows@),
                uid,
            ),
            None => !has_user_id(user_views(rows@), uid),
        },
{
    let ghost uv = user_views(rows@);
    let mut i: usize = 0;
    while i < rows.len()
        invariant
            0 <= i <= rows@.len(),
            uv == user_views(rows@),
            forall|j: int| 0 <= j < i ==> #[trigger] uv[j].id != Some(uid as u64),
        decreases rows@.len() - i,
    {
        let hit = match rows[i].id {
            Some(v) => v == uid as u64,
            None => false,
        };
        if hit {
            proof {
                assert(uv[i as int].id == Some(uid as u64));
                let k = choose|k: int|
                    0 <= k < uv.len() && #[trigger] uv[k].id == Some(uid as u64);
                assert(k == i as int);
            }
            return Some(rows[i].duplicate());
        }
        i += 1;
    }
    None
}

/// Scan one request table for the pending requests on one entity.
pub(crate) fn requests_vec(rows: &Vec<ExternalAccessRequest>, e: usize) -> (r: Vec<
    ExternalAccessRequest,
>)
    ensures
        request_views(r@) == requests_for(request_views(rows@), e),
{
    let ghost rv = request_views(rows@);
    let mut out: Vec<ExternalAccessRequest> = Vec::new();
    proof {
        reveal(Seq::filter);
        assert(rv.take(0) =~= Seq::<RequestRowV>::empty());
        assert(request_views(out@) =~= requests_for(rv.take(0), e));
    }
    let mut i: usize = 0;
    while i < rows.len()
        invariant
            0 <= i <= rows@.len(),
            rv == request_views(rows@),
            request_views(out@) == requests_for(rv.take(i as int), e),
        decreases rows@.len() - i,
    {
        let ghost out_v = request_views(out@);
        proof {
            reveal(Seq::filter);
            assert(rv.take(i + 1 as int).drop_last() =~= rv.take(i as int));
            assert(rv.take(i + 1 as int).last() == rv[i as int]);
        }
        if rows[i].entity_id == e {
            out.push(rows[i].duplicate());
            proof {
                assert(request_views(out@) =~= out_v.push(rv[i as int]));
                assert(requests_for(rv.take(i + 1 as int), e) =~= requests_for(
                    rv.take(i as int),
                    e,
                ).push(rv[i as int]));
            }
        } else {
            proof {
                assert(requests_for(rv.take(i + 1 as int), e) =~= requests_for(
                    rv.take(i as int),
                    e,
                ));
            }
        }
        i += 1;
    }
    proof {
        assert(rv.take(rv.len() as int) =~= rv);
    }
    out
}

/// Delete from one access table every row of the given triple.
pub(crate) fn remove_access_matching(v: &mut Vec<DbTableAccess>, u: usize, e: usize, r: &String)
    ensures
        access_views(final(v)@) == access_without(access_views(old(v)@), u, e, r@),
{
    let ghost in_v = access_views(v@);
    let mut out: Vec<DbTableAccess> = Vec::new();
    proof {
        reveal(Seq::filter);
        assert(in_v.take(0) =~= Seq::<AccessRowV>::empty());
        assert(access_views(out@) =~= access_without(in_v.take(0), u, e, r@));
    }
    let mut i: usize = 0;
    while i < v.len()
        invariant
            0 <= i <= v@.len(),
            in_v == access_views(v@),
            access_views(out@) == access_without(in_v.take(i as int), u, e, r@),
        decreases v@.len() - i,
    {
        let ghost out_v = access_views(out@);
        proof {
            reveal(Seq::filter);
            assert(in_v.take(i + 1 as int).drop_last() =~= in_v.take(i as int));
            assert(in_v.take(i + 1 as int).last() == in_v[i as int]);
        }
        if !(v[i].user_id == u && v[i].entity_id == e && v[i].right == *r) {
            out.push(v[i].duplicate());
            proof {
                assert(access_views(out@) =~= out_v.push(in_v[i as int]));
                assert(access_without(in_v.take(i + 1 as int), u, e, r@) =~= access_without(
                    in_v.take(i as int),
                    u,
                    e,
                    r@,
                ).push(in_v[i as int]));
            }
        } else {
            proof {
                assert(access_without(in_v.take(i + 1 as int), u, e, r@) =~= access_without(
                    in_v.take(i as int),
                    u,
                    e,
                    r@,
                ));
            }
        }
        i += 1;
    }
    proof {
        assert(in_v.take(in_v.len() as int) =~= in_v);
    }
    *v = out;
}

/// Delete from one request table every row of the given (user, entity) pair.
pub(crate) fn remove_requests_matching(v: &mut Vec<ExternalAccessRequest>, u: usize, e: usize)
    ensures
        request_views(final(v)@) == requests_without(request_views(old(v)@), u, e),
{
    let ghost in_v = request_views(v@);
    let mut out: Vec<ExternalAccessRequest> = Vec::new();
    proof {
        reveal(Seq::filter);
        assert(in_v.take(0) =~= Seq::<RequestRowV>::empty());
        assert(request_views(out@) =~= requests_without(in_v.take(0), u, e));
    }
    let mut i: usize = 0;
    while i < v.len()
        invariant
            0 <= i <= v@.len(),
            in_v == request_views(v@),
            request_views(out@) == requests_without(in_v.take(i as int), u, e),
        decreases v@.len() - i,
    {
        let ghost out_v = request_views(out@);
        proof {
            reveal(Seq::filter);
            assert(in_v.take(i + 1 as int).drop_last() =~= in_v.take(i as int));
            assert(in_v.take(i + 1 as int).last() == in_v[i as int]);
        }
        if !(v[i].user_id == u && v[i].entity_id == e) {
            out.push(v[i].duplicate());
            proof {
                assert(request_views(out@) =~= out_v.push(in_v[i as int]));
                assert(requests_without(in_v.take(i + 1 as int), u, e) =~= requests_without(
                    in_v.take(i as int),
                    u,
                    e,
                ).push(in_v[i as int]));
            }
        } else {
            proof {
                assert(requests_without(in_v.take(i + 1 as int), u, e) =~= requests_without(
                    in_v.take(i as int),
                    u,
                    e,
                ));
            }
        }
        i += 1;
    }
    proof {
        assert(in_v.take(in_v.len() as int) =~= in_v);
    }
    *v = out;
}

/// Replace the opaque payload of the row of one identity key.
pub(crate) fn update_user_bespoke(
    v: &mut Vec<ExternalSystemUser>,
    system: ExternalSystem,
    external_id: &String,
    bespoke: &String,
)
    ensures
        user_views(final(v)@) == users_with_bespoke(
            user_views(old(v)@),
            system,
            external_id@,
            bespoke@,
        ),
{
    let ghost in_v = user_views(v@);
    let mut out: Vec<ExternalSystemUser> = Vec::new();
    let mut i: usize = 0;
    while i < v.len()
        invariant
            0 <= i <= v@.len(),
            in_v == user_views(v@),
            out@.len() == i,
            forall|j: int|
                0 <= j < i ==> #[trigger] user_views(out@)[j] == users_with_bespoke(
                    in_v,
                    system,
                    external_id@,
                    bespoke@,
                )[j],
        decreases v@.len() - i,
    {
        let ghost out_v = user_views(out@);
        let row = &v[i];
        if row.system == system && str_eq(row.external_id.as_str(), external_id.as_str()) {
            let mut changed = row.duplicate();
            changed.bespoke_data = bespoke.clone();
            proof {
                assert(changed@ == (UserRowV { bespoke_data: bespoke@, ..in_v[i as int] }));
            }
            out.push(changed);
            proof {
                assert(user_views(out@) =~= out_v.push(
                    (UserRowV { bespoke_data: bespoke@, ..in_v[i as int] }),
                ));
                assert(in_v[i as int].system == system && in_v[i as int].external_id
                    == external_id@);
            }
        } else {
            out.push(row.duplicate());
            proof {
                assert(user_views(out@) =~= out_v.push(in_v[i as int]));
                assert(!(in_v[i as int].system == system && in_v[i as int].external_id
                    == external_id@));
            }
        }
        i += 1;
    }
    proof {
        assert(user_views(out@) =~= users_with_bespoke(in_v, system, external_id@, bespoke@));
    }
    *v = out;
}

/// A row-for-row copy of an access table.
pub(crate) fn copy_access_rows(rows: &Vec<DbTableAccess>) -> (r: Vec<DbTableAccess>)
    ensures
        access_views(r@) == access_views(rows@),
{
    let mut out: Vec<DbTableAccess> = Vec::new();
    let mut i: usize = 0;
    while i < rows.len()
        invariant
            0 <= i <= rows@.len(),
            out@.len() == i,
            forall|j: int| 0 <= j < i ==> #[trigger] out@[j] == rows@[j],
        decreases rows@.len() - i,
    {
        out.push(rows[i].duplicate());
        i += 1;
    }
    proof {
        assert(access_views(out@) =~= access_views(rows@));
    }
    out
}

/// A row-for-row copy of an edge table.
pub(crate) fn copy_connection_rows(rows: &Vec<DbTableConnection>) -> (r: Vec<DbTableConnection>)
    ensures
        connection_views(r@) == connection_views(rows@),
{
    let mut out: Vec<DbTableConnection> = Vec::new();
    let mut i: usize = 0;
    while i < rows.len()
        invariant
            0 <= i <= rows@.len(),
            out@.len() == i,
            forall|j: int| 0 <= j < i ==> #[trigger] out@[j] == rows@[j],
        decreases rows@.len() - i,
    {
        out.push(rows[i]);
        i += 1;
    }
    proof {
        assert(connection_views(out@) =~= connection_views(rows@));
    }
    out
}

/// A row-for-row copy of an entity table.
pub(crate) fn copy_entity_rows(rows: &Vec<DbTableEntity>) -> (r: Vec<DbTableEntity>)
    ensures
        entity_views(r@) == entity_views(rows@),
{
    let mut out: Vec<DbTableEntity> = Vec::new();
    let mut i: usize = 0;
    while i < rows.len()
        invariant
            0 <= i <= rows@.len(),
            out@.len() == i,
            forall|j: int| 0 <= j < i ==> #[trigger] out@[j] == rows@[j],
        decreases rows@.len() - i,
    {
        out.push(rows[i].duplicate());
        i += 1;
    }
    proof {
        assert(entity_views(out@) =~= entity_views(rows@));
    }
    out
}

/// A row-for-row copy of a user table.
pub(crate) fn copy_user_rows(rows: &Vec<ExternalSystemUser>) -> (r: Vec<ExternalSystemUser>)
    ensures
        user_views(r@) == user_views(rows@),
{
    let mut out: Vec<ExternalSystemUser> = Vec::new();
    let mut i: usize = 0;
    while i < rows.len()
        invariant
            0 <= i <= rows@.len(),
            out@.len() == i,
            forall|j: int| 0 <= j < i ==> #[trigger] out@[j]@ == rows@[j]@,
        decreases rows@.len() - i,
    {
        out.push(rows[i].duplicate());
        i += 1;
    }
    proof {
        assert(user_views(out@) =~= user_views(rows@));
    }
    out
}

/// A row-for-row copy of a request table.
pub(crate) fn copy_request_rows(rows: &Vec<ExternalAccessRequest>) -> (r: Vec<ExternalAccessRequest>)
    ensures
        request_views(r@) == request_views(rows@),
{
    let mut out: Vec<ExternalAccessRequest> = Vec::new();
    let mut i: usize = 0;
    while i < rows.len()
        invariant
            0 <= i <= rows@.len(),
            out@.len() == i,
            forall|j: int| 0 <= j < i ==> #[trigger] out@[j] == rows@[j],
        decreases rows@.len() - i,
    {
        out.push(rows[i].duplicate());
        i += 1;
    }
    proof {
        assert(request_views(out@) =~= request_views(rows@));
    }
    out
}

// ------------------------------------------------------------------
// facts about the transitions
// ------------------------------------------------------------------

/// Every element of a filtered sequence is an element of the original.
pub proof fn lemma_filter_elems<A>(s: Seq<A>, pred: spec_fn(A) -> bool)
    ensures
        forall|i: int|
            0 <= i < s.filter(pred).len() ==> s.contains(#[trigger] s.filter(pred)[i]),
    decreases s.len(),
{
    reveal(Seq::filter);
    let f = s.filter(pred);
    if s.len() != 0 {
        let d = s.drop_last();
        assert(forall|i: int| 0 <= i < d.len() ==> #[trigger] d[i] == s[i]);
        lemma_filter_elems(d, pred);
        let fd = d.filter(pred);
        assert forall|i: int| 0 <= i < f.len() implies s.contains(#[trigger] f[i]) by {
            if i < fd.len() {
                assert(fd[i] == f[i]);
                let k = choose|k: int| 0 <= k < d.len() && #[trigger] d[k] == fd[i];
                assert(s[k] == f[i]);
            } else {
                assert(f[i] == s.last());
                assert(s[s.len() - 1] == s.last());
            }
        }
    }
}

/// A user holds (entity, right) among their direct grants exactly when the
/// access table holds the triple.
pub proof fn lemma_user_rights_membership(a: Seq<AccessRowV>, u: usize, e: usize, r: Seq<char>)
    ensures
        (exists|k: int|
            0 <= k < user_rights_of(a, u).len() && #[trigger] user_rights_of(a, u)[k] == (e, r))
            <==> has_triple(a, u, e, r),
{
    let f = a.filter(|x: AccessRowV| x.user_id == u);
    let m = user_rights_of(a, u);
    lemma_filter_elems(a, |x: AccessRowV| x.user_id == u);
    if exists|k: int| 0 <= k < m.len() && #[trigger] m[k] == (e, r) {
        let k = choose|k: int| 0 <= k < m.len() && #[trigger] m[k] == (e, r);
        assert(m[k] == (f[k].entity_id, f[k].right));
        assert(a.contains(f[k]));
        let i = choose|i: int| 0 <= i < a.len() && #[trigger] a[i] == f[k];
        assert(a[i].user_id == u && a[i].entity_id == e && a[i].right == r);
    }
    if has_triple(a, u, e, r) {
        let i = choose|i: int|
            0 <= i < a.len() && #[trigger] a[i].user_id == u && a[i].entity_id == e && a[i].right
                == r;
        assert(f.contains(a[i]));
        let k = choose|k: int| 0 <= k < f.len() && #[trigger] f[k] == a[i];
        assert(m[k] == (e, r));
    }
}

/// Granting one right keeps the store well formed.
pub proof fn lemma_add_right_wf(s: StoreV, u: usize, e: usize, r: Seq<char>)
    requires
        store_wf(s),
        s.next_access_id < usize::MAX,
    ensures
        store_wf(add_right_t(s, u, e, r)),
{
    let keep = |q: RequestRowV| !(q.user_id == u && q.entity_id == e);
    lemma_filter_elems(s.access_request, keep);
    crate::util::lemma_filter_distinct(s.access_request, keep, |q: RequestRowV| q.id);
    crate::util::lemma_filter_distinct(
        s.access_request,
        keep,
        |q: RequestRowV| (q.user_id, q.entity_id),
    );
    let t = add_right_t(s, u, e, r);
    assert forall|i: int| 0 <= i < t.access_request.len() implies #[trigger] t.access_request[i].id
        < t.next_request_id by {
        let v = t.access_request[i];
        let k = choose|k: int| 0 <= k < s.access_request.len() && #[trigger] s.access_request[k] == v;
    }
}

/// Revoking one right keeps the store well formed.
pub proof fn lemma_remove_right_wf(s: StoreV, u: usize, e: usize, r: Seq<char>)
    requires
        store_wf(s),
    ensures
        store_wf(remove_right_t(s, u, e, r)),
{
    let keep = |x: AccessRowV| !(x.user_id == u && x.entity_id == e && x.right == r);
    lemma_filter_elems(s.access, keep);
    crate::util::lemma_filter_distinct(s.access, keep, |x: AccessRowV| x.id);
    crate::util::lemma_filter_distinct(
        s.access,
        keep,
        |x: AccessRowV| (x.user_id, x.entity_id, x.right),
    );
    let t = remove_right_t(s, u, e, r);
    assert forall|i: int| 0 <= i < t.access.len() implies #[trigger] t.access[i].id
        < t.next_access_id by {
        let v = t.access[i];
        let k = choose|k: int| 0 <= k < s.access.len() && #[trigger] s.access[k] == v;
    }
}

/// Filing one request keeps the store well formed.
pub proof fn lemma_request_right_wf(s: StoreV, u: usize, e: usize, note: Seq<char>)
    requires
        store_wf(s),
        s.next_request_id < usize::MAX,
    ensures
        store_wf(request_right_t(s, u, e, note)),
{
    let keep = |q: RequestRowV| !(q.user_id == u && q.entity_id == e);
    lemma_filter_elems(s.access_request, keep);
    crate::util::lemma_filter_distinct(s.access_request, keep, |q: RequestRowV| q.id);
    crate::util::lemma_filter_distinct(
        s.access_request,
        keep,
        |q: RequestRowV| (q.user_id, q.entity_id),
    );
    let t = request_right_t(s, u, e, note);
    let f = requests_without(s.access_request, u, e);
    assert forall|i: int| 0 <= i < f.len() implies #[trigger] f[i].id < s.next_request_id by {
        let v = f[i];
        let k = choose|k: int| 0 <= k < s.access_request.len() && #[trigger] s.access_request[k] == v;
    }
}

/// Persisting an identity keeps the store well formed.
pub proof fn lemma_add_user_wf(
    s: StoreV,
    system: ExternalSystem,
    external_id: Seq<char>,
    name: Seq<char>,
    email: Seq<char>,
    bespoke: Seq<char>,
)
    requires
        store_wf(s),
        s.next_user_id < u64::MAX,
    ensures
        store_wf(add_user_t(s, system, external_id, name, email, bespoke)),
{
    let t = add_user_t(s, system, external_id, name, email, bespoke);
    if has_user_key(s.user, system, external_id) {
        assert(forall|i: int|
            0 <= i < s.user.len() ==> #[trigger] t.user[i].id == s.user[i].id
                && t.user[i].system == s.user[i].system && t.user[i].external_id
                == s.user[i].external_id);
    }
}

/// Creating a child entity keeps the store well formed.
pub proof fn lemma_create_child_wf(
    s: StoreV,
    parent_id: usize,
    name: Seq<char>,
    external_id: Seq<char>,
)
    requires
        store_wf(s),
        s.next_entity_id < usize::MAX,
        s.next_connection_id < usize::MAX,
    ensures
        store_wf(create_child_entity_t(s, parent_id, name, external_id)),
{
}

/// The full (entity, right) product has one pair per entity and right.
pub proof fn lemma_pair_list_membership(ids: Seq<usize>, rs: Seq<Seq<char>>, e: usize, r: Seq<char>)
    ensures
        pair_list(ids, rs).contains((e, r)) <==> (ids.contains(e) && rs.contains(r)),
    decreases ids.len(),
{
    if ids.len() == 0 {
    } else {
        lemma_pair_list_membership(ids.drop_last(), rs, e, r);
        let seg = rs.map_values(|x: Seq<char>| (ids.last(), x));
        let whole = pair_list(ids.drop_last(), rs) + seg;
        assert(pair_list(ids, rs) == whole);
        if ids.contains(e) && rs.contains(r) {
            if ids.last() == e {
                let k = choose|k: int| 0 <= k < rs.len() && #[trigger] rs[k] == r;
                assert(seg[k] == (e, r));
                assert(whole[pair_list(ids.drop_last(), rs).len() + k] == (e, r));
                assert(whole.contains((e, r)));
            } else {
                let k = choose|k: int| 0 <= k < ids.len() && #[trigger] ids[k] == e;
                assert(k < ids.len() - 1);
                assert(ids.drop_last()[k] == e);
                assert(ids.drop_last().contains(e));
                let j = choose|j: int|
                    0 <= j < pair_list(ids.drop_last(), rs).len() && #[trigger] pair_list(
                        ids.drop_last(),
                        rs,
                    )[j] == (e, r);
                assert(whole[j] == (e, r));
                assert(whole.contains((e, r)));
            }
        }
        if whole.contains((e, r)) {
            let j = choose|j: int| 0 <= j < whole.len() && #[trigger] whole[j] == (e, r);
            if j < pair_list(ids.drop_last(), rs).len() {
                assert(pair_list(ids.drop_last(), rs)[j] == (e, r));
                assert(pair_list(ids.drop_last(), rs).contains((e, r)));
                let k = choose|k: int|
                    0 <= k < ids.drop_last().len() && #[trigger] ids.drop_last()[k] == e;
                assert(ids[k] == e);
            } else {
                let k = j - pair_list(ids.drop_last(), rs).len();
                assert(seg[k] == (e, r));
                assert(rs[k] == r);
                assert(ids[ids.len() - 1] == e);
            }
        }
    }
}

/// Bulk revocation in one formula: applying the removals of a pair list
/// deletes exactly the rows of the user whose (entity, right) pair the list
/// holds.
pub proof fn lemma_apply_removals_closed(s: StoreV, u: usize, pairs: Seq<(usize, Seq<char>)>)
    ensures
        apply_removals(s, u, pairs) == (StoreV {
            access: s.access.filter(
                |x: AccessRowV| !(x.user_id == u && pairs.contains((x.entity_id, x.right))),
            ),
            ..s
        }),
    decreases pairs.len(),
{
    reveal(Seq::filter);
    let full = |x: AccessRowV| !(x.user_id == u && pairs.contains((x.entity_id, x.right)));
    if pairs.len() == 0 {
        assert(s.access.filter(full) =~= s.access) by {
            lemma_filter_all(s.access, full);
        }
        assert(apply_removals(s, u, pairs) == (StoreV { access: s.access.filter(full), ..s }));
    } else {
        let e0 = pairs[0].0;
        let r0 = pairs[0].1;
        let s1 = remove_right_t(s, u, e0, r0);
        lemma_apply_removals_closed(s1, u, pairs.drop_first());
        let first = |x: AccessRowV| !(x.user_id == u && x.entity_id == e0 && x.right == r0);
        let rest = |x: AccessRowV| !(x.user_id == u && pairs.drop_first().contains(
            (x.entity_id, x.right),
        ));
        assert(s1.access == s.access.filter(first));
        assert forall|x: AccessRowV| #[trigger] full(x) == (first(x) && rest(x)) by {
            let pr = (x.entity_id, x.right);
            if pairs.contains(pr) {
                let k = choose|k: int| 0 <= k < pairs.len() && #[trigger] pairs[k] == pr;
                if k != 0 {
                    assert(pairs.drop_first()[k - 1] == pr);
                    assert(pairs.drop_first().contains(pr));
                }
            }
            if pairs.drop_first().contains(pr) {
                let k = choose|k: int|
                    0 <= k < pairs.drop_first().len() && #[trigger] pairs.drop_first()[k] == pr;
                assert(pairs[k + 1] == pr);
                assert(pairs.contains(pr));
            }
        }
        lemma_filter_compose(s.access, first, rest, full);
        assert(apply_removals(s, u, pairs).access == s.access.filter(first).filter(rest));
    }
}

/// Filtering with an always-true predicate keeps the sequence.
pub proof fn lemma_filter_all<A>(s: Seq<A>, pred: spec_fn(A) -> bool)
    requires
        forall|i: int| 0 <= i < s.len() ==> pred(#[trigger] s[i]),
    ensures
        s.filter(pred) == s,
    decreases s.len(),
{
    reveal(Seq::filter);
    if s.len() != 0 {
        let d = s.drop_last();
        assert(forall|i: int| 0 <= i < d.len() ==> #[trigger] d[i] == s[i]);
        lemma_filter_all(d, pred);
        assert(s.filter(pred) =~= s);
    }
}

/// Two filters in a row equal one filter by the conjunction.
pub proof fn lemma_filter_compose<A>(
    s: Seq<A>,
    p: spec_fn(A) -> bool,
    q: spec_fn(A) -> bool,
    both: spec_fn(A) -> bool,
)
    requires
        forall|x: A| #[trigger] both(x) == (p(x) && q(x)),
    ensures
        s.filter(p).filter(q) == s.filter(both),
    decreases s.len(),
{
    reveal(Seq::filter);
    if s.len() == 0 {
        assert(s.filter(p).filter(q) =~= s.filter(both));
    } else {
        let d = s.drop_last();
        lemma_filter_compose(d, p, q, both);
        if p(s.last()) {
            assert(s.filter(p) == d.filter(p).push(s.last()));
            assert(d.filter(p).push(s.last()).drop_last() =~= d.filter(p));
            assert(s.filter(p).filter(q) == if q(s.last()) {
                d.filter(p).filter(q).push(s.last())
            } else {
                d.filter(p).filter(q)
            });
        } else {
            assert(s.filter(p) == d.filter(p));
        }
    }
}

/// Scan one access table for a (user, entity, right) triple.
pub(crate) fn has_triple_vec(rows: &Vec<DbTableAccess>, u: usize, e: usize, r: &String) -> (b:
    bool)
    ensures
        b == has_triple(access_views(rows@), u, e, r@),
{
    let ghost rv = access_views(rows@);
    let mut i: usize = 0;
    while i < rows.len()
        invariant
            0 <= i <= rows@.len(),
            rv == access_views(rows@),
            forall|j: int|
                0 <= j < i ==> !(#[trigger] rv[j].user_id == u && rv[j].entity_id == e
                    && rv[j].right == r@),
        decreases rows@.len() - i,
    {
        if rows[i].user_id == u && rows[i].entity_id == e && rows[i].right == *r {
            assert(rv[i as int].user_id == u && rv[i as int].entity_id == e && rv[i as int].right
                == r@);
            return true;
        }
        i += 1;
    }
    false
}

/// Scan one user table for an identity key.
pub(crate) fn has_user_key_vec(
    rows: &Vec<ExternalSystemUser>,
    system: ExternalSystem,
    external_id: &str,
) -> (b: bool)
    ensures
        b == has_user_key(user_views(rows@), system, external_id@),
{
    let ghost uv = user_views(rows@);
    let mut i: usize = 0;
    while i < rows.len()
        invariant
            0 <= i <= rows@.len(),
            uv == user_views(rows@),
            forall|j: int|
                0 <= j < i ==> !(#[trigger] uv[j].system == system && uv[j].external_id
                    == external_id@),
        decreases rows@.len() - i,
    {
        if rows[i].system == system && str_eq(rows[i].external_id.as_str(), external_id) {
            assert(uv[i as int].system == system && uv[i as int].external_id == external_id@);
            return true;
        }
        i += 1;
    }
    false
}

/// File one request per given entity, in order.
pub open spec fn apply_requests(s: StoreV, u: usize, ids: Seq<usize>, note: Seq<char>) -> StoreV
    decreases ids.len(),
{
    if ids.len() == 0 {
        s
    } else {
        apply_requests(request_right_t(s, u, ids[0], note), u, ids.drop_first(), note)
    }
}

/// The access table without every row of one user whose entity and right
/// are both among the given ones.
pub open spec fn access_bulk_removed(
    a: Seq<AccessRowV>,
    u: usize,
    ids: Seq<usize>,
    rs: Seq<Seq<char>>,
) -> Seq<AccessRowV> {
    a.filter(
        |x: AccessRowV| !(x.user_id == u && ids.contains(x.entity_id) && rs.contains(x.right)),
    )
}

/// The pairs of a list that neither exclusion list holds.
pub open spec fn missing_from(
    pairs: Seq<(usize, Seq<char>)>,
    p1: Seq<(usize, Seq<char>)>,
    p2: Seq<(usize, Seq<char>)>,
) -> Seq<(usize, Seq<char>)> {
    pairs.filter(|p: (usize, Seq<char>)| !p1.contains(p) && !p2.contains(p))
}

/// The pairs of a list not yet granted to the user.
pub open spec fn missing_grants(a: Seq<AccessRowV>, u: usize, pairs: Seq<(usize, Seq<char>)>) -> Seq<
    (usize, Seq<char>),
> {
    pairs.filter(|p: (usize, Seq<char>)| !has_triple(a, u, p.0, p.1))
}

/// The pairs of a list lying on one of the given entities.
pub open spec fn pairs_on(pairs: Seq<(usize, Seq<char>)>, ids: Seq<usize>) -> Seq<
    (usize, Seq<char>),
> {
    pairs.filter(|p: (usize, Seq<char>)| ids.contains(p.0))
}

/// The pairs of a list whose right is not among the given rights.
pub open spec fn pairs_not_rights(pairs: Seq<(usize, Seq<char>)>, rs: Seq<Seq<char>>) -> Seq<
    (usize, Seq<char>),
> {
    pairs.filter(|p: (usize, Seq<char>)| !rs.contains(p.1))
}

/// The product list is as long as the product of the lengths.
pub proof fn lemma_pair_list_len(ids: Seq<usize>, rs: Seq<Seq<char>>)
    ensures
        pair_list(ids, rs).len() == ids.len() * rs.len(),
    decreases ids.len(),
{
    if ids.len() == 0 {
    } else {
        lemma_pair_list_len(ids.drop_last(), rs);
        assert((ids.len() - 1) * rs.len() + rs.len() == ids.len() * rs.len()) by (nonlinear_arith);
    }
}

/// Membership in a filtered sequence is membership plus the predicate.
pub proof fn lemma_filter_membership<A>(s: Seq<A>, pred: spec_fn(A) -> bool)
    ensures
        forall|x: A| #[trigger] s.filter(pred).contains(x) <==> (s.contains(x) && pred(x)),
{
    lemma_filter_elems(s, pred);
    assert forall|x: A| #[trigger] s.filter(pred).contains(x) implies (s.contains(x) && pred(x)) by {
        let f = s.filter(pred);
        let i = choose|i: int| 0 <= i < f.len() && #[trigger] f[i] == x;
        assert(s.contains(f[i]));
        assert(pred(f[i]));
    }
    assert forall|x: A| s.contains(x) && pred(x) implies #[trigger] s.filter(pred).contains(x) by {
        let i = choose|i: int| 0 <= i < s.len() && #[trigger] s[i] == x;
        assert(s.filter(pred).contains(s[i]));
    }
}

/// Two predicates that agree on the elements of a sequence filter it alike.
pub proof fn lemma_filter_congruent<A>(s: Seq<A>, p: spec_fn(A) -> bool, q: spec_fn(A) -> bool)
    requires
        forall|i: int| 0 <= i < s.len() ==> p(#[trigger] s[i]) == q(s[i]),
    ensures
        s.filter(p) == s.filter(q),
    decreases s.len(),
{
    reveal(Seq::filter);
    if s.len() == 0 {
        assert(s.filter(p) =~= s.filter(q));
    } else {
        let d = s.drop_last();
        assert(forall|i: int| 0 <= i < d.len() ==> #[trigger] d[i] == s[i]);
        lemma_filter_congruent(d, p, q);
        assert(p(s.last()) == q(s.last())) by {
            assert(s[s.len() - 1] == s.last());
        }
    }
}

/// Build the (entity, right) product of the two argument lists, dropping
/// every pair that one of the exclusion lists already holds.
pub(crate) fn product_missing_vec(
    entity_ids: &Vec<usize>,
    rights: &Vec<String>,
    excl1: &Vec<(usize, String)>,
    excl2: &Vec<(usize, String)>,
) -> (r: Vec<(usize, String)>)
    ensures
        pair_views(r@) == missing_from(
            pair_list(entity_ids@, crate::util::string_views(rights@)),
            pair_views(excl1@),
            pair_views(excl2@),
        ),
{
    let ghost rv = crate::util::string_views(rights@);
    let ghost pv1 = pair_views(excl1@);
    let ghost pv2 = pair_views(excl2@);
    let mut out: Vec<(usize, String)> = Vec::new();
    proof {
        reveal(Seq::filter);
        assert(entity_ids@.take(0) =~= Seq::<usize>::empty());
        assert(pair_views(out@) =~= missing_from(pair_list(entity_ids@.take(0), rv), pv1, pv2));
    }
    let mut i: usize = 0;
    while i < entity_ids.len()
        invariant
            0 <= i <= entity_ids@.len(),
            rv == crate::util::string_views(rights@),
            pv1 == pair_views(excl1@),
            pv2 == pair_views(excl2@),
            pair_views(out@) == missing_from(pair_list(entity_ids@.take(i as int), rv), pv1, pv2),
        decreases entity_ids@.len() - i,
    {
        let eid = entity_ids[i];
        let ghost base = pair_list(entity_ids@.take(i as int), rv);
        let ghost seg = rv.map_values(|x: Seq<char>| (eid, x));
        proof {
            assert(entity_ids@.take(i + 1 as int).drop_last() =~= entity_ids@.take(i as int));
            assert(entity_ids@.take(i + 1 as int).last() == entity_ids@[i as int]);
            assert(pair_list(entity_ids@.take(i + 1 as int), rv) == base + seg);
        }
        let mut j: usize = 0;
        while j < rights.len()
            invariant
                0 <= j <= rights@.len(),
                rv == crate::util::string_views(rights@),
                pv1 == pair_views(excl1@),
                pv2 == pair_views(excl2@),
                seg == rv.map_values(|x: Seq<char>| (eid, x)),
                base == pair_list(entity_ids@.take(i as int), rv),
                pair_views(out@) == missing_from(base, pv1, pv2) + missing_from(
                    seg.take(j as int),
                    pv1,
                    pv2,
                ),
            decreases rights@.len() - j,
        {
            let ghost out_v = pair_views(out@);
            proof {
                reveal(Seq::filter);
                assert(seg.take(j + 1 as int).drop_last() =~= seg.take(j as int));
                assert(seg.take(j + 1 as int).last() == seg[j as int]);
                assert(seg[j as int] == (eid, rv[j as int]));
            }
            let in1 = crate::util::pairs_contain(excl1, eid, &rights[j]);
            let in2 = crate::util::pairs_contain(excl2, eid, &rights[j]);
            proof {
                assert(in1 == pv1.contains((eid, rv[j as int]))) by {
                    if pv1.contains((eid, rv[j as int])) {
                        let k = choose|k: int|
                            0 <= k < pv1.len() && #[trigger] pv1[k] == (eid, rv[j as int]);
                        assert(excl1@[k].0 == eid && excl1@[k].1@ == rv[j as int]);
                    }
                    if exists|k: int|
                        0 <= k < excl1@.len() && #[trigger] excl1@[k].0 == eid && excl1@[k].1@
                            == rv[j as int] {
                        let k = choose|k: int|
                            0 <= k < excl1@.len() && #[trigger] excl1@[k].0 == eid && excl1@[k].1@
                                == rv[j as int];
                        assert(pv1[k] == (eid, rv[j as int]));
                    }
                }
                assert(in2 == pv2.contains((eid, rv[j as int]))) by {
                    if pv2.contains((eid, rv[j as int])) {
                        let k = choose|k: int|
                            0 <= k < pv2.len() && #[trigger] pv2[k] == (eid, rv[j as int]);
                        assert(excl2@[k].0 == eid && excl2@[k].1@ == rv[j as int]);
                    }
                    if exists|k: int|
                        0 <= k < excl2@.len() && #[trigger] excl2@[k].0 == eid && excl2@[k].1@
                            == rv[j as int] {
                        let k = choose|k: int|
                            0 <= k < excl2@.len() && #[trigger] excl2@[k].0 == eid && excl2@[k].1@
                                == rv[j as int];
                        assert(pv2[k] == (eid, rv[j as int]));
                    }
                }
            }
            if !in1 && !in2 {
                out.push((eid, rights[j].clone()));
                proof {
                    assert(pair_views(out@) =~= out_v.push((eid, rv[j as int])));
                    assert(missing_from(seg.take(j + 1 as int), pv1, pv2) =~= missing_from(
                        seg.take(j as int),
                        pv1,
                        pv2,
                    ).push((eid, rv[j as int])));
                }
            } else {
                proof {
                    assert(missing_from(seg.take(j + 1 as int), pv1, pv2) =~= missing_from(
                        seg.take(j as int),
                        pv1,
                        pv2,
                    ));
                }
            }
            j += 1;
        }
        proof {
            assert(seg.take(seg.len() as int) =~= seg);
            Seq::filter_distributes_over_add(
                base,
                seg,
                |p: (usize, Seq<char>)| !pv1.contains(p) && !pv2.contains(p),
            );
        }
        i += 1;
    }
    proof {
        assert(entity_ids@.take(entity_ids@.len() as int) =~= entity_ids@);
    }
    out
}

/// Keep the pairs lying on one of the given entities.
pub(crate) fn pairs_on_vec(pairs: &Vec<(usize, String)>, ids: &Vec<usize>) -> (r: Vec<
    (usize, String),
>)
    ensures
        pair_views(r@) == pairs_on(pair_views(pairs@), ids@),
{
    let ghost pv = pair_views(pairs@);
    let mut out: Vec<(usize, String)> = Vec::new();
    proof {
        reveal(Seq::filter);
        assert(pv.take(0) =~= Seq::<(usize, Seq<char>)>::empty());
        assert(pair_views(out@) =~= pairs_on(pv.take(0), ids@));
    }
    let mut i: usize = 0;
    while i < pairs.len()
        invariant
            0 <= i <= pairs@.len(),
            pv == pair_views(pairs@),
            pair_views(out@) == pairs_on(pv.take(i as int), ids@),
        decreases pairs@.len() - i,
    {
        let ghost out_v = pair_views(out@);
        proof {
            reveal(Seq::filter);
            assert(pv.take(i + 1 as int).drop_last() =~= pv.take(i as int));
            assert(pv.take(i + 1 as int).last() == pv[i as int]);
        }
        if ids_contain(ids.as_slice(), pairs[i].0) {
            out.push((pairs[i].0, pairs[i].1.clone()));
            proof {
                assert(pair_views(out@) =~= out_v.push(pv[i as int]));
                assert(pairs_on(pv.take(i + 1 as int), ids@) =~= pairs_on(
                    pv.take(i as int),
                    ids@,
                ).push(pv[i as int]));
            }
        } else {
            proof {
                assert(pairs_on(pv.take(i + 1 as int), ids@) =~= pairs_on(pv.take(i as int), ids@));
            }
        }
        i += 1;
    }
    proof {
        assert(pv.take(pv.len() as int) =~= pv);
    }
    out
}

/// Keep the pairs whose right is not among the given rights.
pub(crate) fn pairs_not_rights_vec(pairs: &Vec<(usize, String)>, rights: &Vec<String>) -> (r: Vec<
    (usize, String),
>)
    ensures
        pair_views(r@) == pairs_not_rights(pair_views(pairs@), crate::util::string_views(rights@)),
{
    let ghost pv = pair_views(pairs@);
    let ghost rv = crate::util::string_views(rights@);
    let mut out: Vec<(usize, String)> = Vec::new();
    proof {
        reveal(Seq::filter);
        assert(pv.take(0) =~= Seq::<(usize, Seq<char>)>::empty());
        assert(pair_views(out@) =~= pairs_not_rights(pv.take(0), rv));
    }
    let mut i: usize = 0;
    while i < pairs.len()
        invariant
            0 <= i <= pairs@.len(),
            pv == pair_views(pairs@),
            rv == crate::util::string_views(rights@),
            pair_views(out@) == pairs_not_rights(pv.take(i as int), rv),
        decreases pairs@.len() - i,
    {
        let ghost out_v = pair_views(out@);
        proof {
            reveal(Seq::filter);
            assert(pv.take(i + 1 as int).drop_last() =~= pv.take(i as int));
            assert(pv.take(i + 1 as int).last() == pv[i as int]);
        }
        if !crate::util::strings_contain(rights, &pairs[i].1) {
            out.push((pairs[i].0, pairs[i].1.clone()));
            proof {
                assert(!rv.contains(pv[i as int].1));
                assert(pair_views(out@) =~= out_v.push(pv[i as int]));
                assert(pairs_not_rights(pv.take(i + 1 as int), rv) =~= pairs_not_rights(
                    pv.take(i as int),
                    rv,
                ).push(pv[i as int]));
            }
        } else {
            proof {
                assert(rv.contains(pv[i as int].1));
                assert(pairs_not_rights(pv.take(i + 1 as int), rv) =~= pairs_not_rights(
                    pv.take(i as int),
                    rv,
                ));
            }
        }
        i += 1;
    }
    proof {
        assert(pv.take(pv.len() as int) =~= pv);
    }
    out
}

/// A freshly loaded working set carries no rights at all.
pub proof fn lemma_load_group_rights_empty(ents: Seq<EntityRowV>, ids: Seq<usize>)
    ensures
        forall|j: int|
            0 <= j < load_group(ents, ids).len() ==> #[trigger] load_group(ents, ids)[
            j].rights.len() == 0,
    decreases ids.len(),
{
    if ids.len() == 0 {
    } else {
        lemma_load_group_rights_empty(ents, ids.drop_last());
        let d = load_group(ents, ids.drop_last());
        let lg = load_group(ents, ids);
        assert forall|j: int| 0 <= j < lg.len() implies #[trigger] lg[j].rights.len() == 0 by {
            if j < d.len() {
                assert(lg[j] == d[j]);
            }
        }
    }
}

/// Exactly the edges entering a listed entity appear among the parent pairs,
/// and each pair stems from an edge row.
pub proof fn lemma_parents_of_membership(c: Seq<ConnectionRowV>, ids: Seq<usize>)
    ensures
        forall|j: int|
            0 <= j < parents_of(c, ids).len() ==> ids.contains(#[trigger] parents_of(c, ids)[j].1)
                && exists|i: int|
                0 <= i < c.len() && #[trigger] c[i].parent_id == parents_of(c, ids)[j].0
                    && c[i].child_id == parents_of(c, ids)[j].1,
        forall|i: int|
            0 <= i < c.len() && ids.contains(#[trigger] c[i].child_id) ==> parents_of(
                c,
                ids,
            ).contains((c[i].parent_id, c[i].child_id)),
{
    let pred = |x: ConnectionRowV| ids.contains(x.child_id);
    let f = c.filter(pred);
    let po = parents_of(c, ids);
    lemma_filter_elems(c, pred);
    assert forall|j: int| 0 <= j < po.len() implies ids.contains(#[trigger] po[j].1) && exists|
        i: int,
    |
        0 <= i < c.len() && #[trigger] c[i].parent_id == po[j].0 && c[i].child_id == po[j].1 by {
        assert(po[j] == (f[j].parent_id, f[j].child_id));
        assert(c.contains(f[j]));
        let i = choose|i: int| 0 <= i < c.len() && #[trigger] c[i] == f[j];
        assert(c[i].parent_id == po[j].0 && c[i].child_id == po[j].1);
    }
    assert forall|i: int| 0 <= i < c.len() && ids.contains(#[trigger] c[i].child_id) implies po.contains(
        (c[i].parent_id, c[i].child_id),
    ) by {
        assert(f.contains(c[i]));
        let k = choose|k: int| 0 <= k < f.len() && #[trigger] f[k] == c[i];
        assert(po[k] == (c[i].parent_id, c[i].child_id));
    }
}

/// Exactly the edges leaving a listed entity appear among the child pairs,
/// and each pair stems from an edge row.
pub proof fn lemma_children_of_membership(c: Seq<ConnectionRowV>, ids: Seq<usize>)
    ensures
        forall|j: int|
            0 <= j < children_of(c, ids).len() ==> ids.contains(
                #[trigger] children_of(c, ids)[j].0,
            ) && exists|i: int|
                0 <= i < c.len() && #[trigger] c[i].parent_id == children_of(c, ids)[j].0
                    && c[i].child_id == children_of(c, ids)[j].1,
        forall|i: int|
            0 <= i < c.len() && ids.contains(#[trigger] c[i].parent_id) ==> children_of(
                c,
                ids,
            ).contains((c[i].parent_id, c[i].child_id)),
{
    let pred = |x: ConnectionRowV| ids.contains(x.parent_id);
    let f = c.filter(pred);
    let co = children_of(c, ids);
    lemma_filter_elems(c, pred);
    assert forall|j: int| 0 <= j < co.len() implies ids.contains(#[trigger] co[j].0) && exists|
        i: int,
    |
        0 <= i < c.len() && #[trigger] c[i].parent_id == co[j].0 && c[i].child_id == co[j].1 by {
        assert(co[j] == (f[j].parent_id, f[j].child_id));
        assert(c.contains(f[j]));
        let i = choose|i: int| 0 <= i < c.len() && #[trigger] c[i] == f[j];
        assert(c[i].parent_id == co[j].0 && c[i].child_id == co[j].1);
    }
    assert forall|i: int| 0 <= i < c.len() && ids.contains(#[trigger] c[i].parent_id) implies co.contains(
        (c[i].parent_id, c[i].child_id),
    ) by {
        assert(f.contains(c[i]));
        let k = choose|k: int| 0 <= k < f.len() && #[trigger] f[k] == c[i];
        assert(co[k] == (c[i].parent_id, c[i].child_id));
    }
}

/// A triple appears among the direct grants of the listed entities exactly
/// when its entity is listed and the access table holds it.
pub proof fn lemma_access_for_entities_membership(a: Seq<AccessRowV>, ids: Seq<usize>)
    ensures
        forall|u: usize, e: usize, rt: Seq<char>|
            #[trigger] access_for_entities(a, ids).contains((u, e, rt)) <==> (ids.contains(e)
                && has_triple(a, u, e, rt)),
{
    let pred = |x: AccessRowV| ids.contains(x.entity_id);
    let f = a.filter(pred);
    let m = access_for_entities(a, ids);
    lemma_filter_elems(a, pred);
    assert forall|u: usize, e: usize, rt: Seq<char>| #[trigger] m.contains((u, e, rt)) implies (
    ids.contains(e) && has_triple(a, u, e, rt)) by {
        let j = choose|j: int| 0 <= j < m.len() && #[trigger] m[j] == (u, e, rt);
        assert(m[j] == (f[j].user_id, f[j].entity_id, f[j].right));
        assert(a.contains(f[j]));
        assert(pred(f[j]));
        let i = choose|i: int| 0 <= i < a.len() && #[trigger] a[i] == f[j];
        assert(a[i].user_id == u && a[i].entity_id == e && a[i].right == rt);
    }
    assert forall|u: usize, e: usize, rt: Seq<char>| ids.contains(e) && has_triple(a, u, e, rt)
        implies #[trigger] m.contains((u, e, rt)) by {
        let i = choose|i: int|
            0 <= i < a.len() && #[trigger] a[i].user_id == u && a[i].entity_id == e && a[i].right
                == rt;
        assert(f.contains(a[i]));
        let k = choose|k: int| 0 <= k < f.len() && #[trigger] f[k] == a[i];
        assert(m[k] == (u, e, rt));
    }
}

/// The working set selected by an id list holds exactly the listed ids that
/// have an entity row, each once.
pub proof fn lemma_load_group_ids(ents: Seq<EntityRowV>, ids: Seq<usize>)
    ensures
        crate::entity::unique_ids(load_group(ents, ids)),
        forall|x: usize|
            #[trigger] contains_id(load_group(ents, ids), x) <==> (ids.contains(x)
                && has_entity_row(ents, x)),
    decreases ids.len(),
{
    let lg = load_group(ents, ids);
    if ids.len() == 0 {
        assert forall|x: usize| #[trigger] contains_id(lg, x) implies (ids.contains(x)
            && has_entity_row(ents, x)) by {
            let i = choose|i: int| 0 <= i < lg.len() && #[trigger] lg[i].id == x;
        }
    } else {
        let d_ids = ids.drop_last();
        lemma_load_group_ids(ents, d_ids);
        let d = load_group(ents, d_ids);
        let id = ids.last();
        assert(forall|j: int| 0 <= j < d_ids.len() ==> #[trigger] d_ids[j] == ids[j]);
        if has_entity_row(ents, id) && !contains_id(d, id) {
            let row = entity_row(ents, id);
            assert(row.id == id) by {
                let i = choose|i: int| 0 <= i < ents.len() && #[trigger] ents[i].id == id;
            }
            assert(lg == d.push(entity_of_row(row)));
            assert(forall|j: int| 0 <= j < d.len() ==> #[trigger] lg[j] == d[j]);
            assert(lg[lg.len() - 1].id == id);
            assert forall|i: int, j: int| 0 <= i < j < lg.len() implies #[trigger] lg[i].id
                != #[trigger] lg[j].id by {
                if j == lg.len() - 1 {
                    if lg[i].id == id {
                        assert(d[i].id == id);
                        assert(contains_id(d, id));
                    }
                }
            }
            assert forall|x: usize| #[trigger] contains_id(lg, x) implies (ids.contains(x)
                && has_entity_row(ents, x)) by {
                let i = choose|i: int| 0 <= i < lg.len() && #[trigger] lg[i].id == x;
                if i < d.len() {
                    assert(contains_id(d, x));
                    let k = choose|k: int| 0 <= k < d_ids.len() && #[trigger] d_ids[k] == x;
                    assert(ids[k] == x);
                } else {
                    assert(x == id);
                    assert(ids[ids.len() - 1] == id);
                }
            }
            assert forall|x: usize| ids.contains(x) && has_entity_row(ents, x) implies #[trigger] contains_id(
                lg,
                x,
            ) by {
                let k = choose|k: int| 0 <= k < ids.len() && #[trigger] ids[k] == x;
                if k < ids.len() - 1 {
                    assert(d_ids[k] == x);
                    assert(d_ids.contains(x));
                    assert(contains_id(d, x));
                    let i = choose|i: int| 0 <= i < d.len() && #[trigger] d[i].id == x;
                    assert(lg[i].id == x);
                } else {
                    assert(lg[lg.len() - 1].id == id);
                }
            }
        } else {
            assert(lg == d);
            assert forall|x: usize| #[trigger] contains_id(lg, x) implies (ids.contains(x)
                && has_entity_row(ents, x)) by {
                assert(contains_id(d, x));
                let k = choose|k: int| 0 <= k < d_ids.len() && #[trigger] d_ids[k] == x;
                assert(ids[k] == x);
            }
            assert forall|x: usize| ids.contains(x) && has_entity_row(ents, x) implies #[trigger] contains_id(
                lg,
                x,
            ) by {
                let k = choose|k: int| 0 <= k < ids.len() && #[trigger] ids[k] == x;
                if k < ids.len() - 1 {
                    assert(d_ids[k] == x);
                    assert(d_ids.contains(x));
                } else {
                    assert(x == id);
                    if !has_entity_row(ents, id) {
                        assert(false);
                    }
                    assert(contains_id(d, id));
                }
            }
        }
    }
}

} // verus!

#![verifier::loop_isolation(false)]

use vstd::prelude::*;
use vstd::string::StringExecFns;
use crate::backing_store::{
    access_bulk_removed, access_for_entities, access_triples_vec, access_views, add_right_t,
    add_user_t, apply_removals, apply_requests, apply_rights,
    connection_views, copy_access_rows, copy_connection_rows, copy_entity_rows, copy_request_rows,
    copy_user_rows, create_child_entity_t, entity_views, find_user_vec, has_triple, has_triple_vec,
    has_user_id, has_user_key, has_user_key_vec, lemma_add_right_wf, lemma_add_user_wf,
    lemma_apply_removals_closed, lemma_create_child_wf, lemma_filter_congruent,
    lemma_filter_membership, lemma_pair_list_len, lemma_pair_list_membership,
    lemma_remove_right_wf, lemma_request_right_wf, lemma_user_rights_membership, load_group,
    load_group_vec, missing_from, missing_grants, pair_list, pair_views, pairs_not_rights,
    pairs_not_rights_vec, pairs_on, pairs_on_vec, product_missing_vec, remove_access_matching,
    remove_requests_matching, remove_right_t, request_right_t, request_views, requests_for,
    requests_vec, triple_views, update_user_bespoke, user_by_id, user_rights_of, user_rights_vec,
    user_views, BackingStore, StoreV,
};
use crate::util::{ids_contain, pairs_contain, string_views};
use crate::db_tables::AccessRowV;
use crate::external_system::{ExternalSystem, UserRowV};
use crate::db_tables::{ConnectionRowV, EntityRowV};
use crate::database_session_store::DatabaseSessionStore;
use crate::db_tables::{DbTableAccess, DbTableConnection, DbTableEntity};
use crate::entity::{
    add_child_edges, add_parent_edges, add_right_annotations, contains_id, entry, group_ids,
    EntityGroup, EntityV,
};
use crate::error::RingError;
use crate::external_system::{ExternalAccessRequest, ExternalSystemUser};

verus! {

broadcast use vstd::seq_lib::group_filter_ensures;


// ------------------------------------------------------------------
// rights propagation: the ascending closure
// ------------------------------------------------------------------

/// Whether the edge table holds a directed edge from `p` to `c`.
pub open spec fn parent_edge(conn: Seq<ConnectionRowV>, p: usize, c: usize) -> bool {
    exists|i: int|
        0 <= i < conn.len() && #[trigger] conn[i].parent_id == p && conn[i].child_id == c
}

/// Whether `to` is reached from `from` in exactly `n` steps towards parents.
pub open spec fn steps_up(conn: Seq<ConnectionRowV>, from: usize, to: usize, n: nat) -> bool
    decreases n,
{
    if n == 0 {
        from == to
    } else {
        exists|m: usize| parent_edge(conn, m, from) && steps_up(conn, m, to, (n - 1) as nat)
    }
}

/// Whether `to` is an ancestor of `from` — `from` itself included.
pub open spec fn ancestor_of(conn: Seq<ConnectionRowV>, from: usize, to: usize) -> bool {
    exists|n: nat| steps_up(conn, from, to, n)
}

/// A path can be extended at its far end by one more parent edge.
proof fn lemma_steps_extend(conn: Seq<ConnectionRowV>, base: usize, c: usize, p: usize, n: nat)
    requires
        steps_up(conn, base, c, n),
        parent_edge(conn, p, c),
    ensures
        steps_up(conn, base, p, (n + 1) as nat),
    decreases n,
{
    if n == 0 {
        assert(steps_up(conn, p, p, 0));
    } else {
        let m = choose|m: usize| parent_edge(conn, m, base) && steps_up(conn, m, c, (n - 1) as nat);
        lemma_steps_extend(conn, m, c, p, (n - 1) as nat);
        assert(parent_edge(conn, m, base) && steps_up(conn, m, p, n));
    }
}

/// A list of ids that contains the start and is closed under parent edges
/// contains every ancestor of the start.
proof fn lemma_up_complete(
    conn: Seq<ConnectionRowV>,
    ap: Seq<usize>,
    from: usize,
    to: usize,
    n: nat,
)
    requires
        ap.contains(from),
        forall|a: usize, p: usize|
            ap.contains(a) && #[trigger] parent_edge(conn, p, a) ==> ap.contains(p),
        steps_up(conn, from, to, n),
    ensures
        ap.contains(to),
    decreases n,
{
    if n == 0 {
    } else {
        let m = choose|m: usize| parent_edge(conn, m, from) && steps_up(conn, m, to, (n - 1) as nat);
        assert(ap.contains(m));
        lemma_up_complete(conn, ap, m, to, (n - 1) as nat);
    }
}


// ------------------------------------------------------------------
// rights propagation: seeds and the descending closure
// ------------------------------------------------------------------

/// Drop repeated ids, keeping each id's first occurrence.
pub open spec fn dedup_first(s: Seq<usize>) -> Seq<usize>
    decreases s.len(),
{
    if s.len() == 0 {
        Seq::empty()
    } else {
        let d = dedup_first(s.drop_last());
        if d.contains(s.last()) {
            d
        } else {
            d.push(s.last())
        }
    }
}

/// The pairs carrying exactly the given right.
pub open spec fn pairs_with_right(pairs: Seq<(usize, Seq<char>)>, rt: Seq<char>) -> Seq<
    (usize, Seq<char>),
> {
    pairs.filter(|p: (usize, Seq<char>)| p.1 == rt)
}

/// The entity ids of a pair list, in order.
pub open spec fn pair_firsts(pairs: Seq<(usize, Seq<char>)>) -> Seq<usize> {
    pairs.map_values(|p: (usize, Seq<char>)| p.0)
}

/// The view of an optional right filter.
pub open spec fn right_filter_view(o: Option<String>) -> Option<Seq<char>> {
    match o {
        Some(s) => Some(s@),
        None => None,
    }
}

/// The working set of the entities a user holds direct grants on — filtered
/// to one right if asked — each annotated with those granted rights and with
/// its one-hop neighbourhood.
pub open spec fn entities_with_user_access_s(
    s: StoreV,
    u: usize,
    filter: Option<Seq<char>>,
) -> Seq<EntityV> {
    let pairs = match filter {
        Some(rt) => pairs_with_right(user_rights_of(s.access, u), rt),
        None => user_rights_of(s.access, u),
    };
    let ids = dedup_first(pair_firsts(pairs));
    let g1 = add_right_annotations(load_group(s.entity, ids), pairs);
    add_parent_edges(
        add_child_edges(
            g1,
            crate::backing_store::children_of(s.connection, group_ids(g1)),
        ),
        crate::backing_store::parents_of(s.connection, group_ids(g1)),
    )
}


/// One propagation step of the descending closure: a child freshly reached
/// this round inherits the rights its parent has accumulated; the parent
/// must be in the working set, the child among the round's fresh entities.
pub open spec fn descend_edge(g: Seq<EntityV>, ng: Seq<EntityV>, p: usize, c: usize) -> Seq<
    EntityV,
> {
    if contains_id(g, p) && contains_id(ng, c) {
        crate::entity::merge_one(g, (EntityV { rights: entry(g, p).rights, ..entry(ng, c) }))
    } else {
        g
    }
}

/// The ids a propagation step adds to the next frontier.
pub open spec fn descend_step_adds(
    g: Seq<EntityV>,
    ng: Seq<EntityV>,
    acc: Seq<usize>,
    p: usize,
    c: usize,
) -> Seq<usize> {
    if contains_id(g, p) && contains_id(ng, c) && !acc.contains(c) {
        acc.push(c)
    } else {
        acc
    }
}

/// Fold one round's edges, collecting the next frontier as it goes.
pub open spec fn descend_edges(
    g: Seq<EntityV>,
    ng: Seq<EntityV>,
    edges: Seq<(usize, usize)>,
    acc: Seq<usize>,
) -> (Seq<EntityV>, Seq<usize>)
    decreases edges.len(),
{
    if edges.len() == 0 {
        (g, acc)
    } else {
        descend_edges(
            descend_edge(g, ng, edges[0].0, edges[0].1),
            ng,
            edges.drop_first(),
            descend_step_adds(g, ng, acc, edges[0].0, edges[0].1),
        )
    }
}

/// The children a round discovers: targets of the round's edges that the
/// working set does not hold yet.
pub open spec fn new_children_ids(g: Seq<EntityV>, edges: Seq<(usize, usize)>) -> Seq<usize> {
    edges.map_values(|e: (usize, usize)| e.1).filter(|c: usize| !contains_id(g, c))
}

/// The descending closure by rounds. Each round expands the frontier once;
/// `fuel` bounds the rounds, and one round per entity row plus two always
/// suffices, as every round before the last adds an entity to the set.
pub open spec fn descend_levels(
    s: StoreV,
    g: Seq<EntityV>,
    frontier: Seq<usize>,
    fuel: nat,
) -> Seq<EntityV>
    decreases fuel,
{
    if fuel == 0 || frontier.len() == 0 {
        g
    } else {
        let edges = crate::backing_store::children_of(s.connection, frontier);
        let ng = load_group(s.entity, new_children_ids(g, edges));
        let gn = descend_edges(g, ng, edges, Seq::empty());
        descend_levels(s, gn.0, gn.1, (fuel - 1) as nat)
    }
}

/// Everything the user can reach with the rights they inherit downwards:
/// the descending closure of the user's directly granted entities.
pub open spec fn all_rights_reachable_s(s: StoreV, u: usize, filter: Option<Seq<char>>) -> Seq<
    EntityV,
> {
    let seed = entities_with_user_access_s(s, u, filter);
    descend_levels(s, seed, group_ids(seed), (s.entity.len() + 2) as nat)
}



/// The first ten entries of a sequence, or all of them if fewer.
pub open spec fn first_ten<A>(s: Seq<A>) -> Seq<A> {
    if s.len() <= 10 {
        s
    } else {
        s.take(10)
    }
}

/// The ids of the users whose folded name contains the folded query, in
/// table order, cut off after ten.
pub open spec fn user_search_s(us: Seq<UserRowV>, q: Seq<char>) -> Seq<usize> {
    first_ten(
        us.filter(
            |r: UserRowV| crate::text::contains_seq(crate::text::lower_of(r.name), crate::text::lower_of(q)),
        ).map_values(|r: UserRowV| r.id->0 as usize),
    )
}

/// The distinct rights whose folded text contains the folded query, first
/// occurrences in table order, cut off after ten.
pub open spec fn rights_search_s(a: Seq<AccessRowV>, q: Seq<char>) -> Seq<Seq<char>> {
    first_ten(
        crate::entity::merge_rights(
            Seq::empty(),
            a.filter(
                |r: AccessRowV| crate::text::contains_seq(
                    crate::text::lower_of(r.right),
                    crate::text::lower_of(q),
                ),
            ).map_values(|r: AccessRowV| r.right),
        ),
    )
}

/// The authorization engine's data layer: the system of record, the
/// in-memory mirror of each table, and the flag that selects the strategy.
///
/// With `use_cached` unset — the live strategy — every read scans the system
/// of record directly and the mirror tables stay empty. With it set — the
/// mirrored strategy — every table is copied into the mirror once, at
/// construction; reads are then served from the mirror alone, and every
/// write goes to the system of record first and, once it succeeded, to the
/// mirror. Well-formedness ties the mirror to the record store, and every
/// contract below speaks of the record store alone: the two strategies are
/// interchangeable observationally.
pub struct DatabaseAbstractionLayer {
    pub use_cached: bool,
    pub session_store: DatabaseSessionStore,
    pub store: BackingStore,
    pub db_access: Vec<DbTableAccess>,
    pub db_connection: Vec<DbTableConnection>,
    pub db_entity: Vec<DbTableEntity>,
    pub db_user: Vec<ExternalSystemUser>,
    pub db_access_request: Vec<ExternalAccessRequest>,
}

impl DatabaseAbstractionLayer {
    /// The mirror holds row for row what the system of record holds.
    pub open spec fn mirror_ok(&self) -> bool {
        &&& access_views(self.db_access@) == self.store@.access
        &&& connection_views(self.db_connection@) == self.store@.connection
        &&& entity_views(self.db_entity@) == self.store@.entity
        &&& user_views(self.db_user@) == self.store@.user
        &&& request_views(self.db_access_request@) == self.store@.access_request
    }

    /// Well-formedness: the record store keeps its schema invariants, the
    /// session store its own, and under the mirrored strategy the mirror is
    /// consistent with the record store.
    pub open spec fn wf(&self) -> bool {
        &&& self.store.wf()
        &&& self.session_store.wf()
        &&& (self.use_cached ==> self.mirror_ok())
    }

    /// Assemble the engine over a loaded system of record, choosing the
    /// strategy once; under the mirrored one, every table is read into the
    /// mirror here and the store is never queried again.
    pub fn new(use_cached: bool, session_store: DatabaseSessionStore, store: BackingStore) -> (r:
        Self)
        requires
            store.wf(),
            session_store.wf(),
        ensures
            r.wf(),
            r.use_cached == use_cached,
            r.store@ == store@,
            r.session_store@ == session_store@,
    {
        let mut ret = DatabaseAbstractionLayer {
            use_cached,
            session_store,
            store,
            db_access: Vec::new(),
            db_connection: Vec::new(),
            db_entity: Vec::new(),
            db_user: Vec::new(),
            db_access_request: Vec::new(),
        };
        ret.init_from_db();
        ret
    }

    /// Fill the mirror from the system of record; a no-op under the live
    /// strategy.
    fn init_from_db(&mut self)
        requires
            old(self).store.wf(),
            old(self).session_store.wf(),
        ensures
            final(self).wf(),
            final(self).use_cached == old(self).use_cached,
            final(self).store@ == old(self).store@,
            final(self).session_store@ == old(self).session_store@,
    {
        if !self.use_cached {
            return;
        }
        self.db_access = copy_access_rows(&self.store.access);
        self.db_connection = copy_connection_rows(&self.store.connection);
        self.db_entity = copy_entity_rows(&self.store.entity);
        self.db_user = copy_user_rows(&self.store.user);
        self.db_access_request = copy_request_rows(&self.store.access_request);
    }

    // ------------------------------------------------------------------
    // reads
    // ------------------------------------------------------------------

    /// The entities of the given ids, as a bare working set: ids without an
    /// entity row are dropped silently, and an empty id set costs no store
    /// round trip.
    pub fn load_entities(&self, entity_ids: &[usize]) -> (r: Result<EntityGroup, RingError>)
        requires
            self.wf(),
        ensures
            r matches Ok(g) && g.wf() && g@ == load_group(self.store@.entity, entity_ids@),
    {
        if self.use_cached {
            self.load_entities_cached(entity_ids)
        } else {
            self.load_entities_db(entity_ids)
        }
    }

    /// Live strategy: scan the record store's entity table.
    fn load_entities_db(&self, entity_ids: &[usize]) -> (r: Result<EntityGroup, RingError>)
        requires
            self.wf(),
        ensures
            r matches Ok(g) && g.wf() && g@ == load_group(self.store@.entity, entity_ids@),
    {
        proof {
            assert(self.store@.entity == entity_views(self.store.entity@));
        }
        if entity_ids.len() == 0 {
            let g = EntityGroup::from_vec(Vec::new());
            proof {
                assert(entity_ids@ =~= Seq::<usize>::empty());
                assert(Seq::<crate::entity::Entity>::empty().map_values(
                    |e: crate::entity::Entity| e@,
                ) =~= Seq::<crate::entity::EntityV>::empty());
            }
            return Ok(g);
        }
        Ok(load_group_vec(&self.store.entity, entity_ids))
    }

    /// Mirrored strategy: the same scan, served from the mirror.
    fn load_entities_cached(&self, entity_ids: &[usize]) -> (r: Result<EntityGroup, RingError>)
        requires
            self.wf(),
            self.use_cached,
        ensures
            r matches Ok(g) && g.wf() && g@ == load_group(self.store@.entity, entity_ids@),
    {
        proof {
            assert(self.store@.entity == entity_views(self.store.entity@));
        }
        Ok(load_group_vec(&self.db_entity, entity_ids))
    }

    /// One-hop child edges: the (parent, child) pairs of every edge leaving
    /// one of the given entities.
    fn load_entity_children(&self, entity_ids: &[usize]) -> (r: Result<
        Vec<(usize, usize)>,
        RingError,
    >)
        requires
            self.wf(),
        ensures
            r matches Ok(v) && v@ == crate::backing_store::children_of(
                self.store@.connection,
                entity_ids@,
            ),
    {
        if self.use_cached {
            Ok(crate::backing_store::children_vec(&self.db_connection, entity_ids))
        } else {
            Ok(crate::backing_store::children_vec(&self.store.connection, entity_ids))
        }
    }

    /// One-hop parent edges: the (parent, child) pairs of every edge entering
    /// one of the given entities.
    fn load_entity_parents(&self, entity_ids: &[usize]) -> (r: Result<
        Vec<(usize, usize)>,
        RingError,
    >)
        requires
            self.wf(),
        ensures
            r matches Ok(v) && v@ == crate::backing_store::parents_of(
                self.store@.connection,
                entity_ids@,
            ),
    {
        if self.use_cached {
            Ok(crate::backing_store::parents_vec(&self.db_connection, entity_ids))
        } else {
            Ok(crate::backing_store::parents_vec(&self.store.connection, entity_ids))
        }
    }

    /// The user record of one id; an unknown id is an error.
    pub fn get_user(&self, user_id: usize) -> (r: Result<ExternalSystemUser, RingError>)
        requires
            self.wf(),
        ensures
            r is Ok <==> has_user_id(self.store@.user, user_id),
            r matches Ok(u) ==> u@ == user_by_id(self.store@.user, user_id),
            r matches Err(e) ==> e is String && e.text() == "No such user"@,
    {
        let found = if self.use_cached {
            find_user_vec(&self.db_user, user_id)
        } else {
            find_user_vec(&self.store.user, user_id)
        };
        match found {
            Some(u) => Ok(u),
            None => Err(RingError::String(String::from_str("No such user"))),
        }
    }

    /// The (entity, right) pairs the user holds directly, in table order.
    fn get_user_rights_for_entities(&self, user_id: usize) -> (r: Result<
        Vec<(usize, String)>,
        RingError,
    >)
        requires
            self.wf(),
        ensures
            r matches Ok(v) && pair_views(v@) == user_rights_of(self.store@.access, user_id),
    {
        if self.use_cached {
            Ok(user_rights_vec(&self.db_access, user_id))
        } else {
            Ok(user_rights_vec(&self.store.access, user_id))
        }
    }

    /// Every (user, entity, right) triple granted directly on one of the
    /// given entities, in table order.
    pub fn get_all_direct_access_for_entities(&self, entity_ids: &[usize]) -> (r: Result<
        Vec<(usize, usize, String)>,
        RingError,
    >)
        requires
            self.wf(),
        ensures
            r matches Ok(v) && triple_views(v@) == access_for_entities(
                self.store@.access,
                entity_ids@,
            ),
    {
        if self.use_cached {
            Ok(access_triples_vec(&self.db_access, entity_ids))
        } else {
            Ok(access_triples_vec(&self.store.access, entity_ids))
        }
    }

    /// The pending access requests on one entity, in table order.
    pub fn get_access_requests(&self, entity_id: usize) -> (r: Result<
        Vec<ExternalAccessRequest>,
        RingError,
    >)
        requires
            self.wf(),
        ensures
            r matches Ok(v) && request_views(v@) == requests_for(
                self.store@.access_request,
                entity_id,
            ),
    {
        if self.use_cached {
            Ok(requests_vec(&self.db_access_request, entity_id))
        } else {
            Ok(requests_vec(&self.store.access_request, entity_id))
        }
    }

    // ------------------------------------------------------------------
    // writes: one row at a time
    // ------------------------------------------------------------------

    /// Grant one right: an idempotent insert that also resolves any pending
    /// request of the (user, entity) pair. The record store is written
    /// first; the mirror follows only once that write went through.
    fn add_right(&mut self, user_id: usize, entity_id: usize, right: &String) -> (r: Result<
        (),
        RingError,
    >)
        requires
            old(self).wf(),
            old(self).store@.next_access_id < usize::MAX,
        ensures
            final(self).wf(),
            r is Ok,
            final(self).use_cached == old(self).use_cached,
            final(self).session_store == old(self).session_store,
            final(self).store@ == add_right_t(old(self).store@, user_id, entity_id, right@),
    {
        let ghost s0 = self.store@;
        let present = has_triple_vec(&self.store.access, user_id, entity_id, right);
        let new_id = self.store.next_access_id;
        if !present {
            self.store.next_access_id = new_id + 1;
            let ghost a0 = self.store@.access;
            self.store.access.push(
                DbTableAccess { id: new_id, user_id, entity_id, right: right.clone() },
            );
            proof {
                assert(self.store@.access =~= a0.push(
                    (AccessRowV { id: new_id, user_id, entity_id, right: right@ }),
                ));
            }
        }
        remove_requests_matching(&mut self.store.access_request, user_id, entity_id);
        if self.use_cached {
            if !present {
                let ghost m0 = access_views(self.db_access@);
                self.db_access.push(
                    DbTableAccess { id: new_id, user_id, entity_id, right: right.clone() },
                );
                proof {
                    assert(access_views(self.db_access@) =~= m0.push(
                        (AccessRowV { id: new_id, user_id, entity_id, right: right@ }),
                    ));
                }
            }
            remove_requests_matching(&mut self.db_access_request, user_id, entity_id);
        }
        proof {
            lemma_add_right_wf(s0, user_id, entity_id, right@);
            assert(self.store@ =~= add_right_t(s0, user_id, entity_id, right@));
        }
        Ok(())
    }

    /// Revoke one right: the exact triple is deleted from the record store,
    /// then from the mirror; absence is not an error.
    fn remove_right(&mut self, user_id: usize, entity_id: usize, right: &String) -> (r: Result<
        (),
        RingError,
    >)
        requires
            old(self).wf(),
        ensures
            final(self).wf(),
            r is Ok,
            final(self).use_cached == old(self).use_cached,
            final(self).session_store == old(self).session_store,
            final(self).store@ == remove_right_t(old(self).store@, user_id, entity_id, right@),
    {
        let ghost s0 = self.store@;
        remove_access_matching(&mut self.store.access, user_id, entity_id, right);
        if self.use_cached {
            remove_access_matching(&mut self.db_access, user_id, entity_id, right);
        }
        proof {
            lemma_remove_right_wf(s0, user_id, entity_id, right@);
            assert(self.store@ =~= remove_right_t(s0, user_id, entity_id, right@));
        }
        Ok(())
    }

    /// File one access request: an upsert keyed by (user, entity) — the new
    /// note replaces a pending one. Store first, mirror second.
    fn request_right(&mut self, user_id: usize, entity_id: usize, note: &str) -> (r: Result<
        (),
        RingError,
    >)
        requires
            old(self).wf(),
            old(self).store@.next_request_id < usize::MAX,
        ensures
            final(self).wf(),
            r is Ok,
            final(self).use_cached == old(self).use_cached,
            final(self).session_store == old(self).session_store,
            final(self).store@ == request_right_t(old(self).store@, user_id, entity_id, note@),
    {
        let ghost s0 = self.store@;
        let new_id = self.store.next_request_id;
        self.store.next_request_id = new_id + 1;
        remove_requests_matching(&mut self.store.access_request, user_id, entity_id);
        let ghost q0 = self.store@.access_request;
        self.store.access_request.push(
            ExternalAccessRequest { id: new_id, user_id, entity_id, note: note.to_owned() },
        );
        proof {
            assert(self.store@.access_request =~= q0.push(
                (crate::external_system::RequestRowV { id: new_id, user_id, entity_id, note: note@ }),
            ));
        }
        if self.use_cached {
            remove_requests_matching(&mut self.db_access_request, user_id, entity_id);
            let ghost mq = request_views(self.db_access_request@);
            self.db_access_request.push(
                ExternalAccessRequest { id: new_id, user_id, entity_id, note: note.to_owned() },
            );
            proof {
                assert(request_views(self.db_access_request@) =~= mq.push(
                    (crate::external_system::RequestRowV {
                        id: new_id,
                        user_id,
                        entity_id,
                        note: note@,
                    }),
                ));
            }
        }
        proof {
            lemma_request_right_wf(s0, user_id, entity_id, note@);
            assert(self.store@ =~= request_right_t(s0, user_id, entity_id, note@));
        }
        Ok(())
    }

    /// Persist an external identity as a user record. A fresh identity gets
    /// a new row and its generated id is returned; a known (system,
    /// external id) key has its opaque payload updated and yields no id.
    pub fn add_user(
        &mut self,
        system: &str,
        external_id: &str,
        name: &str,
        email: &str,
        bespoke_data: &str,
    ) -> (r: Result<Option<u64>, RingError>)
        requires
            old(self).wf(),
            old(self).store@.next_user_id < u64::MAX,
        ensures
            final(self).wf(),
            final(self).use_cached == old(self).use_cached,
            final(self).session_store == old(self).session_store,
            final(self).store@ == add_user_t(
                old(self).store@,
                crate::external_system::system_of(system@),
                external_id@,
                name@,
                email@,
                bespoke_data@,
            ),
            r matches Ok(id) && (id == if has_user_key(
                old(self).store@.user,
                crate::external_system::system_of(system@),
                external_id@,
            ) {
                Option::<u64>::None
            } else {
                Some(old(self).store@.next_user_id)
            }),
    {
        let ghost s0 = self.store@;
        let sys = ExternalSystem::from_str(system);
        let ghost sysv = crate::external_system::system_of(system@);
        proof {
            assert(sys == sysv);
        }
        let exists_key = has_user_key_vec(&self.store.user, sys, external_id);
        if exists_key {
            let ext_string = external_id.to_owned();
            let bespoke_string = bespoke_data.to_owned();
            update_user_bespoke(&mut self.store.user, sys, &ext_string, &bespoke_string);
            if self.use_cached {
                update_user_bespoke(&mut self.db_user, sys, &ext_string, &bespoke_string);
            }
            proof {
                lemma_add_user_wf(s0, sysv, external_id@, name@, email@, bespoke_data@);
                assert(self.store@ =~= add_user_t(
                    s0,
                    sysv,
                    external_id@,
                    name@,
                    email@,
                    bespoke_data@,
                ));
            }
            Ok(None)
        } else {
            let new_id = self.store.next_user_id;
            self.store.next_user_id = new_id + 1;
            let row = ExternalSystemUser {
                id: Some(new_id),
                system: sys,
                name: name.to_owned(),
                email: email.to_owned(),
                external_id: external_id.to_owned(),
                bespoke_data: bespoke_data.to_owned(),
            };
            let copy = row.duplicate();
            let ghost u0 = self.store@.user;
            self.store.user.push(row);
            proof {
                assert(self.store@.user =~= u0.push(
                    (UserRowV {
                        id: Some(new_id),
                        system: sysv,
                        name: name@,
                        email: email@,
                        external_id: external_id@,
                        bespoke_data: bespoke_data@,
                    }),
                ));
            }
            if self.use_cached {
                let ghost mu = user_views(self.db_user@);
                self.db_user.push(copy);
                proof {
                    assert(user_views(self.db_user@) =~= mu.push(
                        (UserRowV {
                            id: Some(new_id),
                            system: sysv,
                            name: name@,
                            email: email@,
                            external_id: external_id@,
                            bespoke_data: bespoke_data@,
                        }),
                    ));
                }
            }
            proof {
                lemma_add_user_wf(s0, sysv, external_id@, name@, email@, bespoke_data@);
                assert(self.store@ =~= add_user_t(
                    s0,
                    sysv,
                    external_id@,
                    name@,
                    email@,
                    bespoke_data@,
                ));
            }
            Ok(Some(new_id))
        }
    }

    /// Create a child entity under an existing parent: the entity row is
    /// written, then the edge row, and the fresh entity id is returned.
    pub fn create_child_entity(&mut self, parent_id: usize, name: &str, ext_id: &str) -> (r:
        Result<usize, RingError>)
        requires
            old(self).wf(),
            old(self).store@.next_entity_id < usize::MAX,
            old(self).store@.next_connection_id < usize::MAX,
        ensures
            final(self).wf(),
            final(self).use_cached == old(self).use_cached,
            final(self).session_store == old(self).session_store,
            final(self).store@ == create_child_entity_t(
                old(self).store@,
                parent_id,
                name@,
                ext_id@,
            ),
            r matches Ok(id) && id == old(self).store@.next_entity_id,
    {
        let ghost s0 = self.store@;
        let child_id = self.store.next_entity_id;
        self.store.next_entity_id = child_id + 1;
        let ghost e0 = self.store@.entity;
        self.store.entity.push(
            DbTableEntity { id: child_id, name: name.to_owned(), external_id: ext_id.to_owned() },
        );
        proof {
            assert(self.store@.entity =~= e0.push(
                (EntityRowV { id: child_id, name: name@, external_id: ext_id@ }),
            ));
        }
        if self.use_cached {
            let ghost me = entity_views(self.db_entity@);
            self.db_entity.push(
                DbTableEntity {
                    id: child_id,
                    name: name.to_owned(),
                    external_id: ext_id.to_owned(),
                },
            );
            proof {
                assert(entity_views(self.db_entity@) =~= me.push(
                    (EntityRowV { id: child_id, name: name@, external_id: ext_id@ }),
                ));
            }
        }
        let conn_id = self.store.next_connection_id;
        self.store.next_connection_id = conn_id + 1;
        let ghost c0 = self.store@.connection;
        self.store.connection.push(DbTableConnection { id: conn_id, parent_id, child_id });
        proof {
            assert(self.store@.connection =~= c0.push(
                (ConnectionRowV { id: conn_id, parent_id, child_id }),
            ));
        }
        if self.use_cached {
            let ghost mc = connection_views(self.db_connection@);
            self.db_connection.push(DbTableConnection { id: conn_id, parent_id, child_id });
            proof {
                assert(connection_views(self.db_connection@) =~= mc.push(
                    (ConnectionRowV { id: conn_id, parent_id, child_id }),
                ));
            }
        }
        proof {
            lemma_create_child_wf(s0, parent_id, name@, ext_id@);
            assert(self.store@ =~= create_child_entity_t(s0, parent_id, name@, ext_id@));
        }
        Ok(child_id)
    }

    // ------------------------------------------------------------------
    // writes: bulk operations
    // ------------------------------------------------------------------

    /// Grant every right of `rights` on every entity of `entity_ids` to one
    /// user: pairs already granted are passed over, and each fresh grant
    /// resolves any pending request of its (user, entity) pair.
    pub fn add_access_rights(
        &mut self,
        user_id: usize,
        entity_ids: Vec<usize>,
        rights: Vec<String>,
    ) -> (r: Result<(), RingError>)
        requires
            old(self).wf(),
            old(self).store@.next_access_id + entity_ids@.len() * rights@.len() <= usize::MAX,
        ensures
            final(self).wf(),
            r is Ok,
            final(self).use_cached == old(self).use_cached,
            final(self).session_store == old(self).session_store,
            final(self).store@ == apply_rights(
                old(self).store@,
                user_id,
                missing_grants(
                    old(self).store@.access,
                    user_id,
                    pair_list(entity_ids@, string_views(rights@)),
                ),
            ),
    {
        let ghost s0 = self.store@;
        let ghost rv = string_views(rights@);
        let ghost pl = pair_list(entity_ids@, rv);
        let existing = match self.get_user_rights_for_entities(user_id) {
            Ok(v) => v,
            Err(e) => {
                return Err(e);
            },
        };
        let add_rights = product_missing_vec(&entity_ids, &rights, &existing, &existing);
        let ghost addv = pair_views(add_rights@);
        proof {
            // the pairs missing from the user's direct grants are exactly
            // the pairs whose triple the access table lacks
            let ur = pair_views(existing@);
            assert forall|i: int| 0 <= i < pl.len() implies (!ur.contains(#[trigger] pl[i])
                && !ur.contains(pl[i])) == !has_triple(s0.access, user_id, pl[i].0, pl[i].1) by {
                lemma_user_rights_membership(s0.access, user_id, pl[i].0, pl[i].1);
            }
            lemma_filter_congruent(
                pl,
                |p: (usize, Seq<char>)| !ur.contains(p) && !ur.contains(p),
                |p: (usize, Seq<char>)| !has_triple(s0.access, user_id, p.0, p.1),
            );
            assert(addv == missing_grants(s0.access, user_id, pl));
            lemma_pair_list_len(entity_ids@, rv);
            assert(addv.len() <= pl.len());
            assert(addv.skip(0) =~= addv);
        }
        let mut k: usize = 0;
        while k < add_rights.len()
            invariant
                0 <= k <= add_rights@.len(),
                addv == pair_views(add_rights@),
                addv.len() <= entity_ids@.len() * rights@.len(),
                self.wf(),
                self.use_cached == old(self).use_cached,
                self.session_store == old(self).session_store,
                s0.next_access_id + entity_ids@.len() * rights@.len() <= usize::MAX,
                self.store@.next_access_id <= s0.next_access_id + k,
                apply_rights(self.store@, user_id, addv.skip(k as int)) == apply_rights(
                    s0,
                    user_id,
                    addv,
                ),
            decreases add_rights@.len() - k,
        {
            proof {
                assert(addv.skip(k as int)[0] == addv[k as int]);
                assert(addv.skip(k as int).drop_first() =~= addv.skip(k + 1 as int));
                assert(addv[k as int] == (add_rights@[k as int].0, add_rights@[k as int].1@));
            }
            let e = add_rights[k].0;
            match self.add_right(user_id, e, &add_rights[k].1) {
                Ok(_) => (),
                Err(err) => {
                    return Err(err);
                },
            }
            k += 1;
        }
        proof {
            assert(addv.skip(addv.len() as int) =~= Seq::<(usize, Seq<char>)>::empty());
        }
        Ok(())
    }

    /// Revoke every right of `rights` on every entity of `entity_ids` from
    /// one user; triples not present are passed over. No grant outside the
    /// given entities or of another user is touched, and requests stay.
    #[verifier::rlimit(60)]
    pub fn remove_access_rights(
        &mut self,
        user_id: usize,
        entity_ids: Vec<usize>,
        rights: Vec<String>,
    ) -> (r: Result<(), RingError>)
        requires
            old(self).wf(),
        ensures
            final(self).wf(),
            r is Ok,
            final(self).use_cached == old(self).use_cached,
            final(self).session_store == old(self).session_store,
            final(self).store@ == (StoreV {
                access: access_bulk_removed(
                    old(self).store@.access,
                    user_id,
                    entity_ids@,
                    string_views(rights@),
                ),
                ..old(self).store@
            }),
    {
        let ghost s0 = self.store@;
        let ghost rv = string_views(rights@);
        let ghost pl = pair_list(entity_ids@, rv);
        let none1: Vec<(usize, String)> = Vec::new();
        let none2: Vec<(usize, String)> = Vec::new();
        let remove_all = product_missing_vec(&entity_ids, &rights, &none1, &none2);
        let ghost remv = pair_views(remove_all@);
        proof {
            assert(pair_views(none1@) =~= Seq::<(usize, Seq<char>)>::empty());
            assert(pair_views(none2@) =~= Seq::<(usize, Seq<char>)>::empty());
            crate::backing_store::lemma_filter_all(
                pl,
                |p: (usize, Seq<char>)| !pair_views(none1@).contains(p) && !pair_views(
                    none2@,
                ).contains(p),
            );
            assert(remv == pl);
            assert(remv.skip(0) =~= remv);
        }
        let mut k: usize = 0;
        while k < remove_all.len()
            invariant
                0 <= k <= remove_all@.len(),
                remv == pair_views(remove_all@),
                self.wf(),
                self.use_cached == old(self).use_cached,
                self.session_store == old(self).session_store,
                apply_removals(self.store@, user_id, remv.skip(k as int)) == apply_removals(
                    s0,
                    user_id,
                    remv,
                ),
            decreases remove_all@.len() - k,
        {
            proof {
                assert(remv.skip(k as int)[0] == remv[k as int]);
                assert(remv.skip(k as int).drop_first() =~= remv.skip(k + 1 as int));
                assert(remv[k as int] == (remove_all@[k as int].0, remove_all@[k as int].1@));
            }
            let e = remove_all[k].0;
            match self.remove_right(user_id, e, &remove_all[k].1) {
                Ok(_) => (),
                Err(err) => {
                    return Err(err);
                },
            }
            k += 1;
        }
        proof {
            assert(remv.skip(remv.len() as int) =~= Seq::<(usize, Seq<char>)>::empty());
            lemma_apply_removals_closed(s0, user_id, pl);
            assert forall|i: int| 0 <= i < s0.access.len() implies (!(#[trigger] s0.access[i].user_id
                == user_id && pl.contains((s0.access[i].entity_id, s0.access[i].right)))) == (!(
            s0.access[i].user_id == user_id && entity_ids@.contains(s0.access[i].entity_id)
                && rv.contains(s0.access[i].right))) by {
                lemma_pair_list_membership(
                    entity_ids@,
                    rv,
                    s0.access[i].entity_id,
                    s0.access[i].right,
                );
            }
            lemma_filter_congruent(
                s0.access,
                |x: AccessRowV| !(x.user_id == user_id && pl.contains((x.entity_id, x.right))),
                |x: AccessRowV| !(x.user_id == user_id && entity_ids@.contains(x.entity_id)
                    && rv.contains(x.right)),
            );
            assert(self.store@ =~= (StoreV {
                access: access_bulk_removed(s0.access, user_id, entity_ids@, rv),
                ..s0
            }));
        }
        Ok(())
    }

    /// Make the user's grants on the given entities exactly the target set:
    /// rights they hold there but that are not in the target set are revoked
    /// first, missing ones granted afterwards — callers must tolerate the
    /// window in which a re-granted right is absent.
    pub fn set_access_rights(
        &mut self,
        user_id: usize,
        entity_ids: Vec<usize>,
        rights: Vec<String>,
    ) -> (r: Result<(), RingError>)
        requires
            old(self).wf(),
            old(self).store@.next_access_id + entity_ids@.len() * rights@.len() <= usize::MAX,
        ensures
            final(self).wf(),
            r is Ok,
            final(self).use_cached == old(self).use_cached,
            final(self).session_store == old(self).session_store,
            final(self).store@ == apply_rights(
                apply_removals(
                    old(self).store@,
                    user_id,
                    pairs_not_rights(
                        pairs_on(user_rights_of(old(self).store@.access, user_id), entity_ids@),
                        string_views(rights@),
                    ),
                ),
                user_id,
                missing_grants(
                    old(self).store@.access,
                    user_id,
                    pair_list(entity_ids@, string_views(rights@)),
                ),
            ),
    {
        let ghost s0 = self.store@;
        let ghost rv = string_views(rights@);
        let ghost pl = pair_list(entity_ids@, rv);
        let existing = match self.get_user_rights_for_entities(user_id) {
            Ok(v) => v,
            Err(e) => {
                return Err(e);
            },
        };
        let existing_f = pairs_on_vec(&existing, &entity_ids);
        let remove_list = pairs_not_rights_vec(&existing_f, &rights);
        let add_list = product_missing_vec(&entity_ids, &rights, &existing_f, &remove_list);
        let ghost ur = pair_views(existing@);
        let ghost exf = pair_views(existing_f@);
        let ghost remv = pair_views(remove_list@);
        let ghost addv = pair_views(add_list@);
        proof {
            // on the target entities, membership among the kept pairs is
            // exactly holding the triple
            lemma_filter_membership(ur, |p: (usize, Seq<char>)| entity_ids@.contains(p.0));
            lemma_filter_membership(exf, |p: (usize, Seq<char>)| !rv.contains(p.1));
            assert forall|i: int| 0 <= i < pl.len() implies (!exf.contains(#[trigger] pl[i])
                && !remv.contains(pl[i])) == !has_triple(s0.access, user_id, pl[i].0, pl[i].1) by {
                lemma_user_rights_membership(s0.access, user_id, pl[i].0, pl[i].1);
                lemma_pair_list_membership(entity_ids@, rv, pl[i].0, pl[i].1);
                assert(pl.contains(pl[i]));
                assert(entity_ids@.contains(pl[i].0));
            }
            lemma_filter_congruent(
                pl,
                |p: (usize, Seq<char>)| !exf.contains(p) && !remv.contains(p),
                |p: (usize, Seq<char>)| !has_triple(s0.access, user_id, p.0, p.1),
            );
            assert(addv == missing_grants(s0.access, user_id, pl));
            lemma_pair_list_len(entity_ids@, rv);
            assert(addv.len() <= pl.len());
            assert(remv.skip(0) =~= remv);
        }
        let mut k: usize = 0;
        while k < remove_list.len()
            invariant
                0 <= k <= remove_list@.len(),
                remv == pair_views(remove_list@),
                self.wf(),
                self.use_cached == old(self).use_cached,
                self.session_store == old(self).session_store,
                self.store@.next_access_id == s0.next_access_id,
                apply_removals(self.store@, user_id, remv.skip(k as int)) == apply_removals(
                    s0,
                    user_id,
                    remv,
                ),
            decreases remove_list@.len() - k,
        {
            proof {
                assert(remv.skip(k as int)[0] == remv[k as int]);
                assert(remv.skip(k as int).drop_first() =~= remv.skip(k + 1 as int));
                assert(remv[k as int] == (remove_list@[k as int].0, remove_list@[k as int].1@));
            }
            let e = remove_list[k].0;
            match self.remove_right(user_id, e, &remove_list[k].1) {
                Ok(_) => (),
                Err(err) => {
                    return Err(err);
                },
            }
            k += 1;
        }
        let ghost s1 = self.store@;
        proof {
            assert(remv.skip(remv.len() as int) =~= Seq::<(usize, Seq<char>)>::empty());
            assert(s1 == apply_removals(s0, user_id, remv));
            assert(addv.skip(0) =~= addv);
        }
        let mut k2: usize = 0;
        while k2 < add_list.len()
            invariant
                0 <= k2 <= add_list@.len(),
                addv == pair_views(add_list@),
                addv.len() <= entity_ids@.len() * rights@.len(),
                self.wf(),
                self.use_cached == old(self).use_cached,
                self.session_store == old(self).session_store,
                s0.next_access_id + entity_ids@.len() * rights@.len() <= usize::MAX,
                self.store@.next_access_id <= s0.next_access_id + k2,
                apply_rights(self.store@, user_id, addv.skip(k2 as int)) == apply_rights(
                    s1,
                    user_id,
                    addv,
                ),
            decreases add_list@.len() - k2,
        {
            proof {
                assert(addv.skip(k2 as int)[0] == addv[k2 as int]);
                assert(addv.skip(k2 as int).drop_first() =~= addv.skip(k2 + 1 as int));
                assert(addv[k2 as int] == (add_list@[k2 as int].0, add_list@[k2 as int].1@));
            }
            let e = add_list[k2].0;
            match self.add_right(user_id, e, &add_list[k2].1) {
                Ok(_) => (),
                Err(err) => {
                    return Err(err);
                },
            }
            k2 += 1;
        }
        proof {
            assert(addv.skip(addv.len() as int) =~= Seq::<(usize, Seq<char>)>::empty());
        }
        Ok(())
    }


    /// Attach the one-hop neighbourhood to every entity already in the
    /// working set: child and parent ids are appended in edge-table order;
    /// no entity is added and nothing else changes.
    pub fn annotate_entities(&self, entities: &mut EntityGroup) -> (r: Result<(), RingError>)
        requires
            self.wf(),
            old(entities).wf(),
        ensures
            r is Ok,
            final(entities).wf(),
            final(entities)@ == add_parent_edges(
                add_child_edges(
                    old(entities)@,
                    crate::backing_store::children_of(
                        self.store@.connection,
                        group_ids(old(entities)@),
                    ),
                ),
                crate::backing_store::parents_of(
                    self.store@.connection,
                    group_ids(old(entities)@),
                ),
            ),
    {
        let ids = entities.ids();
        let children = match self.load_entity_children(ids.as_slice()) {
            Ok(v) => v,
            Err(e) => {
                return Err(e);
            },
        };
        let ghost cv = children@;
        let ghost g0 = entities@;
        proof {
            assert(cv.skip(0) =~= cv);
        }
        let mut k: usize = 0;
        while k < children.len()
            invariant
                0 <= k <= children@.len(),
                cv == children@,
                entities.wf(),
                add_child_edges(entities@, cv.skip(k as int)) == add_child_edges(g0, cv),
            decreases children@.len() - k,
        {
            proof {
                assert(cv.skip(k as int)[0] == cv[k as int]);
                assert(cv.skip(k as int).drop_first() =~= cv.skip(k + 1 as int));
            }
            entities.push_child_id(children[k].0, children[k].1);
            k += 1;
        }
        proof {
            assert(cv.skip(cv.len() as int) =~= Seq::<(usize, usize)>::empty());
        }
        let parents = match self.load_entity_parents(ids.as_slice()) {
            Ok(v) => v,
            Err(e) => {
                return Err(e);
            },
        };
        let ghost pv = parents@;
        let ghost g1 = entities@;
        proof {
            assert(pv.skip(0) =~= pv);
        }
        let mut k2: usize = 0;
        while k2 < parents.len()
            invariant
                0 <= k2 <= parents@.len(),
                pv == parents@,
                entities.wf(),
                add_parent_edges(entities@, pv.skip(k2 as int)) == add_parent_edges(g1, pv),
            decreases parents@.len() - k2,
        {
            proof {
                assert(pv.skip(k2 as int)[0] == pv[k2 as int]);
                assert(pv.skip(k2 as int).drop_first() =~= pv.skip(k2 + 1 as int));
            }
            entities.push_parent_id(parents[k2].1, parents[k2].0);
            k2 += 1;
        }
        proof {
            assert(pv.skip(pv.len() as int) =~= Seq::<(usize, usize)>::empty());
        }
        Ok(())
    }

    /// Who can do what on this entity, inherited grants included: every
    /// (user, right) pair granted directly on the entity or on any of its
    /// ancestors, each pair reported once. The ancestor set is explored
    /// breadth-first over a visited set, so a cycle among the edges cannot
    /// make the walk revisit an entity or fail to stop.
    pub fn get_all_rights_for_entity(&self, entity_id: usize) -> (r: Result<
        Vec<(usize, String)>,
        RingError,
    >)
        requires
            self.wf(),
        ensures
            r matches Ok(v) && (forall|a: int, b: int|
                0 <= a < b < v@.len() ==> pair_views(v@)[a] != pair_views(v@)[b]) && (forall|
                u: usize,
                rt: Seq<char>,
            |
                #[trigger] pair_views(v@).contains((u, rt)) <==> exists|a: usize|
                    ancestor_of(self.store@.connection, entity_id, a) && #[trigger] has_triple(
                        self.store@.access,
                        u,
                        a,
                        rt,
                    )),
    {
        let ghost conn = self.store@.connection;
        let mut all_parents: Vec<usize> = Vec::new();
        all_parents.push(entity_id);
        let mut todo: Vec<usize> = Vec::new();
        todo.push(entity_id);
        let ghost univ: Set<usize> = conn.map_values(
            |x: ConnectionRowV| x.parent_id,
        ).to_set().insert(entity_id);
        proof {
            vstd::seq_lib::seq_to_set_is_finite(conn.map_values(|x: ConnectionRowV| x.parent_id));
            assert(all_parents@ =~= Seq::<usize>::empty().push(entity_id));
            assert(all_parents@[0] == entity_id);
            assert(all_parents@.no_duplicates());
            assert(steps_up(conn, entity_id, entity_id, 0));
            assert(ancestor_of(conn, entity_id, entity_id));
            assert(all_parents@.contains(entity_id));
            assert(all_parents@.to_set().subset_of(univ));
            all_parents@.unique_seq_to_set();
            vstd::set_lib::lemma_len_subset(all_parents@.to_set(), univ);
        }
        while todo.len() > 0
            invariant
                conn == self.store@.connection,
                univ == conn.map_values(|x: ConnectionRowV| x.parent_id).to_set().insert(
                    entity_id,
                ),
                univ.finite(),
                all_parents@.no_duplicates(),
                all_parents@.to_set().subset_of(univ),
                all_parents@.len() <= univ.len(),
                all_parents@.contains(entity_id),
                forall|k: int|
                    0 <= k < all_parents@.len() ==> ancestor_of(
                        conn,
                        entity_id,
                        #[trigger] all_parents@[k],
                    ),
                forall|k: int| 0 <= k < todo@.len() ==> all_parents@.contains(#[trigger] todo@[k]),
                forall|k: int, p: usize|
                    0 <= k < all_parents@.len() && #[trigger] parent_edge(
                        conn,
                        p,
                        all_parents@[k],
                    ) ==> todo@.contains(all_parents@[k]) || all_parents@.contains(p),
            decreases univ.len() - all_parents@.len(), todo@.len(),
        {
            let edges = match self.load_entity_parents(todo.as_slice()) {
                Ok(v) => v,
                Err(e) => {
                    return Err(e);
                },
            };
            let ghost ap0 = all_parents@;
            let ghost todo0 = todo@;
            proof {
                crate::backing_store::lemma_parents_of_membership(conn, todo0);
            }
            let mut new_todo: Vec<usize> = Vec::new();
            let mut k: usize = 0;
            while k < edges.len()
                invariant
                    0 <= k <= edges@.len(),
                    conn == self.store@.connection,
                    univ == conn.map_values(|x: ConnectionRowV| x.parent_id).to_set().insert(
                        entity_id,
                    ),
                    univ.finite(),
                    edges@ == crate::backing_store::parents_of(conn, todo0),
                    all_parents@ == ap0 + new_todo@,
                    all_parents@.no_duplicates(),
                    all_parents@.to_set().subset_of(univ),
                    all_parents@.len() <= univ.len(),
                    forall|j: int| 0 <= j < todo0.len() ==> ap0.contains(#[trigger] todo0[j]),
                    forall|j: int|
                        0 <= j < all_parents@.len() ==> ancestor_of(
                            conn,
                            entity_id,
                            #[trigger] all_parents@[j],
                        ),
                    forall|j: int| 0 <= j < k ==> all_parents@.contains(#[trigger] edges@[j].0),
                decreases edges@.len() - k,
            {
                let p = edges[k].0;
                if !ids_contain(all_parents.as_slice(), p) {
                    proof {
                        // p closes one more parent edge of a visited child
                        crate::backing_store::lemma_parents_of_membership(conn, todo0);
                        let po = crate::backing_store::parents_of(conn, todo0);
                        assert(todo0.contains(po[k as int].1));
                        assert(exists|i: int|
                            0 <= i < conn.len() && #[trigger] conn[i].parent_id == po[k as int].0
                                && conn[i].child_id == po[k as int].1);
                        assert(po[k as int] == edges@[k as int]);
                        let i = choose|i: int|
                            0 <= i < conn.len() && #[trigger] conn[i].parent_id == edges@[
                            k as int].0 && conn[i].child_id == edges@[k as int].1;
                        assert(conn.map_values(|x: ConnectionRowV| x.parent_id)[i] == p);
                        assert(conn.map_values(|x: ConnectionRowV| x.parent_id).contains(p));
                        assert(univ.contains(p));
                        let c = edges@[k as int].1;
                        assert(todo0.contains(c));
                        assert(ap0.contains(c));
                        let ai = choose|ai: int| 0 <= ai < ap0.len() && #[trigger] ap0[ai] == c;
                        assert(all_parents@[ai] == c);
                        assert(ancestor_of(conn, entity_id, c));
                        let n = choose|n: nat| steps_up(conn, entity_id, c, n);
                        assert(parent_edge(conn, p, c));
                        lemma_steps_extend(conn, entity_id, c, p, n);
                        assert(steps_up(conn, entity_id, p, (n + 1) as nat));
                        assert(ancestor_of(conn, entity_id, p));
                        let ap1 = all_parents@.push(p);
                        assert(ap1.no_duplicates()) by {
                            assert(forall|j: int|
                                0 <= j < all_parents@.len() ==> #[trigger] ap1[j]
                                    == all_parents@[j]);
                            assert(!all_parents@.contains(p));
                        }
                        all_parents@.lemma_push_to_set_commute(p);
                        ap1.unique_seq_to_set();
                        vstd::set_lib::lemma_len_subset(ap1.to_set(), univ);
                    }
                    let ghost ap_before = all_parents@;
                    all_parents.push(p);
                    new_todo.push(p);
                    proof {
                        assert(all_parents@ == ap_before.push(p));
                        assert(all_parents@ =~= ap0 + new_todo@);
                        assert forall|x: usize| ap_before.contains(x) implies all_parents@.contains(
                            x,
                        ) by {
                            let ix = choose|ix: int|
                                0 <= ix < ap_before.len() && #[trigger] ap_before[ix] == x;
                            assert(all_parents@[ix] == x);
                        }
                        assert(all_parents@[all_parents@.len() - 1] == p);
                        assert(all_parents@.contains(p));
                        assert forall|j: int| 0 <= j < k + 1 implies all_parents@.contains(
                            #[trigger] edges@[j].0,
                        ) by {
                            if j < k {
                                assert(ap_before.contains(edges@[j].0));
                            }
                        }
                    }
                }
                k += 1;
            }
            todo = new_todo;
            proof {
                crate::backing_store::lemma_parents_of_membership(conn, todo0);
                // every fully-expanded entity now has all its parents visited
                assert forall|j: int, p: usize|
                    0 <= j < all_parents@.len() && #[trigger] parent_edge(
                        conn,
                        p,
                        all_parents@[j],
                    ) implies todo@.contains(all_parents@[j]) || all_parents@.contains(p) by {
                    let a = all_parents@[j];
                    if j < ap0.len() {
                        assert(ap0[j] == a);
                        if todo0.contains(a) {
                            let i = choose|i: int|
                                0 <= i < conn.len() && #[trigger] conn[i].parent_id == p
                                    && conn[i].child_id == a;
                            assert(edges@.contains((p, a)));
                            let jj = choose|jj: int|
                                0 <= jj < edges@.len() && #[trigger] edges@[jj] == (p, a);
                            assert(all_parents@.contains(edges@[jj].0));
                        } else {
                            assert(parent_edge(conn, p, ap0[j]));
                            assert(todo0.contains(ap0[j]) || ap0.contains(p));
                            let pi = choose|pi: int| 0 <= pi < ap0.len() && #[trigger] ap0[pi] == p;
                            assert(all_parents@[pi] == p);
                            assert(all_parents@.contains(p));
                        }
                    } else {
                        assert(new_todo@[j - ap0.len()] == a);
                        assert(todo@.contains(a));
                    }
                }
                if todo@.len() > 0 {
                    assert(all_parents@.len() > ap0.len());
                }
                assert forall|k2: int| 0 <= k2 < todo@.len() implies all_parents@.contains(
                    #[trigger] todo@[k2],
                ) by {
                    assert(all_parents@[ap0.len() + k2] == todo@[k2]);
                }
                assert(all_parents@.contains(entity_id)) by {
                    let i0 = choose|i0: int| 0 <= i0 < ap0.len() && #[trigger] ap0[i0] == entity_id;
                    assert(all_parents@[i0] == entity_id);
                }
            }
        }
        // the visited list is exactly the ancestor set
        proof {
            assert forall|x: usize| ancestor_of(conn, entity_id, x) implies all_parents@.contains(
                x,
            ) by {
                let n = choose|n: nat| steps_up(conn, entity_id, x, n);
                lemma_up_complete(conn, all_parents@, entity_id, x, n);
            }
        }
        let triples = match self.get_all_direct_access_for_entities(all_parents.as_slice()) {
            Ok(v) => v,
            Err(e) => {
                return Err(e);
            },
        };
        let ghost tv = triple_views(triples@);
        proof {
            crate::backing_store::lemma_access_for_entities_membership(
                self.store@.access,
                all_parents@,
            );
        }
        let mut out: Vec<(usize, String)> = Vec::new();
        let mut k3: usize = 0;
        while k3 < triples.len()
            invariant
                0 <= k3 <= triples@.len(),
                tv == triple_views(triples@),
                forall|a: int, b: int|
                    0 <= a < b < out@.len() ==> pair_views(out@)[a] != pair_views(out@)[b],
                forall|u: usize, rt: Seq<char>|
                    #[trigger] pair_views(out@).contains((u, rt)) <==> exists|j: int|
                        0 <= j < k3 && #[trigger] tv[j].0 == u && tv[j].2 == rt,
            decreases triples@.len() - k3,
        {
            let ghost ov = pair_views(out@);
            let u = triples[k3].0;
            proof {
                assert(tv[k3 as int] == (triples@[k3 as int].0, triples@[k3 as int].1, triples@[
                k3 as int].2@));
            }
            if !pairs_contain(&out, u, &triples[k3].2) {
                proof {
                    assert(!ov.contains((u, tv[k3 as int].2))) by {
                        if ov.contains((u, tv[k3 as int].2)) {
                            let j = choose|j: int|
                                0 <= j < ov.len() && #[trigger] ov[j] == (u, tv[k3 as int].2);
                            assert(out@[j].0 == u && out@[j].1@ == tv[k3 as int].2);
                        }
                    }
                }
                out.push((u, triples[k3].2.clone()));
                proof {
                    assert(pair_views(out@) =~= ov.push((u, tv[k3 as int].2)));
                    assert(forall|a: int|
                        0 <= a < ov.len() ==> #[trigger] pair_views(out@)[a] == ov[a]);
                    assert forall|uu: usize, rt: Seq<char>| #[trigger] pair_views(out@).contains(
                        (uu, rt),
                    ) implies exists|j: int|
                        0 <= j < k3 + 1 && #[trigger] tv[j].0 == uu && tv[j].2 == rt by {
                        let a = choose|a: int|
                            0 <= a < pair_views(out@).len() && #[trigger] pair_views(out@)[a] == (
                            uu,
                            rt,
                            );
                        if a < ov.len() {
                            assert(ov.contains((uu, rt)));
                        } else {
                            assert(tv[k3 as int].0 == uu && tv[k3 as int].2 == rt);
                        }
                    }
                    assert forall|uu: usize, rt: Seq<char>|
                        (exists|j: int|
                            0 <= j < k3 + 1 && #[trigger] tv[j].0 == uu && tv[j].2 == rt) implies #[trigger] pair_views(
                        out@,
                    ).contains((uu, rt)) by {
                        let j = choose|j: int|
                            0 <= j < k3 + 1 && #[trigger] tv[j].0 == uu && tv[j].2 == rt;
                        if j < k3 as int {
                            assert(ov.contains((uu, rt)));
                            let a = choose|a: int| 0 <= a < ov.len() && #[trigger] ov[a] == (uu, rt);
                            assert(pair_views(out@)[a] == (uu, rt));
                        } else {
                            assert(pair_views(out@)[ov.len() as int] == (uu, rt));
                        }
                    }
                }
            } else {
                proof {
                    let j = choose|j: int|
                        0 <= j < out@.len() && #[trigger] out@[j].0 == u && out@[j].1@ == triples@[
                        k3 as int].2@;
                    assert(pair_views(out@)[j] == (u, tv[k3 as int].2));
                    assert(pair_views(out@).contains((u, tv[k3 as int].2)));
                    assert forall|uu: usize, rt: Seq<char>|
                        (exists|j2: int|
                            0 <= j2 < k3 + 1 && #[trigger] tv[j2].0 == uu && tv[j2].2 == rt) implies #[trigger] pair_views(
                        out@,
                    ).contains((uu, rt)) by {
                        let j2 = choose|j2: int|
                            0 <= j2 < k3 + 1 && #[trigger] tv[j2].0 == uu && tv[j2].2 == rt;
                        if j2 < k3 as int {
                        } else {
                            assert(tv[k3 as int].0 == uu && tv[k3 as int].2 == rt);
                            assert((uu, rt) == (u, tv[k3 as int].2));
                        }
                    }
                }
            }
            k3 += 1;
        }
        proof {
            // membership in the result is a grant on some ancestor
            assert forall|u: usize, rt: Seq<char>| #[trigger] pair_views(out@).contains((u, rt))
                implies exists|a: usize|
                    ancestor_of(conn, entity_id, a) && #[trigger] has_triple(
                        self.store@.access,
                        u,
                        a,
                        rt,
                    ) by {
                let j = choose|j: int| 0 <= j < tv.len() && #[trigger] tv[j].0 == u && tv[j].2 == rt;
                let e = tv[j].1;
                assert(tv.contains((u, e, rt)));
                assert(all_parents@.contains(e) && has_triple(self.store@.access, u, e, rt));
                assert(ancestor_of(conn, entity_id, e)) by {
                    let ei = choose|ei: int|
                        0 <= ei < all_parents@.len() && #[trigger] all_parents@[ei] == e;
                }
            }
            assert forall|u: usize, rt: Seq<char>|
                (exists|a: usize|
                    ancestor_of(conn, entity_id, a) && #[trigger] has_triple(
                        self.store@.access,
                        u,
                        a,
                        rt,
                    )) implies #[trigger] pair_views(out@).contains((u, rt)) by {
                let a = choose|a: usize|
                    ancestor_of(conn, entity_id, a) && #[trigger] has_triple(
                        self.store@.access,
                        u,
                        a,
                        rt,
                    );
                assert(all_parents@.contains(a));
                assert(tv.contains((u, a, rt)));
                let j = choose|j: int| 0 <= j < tv.len() && #[trigger] tv[j] == (u, a, rt);
                assert(tv[j].0 == u && tv[j].2 == rt);
            }
        }
        Ok(out)
    }


    /// The entities this user holds direct grants on — filtered to one right
    /// when asked — each annotated with those rights and with its one-hop
    /// child and parent ids.
    pub fn get_entities_with_user_access(&self, user_id: usize, special_right: Option<String>) -> (r:
        Result<EntityGroup, RingError>)
        requires
            self.wf(),
        ensures
            r matches Ok(g) && g.wf() && g@ == entities_with_user_access_s(
                self.store@,
                user_id,
                right_filter_view(special_right),
            ),
    {
        let res = match self.get_user_rights_for_entities(user_id) {
            Ok(v) => v,
            Err(e) => {
                return Err(e);
            },
        };
        let res2: Vec<(usize, String)> = match &special_right {
            Some(rt) => {
                let ghost pv0 = pair_views(res@);
                let mut kept: Vec<(usize, String)> = Vec::new();
                proof {
                    reveal(Seq::filter);
                    assert(pv0.take(0) =~= Seq::<(usize, Seq<char>)>::empty());
                    assert(pair_views(kept@) =~= pairs_with_right(pv0.take(0), rt@));
                }
                let mut i: usize = 0;
                while i < res.len()
                    invariant
                        0 <= i <= res@.len(),
                        pv0 == pair_views(res@),
                        pair_views(kept@) == pairs_with_right(pv0.take(i as int), rt@),
                    decreases res@.len() - i,
                {
                    let ghost kv = pair_views(kept@);
                    proof {
                        reveal(Seq::filter);
                        assert(pv0.take(i + 1 as int).drop_last() =~= pv0.take(i as int));
                        assert(pv0.take(i + 1 as int).last() == pv0[i as int]);
                    }
                    if res[i].1 == *rt {
                        kept.push((res[i].0, res[i].1.clone()));
                        proof {
                            assert(pv0[i as int].1 == rt@);
                            assert(pair_views(kept@) =~= kv.push(pv0[i as int]));
                            assert(pairs_with_right(pv0.take(i + 1 as int), rt@) =~= pairs_with_right(
                                pv0.take(i as int),
                                rt@,
                            ).push(pv0[i as int]));
                        }
                    } else {
                        proof {
                            assert(pv0[i as int].1 != rt@);
                            assert(pairs_with_right(pv0.take(i + 1 as int), rt@) =~= pairs_with_right(
                                pv0.take(i as int),
                                rt@,
                            ));
                        }
                    }
                    i += 1;
                }
                proof {
                    assert(pv0.take(pv0.len() as int) =~= pv0);
                }
                kept
            },
            None => res,
        };
        let ghost pv = pair_views(res2@);
        let ghost ff = pair_firsts(pv);
        let mut entity_ids: Vec<usize> = Vec::new();
        proof {
            assert(ff.take(0) =~= Seq::<usize>::empty());
            assert(entity_ids@ =~= dedup_first(ff.take(0)));
        }
        let mut i2: usize = 0;
        while i2 < res2.len()
            invariant
                0 <= i2 <= res2@.len(),
                pv == pair_views(res2@),
                ff == pair_firsts(pv),
                entity_ids@ == dedup_first(ff.take(i2 as int)),
            decreases res2@.len() - i2,
        {
            proof {
                assert(ff.take(i2 + 1 as int).drop_last() =~= ff.take(i2 as int));
                assert(ff.take(i2 + 1 as int).last() == ff[i2 as int]);
                assert(ff[i2 as int] == res2@[i2 as int].0);
            }
            if !ids_contain(entity_ids.as_slice(), res2[i2].0) {
                entity_ids.push(res2[i2].0);
            }
            i2 += 1;
        }
        proof {
            assert(ff.take(ff.len() as int) =~= ff);
        }
        let mut entities = match self.load_entities(entity_ids.as_slice()) {
            Ok(g) => g,
            Err(e) => {
                return Err(e);
            },
        };
        let ghost g0 = entities@;
        proof {
            assert(pv.skip(0) =~= pv);
        }
        let mut k: usize = 0;
        while k < res2.len()
            invariant
                0 <= k <= res2@.len(),
                pv == pair_views(res2@),
                entities.wf(),
                add_right_annotations(entities@, pv.skip(k as int))
                    == add_right_annotations(g0, pv),
            decreases res2@.len() - k,
        {
            proof {
                assert(pv.skip(k as int)[0] == pv[k as int]);
                assert(pv.skip(k as int).drop_first() =~= pv.skip(k + 1 as int));
                assert(pv[k as int] == (res2@[k as int].0, res2@[k as int].1@));
            }
            entities.push_right(res2[k].0, &res2[k].1);
            k += 1;
        }
        proof {
            assert(pv.skip(pv.len() as int) =~= Seq::<(usize, Seq<char>)>::empty());
        }
        match self.annotate_entities(&mut entities) {
            Ok(_) => (),
            Err(e) => {
                return Err(e);
            },
        }
        Ok(entities)
    }


    /// Everything this user can reach, and with which rights: seed with the
    /// entities they hold direct (optionally filtered) grants on, then walk
    /// child edges breadth-first, each freshly reached child inheriting its
    /// parent's accumulated rights. Every entity is expanded at most once,
    /// so the walk stops even on a cyclic edge set.
    pub fn get_all_user_rights_for_entities(
        &self,
        user_id: usize,
        special_right: Option<String>,
    ) -> (r: Result<EntityGroup, RingError>)
        requires
            self.wf(),
        ensures
            r matches Ok(g) && g.wf() && g@ == all_rights_reachable_s(
                self.store@,
                user_id,
                right_filter_view(special_right),
            ),
    {
        let ghost s = self.store@;
        let ghost target = all_rights_reachable_s(s, user_id, right_filter_view(special_right));
        let mut entities = match self.get_entities_with_user_access(user_id, special_right) {
            Ok(g) => g,
            Err(e) => {
                return Err(e);
            },
        };
        let mut last_ids = entities.ids();
        let ghost univ_e: Set<usize> = s.entity.map_values(|x: EntityRowV| x.id).to_set();
        let ghost mut fuel: nat = (s.entity.len() + 2) as nat;
        proof {
            vstd::seq_lib::seq_to_set_is_finite(s.entity.map_values(|x: EntityRowV| x.id));
            s.entity.map_values(|x: EntityRowV| x.id).lemma_cardinality_of_set();
            // the seed's ids are ids of entity rows
            let seed = entities@;
            let pairs = match right_filter_view(special_right) {
                Some(rt) => pairs_with_right(user_rights_of(s.access, user_id), rt),
                None => user_rights_of(s.access, user_id),
            };
            let lids = dedup_first(pair_firsts(pairs));
            let g1 = add_right_annotations(load_group(s.entity, lids), pairs);
            crate::entity::lemma_annotations_ids(load_group(s.entity, lids), pairs);
            crate::entity::lemma_child_edges_ids(
                g1,
                crate::backing_store::children_of(s.connection, group_ids(g1)),
            );
            crate::entity::lemma_parent_edges_ids(
                add_child_edges(
                    g1,
                    crate::backing_store::children_of(s.connection, group_ids(g1)),
                ),
                crate::backing_store::parents_of(s.connection, group_ids(g1)),
            );
            assert(group_ids(seed) == group_ids(load_group(s.entity, lids)));
            crate::backing_store::lemma_load_group_ids(s.entity, lids);
            assert forall|k: int| 0 <= k < group_ids(seed).len() implies univ_e.contains(
                #[trigger] group_ids(seed)[k],
            ) by {
                let lg = load_group(s.entity, lids);
                assert(group_ids(seed)[k] == lg[k].id);
                assert(contains_id(lg, lg[k].id));
                assert(crate::backing_store::has_entity_row(s.entity, lg[k].id));
                let i = choose|i: int|
                    0 <= i < s.entity.len() && #[trigger] s.entity[i].id == lg[k].id;
                assert(s.entity.map_values(|x: EntityRowV| x.id)[i] == lg[k].id);
                assert(s.entity.map_values(|x: EntityRowV| x.id).contains(lg[k].id));
            }
            assert forall|x: usize| group_ids(seed).to_set().contains(x) implies univ_e.contains(
                x,
            ) by {
                let k = choose|k: int|
                    0 <= k < group_ids(seed).len() && #[trigger] group_ids(seed)[k] == x;
            }
            crate::entity::lemma_unique_from_ids(seed, load_group(s.entity, lids));
            crate::entity::lemma_group_ids_no_dup(seed);
            group_ids(seed).unique_seq_to_set();
            vstd::set_lib::lemma_len_subset(group_ids(seed).to_set(), univ_e);
            assert(last_ids@ == group_ids(seed));
        }
        while last_ids.len() > 0
            invariant
                self.wf(),
                s == self.store@,
                univ_e == s.entity.map_values(|x: EntityRowV| x.id).to_set(),
                univ_e.finite(),
                univ_e.len() <= s.entity.len(),
                entities.wf(),
                group_ids(entities@).no_duplicates(),
                group_ids(entities@).to_set().subset_of(univ_e),
                descend_levels(s, entities@, last_ids@, fuel) == target,
                last_ids@.len() > 0 ==> fuel >= univ_e.len() - group_ids(entities@).to_set().len()
                    + 2,
            decreases fuel,
        {
            proof {
                group_ids(entities@).unique_seq_to_set();
                vstd::set_lib::lemma_len_subset(group_ids(entities@).to_set(), univ_e);
                assert(fuel >= 2);
            }
            let edges = match self.load_entity_children(last_ids.as_slice()) {
                Ok(v) => v,
                Err(e) => {
                    return Err(e);
                },
            };
            let ghost edgesv = edges@;
            let ghost g_round = entities@;
            let ghost frontier0 = last_ids@;
            let ghost fuel0 = fuel;
            let ghost kids = edgesv.map_values(|e: (usize, usize)| e.1);
            let mut new_list: Vec<usize> = Vec::new();
            proof {
                reveal(Seq::filter);
                assert(kids.take(0) =~= Seq::<usize>::empty());
                assert(new_list@ =~= kids.take(0).filter(|c: usize| !contains_id(g_round, c)));
            }
            let mut i: usize = 0;
            while i < edges.len()
                invariant
                    0 <= i <= edges@.len(),
                    edgesv == edges@,
                    kids == edgesv.map_values(|e: (usize, usize)| e.1),
                    g_round == entities@,
                    entities.wf(),
                    new_list@ == kids.take(i as int).filter(|c: usize| !contains_id(g_round, c)),
                decreases edges@.len() - i,
            {
                proof {
                    reveal(Seq::filter);
                    assert(kids.take(i + 1 as int).drop_last() =~= kids.take(i as int));
                    assert(kids.take(i + 1 as int).last() == kids[i as int]);
                    assert(kids[i as int] == edgesv[i as int].1);
                }
                if !entities.has(edges[i].1) {
                    new_list.push(edges[i].1);
                }
                i += 1;
            }
            proof {
                assert(kids.take(kids.len() as int) =~= kids);
                assert(new_list@ == new_children_ids(g_round, edgesv));
            }
            let new_entities = match self.load_entities(new_list.as_slice()) {
                Ok(g) => g,
                Err(e) => {
                    return Err(e);
                },
            };
            let ghost ngv = new_entities@;
            proof {
                crate::backing_store::lemma_load_group_ids(s.entity, new_list@);
            }
            let mut next_ids: Vec<usize> = Vec::new();
            proof {
                assert(edgesv.skip(0) =~= edgesv);
                assert(next_ids@ =~= Seq::<usize>::empty());
            }
            let mut k: usize = 0;
            while k < edges.len()
                invariant
                    0 <= k <= edges@.len(),
                    edgesv == edges@,
                    ngv == new_entities@,
                    new_entities.wf(),
                    s == self.store@,
                    univ_e == s.entity.map_values(|x: EntityRowV| x.id).to_set(),
                    univ_e.finite(),
                    entities.wf(),
                    group_ids(entities@).no_duplicates(),
                    group_ids(entities@).to_set().subset_of(univ_e),
                    forall|x: usize|
                        #[trigger] contains_id(ngv, x) ==> crate::backing_store::has_entity_row(
                            s.entity,
                            x,
                        ),
                    forall|x: usize|
                        #[trigger] contains_id(g_round, x) ==> contains_id(entities@, x),
                    forall|j: int|
                        0 <= j < next_ids@.len() ==> !contains_id(
                            g_round,
                            #[trigger] next_ids@[j],
                        ) && contains_id(entities@, next_ids@[j]),
                    descend_edges(entities@, ngv, edgesv.skip(k as int), next_ids@)
                        == descend_edges(g_round, ngv, edgesv, Seq::empty()),
            decreases edges@.len() - k,
            {
                proof {
                    assert(edgesv.skip(k as int)[0] == edgesv[k as int]);
                    assert(edgesv.skip(k as int).drop_first() =~= edgesv.skip(k + 1 as int));
                }
                let p = edges[k].0;
                let c = edges[k].1;
                let parent_rights: Option<Vec<String>> = match entities.get(p) {
                    Some(pe) => Some(crate::util::clone_string_vec(&pe.rights)),
                    None => None,
                };
                match parent_rights {
                    Some(pr) => {
                        proof {
                            assert(contains_id(entities@, p));
                        }
                        match new_entities.get(c) {
                            Some(ne) => {
                                let mut child = ne.duplicate();
                                child.rights = pr;
                                let ghost g_pre = entities@;
                                proof {
                                    assert(child@ == (EntityV {
                                        rights: entry(g_pre, p).rights,
                                        ..entry(ngv, c)
                                    }));
                                    crate::entity::lemma_merge_one_ids(g_pre, child@);
                                }
                                entities.merge_in(child);
                                proof {
                                    assert(entities@ == descend_edge(g_pre, ngv, p, c));
                                    assert(child@.id == entry(ngv, c).id);
                                    assert(entry(ngv, c).id == c) by {
                                        let ki = choose|ki: int|
                                            0 <= ki < ngv.len() && #[trigger] ngv[ki].id == c;
                                    }
                                    crate::entity::lemma_group_ids_no_dup(entities@);
                                    // the only possibly new id, c, is an entity row id
                                    assert(group_ids(entities@).to_set().subset_of(univ_e)) by {
                                        assert forall|x: usize|
                                            group_ids(entities@).to_set().contains(x) implies univ_e.contains(
                                            x,
                                        ) by {
                                            let j = choose|j: int|
                                                0 <= j < group_ids(entities@).len()
                                                    && #[trigger] group_ids(entities@)[j] == x;
                                            assert(entities@[j].id == x);
                                            assert(contains_id(entities@, x));
                                            if contains_id(g_pre, x) {
                                                let j2 = choose|j2: int|
                                                    0 <= j2 < g_pre.len() && #[trigger] g_pre[
                                                    j2].id == x;
                                                assert(group_ids(g_pre)[j2] == x);
                                                assert(group_ids(g_pre).to_set().contains(x));
                                            } else {
                                                assert(x == c);
                                                assert(contains_id(ngv, c));
                                                assert(crate::backing_store::has_entity_row(
                                                    s.entity,
                                                    c,
                                                ));
                                                let ii = choose|ii: int|
                                                    0 <= ii < s.entity.len() && #[trigger] s.entity[
                                                    ii].id == c;
                                                assert(s.entity.map_values(|x2: EntityRowV| x2.id)[
                                                ii] == c);
                                                assert(s.entity.map_values(
                                                    |x2: EntityRowV| x2.id,
                                                ).contains(c));
                                            }
                                        }
                                    }
                                }
                                if !ids_contain(next_ids.as_slice(), c) {
                                    let ghost nx0 = next_ids@;
                                    next_ids.push(c);
                                    proof {
                                        assert(next_ids@ == nx0.push(c));
                                        assert(next_ids@ == descend_step_adds(
                                            g_pre,
                                            ngv,
                                            nx0,
                                            p,
                                            c,
                                        ));
                                        assert forall|j: int| 0 <= j < next_ids@.len() implies
                                            !contains_id(g_round, #[trigger] next_ids@[j])
                                                && contains_id(entities@, next_ids@[j]) by {
                                            if j < nx0.len() {
                                                assert(next_ids@[j] == nx0[j]);
                                                assert(contains_id(entities@, nx0[j]));
                                            } else {
                                                assert(next_ids@[j] == c);
                                                assert(!contains_id(g_round, c)) by {
                                                    assert(contains_id(ngv, c));
                                                    assert(new_list@.contains(c));
                                                    crate::backing_store::lemma_filter_membership(
                                                        kids,
                                                        |c2: usize| !contains_id(g_round, c2),
                                                    );
                                                }
                                                assert(contains_id(entities@, c));
                                            }
                                        }
                                    }
                                } else {
                                    proof {
                                        assert(next_ids@ == descend_step_adds(
                                            g_pre,
                                            ngv,
                                            next_ids@,
                                            p,
                                            c,
                                        ));
                                        assert forall|j: int| 0 <= j < next_ids@.len() implies
                                            !contains_id(g_round, #[trigger] next_ids@[j])
                                                && contains_id(entities@, next_ids@[j]) by {
                                            assert(contains_id(entities@, next_ids@[j]));
                                        }
                                    }
                                }
                                proof {
                                    assert forall|x: usize| #[trigger] contains_id(g_round, x)
                                        implies contains_id(entities@, x) by {
                                        assert(contains_id(g_pre, x));
                                    }
                                }
                            },
                            None => {
                                proof {
                                    assert(!contains_id(ngv, c));
                                    assert(entities@ == descend_edge(entities@, ngv, p, c));
                                    assert(next_ids@ == descend_step_adds(
                                        entities@,
                                        ngv,
                                        next_ids@,
                                        p,
                                        c,
                                    ));
                                }
                            },
                        }
                    },
                    None => {
                        proof {
                            assert(!contains_id(entities@, p));
                            assert(entities@ == descend_edge(entities@, ngv, p, c));
                            assert(next_ids@ == descend_step_adds(
                                entities@,
                                ngv,
                                next_ids@,
                                p,
                                c,
                            ));
                        }
                    },
                }
                k += 1;
            }
            proof {
                assert(edgesv.skip(edgesv.len() as int) =~= Seq::<(usize, usize)>::empty());
                assert(descend_edges(entities@, ngv, Seq::empty(), next_ids@) == (
                    entities@,
                    next_ids@,
                ));
            }
            last_ids = next_ids;
            proof {
                fuel = (fuel - 1) as nat;
                // one unfolding of the round recursion
                assert(descend_levels(s, g_round, frontier0, fuel0) == descend_levels(
                    s,
                    entities@,
                    last_ids@,
                    fuel,
                ));
                // the measure: a non-empty next frontier means the set grew
                if last_ids@.len() > 0 {
                    let x = last_ids@[0];
                    assert(!contains_id(g_round, x) && contains_id(entities@, x));
                    let gs_old = group_ids(g_round).to_set();
                    let gs_new = group_ids(entities@).to_set();
                    assert(gs_new.contains(x)) by {
                        let j = choose|j: int|
                            0 <= j < entities@.len() && #[trigger] entities@[j].id == x;
                        assert(group_ids(entities@)[j] == x);
                    }
                    assert(!gs_old.contains(x)) by {
                        if gs_old.contains(x) {
                            let j = choose|j: int|
                                0 <= j < group_ids(g_round).len() && #[trigger] group_ids(g_round)[
                                j] == x;
                            assert(g_round[j].id == x);
                        }
                    }
                    assert(gs_old.subset_of(gs_new.remove(x))) by {
                        assert forall|y: usize| gs_old.contains(y) implies gs_new.remove(
                            x,
                        ).contains(y) by {
                            let j = choose|j: int|
                                0 <= j < group_ids(g_round).len() && #[trigger] group_ids(g_round)[
                                j] == y;
                            assert(g_round[j].id == y);
                            assert(contains_id(g_round, y));
                            assert(contains_id(entities@, y));
                            let j2 = choose|j2: int|
                                0 <= j2 < entities@.len() && #[trigger] entities@[j2].id == y;
                            assert(group_ids(entities@)[j2] == y);
                            assert(gs_new.contains(y));
                        }
                    }
                    group_ids(entities@).unique_seq_to_set();
                    vstd::set_lib::lemma_len_subset(gs_old, gs_new.remove(x));
                    vstd::set_lib::lemma_len_subset(gs_new, univ_e);
                    assert(gs_new.remove(x).len() == gs_new.len() - 1);
                    assert(fuel >= univ_e.len() - gs_new.len() + 2);
                }
            }
        }
        proof {
            assert(descend_levels(s, entities@, last_ids@, fuel) == entities@);
        }
        Ok(entities)
    }


    /// Search users by a case-insensitive substring of the name; at most ten
    /// ids are returned, in table order.
    pub fn search_user_name(&self, query: &str) -> (r: Result<Vec<usize>, RingError>)
        requires
            self.wf(),
        ensures
            r matches Ok(v) && v@ == user_search_s(self.store@.user, query@),
    {
        let q_fold = crate::text::to_lowercase(query);
        if self.use_cached {
            Ok(search_users_vec(&self.db_user, &q_fold))
        } else {
            Ok(search_users_vec(&self.store.user, &q_fold))
        }
    }

    /// Search granted rights by a case-insensitive substring; at most ten
    /// distinct rights are returned, first occurrences in table order.
    pub fn search_access_rights(&self, query: &str) -> (r: Result<Vec<String>, RingError>)
        requires
            self.wf(),
        ensures
            r matches Ok(v) && string_views(v@) == rights_search_s(self.store@.access, query@),
    {
        let q_fold = crate::text::to_lowercase(query);
        let matches = if self.use_cached {
            matching_rights_vec(&self.db_access, &q_fold)
        } else {
            matching_rights_vec(&self.store.access, &q_fold)
        };
        let none: Vec<String> = Vec::new();
        let ghost mv = string_views(matches@);
        let distinct = crate::entity::merge_right_vec(none, &matches);
        proof {
            assert(string_views(Seq::<String>::empty()) =~= Seq::<Seq<char>>::empty());
            assert(string_views(distinct@) == crate::entity::merge_rights(
                Seq::<Seq<char>>::empty(),
                mv,
            ));
        }
        let mut out: Vec<String> = Vec::new();
        let mut i: usize = 0;
        while i < distinct.len() && i < 10
            invariant
                0 <= i <= distinct@.len(),
                i <= 10,
                out@.len() == i,
                forall|j: int| 0 <= j < i ==> #[trigger] out@[j] == distinct@[j],
            decreases distinct@.len() - i,
        {
            out.push(distinct[i].clone());
            i += 1;
        }
        proof {
            let dv = string_views(distinct@);
            if dv.len() <= 10 {
                assert(string_views(out@) =~= dv);
            } else {
                assert(string_views(out@) =~= dv.take(10));
            }
        }
        Ok(out)
    }

    /// File one access request per given entity for this user; each replaces
    /// any pending request of its (user, entity) pair.
    pub fn request_access_rights(
        &mut self,
        user_id: usize,
        entity_ids: Vec<usize>,
        note: &str,
    ) -> (r: Result<(), RingError>)
        requires
            old(self).wf(),
            old(self).store@.next_request_id + entity_ids@.len() <= usize::MAX,
        ensures
            final(self).wf(),
            r is Ok,
            final(self).use_cached == old(self).use_cached,
            final(self).session_store == old(self).session_store,
            final(self).store@ == apply_requests(old(self).store@, user_id, entity_ids@, note@),
    {
        let ghost s0 = self.store@;
        proof {
            assert(entity_ids@.skip(0) =~= entity_ids@);
        }
        let mut k: usize = 0;
        while k < entity_ids.len()
            invariant
                0 <= k <= entity_ids@.len(),
                self.wf(),
                self.use_cached == old(self).use_cached,
                self.session_store == old(self).session_store,
                s0.next_request_id + entity_ids@.len() <= usize::MAX,
                self.store@.next_request_id == s0.next_request_id + k,
                apply_requests(self.store@, user_id, entity_ids@.skip(k as int), note@)
                    == apply_requests(s0, user_id, entity_ids@, note@),
            decreases entity_ids@.len() - k,
        {
            proof {
                assert(entity_ids@.skip(k as int)[0] == entity_ids@[k as int]);
                assert(entity_ids@.skip(k as int).drop_first() =~= entity_ids@.skip(k + 1 as int));
            }
            let e = entity_ids[k];
            match self.request_right(user_id, e, note) {
                Ok(_) => (),
                Err(err) => {
                    return Err(err);
                },
            }
            k += 1;
        }
        proof {
            assert(entity_ids@.skip(entity_ids@.len() as int) =~= Seq::<usize>::empty());
        }
        Ok(())
    }
}


/// Scan one user table for folded-name matches of a folded query.
fn search_users_vec(rows: &Vec<ExternalSystemUser>, q_fold: &String) -> (r: Vec<usize>)
    requires
        exists|q: Seq<char>| q_fold@ == crate::text::lower_of(q),
        forall|i: int, j: int|
            0 <= i < j < user_views(rows@).len() ==> #[trigger] user_views(rows@)[i].id
                != #[trigger] user_views(rows@)[j].id,
        forall|i: int| 0 <= i < user_views(rows@).len() ==> #[trigger] user_views(rows@)[i].id is Some,
    ensures
        forall|q: Seq<char>|
            q_fold@ == crate::text::lower_of(q) ==> r@ == user_search_s(user_views(rows@), q),
{
    let ghost uv = user_views(rows@);
    let ghost q0: Seq<char> = choose|q: Seq<char>| q_fold@ == crate::text::lower_of(q);
    let ghost pred = |r: UserRowV|
        crate::text::contains_seq(crate::text::lower_of(r.name), crate::text::lower_of(q0));
    let mut out: Vec<usize> = Vec::new();
    proof {
        reveal(Seq::filter);
        assert(uv.take(0) =~= Seq::<UserRowV>::empty());
        assert(out@ =~= uv.take(0).filter(pred).map_values(|r: UserRowV| r.id->0 as usize));
    }
    let mut i: usize = 0;
    while i < rows.len()
        invariant
            0 <= i <= rows@.len(),
            uv == user_views(rows@),
            q_fold@ == crate::text::lower_of(q0),
            pred == (|r: UserRowV|
                crate::text::contains_seq(crate::text::lower_of(r.name), crate::text::lower_of(q0))),
            forall|a: int| 0 <= a < uv.len() ==> #[trigger] uv[a].id is Some,
            out@ == first_ten(uv.take(i as int).filter(pred).map_values(|r: UserRowV| r.id->0 as usize)),
            out@.len() <= 10,
        decreases rows@.len() - i,
    {
        let ghost out0 = out@;
        let ghost fm0 = uv.take(i as int).filter(pred).map_values(|r: UserRowV| r.id->0 as usize);
        proof {
            reveal(Seq::filter);
            assert(uv.take(i + 1 as int).drop_last() =~= uv.take(i as int));
            assert(uv.take(i + 1 as int).last() == uv[i as int]);
        }
        let name_fold = crate::text::to_lowercase(rows[i].name.as_str());
        if crate::text::str_contains(name_fold.as_str(), q_fold.as_str()) {
            proof {
                assert(pred(uv[i as int]));
            }
            let id_val: u64 = match rows[i].id {
                Some(v) => v,
                None => 0,
            };
            proof {
                assert(uv[i as int].id is Some);
                assert(id_val == uv[i as int].id->0);
            }
            let ghost fm1 = uv.take(i + 1 as int).filter(pred).map_values(
                |r: UserRowV| r.id->0 as usize,
            );
            proof {
                assert(fm1 =~= fm0.push(uv[i as int].id->0 as usize));
            }
            if out.len() < 10 {
                out.push(id_val as usize);
                proof {
                    if fm0.len() <= 10 {
                        assert(out0 == fm0);
                        assert(out@ == fm0.push(uv[i as int].id->0 as usize));
                        if fm1.len() > 10 {
                            assert(fm1.take(10) =~= out@);
                        }
                    } else {
                        assert(out0 == fm0.take(10));
                        assert(out0.len() == 10);
                        assert(false);
                    }
                }
            } else {
                proof {
                    assert(out@.len() == 10);
                    assert(fm0.len() >= 10);
                    if fm0.len() <= 10 {
                        assert(out0 == fm0);
                        assert(fm1.len() > 10);
                        assert(fm1.take(10) =~= fm0);
                    } else {
                        assert(fm1.take(10) =~= fm0.take(10));
                    }
                }
            }
        } else {
            proof {
                assert(!pred(uv[i as int]));
                assert(uv.take(i + 1 as int).filter(pred) =~= uv.take(i as int).filter(pred));
            }
        }
        i += 1;
    }
    proof {
        assert(uv.take(uv.len() as int) =~= uv);
        assert forall|q: Seq<char>| q_fold@ == crate::text::lower_of(q) implies out@
            == user_search_s(uv, q) by {
            let p2 = |r: UserRowV|
                crate::text::contains_seq(crate::text::lower_of(r.name), crate::text::lower_of(q));
            assert forall|a: int| 0 <= a < uv.len() implies pred(#[trigger] uv[a]) == p2(uv[a]) by {}
            crate::backing_store::lemma_filter_congruent(uv, pred, p2);
        }
    }
    out
}

/// Scan one access table for folded-right matches of a folded query.
fn matching_rights_vec(rows: &Vec<DbTableAccess>, q_fold: &String) -> (r: Vec<String>)
    requires
        exists|q: Seq<char>| q_fold@ == crate::text::lower_of(q),
    ensures
        forall|q: Seq<char>|
            q_fold@ == crate::text::lower_of(q) ==> string_views(r@) == access_views(
                rows@,
            ).filter(
                |x: AccessRowV| crate::text::contains_seq(
                    crate::text::lower_of(x.right),
                    crate::text::lower_of(q),
                ),
            ).map_values(|x: AccessRowV| x.right),
{
    let ghost av = access_views(rows@);
    let ghost q0: Seq<char> = choose|q: Seq<char>| q_fold@ == crate::text::lower_of(q);
    let ghost pred = |x: AccessRowV|
        crate::text::contains_seq(crate::text::lower_of(x.right), crate::text::lower_of(q0));
    let mut out: Vec<String> = Vec::new();
    proof {
        reveal(Seq::filter);
        assert(av.take(0) =~= Seq::<AccessRowV>::empty());
        assert(string_views(out@) =~= av.take(0).filter(pred).map_values(
            |x: AccessRowV| x.right,
        ));
    }
    let mut i: usize = 0;
    while i < rows.len()
        invariant
            0 <= i <= rows@.len(),
            av == access_views(rows@),
            q_fold@ == crate::text::lower_of(q0),
            pred == (|x: AccessRowV|
                crate::text::contains_seq(crate::text::lower_of(x.right), crate::text::lower_of(q0))),
            string_views(out@) == av.take(i as int).filter(pred).map_values(
                |x: AccessRowV| x.right,
            ),
        decreases rows@.len() - i,
    {
        let ghost out0 = string_views(out@);
        proof {
            reveal(Seq::filter);
            assert(av.take(i + 1 as int).drop_last() =~= av.take(i as int));
            assert(av.take(i + 1 as int).last() == av[i as int]);
        }
        let right_fold = crate::text::to_lowercase(rows[i].right.as_str());
        if crate::text::str_contains(right_fold.as_str(), q_fold.as_str()) {
            proof {
                assert(pred(av[i as int]));
            }
            out.push(rows[i].right.clone());
            proof {
                assert(string_views(out@) =~= out0.push(av[i as int].right));
                assert(av.take(i + 1 as int).filter(pred).map_values(|x: AccessRowV| x.right)
                    =~= av.take(i as int).filter(pred).map_values(|x: AccessRowV| x.right).push(
                    av[i as int].right,
                ));
            }
        } else {
            proof {
                assert(!pred(av[i as int]));
                assert(av.take(i + 1 as int).filter(pred) =~= av.take(i as int).filter(pred));
            }
        }
        i += 1;
    }
    proof {
        assert(av.take(av.len() as int) =~= av);
        assert forall|q: Seq<char>| q_fold@ == crate::text::lower_of(q) implies string_views(out@)
            == av.filter(
            |x: AccessRowV| crate::text::contains_seq(
                crate::text::lower_of(x.right),
                crate::text::lower_of(q),
            ),
        ).map_values(|x: AccessRowV| x.right) by {
            let p2 = |x: AccessRowV|
                crate::text::contains_seq(crate::text::lower_of(x.right), crate::text::lower_of(q));
            assert forall|a: int| 0 <= a < av.len() implies pred(#[trigger] av[a]) == p2(av[a]) by {}
            crate::backing_store::lemma_filter_congruent(av, pred, p2);
        }
    }
    out
}

} // verus!

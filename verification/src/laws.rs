#![verifier::loop_isolation(false)]

use vstd::prelude::*;
use crate::backing_store::{
    add_right_t, apply_rights, grants_of, has_request, has_triple, lemma_filter_all,
    lemma_filter_elems, lemma_filter_membership, lemma_pair_list_membership, missing_grants,
    pair_list, request_right_t, remove_right_t, requests_without, store_wf, StoreV,
};
use crate::database_abstraction_layer::{
    all_rights_reachable_s, dedup_first, descend_edge, descend_edges, descend_levels,
    descend_step_adds, entities_with_user_access_s, new_children_ids, pair_firsts,
    pairs_with_right,
};
use crate::db_tables::AccessRowV;
use crate::entity::{
    add_child_edges, add_parent_edges, add_right_annotations, contains_id, entry, group_ids,
    index_of_id, unique_ids, EntityV,
};
use crate::external_system::RequestRowV;

verus! {

broadcast use vstd::seq_lib::group_filter_ensures;

/// A triple is a grant exactly when a row carries it.
pub proof fn lemma_grants_membership(a: Seq<AccessRowV>)
    ensures
        forall|u: usize, e: usize, r: Seq<char>|
            #[trigger] grants_of(a).contains((u, e, r)) <==> has_triple(a, u, e, r),
{
    let m = a.map_values(|x: AccessRowV| (x.user_id, x.entity_id, x.right));
    assert forall|u: usize, e: usize, r: Seq<char>| #[trigger] grants_of(a).contains((u, e, r))
        implies has_triple(a, u, e, r) by {
        let i = choose|i: int| 0 <= i < m.len() && #[trigger] m[i] == (u, e, r);
        assert(a[i].user_id == u && a[i].entity_id == e && a[i].right == r);
    }
    assert forall|u: usize, e: usize, r: Seq<char>| has_triple(a, u, e, r) implies #[trigger] grants_of(
        a,
    ).contains((u, e, r)) by {
        let i = choose|i: int|
            0 <= i < a.len() && #[trigger] a[i].user_id == u && a[i].entity_id == e && a[i].right
                == r;
        assert(m[i] == (u, e, r));
        assert(m.contains((u, e, r)));
    }
}

/// Granting a right that is not yet held and revoking it again leaves the
/// access table — and so the grant set — exactly as it was.
///
/// With a right already held the pair of calls does not round-trip: the
/// grant is a no-op, the revocation deletes the pre-existing row.
pub proof fn lemma_add_then_remove_restores(s: StoreV, u: usize, e: usize, r: Seq<char>)
    requires
        store_wf(s),
        s.next_access_id < usize::MAX,
        !has_triple(s.access, u, e, r),
    ensures
        remove_right_t(add_right_t(s, u, e, r), u, e, r).access == s.access,
        grants_of(remove_right_t(add_right_t(s, u, e, r), u, e, r).access) == grants_of(s.access),
{
    reveal(Seq::filter);
    let row = AccessRowV { id: s.next_access_id, user_id: u, entity_id: e, right: r };
    let a1 = s.access.push(row);
    assert(add_right_t(s, u, e, r).access == a1);
    let keep = |x: AccessRowV| !(x.user_id == u && x.entity_id == e && x.right == r);
    assert forall|i: int| 0 <= i < s.access.len() implies keep(#[trigger] s.access[i]) by {
        if !keep(s.access[i]) {
            assert(has_triple(s.access, u, e, r));
        }
    }
    lemma_filter_all(s.access, keep);
    assert(a1.drop_last() =~= s.access);
    assert(a1.last() == row);
    assert(!keep(row));
    assert(a1.filter(keep) == s.access);
}

/// Granting the same right twice changes nothing the second time, and the
/// access table then holds exactly one row of the triple.
pub proof fn lemma_add_twice_is_once(s: StoreV, u: usize, e: usize, r: Seq<char>)
    requires
        store_wf(s),
        s.next_access_id < usize::MAX,
    ensures
        add_right_t(add_right_t(s, u, e, r), u, e, r).access == add_right_t(s, u, e, r).access,
        add_right_t(s, u, e, r).access.filter(
            |x: AccessRowV| x.user_id == u && x.entity_id == e && x.right == r,
        ).len() == 1,
{
    let s1 = add_right_t(s, u, e, r);
    let hit = |x: AccessRowV| x.user_id == u && x.entity_id == e && x.right == r;
    // after one grant the triple is present, so the second insert is a no-op
    if has_triple(s.access, u, e, r) {
        let i = choose|i: int|
            0 <= i < s.access.len() && #[trigger] s.access[i].user_id == u
                && s.access[i].entity_id == e && s.access[i].right == r;
        assert(s1.access == s.access);
        assert(s1.access[i].user_id == u && s1.access[i].entity_id == e && s1.access[i].right == r);
        assert(has_triple(s1.access, u, e, r));
    } else {
        let row = AccessRowV { id: s.next_access_id, user_id: u, entity_id: e, right: r };
        assert(s1.access == s.access.push(row));
        assert(s1.access[s1.access.len() - 1] == row);
        assert(s1.access[s1.access.len() - 1].user_id == u && s1.access[s1.access.len()
            - 1].entity_id == e && s1.access[s1.access.len() - 1].right == r);
        assert(has_triple(s1.access, u, e, r));
    }
    // one row of the triple: at least one, and the schema key at most one
    crate::backing_store::lemma_add_right_wf(s, u, e, r);
    let f = s1.access.filter(hit);
    lemma_filter_membership(s1.access, hit);
    let i = choose|i: int|
        0 <= i < s1.access.len() && #[trigger] s1.access[i].user_id == u && s1.access[i].entity_id
            == e && s1.access[i].right == r;
    assert(s1.access.contains(s1.access[i]));
    assert(f.contains(s1.access[i]));
    assert(f.len() >= 1);
    if f.len() > 1 {
        crate::util::lemma_filter_distinct(s1.access, hit, |x: AccessRowV| x.id);
        lemma_filter_elems(s1.access, hit);
        let x0 = f[0];
        let x1 = f[1];
        assert(x0.id != x1.id);
        assert(s1.access.contains(x0) && s1.access.contains(x1));
        let j0 = choose|j: int| 0 <= j < s1.access.len() && #[trigger] s1.access[j] == x0;
        let j1 = choose|j: int| 0 <= j < s1.access.len() && #[trigger] s1.access[j] == x1;
        assert(hit(x0) && hit(x1));
        assert(j0 != j1);
        assert(false);
    }
}

/// A grant never files a request, so a pending request survives a list of
/// grants only if it survived each one.
pub proof fn lemma_apply_rights_requests_monotone(
    s: StoreV,
    u: usize,
    pairs: Seq<(usize, Seq<char>)>,
    u2: usize,
    e2: usize,
)
    ensures
        has_request(apply_rights(s, u, pairs).access_request, u2, e2) ==> has_request(
            s.access_request,
            u2,
            e2,
        ),
    decreases pairs.len(),
{
    if pairs.len() == 0 {
    } else {
        let s1 = add_right_t(s, u, pairs[0].0, pairs[0].1);
        lemma_apply_rights_requests_monotone(s1, u, pairs.drop_first(), u2, e2);
        if has_request(s1.access_request, u2, e2) {
            let q = requests_without(s.access_request, u, pairs[0].0);
            let i = choose|i: int|
                0 <= i < q.len() && #[trigger] q[i].user_id == u2 && q[i].entity_id == e2;
            lemma_filter_elems(
                s.access_request,
                |x: RequestRowV| !(x.user_id == u && x.entity_id == pairs[0].0),
            );
            assert(s.access_request.contains(q[i]));
            let j = choose|j: int|
                0 <= j < s.access_request.len() && #[trigger] s.access_request[j] == q[i];
        }
    }
}

/// Granting a pair of a list resolves the pending request of that pair, and
/// no later grant of the list files it again.
pub proof fn lemma_apply_rights_resolves(
    s: StoreV,
    u: usize,
    pairs: Seq<(usize, Seq<char>)>,
    e: usize,
)
    requires
        exists|k: int| 0 <= k < pairs.len() && #[trigger] pairs[k].0 == e,
    ensures
        !has_request(apply_rights(s, u, pairs).access_request, u, e),
    decreases pairs.len(),
{
    let s1 = add_right_t(s, u, pairs[0].0, pairs[0].1);
    if pairs[0].0 == e {
        // the request of (u, e) is gone and no grant restores it
        assert(!has_request(s1.access_request, u, e)) by {
            let q = requests_without(s.access_request, u, e);
            if has_request(q, u, e) {
                let i = choose|i: int|
                    0 <= i < q.len() && #[trigger] q[i].user_id == u && q[i].entity_id == e;
            }
        }
        lemma_apply_rights_requests_monotone(s1, u, pairs.drop_first(), u, e);
    } else {
        let k = choose|k: int| 0 <= k < pairs.len() && #[trigger] pairs[k].0 == e;
        assert(pairs.drop_first()[k - 1].0 == e);
        lemma_apply_rights_resolves(s1, u, pairs.drop_first(), e);
    }
}

/// Requesting access and then granting a right of the request's pair leaves
/// no pending request of the pair.
///
/// The grant must be fresh: when every requested right is already held, the
/// bulk grant issues no insert for the pair and the request stays pending.
pub proof fn lemma_grant_resolves_request(
    s: StoreV,
    u: usize,
    e: usize,
    note: Seq<char>,
    ids: Seq<usize>,
    rs: Seq<Seq<char>>,
    rt: Seq<char>,
)
    requires
        ids.contains(e),
        rs.contains(rt),
        !has_triple(s.access, u, e, rt),
    ensures
        ({
            let s1 = request_right_t(s, u, e, note);
            let s2 = apply_rights(s1, u, missing_grants(s1.access, u, pair_list(ids, rs)));
            !has_request(s2.access_request, u, e)
        }),
{
    let s1 = request_right_t(s, u, e, note);
    assert(s1.access == s.access);
    let pl = pair_list(ids, rs);
    lemma_pair_list_membership(ids, rs, e, rt);
    assert(pl.contains((e, rt)));
    let mg = missing_grants(s1.access, u, pl);
    lemma_filter_membership(pl, |p: (usize, Seq<char>)| !has_triple(s1.access, u, p.0, p.1));
    assert(mg.contains((e, rt)));
    let k = choose|k: int| 0 <= k < mg.len() && #[trigger] mg[k] == (e, rt);
    assert(mg[k].0 == e);
    lemma_apply_rights_resolves(s1, u, mg, e);
}


/// One grant adds exactly one triple to the grant set.
pub proof fn lemma_add_right_grants(s: StoreV, u: usize, e: usize, r: Seq<char>)
    ensures
        grants_of(add_right_t(s, u, e, r).access) == grants_of(s.access).insert((u, e, r)),
{
    lemma_grants_membership(s.access);
    lemma_grants_membership(add_right_t(s, u, e, r).access);
    let m = s.access.map_values(|x: AccessRowV| (x.user_id, x.entity_id, x.right));
    if has_triple(s.access, u, e, r) {
        assert(grants_of(s.access).contains((u, e, r)));
        assert(grants_of(add_right_t(s, u, e, r).access) =~= grants_of(s.access).insert((u, e, r)));
    } else {
        let row = AccessRowV { id: s.next_access_id, user_id: u, entity_id: e, right: r };
        let a1 = s.access.push(row);
        assert(add_right_t(s, u, e, r).access == a1);
        let m1 = a1.map_values(|x: AccessRowV| (x.user_id, x.entity_id, x.right));
        assert(m1 =~= m.push((u, e, r)));
        m.lemma_push_to_set_commute((u, e, r));
        assert(grants_of(a1) =~= grants_of(s.access).insert((u, e, r)));
    }
}

/// Granting a pair list adds exactly those pairs to the user's grants.
pub proof fn lemma_apply_rights_grants(s: StoreV, u: usize, pairs: Seq<(usize, Seq<char>)>)
    ensures
        forall|t: (usize, usize, Seq<char>)|
            #[trigger] grants_of(apply_rights(s, u, pairs).access).contains(t) <==> (grants_of(
                s.access,
            ).contains(t) || (t.0 == u && pairs.contains((t.1, t.2)))),
    decreases pairs.len(),
{
    if pairs.len() == 0 {
        assert forall|t: (usize, usize, Seq<char>)| #[trigger] grants_of(
            apply_rights(s, u, pairs).access,
        ).contains(t) <==> (grants_of(s.access).contains(t) || (t.0 == u && pairs.contains(
            (t.1, t.2),
        ))) by {
            if pairs.contains((t.1, t.2)) {
                let k = choose|k: int| 0 <= k < pairs.len() && #[trigger] pairs[k] == (t.1, t.2);
            }
        }
    } else {
        let s1 = add_right_t(s, u, pairs[0].0, pairs[0].1);
        lemma_add_right_grants(s, u, pairs[0].0, pairs[0].1);
        lemma_apply_rights_grants(s1, u, pairs.drop_first());
        assert forall|t: (usize, usize, Seq<char>)| #[trigger] grants_of(
            apply_rights(s, u, pairs).access,
        ).contains(t) <==> (grants_of(s.access).contains(t) || (t.0 == u && pairs.contains(
            (t.1, t.2),
        ))) by {
            let d = pairs.drop_first();
            assert(apply_rights(s, u, pairs) == apply_rights(s1, u, d));
            if grants_of(apply_rights(s1, u, d).access).contains(t) {
                if !grants_of(s1.access).contains(t) {
                    let k = choose|k: int| 0 <= k < d.len() && #[trigger] d[k] == (t.1, t.2);
                    assert(pairs[k + 1] == (t.1, t.2));
                    assert(pairs.contains((t.1, t.2)));
                } else {
                    if !grants_of(s.access).contains(t) {
                        assert(t == (u, pairs[0].0, pairs[0].1));
                        assert(pairs.contains((t.1, t.2)));
                    }
                }
            }
            if grants_of(s.access).contains(t) {
                assert(grants_of(s1.access).contains(t));
            }
            if t.0 == u && pairs.contains((t.1, t.2)) {
                let k = choose|k: int| 0 <= k < pairs.len() && #[trigger] pairs[k] == (t.1, t.2);
                if k == 0 {
                    assert(grants_of(s1.access).contains(t));
                } else {
                    assert(d[k - 1] == (t.1, t.2));
                    assert(d.contains((t.1, t.2)));
                }
            }
        }
    }
}

/// Setting a user's rights on a set of entities yields exactly the target
/// grants there: on the listed entities the user afterwards holds precisely
/// the listed rights, and no grant of another user or on another entity is
/// touched. Removal happens before addition.
pub proof fn lemma_set_rights_grants(s: StoreV, u: usize, ids: Seq<usize>, rs: Seq<Seq<char>>)
    requires
        store_wf(s),
    ensures
        ({
            let removed = crate::backing_store::pairs_not_rights(
                crate::backing_store::pairs_on(
                    crate::backing_store::user_rights_of(s.access, u),
                    ids,
                ),
                rs,
            );
            let added = missing_grants(s.access, u, pair_list(ids, rs));
            let fin = apply_rights(
                crate::backing_store::apply_removals(s, u, removed),
                u,
                added,
            );
            forall|t: (usize, usize, Seq<char>)|
                #[trigger] grants_of(fin.access).contains(t) <==> ((grants_of(s.access).contains(t)
                    && !(t.0 == u && ids.contains(t.1))) || (t.0 == u && ids.contains(t.1)
                    && rs.contains(t.2)))
        }),
{
    let ur = crate::backing_store::user_rights_of(s.access, u);
    let on_ids = crate::backing_store::pairs_on(ur, ids);
    let removed = crate::backing_store::pairs_not_rights(on_ids, rs);
    let pl = pair_list(ids, rs);
    let added = missing_grants(s.access, u, pl);
    let s_r = crate::backing_store::apply_removals(s, u, removed);
    let fin = apply_rights(s_r, u, added);
    crate::backing_store::lemma_apply_removals_closed(s, u, removed);
    let keep = |x: AccessRowV| !(x.user_id == u && removed.contains((x.entity_id, x.right)));
    assert(s_r.access == s.access.filter(keep));
    // membership of the removal list
    lemma_filter_membership(ur, |p: (usize, Seq<char>)| ids.contains(p.0));
    lemma_filter_membership(on_ids, |p: (usize, Seq<char>)| !rs.contains(p.1));
    assert forall|e2: usize, r2: Seq<char>| #[trigger] removed.contains((e2, r2)) <==> (has_triple(
        s.access,
        u,
        e2,
        r2,
    ) && ids.contains(e2) && !rs.contains(r2)) by {
        crate::backing_store::lemma_user_rights_membership(s.access, u, e2, r2);
        if ur.contains((e2, r2)) {
        }
        if has_triple(s.access, u, e2, r2) {
            let k = choose|k: int| 0 <= k < ur.len() && #[trigger] ur[k] == (e2, r2);
            assert(ur.contains((e2, r2)));
        }
    }
    // membership of the addition list
    assert forall|e2: usize, r2: Seq<char>| #[trigger] added.contains((e2, r2)) <==> (ids.contains(
        e2,
    ) && rs.contains(r2) && !has_triple(s.access, u, e2, r2)) by {
        lemma_pair_list_membership(ids, rs, e2, r2);
        lemma_filter_membership(pl, |p: (usize, Seq<char>)| !has_triple(s.access, u, p.0, p.1));
    }
    // grants after the removals
    lemma_grants_membership(s.access);
    lemma_grants_membership(s_r.access);
    lemma_filter_membership(s.access, keep);
    assert forall|t: (usize, usize, Seq<char>)| #[trigger] grants_of(s_r.access).contains(t) <==> (
    grants_of(s.access).contains(t) && !(t.0 == u && ids.contains(t.1) && !rs.contains(t.2))) by {
        if grants_of(s_r.access).contains(t) {
            assert(has_triple(s_r.access, t.0, t.1, t.2));
            let i = choose|i: int|
                0 <= i < s_r.access.len() && #[trigger] s_r.access[i].user_id == t.0
                    && s_r.access[i].entity_id == t.1 && s_r.access[i].right == t.2;
            assert(s.access.filter(keep).contains(s_r.access[i]));
            assert(s.access.contains(s_r.access[i]) && keep(s_r.access[i]));
            let j = choose|j: int|
                0 <= j < s.access.len() && #[trigger] s.access[j] == s_r.access[i];
            assert(has_triple(s.access, t.0, t.1, t.2));
        }
        if grants_of(s.access).contains(t) && !(t.0 == u && ids.contains(t.1) && !rs.contains(
            t.2,
        )) {
            let i = choose|i: int|
                0 <= i < s.access.len() && #[trigger] s.access[i].user_id == t.0
                    && s.access[i].entity_id == t.1 && s.access[i].right == t.2;
            assert(keep(s.access[i]));
            assert(s.access.filter(keep).contains(s.access[i]));
            let j = choose|j: int|
                0 <= j < s_r.access.len() && #[trigger] s_r.access[j] == s.access[i];
            assert(has_triple(s_r.access, t.0, t.1, t.2));
        }
    }
    // grants after the additions
    lemma_apply_rights_grants(s_r, u, added);
    assert forall|t: (usize, usize, Seq<char>)| #[trigger] grants_of(fin.access).contains(t) <==> ((
    grants_of(s.access).contains(t) && !(t.0 == u && ids.contains(t.1))) || (t.0 == u
        && ids.contains(t.1) && rs.contains(t.2))) by {
        assert(grants_of(fin.access).contains(t) <==> (grants_of(s_r.access).contains(t) || (t.0
            == u && added.contains((t.1, t.2)))));
        if grants_of(fin.access).contains(t) {
            if grants_of(s_r.access).contains(t) {
            } else {
                assert(t.0 == u && added.contains((t.1, t.2)));
            }
        }
        if grants_of(s.access).contains(t) && !(t.0 == u && ids.contains(t.1)) {
            assert(grants_of(s_r.access).contains(t));
        }
        if t.0 == u && ids.contains(t.1) && rs.contains(t.2) {
            if has_triple(s.access, u, t.1, t.2) {
                assert(grants_of(s.access).contains(t));
                assert(grants_of(s_r.access).contains(t));
            } else {
                assert(added.contains((t.1, t.2)));
            }
        }
    }
}


/// Folding a round's edges only ever adds entities, and hands every fresh
/// child of a visited parent a place in the set.
pub proof fn lemma_descend_edges_props(
    g: Seq<EntityV>,
    ng: Seq<EntityV>,
    edges: Seq<(usize, usize)>,
    acc: Seq<usize>,
)
    requires
        unique_ids(g),
    ensures
        unique_ids(descend_edges(g, ng, edges, acc).0),
        forall|x: usize|
            #[trigger] contains_id(g, x) ==> contains_id(descend_edges(g, ng, edges, acc).0, x),
        forall|p: usize, c: usize|
            #[trigger] edges.contains((p, c)) && contains_id(g, p) && contains_id(ng, c)
                ==> contains_id(descend_edges(g, ng, edges, acc).0, c),
    decreases edges.len(),
{
    if edges.len() == 0 {
    } else {
        let p0 = edges[0].0;
        let c0 = edges[0].1;
        let g2 = descend_edge(g, ng, p0, c0);
        let acc2 = descend_step_adds(g, ng, acc, p0, c0);
        if contains_id(g, p0) && contains_id(ng, c0) {
            let e = (EntityV { rights: entry(g, p0).rights, ..entry(ng, c0) });
            crate::entity::lemma_merge_one_ids(g, e);
            assert(e.id == entry(ng, c0).id);
            assert(entry(ng, c0).id == c0) by {
                let ki = choose|ki: int| 0 <= ki < ng.len() && #[trigger] ng[ki].id == c0;
            }
            assert(contains_id(g2, c0));
        }
        lemma_descend_edges_props(g2, ng, edges.drop_first(), acc2);
        assert(descend_edges(g, ng, edges, acc) == descend_edges(g2, ng, edges.drop_first(), acc2));
        assert forall|x: usize| #[trigger] contains_id(g, x) implies contains_id(
            descend_edges(g, ng, edges, acc).0,
            x,
        ) by {
            assert(contains_id(g2, x)) by {
                if contains_id(g, p0) && contains_id(ng, c0) {
                } else {
                    assert(g2 == g);
                }
            }
        }
        assert forall|p: usize, c: usize|
            #[trigger] edges.contains((p, c)) && contains_id(g, p) && contains_id(ng, c) implies contains_id(
            descend_edges(g, ng, edges, acc).0,
            c,
        ) by {
            let k = choose|k: int| 0 <= k < edges.len() && #[trigger] edges[k] == (p, c);
            if k == 0 {
                assert(contains_id(g2, c));
            } else {
                assert(edges.drop_first()[k - 1] == (p, c));
                assert(edges.drop_first().contains((p, c)));
                assert(contains_id(g2, p));
            }
        }
    }
}

/// When every member of the set carries a right, folding a round's edges
/// keeps it that way: a child inherits its parent's rights.
pub proof fn lemma_descend_edges_right(
    g: Seq<EntityV>,
    ng: Seq<EntityV>,
    edges: Seq<(usize, usize)>,
    acc: Seq<usize>,
    rt: Seq<char>,
)
    requires
        unique_ids(g),
        forall|j: int| 0 <= j < g.len() ==> #[trigger] g[j].rights.contains(rt),
    ensures
        forall|j: int|
            0 <= j < descend_edges(g, ng, edges, acc).0.len() ==> #[trigger] descend_edges(
                g,
                ng,
                edges,
                acc,
            ).0[j].rights.contains(rt),
    decreases edges.len(),
{
    if edges.len() == 0 {
    } else {
        let p0 = edges[0].0;
        let c0 = edges[0].1;
        let g2 = descend_edge(g, ng, p0, c0);
        let acc2 = descend_step_adds(g, ng, acc, p0, c0);
        assert(unique_ids(g2) && forall|j: int|
            0 <= j < g2.len() ==> #[trigger] g2[j].rights.contains(rt)) by {
            if contains_id(g, p0) && contains_id(ng, c0) {
                let e = (EntityV { rights: entry(g, p0).rights, ..entry(ng, c0) });
                crate::entity::lemma_merge_one_ids(g, e);
                let kp = index_of_id(g, p0);
                assert(0 <= kp < g.len() && g[kp].id == p0);
                assert(e.rights.contains(rt));
                if contains_id(g, e.id) {
                    let ke = index_of_id(g, e.id);
                    assert(0 <= ke < g.len() && g[ke].id == e.id);
                    crate::entity::lemma_merge_rights_keeps(g[ke].rights, e.rights);
                    assert forall|j: int| 0 <= j < g2.len() implies #[trigger] g2[
                    j].rights.contains(rt) by {
                        if j != ke {
                            assert(g2[j] == g[j]);
                        }
                    }
                } else {
                    assert forall|j: int| 0 <= j < g2.len() implies #[trigger] g2[
                    j].rights.contains(rt) by {
                        if j < g.len() {
                            assert(g2[j] == g[j]);
                        } else {
                            assert(g2[j] == e);
                        }
                    }
                }
            }
        }
        lemma_descend_edges_right(g2, ng, edges.drop_first(), acc2, rt);
        assert(descend_edges(g, ng, edges, acc) == descend_edges(g2, ng, edges.drop_first(), acc2));
    }
}

/// The descending closure only ever adds entities.
pub proof fn lemma_descend_levels_monotone(
    s: StoreV,
    g: Seq<EntityV>,
    f: Seq<usize>,
    fuel: nat,
)
    requires
        unique_ids(g),
    ensures
        unique_ids(descend_levels(s, g, f, fuel)),
        forall|x: usize|
            #[trigger] contains_id(g, x) ==> contains_id(descend_levels(s, g, f, fuel), x),
    decreases fuel,
{
    if fuel == 0 || f.len() == 0 {
    } else {
        let edges = crate::backing_store::children_of(s.connection, f);
        let ng = crate::backing_store::load_group(s.entity, new_children_ids(g, edges));
        let gn = descend_edges(g, ng, edges, Seq::empty());
        lemma_descend_edges_props(g, ng, edges, Seq::empty());
        lemma_descend_levels_monotone(s, gn.0, gn.1, (fuel - 1) as nat);
    }
}

/// When every seed member carries a right, so does every member of the
/// descending closure: rights are inherited downwards.
pub proof fn lemma_descend_levels_right(
    s: StoreV,
    g: Seq<EntityV>,
    f: Seq<usize>,
    fuel: nat,
    rt: Seq<char>,
)
    requires
        unique_ids(g),
        forall|j: int| 0 <= j < g.len() ==> #[trigger] g[j].rights.contains(rt),
    ensures
        forall|j: int|
            0 <= j < descend_levels(s, g, f, fuel).len() ==> #[trigger] descend_levels(
                s,
                g,
                f,
                fuel,
            )[j].rights.contains(rt),
    decreases fuel,
{
    if fuel == 0 || f.len() == 0 {
    } else {
        let edges = crate::backing_store::children_of(s.connection, f);
        let ng = crate::backing_store::load_group(s.entity, new_children_ids(g, edges));
        let gn = descend_edges(g, ng, edges, Seq::empty());
        lemma_descend_edges_props(g, ng, edges, Seq::empty());
        lemma_descend_edges_right(g, ng, edges, Seq::empty(), rt);
        lemma_descend_levels_right(s, gn.0, gn.1, (fuel - 1) as nat, rt);
        assert(descend_levels(s, g, f, fuel) == descend_levels(s, gn.0, gn.1, (fuel - 1) as nat));
    }
}

/// A child of a frontier member of the working set enters the closure,
/// provided it has an entity row.
pub proof fn lemma_descend_reaches_child(
    s: StoreV,
    g: Seq<EntityV>,
    f: Seq<usize>,
    fuel: nat,
    p: usize,
    c: usize,
)
    requires
        unique_ids(g),
        fuel >= 1,
        f.contains(p),
        contains_id(g, p),
        exists|i: int|
            0 <= i < s.connection.len() && #[trigger] s.connection[i].parent_id == p
                && s.connection[i].child_id == c,
        crate::backing_store::has_entity_row(s.entity, c),
    ensures
        contains_id(descend_levels(s, g, f, fuel), c),
{
    assert(f.len() > 0) by {
        let k = choose|k: int| 0 <= k < f.len() && #[trigger] f[k] == p;
    }
    let edges = crate::backing_store::children_of(s.connection, f);
    let nc = new_children_ids(g, edges);
    let ng = crate::backing_store::load_group(s.entity, nc);
    let gn = descend_edges(g, ng, edges, Seq::empty());
    crate::backing_store::lemma_children_of_membership(s.connection, f);
    let i = choose|i: int|
        0 <= i < s.connection.len() && #[trigger] s.connection[i].parent_id == p && s.connection[
        i].child_id == c;
    assert(edges.contains((p, c)));
    lemma_descend_edges_props(g, ng, edges, Seq::empty());
    lemma_descend_levels_monotone(s, gn.0, gn.1, (fuel - 1) as nat);
    if contains_id(g, c) {
        assert(contains_id(gn.0, c));
    } else {
        let kids = edges.map_values(|e: (usize, usize)| e.1);
        let k = choose|k: int| 0 <= k < edges.len() && #[trigger] edges[k] == (p, c);
        assert(kids[k] == c);
        assert(kids.contains(c));
        lemma_filter_membership(kids, |c2: usize| !contains_id(g, c2));
        assert(nc.contains(c));
        crate::backing_store::lemma_load_group_ids(s.entity, nc);
        assert(contains_id(ng, c));
        assert(contains_id(gn.0, c));
    }
    assert(descend_levels(s, g, f, fuel) == descend_levels(s, gn.0, gn.1, (fuel - 1) as nat));
}

/// Dropping repeated ids keeps exactly the ids.
pub proof fn lemma_dedup_first_contains(s: Seq<usize>)
    ensures
        forall|x: usize| #[trigger] dedup_first(s).contains(x) <==> s.contains(x),
    decreases s.len(),
{
    if s.len() == 0 {
    } else {
        let d = dedup_first(s.drop_last());
        lemma_dedup_first_contains(s.drop_last());
        assert(forall|j: int| 0 <= j < s.len() - 1 ==> #[trigger] s.drop_last()[j] == s[j]);
        assert forall|x: usize| #[trigger] dedup_first(s).contains(x) implies s.contains(x) by {
            let j = choose|j: int|
                0 <= j < dedup_first(s).len() && #[trigger] dedup_first(s)[j] == x;
            if d.contains(s.last()) {
                assert(d.contains(x));
            } else {
                if j < d.len() {
                    assert(d[j] == x);
                    assert(d.contains(x));
                } else {
                    assert(x == s.last());
                    assert(s[s.len() - 1] == x);
                }
            }
            if s.drop_last().contains(x) {
                let j2 = choose|j2: int|
                    0 <= j2 < s.drop_last().len() && #[trigger] s.drop_last()[j2] == x;
                assert(s[j2] == x);
            }
        }
        assert forall|x: usize| s.contains(x) implies #[trigger] dedup_first(s).contains(x) by {
            let j = choose|j: int| 0 <= j < s.len() && #[trigger] s[j] == x;
            if j < s.len() - 1 {
                assert(s.drop_last()[j] == x);
                assert(s.drop_last().contains(x));
                assert(d.contains(x));
                let j2 = choose|j2: int| 0 <= j2 < d.len() && #[trigger] d[j2] == x;
                assert(dedup_first(s)[j2] == x);
            } else {
                if d.contains(s.last()) {
                    let j2 = choose|j2: int| 0 <= j2 < d.len() && #[trigger] d[j2] == s.last();
                    assert(dedup_first(s)[j2] == x);
                } else {
                    assert(dedup_first(s)[dedup_first(s).len() - 1] == s.last());
                }
            }
        }
    }
}

/// Facts about the seed of a right-filtered walk: it holds every entity the
/// user is granted the right on directly, its ids are unique, and each of
/// its members already carries the right.
pub proof fn lemma_seed_of_filter(s: StoreV, u: usize, rt: Seq<char>)
    ensures
        unique_ids(entities_with_user_access_s(s, u, Some(rt))),
        forall|j: int|
            0 <= j < entities_with_user_access_s(s, u, Some(rt)).len()
                ==> #[trigger] entities_with_user_access_s(s, u, Some(rt))[j].rights.contains(rt),
        forall|p: usize|
            has_triple(s.access, u, p, rt) && crate::backing_store::has_entity_row(s.entity, p)
                ==> #[trigger] contains_id(entities_with_user_access_s(s, u, Some(rt)), p)
                && group_ids(entities_with_user_access_s(s, u, Some(rt))).contains(p),
{
    let ur = crate::backing_store::user_rights_of(s.access, u);
    let pairs = pairs_with_right(ur, rt);
    let ids = dedup_first(pair_firsts(pairs));
    let g0 = crate::backing_store::load_group(s.entity, ids);
    let g1 = add_right_annotations(g0, pairs);
    let ce = crate::backing_store::children_of(s.connection, group_ids(g1));
    let g2 = add_child_edges(g1, ce);
    let pe = crate::backing_store::parents_of(s.connection, group_ids(g1));
    let seed = add_parent_edges(g2, pe);
    assert(seed == entities_with_user_access_s(s, u, Some(rt)));
    crate::backing_store::lemma_load_group_ids(s.entity, ids);
    crate::entity::lemma_annotations_positional(g0, pairs);
    crate::entity::lemma_child_edges_positional(g1, ce);
    crate::entity::lemma_parent_edges_positional(g2, pe);
    // unique ids all the way through
    crate::entity::lemma_annotations_ids(g0, pairs);
    crate::entity::lemma_child_edges_ids(g1, ce);
    crate::entity::lemma_parent_edges_ids(g2, pe);
    crate::entity::lemma_unique_from_ids(g1, g0);
    crate::entity::lemma_unique_from_ids(g2, g1);
    crate::entity::lemma_unique_from_ids(seed, g2);
    assert(g1.len() == g0.len() && g2.len() == g1.len() && seed.len() == g2.len());
    // every member of the annotated set carries the right
    assert(forall|k: int| 0 <= k < pairs.len() ==> #[trigger] pairs[k].1 == rt);
    crate::entity::lemma_annotations_give_right(g0, pairs, rt);
    assert forall|j: int| 0 <= j < seed.len() implies #[trigger] seed[j].rights.contains(rt) by {
        assert(seed[j].id == g2[j].id);
        assert(seed[j].rights == g2[j].rights);
        assert(g2[j].id == g1[j].id);
        assert(g2[j].rights == g1[j].rights);
        assert(g1[j].id == g0[j].id);
        assert(contains_id(g0, g0[j].id));
        assert(ids.contains(g0[j].id));
        lemma_dedup_first_contains(pair_firsts(pairs));
        assert(pair_firsts(pairs).contains(g0[j].id));
        let k = choose|k: int|
            0 <= k < pair_firsts(pairs).len() && #[trigger] pair_firsts(pairs)[k] == g0[j].id;
        assert(pairs[k].0 == g0[j].id);
        assert(g1[j].rights.contains(rt));
    }
    // the user's directly granted entities are all in
    assert forall|p: usize|
        has_triple(s.access, u, p, rt) && crate::backing_store::has_entity_row(s.entity, p) implies #[trigger] contains_id(
        seed,
        p,
    ) && group_ids(seed).contains(p) by {
        crate::backing_store::lemma_user_rights_membership(s.access, u, p, rt);
        let k = choose|k: int| 0 <= k < ur.len() && #[trigger] ur[k] == (p, rt);
        lemma_filter_membership(ur, |q: (usize, Seq<char>)| q.1 == rt);
        assert(ur.contains((p, rt)));
        assert(pairs.contains((p, rt)));
        let k2 = choose|k2: int| 0 <= k2 < pairs.len() && #[trigger] pairs[k2] == (p, rt);
        assert(pair_firsts(pairs)[k2] == p);
        assert(pair_firsts(pairs).contains(p));
        lemma_dedup_first_contains(pair_firsts(pairs));
        assert(ids.contains(p));
        assert(contains_id(g0, p));
        let j = choose|j: int| 0 <= j < g0.len() && #[trigger] g0[j].id == p;
        assert(seed[j].id == g2[j].id && g2[j].id == g1[j].id && g1[j].id == g0[j].id);
        assert(contains_id(seed, p));
        assert(group_ids(seed)[j] == p);
    }
}

/// Downward inheritance: granting a right on an entity puts every child of
/// that entity — with the right — into the right-filtered reachability set.
pub proof fn lemma_downward_inheritance(s: StoreV, u: usize, rt: Seq<char>, p: usize, c: usize)
    requires
        has_triple(s.access, u, p, rt),
        crate::backing_store::has_entity_row(s.entity, p),
        crate::backing_store::has_entity_row(s.entity, c),
        exists|i: int|
            0 <= i < s.connection.len() && #[trigger] s.connection[i].parent_id == p
                && s.connection[i].child_id == c,
    ensures
        contains_id(all_rights_reachable_s(s, u, Some(rt)), c),
        entry(all_rights_reachable_s(s, u, Some(rt)), c).rights.contains(rt),
{
    let seed = entities_with_user_access_s(s, u, Some(rt));
    let result = all_rights_reachable_s(s, u, Some(rt));
    lemma_seed_of_filter(s, u, rt);
    assert(contains_id(seed, p) && group_ids(seed).contains(p));
    lemma_descend_reaches_child(s, seed, group_ids(seed), (s.entity.len() + 2) as nat, p, c);
    assert(contains_id(result, c));
    lemma_descend_levels_right(s, seed, group_ids(seed), (s.entity.len() + 2) as nat, rt);
    let j = index_of_id(result, c);
    assert(0 <= j < result.len() && result[j].id == c);
    assert(result[j].rights.contains(rt));
}


/// Whether the user holds the right directly on some entity.
pub open spec fn user_holds_somewhere(a: Seq<AccessRowV>, u: usize, r: Seq<char>) -> bool {
    exists|e: usize| has_triple(a, u, e, r)
}

/// Folding a round's edges keeps every right inside the pool: a child only
/// ever receives rights its parent already had.
pub proof fn lemma_descend_edges_bound(
    g: Seq<EntityV>,
    ng: Seq<EntityV>,
    edges: Seq<(usize, usize)>,
    acc: Seq<usize>,
    pool: Set<Seq<char>>,
)
    requires
        unique_ids(g),
        crate::entity::rights_within(g, pool),
    ensures
        crate::entity::rights_within(descend_edges(g, ng, edges, acc).0, pool),
    decreases edges.len(),
{
    if edges.len() == 0 {
    } else {
        let p0 = edges[0].0;
        let c0 = edges[0].1;
        let g2 = descend_edge(g, ng, p0, c0);
        let acc2 = descend_step_adds(g, ng, acc, p0, c0);
        assert(unique_ids(g2) && crate::entity::rights_within(g2, pool)) by {
            if contains_id(g, p0) && contains_id(ng, c0) {
                let e = (EntityV { rights: entry(g, p0).rights, ..entry(ng, c0) });
                crate::entity::lemma_merge_one_ids(g, e);
                let kp = index_of_id(g, p0);
                assert(0 <= kp < g.len() && g[kp].id == p0);
                assert(forall|k: int|
                    0 <= k < e.rights.len() ==> pool.contains(#[trigger] e.rights[k]));
                if contains_id(g, e.id) {
                    let ke = index_of_id(g, e.id);
                    assert(0 <= ke < g.len() && g[ke].id == e.id);
                    crate::entity::lemma_merge_rights_bound(g[ke].rights, e.rights);
                    assert forall|j: int, k: int|
                        0 <= j < g2.len() && 0 <= k < g2[j].rights.len() implies pool.contains(
                        #[trigger] g2[j].rights[k],
                    ) by {
                        if j == ke {
                            let x = g2[j].rights[k];
                            assert(crate::entity::merge_rights(g[ke].rights, e.rights).contains(x));
                            if g[ke].rights.contains(x) {
                                let k2 = choose|k2: int|
                                    0 <= k2 < g[ke].rights.len() && #[trigger] g[ke].rights[k2]
                                        == x;
                            } else {
                                assert(e.rights.contains(x));
                                let k2 = choose|k2: int|
                                    0 <= k2 < e.rights.len() && #[trigger] e.rights[k2] == x;
                            }
                        } else {
                            assert(g2[j] == g[j]);
                        }
                    }
                } else {
                    assert forall|j: int, k: int|
                        0 <= j < g2.len() && 0 <= k < g2[j].rights.len() implies pool.contains(
                        #[trigger] g2[j].rights[k],
                    ) by {
                        if j < g.len() {
                            assert(g2[j] == g[j]);
                        } else {
                            assert(g2[j] == e);
                        }
                    }
                }
            }
        }
        lemma_descend_edges_bound(g2, ng, edges.drop_first(), acc2, pool);
        assert(descend_edges(g, ng, edges, acc) == descend_edges(g2, ng, edges.drop_first(), acc2));
    }
}

/// The descending walk keeps every right inside the pool of the seed.
pub proof fn lemma_descend_levels_bound(
    s: StoreV,
    g: Seq<EntityV>,
    f: Seq<usize>,
    fuel: nat,
    pool: Set<Seq<char>>,
)
    requires
        unique_ids(g),
        crate::entity::rights_within(g, pool),
    ensures
        crate::entity::rights_within(descend_levels(s, g, f, fuel), pool),
    decreases fuel,
{
    if fuel == 0 || f.len() == 0 {
    } else {
        let edges = crate::backing_store::children_of(s.connection, f);
        let ng = crate::backing_store::load_group(s.entity, new_children_ids(g, edges));
        let gn = descend_edges(g, ng, edges, Seq::empty());
        lemma_descend_edges_props(g, ng, edges, Seq::empty());
        lemma_descend_edges_bound(g, ng, edges, Seq::empty(), pool);
        lemma_descend_levels_bound(s, gn.0, gn.1, (fuel - 1) as nat, pool);
        assert(descend_levels(s, g, f, fuel) == descend_levels(s, gn.0, gn.1, (fuel - 1) as nat));
    }
}

/// No right is invented: every right the reachability walk attaches is one
/// the user holds directly on some entity, and under a filter it is the
/// filtered right itself.
pub proof fn lemma_reachable_rights_sound(s: StoreV, u: usize, filter: Option<Seq<char>>)
    requires
        store_wf(s),
    ensures
        forall|j: int, k: int|
            0 <= j < all_rights_reachable_s(s, u, filter).len() && 0 <= k
                < all_rights_reachable_s(s, u, filter)[j].rights.len() ==> user_holds_somewhere(
                s.access,
                u,
                #[trigger] all_rights_reachable_s(s, u, filter)[j].rights[k],
            ),
        forall|j: int, k: int|
            filter is Some && 0 <= j < all_rights_reachable_s(s, u, filter).len() && 0 <= k
                < all_rights_reachable_s(s, u, filter)[j].rights.len()
                ==> #[trigger] all_rights_reachable_s(s, u, filter)[j].rights[k] == filter->0,
{
    let pool = Set::new(
        |r: Seq<char>| user_holds_somewhere(s.access, u, r) && (filter matches Some(rt) ==> r
            == rt),
    );
    let ur = crate::backing_store::user_rights_of(s.access, u);
    let pairs = match filter {
        Some(rt) => pairs_with_right(ur, rt),
        None => ur,
    };
    let ids = dedup_first(pair_firsts(pairs));
    let g0 = crate::backing_store::load_group(s.entity, ids);
    let g1 = add_right_annotations(g0, pairs);
    let ce = crate::backing_store::children_of(s.connection, group_ids(g1));
    let g2 = add_child_edges(g1, ce);
    let pe = crate::backing_store::parents_of(s.connection, group_ids(g1));
    let seed = add_parent_edges(g2, pe);
    assert(seed == entities_with_user_access_s(s, u, filter));
    // the seed's rights lie in the pool
    crate::backing_store::lemma_load_group_ids(s.entity, ids);
    assert(crate::entity::rights_within(g0, pool)) by {
        crate::backing_store::lemma_load_group_rights_empty(s.entity, ids);
    }
    assert forall|k: int| 0 <= k < pairs.len() implies pool.contains(#[trigger] pairs[k].1) by {
        if filter is Some {
            lemma_filter_membership(ur, |q: (usize, Seq<char>)| q.1 == filter->0);
            assert(pairs.contains(pairs[k]));
            assert(ur.contains(pairs[k]));
        } else {
            assert(ur[k] == pairs[k]);
            assert(ur.contains(pairs[k]));
        }
        let k2 = choose|k2: int| 0 <= k2 < ur.len() && #[trigger] ur[k2] == pairs[k];
        assert(exists|kk: int|
            0 <= kk < ur.len() && #[trigger] ur[kk] == (pairs[k].0, pairs[k].1));
        crate::backing_store::lemma_user_rights_membership(s.access, u, pairs[k].0, pairs[k].1);
        assert(has_triple(s.access, u, pairs[k].0, pairs[k].1));
        assert(user_holds_somewhere(s.access, u, pairs[k].1));
    }
    crate::entity::lemma_annotations_bound(g0, pairs, pool);
    crate::entity::lemma_child_edges_positional(g1, ce);
    crate::entity::lemma_parent_edges_positional(g2, pe);
    assert(crate::entity::rights_within(seed, pool)) by {
        assert forall|j: int, k: int|
            0 <= j < seed.len() && 0 <= k < seed[j].rights.len() implies pool.contains(
            #[trigger] seed[j].rights[k],
        ) by {
            assert(seed[j].id == g2[j].id);
            assert(seed[j].rights == g2[j].rights);
            assert(g2[j].id == g1[j].id);
            assert(g2[j].rights == g1[j].rights);
        }
    }
    // unique ids of the seed
    crate::entity::lemma_annotations_ids(g0, pairs);
    crate::entity::lemma_child_edges_ids(g1, ce);
    crate::entity::lemma_parent_edges_ids(g2, pe);
    crate::entity::lemma_unique_from_ids(g1, g0);
    crate::entity::lemma_unique_from_ids(g2, g1);
    crate::entity::lemma_unique_from_ids(seed, g2);
    lemma_descend_levels_bound(s, seed, group_ids(seed), (s.entity.len() + 2) as nat, pool);
    assert(all_rights_reachable_s(s, u, filter) == descend_levels(
        s,
        seed,
        group_ids(seed),
        (s.entity.len() + 2) as nat,
    ));
    assert forall|j: int, k: int|
        0 <= j < all_rights_reachable_s(s, u, filter).len() && 0 <= k < all_rights_reachable_s(
            s,
            u,
            filter,
        )[j].rights.len() implies user_holds_somewhere(
        s.access,
        u,
        #[trigger] all_rights_reachable_s(s, u, filter)[j].rights[k],
    ) by {
        assert(pool.contains(all_rights_reachable_s(s, u, filter)[j].rights[k]));
    }
    assert forall|j: int, k: int|
        filter is Some && 0 <= j < all_rights_reachable_s(s, u, filter).len() && 0 <= k
            < all_rights_reachable_s(s, u, filter)[j].rights.len() implies #[trigger] all_rights_reachable_s(
        s,
        u,
        filter,
    )[j].rights[k] == filter->0 by {
        assert(pool.contains(all_rights_reachable_s(s, u, filter)[j].rights[k]));
    }
}

/// Mirror equivalence: the live and the mirrored strategy answer every query
/// alike. Each read's contract states its result as a function of the system
/// of record alone, whichever strategy serves it, and each write's contract
/// states the new record store as a function of the old one; two engines
/// over equal record stores therefore agree on every observation, and stay
/// in agreement under identical call sequences.
pub proof fn lemma_strategy_equivalence(
    live: &crate::database_abstraction_layer::DatabaseAbstractionLayer,
    mirrored: &crate::database_abstraction_layer::DatabaseAbstractionLayer,
)
    requires
        live.wf(),
        mirrored.wf(),
        live.store@ == mirrored.store@,
    ensures
        forall|ids: Seq<usize>|
            #[trigger] crate::backing_store::load_group(live.store@.entity, ids)
                == crate::backing_store::load_group(mirrored.store@.entity, ids),
        forall|u: usize|
            #[trigger] crate::backing_store::user_rights_of(live.store@.access, u)
                == crate::backing_store::user_rights_of(mirrored.store@.access, u),
        forall|u: usize, f: Option<Seq<char>>|
            #[trigger] crate::database_abstraction_layer::entities_with_user_access_s(
                live.store@,
                u,
                f,
            ) == crate::database_abstraction_layer::entities_with_user_access_s(
                mirrored.store@,
                u,
                f,
            ),
        forall|u: usize, f: Option<Seq<char>>|
            #[trigger] crate::database_abstraction_layer::all_rights_reachable_s(live.store@, u, f)
                == crate::database_abstraction_layer::all_rights_reachable_s(
                mirrored.store@,
                u,
                f,
            ),
        forall|q: Seq<char>|
            #[trigger] crate::database_abstraction_layer::user_search_s(live.store@.user, q)
                == crate::database_abstraction_layer::user_search_s(mirrored.store@.user, q),
        forall|q: Seq<char>|
            #[trigger] crate::database_abstraction_layer::rights_search_s(live.store@.access, q)
                == crate::database_abstraction_layer::rights_search_s(mirrored.store@.access, q),
        forall|u: usize, e: usize, r: Seq<char>|
            #[trigger] add_right_t(live.store@, u, e, r) == add_right_t(mirrored.store@, u, e, r),
        forall|u: usize, e: usize, r: Seq<char>|
            #[trigger] remove_right_t(live.store@, u, e, r) == remove_right_t(
                mirrored.store@,
                u,
                e,
                r,
            ),
{
}

} // verus!

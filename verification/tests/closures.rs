use rights_engine::backing_store::BackingStore;
use rights_engine::database_abstraction_layer::DatabaseAbstractionLayer;
use rights_engine::database_session_store::DatabaseSessionStore;
use rights_engine::db_tables::{DbTableConnection, DbTableEntity};

fn store_with(entities: &[usize], edges: &[(usize, usize)]) -> BackingStore {
    let mut store = BackingStore::new();
    for &id in entities {
        let name = format!("entity-{id}");
        let ext = format!("ext-{id}");
        assert!(store.load_entity_row(DbTableEntity { id, name, external_id: ext }));
    }
    for (k, &(p, c)) in edges.iter().enumerate() {
        assert!(store.load_connection_row(DbTableConnection {
            id: k + 1,
            parent_id: p,
            child_id: c,
        }));
    }
    store
}

fn engine(use_cached: bool, entities: &[usize], edges: &[(usize, usize)]) -> DatabaseAbstractionLayer {
    DatabaseAbstractionLayer::new(use_cached, DatabaseSessionStore::new(), store_with(entities, edges))
}

fn sorted_pairs(mut v: Vec<(usize, String)>) -> Vec<(usize, String)> {
    v.sort();
    v
}

#[test]
fn effective_grants_collect_all_ancestors() {
    // 1 -> 2 -> 3; grants sit on 1, 2 and 3 for different users
    let mut dal = engine(false, &[1, 2, 3], &[(1, 2), (2, 3)]);
    dal.add_access_rights(10, vec![1], vec![String::from("admin")]).unwrap();
    dal.add_access_rights(11, vec![2], vec![String::from("read")]).unwrap();
    dal.add_access_rights(12, vec![3], vec![String::from("write")]).unwrap();
    let got = sorted_pairs(dal.get_all_rights_for_entity(3).unwrap());
    let want = vec![
        (10, String::from("admin")),
        (11, String::from("read")),
        (12, String::from("write")),
    ];
    assert_eq!(got, want);
    // on the root only the root's own grant applies
    let root = sorted_pairs(dal.get_all_rights_for_entity(1).unwrap());
    assert_eq!(root, vec![(10, String::from("admin"))]);
}

#[test]
fn effective_grants_deduplicate_pairs() {
    // the same (user, right) granted on two ancestors appears once
    let mut dal = engine(false, &[1, 2, 3], &[(1, 3), (2, 3)]);
    dal.add_access_rights(10, vec![1, 2], vec![String::from("read")]).unwrap();
    let got = dal.get_all_rights_for_entity(3).unwrap();
    assert_eq!(got, vec![(10, String::from("read"))]);
}

#[test]
fn ascending_closure_tolerates_a_cycle() {
    let mut dal = engine(false, &[1, 2], &[(1, 2), (2, 1)]);
    dal.add_access_rights(10, vec![1], vec![String::from("admin")]).unwrap();
    let got = dal.get_all_rights_for_entity(2).unwrap();
    assert_eq!(got, vec![(10, String::from("admin"))]);
}

#[test]
fn descending_closure_tolerates_a_cycle() {
    let mut dal = engine(false, &[1, 2], &[(1, 2), (2, 1)]);
    dal.add_access_rights(10, vec![1], vec![String::from("admin")]).unwrap();
    let group = dal
        .get_all_user_rights_for_entities(10, Some(String::from("admin")))
        .unwrap();
    let mut ids = group.ids();
    ids.sort();
    assert_eq!(ids, vec![1, 2]);
}

#[test]
fn admin_grant_is_inherited_by_children() {
    // P is 1, C is 2
    let mut dal = engine(false, &[1, 2], &[(1, 2)]);
    dal.add_access_rights(10, vec![1], vec![String::from("admin")]).unwrap();
    let group = dal
        .get_all_user_rights_for_entities(10, Some(String::from("admin")))
        .unwrap();
    assert!(group.has(2));
    let child = group.get(2).unwrap();
    assert!(child.rights.iter().any(|r| r == "admin"));
}

#[test]
fn reachable_set_respects_the_filter() {
    let mut dal = engine(false, &[1, 2, 3], &[(1, 2), (2, 3)]);
    dal.add_access_rights(10, vec![1], vec![String::from("read")]).unwrap();
    dal.add_access_rights(10, vec![2], vec![String::from("admin")]).unwrap();
    // filtered to admin, the walk starts at 2 only
    let group = dal
        .get_all_user_rights_for_entities(10, Some(String::from("admin")))
        .unwrap();
    let mut ids = group.ids();
    ids.sort();
    assert_eq!(ids, vec![2, 3]);
    // unfiltered, everything below 1 is reachable
    let group = dal.get_all_user_rights_for_entities(10, None).unwrap();
    let mut ids = group.ids();
    ids.sort();
    assert_eq!(ids, vec![1, 2, 3]);
}

#[test]
fn seed_entities_carry_their_direct_rights() {
    let mut dal = engine(false, &[1, 2], &[(1, 2)]);
    dal.add_access_rights(10, vec![1], vec![String::from("read"), String::from("admin")])
        .unwrap();
    let group = dal.get_entities_with_user_access(10, None).unwrap();
    assert_eq!(group.ids(), vec![1]);
    let one = group.get(1).unwrap();
    let mut rights = one.rights.clone();
    rights.sort();
    assert_eq!(rights, vec![String::from("admin"), String::from("read")]);
    // and the one-hop neighbourhood is attached
    assert_eq!(one.child_ids, vec![2]);
}

#[test]
fn mirror_and_live_strategies_agree() {
    // identical seed data, identical operation sequence, both strategies
    let mut live = engine(false, &[1], &[]);
    let mut mirrored = engine(true, &[1], &[]);
    for dal in [&mut live, &mut mirrored] {
        let child = dal.create_child_entity(1, "child", "c-2").unwrap();
        assert_eq!(child, 2);
        dal.add_access_rights(10, vec![1], vec![String::from("admin")]).unwrap();
    }
    let mut results = Vec::new();
    for dal in [&live, &mirrored] {
        let group = dal
            .get_all_user_rights_for_entities(10, Some(String::from("admin")))
            .unwrap();
        let mut summary: Vec<(usize, Vec<String>)> = group
            .as_vec()
            .into_iter()
            .map(|e| {
                let mut r = e.rights.clone();
                r.sort();
                (e.id, r)
            })
            .collect();
        summary.sort();
        results.push(summary);
    }
    assert_eq!(results[0], results[1]);
    assert_eq!(
        results[0],
        vec![
            (1, vec![String::from("admin")]),
            (2, vec![String::from("admin")]),
        ]
    );
    // reads agree pairwise on every surface touched here
    assert_eq!(
        sorted_pairs(live.get_all_rights_for_entity(2).unwrap()),
        sorted_pairs(mirrored.get_all_rights_for_entity(2).unwrap())
    );
    assert_eq!(
        live.load_entities(&[1, 2]).unwrap().ids(),
        mirrored.load_entities(&[1, 2]).unwrap().ids()
    );
}

#[test]
fn diamond_children_collect_both_parents_rights() {
    // 1 -> 2, 1 -> 3, 2 -> 4, 3 -> 4
    let mut dal = engine(true, &[1, 2, 3, 4], &[(1, 2), (1, 3), (2, 4), (3, 4)]);
    dal.add_access_rights(10, vec![1], vec![String::from("read")]).unwrap();
    let group = dal.get_all_user_rights_for_entities(10, None).unwrap();
    let mut ids = group.ids();
    ids.sort();
    assert_eq!(ids, vec![1, 2, 3, 4]);
    let four = group.get(4).unwrap();
    assert_eq!(four.rights, vec![String::from("read")]);
}

use rights_engine::backing_store::BackingStore;
use rights_engine::database_abstraction_layer::DatabaseAbstractionLayer;
use rights_engine::database_session_store::DatabaseSessionStore;
use rights_engine::db_tables::{DbTableConnection, DbTableEntity};

fn seeded_store() -> BackingStore {
    let mut store = BackingStore::new();
    assert!(store.load_entity_row(DbTableEntity {
        id: 1,
        name: String::from("organization"),
        external_id: String::from("org-1"),
    }));
    assert!(store.load_entity_row(DbTableEntity {
        id: 2,
        name: String::from("project"),
        external_id: String::from("prj-2"),
    }));
    assert!(store.load_entity_row(DbTableEntity {
        id: 3,
        name: String::from("dataset"),
        external_id: String::from("ds-3"),
    }));
    assert!(store.load_connection_row(DbTableConnection { id: 1, parent_id: 1, child_id: 2 }));
    assert!(store.load_connection_row(DbTableConnection { id: 2, parent_id: 2, child_id: 3 }));
    store
}

fn engine(use_cached: bool) -> DatabaseAbstractionLayer {
    DatabaseAbstractionLayer::new(use_cached, DatabaseSessionStore::new(), seeded_store())
}

fn grant_pairs(dal: &DatabaseAbstractionLayer, user: usize) -> Vec<(usize, String)> {
    let mut pairs: Vec<(usize, String)> = Vec::new();
    for row in &dal.store.access {
        if row.user_id == user {
            pairs.push((row.entity_id, row.right.clone()));
        }
    }
    pairs.sort();
    pairs
}

#[test]
fn load_entities_empty_input_is_empty() {
    let dal = engine(false);
    let group = dal.load_entities(&[]).unwrap();
    assert!(group.ids().is_empty());
}

#[test]
fn load_entities_drops_unknown_ids() {
    let dal = engine(false);
    let group = dal.load_entities(&[1, 99, 3]).unwrap();
    let mut ids = group.ids();
    ids.sort();
    assert_eq!(ids, vec![1, 3]);
    assert!(group.get(99).is_none());
    let one = group.get(1).unwrap();
    assert_eq!(one.name, "organization");
    assert_eq!(one.external_id, "org-1");
    assert!(one.rights.is_empty());
}

#[test]
fn load_entities_repeated_ids_are_reported_once() {
    let dal = engine(true);
    let group = dal.load_entities(&[2, 2, 2]).unwrap();
    assert_eq!(group.ids(), vec![2]);
}

#[test]
fn add_then_remove_right_restores_grants() {
    let mut dal = engine(false);
    let before = grant_pairs(&dal, 10);
    dal.add_access_rights(10, vec![2], vec![String::from("read")]).unwrap();
    assert_eq!(grant_pairs(&dal, 10), vec![(2, String::from("read"))]);
    dal.remove_access_rights(10, vec![2], vec![String::from("read")]).unwrap();
    assert_eq!(grant_pairs(&dal, 10), before);
}

#[test]
fn adding_a_right_twice_keeps_one_row() {
    let mut dal = engine(false);
    dal.add_access_rights(10, vec![1], vec![String::from("admin")]).unwrap();
    dal.add_access_rights(10, vec![1], vec![String::from("admin")]).unwrap();
    let rows: Vec<_> = dal
        .store
        .access
        .iter()
        .filter(|r| r.user_id == 10 && r.entity_id == 1 && r.right == "admin")
        .collect();
    assert_eq!(rows.len(), 1);
}

#[test]
fn removing_an_absent_right_is_not_an_error() {
    let mut dal = engine(false);
    dal.remove_access_rights(10, vec![1], vec![String::from("ghostly")]).unwrap();
    assert!(grant_pairs(&dal, 10).is_empty());
}

#[test]
fn set_rights_reaches_exactly_the_target_set() {
    let mut dal = engine(false);
    // existing grants: (E1, admin) for the user, plus a bystander grant
    dal.add_access_rights(7, vec![1], vec![String::from("admin")]).unwrap();
    dal.add_access_rights(9, vec![1], vec![String::from("write")]).unwrap();
    dal.set_access_rights(7, vec![1, 2], vec![String::from("read"), String::from("admin")])
        .unwrap();
    let got = grant_pairs(&dal, 7);
    let want = vec![
        (1, String::from("admin")),
        (1, String::from("read")),
        (2, String::from("admin")),
        (2, String::from("read")),
    ];
    assert_eq!(got, want);
    // the bystander's grant was not touched
    assert_eq!(grant_pairs(&dal, 9), vec![(1, String::from("write"))]);
}

#[test]
fn set_rights_removes_rights_outside_the_target() {
    let mut dal = engine(true);
    dal.add_access_rights(7, vec![3], vec![String::from("write")]).unwrap();
    dal.set_access_rights(7, vec![3], vec![String::from("read")]).unwrap();
    assert_eq!(grant_pairs(&dal, 7), vec![(3, String::from("read"))]);
}

#[test]
fn granting_resolves_a_pending_request() {
    let mut dal = engine(false);
    dal.request_access_rights(10, vec![2], "may I").unwrap();
    assert_eq!(dal.get_access_requests(2).unwrap().len(), 1);
    dal.add_access_rights(10, vec![2], vec![String::from("read")]).unwrap();
    assert!(dal.get_access_requests(2).unwrap().is_empty());
}

#[test]
fn a_new_request_replaces_the_old_note() {
    let mut dal = engine(false);
    dal.request_access_rights(10, vec![2], "first note").unwrap();
    dal.request_access_rights(10, vec![2], "second note").unwrap();
    let pending = dal.get_access_requests(2).unwrap();
    assert_eq!(pending.len(), 1);
    assert_eq!(pending[0].note, "second note");
    assert_eq!(pending[0].user_id, 10);
    assert_eq!(pending[0].entity_id, 2);
}

#[test]
fn requests_of_other_users_survive_a_grant() {
    let mut dal = engine(true);
    dal.request_access_rights(10, vec![2], "one").unwrap();
    dal.request_access_rights(11, vec![2], "two").unwrap();
    dal.add_access_rights(10, vec![2], vec![String::from("read")]).unwrap();
    let pending = dal.get_access_requests(2).unwrap();
    assert_eq!(pending.len(), 1);
    assert_eq!(pending[0].user_id, 11);
}

#[test]
fn get_user_unknown_id_is_an_error() {
    let dal = engine(false);
    let err = dal.get_user(42).unwrap_err();
    assert_eq!(err.message(), "No such user");
}

#[test]
fn add_user_returns_a_fresh_id_once() {
    let mut dal = engine(false);
    let id = dal.add_user("orcid", "0000-0001", "Ada", "ada@example.org", "{}").unwrap();
    assert_eq!(id, Some(0));
    let user = dal.get_user(0).unwrap();
    assert_eq!(user.name, "Ada");
    assert_eq!(user.email, "ada@example.org");
    // the same identity again: the payload is updated, no id is handed out
    let again = dal
        .add_user("orcid", "0000-0001", "Ada", "ada@example.org", "{\"k\":1}")
        .unwrap();
    assert_eq!(again, None);
    let user = dal.get_user(0).unwrap();
    assert_eq!(user.bespoke_data, "{\"k\":1}");
}

#[test]
fn create_child_entity_adds_row_and_edge() {
    let mut dal = engine(false);
    let child = dal.create_child_entity(1, "survey", "sv-9").unwrap();
    assert_eq!(child, 4);
    let group = dal.load_entities(&[child]).unwrap();
    let e = group.get(child).unwrap();
    assert_eq!(e.name, "survey");
    assert_eq!(e.external_id, "sv-9");
    let edge = dal
        .store
        .connection
        .iter()
        .any(|c| c.parent_id == 1 && c.child_id == child);
    assert!(edge);
}

#[test]
fn annotate_entities_attaches_one_hop_edges() {
    let dal = engine(false);
    let mut group = dal.load_entities(&[2]).unwrap();
    dal.annotate_entities(&mut group).unwrap();
    let two = group.get(2).unwrap();
    assert_eq!(two.child_ids, vec![3]);
    assert_eq!(two.parent_ids, vec![1]);
}

#[test]
fn search_user_name_is_case_insensitive_and_capped() {
    let mut dal = engine(false);
    for i in 0..12 {
        let ext = format!("ext-{i}");
        dal.add_user("orcid", &ext, "Grace Hopper", "g@example.org", "{}").unwrap();
    }
    dal.add_user("google", "other", "Alan", "a@example.org", "{}").unwrap();
    let hits = dal.search_user_name("HOPPER").unwrap();
    assert_eq!(hits.len(), 10);
    let none = dal.search_user_name("lovelace").unwrap();
    assert!(none.is_empty());
}

#[test]
fn search_access_rights_reports_each_right_once() {
    let mut dal = engine(false);
    dal.add_access_rights(1, vec![1, 2, 3], vec![String::from("read-data")]).unwrap();
    dal.add_access_rights(2, vec![1], vec![String::from("reap")]).unwrap();
    let hits = dal.search_access_rights("read").unwrap();
    assert_eq!(hits, vec![String::from("read-data")]);
}

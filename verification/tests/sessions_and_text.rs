use rights_engine::database_session_store::DatabaseSessionStore;
use rights_engine::db_tables::DbTableSession;
use rights_engine::entity::{Entity, EntityGroup};
use rights_engine::error::RingError;
use rights_engine::external_system::ExternalSystem;
use rights_engine::text::parse_rights_string;

#[test]
fn session_round_trip() {
    let mut store = DatabaseSessionStore::new();
    store.store_session("tok-1", "{\"user\":1}").unwrap();
    assert_eq!(store.load_session("tok-1"), Some(String::from("{\"user\":1}")));
    assert_eq!(store.load_session("tok-2"), None);
}

#[test]
fn storing_again_replaces_the_payload() {
    let mut store = DatabaseSessionStore::new();
    store.store_session("tok-1", "old").unwrap();
    store.store_session("tok-1", "new").unwrap();
    assert_eq!(store.load_session("tok-1"), Some(String::from("new")));
    assert_eq!(store.sessions.len(), 1);
}

#[test]
fn destroying_a_session_removes_only_it() {
    let mut store = DatabaseSessionStore::new();
    store.store_session("tok-1", "a").unwrap();
    store.store_session("tok-2", "b").unwrap();
    store.destroy_session("tok-1");
    assert_eq!(store.load_session("tok-1"), None);
    assert_eq!(store.load_session("tok-2"), Some(String::from("b")));
}

#[test]
fn clearing_drops_every_session() {
    let mut store = DatabaseSessionStore::new();
    store.store_session("tok-1", "a").unwrap();
    store.store_session("tok-2", "b").unwrap();
    store.clear_store();
    assert_eq!(store.load_session("tok-1"), None);
    assert_eq!(store.load_session("tok-2"), None);
}

#[test]
fn loading_session_rows_refuses_duplicates() {
    let mut store = DatabaseSessionStore::new();
    assert!(store.load_session_row(DbTableSession {
        id: 1,
        id_string: String::from("tok-1"),
        json: String::from("a"),
    }));
    assert!(!store.load_session_row(DbTableSession {
        id: 1,
        id_string: String::from("tok-9"),
        json: String::from("b"),
    }));
    assert!(!store.load_session_row(DbTableSession {
        id: 2,
        id_string: String::from("tok-1"),
        json: String::from("c"),
    }));
}

#[test]
fn parse_rights_splits_trims_and_folds() {
    assert_eq!(
        parse_rights_string("Read, ADMIN ,write"),
        vec![String::from("read"), String::from("admin"), String::from("write")]
    );
}

#[test]
fn parse_rights_drops_empty_tokens() {
    assert_eq!(parse_rights_string(""), Vec::<String>::new());
    assert_eq!(parse_rights_string(" , ,"), Vec::<String>::new());
    assert_eq!(parse_rights_string(",read,"), vec![String::from("read")]);
}

#[test]
fn external_system_names_round_trip() {
    assert!(matches!(ExternalSystem::from_str("OrCiD"), ExternalSystem::ORCID));
    assert!(matches!(ExternalSystem::from_str("google"), ExternalSystem::GOOGLE));
    assert!(matches!(ExternalSystem::from_str("github"), ExternalSystem::Unknown));
    assert_eq!(ExternalSystem::ORCID.as_str(), "orcid");
    assert_eq!(ExternalSystem::GOOGLE.as_str(), "google");
    assert_eq!(ExternalSystem::Unknown.as_str(), "");
    assert_eq!(
        ExternalSystem::ORCID.as_url("0000-0001"),
        "https://orcid.org/0000-0001"
    );
    assert_eq!(ExternalSystem::GOOGLE.as_url("whatever"), "");
}

fn bare(id: usize) -> Entity {
    Entity {
        id,
        name: format!("e{id}"),
        external_id: format!("x{id}"),
        child_ids: vec![],
        parent_ids: vec![],
        rights: vec![],
    }
}

#[test]
fn group_from_vec_keeps_the_last_entry_per_id() {
    let mut newer = bare(1);
    newer.name = String::from("newer");
    let group = EntityGroup::from_vec(vec![bare(1), bare(2), newer]);
    let mut ids = group.ids();
    ids.sort();
    assert_eq!(ids, vec![1, 2]);
    assert_eq!(group.get(1).unwrap().name, "newer");
}

#[test]
fn group_sorted_vec_orders_by_id() {
    let group = EntityGroup::from_vec(vec![bare(3), bare(1), bare(2)]);
    let sorted: Vec<usize> = group.as_sorted_vec().into_iter().map(|e| e.id).collect();
    assert_eq!(sorted, vec![1, 2, 3]);
}

#[test]
fn group_merge_unions_neighbourhoods_and_rights() {
    let mut a1 = bare(1);
    a1.child_ids = vec![2, 3];
    a1.rights = vec![String::from("read")];
    let mut group = EntityGroup::from_vec(vec![a1]);

    let mut b1 = bare(1);
    b1.child_ids = vec![3, 4];
    b1.rights = vec![String::from("read"), String::from("admin")];
    let other = EntityGroup::from_vec(vec![b1, bare(5)]);

    group.merge_from(other);
    let mut ids = group.ids();
    ids.sort();
    assert_eq!(ids, vec![1, 5]);
    let one = group.get(1).unwrap();
    assert_eq!(one.child_ids, vec![2, 3, 4]);
    assert_eq!(one.rights, vec![String::from("read"), String::from("admin")]);
}

#[test]
fn strip_private_data_blanks_email_and_payload() {
    let mut user = rights_engine::external_system::ExternalSystemUser {
        id: Some(1),
        system: ExternalSystem::ORCID,
        name: String::from("Ada"),
        email: String::from("ada@example.org"),
        external_id: String::from("0000-0001"),
        bespoke_data: String::from("{\"secret\":true}"),
    };
    user.strip_private_data();
    assert_eq!(user.email, "");
    assert_eq!(user.bespoke_data, "null");
    assert_eq!(user.name, "Ada");
    assert_eq!(user.external_url(), "https://orcid.org/0000-0001");
}

#[test]
fn group_get_mut_edits_in_place() {
    let mut group = EntityGroup::from_vec(vec![bare(1)]);
    group.get_mut(1).unwrap().rights.push(String::from("read"));
    assert_eq!(group.get(1).unwrap().rights, vec![String::from("read")]);
    assert!(group.get_mut(9).is_none());
}

#[test]
fn group_get_create_mut_inserts_when_new() {
    let mut group = EntityGroup::empty();
    group.get_create_mut(bare(4)).child_ids.push(5);
    assert_eq!(group.get(4).unwrap().child_ids, vec![5]);
    group.get_create_mut(bare(4)).child_ids.push(6);
    assert_eq!(group.get(4).unwrap().child_ids, vec![5, 6]);
}

#[test]
fn error_messages_carry_their_text() {
    assert_eq!(RingError::String(String::from("a")).message(), "a");
    assert_eq!(RingError::Store(String::from("b")).message(), "b");
    assert_eq!(RingError::IO(String::from("c")).message(), "c");
    assert_eq!(RingError::Serde(String::from("d")).message(), "d");
}

use gh_stars::{RepoRecord, StarsError, Store, TTL_SECONDS};

fn rec(
    id: u64,
    name: &str,
    language: Option<&str>,
    description: Option<&str>,
    stars: u64,
) -> RepoRecord {
    RepoRecord {
        id,
        name: name.to_string(),
        full_name: format!("owner/{}", name),
        owner_login: "owner".to_string(),
        html_url: format!("https://example.invalid/owner/{}", name),
        description: description.map(|s| s.to_string()),
        language: language.map(|s| s.to_string()),
        stars,
        forks: Some(1),
        open_issues: None,
        updated_at: "2024-01-01T00:00:00Z".to_string(),
        created_at: None,
        raw: "{}".to_string(),
    }
}

fn vec2(a: i32, b: i32) -> Vec<i32> {
    vec![a, b]
}

fn ingest_three(store: &mut Store, owner: &str, now: u64) {
    let records = vec![
        rec(1, "alpha", Some("Rust"), Some("first"), 100),
        rec(2, "beta", Some("Go"), Some("second"), 50),
        rec(3, "gamma", None, None, 10),
    ];
    let embeddings = vec![
        Some(vec2(0, 0)),
        Some(vec2(3, 4)),
        Some(vec2(1, 1)),
    ];
    store
        .ingest_snapshot(owner, records, embeddings, now)
        .expect("ingestion succeeds");
}

#[test]
fn snapshot_round_trip_returns_all_ids() {
    let mut store = Store::new(2);
    ingest_three(&mut store, "alice", 1000);
    let recs = store.get_records(&vec!["alice".to_string()], &None);
    let mut ids: Vec<u64> = recs.iter().map(|r| r.id).collect();
    ids.sort();
    assert_eq!(ids, vec![1, 2, 3]);
}

#[test]
fn nearest_neighbors_sees_one_candidate_per_record() {
    let mut store = Store::new(2);
    ingest_three(&mut store, "alice", 1000);
    let nn = store.nearest_neighbors(&vec!["alice".to_string()], &vec2(0, 0), 10);
    assert_eq!(nn.len(), 3);
}

#[test]
fn nearest_neighbors_orders_by_distance_then_id() {
    let mut store = Store::new(2);
    let records = vec![
        rec(5, "far", None, None, 1),
        rec(2, "near", None, None, 1),
        rec(9, "alsonear", None, None, 1),
    ];
    let embeddings = vec![Some(vec2(3, 4)), Some(vec2(1, 0)), Some(vec2(1, 0))];
    store
        .ingest_snapshot("alice", records, embeddings, 1)
        .unwrap();
    let nn = store.nearest_neighbors(&vec!["alice".to_string()], &vec2(0, 0), 10);
    // distances: id 5 -> 25, id 2 -> 1, id 9 -> 1; ties broken by ascending id
    assert_eq!(nn, vec![(2, 1), (9, 1), (5, 25)]);
}

#[test]
fn nearest_neighbors_cuts_to_k() {
    let mut store = Store::new(2);
    ingest_three(&mut store, "alice", 1000);
    let nn = store.nearest_neighbors(&vec!["alice".to_string()], &vec2(0, 0), 2);
    assert_eq!(nn.len(), 2);
}

#[test]
fn upsert_replaces_whole_owner_partition() {
    let mut store = Store::new(2);
    ingest_three(&mut store, "alice", 1000);
    let records = vec![rec(7, "delta", None, None, 4)];
    let embeddings = vec![Some(vec2(0, 1))];
    store
        .ingest_snapshot("alice", records, embeddings, 2000)
        .unwrap();
    let recs = store.get_records(&vec!["alice".to_string()], &None);
    assert_eq!(recs.len(), 1);
    assert_eq!(recs[0].id, 7);
}

#[test]
fn upsert_leaves_other_owners_untouched() {
    let mut store = Store::new(2);
    ingest_three(&mut store, "alice", 1000);
    let records = vec![rec(7, "delta", None, None, 4)];
    let embeddings = vec![Some(vec2(0, 1))];
    store
        .ingest_snapshot("bob", records, embeddings, 2000)
        .unwrap();
    assert_eq!(store.get_records(&vec!["alice".to_string()], &None).len(), 3);
    assert_eq!(store.get_records(&vec!["bob".to_string()], &None).len(), 1);
}

#[test]
fn embedding_failure_rolls_back_to_prior_snapshot() {
    let mut store = Store::new(2);
    ingest_three(&mut store, "alice", 1000);
    let records = vec![
        rec(11, "one", None, None, 1),
        rec(12, "two", None, None, 2),
        rec(13, "three", None, None, 3),
    ];
    let embeddings = vec![Some(vec2(0, 0)), None, Some(vec2(1, 1))];
    let r = store.ingest_snapshot("alice", records, embeddings, 2000);
    assert_eq!(r, Err(StarsError::Embedding));
    let mut ids: Vec<u64> = store
        .get_records(&vec!["alice".to_string()], &None)
        .iter()
        .map(|r| r.id)
        .collect();
    ids.sort();
    assert_eq!(ids, vec![1, 2, 3]);
    assert_eq!(store.last_refresh("alice"), Some(1000));
}

#[test]
fn embedding_failure_on_first_ingestion_leaves_store_empty() {
    let mut store = Store::new(2);
    let records = vec![
        rec(11, "one", None, None, 1),
        rec(12, "two", None, None, 2),
        rec(13, "three", None, None, 3),
    ];
    let embeddings = vec![Some(vec2(0, 0)), None, Some(vec2(1, 1))];
    let r = store.ingest_snapshot("alice", records, embeddings, 2000);
    assert_eq!(r, Err(StarsError::Embedding));
    assert!(store.get_records(&vec!["alice".to_string()], &None).is_empty());
    assert!(store.list_owners().is_empty());
    assert_eq!(store.last_refresh("alice"), None);
}

#[test]
fn duplicate_ids_are_a_malformed_snapshot() {
    let mut store = Store::new(2);
    let records = vec![rec(1, "one", None, None, 1), rec(1, "dup", None, None, 2)];
    let embeddings = vec![Some(vec2(0, 0)), Some(vec2(1, 1))];
    let r = store.ingest_snapshot("alice", records, embeddings, 1);
    assert_eq!(r, Err(StarsError::MalformedRecord));
    assert!(store.list_owners().is_empty());
}

#[test]
fn wrong_dimension_is_an_embedding_error() {
    let mut store = Store::new(2);
    let records = vec![rec(1, "one", None, None, 1)];
    let embeddings = vec![Some(vec![1, 2, 3])];
    let r = store.ingest_snapshot("alice", records, embeddings, 1);
    assert_eq!(r, Err(StarsError::Embedding));
}

#[test]
fn mispaired_embedding_count_is_an_embedding_error() {
    let mut store = Store::new(2);
    let records = vec![rec(1, "one", None, None, 1)];
    let embeddings = vec![Some(vec2(0, 0)), Some(vec2(1, 1))];
    let r = store.ingest_snapshot("alice", records, embeddings, 1);
    assert_eq!(r, Err(StarsError::Embedding));
}

#[test]
fn freshness_follows_the_ttl() {
    let mut store = Store::new(2);
    let t = 50_000;
    ingest_three(&mut store, "alice", t);
    assert!(!store.should_refetch("alice", false, t));
    assert!(!store.should_refetch("alice", false, t + TTL_SECONDS));
    assert!(store.should_refetch("alice", false, t + TTL_SECONDS + 1));
    assert!(store.should_refetch("alice", true, t));
    assert!(store.should_refetch("bob", false, t));
}

#[test]
fn list_owners_reports_every_cached_owner() {
    let mut store = Store::new(2);
    ingest_three(&mut store, "alice", 1);
    ingest_three(&mut store, "bob", 2);
    let mut owners = store.list_owners();
    owners.sort();
    assert_eq!(owners, vec!["alice".to_string(), "bob".to_string()]);
}

#[test]
fn info_resolves_by_full_name() {
    let mut store = Store::new(2);
    ingest_three(&mut store, "alice", 1);
    let found = store.info("owner/beta").expect("resolves");
    assert_eq!(found.id, 2);
    assert_eq!(found.full_name, "owner/beta");
}

#[test]
fn info_falls_back_to_owner_and_name() {
    let mut store = Store::new(2);
    ingest_three(&mut store, "alice", 1);
    let found = store.info("alice/beta").expect("resolves");
    assert_eq!(found.id, 2);
}

#[test]
fn info_rejects_bad_references() {
    let mut store = Store::new(2);
    ingest_three(&mut store, "alice", 1);
    assert!(matches!(store.info("no-slash-here"), Err(StarsError::NotFound)));
    assert!(matches!(store.info("a/b/c"), Err(StarsError::NotFound)));
    assert!(matches!(store.info("alice/zeta"), Err(StarsError::NotFound)));
}

#[test]
fn error_messages_name_the_failure() {
    assert_eq!(StarsError::NotFound.message(), "not found in cache");
    assert_eq!(StarsError::RemoteFetch.message(), "remote fetch failed");
    assert_eq!(StarsError::Embedding.message(), "embedding generation failed");
    assert_eq!(
        StarsError::MalformedRecord.message(),
        "malformed record in snapshot"
    );
}

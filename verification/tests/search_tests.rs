use gh_stars::{list, search, search_owner, RepoRecord, Store};

fn rec(
    id: u64,
    name: &str,
    language: Option<&str>,
    description: Option<&str>,
    stars: u64,
) -> RepoRecord {
    RepoRecord {
        id,
        name: name.to_string(),
        full_name: format!("owner/{}", name),
        owner_login: "owner".to_string(),
        html_url: format!("https://example.invalid/owner/{}", name),
        description: description.map(|s| s.to_string()),
        language: language.map(|s| s.to_string()),
        stars,
        forks: None,
        open_issues: None,
        updated_at: "2024-01-01T00:00:00Z".to_string(),
        created_at: None,
        raw: "{}".to_string(),
    }
}

fn owners(names: &[&str]) -> Vec<String> {
    names.iter().map(|s| s.to_string()).collect()
}

#[test]
fn list_returns_highest_stars_in_descending_order() {
    let mut store = Store::new(2);
    let records = vec![
        rec(1, "low", None, None, 10),
        rec(2, "high", None, None, 100),
        rec(3, "mid", None, None, 50),
    ];
    let embeddings = vec![Some(vec![0, 0]), Some(vec![1, 0]), Some(vec![0, 1])];
    store
        .ingest_snapshot("alice", records, embeddings, 1)
        .unwrap();
    let out = list(&store, &owners(&["alice"]), 2);
    let got: Vec<(u64, u64)> = out.iter().map(|r| (r.id, r.stars)).collect();
    assert_eq!(got, vec![(2, 100), (3, 50)]);
}

#[test]
fn name_match_scores_three_and_is_returned() {
    let mut store = Store::new(2);
    let records = vec![
        rec(1, "redis", None, Some("cache"), 10),
        rec(2, "unrelated", None, None, 99),
    ];
    let embeddings = vec![Some(vec![0, 0]), Some(vec![1, 1])];
    store
        .ingest_snapshot("alice", records, embeddings, 1)
        .unwrap();
    let out = search(&store, &owners(&["alice"]), &None, "redis", &None, 30);
    assert_eq!(out.len(), 1);
    assert_eq!(out[0].id, 1);
}

#[test]
fn empty_query_with_language_filter_returns_only_that_language() {
    let mut store = Store::new(2);
    let records = vec![
        rec(1, "gotool", Some("Go"), None, 10),
        rec(2, "rusttool", Some("Rust"), None, 99),
        rec(3, "golib", Some("Go"), None, 5),
        rec(4, "nolang", None, None, 50),
    ];
    let embeddings = vec![
        Some(vec![0, 0]),
        Some(vec![1, 1]),
        Some(vec![2, 2]),
        Some(vec![3, 3]),
    ];
    store
        .ingest_snapshot("alice", records, embeddings, 1)
        .unwrap();
    let langs = Some(vec!["Go".to_string()]);
    let out = search(&store, &owners(&["alice"]), &langs, "", &None, 30);
    let got: Vec<u64> = out.iter().map(|r| r.id).collect();
    assert_eq!(got, vec![1, 3]);
}

#[test]
fn language_filter_is_case_insensitive() {
    let mut store = Store::new(2);
    let records = vec![rec(1, "gotool", Some("Go"), None, 10)];
    let embeddings = vec![Some(vec![0, 0])];
    store
        .ingest_snapshot("alice", records, embeddings, 1)
        .unwrap();
    let langs = Some(vec!["gO".to_string()]);
    let out = search(&store, &owners(&["alice"]), &langs, "", &None, 30);
    assert_eq!(out.len(), 1);
}

#[test]
fn query_matching_is_case_insensitive() {
    let mut store = Store::new(2);
    let records = vec![rec(1, "redis", None, None, 10)];
    let embeddings = vec![Some(vec![0, 0])];
    store
        .ingest_snapshot("alice", records, embeddings, 1)
        .unwrap();
    let out = search(&store, &owners(&["alice"]), &None, "REDIS", &None, 30);
    assert_eq!(out.len(), 1);
    assert_eq!(out[0].id, 1);
}

#[test]
fn name_match_ranks_ahead_of_description_and_semantic_matches() {
    let mut store = Store::new(2);
    let records = vec![
        // semantic-only: no text match, vector identical to the query's
        rec(1, "zzz", None, None, 1_000_000),
        // description-only match, many stars
        rec(2, "keyvalue", None, Some("a redis clone"), 500_000),
        // exact name match, few stars
        rec(3, "redis", None, None, 3),
    ];
    let embeddings = vec![Some(vec![5, 5]), Some(vec![9, 9]), Some(vec![0, 0])];
    store
        .ingest_snapshot("alice", records, embeddings, 1)
        .unwrap();
    let qvec = Some(vec![5, 5]);
    let out = search_owner(&store, "alice", &None, "redis", &qvec, 30);
    let got: Vec<u64> = out.iter().map(|r| r.id).collect();
    assert_eq!(got, vec![3, 2, 1]);
}

#[test]
fn record_matched_by_both_passes_appears_once() {
    let mut store = Store::new(2);
    let records = vec![
        rec(1, "redis", None, Some("cache"), 10),
        rec(2, "other", None, None, 5),
    ];
    // id 1 matches lexically and sits exactly on the query vector
    let embeddings = vec![Some(vec![4, 4]), Some(vec![9, 9])];
    store
        .ingest_snapshot("alice", records, embeddings, 1)
        .unwrap();
    let qvec = Some(vec![4, 4]);
    let out = search_owner(&store, "alice", &None, "redis", &qvec, 30);
    let hits: Vec<u64> = out.iter().map(|r| r.id).filter(|id| *id == 1).collect();
    assert_eq!(hits, vec![1]);
}

#[test]
fn short_queries_skip_the_semantic_pass() {
    let mut store = Store::new(2);
    let records = vec![
        rec(1, "ab", None, None, 10),
        rec(2, "unrelated", None, None, 5),
    ];
    let embeddings = vec![Some(vec![9, 9]), Some(vec![0, 0])];
    store
        .ingest_snapshot("alice", records, embeddings, 1)
        .unwrap();
    // the query vector sits exactly on record 2, but the query has only
    // two characters, so only the lexical match of record 1 comes back
    let qvec = Some(vec![0, 0]);
    let out = search_owner(&store, "alice", &None, "ab", &qvec, 30);
    let got: Vec<u64> = out.iter().map(|r| r.id).collect();
    assert_eq!(got, vec![1]);
}

#[test]
fn semantic_pass_recovers_conceptual_matches() {
    let mut store = Store::new(2);
    let records = vec![
        rec(1, "memcached", None, Some("in-memory store"), 10),
        rec(2, "unrelated", None, None, 5),
    ];
    let embeddings = vec![Some(vec![1, 1]), Some(vec![90, 90])];
    store
        .ingest_snapshot("alice", records, embeddings, 1)
        .unwrap();
    let qvec = Some(vec![1, 2]);
    let out = search_owner(&store, "alice", &None, "caching", &qvec, 30);
    let got: Vec<u64> = out.iter().map(|r| r.id).collect();
    assert_eq!(got, vec![1, 2]);
}

#[test]
fn empty_query_search_is_idempotent() {
    let mut store = Store::new(2);
    let records = vec![
        rec(1, "one", None, None, 7),
        rec(2, "two", None, None, 7),
        rec(3, "three", None, None, 9),
    ];
    let embeddings = vec![Some(vec![0, 0]), Some(vec![1, 1]), Some(vec![2, 2])];
    store
        .ingest_snapshot("alice", records, embeddings, 1)
        .unwrap();
    let first: Vec<u64> = search(&store, &owners(&["alice"]), &None, "", &None, 30)
        .iter()
        .map(|r| r.id)
        .collect();
    let second: Vec<u64> = search(&store, &owners(&["alice"]), &None, "", &None, 30)
        .iter()
        .map(|r| r.id)
        .collect();
    assert_eq!(first, second);
}

#[test]
fn multi_owner_results_merge_by_star_count() {
    let mut store = Store::new(2);
    store
        .ingest_snapshot(
            "alice",
            vec![rec(1, "small", None, None, 10)],
            vec![Some(vec![0, 0])],
            1,
        )
        .unwrap();
    store
        .ingest_snapshot(
            "bob",
            vec![rec(2, "big", None, None, 100)],
            vec![Some(vec![0, 0])],
            1,
        )
        .unwrap();
    let out = list(&store, &owners(&["alice", "bob"]), 30);
    let got: Vec<u64> = out.iter().map(|r| r.id).collect();
    assert_eq!(got, vec![2, 1]);
}

#[test]
fn limit_cuts_the_merged_result() {
    let mut store = Store::new(2);
    let records = vec![
        rec(1, "redis-one", None, None, 5),
        rec(2, "redis-two", None, None, 50),
        rec(3, "redis-three", None, None, 20),
    ];
    let embeddings = vec![Some(vec![0, 0]), Some(vec![1, 1]), Some(vec![2, 2])];
    store
        .ingest_snapshot("alice", records, embeddings, 1)
        .unwrap();
    let out = search(&store, &owners(&["alice"]), &None, "redis", &None, 2);
    assert_eq!(out.len(), 2);
}

#[test]
fn search_of_unknown_owner_is_empty() {
    let store = Store::new(2);
    assert!(search(&store, &owners(&["ghost"]), &None, "redis", &None, 30).is_empty());
    assert!(list(&store, &owners(&["ghost"]), 30).is_empty());
}

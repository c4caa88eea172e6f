use gh_stars::{
    embed_text, get_db_path, get_github_token, has_next_page, parse_languages, parse_usernames,
    RepoRecord,
};

#[test]
fn parse_languages_trims_and_drops_empty_items() {
    assert_eq!(
        parse_languages(" go, rust ,,  zig"),
        vec!["go".to_string(), "rust".to_string(), "zig".to_string()]
    );
}

#[test]
fn parse_languages_of_empty_input_is_empty() {
    assert!(parse_languages("").is_empty());
    assert!(parse_languages(" , ,").is_empty());
}

#[test]
fn parse_usernames_splits_on_commas() {
    assert_eq!(
        parse_usernames("alice,bob"),
        vec!["alice".to_string(), "bob".to_string()]
    );
    assert_eq!(parse_usernames("  carol  "), vec!["carol".to_string()]);
}

#[test]
fn db_path_sits_below_the_cache_root() {
    assert_eq!(
        get_db_path("/home/u/.cache"),
        "/home/u/.cache/gh-stars/stars.db"
    );
}

#[test]
fn next_page_is_announced_by_the_link_header() {
    let link = "<https://api.example.invalid/page=2>; rel=\"next\", <...>; rel=\"last\"";
    assert!(has_next_page(Some(link)));
    assert!(!has_next_page(Some("<...>; rel=\"prev\"")));
    assert!(!has_next_page(None));
}

#[test]
fn explicit_token_wins_over_ambient_credential() {
    let cli = Some("tok-cli".to_string());
    assert_eq!(
        get_github_token(&cli, Some("tok-ambient".to_string())),
        Some("tok-cli".to_string())
    );
    assert_eq!(
        get_github_token(&None, Some("tok-ambient".to_string())),
        Some("tok-ambient".to_string())
    );
    assert_eq!(get_github_token(&None, None), None);
}

#[test]
fn embed_text_joins_name_language_and_description() {
    let full = RepoRecord {
        id: 1,
        name: "redis".to_string(),
        full_name: "o/redis".to_string(),
        owner_login: "o".to_string(),
        html_url: "u".to_string(),
        description: Some("cache".to_string()),
        language: Some("C".to_string()),
        stars: 1,
        forks: None,
        open_issues: None,
        updated_at: "t".to_string(),
        created_at: None,
        raw: "{}".to_string(),
    };
    assert_eq!(embed_text(&full), "redis C cache");
    let bare = RepoRecord { description: None, language: None, ..full };
    assert_eq!(embed_text(&bare), "redis  ");
}

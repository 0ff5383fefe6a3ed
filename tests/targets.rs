use gitee_collect::error::CollectError;
use gitee_collect::target::{enumerate_targets, get_owner_and_repo, str_lt, CatalogItem};

fn item(urls: &[&str], ohpm: Option<&str>) -> CatalogItem {
    CatalogItem {
        repositories: urls.iter().map(|u| u.to_string()).collect(),
        ohpm_url: ohpm.map(|o| o.to_string()),
    }
}

#[test]
fn owner_and_repo_plain() {
    let r = get_owner_and_repo("https://gitee.com/owner/repo").unwrap();
    assert_eq!(r, ("owner".to_string(), "repo".to_string()));
}

#[test]
fn owner_and_repo_trailing_slash() {
    let r = get_owner_and_repo("https://gitee.com/openharmony/docs/").unwrap();
    assert_eq!(r, ("openharmony".to_string(), "docs".to_string()));
}

#[test]
fn owner_and_repo_rejects_other_shapes() {
    for url in [
        "https://gitee.com/owner/repo/extra",
        "https://github.com/owner/repo",
        "https://gitee.com//repo",
        "https://gitee.com/owner/",
        "https://gitee.com/owner/repo//",
        "https://gitee.com/owner",
        "",
        "http://gitee.com/owner/repo",
    ] {
        assert_eq!(get_owner_and_repo(url), Err(CollectError::InvalidRepositoryUrl), "{url}");
    }
}

#[test]
fn lexicographic_order() {
    assert!(str_lt("a", "b"));
    assert!(str_lt("ab", "abc"));
    assert!(!str_lt("abc", "ab"));
    assert!(!str_lt("same", "same"));
    assert!(str_lt("", "x"));
    assert!(str_lt("Z", "a"));
}

#[test]
fn enumeration_dedups_and_sorts() {
    let items = vec![
        item(&["https://gitee.com/b/two", "https://gitee.com/a/one"], None),
        item(&["https://gitee.com/a/one", "https://github.com/x/y"], None),
        item(&["https://gitee.com/b/two"], None),
    ];
    let ts = enumerate_targets(&items);
    let urls: Vec<&str> = ts.iter().map(|t| t.url.as_str()).collect();
    assert_eq!(urls, vec!["https://gitee.com/a/one", "https://gitee.com/b/two"]);
}

#[test]
fn enumeration_of_empty_catalog() {
    assert!(enumerate_targets(&vec![]).is_empty());
    assert!(enumerate_targets(&vec![item(&[], Some("https://x/dl"))]).is_empty());
}

#[test]
fn enumeration_keeps_last_auxiliary_url() {
    let items = vec![
        item(&["https://gitee.com/a/one"], Some("https://ohpm/first")),
        item(&["https://gitee.com/a/one"], None),
        item(&["https://gitee.com/a/one", "https://gitee.com/c/three"], Some("https://ohpm/last")),
        item(&["https://gitee.com/d/four"], None),
    ];
    let ts = enumerate_targets(&items);
    assert_eq!(ts.len(), 3);
    assert_eq!(ts[0].url, "https://gitee.com/a/one");
    assert_eq!(ts[0].ohpm_url.as_deref(), Some("https://ohpm/last"));
    assert_eq!(ts[1].url, "https://gitee.com/c/three");
    assert_eq!(ts[1].ohpm_url.as_deref(), Some("https://ohpm/last"));
    assert_eq!(ts[2].url, "https://gitee.com/d/four");
    assert_eq!(ts[2].ohpm_url, None);
}

use gitee_collect::error::CollectError;
use gitee_collect::pool::credential_tokens;
use gitee_collect::record::{
    contributors_url, find_first, get_participation_stats, last_page, new_commit_from, new_release_from,
    parse_usize, week_counts,
};

#[test]
fn contributors_page() {
    assert_eq!(contributors_url("a", "b"), "https://gitee.com/a/b/graphs/contributors");
}

#[test]
fn last_page_from_header() {
    assert_eq!(last_page(None), Ok(None));
    assert_eq!(last_page(Some("12")), Ok(Some(12)));
    assert_eq!(last_page(Some("+3")), Ok(Some(3)));
    assert_eq!(last_page(Some("x")), Err(CollectError::ResponseParseFailed));
    assert_eq!(last_page(Some("")), Err(CollectError::ResponseParseFailed));
    assert_eq!(last_page(Some("1 2")), Err(CollectError::ResponseParseFailed));
    assert_eq!(last_page(Some("18446744073709551616")), Err(CollectError::ResponseParseFailed));
}

#[test]
fn parse_usize_extremes() {
    assert_eq!(parse_usize("0"), Some(0));
    assert_eq!(parse_usize("18446744073709551615"), Some(usize::MAX));
    assert_eq!(parse_usize("+"), None);
    assert_eq!(parse_usize("-1"), None);
}

#[test]
fn commit_from_fields() {
    let c = new_commit_from(Some("https://gitee.com/o/r/commit/abc"), Some("2024-01-02T03:04:05Z"));
    assert_eq!(c.url, "https://gitee.com/o/r/commit/abc");
    assert_eq!(c.ts, Some(1704164645));
    let c = new_commit_from(None, Some("yesterday"));
    assert_eq!(c.url, "");
    assert_eq!(c.ts, None);
}

#[test]
fn release_from_fields() {
    let r = new_release_from(
        Some("v1.0"),
        Some("https://gitee.com/o/r/archive/refs/v1.0.zip"),
        Some("1970-01-02T00:00:00+00:00"),
    );
    assert_eq!(r.url, "https://gitee.com/o/r/releases/tag/v1.0");
    assert_eq!(r.ts, Some(86400));
    let r = new_release_from(Some("v2"), None, None);
    assert_eq!(r.url, "releases/tag/v2");
    assert_eq!(r.ts, None);
    let r = new_release_from(None, Some("https://dl/x.zip"), None);
    assert_eq!(r.url, "https://dl/x.zipreleases/tag/");
}

#[test]
fn first_occurrence() {
    assert_eq!(find_first("abcarchivearchive", "archive"), 3);
    assert_eq!(find_first("abc", "archive"), 3);
    assert_eq!(find_first("archive", "archive"), 0);
}

#[test]
fn weekly_buckets() {
    let day = 86400i64;
    let stamps = vec![
        Some(0),
        Some(day - 1),
        Some(-3600),
        Some(-day),
        Some(7 * day),
        Some(52 * 7 * day),
        None,
        Some(51 * 7 * day + 5),
    ];
    let r = week_counts(0, &stamps);
    assert_eq!(r.len(), 52);
    assert_eq!(r[0], 3);
    assert_eq!(r[1], 1);
    assert_eq!(r[51], 1);
    assert_eq!(r.iter().sum::<i64>(), 5);
}

#[test]
fn participation_from_dates() {
    let dates = vec![
        "1970-01-01T01:00:00Z".to_string(),
        "not a date".to_string(),
        "1970-01-08T00:00:00Z".to_string(),
        "1970-01-08T02:00:00+02:00".to_string(),
    ];
    let r = get_participation_stats(0, &dates);
    assert_eq!(r.len(), 52);
    assert_eq!(r[0], 1);
    assert_eq!(r[1], 2);
    assert_eq!(r.iter().sum::<i64>(), 3);
}

#[test]
fn tokens_from_list() {
    assert!(credential_tokens("").is_empty());
    assert_eq!(credential_tokens("tok"), vec!["tok".to_string()]);
    assert_eq!(credential_tokens("a,b"), vec!["a".to_string(), "b".to_string()]);
    assert_eq!(credential_tokens("a,,b"), vec!["a".to_string(), "".to_string(), "b".to_string()]);
    assert_eq!(credential_tokens(","), vec!["".to_string(), "".to_string()]);
}

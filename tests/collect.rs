use gitee_collect::collect::{Action, Collector, Fetched};
use gitee_collect::error::CollectError;
use gitee_collect::freshness::{decide_target, is_fresh, plan, CacheEntry, Decision, CACHE_TTL_SECS};
use gitee_collect::pool::CredentialPool;
use gitee_collect::target::{enumerate_targets, CatalogItem};

const NOW: i64 = 1_700_000_000;

fn catalog(urls: &[&str]) -> Vec<CatalogItem> {
    urls.iter()
        .map(|u| CatalogItem { repositories: vec![u.to_string()], ohpm_url: None })
        .collect()
}

fn entry(url: &str, generated_at: i64, record: &str) -> CacheEntry<String> {
    CacheEntry { url: url.to_string(), generated_at, record: record.to_string() }
}

struct Run {
    mapping: Vec<CacheEntry<String>>,
    provider_calls: Vec<String>,
    max_in_flight: usize,
    failures: Vec<(usize, CollectError)>,
}

/// Drives a run to its end; the provider double fails for the urls in
/// `failing` and completes fetches oldest first.
fn drive(mut c: Collector<String>, failing: &[&str]) -> Run {
    let mut provider_calls = vec![];
    let mut in_flight: Vec<usize> = vec![];
    let mut max_in_flight = 0;
    let mut failures = vec![];
    loop {
        match c.next_action() {
            Action::Reuse { .. } => {}
            Action::Launch { target, .. } => {
                provider_calls.push(c.target(target).url.clone());
                in_flight.push(target);
                max_in_flight = max_in_flight.max(in_flight.len());
                assert_eq!(c.in_flight(), in_flight.len());
            }
            Action::Fail { target, error } => failures.push((target, error)),
            Action::Wait => {
                let target = in_flight.remove(0);
                let url = c.target(target).url.clone();
                let result = if failing.contains(&url.as_str()) {
                    Err(CollectError::UpstreamRequestFailed)
                } else {
                    Ok(Fetched { generated_at: NOW + 1, record: format!("live {url}") })
                };
                c.complete(target, result);
            }
            Action::Done => break,
        }
    }
    assert!(c.is_done());
    Run { mapping: c.finish(), provider_calls, max_in_flight, failures }
}

#[test]
fn freshness_boundary() {
    assert!(is_fresh(NOW, NOW));
    assert!(is_fresh(NOW - CACHE_TTL_SECS + 1, NOW));
    assert!(!is_fresh(NOW - CACHE_TTL_SECS, NOW));
    assert!(!is_fresh(NOW - CACHE_TTL_SECS - 1, NOW));
    assert!(is_fresh(i64::MAX, i64::MIN));
    assert!(!is_fresh(i64::MIN, i64::MAX));
}

#[test]
fn cache_hit_skips_provider() {
    let a = "https://gitee.com/o/a";
    let cache = vec![entry(a, NOW - 6 * 86400, "cached a")];
    assert_eq!(decide_target(&cache, a, NOW), Decision::Reuse(0));
    let run = drive(Collector::new(&catalog(&[a]), cache, NOW, 1), &[]);
    assert!(run.provider_calls.is_empty());
    assert_eq!(run.mapping.len(), 1);
    assert_eq!(run.mapping[0].record, "cached a");
    assert_eq!(run.mapping[0].generated_at, NOW - 6 * 86400);
}

#[test]
fn cache_expiry_refetches() {
    let a = "https://gitee.com/o/a";
    let cache = vec![entry(a, NOW - 7 * 86400 - 1, "old a")];
    assert_eq!(decide_target(&cache, a, NOW), Decision::Fetch);
    let run = drive(Collector::new(&catalog(&[a]), cache, NOW, 1), &[]);
    assert_eq!(run.provider_calls, vec![a.to_string()]);
    assert_eq!(run.mapping[0].record, format!("live {a}"));
    assert_eq!(run.mapping[0].generated_at, NOW + 1);
}

#[test]
fn plan_decides_each_target() {
    let items = catalog(&["https://gitee.com/o/b", "https://gitee.com/o/a", "https://gitee.com/o/c"]);
    let ts = enumerate_targets(&items);
    let cache = vec![
        entry("https://gitee.com/o/c", NOW - 10, "c"),
        entry("https://gitee.com/o/a", NOW - 8 * 86400, "a"),
    ];
    assert_eq!(plan(&ts, &cache, NOW), vec![Decision::Fetch, Decision::Fetch, Decision::Reuse(0)]);
}

#[test]
fn concurrency_bounded_by_pool() {
    let urls: Vec<String> = (0..6).map(|i| format!("https://gitee.com/o/r{i}")).collect();
    let refs: Vec<&str> = urls.iter().map(|u| u.as_str()).collect();
    let mut c = Collector::new(&catalog(&refs), vec![], NOW, 2);
    assert!(matches!(c.next_action(), Action::Launch { target: 0, .. }));
    assert!(matches!(c.next_action(), Action::Launch { target: 1, .. }));
    assert_eq!(c.next_action(), Action::Wait);
    assert_eq!(c.in_flight(), 2);
    assert!(c.is_in_flight(0) && c.is_in_flight(1) && !c.is_in_flight(2));
    c.complete(1, Ok(Fetched { generated_at: NOW, record: "r1".to_string() }));
    assert_eq!(c.in_flight(), 1);
    assert!(matches!(c.next_action(), Action::Launch { target: 2, .. }));
    assert_eq!(c.next_action(), Action::Wait);
    c.complete(0, Ok(Fetched { generated_at: NOW, record: "r0".to_string() }));
    c.complete(2, Ok(Fetched { generated_at: NOW, record: "r2".to_string() }));
    let run = drive(c, &[]);
    assert_eq!(run.max_in_flight, 2);
    assert_eq!(run.provider_calls.len(), 3);
    assert_eq!(run.mapping.len(), 6);
}

#[test]
fn pool_lends_each_slot_once() {
    let mut p = CredentialPool::new(2);
    assert_eq!(p.size(), 2);
    assert!(p.is_authenticated());
    let s0 = p.acquire().unwrap();
    let s1 = p.acquire().unwrap();
    assert_ne!(s0, s1);
    assert_eq!(p.acquire(), None);
    assert_eq!(p.in_use(), 2);
    p.release(s0);
    assert_eq!(p.acquire(), Some(s0));
    let q = CredentialPool::new(0);
    assert_eq!(q.size(), 1);
    assert!(!q.is_authenticated());
}

#[test]
fn partial_failure_isolated() {
    let (a, b, c) = ("https://gitee.com/o/a", "https://gitee.com/o/b", "https://gitee.com/o/c");
    let run = drive(Collector::new(&catalog(&[a, b, c]), vec![], NOW, 3), &[b]);
    let keys: Vec<&str> = run.mapping.iter().map(|e| e.url.as_str()).collect();
    assert_eq!(keys, vec![a, c]);
}

#[test]
fn no_credentials_yields_empty_mapping() {
    let (a, b) = ("https://gitee.com/o/a", "https://gitee.com/o/b");
    let run = drive(Collector::new(&catalog(&[a, b]), vec![], NOW, 0), &[]);
    assert!(run.mapping.is_empty());
    assert!(run.provider_calls.is_empty());
    assert_eq!(run.failures, vec![(0, CollectError::NoCredentials), (1, CollectError::NoCredentials)]);
}

#[test]
fn no_credentials_still_reuses_cache() {
    let a = "https://gitee.com/o/a";
    let run = drive(Collector::new(&catalog(&[a]), vec![entry(a, NOW, "kept")], NOW, 0), &[]);
    assert_eq!(run.mapping.len(), 1);
    assert_eq!(run.mapping[0].record, "kept");
}

#[test]
fn persisted_mapping_reads_back() {
    let urls: Vec<String> = (0..4).map(|i| format!("https://gitee.com/o/r{i}")).collect();
    let refs: Vec<&str> = urls.iter().map(|u| u.as_str()).collect();
    let first = drive(Collector::new(&catalog(&refs), vec![], NOW, 2), &[]);
    assert_eq!(first.mapping.len(), 4);
    let second = drive(Collector::new(&catalog(&refs), first.mapping, NOW + 3600, 2), &[]);
    assert!(second.provider_calls.is_empty());
    assert_eq!(second.mapping.len(), 4);
}

#[test]
fn end_to_end_example() {
    let (a, b, c) = ("https://gitee.com/o/a", "https://gitee.com/o/b", "https://gitee.com/o/c");
    let cache = vec![entry(a, NOW - 3600, "cached a")];
    let run = drive(Collector::new(&catalog(&[c, a, b]), cache, NOW, 2), &[]);
    assert_eq!(run.provider_calls, vec![b.to_string(), c.to_string()]);
    let keys: Vec<&str> = run.mapping.iter().map(|e| e.url.as_str()).collect();
    assert_eq!(keys, vec![a, b, c]);
    assert_eq!(run.mapping[0].record, "cached a");
}

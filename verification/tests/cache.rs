use texide::ast::Span;
use texide::cache::{covers, versions_equal, CacheEntry, CacheManager};
use texide::diagnostic::Diagnostic;
use texide::hash::hash_text;
use texide::table::Table;

fn versions(pairs: &[(&str, &str)]) -> Table<String> {
    let mut table = Table::new();
    for (name, version) in pairs {
        table.insert(name.to_string(), version.to_string());
    }
    table
}

fn entry(content: &str, config: &str, rules: &[(&str, &str)]) -> CacheEntry {
    CacheEntry::new(
        content.to_string(),
        config.to_string(),
        versions(rules),
        vec![Diagnostic::new("r", "m", Span::new(0, 1))],
        17,
    )
}

#[test]
fn hash_of_content_is_blake3() {
    assert_eq!(
        CacheManager::hash_content(""),
        "af1349b9f5f9a1a6a0404dea36dcc9499bcb25c9adc112b7cc9a93cae41f3262"
    );
    assert_eq!(
        CacheManager::hash_content("hello"),
        blake3::hash(b"hello").to_hex().to_string()
    );
    assert_eq!(hash_text("héllo"), blake3::hash("héllo".as_bytes()).to_hex().to_string());
    assert_ne!(CacheManager::hash_content("a"), CacheManager::hash_content("b"));
}

#[test]
fn new_cache_is_on_and_empty() {
    let cache = CacheManager::new(".texide-cache".to_string());
    assert!(cache.is_enabled());
    assert_eq!(cache.len(), 0);
    assert_eq!(cache.cache_dir, ".texide-cache");
    assert!(cache.get("a.md").is_none());
    assert!(!cache.is_valid("a.md", "c", "g", &versions(&[])));
}

#[test]
fn entry_is_valid_under_its_fingerprint_only() {
    let mut cache = CacheManager::new("d".to_string());
    cache.set("a.md".to_string(), entry("c1", "g1", &[("r", "1.0"), ("s", "2.0")]));
    let same = versions(&[("r", "1.0"), ("s", "2.0")]);
    assert!(cache.is_valid("a.md", "c1", "g1", &same));
    assert!(!cache.is_valid("b.md", "c1", "g1", &same));
    assert!(!cache.is_valid("a.md", "c2", "g1", &same));
    assert!(!cache.is_valid("a.md", "c1", "g2", &same));
    assert!(!cache.is_valid("a.md", "c1", "g1", &versions(&[("r", "1.0")])));
    assert!(!cache.is_valid("a.md", "c1", "g1", &versions(&[("r", "1.0"), ("s", "2.1")])));
    assert!(!cache.is_valid(
        "a.md",
        "c1",
        "g1",
        &versions(&[("r", "1.0"), ("s", "2.0"), ("t", "0.1")])
    ));
    assert!(!cache.is_valid("a.md", "c1", "g1", &versions(&[("r", "1.0"), ("t", "2.0")])));
}

#[test]
fn order_of_the_rule_versions_does_not_count() {
    let mut cache = CacheManager::new("d".to_string());
    cache.set("a.md".to_string(), entry("c", "g", &[("r", "1.0"), ("s", "2.0")]));
    assert!(cache.is_valid("a.md", "c", "g", &versions(&[("s", "2.0"), ("r", "1.0")])));
    assert!(versions_equal(
        &versions(&[("s", "2.0"), ("r", "1.0")]),
        &versions(&[("r", "1.0"), ("s", "2.0")])
    ));
    assert!(versions_equal(&versions(&[]), &versions(&[])));
    assert!(!versions_equal(&versions(&[("r", "1")]), &versions(&[])));
    assert!(!versions_equal(&versions(&[]), &versions(&[("r", "1")])));
    assert!(covers(&versions(&[("r", "1")]), &versions(&[("r", "1"), ("s", "2")])));
    assert!(!covers(&versions(&[("r", "1"), ("s", "2")]), &versions(&[("r", "1")])));
}

#[test]
fn a_cache_that_is_off_is_never_valid() {
    let mut cache = CacheManager::new("d".to_string());
    cache.set("a.md".to_string(), entry("c", "g", &[]));
    assert!(cache.is_valid("a.md", "c", "g", &versions(&[])));
    cache.disable();
    assert!(!cache.is_enabled());
    assert!(!cache.is_valid("a.md", "c", "g", &versions(&[])));
    assert!(cache.get("a.md").is_some());
    cache.enable();
    assert!(cache.is_valid("a.md", "c", "g", &versions(&[])));
}

#[test]
fn set_replaces_the_entry_of_a_path() {
    let mut cache = CacheManager::new("d".to_string());
    cache.set("a.md".to_string(), entry("c1", "g", &[]));
    cache.set("b.md".to_string(), entry("c2", "g", &[]));
    cache.set("a.md".to_string(), entry("c3", "g", &[]));
    assert_eq!(cache.len(), 2);
    assert_eq!(cache.get("a.md").unwrap().content_hash, "c3");
    assert_eq!(cache.get("b.md").unwrap().content_hash, "c2");
    assert_eq!(cache.get("a.md").unwrap().timestamp, 17);
    assert_eq!(cache.get("a.md").unwrap().diagnostics.len(), 1);
}

#[test]
fn a_framed_payload_comes_back() {
    let payload = b"{\"a.md\":{}}".to_vec();
    let file = CacheManager::frame(&payload);
    assert_eq!(&file[..15], b"texide-cache/1\n");
    assert_eq!(&file[15..], &payload[..]);
    assert_eq!(CacheManager::unframe(&file), Some(payload));
    assert_eq!(CacheManager::unframe(&CacheManager::frame(&[])), Some(vec![]));
    assert_eq!(CacheManager::tag(), b"texide-cache/1\n".to_vec());
}

#[test]
fn a_file_of_another_layout_has_no_payload() {
    assert_eq!(CacheManager::unframe(b""), None);
    assert_eq!(CacheManager::unframe(b"texide-cache/1"), None);
    assert_eq!(CacheManager::unframe(b"texide-cache/2\n{}"), None);
    assert_eq!(CacheManager::unframe(b"Texide-cache/1\n{}"), None);
    assert_eq!(CacheManager::unframe(b"{}"), None);
}

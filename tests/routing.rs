use ssurlss::entry::{build_entry, process_entry};
use ssurlss::router::{dispatch, handle_request, Outcome};
use ssurlss::store::{Config, Entry};

fn config(url_path: &str) -> Config {
    Config::new(
        String::from("http://localhost:8000"),
        String::from(url_path),
        String::from("links"),
        8000,
        true,
    )
}

fn entry(id: &str, url: &str, delete: Option<u64>) -> Entry {
    Entry { id: String::from(id), url: String::from(url), created: 100, delete }
}

fn redirect_target(o: &Outcome) -> Option<String> {
    match o {
        Outcome::Redirect(to) => Some(to.clone()),
        _ => None,
    }
}

#[test]
fn build_entry_decodes_url() {
    let c = config("");
    let e = build_entry(&c, "url=http%3A%2F%2Fexample.com", String::from("q"), 500);
    assert_eq!(e.url, "http://example.com");
    assert_eq!(e.id, "q");
    assert_eq!(e.created, 500);
    assert_eq!(e.delete, None);
}

#[test]
fn build_entry_custom_id_when_free() {
    let c = config("");
    let e = build_entry(&c, "url=x&id=custom", String::from("q"), 500);
    assert_eq!(e.id, "custom");
}

#[test]
fn build_entry_taken_id_falls_back() {
    let mut c = config("");
    c.insert_entry(entry("custom", "http://a", None));
    let e = build_entry(&c, "url=x&id=custom", String::from("q"), 500);
    assert_eq!(e.id, "q");
}

#[test]
fn build_entry_future_time_sets_expiry() {
    let c = config("");
    let e = build_entry(&c, "url=x&time=2024-05-06 07:08", String::from("q"), 500);
    assert_eq!(e.delete, Some(1_717_803_000));
}

#[test]
fn build_entry_past_time_ignored() {
    let c = config("");
    let e = build_entry(&c, "url=x&time=1970-01-00 00:00", String::from("q"), 5_000_000);
    assert_eq!(e.delete, None);
}

#[test]
fn build_entry_undecodable_url_stays_empty() {
    let c = config("");
    let e = build_entry(&c, "url=%FF", String::from("q"), 500);
    assert_eq!(e.url, "");
}

#[test]
fn build_entry_ignores_unknown_and_bare_keys() {
    let c = config("");
    let e = build_entry(&c, "colour=red&url&url=a=b&id=", String::from("q"), 500);
    assert_eq!(e.url, "a");
    assert_eq!(e.id, "q");
}

#[test]
fn later_url_field_wins() {
    let c = config("");
    let e = build_entry(&c, "url=a&url=b", String::from("q"), 500);
    assert_eq!(e.url, "b");
}

#[test]
fn index_paths() {
    let mut c = config("");
    assert!(matches!(dispatch(&mut c, "/", 1, String::from("a")), Outcome::Index));
    assert!(matches!(dispatch(&mut c, "//", 1, String::from("a")), Outcome::Index));
    let mut d = config("s");
    assert!(matches!(dispatch(&mut d, "/s", 1, String::from("a")), Outcome::Index));
    assert!(matches!(dispatch(&mut d, "/s/", 1, String::from("a")), Outcome::Index));
}

#[test]
fn favicon_path() {
    let mut c = config("");
    assert!(matches!(dispatch(&mut c, "/favicon.ico", 1, String::from("a")), Outcome::Favicon));
}

#[test]
fn outside_mount_is_unmatched() {
    let mut c = config("s");
    assert!(matches!(dispatch(&mut c, "/t/add", 1, String::from("a")), Outcome::Unmatched));
}

#[test]
fn unknown_paths_not_found() {
    let mut c = config("");
    assert!(matches!(dispatch(&mut c, "/links/none", 1, String::from("a")), Outcome::NotFound));
    assert!(matches!(dispatch(&mut c, "/other", 1, String::from("a")), Outcome::NotFound));
}

#[test]
fn add_page_without_query() {
    let mut c = config("");
    assert!(matches!(dispatch(&mut c, "/add", 1, String::from("a")), Outcome::AddForm));
}

#[test]
fn add_refused_when_new_entries_disallowed() {
    let mut c = config("");
    c.allow_new = false;
    let o = dispatch(&mut c, "/add?url=x", 1, String::from("a"));
    assert!(matches!(o, Outcome::NotFound));
    assert_eq!(c.entries.len(), 0);
}

#[test]
fn empty_url_serves_form_again() {
    let mut c = config("");
    let o = dispatch(&mut c, "/add?url=", 1, String::from("a"));
    assert!(matches!(o, Outcome::AddInvalid));
    assert_eq!(c.entries.len(), 0);
    assert_eq!(c.entries_len, 0);
}

#[test]
fn add_then_resolve() {
    let mut c = config("");
    let o = dispatch(&mut c, "/add?url=http%3A%2F%2Fexample.com", 10, String::from("k"));
    match o {
        Outcome::Added(link) => assert_eq!(link, "http://localhost:8000/links/k"),
        _ => panic!("expected a new entry"),
    }
    assert_eq!(c.entries_len, 1);
    assert_eq!(c.entries[0].id, "k");
    assert_eq!(c.entries[0].url, "http://example.com");
    assert_eq!(c.entries[0].delete, None);
    for _ in 0..3 {
        let r = dispatch(&mut c, "/links/k", 20, String::from("z"));
        assert_eq!(redirect_target(&r), Some(String::from("http://example.com")));
    }
    assert_eq!(c.entries_len, 1);
}

#[test]
fn fresh_store_gives_one_letter_id() {
    let mut c = config("");
    let o = handle_request(&mut c, "/add?url=http%3A%2F%2Fexample.com").unwrap();
    assert!(o.changes_store());
    assert_eq!(c.entries.len(), 1);
    let id = c.entries[0].id.clone();
    assert_eq!(id.chars().count(), 1);
    assert_eq!(c.entries[0].url, "http://example.com");
    assert_eq!(c.entries[0].delete, None);
    let r = handle_request(&mut c, &format!("/links/{}", id)).unwrap();
    assert_eq!(redirect_target(&r), Some(String::from("http://example.com")));
}

#[test]
fn link_under_mount_prefix() {
    let mut c = config("s");
    match dispatch(&mut c, "/s/add?url=u&id=mine", 10, String::from("k")) {
        Outcome::Added(link) => assert_eq!(link, "http://localhost:8000/s/links/mine"),
        _ => panic!("expected a new entry"),
    }
    let r = dispatch(&mut c, "/s/links/mine", 20, String::from("z"));
    assert_eq!(redirect_target(&r), Some(String::from("u")));
    assert!(matches!(dispatch(&mut c, "/sadd?url=u", 20, String::from("z")), Outcome::Unmatched));
}

#[test]
fn expired_entry_evicted() {
    let mut c = config("");
    let now: u64 = 1_000;
    c.insert_entry(entry("old", "http://a", Some(now - 1)));
    c.insert_entry(entry("keep", "http://b", None));
    assert_eq!(c.entries_len, 2);
    let o = dispatch(&mut c, "/links/old", now, String::from("z"));
    assert!(matches!(o, Outcome::Evicted));
    assert!(o.changes_store());
    assert_eq!(c.entries_len, 1);
    assert!(c.entries.iter().all(|e| e.id != "old"));
    assert!(matches!(dispatch(&mut c, "/links/old", now, String::from("z")), Outcome::NotFound));
}

#[test]
fn expiry_boundary() {
    let mut c = config("");
    c.insert_entry(entry("t", "http://a", Some(50)));
    let before = dispatch(&mut c, "/links/t", 49, String::from("z"));
    assert_eq!(redirect_target(&before), Some(String::from("http://a")));
    assert!(matches!(dispatch(&mut c, "/links/t", 50, String::from("z")), Outcome::Evicted));
}

#[test]
fn zero_expiry_never_expires() {
    let mut c = config("");
    c.insert_entry(entry("z", "http://a", Some(0)));
    let r = dispatch(&mut c, "/links/z", 5_000, String::from("y"));
    assert_eq!(redirect_target(&r), Some(String::from("http://a")));
}

#[test]
fn insert_replaces_same_id() {
    let mut c = config("");
    c.insert_entry(entry("a", "http://1", None));
    c.insert_entry(entry("a", "http://2", None));
    assert_eq!(c.entries_len, 1);
    assert!(c.contains_id(&String::from("a")));
    assert!(!c.contains_id(&String::from("b")));
    assert_eq!(c.entries[0].url, "http://2");
}

#[test]
fn sync_count_matches_entries() {
    let mut c = config("");
    c.insert_entry(entry("a", "http://1", None));
    c.entries_len = 7;
    c.sync_count();
    assert_eq!(c.entries_len, 1);
}

#[test]
fn process_entry_generates_id_and_time() {
    let c = config("");
    let e = process_entry(&c, "url=http%3A%2F%2Fexample.com&time=2000-01-01 00:00").unwrap();
    assert_eq!(e.id.chars().count(), 1);
    assert_eq!(e.url, "http://example.com");
    assert!(e.created > 1_600_000_000);
    assert_eq!(e.delete, None);
}

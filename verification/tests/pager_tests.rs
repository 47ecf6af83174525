use feedcore::pager::{PAGE_SIZE, Pager};
use feedcore::store::{Store, StoredEntry};

fn stored(id: &str, published: i64) -> StoredEntry {
    StoredEntry {
        id: id.to_string(),
        channel_id: "c1".to_string(),
        title: id.to_string(),
        link: format!("http://example.com/{}", id),
        summary: None,
        published,
    }
}

fn five_entry_store() -> Store {
    let mut s = Store::new();
    for (id, ts) in [("a", 50i64), ("b", 40), ("c", 30), ("d", 20), ("e", 10)] {
        s.upsert_entry(stored(id, ts));
    }
    s
}

fn ids(p: &Pager) -> Vec<&str> {
    p.entries.iter().map(|e| e.id.as_str()).collect()
}

#[test]
fn page_size_two_walks_five_entries() {
    let s = five_entry_store();
    let mut p = Pager::initial_page(&s, None, 2);
    assert_eq!(ids(&p), vec!["a", "b"]);
    assert!(!p.all_loaded);
    assert_eq!(p.offset, 0);

    p.load_more(&s, None);
    assert_eq!(ids(&p), vec!["a", "b", "c", "d"]);
    assert!(!p.all_loaded);
    assert_eq!(p.offset, 2);

    p.load_more(&s, None);
    assert_eq!(ids(&p), vec!["a", "b", "c", "d", "e"]);
    assert!(p.all_loaded);
    assert_eq!(p.offset, 4);
}

#[test]
fn load_more_on_exhausted_view_only_sets_all_loaded() {
    let s = five_entry_store();
    let mut p = Pager::initial_page(&s, None, 2);
    p.load_more(&s, None);
    p.load_more(&s, None);
    assert!(p.all_loaded);
    let offset_before = p.offset;
    p.load_more(&s, None);
    assert!(p.all_loaded);
    assert_eq!(p.offset, offset_before);
    assert_eq!(ids(&p), vec!["a", "b", "c", "d", "e"]);
    assert!(p.offset < 5);
}

#[test]
fn initial_page_of_small_view_is_all_loaded() {
    let mut s = Store::new();
    s.upsert_entry(stored("only", 1));
    let p = Pager::initial_page(&s, None, PAGE_SIZE);
    assert_eq!(ids(&p), vec!["only"]);
    assert!(p.all_loaded);

    let empty = Store::new();
    let q = Pager::initial_page(&empty, None, PAGE_SIZE);
    assert!(q.entries.is_empty());
    assert!(q.all_loaded);
}

#[test]
fn reconcile_after_sync_refreshes_window_and_flag() {
    let mut s = five_entry_store();
    let mut p = Pager::initial_page(&s, None, 2);
    p.load_more(&s, None);
    assert_eq!(ids(&p), vec!["a", "b", "c", "d"]);
    // a background cycle adds one newer and one older entry
    s.upsert_entry(stored("newest", 60));
    s.upsert_entry(stored("oldest", 5));
    p.reconcile_after_sync(&s, None);
    // window re-read from the top: offset + page size = 4 entries
    assert_eq!(ids(&p), vec!["newest", "a", "b", "c"]);
    assert_eq!(p.offset, 2);
    assert!(!p.all_loaded);

    p.load_more(&s, None);
    p.load_more(&s, None);
    assert_eq!(ids(&p), vec!["newest", "a", "b", "c", "d", "e", "oldest"]);
    assert!(p.all_loaded);
}

#[test]
fn pager_scoped_to_one_channel() {
    let mut s = five_entry_store();
    let mut other = stored("x", 45);
    other.channel_id = "c2".to_string();
    s.upsert_entry(other);
    let c1 = "c1".to_string();
    let p = Pager::initial_page(&s, Some(&c1), 3);
    assert_eq!(ids(&p), vec!["a", "b", "c"]);
    let c2 = "c2".to_string();
    let q = Pager::initial_page(&s, Some(&c2), 3);
    assert_eq!(ids(&q), vec!["x"]);
    assert!(q.all_loaded);
}

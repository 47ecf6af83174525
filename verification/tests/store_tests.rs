use feedcore::domain::{Channel, Entry};
use feedcore::store::{EntryRecord, Store, StoreReadError, StoredEntry};
use feedcore::store::{decode_entry_row, encode_entry_row};

fn entry(id: &str, title: &str, published: i64) -> Entry {
    Entry {
        id: id.to_string(),
        title: title.to_string(),
        link: format!("http://example.com/{}", id),
        summary: None,
        published,
    }
}

fn channel(id: &str, title: &str, entries: Vec<Entry>) -> Channel {
    Channel { id: id.to_string(), title: title.to_string(), url: id.to_string(), entries }
}

fn stored(id: &str, channel_id: &str, title: &str, published: i64) -> StoredEntry {
    StoredEntry {
        id: id.to_string(),
        channel_id: channel_id.to_string(),
        title: title.to_string(),
        link: format!("http://example.com/{}", id),
        summary: None,
        published,
    }
}

#[test]
fn upsert_same_entry_id_updates_in_place() {
    let mut s = Store::new();
    s.upsert_entry(stored("e1", "c1", "old title", 100));
    s.upsert_entry(stored("e2", "c1", "other", 50));
    s.upsert_entry(stored("e1", "c1", "new title", 200));
    assert_eq!(s.count_entries(None), 2);
    let page = s.page_entries(None, 0, 10);
    assert_eq!(page.len(), 2);
    assert_eq!(page[0].id, "e1");
    assert_eq!(page[0].title, "new title");
    assert_eq!(page[0].published, 200);
    assert_eq!(page[1].id, "e2");
}

#[test]
fn upsert_same_channel_id_keeps_older_entries() {
    let mut s = Store::new();
    let cycle1 = vec![channel("http://c1", "Chan", vec![
        entry("a", "A", 30),
        entry("b", "B", 20),
    ])];
    s.upsert_batch(&cycle1);
    let cycle2 = vec![channel("http://c1", "Chan renamed", vec![entry("c", "C", 10)])];
    s.upsert_batch(&cycle2);
    assert_eq!(s.count_entries(None), 3);
    let cid = "http://c1".to_string();
    assert_eq!(s.count_entries(Some(&cid)), 3);
    let page = s.page_entries(None, 0, 10);
    let ids: Vec<&str> = page.iter().map(|e| e.id.as_str()).collect();
    assert_eq!(ids, vec!["a", "b", "c"]);
    let chans = s.list_channels();
    assert_eq!(chans.len(), 1);
    assert_eq!(chans[0].title, "Chan renamed");
}

#[test]
fn pages_are_newest_first_and_cover_the_view() {
    let mut s = Store::new();
    for (id, ts) in [("a", 50i64), ("b", 40), ("c", 30), ("d", 20), ("e", 10)] {
        s.upsert_entry(stored(id, "c1", id, ts));
    }
    let total = s.count_entries(None);
    assert_eq!(total, 5);
    let full = s.page_entries(None, 0, total);
    let full_ids: Vec<&str> = full.iter().map(|e| e.id.as_str()).collect();
    assert_eq!(full_ids, vec!["a", "b", "c", "d", "e"]);

    let mut concat: Vec<String> = Vec::new();
    let mut offset = 0;
    loop {
        let page = s.page_entries(None, offset, 2);
        if page.is_empty() {
            break;
        }
        concat.extend(page.iter().map(|e| e.id.clone()));
        offset += 2;
    }
    assert_eq!(concat, full_ids);
}

#[test]
fn page_for_one_channel_filters_and_counts() {
    let mut s = Store::new();
    s.upsert_entry(stored("a", "c1", "A", 40));
    s.upsert_entry(stored("b", "c2", "B", 30));
    s.upsert_entry(stored("c", "c1", "C", 20));
    let c1 = "c1".to_string();
    let c2 = "c2".to_string();
    assert_eq!(s.count_entries(Some(&c1)), 2);
    assert_eq!(s.count_entries(Some(&c2)), 1);
    let page = s.page_entries(Some(&c1), 0, 10);
    let ids: Vec<&str> = page.iter().map(|e| e.id.as_str()).collect();
    assert_eq!(ids, vec!["a", "c"]);
    let missing = "nope".to_string();
    assert_eq!(s.count_entries(Some(&missing)), 0);
    assert!(s.page_entries(Some(&missing), 0, 10).is_empty());
}

#[test]
fn channel_list_is_sorted_by_title_then_id() {
    let mut s = Store::new();
    let batch = vec![
        channel("http://z", "beta", vec![]),
        channel("http://y", "alpha", vec![]),
        channel("http://x", "alpha", vec![]),
    ];
    s.upsert_batch(&batch);
    let chans = s.list_channels();
    let pairs: Vec<(&str, &str)> = chans.iter().map(|c| (c.title.as_str(), c.id.as_str())).collect();
    assert_eq!(pairs, vec![("alpha", "http://x"), ("alpha", "http://y"), ("beta", "http://z")]);
    assert!(chans.iter().all(|c| c.entries.is_empty()));
}

#[test]
fn later_write_wins_inside_one_batch() {
    let mut s = Store::new();
    let batch = vec![
        channel("http://c1", "first", vec![entry("dup", "from first", 10)]),
        channel("http://c1", "second", vec![entry("dup", "from second", 20)]),
    ];
    s.upsert_batch(&batch);
    assert_eq!(s.count_entries(None), 1);
    let page = s.page_entries(None, 0, 10);
    assert_eq!(page[0].title, "from second");
    let chans = s.list_channels();
    assert_eq!(chans.len(), 1);
    assert_eq!(chans[0].title, "second");
}

#[test]
fn encode_then_decode_restores_the_row() {
    let row = StoredEntry {
        id: "e1".to_string(),
        channel_id: "c1".to_string(),
        title: "T".to_string(),
        link: "http://example.com/e1".to_string(),
        summary: Some("s".to_string()),
        published: 1704067200,
    };
    let rec = encode_entry_row(&row).expect("in range");
    assert_eq!(rec.published, "2024-01-01T00:00:00+00:00");
    let back = decode_entry_row(&rec).expect("round trip");
    assert_eq!(back.id, "e1");
    assert_eq!(back.channel_id, "c1");
    assert_eq!(back.title, "T");
    assert_eq!(back.summary, Some("s".to_string()));
    assert_eq!(back.published, 1704067200);
}

#[test]
fn entries_with_equal_publish_times_both_stay() {
    let mut s = Store::new();
    s.upsert_entry(stored("a", "c1", "A", 100));
    s.upsert_entry(stored("b", "c1", "B", 100));
    s.upsert_entry(stored("c", "c1", "C", 100));
    assert_eq!(s.count_entries(None), 3);
    let mut ids: Vec<String> = s.page_entries(None, 0, 10).iter().map(|e| e.id.clone()).collect();
    ids.sort();
    assert_eq!(ids, vec!["a", "b", "c"]);
}

#[test]
fn out_of_range_publish_time_cannot_be_encoded() {
    let row = stored("e1", "c1", "T", i64::MAX);
    assert!(encode_entry_row(&row).is_none());
}

#[test]
fn encoding_window_covers_exactly_four_digit_years() {
    // last second of year 9999 round-trips; one second later does not encode
    let last = stored("e1", "c1", "T", 253402300799);
    let rec = encode_entry_row(&last).expect("within window");
    assert_eq!(rec.published, "9999-12-31T23:59:59+00:00");
    let back = decode_entry_row(&rec).expect("round trip");
    assert_eq!(back.published, 253402300799);

    let year_ten_thousand = stored("e2", "c1", "T", 253402300800);
    assert!(encode_entry_row(&year_ten_thousand).is_none());

    // first second of year 0000 round-trips; one second earlier does not
    let first = stored("e3", "c1", "T", -62167219200);
    let rec = encode_entry_row(&first).expect("within window");
    let back = decode_entry_row(&rec).expect("round trip");
    assert_eq!(back.published, -62167219200);
    let before_zero = stored("e4", "c1", "T", -62167219201);
    assert!(encode_entry_row(&before_zero).is_none());
}

#[test]
fn malformed_stored_timestamp_is_a_hard_error() {
    let rec = EntryRecord {
        id: "e1".to_string(),
        channel_id: "c1".to_string(),
        title: "T".to_string(),
        link: "http://example.com/e1".to_string(),
        summary: None,
        published: "not a date".to_string(),
    };
    assert!(matches!(decode_entry_row(&rec), Err(StoreReadError::BadTimestamp)));
}

use feedcore::mapper::{FeedDoc, FeedItem, map_feed, process_feed_bytes};
use feedcore::store::Store;

fn item(guid: &str, title: &str, link: &str, pub_date: &str) -> FeedItem {
    FeedItem {
        guid: some_if(guid),
        title: some_if(title),
        link: some_if(link),
        description: None,
        pub_date: some_if(pub_date),
    }
}

fn some_if(s: &str) -> Option<String> {
    if s.is_empty() { None } else { Some(s.to_string()) }
}

const GOOD_DATE: &str = "Mon, 01 Jan 2024 00:00:00 +0000";
const GOOD_TS: i64 = 1704067200;

#[test]
fn mapper_parses_rfc2822_dates_to_unix_time() {
    let doc = FeedDoc {
        title: "Chan".to_string(),
        items: vec![item("g1", "A", "http://a", GOOD_DATE)],
    };
    let c = map_feed(&"http://src".to_string(), &doc);
    assert_eq!(c.id, "http://src");
    assert_eq!(c.url, "http://src");
    assert_eq!(c.title, "Chan");
    assert_eq!(c.entries.len(), 1);
    assert_eq!(c.entries[0].id, "g1");
    assert_eq!(c.entries[0].published, GOOD_TS);
}

#[test]
fn mapper_drops_items_missing_required_fields() {
    let doc = FeedDoc {
        title: "Chan".to_string(),
        items: vec![
            item("", "no guid", "http://x", GOOD_DATE),
            item("g1", "", "http://x", GOOD_DATE),
            item("g2", "no link", "", GOOD_DATE),
            item("g3", "no date", "http://x", ""),
            item("g4", "bad date", "http://x", "yesterday-ish"),
            item("g5", "good", "http://x", GOOD_DATE),
        ],
    };
    let c = map_feed(&"http://src".to_string(), &doc);
    assert_eq!(c.entries.len(), 1);
    assert_eq!(c.entries[0].id, "g5");
    assert_eq!(c.entries[0].summary, None);
}

#[test]
fn mapper_keeps_optional_summary() {
    let mut it = item("g1", "A", "http://a", GOOD_DATE);
    it.description = Some("the summary".to_string());
    let doc = FeedDoc { title: "Chan".to_string(), items: vec![it] };
    let c = map_feed(&"http://src".to_string(), &doc);
    assert_eq!(c.entries[0].summary, Some("the summary".to_string()));
}

#[test]
fn three_valid_items_and_one_missing_guid_store_three_rows() {
    let doc = FeedDoc {
        title: "Chan".to_string(),
        items: vec![
            item("g1", "A", "http://a", "Mon, 01 Jan 2024 03:00:00 +0000"),
            item("g2", "B", "http://b", "Mon, 01 Jan 2024 02:00:00 +0000"),
            item("", "no guid", "http://x", GOOD_DATE),
            item("g3", "C", "http://c", "Mon, 01 Jan 2024 01:00:00 +0000"),
        ],
    };
    let c = map_feed(&"http://src".to_string(), &doc);
    let mut s = Store::new();
    s.upsert_batch(&vec![c]);
    assert_eq!(s.count_entries(None), 3);
    assert_eq!(s.list_channels().len(), 1);
    let ids: Vec<String> = s.page_entries(None, 0, 10).iter().map(|e| e.id.clone()).collect();
    assert_eq!(ids, vec!["g1", "g2", "g3"]);
}

#[test]
fn well_formed_feed_bytes_parse_and_map() {
    let xml = r#"<?xml version="1.0" encoding="UTF-8"?>
<rss version="2.0"><channel><title>News</title>
<item><guid>id-1</guid><title>First</title><link>http://n/1</link>
<description>d1</description>
<pubDate>Mon, 01 Jan 2024 00:00:00 +0000</pubDate></item>
<item><title>No guid</title><link>http://n/2</link>
<pubDate>Mon, 01 Jan 2024 00:00:00 +0000</pubDate></item>
</channel></rss>"#;
    let bytes = xml.as_bytes().to_vec();
    let c = process_feed_bytes(&"http://feed".to_string(), &bytes).expect("parses");
    assert_eq!(c.id, "http://feed");
    assert_eq!(c.title, "News");
    assert_eq!(c.entries.len(), 1);
    assert_eq!(c.entries[0].id, "id-1");
    assert_eq!(c.entries[0].title, "First");
    assert_eq!(c.entries[0].summary, Some("d1".to_string()));
    assert_eq!(c.entries[0].published, GOOD_TS);
}

#[test]
fn malformed_feed_bytes_yield_no_channel() {
    let bytes = b"this is not xml at all".to_vec();
    assert!(process_feed_bytes(&"http://feed".to_string(), &bytes).is_none());
}

#[test]
fn feed_with_zero_valid_items_is_omitted() {
    // well-formed feed whose only item lacks a guid: the source is dropped
    // from the batch like any other failed source
    let xml = r#"<?xml version="1.0" encoding="UTF-8"?>
<rss version="2.0"><channel><title>News</title>
<item><title>No guid</title><link>http://n/2</link>
<pubDate>Mon, 01 Jan 2024 00:00:00 +0000</pubDate></item>
</channel></rss>"#;
    let bytes = xml.as_bytes().to_vec();
    assert!(process_feed_bytes(&"http://feed".to_string(), &bytes).is_none());
}

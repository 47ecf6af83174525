//! Feed mapper: turns a parsed feed document into a [`Channel`] with its
//! [`Entry`] sequence.
//!
//! An item is kept only if it has a non-empty guid, a non-empty title, a
//! non-empty link, and a publish date in valid RFC 2822 form; a malformed
//! item is dropped silently and never aborts the channel.

use vstd::prelude::*;

use crate::domain::{Channel, ChannelView, Entry, EntryView, clone_opt_string};
use crate::timefmt::rfc2822_ts;
use crate::timefmt::parse_rfc2822;

verus! {

/// Mathematical image of a [`FeedItem`].
pub struct FeedItemView {
    pub guid: Option<Seq<char>>,
    pub title: Option<Seq<char>>,
    pub link: Option<Seq<char>>,
    pub description: Option<Seq<char>>,
    pub pub_date: Option<Seq<char>>,
}

/// One item of a parsed feed document, every field as the document gave it
/// (absent fields are `None`; no validation has happened yet).
pub struct FeedItem {
    pub guid: Option<String>,
    pub title: Option<String>,
    pub link: Option<String>,
    pub description: Option<String>,
    pub pub_date: Option<String>,
}

impl View for FeedItem {
    type V = FeedItemView;

    open spec fn view(&self) -> FeedItemView {
        FeedItemView {
            guid: match self.guid {
                Some(s) => Some(s@),
                None => None,
            },
            title: match self.title {
                Some(s) => Some(s@),
                None => None,
            },
            link: match self.link {
                Some(s) => Some(s@),
                None => None,
            },
            description: match self.description {
                Some(s) => Some(s@),
                None => None,
            },
            pub_date: match self.pub_date {
                Some(s) => Some(s@),
                None => None,
            },
        }
    }
}

impl DeepView for FeedItem {
    type V = FeedItemView;

    open spec fn deep_view(&self) -> FeedItemView {
        self.view()
    }
}

/// Mathematical image of a [`FeedDoc`].
pub struct FeedDocView {
    pub title: Seq<char>,
    pub items: Seq<FeedItemView>,
}

/// A parsed feed document: the channel title (empty where the document gave
/// none) and the raw items in document order.
pub struct FeedDoc {
    pub title: String,
    pub items: Vec<FeedItem>,
}

impl View for FeedDoc {
    type V = FeedDocView;

    open spec fn view(&self) -> FeedDocView {
        FeedDocView { title: self.title@, items: self.items.deep_view() }
    }
}

/// What the feed parser makes of a byte sequence: the document, or `None`
/// where the bytes are not a well-formed feed.
pub uninterp spec fn feed_doc_of(bytes: Seq<u8>) -> Option<FeedDocView>;

/// Relies on rss's `Channel::read_from`: whether the bytes parse, and the
/// document they denote, depend on the bytes alone. The body only copies the
/// parsed fields out.
#[verifier::external_body]
pub(crate) fn parse_feed_bytes(bytes: &Vec<u8>) -> (r: Option<FeedDoc>)
    ensures
        r is Some <==> feed_doc_of(bytes@) is Some,
        r matches Some(d) ==> feed_doc_of(bytes@) == Some(d@),
{
    let ch = rss::Channel::read_from(&bytes[..]).ok()?;
    let items = ch.items().iter().map(|i| FeedItem {
        guid: i.guid().map(|g| g.value().to_string()),
        title: i.title().map(|s| s.to_string()),
        link: i.link().map(|s| s.to_string()),
        description: i.description().map(|s| s.to_string()),
        pub_date: i.pub_date().map(|s| s.to_string()),
    }).collect();
    Some(FeedDoc { title: ch.title().to_string(), items })
}

/// An item qualifies for the store: non-empty guid, title and link, and a
/// publish date in valid RFC 2822 form.
pub open spec fn item_valid(i: FeedItemView) -> bool {
    &&& i.guid matches Some(g) && g.len() > 0
    &&& i.title matches Some(t) && t.len() > 0
    &&& i.link matches Some(l) && l.len() > 0
    &&& i.pub_date matches Some(d) && rfc2822_ts(d) is Some
}

/// The entry a qualifying item maps to.
pub open spec fn entry_of_item(i: FeedItemView) -> EntryView
    recommends
        item_valid(i),
{
    EntryView {
        id: i.guid->0,
        title: i.title->0,
        link: i.link->0,
        summary: i.description,
        published: rfc2822_ts(i.pub_date->0)->0,
    }
}

/// The entries of a document: its qualifying items, in document order.
pub open spec fn map_items(items: Seq<FeedItemView>) -> Seq<EntryView>
    decreases items.len(),
{
    if items.len() == 0 {
        Seq::empty()
    } else {
        let rest = map_items(items.drop_last());
        if item_valid(items.last()) {
            rest.push(entry_of_item(items.last()))
        } else {
            rest
        }
    }
}

/// The channel a document maps to: identity is the source URL, title is the
/// document's, entries are the qualifying items.
pub open spec fn map_feed_spec(url: Seq<char>, d: FeedDocView) -> ChannelView {
    ChannelView { id: url, title: d.title, url: url, entries: map_items(d.items) }
}

/// Converts one raw item, or rejects it; exactly the qualifying items pass.
pub fn convert_item(item: &FeedItem) -> (r: Option<Entry>)
    ensures
        match r {
            Some(e) => item_valid(item@) && e@ == entry_of_item(item@),
            None => !item_valid(item@),
        },
{
    let g = match &item.guid {
        Some(g) => g,
        None => {
            return None;
        },
    };
    if g.as_str().is_empty() {
        return None;
    }
    let t = match &item.title {
        Some(t) => t,
        None => {
            return None;
        },
    };
    if t.as_str().is_empty() {
        return None;
    }
    let l = match &item.link {
        Some(l) => l,
        None => {
            return None;
        },
    };
    if l.as_str().is_empty() {
        return None;
    }
    let d = match &item.pub_date {
        Some(d) => d,
        None => {
            return None;
        },
    };
    let ts = match parse_rfc2822(d.as_str()) {
        Some(t) => t,
        None => {
            return None;
        },
    };
    Some(
        Entry {
            id: g.clone(),
            title: t.clone(),
            link: l.clone(),
            summary: clone_opt_string(&item.description),
            published: ts,
        },
    )
}

/// Maps a parsed document to its channel: `id` and `url` are the source URL,
/// the entries are exactly the qualifying items, in document order.
pub fn map_feed(source_url: &String, doc: &FeedDoc) -> (c: Channel)
    ensures
        c@ == map_feed_spec(source_url@, doc@),
{
    let mut entries: Vec<Entry> = Vec::new();
    let n = doc.items.len();
    let mut i: usize = 0;
    while i < n
        invariant
            i <= n,
            n == doc.items.len(),
            entries.deep_view() == map_items(doc.items.deep_view().take(i as int)),
        decreases n - i,
    {
        let ghost pre = entries.deep_view();
        let ghost items = doc.items.deep_view();
        proof {
            assert(items.take(i + 1).drop_last() =~= items.take(i as int));
            assert(items.take(i + 1).last() == items[i as int]);
        }
        match convert_item(&doc.items[i]) {
            Some(e) => {
                entries.push(e);
                proof {
                    assert(entries.deep_view() =~= pre.push(
                        map_items(items.take(i + 1)).last(),
                    ));
                }
            },
            None => {},
        }
        i = i + 1;
    }
    proof {
        assert(doc.items.deep_view().take(n as int) =~= doc.items.deep_view());
    }
    let c = Channel {
        id: source_url.clone(),
        title: doc.title.clone(),
        url: source_url.clone(),
        entries,
    };
    c
}

/// Processes one fetched body: parse, then map. `None` exactly where the
/// bytes are not a well-formed feed or no item of it qualifies — a source
/// whose mapping yields zero valid entries is omitted from the batch like
/// any other failed source. Otherwise the mapped channel for the source URL,
/// which then carries at least one entry.
pub fn process_feed_bytes(source_url: &String, bytes: &Vec<u8>) -> (r: Option<Channel>)
    ensures
        r is Some <==> (feed_doc_of(bytes@) is Some && map_items(
            feed_doc_of(bytes@)->0.items,
        ).len() > 0),
        r matches Some(c) ==> c@ == map_feed_spec(source_url@, feed_doc_of(bytes@)->0),
{
    match parse_feed_bytes(bytes) {
        Some(doc) => {
            let c = map_feed(source_url, &doc);
            proof {
                assert(c.entries.deep_view().len() == c.entries@.len());
            }
            if c.entries.len() == 0 {
                None
            } else {
                Some(c)
            }
        },
        None => None,
    }
}

} // verus!

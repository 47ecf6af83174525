//! Domain model: a feed source ("channel") and its items ("entries").
//!
//! Publish times are held as Unix timestamps in seconds (UTC); the canonical
//! RFC 3339 text form used by durable storage is produced and consumed in
//! `timefmt`.

use vstd::prelude::*;

verus! {

/// Mathematical image of an [`Entry`].
pub struct EntryView {
    pub id: Seq<char>,
    pub title: Seq<char>,
    pub link: Seq<char>,
    pub summary: Option<Seq<char>>,
    pub published: int,
}

/// One article of a channel. `id` is the feed item's guid; `published` is a
/// Unix timestamp in seconds, UTC.
pub struct Entry {
    pub id: String,
    pub title: String,
    pub link: String,
    pub summary: Option<String>,
    pub published: i64,
}

impl View for Entry {
    type V = EntryView;

    open spec fn view(&self) -> EntryView {
        EntryView {
            id: self.id@,
            title: self.title@,
            link: self.link@,
            summary: match self.summary {
                Some(s) => Some(s@),
                None => None,
            },
            published: self.published as int,
        }
    }
}

impl DeepView for Entry {
    type V = EntryView;

    open spec fn deep_view(&self) -> EntryView {
        self.view()
    }
}

/// Mathematical image of a [`Channel`].
pub struct ChannelView {
    pub id: Seq<char>,
    pub title: Seq<char>,
    pub url: Seq<char>,
    pub entries: Seq<EntryView>,
}

/// One feed source. Its identity is the source URL (`id == url`); `entries`
/// is populated only transiently, by the mapper at fetch time.
pub struct Channel {
    pub id: String,
    pub title: String,
    pub url: String,
    pub entries: Vec<Entry>,
}

impl View for Channel {
    type V = ChannelView;

    open spec fn view(&self) -> ChannelView {
        ChannelView {
            id: self.id@,
            title: self.title@,
            url: self.url@,
            entries: self.entries.deep_view(),
        }
    }
}

impl DeepView for Channel {
    type V = ChannelView;

    open spec fn deep_view(&self) -> ChannelView {
        self.view()
    }
}

/// Copies an optional string; the copy has the same characters.
pub fn clone_opt_string(s: &Option<String>) -> (r: Option<String>)
    ensures
        match (s, r) {
            (Some(a), Some(b)) => a@ == b@,
            (None, None) => true,
            _ => false,
        },
{
    match s {
        Some(a) => Some(a.clone()),
        None => None,
    }
}

/// Copies an entry; the copy has the same view.
pub fn clone_entry(e: &Entry) -> (r: Entry)
    ensures
        r@ == e@,
{
    Entry {
        id: e.id.clone(),
        title: e.title.clone(),
        link: e.link.clone(),
        summary: clone_opt_string(&e.summary),
        published: e.published,
    }
}

/// Copies a channel with its entries; the copy has the same view.
pub fn clone_channel(c: &Channel) -> (r: Channel)
    ensures
        r@ == c@,
{
    let mut entries: Vec<Entry> = Vec::new();
    let n = c.entries.len();
    let mut i: usize = 0;
    while i < n
        invariant
            i <= n,
            n == c.entries.len(),
            entries.deep_view() == c.entries.deep_view().take(i as int),
        decreases n - i,
    {
        let ghost pre = entries.deep_view();
        entries.push(clone_entry(&c.entries[i]));
        proof {
            assert(entries.deep_view() =~= pre.push(c.entries.deep_view()[i as int]));
            assert(c.entries.deep_view().take(i as int + 1) =~= pre.push(
                c.entries.deep_view()[i as int],
            ));
        }
        i = i + 1;
    }
    proof {
        assert(c.entries.deep_view().take(n as int) =~= c.entries.deep_view());
    }
    Channel { id: c.id.clone(), title: c.title.clone(), url: c.url.clone(), entries }
}

} // verus!

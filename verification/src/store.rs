//! The store: keyed, duplicate-free rows for channels and entries, read back
//! as a reverse-chronological page window or as a title-ordered channel list.
//!
//! Channel rows are kept sorted by title (UTF-8 bytes), tie-broken by id, so
//! the listing is deterministic even among equal titles; entry rows are kept
//! sorted by publish time, newest first. Both are keyed: an upsert replaces
//! the row with the same id and never touches any other row.

use vstd::prelude::*;
use vstd::utf8::encode_utf8;

use crate::domain::{Channel, ChannelView, Entry, EntryView, clone_opt_string};
use crate::order::{bytes_le, lemma_lex_antisym, lemma_lex_total, lemma_lex_trans, lex_le};
use crate::timefmt::{format_rfc3339, parse_rfc3339, rfc3339_encodable, rfc3339_text, rfc3339_ts};

verus! {

/// Mathematical image of a [`StoredEntry`].
pub struct StoredEntryView {
    pub id: Seq<char>,
    pub channel_id: Seq<char>,
    pub title: Seq<char>,
    pub link: Seq<char>,
    pub summary: Option<Seq<char>>,
    pub published: int,
}

/// One persisted entry row; `channel_id` names the channel the entry was
/// fetched under.
pub struct StoredEntry {
    pub id: String,
    pub channel_id: String,
    pub title: String,
    pub link: String,
    pub summary: Option<String>,
    pub published: i64,
}

impl View for StoredEntry {
    type V = StoredEntryView;

    open spec fn view(&self) -> StoredEntryView {
        StoredEntryView {
            id: self.id@,
            channel_id: self.channel_id@,
            title: self.title@,
            link: self.link@,
            summary: match self.summary {
                Some(s) => Some(s@),
                None => None,
            },
            published: self.published as int,
        }
    }
}

impl DeepView for StoredEntry {
    type V = StoredEntryView;

    open spec fn deep_view(&self) -> StoredEntryView {
        self.view()
    }
}

/// Mathematical image of a [`ChannelRow`].
pub struct ChannelRowView {
    pub id: Seq<char>,
    pub title: Seq<char>,
    pub url: Seq<char>,
}

/// One persisted channel row (no entries nest under it).
pub struct ChannelRow {
    pub id: String,
    pub title: String,
    pub url: String,
}

impl View for ChannelRow {
    type V = ChannelRowView;

    open spec fn view(&self) -> ChannelRowView {
        ChannelRowView { id: self.id@, title: self.title@, url: self.url@ }
    }
}

impl DeepView for ChannelRow {
    type V = ChannelRowView;

    open spec fn deep_view(&self) -> ChannelRowView {
        self.view()
    }
}

/// Channel listing order: title first (UTF-8 bytes), id as tie-break.
pub open spec fn chan_le(a: ChannelRowView, b: ChannelRowView) -> bool {
    if encode_utf8(a.title) == encode_utf8(b.title) {
        lex_le(encode_utf8(a.id), encode_utf8(b.id))
    } else {
        lex_le(encode_utf8(a.title), encode_utf8(b.title))
    }
}

/// The channel order is total.
pub proof fn lemma_chan_le_total(a: ChannelRowView, b: ChannelRowView)
    ensures
        chan_le(a, b) || chan_le(b, a),
{
    if encode_utf8(a.title) == encode_utf8(b.title) {
        lemma_lex_total(encode_utf8(a.id), encode_utf8(b.id));
    } else {
        lemma_lex_total(encode_utf8(a.title), encode_utf8(b.title));
    }
}

/// The channel order is transitive.
pub proof fn lemma_chan_le_trans(a: ChannelRowView, b: ChannelRowView, c: ChannelRowView)
    requires
        chan_le(a, b),
        chan_le(b, c),
    ensures
        chan_le(a, c),
{
    let ta = encode_utf8(a.title);
    let tb = encode_utf8(b.title);
    let tc = encode_utf8(c.title);
    if ta == tb && tb == tc {
        lemma_lex_trans(encode_utf8(a.id), encode_utf8(b.id), encode_utf8(c.id));
    } else if ta == tb {
        assert(ta != tc);
    } else if tb == tc {
        assert(ta != tc);
    } else {
        lemma_lex_trans(ta, tb, tc);
        if ta == tc {
            lemma_lex_antisym(ta, tb);
            assert(false);
        }
    }
}

/// No two entry rows share an id.
pub open spec fn entry_ids_unique(s: Seq<StoredEntryView>) -> bool {
    forall|i: int, j: int| 0 <= i < j < s.len() ==> s[i].id != s[j].id
}

/// Entry rows are ordered by publish time, newest first.
pub open spec fn entries_sorted(s: Seq<StoredEntryView>) -> bool {
    forall|i: int, j: int| 0 <= i < j < s.len() ==> s[i].published >= s[j].published
}

/// No two channel rows share an id.
pub open spec fn chan_ids_unique(s: Seq<ChannelRowView>) -> bool {
    forall|i: int, j: int| 0 <= i < j < s.len() ==> s[i].id != s[j].id
}

/// Channel rows are ordered by title, tie-broken by id.
pub open spec fn chans_sorted(s: Seq<ChannelRowView>) -> bool {
    forall|i: int, j: int| 0 <= i < j < s.len() ==> chan_le(s[i], s[j])
}

/// Some entry row has this id.
pub open spec fn has_row(s: Seq<StoredEntryView>, id: Seq<char>) -> bool {
    exists|i: int| 0 <= i < s.len() && (#[trigger] s[i]).id == id
}

/// Index of the entry row with this id (meaningful under `has_row`).
pub open spec fn row_index(s: Seq<StoredEntryView>, id: Seq<char>) -> int {
    choose|i: int| 0 <= i < s.len() && (#[trigger] s[i]).id == id
}

/// The entry row with this id, if any.
pub open spec fn entry_lookup(s: Seq<StoredEntryView>, id: Seq<char>) -> Option<StoredEntryView> {
    if has_row(s, id) {
        Some(s[row_index(s, id)])
    } else {
        None
    }
}

/// Some channel row has this id.
pub open spec fn chan_has(s: Seq<ChannelRowView>, id: Seq<char>) -> bool {
    exists|i: int| 0 <= i < s.len() && (#[trigger] s[i]).id == id
}

/// Index of the channel row with this id (meaningful under `chan_has`).
pub open spec fn chan_index(s: Seq<ChannelRowView>, id: Seq<char>) -> int {
    choose|i: int| 0 <= i < s.len() && (#[trigger] s[i]).id == id
}

/// The channel row with this id, if any.
pub open spec fn chan_lookup(s: Seq<ChannelRowView>, id: Seq<char>) -> Option<ChannelRowView> {
    if chan_has(s, id) {
        Some(s[chan_index(s, id)])
    } else {
        None
    }
}

/// Under unique ids, a row at a witnessing index is the looked-up row.
pub proof fn lemma_entry_lookup_some(s: Seq<StoredEntryView>, id: Seq<char>, k: int)
    requires
        entry_ids_unique(s),
        0 <= k < s.len(),
        s[k].id == id,
    ensures
        entry_lookup(s, id) == Some(s[k]),
{
    assert(has_row(s, id));
    let i = row_index(s, id);
    assert(0 <= i < s.len() && s[i].id == id);
    if i != k {
        if i < k {
            assert(s[i].id != s[k].id);
        } else {
            assert(s[k].id != s[i].id);
        }
        assert(false);
    }
}

/// Where no row has the id, the lookup is empty.
pub proof fn lemma_entry_lookup_none(s: Seq<StoredEntryView>, id: Seq<char>)
    requires
        forall|k: int| 0 <= k < s.len() ==> (#[trigger] s[k]).id != id,
    ensures
        entry_lookup(s, id) == None::<StoredEntryView>,
{
    if has_row(s, id) {
        let i = choose|i: int| 0 <= i < s.len() && (#[trigger] s[i]).id == id;
        assert(s[i].id != id);
    }
}

/// Under unique ids, a channel row at a witnessing index is the looked-up row.
pub proof fn lemma_chan_lookup_some(s: Seq<ChannelRowView>, id: Seq<char>, k: int)
    requires
        chan_ids_unique(s),
        0 <= k < s.len(),
        s[k].id == id,
    ensures
        chan_lookup(s, id) == Some(s[k]),
{
    assert(chan_has(s, id));
    let i = chan_index(s, id);
    assert(0 <= i < s.len() && s[i].id == id);
    if i != k {
        if i < k {
            assert(s[i].id != s[k].id);
        } else {
            assert(s[k].id != s[i].id);
        }
        assert(false);
    }
}

/// Where no channel row has the id, the lookup is empty.
pub proof fn lemma_chan_lookup_none(s: Seq<ChannelRowView>, id: Seq<char>)
    requires
        forall|k: int| 0 <= k < s.len() ==> (#[trigger] s[k]).id != id,
    ensures
        chan_lookup(s, id) == None::<ChannelRowView>,
{
    if chan_has(s, id) {
        let i = choose|i: int| 0 <= i < s.len() && (#[trigger] s[i]).id == id;
        assert(s[i].id != id);
    }
}

/// The entry row a fetched entry of channel `cid` is stored as.
pub open spec fn stored_of(e: EntryView, cid: Seq<char>) -> StoredEntryView {
    StoredEntryView {
        id: e.id,
        channel_id: cid,
        title: e.title,
        link: e.link,
        summary: e.summary,
        published: e.published,
    }
}

/// The channel row a fetched channel is stored as.
pub open spec fn crow_of(c: ChannelView) -> ChannelRowView {
    ChannelRowView { id: c.id, title: c.title, url: c.url }
}

/// The row that upserting the entries of one channel leaves under `id`:
/// the channel's last entry with that id, or nothing.
pub open spec fn entries_rev_lookup(
    es: Seq<EntryView>,
    cid: Seq<char>,
    id: Seq<char>,
) -> Option<StoredEntryView>
    decreases es.len(),
{
    if es.len() == 0 {
        None
    } else if es.last().id == id {
        Some(stored_of(es.last(), cid))
    } else {
        entries_rev_lookup(es.drop_last(), cid, id)
    }
}

/// The entry row that upserting a whole batch leaves under `id`: the last
/// write wins, across channels and within each channel's entry list.
pub open spec fn batch_entry_lookup(chs: Seq<ChannelView>, id: Seq<char>) -> Option<
    StoredEntryView,
>
    decreases chs.len(),
{
    if chs.len() == 0 {
        None
    } else {
        match entries_rev_lookup(chs.last().entries, chs.last().id, id) {
            Some(r) => Some(r),
            None => batch_entry_lookup(chs.drop_last(), id),
        }
    }
}

/// The channel row that upserting a whole batch leaves under `id`: the last
/// channel with that id wins.
pub open spec fn batch_chan_lookup(chs: Seq<ChannelView>, id: Seq<char>) -> Option<ChannelRowView>
    decreases chs.len(),
{
    if chs.len() == 0 {
        None
    } else if chs.last().id == id {
        Some(crow_of(chs.last()))
    } else {
        batch_chan_lookup(chs.drop_last(), id)
    }
}

/// Whether an entry row belongs to a view: the global one (`None`) or one
/// channel's.
pub open spec fn in_view(r: StoredEntryView, cid: Option<Seq<char>>) -> bool {
    match cid {
        None => true,
        Some(c) => r.channel_id == c,
    }
}

/// The rows of a view, in store order (newest first).
pub open spec fn rows_for(s: Seq<StoredEntryView>, cid: Option<Seq<char>>) -> Seq<StoredEntryView>
    decreases s.len(),
{
    if s.len() == 0 {
        s
    } else {
        let rest = rows_for(s.drop_last(), cid);
        if in_view(s.last(), cid) {
            rest.push(s.last())
        } else {
            rest
        }
    }
}

/// `x`, clipped from above to `n`.
pub open spec fn clip(x: int, n: int) -> int {
    if x <= n {
        x
    } else {
        n
    }
}

/// The offset/limit window of a view: rows `off .. off+lim`, clipped to the
/// view's length.
pub open spec fn page_of(f: Seq<StoredEntryView>, off: int, lim: int) -> Seq<StoredEntryView>
    recommends
        0 <= off,
        0 <= lim,
{
    f.subrange(clip(off, f.len() as int), clip(off + lim, f.len() as int))
}

/// The entry a stored row reads back as.
pub open spec fn entry_of_row(r: StoredEntryView) -> EntryView {
    EntryView {
        id: r.id,
        title: r.title,
        link: r.link,
        summary: r.summary,
        published: r.published,
    }
}

/// The channel a stored channel row reads back as (entries do not nest).
pub open spec fn chan_of_row(c: ChannelRowView) -> ChannelView {
    ChannelView { id: c.id, title: c.title, url: c.url, entries: Seq::empty() }
}

/// The view selector an optional channel id denotes.
pub open spec fn cid_view(c: Option<&String>) -> Option<Seq<char>> {
    match c {
        Some(s) => Some(s@),
        None => None,
    }
}

/// The first `n` successive pages of a view, concatenated.
pub open spec fn pages_concat(f: Seq<StoredEntryView>, lim: int, n: int) -> Seq<StoredEntryView>
    decreases n,
{
    if n <= 0 {
        Seq::empty()
    } else {
        pages_concat(f, lim, n - 1) + page_of(f, (n - 1) * lim, lim)
    }
}

/// Law: concatenating the first `n` successive pages of a view yields
/// exactly its first `n * lim` rows — no duplicate, no omission, in view
/// order.
pub proof fn lemma_pages_cover(f: Seq<StoredEntryView>, lim: int, n: int)
    requires
        lim >= 1,
        n >= 0,
    ensures
        pages_concat(f, lim, n) == f.take(clip(n * lim, f.len() as int)),
    decreases n,
{
    let len = f.len() as int;
    if n == 0 {
        assert(pages_concat(f, lim, 0) =~= f.take(clip(0 * lim, len)));
    } else {
        lemma_pages_cover(f, lim, n - 1);
        assert((n - 1) * lim + lim == n * lim) by (nonlinear_arith);
        assert((n - 1) * lim >= 0 && (n - 1) * lim <= n * lim) by (nonlinear_arith)
            requires
                lim >= 1,
                n >= 1,
        ;
        assert(pages_concat(f, lim, n) =~= f.take(clip(n * lim, len)));
    }
}

/// Law: a page is empty exactly where its offset lies at or past the end of
/// the view.
pub proof fn lemma_page_empty_iff(f: Seq<StoredEntryView>, off: int, lim: int)
    requires
        off >= 0,
        lim >= 1,
    ensures
        page_of(f, off, lim).len() == 0 <==> off >= f.len(),
{
}

/// Law: once enough pages have been read that the next one would be empty,
/// their concatenation is the whole view — the same rows, in the same
/// newest-first order, that one read of the full view returns.
pub proof fn lemma_pagination_complete(f: Seq<StoredEntryView>, lim: int, n: int)
    requires
        lim >= 1,
        n >= 0,
        n * lim >= f.len(),
    ensures
        pages_concat(f, lim, n) == page_of(f, 0, f.len() as int),
        pages_concat(f, lim, n) == f,
{
    lemma_pages_cover(f, lim, n);
    assert(f.take(clip(n * lim, f.len() as int)) =~= f);
    assert(page_of(f, 0, f.len() as int) =~= f);
}

/// Law: a well-formed store never holds two entry rows, nor two channel
/// rows, with the same id — an upsert can only replace, never duplicate.
pub proof fn lemma_store_keys_unique(s: Store)
    requires
        s.wf(),
    ensures
        entry_ids_unique(s.erows()),
        chan_ids_unique(s.crows()),
{
}

/// One persisted entry row in its durable text form: the publish time as
/// canonical RFC 3339 text, everything else as it stands in the store.
pub struct EntryRecord {
    pub id: String,
    pub channel_id: String,
    pub title: String,
    pub link: String,
    pub summary: Option<String>,
    pub published: String,
}

/// Why reading a persisted row back can fail.
#[derive(Clone, Copy, PartialEq, Eq, Structural, Debug)]
pub enum StoreReadError {
    /// The stored publish time is not valid RFC 3339 text. The row — and
    /// with it the whole page read — is a hard error, not a silent skip.
    BadTimestamp,
}

/// Encodes an entry row for durable storage. `None` exactly where the
/// publish time lies outside the four-digit-year window, whose rendering
/// would not read back; otherwise the record carries the same fields, with
/// the publish time as canonical, round-trippable RFC 3339 text.
pub fn encode_entry_row(e: &StoredEntry) -> (r: Option<EntryRecord>)
    ensures
        r is Some <==> rfc3339_encodable(e@.published),
        r matches Some(rec) ==> ({
            &&& rec.id@ == e@.id
            &&& rec.channel_id@ == e@.channel_id
            &&& rec.title@ == e@.title
            &&& rec.link@ == e@.link
            &&& (match rec.summary {
                Some(s) => e@.summary == Some(s@),
                None => e@.summary is None,
            })
            &&& rec.published@ == rfc3339_text(e@.published)->0
            &&& rfc3339_ts(rec.published@) == Some(e@.published)
        }),
{
    if e.published < -62167219200i64 || e.published > 253402300799i64 {
        return None;
    }
    let text = format_rfc3339(e.published).unwrap();
    Some(
        EntryRecord {
            id: e.id.clone(),
            channel_id: e.channel_id.clone(),
            title: e.title.clone(),
            link: e.link.clone(),
            summary: clone_opt_string(&e.summary),
            published: text,
        },
    )
}

/// Decodes one persisted entry row. The publish time must parse as RFC 3339
/// text; a malformed one fails the row with [`StoreReadError::BadTimestamp`],
/// and exactly then. Decoding a record that `encode_entry_row` produced
/// restores the row.
pub fn decode_entry_row(rec: &EntryRecord) -> (r: Result<StoredEntry, StoreReadError>)
    ensures
        r is Ok <==> rfc3339_ts(rec.published@) is Some,
        r matches Ok(e) ==> ({
            &&& e@.id == rec.id@
            &&& e@.channel_id == rec.channel_id@
            &&& e@.title == rec.title@
            &&& e@.link == rec.link@
            &&& (match rec.summary {
                Some(s) => e@.summary == Some(s@),
                None => e@.summary is None,
            })
            &&& Some(e@.published) == rfc3339_ts(rec.published@)
        }),
        r matches Err(err) ==> err == StoreReadError::BadTimestamp,
{
    match parse_rfc3339(rec.published.as_str()) {
        Some(ts) => Ok(
            StoredEntry {
                id: rec.id.clone(),
                channel_id: rec.channel_id.clone(),
                title: rec.title.clone(),
                link: rec.link.clone(),
                summary: clone_opt_string(&rec.summary),
                published: ts,
            },
        ),
        None => Err(StoreReadError::BadTimestamp),
    }
}

/// Reads one stored entry row back as an entry.
fn entry_from_row(r: &StoredEntry) -> (e: Entry)
    ensures
        e@ == entry_of_row(r@),
{
    Entry {
        id: r.id.clone(),
        title: r.title.clone(),
        link: r.link.clone(),
        summary: clone_opt_string(&r.summary),
        published: r.published,
    }
}

/// Decides the channel listing order on two rows.
fn chan_row_le(a: &ChannelRow, b: &ChannelRow) -> (r: bool)
    ensures
        r == chan_le(a@, b@),
{
    let at = a.title.as_str().as_bytes();
    let bt = b.title.as_str().as_bytes();
    let le_ab = bytes_le(at, bt);
    let le_ba = bytes_le(bt, at);
    if le_ab && le_ba {
        proof {
            lemma_lex_antisym(at@, bt@);
        }
        bytes_le(a.id.as_str().as_bytes(), b.id.as_str().as_bytes())
    } else {
        proof {
            if at@ == bt@ {
                lemma_lex_total(at@, at@);
                assert(false);
            }
        }
        le_ab
    }
}

/// The keyed store of channel and entry rows.
pub struct Store {
    channels: Vec<ChannelRow>,
    entries: Vec<StoredEntry>,
}

impl Store {
    /// The entry rows, newest first.
    pub closed spec fn erows(self) -> Seq<StoredEntryView> {
        self.entries.deep_view()
    }

    /// The channel rows, in listing order.
    pub closed spec fn crows(self) -> Seq<ChannelRowView> {
        self.channels.deep_view()
    }

    /// Well-formedness: both tables are keyed (unique ids) and sorted.
    pub open spec fn wf(self) -> bool {
        &&& entry_ids_unique(self.erows())
        &&& entries_sorted(self.erows())
        &&& chan_ids_unique(self.crows())
        &&& chans_sorted(self.crows())
    }

    /// An empty store.
    pub fn new() -> (s: Store)
        ensures
            s.wf(),
            s.erows().len() == 0,
            s.crows().len() == 0,
    {
        let s = Store { channels: Vec::new(), entries: Vec::new() };
        proof {
            assert(s.erows() =~= Seq::<StoredEntryView>::empty());
            assert(s.crows() =~= Seq::<ChannelRowView>::empty());
        }
        s
    }

    /// Inserts or replaces the entry row keyed `e.id`: afterwards that key
    /// holds exactly `e`'s fields, and every other key holds what it held
    /// before. The store stays keyed and sorted; channel rows are untouched.
    #[verifier::rlimit(80)]
    pub fn upsert_entry(&mut self, e: StoredEntry)
        requires
            old(self).wf(),
        ensures
            final(self).wf(),
            final(self).crows() == old(self).crows(),
            entry_lookup(final(self).erows(), e@.id) == Some(e@),
            forall|id: Seq<char>|
                id != e@.id ==> entry_lookup(final(self).erows(), id) == entry_lookup(
                    old(self).erows(),
                    id,
                ),
            final(self).erows().len() == old(self).erows().len() + (if has_row(
                old(self).erows(),
                e@.id,
            ) {
                0int
            } else {
                1int
            }),
    {
        let ghost s0 = self.erows();
        let n = self.entries.len();
        let mut i: usize = 0;
        let mut found = false;
        while i < n && !found
            invariant
                self.channels@ == old(self).channels@,
                self.entries@ == old(self).entries@,
                s0 == self.erows(),
                n == self.entries.len(),
                i <= n,
                found ==> i < n && s0[i as int].id == e@.id,
                !found ==> forall|k: int| 0 <= k < i ==> s0[k].id != e@.id,
            decreases n - i + (if found {
                0int
            } else {
                1int
            }),
        {
            if self.entries[i].id == e.id {
                found = true;
            } else {
                i = i + 1;
            }
        }
        let ghost had = found;
        let ghost ri = i as int;
        if found {
            self.entries.remove(i);
        }
        let ghost mid = self.erows();
        proof {
            if had {
                old(self).entries@.remove_ensures(ri);
                assert forall|k: int| 0 <= k < mid.len() implies #[trigger] mid[k] == (if k < ri {
                    s0[k]
                } else {
                    s0[k + 1]
                }) by {
                    if k < ri {
                        assert(self.entries@[k] == old(self).entries@[k]);
                    } else {
                        assert(self.entries@[k] == old(self).entries@[k + 1]);
                    }
                }
                assert(mid.len() == s0.len() - 1);
            } else {
                assert(mid =~= s0);
            }
            // no row of `mid` carries e's id
            assert forall|k: int| 0 <= k < mid.len() implies (#[trigger] mid[k]).id != e@.id by {
                if had {
                    if k < ri {
                        assert(mid[k] == s0[k]);
                        assert(s0[k].id != e@.id);
                    } else {
                        assert(mid[k] == s0[k + 1]);
                        assert(s0[ri].id != s0[k + 1].id);
                    }
                } else {
                    assert(mid[k] == s0[k]);
                }
            }
            // mid stays keyed and sorted
            assert forall|a: int, b: int| 0 <= a < b < mid.len() implies (#[trigger] mid[a]).id
                != (#[trigger] mid[b]).id && mid[a].published >= mid[b].published by {
                let a0 = if had && a >= ri {
                    a + 1
                } else {
                    a
                };
                let b0 = if had && b >= ri {
                    b + 1
                } else {
                    b
                };
                assert(mid[a] == s0[a0]);
                assert(mid[b] == s0[b0]);
                assert(s0[a0].id != s0[b0].id);
            }
            // every surviving row of s0 stands in mid
            assert forall|k0: int|
                0 <= k0 < s0.len() && (#[trigger] s0[k0]).id != e@.id implies exists|k: int|
                0 <= k < mid.len() && #[trigger] mid[k] == s0[k0] by {
                if had {
                    if k0 < ri {
                        assert(mid[k0] == s0[k0]);
                    } else {
                        assert(k0 != ri);
                        assert(mid[k0 - 1] == s0[k0]);
                    }
                } else {
                    assert(mid[k0] == s0[k0]);
                }
            }
        }
        // sorted insertion, newest first
        let m = self.entries.len();
        let mut j: usize = 0;
        while j < m && self.entries[j].published >= e.published
            invariant
                self.channels@ == old(self).channels@,
                mid == self.erows(),
                m == self.entries.len(),
                j <= m,
                forall|k: int| 0 <= k < j ==> mid[k].published >= e@.published,
            decreases m - j,
        {
            j = j + 1;
        }
        assert(j < m ==> mid[j as int].published < e@.published);
        let ghost pre = self.entries@;
        self.entries.insert(j, e);
        proof {
            let jj = j as int;
            let fin = self.erows();
            pre.insert_ensures(jj, e);
            assert(fin.len() == mid.len() + 1);
            assert forall|k: int| 0 <= k < jj implies #[trigger] fin[k] == mid[k] by {
                assert(self.entries@[k] == pre[k]);
            }
            assert(fin[jj] == e@) by {
                assert(self.entries@[jj] == e);
            }
            assert forall|k: int| jj <= k < mid.len() implies #[trigger] fin[k + 1] == mid[k] by {
                assert(self.entries@[k + 1] == pre[k]);
            }
            // the new table is keyed and sorted
            assert forall|a: int, b: int| 0 <= a < b < fin.len() implies (#[trigger] fin[a]).id
                != (#[trigger] fin[b]).id && fin[a].published >= fin[b].published by {
                if b < jj {
                    assert(fin[a] == mid[a] && fin[b] == mid[b]);
                } else if a < jj && b == jj {
                    assert(fin[a] == mid[a] && fin[b] == e@);
                    assert(mid[a].published >= e@.published);
                    assert(mid[a].id != e@.id);
                } else if a < jj && b > jj {
                    assert(fin[a] == mid[a] && fin[b] == mid[b - 1]);
                    if a < b - 1 {
                        assert(mid[a].published >= mid[b - 1].published);
                    }
                } else if a == jj {
                    assert(fin[a] == e@ && fin[b] == mid[b - 1]);
                    assert(mid[jj].published < e@.published);
                    if jj < b - 1 {
                        assert(mid[jj].published >= mid[b - 1].published);
                    }
                    assert(mid[b - 1].id != e@.id);
                } else {
                    assert(fin[a] == mid[a - 1] && fin[b] == mid[b - 1]);
                }
            }
            // the key now holds exactly e
            lemma_entry_lookup_some(fin, e@.id, jj);
            // every other key holds what it held before
            assert forall|id: Seq<char>| id != e@.id implies #[trigger] entry_lookup(fin, id)
                == entry_lookup(s0, id) by {
                if has_row(s0, id) {
                    let k0 = row_index(s0, id);
                    assert(0 <= k0 < s0.len() && s0[k0].id == id);
                    lemma_entry_lookup_some(s0, id, k0);
                    let k = choose|k: int| 0 <= k < mid.len() && #[trigger] mid[k] == s0[k0];
                    assert(0 <= k < mid.len() && mid[k] == s0[k0]);
                    let kf = if k < jj {
                        k
                    } else {
                        k + 1
                    };
                    assert(fin[kf] == mid[k]);
                    lemma_entry_lookup_some(fin, id, kf);
                } else {
                    assert forall|k: int| 0 <= k < fin.len() implies (#[trigger] fin[k]).id
                        != id by {
                        if k == jj {
                            assert(fin[k] == e@);
                        } else {
                            let km = if k < jj {
                                k
                            } else {
                                k - 1
                            };
                            assert(fin[k] == mid[km]);
                            let k0 = if had && km >= ri {
                                km + 1
                            } else {
                                km
                            };
                            assert(mid[km] == s0[k0]);
                            assert(!(0 <= k0 < s0.len() && s0[k0].id == id));
                        }
                    }
                    lemma_entry_lookup_none(fin, id);
                    lemma_entry_lookup_none(s0, id);
                }
            }
            // size accounting
            if had {
                assert(has_row(s0, e@.id)) by {
                    assert(s0[ri].id == e@.id);
                }
            } else {
                assert(!has_row(s0, e@.id)) by {
                    if has_row(s0, e@.id) {
                        let w = choose|w: int| 0 <= w < s0.len() && (#[trigger] s0[w]).id == e@.id;
                        assert(s0[w].id != e@.id);
                    }
                }
            }
            // channel rows are untouched
            assert(self.crows() =~= old(self).crows());
        }
    }

    /// Inserts or replaces the channel row keyed `c.id`: afterwards that key
    /// holds exactly `c`'s fields, and every other key holds what it held
    /// before. The listing order is kept; entry rows are untouched.
    #[verifier::rlimit(80)]
    pub fn upsert_channel(&mut self, c: ChannelRow)
        requires
            old(self).wf(),
        ensures
            final(self).wf(),
            final(self).erows() == old(self).erows(),
            chan_lookup(final(self).crows(), c@.id) == Some(c@),
            forall|id: Seq<char>|
                id != c@.id ==> chan_lookup(final(self).crows(), id) == chan_lookup(
                    old(self).crows(),
                    id,
                ),
            final(self).crows().len() == old(self).crows().len() + (if chan_has(
                old(self).crows(),
                c@.id,
            ) {
                0int
            } else {
                1int
            }),
    {
        let ghost s0 = self.crows();
        let n = self.channels.len();
        let mut i: usize = 0;
        let mut found = false;
        while i < n && !found
            invariant
                self.channels@ == old(self).channels@,
                self.entries@ == old(self).entries@,
                s0 == self.crows(),
                n == self.channels.len(),
                i <= n,
                found ==> i < n && s0[i as int].id == c@.id,
                !found ==> forall|k: int| 0 <= k < i ==> s0[k].id != c@.id,
            decreases n - i + (if found {
                0int
            } else {
                1int
            }),
        {
            if self.channels[i].id == c.id {
                found = true;
            } else {
                i = i + 1;
            }
        }
        let ghost had = found;
        let ghost ri = i as int;
        if found {
            self.channels.remove(i);
        }
        let ghost mid = self.crows();
        proof {
            if had {
                old(self).channels@.remove_ensures(ri);
                assert forall|k: int| 0 <= k < mid.len() implies #[trigger] mid[k] == (if k < ri {
                    s0[k]
                } else {
                    s0[k + 1]
                }) by {
                    if k < ri {
                        assert(self.channels@[k] == old(self).channels@[k]);
                    } else {
                        assert(self.channels@[k] == old(self).channels@[k + 1]);
                    }
                }
                assert(mid.len() == s0.len() - 1);
            } else {
                assert(mid =~= s0);
            }
            assert forall|k: int| 0 <= k < mid.len() implies (#[trigger] mid[k]).id != c@.id by {
                if had {
                    if k < ri {
                        assert(mid[k] == s0[k]);
                        assert(s0[k].id != c@.id);
                    } else {
                        assert(mid[k] == s0[k + 1]);
                        assert(s0[ri].id != s0[k + 1].id);
                    }
                } else {
                    assert(mid[k] == s0[k]);
                }
            }
            assert forall|a: int, b: int| 0 <= a < b < mid.len() implies (#[trigger] mid[a]).id
                != (#[trigger] mid[b]).id && chan_le(mid[a], mid[b]) by {
                let a0 = if had && a >= ri {
                    a + 1
                } else {
                    a
                };
                let b0 = if had && b >= ri {
                    b + 1
                } else {
                    b
                };
                assert(mid[a] == s0[a0]);
                assert(mid[b] == s0[b0]);
                assert(s0[a0].id != s0[b0].id);
                assert(chan_le(s0[a0], s0[b0]));
            }
            assert forall|k0: int|
                0 <= k0 < s0.len() && (#[trigger] s0[k0]).id != c@.id implies exists|k: int|
                0 <= k < mid.len() && #[trigger] mid[k] == s0[k0] by {
                if had {
                    if k0 < ri {
                        assert(mid[k0] == s0[k0]);
                    } else {
                        assert(k0 != ri);
                        assert(mid[k0 - 1] == s0[k0]);
                    }
                } else {
                    assert(mid[k0] == s0[k0]);
                }
            }
        }
        // sorted insertion in listing order
        let m = self.channels.len();
        let mut j: usize = 0;
        while j < m && chan_row_le(&self.channels[j], &c)
            invariant
                self.entries@ == old(self).entries@,
                mid == self.crows(),
                m == self.channels.len(),
                j <= m,
                forall|k: int| 0 <= k < j ==> chan_le(mid[k], c@),
            decreases m - j,
        {
            j = j + 1;
        }
        proof {
            if j < m {
                lemma_chan_le_total(mid[j as int], c@);
                assert(chan_le(c@, mid[j as int]));
            }
        }
        let ghost pre = self.channels@;
        self.channels.insert(j, c);
        proof {
            let jj = j as int;
            let fin = self.crows();
            pre.insert_ensures(jj, c);
            assert(fin.len() == mid.len() + 1);
            assert forall|k: int| 0 <= k < jj implies #[trigger] fin[k] == mid[k] by {
                assert(self.channels@[k] == pre[k]);
            }
            assert(fin[jj] == c@) by {
                assert(self.channels@[jj] == c);
            }
            assert forall|k: int| jj <= k < mid.len() implies #[trigger] fin[k + 1] == mid[k] by {
                assert(self.channels@[k + 1] == pre[k]);
            }
            assert forall|a: int, b: int| 0 <= a < b < fin.len() implies (#[trigger] fin[a]).id
                != (#[trigger] fin[b]).id && chan_le(fin[a], fin[b]) by {
                if b < jj {
                    assert(fin[a] == mid[a] && fin[b] == mid[b]);
                } else if a < jj && b == jj {
                    assert(fin[a] == mid[a] && fin[b] == c@);
                    assert(chan_le(mid[a], c@));
                    assert(mid[a].id != c@.id);
                } else if a < jj && b > jj {
                    assert(fin[a] == mid[a] && fin[b] == mid[b - 1]);
                    if a < b - 1 {
                        assert(chan_le(mid[a], mid[b - 1]));
                    } else {
                        assert(chan_le(mid[a], c@));
                        assert(false);
                    }
                } else if a == jj {
                    assert(fin[a] == c@ && fin[b] == mid[b - 1]);
                    assert(chan_le(c@, mid[jj]));
                    if jj < b - 1 {
                        assert(chan_le(mid[jj], mid[b - 1]));
                        lemma_chan_le_trans(c@, mid[jj], mid[b - 1]);
                    }
                    assert(mid[b - 1].id != c@.id);
                } else {
                    assert(fin[a] == mid[a - 1] && fin[b] == mid[b - 1]);
                }
            }
            lemma_chan_lookup_some(fin, c@.id, jj);
            assert forall|id: Seq<char>| id != c@.id implies #[trigger] chan_lookup(fin, id)
                == chan_lookup(s0, id) by {
                if chan_has(s0, id) {
                    let k0 = chan_index(s0, id);
                    assert(0 <= k0 < s0.len() && s0[k0].id == id);
                    lemma_chan_lookup_some(s0, id, k0);
                    let k = choose|k: int| 0 <= k < mid.len() && #[trigger] mid[k] == s0[k0];
                    assert(0 <= k < mid.len() && mid[k] == s0[k0]);
                    let kf = if k < jj {
                        k
                    } else {
                        k + 1
                    };
                    assert(fin[kf] == mid[k]);
                    lemma_chan_lookup_some(fin, id, kf);
                } else {
                    assert forall|k: int| 0 <= k < fin.len() implies (#[trigger] fin[k]).id
                        != id by {
                        if k == jj {
                            assert(fin[k] == c@);
                        } else {
                            let km = if k < jj {
                                k
                            } else {
                                k - 1
                            };
                            assert(fin[k] == mid[km]);
                            let k0 = if had && km >= ri {
                                km + 1
                            } else {
                                km
                            };
                            assert(mid[km] == s0[k0]);
                            assert(!(0 <= k0 < s0.len() && s0[k0].id == id));
                        }
                    }
                    lemma_chan_lookup_none(fin, id);
                    lemma_chan_lookup_none(s0, id);
                }
            }
            if had {
                assert(chan_has(s0, c@.id)) by {
                    assert(s0[ri].id == c@.id);
                }
            } else {
                assert(!chan_has(s0, c@.id)) by {
                    if chan_has(s0, c@.id) {
                        let w = choose|w: int|
                            0 <= w < s0.len() && (#[trigger] s0[w]).id == c@.id;
                        assert(s0[w].id != c@.id);
                    }
                }
            }
            assert(self.erows() =~= old(self).erows());
        }
    }

    /// Upserts one fetched batch inside one logical transaction: every
    /// channel row and entry row the batch carries is inserted or replaced by
    /// key (the batch's last write wins), and every key the batch does not
    /// carry keeps the row it had. Entries stored by earlier cycles are never
    /// deleted.
    #[verifier::rlimit(80)]
    pub fn upsert_batch(&mut self, batch: &Vec<Channel>)
        requires
            old(self).wf(),
        ensures
            final(self).wf(),
            forall|id: Seq<char>|
                #[trigger] chan_lookup(final(self).crows(), id) == (match batch_chan_lookup(
                    batch.deep_view(),
                    id,
                ) {
                    Some(r) => Some(r),
                    None => chan_lookup(old(self).crows(), id),
                }),
            forall|id: Seq<char>|
                #[trigger] entry_lookup(final(self).erows(), id) == (match batch_entry_lookup(
                    batch.deep_view(),
                    id,
                ) {
                    Some(r) => Some(r),
                    None => entry_lookup(old(self).erows(), id),
                }),
    {
        let ghost bv = batch.deep_view();
        let ghost c0 = self.crows();
        let ghost e0 = self.erows();
        let nb = batch.len();
        let mut i: usize = 0;
        while i < nb
            invariant
                self.wf(),
                i <= nb,
                nb == batch.len(),
                bv == batch.deep_view(),
                forall|id: Seq<char>|
                    #[trigger] chan_lookup(self.crows(), id) == (match batch_chan_lookup(
                        bv.take(i as int),
                        id,
                    ) {
                        Some(r) => Some(r),
                        None => chan_lookup(c0, id),
                    }),
                forall|id: Seq<char>|
                    #[trigger] entry_lookup(self.erows(), id) == (match batch_entry_lookup(
                        bv.take(i as int),
                        id,
                    ) {
                        Some(r) => Some(r),
                        None => entry_lookup(e0, id),
                    }),
            decreases nb - i,
        {
            let ghost cv = bv[i as int];
            let ghost cpre = self.crows();
            let ghost epre = self.erows();
            let row = ChannelRow {
                id: batch[i].id.clone(),
                title: batch[i].title.clone(),
                url: batch[i].url.clone(),
            };
            proof {
                assert(bv[i as int] == batch@[i as int]@);
                assert(row@ == crow_of(cv));
            }
            self.upsert_channel(row);
            let ghost cmid = self.crows();
            let ne = batch[i].entries.len();
            let mut k: usize = 0;
            while k < ne
                invariant
                    self.wf(),
                    k <= ne,
                    i < nb,
                    nb == batch.len(),
                    bv == batch.deep_view(),
                    cv == bv[i as int],
                    cv.entries.len() == ne as int,
                    self.crows() == cmid,
                    forall|id: Seq<char>|
                        #[trigger] entry_lookup(self.erows(), id) == (match entries_rev_lookup(
                            cv.entries.take(k as int),
                            cv.id,
                            id,
                        ) {
                            Some(r) => Some(r),
                            None => entry_lookup(epre, id),
                        }),
                decreases ne - k,
            {
                let e = &batch[i].entries[k];
                let se = StoredEntry {
                    id: e.id.clone(),
                    channel_id: batch[i].id.clone(),
                    title: e.title.clone(),
                    link: e.link.clone(),
                    summary: clone_opt_string(&e.summary),
                    published: e.published,
                };
                proof {
                    assert(bv[i as int] == batch@[i as int]@);
                    assert(cv.entries[k as int] == batch@[i as int].entries@[k as int]@);
                    assert(se@ == stored_of(cv.entries[k as int], cv.id));
                }
                let ghost eprev = self.erows();
                self.upsert_entry(se);
                proof {
                    let taken = cv.entries.take(k as int + 1);
                    assert(taken.drop_last() =~= cv.entries.take(k as int));
                    assert(taken.last() == cv.entries[k as int]);
                    assert forall|id: Seq<char>| #[trigger] entry_lookup(self.erows(), id)
                        == (match entries_rev_lookup(taken, cv.id, id) {
                        Some(r) => Some(r),
                        None => entry_lookup(epre, id),
                    }) by {
                        if id == se@.id {
                            assert(entry_lookup(self.erows(), id) == Some(se@));
                        } else {
                            assert(entry_lookup(self.erows(), id) == entry_lookup(eprev, id));
                        }
                    }
                }
                k = k + 1;
            }
            proof {
                assert(cv.entries.take(ne as int) =~= cv.entries);
                let btaken = bv.take(i as int + 1);
                assert(btaken.drop_last() =~= bv.take(i as int));
                assert(btaken.last() == cv);
                assert forall|id: Seq<char>| #[trigger] chan_lookup(self.crows(), id)
                    == (match batch_chan_lookup(btaken, id) {
                    Some(r) => Some(r),
                    None => chan_lookup(c0, id),
                }) by {
                    if id == cv.id {
                        assert(chan_lookup(cmid, id) == Some(crow_of(cv)));
                    } else {
                        assert(chan_lookup(cmid, id) == chan_lookup(cpre, id));
                    }
                }
                assert forall|id: Seq<char>| #[trigger] entry_lookup(self.erows(), id)
                    == (match batch_entry_lookup(btaken, id) {
                    Some(r) => Some(r),
                    None => entry_lookup(e0, id),
                }) by {
                    assert(entry_lookup(self.erows(), id) == (match entries_rev_lookup(
                        cv.entries,
                        cv.id,
                        id,
                    ) {
                        Some(r) => Some(r),
                        None => entry_lookup(epre, id),
                    }));
                }
            }
            i = i + 1;
        }
        proof {
            assert(bv.take(nb as int) =~= bv);
        }
    }

    /// How many entries the view holds.
    pub fn count_entries(&self, channel_id: Option<&String>) -> (r: usize)
        ensures
            r as int == rows_for(self.erows(), cid_view(channel_id)).len(),
    {
        let ghost cid = cid_view(channel_id);
        let ghost rows = self.erows();
        let n = self.entries.len();
        let mut m: usize = 0;
        let mut i: usize = 0;
        while i < n
            invariant
                i <= n,
                m <= i,
                n == self.entries.len(),
                rows == self.erows(),
                cid == cid_view(channel_id),
                m as int == rows_for(rows.take(i as int), cid).len(),
            decreases n - i,
        {
            let row = &self.entries[i];
            let matched = match channel_id {
                None => true,
                Some(c) => row.channel_id == *c,
            };
            proof {
                let taken = rows.take(i as int + 1);
                assert(taken.drop_last() =~= rows.take(i as int));
                assert(taken.last() == rows[i as int]);
                assert(in_view(rows[i as int], cid) == matched);
            }
            if matched {
                m = m + 1;
            }
            i = i + 1;
        }
        proof {
            assert(rows.take(n as int) =~= rows);
        }
        m
    }

    /// Reads the offset/limit window of a view, newest first: rows
    /// `offset .. offset+limit` of the view, clipped to its end.
    pub fn page_entries(&self, channel_id: Option<&String>, offset: usize, limit: usize) -> (r:
        Vec<Entry>)
        ensures
            r.deep_view() == page_of(
                rows_for(self.erows(), cid_view(channel_id)),
                offset as int,
                limit as int,
            ).map_values(|x: StoredEntryView| entry_of_row(x)),
    {
        let ghost cid = cid_view(channel_id);
        let ghost rows = self.erows();
        let ghost off = offset as int;
        let ghost lim = limit as int;
        let n = self.entries.len();
        let mut out: Vec<Entry> = Vec::new();
        let mut m: usize = 0;
        let mut i: usize = 0;
        proof {
            assert(out.deep_view() =~= page_of(rows_for(rows.take(0), cid), off, lim).map_values(
                |x: StoredEntryView| entry_of_row(x),
            ));
        }
        while i < n
            invariant
                i <= n,
                m <= i,
                n == self.entries.len(),
                rows == self.erows(),
                cid == cid_view(channel_id),
                off == offset as int,
                lim == limit as int,
                m as int == rows_for(rows.take(i as int), cid).len(),
                out.deep_view() == page_of(rows_for(rows.take(i as int), cid), off, lim).map_values(
                    |x: StoredEntryView| entry_of_row(x),
                ),
            decreases n - i,
        {
            let row = &self.entries[i];
            let matched = match channel_id {
                None => true,
                Some(c) => row.channel_id == *c,
            };
            let ghost f = rows_for(rows.take(i as int), cid);
            let ghost fnext = rows_for(rows.take(i as int + 1), cid);
            proof {
                let taken = rows.take(i as int + 1);
                assert(taken.drop_last() =~= rows.take(i as int));
                assert(taken.last() == rows[i as int]);
                assert(in_view(rows[i as int], cid) == matched);
                assert(out.deep_view().len() == page_of(f, off, lim).len());
            }
            if matched {
                proof {
                    assert(fnext == f.push(rows[i as int]));
                }
                if m >= offset && out.len() < limit {
                    let ghost pre = out.deep_view();
                    out.push(entry_from_row(row));
                    proof {
                        assert(page_of(fnext, off, lim) =~= page_of(f, off, lim).push(
                            rows[i as int],
                        ));
                        assert(out.deep_view() =~= pre.push(entry_of_row(rows[i as int])));
                        assert(out.deep_view() =~= page_of(fnext, off, lim).map_values(
                            |x: StoredEntryView| entry_of_row(x),
                        ));
                    }
                } else {
                    proof {
                        if m < offset {
                            assert(page_of(fnext, off, lim) =~= page_of(f, off, lim));
                        } else {
                            assert(page_of(f, off, lim).len() == lim);
                            assert(page_of(fnext, off, lim) =~= page_of(f, off, lim));
                        }
                        assert(out.deep_view() =~= page_of(fnext, off, lim).map_values(
                            |x: StoredEntryView| entry_of_row(x),
                        ));
                    }
                }
                m = m + 1;
            } else {
                proof {
                    assert(fnext == f);
                }
            }
            i = i + 1;
        }
        proof {
            assert(rows.take(n as int) =~= rows);
        }
        out
    }

    /// Lists the channels in listing order (title, then id), entries empty.
    pub fn list_channels(&self) -> (r: Vec<Channel>)
        ensures
            r.deep_view().len() == self.crows().len(),
            forall|k: int|
                0 <= k < self.crows().len() ==> #[trigger] r.deep_view()[k] == chan_of_row(
                    self.crows()[k],
                ),
    {
        let ghost rows = self.crows();
        let n = self.channels.len();
        let mut out: Vec<Channel> = Vec::new();
        let mut i: usize = 0;
        while i < n
            invariant
                i <= n,
                n == self.channels.len(),
                rows == self.crows(),
                out.deep_view().len() == i as int,
                forall|k: int|
                    0 <= k < i ==> #[trigger] out.deep_view()[k] == chan_of_row(rows[k]),
            decreases n - i,
        {
            let row = &self.channels[i];
            let c = Channel {
                id: row.id.clone(),
                title: row.title.clone(),
                url: row.url.clone(),
                entries: Vec::new(),
            };
            proof {
                assert(c@ == chan_of_row(rows[i as int])) by {
                    assert(c@.entries =~= Seq::<EntryView>::empty());
                }
            }
            let ghost pre = out.deep_view();
            out.push(c);
            proof {
                assert(out.deep_view() =~= pre.push(chan_of_row(rows[i as int])));
            }
            i = i + 1;
        }
        out
    }
}

} // verus!

//! Pagination service: one active view (global, or one channel's) paged in
//! fixed-size windows, newest first, with an `all_loaded` completion flag.

use vstd::prelude::*;

use crate::domain::Entry;
use crate::store::{Store, StoredEntryView, cid_view, entry_of_row, page_of, rows_for};

verus! {

/// Default window size.
pub const PAGE_SIZE: usize = 50;

/// One active paginated view.
pub struct Pager {
    pub entries: Vec<Entry>,
    pub offset: usize,
    pub all_loaded: bool,
    pub page_size: usize,
}

impl Pager {
    /// A pager is well-formed when its window size is positive.
    pub open spec fn wf(self) -> bool {
        self.page_size >= 1
    }

    /// Opens a view at its top: reads the first window and derives
    /// `all_loaded` from whether that window came back short.
    pub fn initial_page(store: &Store, channel_id: Option<&String>, page_size: usize) -> (p: Pager)
        requires
            page_size >= 1,
        ensures
            p.wf(),
            p.page_size == page_size,
            p.offset == 0,
            p.entries.deep_view() == page_of(
                rows_for(store.erows(), cid_view(channel_id)),
                0,
                page_size as int,
            ).map_values(|x: StoredEntryView| entry_of_row(x)),
            p.all_loaded == (page_of(
                rows_for(store.erows(), cid_view(channel_id)),
                0,
                page_size as int,
            ).len() < page_size as int),
    {
        let entries = store.page_entries(channel_id, 0, page_size);
        proof {
            let w = page_of(rows_for(store.erows(), cid_view(channel_id)), 0, page_size as int);
            assert(entries.deep_view().len() == entries@.len());
            assert(w.map_values(|x: StoredEntryView| entry_of_row(x)).len() == w.len());
        }
        let all_loaded = entries.len() < page_size;
        Pager { entries, offset: 0, all_loaded, page_size }
    }

    /// Loads the next window. An empty window only sets `all_loaded` and
    /// leaves the view untouched; otherwise the window is appended, the
    /// offset advances by one window, and `all_loaded` reflects whether the
    /// window came back short. The offset never advances to or past the end
    /// of the view.
    pub fn load_more(&mut self, store: &Store, channel_id: Option<&String>)
        requires
            old(self).wf(),
            old(self).offset + old(self).page_size <= usize::MAX,
        ensures
            final(self).wf(),
            final(self).page_size == old(self).page_size,
            ({
                let f = rows_for(store.erows(), cid_view(channel_id));
                let np = page_of(
                    f,
                    old(self).offset + old(self).page_size,
                    old(self).page_size as int,
                );
                if np.len() == 0 {
                    &&& final(self).all_loaded
                    &&& final(self).offset == old(self).offset
                    &&& final(self).entries.deep_view() == old(self).entries.deep_view()
                } else {
                    &&& final(self).entries.deep_view() == old(self).entries.deep_view()
                        + np.map_values(|x: StoredEntryView| entry_of_row(x))
                    &&& final(self).offset == old(self).offset + old(self).page_size
                    &&& final(self).all_loaded == (np.len() < old(self).page_size as int)
                }
            }),
            // a short window always closes the view
            page_of(
                rows_for(store.erows(), cid_view(channel_id)),
                old(self).offset + old(self).page_size,
                old(self).page_size as int,
            ).len() < old(self).page_size as int ==> final(self).all_loaded,
            // the offset never passes the view's true entry count
            final(self).offset != old(self).offset ==> final(self).offset < rows_for(
                store.erows(),
                cid_view(channel_id),
            ).len(),
    {
        let next_offset = self.offset + self.page_size;
        let page = store.page_entries(channel_id, next_offset, self.page_size);
        if page.len() == 0 {
            self.all_loaded = true;
            proof {
                assert(page.deep_view().len() == 0);
            }
        } else {
            self.all_loaded = page.len() < self.page_size;
            self.offset = next_offset;
            let ghost pre = self.entries.deep_view();
            let ghost pv = page.deep_view();
            let n = page.len();
            let mut k: usize = 0;
            while k < n
                invariant
                    k <= n,
                    n == page.len(),
                    pv == page.deep_view(),
                    self.entries.deep_view() == pre + pv.take(k as int),
                    self.offset == old(self).offset + old(self).page_size,
                    self.page_size == old(self).page_size,
                    self.all_loaded == (pv.len() < old(self).page_size as int),
                decreases n - k,
            {
                let ghost so_far = self.entries.deep_view();
                let e = crate::domain::clone_entry(&page[k]);
                self.entries.push(e);
                proof {
                    assert(self.entries.deep_view() =~= so_far.push(pv[k as int]));
                    assert(pre + pv.take(k as int + 1) =~= (pre + pv.take(k as int)).push(
                        pv[k as int],
                    ));
                }
                k = k + 1;
            }
            proof {
                assert(pv.take(n as int) =~= pv);
                let f = rows_for(store.erows(), cid_view(channel_id));
                let np = page_of(
                    f,
                    old(self).offset + old(self).page_size,
                    old(self).page_size as int,
                );
                assert(self.entries.deep_view() =~= pre + np.map_values(
                    |x: StoredEntryView| entry_of_row(x),
                ));
            }
        }
    }

    /// After a background sync, re-reads the loaded window from the top and
    /// recomputes `all_loaded` against the view's true count; the offset is
    /// kept, so the caller's scroll position survives.
    pub fn reconcile_after_sync(&mut self, store: &Store, channel_id: Option<&String>)
        requires
            old(self).wf(),
            old(self).offset + old(self).page_size <= usize::MAX,
        ensures
            final(self).wf(),
            final(self).page_size == old(self).page_size,
            final(self).offset == old(self).offset,
            ({
                let f = rows_for(store.erows(), cid_view(channel_id));
                let w = page_of(f, 0, old(self).offset + old(self).page_size);
                &&& final(self).entries.deep_view() == w.map_values(
                    |x: StoredEntryView| entry_of_row(x),
                )
                &&& final(self).all_loaded == (w.len() >= f.len())
            }),
    {
        let loaded = self.offset + self.page_size;
        let entries = store.page_entries(channel_id, 0, loaded);
        let total = store.count_entries(channel_id);
        proof {
            let f = rows_for(store.erows(), cid_view(channel_id));
            let w = page_of(f, 0, old(self).offset + old(self).page_size);
            assert(entries.deep_view().len() == entries@.len());
            assert(w.map_values(|x: StoredEntryView| entry_of_row(x)).len() == w.len());
        }
        self.all_loaded = entries.len() >= total;
        self.entries = entries;
    }
}

} // verus!

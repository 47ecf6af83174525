//! Core of a syndication-feed reader: a keyed store of channels and entries
//! with reverse-chronological pagination, a feed-document-to-domain mapper,
//! and the decision logic of the periodic/forced sync scheduler.

pub mod domain;
pub mod mapper;
pub mod order;
pub mod pager;
pub mod sched;
pub mod store;
pub mod timefmt;

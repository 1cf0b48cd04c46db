//! Block encoding and layered iterators of a log-structured-merge storage
//! engine: sorted key-value runs are packed into size-bounded blocks, and
//! sorted sources are combined into one ordered, deletion-aware, bounded scan.

pub mod block;
pub mod codec;
pub mod iterators;
pub mod key;
pub mod lsm_iterator;

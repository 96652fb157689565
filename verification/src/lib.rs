//! A minimal multi-tenant task list.
//!
//! Each caller, identified by an opaque byte identifier, owns an append-only
//! list of small task records. Lists are kept in a durable key-value store
//! backed by stable memory; each list is held there in a verified binary
//! encoding, so that what is read back is exactly what was written.

mod codec;
mod store;
mod task;

pub use codec::{
    list_fits, spec_encode_list, spec_encode_task, spec_encode_tasks, spec_u64_le, task_fits,
    FORMAT_TAG,
};
pub use store::{
    after_creates, create_task, get_tasks, lemma_consecutive_creates,
    lemma_fresh_store_has_no_callers, lemma_other_callers_unchanged, lemma_reads_agree,
    prior_tasks, stored_bytes, CallerId, RawStore, TaskStore,
};
pub use task::{task_views, Task, TaskList, TaskV};

//! The persistent store and the two service operations.
//!
//! A `TaskStore` maps caller identities to their task lists. The lists live
//! in a durable byte-to-byte map in stable memory, each list as one encoded
//! byte string; well-formedness says those bytes are exactly the encodings
//! of the store's mathematical content, so reads decode to precisely what
//! was written.

use ic_stable_structures::memory_manager::{MemoryId, MemoryManager};
use ic_stable_structures::{DefaultMemoryImpl, StableBTreeMap};
use vstd::prelude::*;
use vstd::slice::slice_to_vec;

use crate::codec::{list_fits, spec_encode_list};
use crate::task::{task_views, Task, TaskList, TaskV};

verus! {

/// Durable map from key bytes to value bytes, held in stable memory behind
/// a memory manager so further regions could share the same memory.
#[verifier::external_body]
pub struct RawStore {
    map: StableBTreeMap<
        Vec<u8>,
        Vec<u8>,
        ic_stable_structures::memory_manager::VirtualMemory<DefaultMemoryImpl>,
    >,
}

/// What the raw store holds: the value bytes under each key.
pub uninterp spec fn stored_bytes(s: RawStore) -> Map<Seq<u8>, Seq<u8>>;

impl RawStore {
    /// Relies on `MemoryManager::init` and `StableBTreeMap::init`: they load
    /// the layout and map already present in the memory region, or set up an
    /// empty one where the region is fresh. The memory is the process's
    /// durable storage, so nothing can be promised about what it holds: the
    /// map opens over whatever entries survived the last run.
    #[verifier::external_body]
    fn new() -> RawStore {
        let manager = MemoryManager::init(DefaultMemoryImpl::default());
        let memory = manager.get(MemoryId::new(0));
        RawStore { map: StableBTreeMap::init(memory) }
    }

    /// Relies on `StableBTreeMap::iter`: it visits every entry of the map,
    /// each key together with the value stored under it.
    #[verifier::external_body]
    fn entries(&self) -> (r: Vec<(Vec<u8>, Vec<u8>)>)
        ensures
            forall|i: int|
                0 <= i < r@.len() ==> stored_bytes(*self).dom().contains(#[trigger] r@[i].0@)
                    && stored_bytes(*self)[r@[i].0@] == r@[i].1@,
            forall|k: Seq<u8>|
                #[trigger] stored_bytes(*self).dom().contains(k) ==> exists|i: int|
                    0 <= i < r@.len() && #[trigger] r@[i].0@ == k,
    {
        self.map.iter().map(|e| e.into_pair()).collect()
    }

    /// Relies on `StableBTreeMap::get`: returns the value stored under the
    /// key, if there is one.
    #[verifier::external_body]
    fn get(&self, key: &Vec<u8>) -> (r: Option<Vec<u8>>)
        ensures
            match r {
                Some(v) => stored_bytes(*self).dom().contains(key@) && v@ == stored_bytes(
                    *self,
                )[key@],
                None => !stored_bytes(*self).dom().contains(key@),
            },
    {
        self.map.get(key)
    }

    /// Relies on `StableBTreeMap::insert`: stores the value under the key,
    /// replacing any previous value and leaving other keys untouched.
    #[verifier::external_body]
    fn insert(&mut self, key: Vec<u8>, value: Vec<u8>)
        ensures
            stored_bytes(*final(self)) == stored_bytes(*old(self)).insert(key@, value@),
    {
        self.map.insert(key, value);
    }
}

/// The identity of a caller: an opaque byte string assigned by the host,
/// used as the partition key for task storage.
pub struct CallerId {
    pub bytes: Vec<u8>,
}

impl View for CallerId {
    type V = Seq<u8>;

    open spec fn view(&self) -> Seq<u8> {
        self.bytes@
    }
}

impl CallerId {
    pub fn new(bytes: Vec<u8>) -> (c: CallerId)
        ensures
            c@ == bytes@,
    {
        CallerId { bytes }
    }
}

/// The durable store of every caller's task list.
pub struct TaskStore {
    raw: RawStore,
    model: Ghost<Map<Seq<u8>, Seq<TaskV>>>,
}

impl View for TaskStore {
    type V = Map<Seq<u8>, Seq<TaskV>>;

    closed spec fn view(&self) -> Map<Seq<u8>, Seq<TaskV>> {
        self.model@
    }
}

impl TaskStore {
    /// The bytes in stable memory and the store's content agree: the same
    /// callers are present, and each caller's bytes are exactly the
    /// encoding of that caller's tasks.
    pub closed spec fn wf(&self) -> bool {
        self.model@.dom() == stored_bytes(self.raw).dom() && forall|k: Seq<u8>|
            #[trigger] self.model@.dom().contains(k) ==> list_fits(self.model@[k]) && stored_bytes(
                self.raw,
            )[k] == spec_encode_list(self.model@[k])
    }

    /// Opens the store over the durable memory region and rebuilds its
    /// content from what the region already holds: each stored byte string
    /// is decoded back into that caller's task list, so state survives
    /// restarts. On a fresh region the store starts with no callers.
    ///
    /// Returns nothing when some stored value does not decode (corrupted or
    /// foreign bytes). Such a failure is unrecoverable by design: the caller
    /// must abort rather than read partial state, and decides how.
    pub fn new() -> (r: Option<TaskStore>)
        ensures
            r matches Some(s) ==> s.wf(),
    {
        let raw = RawStore::new();
        let ghost stored = stored_bytes(raw);
        let pairs = raw.entries();
        let mut model: Ghost<Map<Seq<u8>, Seq<TaskV>>> = Ghost(Map::empty());
        let mut i: usize = 0;
        while i < pairs.len()
            invariant
                i <= pairs@.len(),
                stored == stored_bytes(raw),
                forall|j: int|
                    0 <= j < pairs@.len() ==> stored.dom().contains(#[trigger] pairs@[j].0@)
                        && stored[pairs@[j].0@] == pairs@[j].1@,
                forall|k: Seq<u8>|
                    #[trigger] model@.dom().contains(k) ==> stored.dom().contains(k) && list_fits(
                        model@[k],
                    ) && spec_encode_list(model@[k]) == stored[k],
                forall|j: int| 0 <= j < i ==> model@.dom().contains(#[trigger] pairs@[j].0@),
            decreases pairs@.len() - i,
        {
            let decoded = TaskList::from_bytes(&pairs[i].1);
            match decoded {
                Some(tl) => {
                    model = Ghost(model@.insert(pairs@[i as int].0@, tl@));
                },
                None => {
                    return None;
                },
            }
            i += 1;
        }
        proof {
            assert forall|k: Seq<u8>| stored.dom().contains(k) implies model@.dom().contains(
                k,
            ) by {
                assert(stored_bytes(raw).dom().contains(k));
                let j = choose|j: int| 0 <= j < pairs@.len() && pairs@[j].0@ == k;
                assert(model@.dom().contains(pairs@[j].0@));
            }
            assert(model@.dom() =~= stored.dom());
        }
        let s = TaskStore { raw, model };
        proof {
            assert(s.wf());
        }
        Some(s)
    }
}

/// The tasks already stored for a caller: none before the first create.
pub open spec fn prior_tasks(m: Map<Seq<u8>, Seq<TaskV>>, k: Seq<u8>) -> Seq<TaskV> {
    if m.dom().contains(k) {
        m[k]
    } else {
        Seq::empty()
    }
}

/// Appends a task for `caller`: reads the caller's list (or starts an empty
/// one), adds the task at the end, and writes the whole list back.
pub fn create_task(
    store: &mut TaskStore,
    caller: &CallerId,
    title: String,
    completed: bool,
    important: bool,
)
    requires
        old(store).wf(),
    ensures
        final(store).wf(),
        final(store)@ == old(store)@.insert(
            caller@,
            prior_tasks(old(store)@, caller@).push(
                (TaskV { title: title@, completed, important }),
            ),
        ),
{
    let ghost m = store.model@;
    let task = Task::new(title, completed, important);
    let found = store.raw.get(&caller.bytes);
    let mut list = match found {
        Some(b) => {
            let decoded = TaskList::from_bytes(&b);
            match decoded {
                Some(tl) => tl,
                None => {
                    proof {
                        assert(list_fits(m[caller@]) && spec_encode_list(m[caller@]) == b@);
                        assert(false);
                    }
                    TaskList::new()
                },
            }
        },
        None => TaskList::new(),
    };
    list.add_task(task);
    let encoded = list.to_bytes();
    let key = slice_to_vec(caller.bytes.as_slice());
    store.raw.insert(key, encoded);
    proof {
        assert(list@ =~= prior_tasks(m, caller@).push(
            (TaskV { title: title@, completed, important }),
        ));
    }
    store.model = Ghost(m.insert(caller@, list@));
    proof {
        assert(store.model@.dom() =~= stored_bytes(store.raw).dom());
        assert(store.wf());
        assert(store@ =~= m.insert(
            caller@,
            prior_tasks(m, caller@).push((TaskV { title: title@, completed, important })),
        ));
    }
}

/// All tasks stored for `caller`, in creation order, or nothing if the
/// caller has never created a task. Reading changes no state.
pub fn get_tasks(store: &TaskStore, caller: &CallerId) -> (r: Option<Vec<Task>>)
    requires
        store.wf(),
    ensures
        match r {
            Some(ts) => store@.dom().contains(caller@) && task_views(ts@) == store@[caller@],
            None => !store@.dom().contains(caller@),
        },
{
    let found = store.raw.get(&caller.bytes);
    match found {
        None => None,
        Some(b) => {
            let decoded = TaskList::from_bytes(&b);
            match decoded {
                Some(tl) => Some(tl.tasks),
                None => {
                    proof {
                        assert(list_fits(store@[caller@]) && spec_encode_list(store@[caller@])
                            == b@);
                        assert(false);
                    }
                    None
                },
            }
        },
    }
}

/// Isolation law: creating a task for one caller leaves every other
/// caller's tasks exactly as they were, so no task is ever visible under
/// another caller's identity.
pub proof fn lemma_other_callers_unchanged(
    m: Map<Seq<u8>, Seq<TaskV>>,
    a: Seq<u8>,
    b: Seq<u8>,
    t: TaskV,
)
    requires
        a != b,
    ensures
        prior_tasks(m.insert(a, prior_tasks(m, a).push(t)), b) == prior_tasks(m, b),
        m.insert(a, prior_tasks(m, a).push(t)).dom().contains(b) == m.dom().contains(b),
{
}

/// Fresh-store law: before any create, no caller identity is present, so a
/// read returns "no value" rather than an empty-but-present list.
pub proof fn lemma_fresh_store_has_no_callers(k: Seq<u8>)
    ensures
        !Map::<Seq<u8>, Seq<TaskV>>::empty().dom().contains(k),
{
}

/// The store content after consecutive creates for one caller, each adding
/// the next task of `ts`.
pub open spec fn after_creates(
    m: Map<Seq<u8>, Seq<TaskV>>,
    k: Seq<u8>,
    ts: Seq<TaskV>,
) -> Map<Seq<u8>, Seq<TaskV>>
    decreases ts.len(),
{
    if ts.len() == 0 {
        m
    } else {
        after_creates(m.insert(k, prior_tasks(m, k).push(ts[0])), k, ts.drop_first())
    }
}

/// Order law: after consecutive creates for one caller, that caller holds
/// exactly the prior tasks followed by the new ones, in creation order. In
/// particular, starting from no tasks, exactly the new tasks in order.
pub proof fn lemma_consecutive_creates(m: Map<Seq<u8>, Seq<TaskV>>, k: Seq<u8>, ts: Seq<TaskV>)
    ensures
        prior_tasks(after_creates(m, k, ts), k) == prior_tasks(m, k) + ts,
        ts.len() > 0 ==> after_creates(m, k, ts).dom().contains(k),
    decreases ts.len(),
{
    if ts.len() == 0 {
        assert(prior_tasks(m, k) + ts =~= prior_tasks(m, k));
    } else {
        let m1 = m.insert(k, prior_tasks(m, k).push(ts[0]));
        lemma_consecutive_creates(m1, k, ts.drop_first());
        assert(prior_tasks(m1, k) =~= prior_tasks(m, k).push(ts[0]));
        assert(prior_tasks(m, k).push(ts[0]) + ts.drop_first() =~= prior_tasks(m, k) + ts);
    }
}

/// Read idempotence law: two reads of the same store for the same caller
/// see the same thing — both nothing, or both the same task values.
pub proof fn lemma_reads_agree(
    m: Map<Seq<u8>, Seq<TaskV>>,
    k: Seq<u8>,
    r1: Option<Seq<TaskV>>,
    r2: Option<Seq<TaskV>>,
)
    requires
        match r1 {
            Some(s) => m.dom().contains(k) && s == m[k],
            None => !m.dom().contains(k),
        },
        match r2 {
            Some(s) => m.dom().contains(k) && s == m[k],
            None => !m.dom().contains(k),
        },
    ensures
        r1 == r2,
{
}

} // verus!

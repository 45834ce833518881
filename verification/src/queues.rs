//! In-memory hand-off queues between the overlay core and its
//! collaborators: the assembly queue of blocks ready to propose, the
//! persistence queue of received block payloads grouped by creator, the
//! feedback-target registry, the last accepted hash, and the connectivity
//! notification log.

use vstd::prelude::*;
use vstd::string::StringExecFns;
use crate::registry::{assoc_find, keys_distinct, lemma_assoc_index, lemma_assoc_remove,
    assoc_insert, assoc_remove, assoc_position};

verus! {

/// A block payload grouped under its creator, with the time it was
/// created: one persistence-queue entry.
pub type DbEntry = (Option<(String, String, String)>, i64);

/// The External Persistence Queue: received block payloads with their
/// timestamps, grouped by creator identity; read back newest-first per
/// creator.
pub struct DbQueue {
    memory: Vec<(String, Vec<DbEntry>)>,
}

impl DbQueue {
    /// Well-formedness: one group per creator, timestamps never negative.
    pub closed spec fn wf(&self) -> bool {
        &&& keys_distinct(self.memory@)
        &&& forall|i: int, j: int| 0 <= i < self.memory@.len() && 0 <= j
            < (#[trigger] self.memory@[i].1)@.len() ==> (#[trigger] self.memory@[i].1@[j]).1
            >= 0
    }

    /// The entries stored under `id`, oldest first.
    pub closed spec fn entries_of(&self, id: Seq<char>) -> Seq<DbEntry> {
        match assoc_find(self.memory@, id) {
            Some(v) => v@,
            None => Seq::empty(),
        }
    }

    /// An empty queue.
    pub fn new() -> (r: DbQueue)
        ensures
            r.wf(),
            forall|x: Seq<char>| #[trigger] r.entries_of(x) == Seq::<DbEntry>::empty(),
    {
        let r = DbQueue { memory: Vec::new() };
        proof {
            assert forall|x: Seq<char>| #[trigger] r.entries_of(x) == Seq::<DbEntry>::empty()
                by {
                lemma_assoc_index(r.memory@, x);
            }
        }
        r
    }

    /// Appends one payload under its creator; every other creator's group
    /// is untouched.
    pub fn add_block(&mut self, creator: String, data: Option<(String, String, String)>,
        created_at: i64)
        requires
            old(self).wf(),
            0 <= created_at,
        ensures
            final(self).wf(),
            final(self).entries_of(creator@) == old(self).entries_of(creator@).push((data,
                created_at)),
            forall|x: Seq<char>| x != creator@ ==> #[trigger] final(self).entries_of(x)
                == old(self).entries_of(x),
    {
        let ghost m0 = self.memory@;
        let entry = (data, created_at);
        match assoc_position(&self.memory, creator.as_str()) {
            Some(i) => {
                let pair = self.memory.remove(i);
                let ghost mid = self.memory@;
                let ghost g0 = pair.1@;
                proof {
                    assert(mid =~= m0.take(i as int) + m0.skip(i as int + 1));
                    lemma_assoc_remove(m0, mid, creator@, i as int);
                }
                let mut group = pair.1;
                group.push(entry);
                assoc_insert(&mut self.memory, creator, group);
                proof {
                    assert forall|a: int, j: int| 0 <= a < self.memory@.len() && 0 <= j
                        < (#[trigger] self.memory@[a].1)@.len() implies (
                        #[trigger] self.memory@[a].1@[j]).1 >= 0 by {
                        if self.memory@[a].1@ == g0.push(entry) {
                            if j < g0.len() {
                                assert(m0[i as int].1@[j].1 >= 0);
                            }
                        } else {
                            let t = choose|t: int| 0 <= t < mid.len() && self.memory@[a]
                                == #[trigger] mid[t];
                            let u: int = if t < i { t } else { t + 1 };
                            assert(mid[t] == m0[u]);
                            assert(m0[u].1@[j].1 >= 0);
                        }
                    }
                    assert(self.entries_of(creator@) =~= old(self).entries_of(creator@).push(
                        entry));
                }
            },
            None => {
                let mut group: Vec<DbEntry> = Vec::new();
                group.push(entry);
                assoc_insert(&mut self.memory, creator, group);
                proof {
                    assert forall|a: int, j: int| 0 <= a < self.memory@.len() && 0 <= j
                        < (#[trigger] self.memory@[a].1)@.len() implies (
                        #[trigger] self.memory@[a].1@[j]).1 >= 0 by {
                        if self.memory@[a].1@ =~= seq![entry] {
                        } else {
                            let t = choose|t: int| 0 <= t < m0.len() && self.memory@[a]
                                == #[trigger] m0[t];
                            assert(m0[t].1@[j].1 >= 0);
                        }
                    }
                    assert(old(self).entries_of(creator@) =~= Seq::<DbEntry>::empty());
                    assert(self.entries_of(creator@) =~= old(self).entries_of(creator@).push(
                        entry));
                }
            },
        }
    }

    /// How many entries are stored under `creator`.
    pub fn entries_count(&self, creator: &str) -> (r: usize)
        ensures
            r == self.entries_of(creator@).len(),
    {
        match assoc_position(&self.memory, creator) {
            Some(i) => self.memory[i].1.len(),
            None => 0,
        }
    }

    /// The newest entry under `creator`, if any.
    pub fn get_last(&self, creator: &str) -> (r: Option<DbEntry>)
        requires
            self.wf(),
        ensures
            match r {
                Some(e) => self.entries_of(creator@).len() > 0 && e == self.entries_of(
                    creator@).last() && e.1 >= 0,
                None => self.entries_of(creator@).len() == 0,
            },
    {
        match assoc_position(&self.memory, creator) {
            Some(i) => {
                let group = &self.memory[i].1;
                if group.len() == 0 {
                    return None;
                }
                let e = &group[group.len() - 1];
                let data = match &e.0 {
                    Some((a, b, c)) => Some((a.clone(), b.clone(), c.clone())),
                    None => None,
                };
                proof {
                    let stored = self.memory@[i as int].1@.last();
                    assert(stored.1 >= 0);
                    match stored.0 {
                        Some(t) => {
                            assert(t == (t.0, t.1, t.2));
                        },
                        None => {},
                    }
                }
                Some((data, e.1))
            },
            None => None,
        }
    }
}

/// The External Assembly Queue: blocks assembled from external chunks,
/// ready to be proposed, oldest first. Each item carries hash,
/// organization, feedback target and payload.
pub struct BlocksQueue {
    memory: Vec<(String, String, String, String)>,
}

impl BlocksQueue {
    /// The queued items, oldest first.
    pub closed spec fn view_of(&self) -> Seq<(String, String, String, String)> {
        self.memory@
    }

    /// An empty queue.
    pub fn new() -> (r: BlocksQueue)
        ensures
            r.view_of().len() == 0,
    {
        BlocksQueue { memory: Vec::new() }
    }

    /// Enqueues one assembled block at the back.
    pub fn add_block(&mut self, hash: String, organization: String, feedback: String,
        data: String)
        ensures
            final(self).view_of() == old(self).view_of().push((hash, organization, feedback,
                data)),
    {
        self.memory.push((hash, organization, feedback, data));
    }

    /// Dequeues the oldest block, if any.
    pub fn get_block(&mut self) -> (r: Option<(String, String, String, String)>)
        ensures
            match r {
                Some(b) => old(self).view_of().len() > 0 && b == old(self).view_of().first()
                    && final(self).view_of() == old(self).view_of().drop_first(),
                None => old(self).view_of().len() == 0 && final(self).view_of() == old(
                    self).view_of(),
            },
    {
        if self.memory.len() == 0 {
            return None;
        }
        let b = self.memory.remove(0);
        proof {
            assert(self.memory@ =~= old(self).memory@.drop_first());
        }
        Some(b)
    }
}

/// The External Feedback Registry: the feedback target registered for each
/// block hash this node proposed, resolved once and removed.
pub struct FeedbackQueue {
    memory: Vec<(String, String)>,
}

impl FeedbackQueue {
    /// Well-formedness: one target per hash.
    pub closed spec fn wf(&self) -> bool {
        keys_distinct(self.memory@)
    }

    /// The target registered under a hash, if any.
    pub closed spec fn target_of(&self, hash: Seq<char>) -> Option<String> {
        assoc_find(self.memory@, hash)
    }

    /// An empty registry.
    pub fn new() -> (r: FeedbackQueue)
        ensures
            r.wf(),
            forall|x: Seq<char>| #[trigger] r.target_of(x) is None,
    {
        let r = FeedbackQueue { memory: Vec::new() };
        proof {
            assert forall|x: Seq<char>| #[trigger] r.target_of(x) is None by {
                lemma_assoc_index(r.memory@, x);
            }
        }
        r
    }

    /// Registers the feedback target for a block hash, replacing any
    /// previous one.
    pub fn add_block(&mut self, hash: String, feedback: String)
        requires
            old(self).wf(),
        ensures
            final(self).wf(),
            final(self).target_of(hash@) == Some(feedback),
            forall|x: Seq<char>| x != hash@ ==> #[trigger] final(self).target_of(x)
                == old(self).target_of(x),
    {
        assoc_insert(&mut self.memory, hash, feedback);
    }

    /// Resolves and removes the target for a hash.
    pub fn get_block(&mut self, hash: &str) -> (r: Option<String>)
        requires
            old(self).wf(),
        ensures
            final(self).wf(),
            r == old(self).target_of(hash@),
            final(self).target_of(hash@) is None,
            forall|x: Seq<char>| x != hash@ ==> #[trigger] final(self).target_of(x)
                == old(self).target_of(x),
    {
        let r = match assoc_position(&self.memory, hash) {
            Some(i) => Some(self.memory[i].1.clone()),
            None => None,
        };
        assoc_remove(&mut self.memory, hash);
        r
    }
}

/// The last accepted block hash, as the storage collaborator reports it.
pub struct LastHash {
    hash: String,
}

impl LastHash {
    /// The held hash.
    pub closed spec fn view_of(&self) -> Seq<char> {
        self.hash@
    }

    /// Starts from the well-known placeholder hash.
    pub fn new() -> (r: LastHash)
        ensures
            r.view_of() == "RGVmYXVsdEhhc2g"@,
    {
        LastHash { hash: String::from_str("RGVmYXVsdEhhc2g") }
    }

    /// Replaces the held hash.
    pub fn set(&mut self, hash: String)
        ensures
            final(self).view_of() == hash@,
    {
        self.hash = hash;
    }

    /// The held hash.
    pub fn get(&self) -> (r: String)
        ensures
            r@ == self.view_of(),
    {
        self.hash.clone()
    }
}

/// The External Connectivity Notification Queue: which peers became
/// reachable (true) or unreachable (false), in order, drained in batches.
pub struct LazyClients {
    memory: Vec<(String, bool)>,
}

impl LazyClients {
    /// The pending notifications, oldest first.
    pub closed spec fn view_of(&self) -> Seq<(String, bool)> {
        self.memory@
    }

    /// An empty log.
    pub fn new() -> (r: LazyClients)
        ensures
            r.view_of().len() == 0,
    {
        LazyClients { memory: Vec::new() }
    }

    /// Records that `url` became reachable.
    pub fn add(&mut self, url: String)
        ensures
            final(self).view_of() == old(self).view_of().push((url, true)),
    {
        self.memory.push((url, true));
    }

    /// Drains all pending notifications.
    pub fn get(&mut self) -> (r: Vec<(String, bool)>)
        ensures
            r@ == old(self).view_of(),
            final(self).view_of().len() == 0,
    {
        let mut drained: Vec<(String, bool)> = Vec::new();
        let n = self.memory.len();
        let mut k: usize = 0;
        while k < n
            invariant
                k <= n,
                n == self.memory@.len(),
                self.memory@ == old(self).memory@,
                drained@.len() == k,
                forall|i: int| 0 <= i < k ==> #[trigger] drained@[i] == self.memory@[i],
            decreases n - k,
        {
            let url = self.memory[k].0.clone();
            let flag = self.memory[k].1;
            drained.push((url, flag));
            proof {
                assert(self.memory@[k as int] == (self.memory@[k as int].0,
                    self.memory@[k as int].1));
            }
            k = k + 1;
        }
        self.memory = Vec::new();
        proof {
            assert(drained@ =~= old(self).memory@);
        }
        drained
    }

    /// Records that `url` became unreachable.
    pub fn remove(&mut self, url: String)
        ensures
            final(self).view_of() == old(self).view_of().push((url, false)),
    {
        self.memory.push((url, false));
    }
}

} // verus!

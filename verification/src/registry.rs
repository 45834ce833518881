//! Connection registries. The outbound registry holds the identities this
//! node can send to, with each peer's disclosed symmetric key and
//! initialisation vector; the inbound registry holds identities of
//! accepted sockets with their admission times, and treats entries past a
//! staleness window as already expired. The sockets themselves live with
//! the I/O layer; the registries hold and decide everything the protocol
//! logic reads.

use vstd::prelude::*;
use crate::network::{contains_str, strs_distinct};
use crate::order::str_eq;

verus! {

/// Inbound entries older than this many seconds are treated as expired.
pub const STALE_SECONDS: i64 = 60;

/// The first value stored under `id`, if any; unique when keys are
/// distinct.
pub open spec fn assoc_find<V>(s: Seq<(String, V)>, id: Seq<char>) -> Option<V>
    decreases s.len(),
{
    if s.len() == 0 {
        None
    } else if s[0].0@ == id {
        Some(s[0].1)
    } else {
        assoc_find(s.drop_first(), id)
    }
}

/// Pairwise-distinct keys.
pub open spec fn keys_distinct<V>(s: Seq<(String, V)>) -> bool {
    forall|i: int, j: int| 0 <= i < j < s.len() ==> #[trigger] s[i].0@ != #[trigger] s[j].0@
}

/// Lookup distributes over concatenation: the left part wins if it knows
/// the key.
pub proof fn lemma_assoc_app<V>(s1: Seq<(String, V)>, s2: Seq<(String, V)>, id: Seq<char>)
    ensures
        assoc_find(s1 + s2, id) == if assoc_find(s1, id) is Some {
            assoc_find(s1, id)
        } else {
            assoc_find(s2, id)
        },
    decreases s1.len(),
{
    if s1.len() == 0 {
        assert(s1 + s2 =~= s2);
    } else {
        assert((s1 + s2).drop_first() =~= s1.drop_first() + s2);
        lemma_assoc_app(s1.drop_first(), s2, id);
    }
}

/// A lookup that succeeds names an index, and conversely.
pub proof fn lemma_assoc_index<V>(s: Seq<(String, V)>, id: Seq<char>)
    ensures
        assoc_find(s, id) is Some <==> exists|i: int| 0 <= i < s.len() && #[trigger] s[i].0@
            == id,
    decreases s.len(),
{
    if s.len() > 0 {
        lemma_assoc_index(s.drop_first(), id);
        if s[0].0@ != id && assoc_find(s, id) is Some {
            let i = choose|i: int| 0 <= i < s.drop_first().len()
                && #[trigger] s.drop_first()[i].0@ == id;
            assert(s[i + 1].0@ == id);
        }
        if exists|i: int| 0 <= i < s.len() && #[trigger] s[i].0@ == id {
            let i = choose|i: int| 0 <= i < s.len() && #[trigger] s[i].0@ == id;
            if s[0].0@ != id {
                assert(s.drop_first()[i - 1].0@ == id);
            }
        }
    }
}

/// After removing the first entry for `id` from a distinct-keyed list,
/// lookups change only for `id`.
pub proof fn lemma_assoc_remove<V>(s0: Seq<(String, V)>, s1: Seq<(String, V)>, id: Seq<char>,
    k: int)
    requires
        keys_distinct(s0),
        0 <= k < s0.len(),
        s0[k].0@ == id,
        forall|i: int| 0 <= i < k ==> #[trigger] s0[i].0@ != id,
        s1 =~= s0.take(k) + s0.skip(k + 1),
    ensures
        keys_distinct(s1),
        assoc_find(s1, id) is None,
        forall|x: Seq<char>| x != id ==> #[trigger] assoc_find(s1, x) == assoc_find(s0, x),
{
    assert forall|i: int, j: int| 0 <= i < j < s1.len() implies #[trigger] s1[i].0@
        != #[trigger] s1[j].0@ by {
        let i0: int = if i < k { i } else { i + 1 };
        let j0: int = if j < k { j } else { j + 1 };
        assert(s1[i] == s0[i0]);
        assert(s1[j] == s0[j0]);
    }
    assert forall|i: int| 0 <= i < s1.len() implies #[trigger] s1[i].0@ != id by {
        let i0: int = if i < k { i } else { i + 1 };
        assert(s1[i] == s0[i0]);
        if i0 > k {
            assert(s0[k].0@ != s0[i0].0@);
        }
    }
    lemma_assoc_index(s1, id);
    assert forall|x: Seq<char>| x != id implies #[trigger] assoc_find(s1, x) == assoc_find(s0,
        x) by {
        lemma_assoc_app(s0.take(k), s0.skip(k + 1), x);
        lemma_assoc_app(s0.take(k), seq![s0[k]] + s0.skip(k + 1), x);
        assert(s0 =~= s0.take(k) + (seq![s0[k]] + s0.skip(k + 1)));
        assert((seq![s0[k]] + s0.skip(k + 1)).drop_first() =~= s0.skip(k + 1));
        assert(assoc_find(seq![s0[k]] + s0.skip(k + 1), x) == assoc_find(s0.skip(k + 1), x));
    }
}

/// Position of the first entry for `id`, with the lookup it decides.
pub fn assoc_position<V>(v: &Vec<(String, V)>, id: &str) -> (r: Option<usize>)
    ensures
        match r {
            Some(i) => i < v@.len() && v@[i as int].0@ == id@ && (forall|j: int| 0 <= j < i
                ==> #[trigger] v@[j].0@ != id@) && assoc_find(v@, id@) == Some(v@[i as int].1),
            None => (forall|j: int| 0 <= j < v@.len() ==> #[trigger] v@[j].0@ != id@)
                && assoc_find(v@, id@) is None,
        },
{
    let n = v.len();
    let mut k: usize = 0;
    while k < n
        invariant
            k <= n,
            n == v@.len(),
            forall|j: int| 0 <= j < k ==> #[trigger] v@[j].0@ != id@,
        decreases n - k,
    {
        if str_eq(v[k].0.as_str(), id) {
            proof {
                lemma_assoc_skip(v@, id@, k as int);
                assert(v@.skip(k as int)[0] == v@[k as int]);
            }
            return Some(k);
        }
        k = k + 1;
    }
    proof {
        lemma_assoc_skip(v@, id@, n as int);
        assert(v@.skip(n as int) =~= Seq::<(String, V)>::empty());
    }
    None
}

/// Skipping entries that do not match leaves the lookup unchanged.
pub proof fn lemma_assoc_skip<V>(s: Seq<(String, V)>, id: Seq<char>, k: int)
    requires
        0 <= k <= s.len(),
        forall|i: int| 0 <= i < k ==> #[trigger] s[i].0@ != id,
    ensures
        assoc_find(s, id) == assoc_find(s.skip(k), id),
    decreases k,
{
    if k > 0 {
        assert(s.drop_first() =~= s.skip(1));
        assert forall|i: int| 0 <= i < k - 1 implies #[trigger] s.skip(1)[i].0@ != id by {
            assert(s.skip(1)[i] == s[i + 1]);
        }
        lemma_assoc_skip(s.skip(1), id, k - 1);
        assert(s.skip(1).skip(k - 1) =~= s.skip(k));
    } else {
        assert(s.skip(0) =~= s);
    }
}

/// Removes the entry for `id`, if any; lookups for other keys are
/// untouched.
pub fn assoc_remove<V>(v: &mut Vec<(String, V)>, id: &str)
    requires
        keys_distinct(old(v)@),
    ensures
        keys_distinct(final(v)@),
        assoc_find(final(v)@, id@) is None,
        forall|x: Seq<char>| x != id@ ==> #[trigger] assoc_find(final(v)@, x) == assoc_find(
            old(v)@, x),
        forall|i: int| 0 <= i < final(v)@.len() ==> exists|j: int| 0 <= j < old(v)@.len()
            && #[trigger] final(v)@[i] == old(v)@[j],
{
    let ghost s0 = v@;
    match assoc_position(v, id) {
        Some(i) => {
            v.remove(i);
            proof {
                assert(v@ =~= s0.take(i as int) + s0.skip(i as int + 1));
                lemma_assoc_remove(s0, v@, id@, i as int);
                assert forall|t: int| 0 <= t < v@.len() implies exists|j: int| 0 <= j < s0.len()
                    && #[trigger] v@[t] == s0[j] by {
                    let j0: int = if t < i { t } else { t + 1 };
                    assert(v@[t] == s0[j0]);
                }
            }
        },
        None => {
            proof {
                lemma_assoc_index(v@, id@);
                assert forall|t: int| 0 <= t < v@.len() implies exists|j: int| 0 <= j < s0.len()
                    && #[trigger] v@[t] == s0[j] by {
                    assert(v@[t] == s0[t]);
                }
            }
        },
    }
}

/// Inserts `id -> value`, replacing any previous entry; lookups for other
/// keys are untouched.
pub fn assoc_insert<V>(v: &mut Vec<(String, V)>, id: String, value: V)
    requires
        keys_distinct(old(v)@),
    ensures
        keys_distinct(final(v)@),
        assoc_find(final(v)@, id@) == Some(value),
        forall|x: Seq<char>| x != id@ ==> #[trigger] assoc_find(final(v)@, x) == assoc_find(
            old(v)@, x),
        forall|i: int| 0 <= i < final(v)@.len() ==> #[trigger] final(v)@[i].1 == value || exists|
            j: int| 0 <= j < old(v)@.len() && final(v)@[i] == #[trigger] old(v)@[j],
{
    assoc_remove(v, id.as_str());
    let ghost s1 = v@;
    v.push((id, value));
    proof {
        assert(v@ =~= s1 + seq![v@.last()]);
        lemma_assoc_app(s1, seq![v@.last()], v@.last().0@);
        assert(seq![v@.last()].drop_first() =~= Seq::<(String, V)>::empty());
        lemma_assoc_index(s1, v@.last().0@);
        assert forall|x: Seq<char>| x != v@.last().0@ implies #[trigger] assoc_find(v@, x)
            == assoc_find(s1, x) by {
            lemma_assoc_app(s1, seq![v@.last()], x);
            assert(assoc_find(seq![v@.last()], x) is None) by {
                assert(seq![v@.last()].drop_first() =~= Seq::<(String, V)>::empty());
                assert(assoc_find(Seq::<(String, V)>::empty(), x) is None);
            }
        }
        assert forall|i: int, j: int| 0 <= i < j < v@.len() implies #[trigger] v@[i].0@
            != #[trigger] v@[j].0@ by {
            if j == v@.len() - 1 {
                lemma_assoc_index(s1, v@[j].0@);
                if v@[i].0@ == v@[j].0@ {
                    assert(s1[i].0@ == v@[j].0@);
                }
            }
        }
    }
}

/// The outbound registry: the peers this node can currently send to, and
/// the symmetric key and initialisation vector each peer disclosed.
pub struct ManagerClient {
    peers: Vec<String>,
    keys: Vec<(String, (Vec<u8>, Vec<u8>))>,
}

impl ManagerClient {
    /// Well-formedness: no duplicate peers, no duplicate key entries, and
    /// every stored key 32 bytes with a 16-byte initialisation vector.
    pub closed spec fn wf(&self) -> bool {
        &&& strs_distinct(self.peers@)
        &&& keys_distinct(self.keys@)
        &&& forall|i: int| 0 <= i < self.keys@.len() ==> (#[trigger] self.keys@[i].1).0@.len()
            == 32 && self.keys@[i].1.1@.len() == 16
    }

    /// The connected peer identities.
    pub closed spec fn peers_view(&self) -> Seq<String> {
        self.peers@
    }

    /// The disclosed key material per identity.
    pub closed spec fn key_of(&self, id: Seq<char>) -> Option<(Vec<u8>, Vec<u8>)> {
        assoc_find(self.keys@, id)
    }

    /// An empty registry.
    pub fn new() -> (r: ManagerClient)
        ensures
            r.wf(),
            r.peers_view().len() == 0,
            forall|x: Seq<char>| #[trigger] r.key_of(x) is None,
    {
        let r = ManagerClient { peers: Vec::new(), keys: Vec::new() };
        proof {
            assert forall|x: Seq<char>| #[trigger] r.key_of(x) is None by {
                lemma_assoc_index(r.keys@, x);
            }
        }
        r
    }

    /// Registers `id` as connected; the key table is untouched.
    pub fn add_client(&mut self, id: String)
        requires
            old(self).wf(),
        ensures
            final(self).wf(),
            forall|x: Seq<char>| contains_str(final(self).peers_view(), x) <==> (contains_str(
                old(self).peers_view(), x) || x == id@),
            forall|x: Seq<char>| #[trigger] final(self).key_of(x) == old(self).key_of(x),
    {
        let ghost m0 = self.peers@;
        let mut found = false;
        let n = self.peers.len();
        let mut k: usize = 0;
        while k < n
            invariant
                k <= n,
                n == self.peers@.len(),
                self.peers@ == m0,
                !found ==> forall|i: int| 0 <= i < k ==> #[trigger] self.peers@[i]@ != id@,
                found ==> contains_str(self.peers@, id@),
            decreases n - k,
        {
            if str_eq(self.peers[k].as_str(), id.as_str()) {
                found = true;
            }
            k = k + 1;
        }
        if !found {
            self.peers.push(id);
            proof {
                assert(self.peers@[m0.len() as int]@ == self.peers@.last()@);
                assert forall|x: Seq<char>| contains_str(self.peers@, x) implies (contains_str(
                    m0, x) || x == self.peers@.last()@) by {
                    let i = choose|i: int| 0 <= i < self.peers@.len()
                        && #[trigger] self.peers@[i]@ == x;
                    if i < m0.len() {
                        assert(m0[i]@ == x);
                    }
                }
                assert forall|x: Seq<char>| contains_str(m0, x) implies contains_str(
                    self.peers@, x) by {
                    let i = choose|i: int| 0 <= i < m0.len() && #[trigger] m0[i]@ == x;
                    assert(self.peers@[i]@ == x);
                }
            }
        }
    }

    /// Stores the key material a peer disclosed for `id`, replacing any
    /// previous entry; the peer list is untouched.
    pub fn add_key(&mut self, id: String, key: Vec<u8>, iv: Vec<u8>)
        requires
            old(self).wf(),
            key@.len() == 32,
            iv@.len() == 16,
        ensures
            final(self).wf(),
            final(self).key_of(id@) == Some((key, iv)),
            forall|x: Seq<char>| x != id@ ==> #[trigger] final(self).key_of(x)
                == old(self).key_of(x),
            final(self).peers_view() == old(self).peers_view(),
    {
        let ghost k0 = self.keys@;
        let ghost kv = (key, iv);
        assoc_insert(&mut self.keys, id, (key, iv));
        proof {
            assert forall|i: int| 0 <= i < self.keys@.len() implies (
                #[trigger] self.keys@[i].1).0@.len() == 32 && self.keys@[i].1.1@.len() == 16 by {
                if self.keys@[i].1 == kv {
                } else {
                    let j = choose|j: int| 0 <= j < k0.len() && self.keys@[i] == #[trigger] k0[
                        j];
                    assert((k0[j].1).0@.len() == 32 && k0[j].1.1@.len() == 16);
                }
            }
        }
    }

    /// Whether `id` is currently connected.
    pub fn contains(&self, id: &str) -> (r: bool)
        ensures
            r == contains_str(self.peers_view(), id@),
    {
        let n = self.peers.len();
        let mut k: usize = 0;
        while k < n
            invariant
                k <= n,
                n == self.peers@.len(),
                forall|i: int| 0 <= i < k ==> #[trigger] self.peers@[i]@ != id@,
            decreases n - k,
        {
            if str_eq(self.peers[k].as_str(), id) {
                return true;
            }
            k = k + 1;
        }
        false
    }

    /// How many peers are connected.
    pub fn len(&self) -> (r: usize)
        ensures
            r == self.peers_view().len(),
    {
        self.peers.len()
    }

    /// The key material to use for `id`, if `id` is connected and disclosed
    /// one: exactly then is a send possible.
    pub fn use_client(&self, id: &str) -> (r: Option<(Vec<u8>, Vec<u8>)>)
        requires
            self.wf(),
        ensures
            match r {
                Some(ki) => contains_str(self.peers_view(), id@) && self.key_of(id@) is Some
                    && ki.0@ == self.key_of(id@)->Some_0.0@ && ki.1@ == self.key_of(
                    id@)->Some_0.1@ && ki.0@.len() == 32 && ki.1@.len() == 16,
                None => !contains_str(self.peers_view(), id@) || self.key_of(id@) is None,
            },
    {
        if !self.contains(id) {
            return None;
        }
        match assoc_position(&self.keys, id) {
            Some(i) => {
                let key = vstd::slice::slice_to_vec(self.keys[i].1.0.as_slice());
                let iv = vstd::slice::slice_to_vec(self.keys[i].1.1.as_slice());
                proof {
                    assert((self.keys@[i as int].1).0@.len() == 32);
                }
                Some((key, iv))
            },
            None => None,
        }
    }

    /// Evicts `id`: both its connection entry and its key material.
    pub fn remove_client(&mut self, id: &str)
        requires
            old(self).wf(),
        ensures
            final(self).wf(),
            !contains_str(final(self).peers_view(), id@),
            final(self).key_of(id@) is None,
            forall|x: Seq<char>| x != id@ ==> (contains_str(final(self).peers_view(), x)
                <==> contains_str(old(self).peers_view(), x)),
            forall|x: Seq<char>| x != id@ ==> #[trigger] final(self).key_of(x)
                == old(self).key_of(x),
    {
        let ghost p0 = self.peers@;
        let n = self.peers.len();
        let mut k: usize = 0;
        while k < n
            invariant
                k <= n,
                n == self.peers@.len(),
                *self == *old(self),
                self.peers@ == p0,
                old(self).wf(),
                strs_distinct(p0),
                forall|i: int| 0 <= i < k ==> #[trigger] self.peers@[i]@ != id@,
            decreases n - k,
        {
            if str_eq(self.peers[k].as_str(), id) {
                self.peers.remove(k);
                proof {
                    let p1 = self.peers@;
                    assert(p1 =~= p0.take(k as int) + p0.skip(k as int + 1));
                    assert forall|i: int| 0 <= i < p1.len() implies #[trigger] p1[i]@ != id@ by {
                        let i0: int = if i < k { i } else { i + 1 };
                        assert(p1[i] == p0[i0]);
                        if i0 > k {
                            assert(p0[k as int]@ != p0[i0]@);
                        }
                    }
                    assert forall|i: int, j: int| 0 <= i < j < p1.len()
                        implies #[trigger] p1[i]@ != #[trigger] p1[j]@ by {
                        let i0: int = if i < k { i } else { i + 1 };
                        let j0: int = if j < k { j } else { j + 1 };
                        assert(p1[i] == p0[i0] && p1[j] == p0[j0]);
                    }
                    assert forall|x: Seq<char>| x != id@ implies (contains_str(p1, x)
                        <==> contains_str(p0, x)) by {
                        if contains_str(p1, x) {
                            let i = choose|i: int| 0 <= i < p1.len() && #[trigger] p1[i]@ == x;
                            let i0: int = if i < k { i } else { i + 1 };
                            assert(p0[i0]@ == x);
                        }
                        if contains_str(p0, x) {
                            let i = choose|i: int| 0 <= i < p0.len() && #[trigger] p0[i]@ == x;
                            if i < k {
                                assert(p1[i]@ == x);
                            } else if i > k {
                                assert(p1[i - 1]@ == x);
                            }
                        }
                    }
                }
                assoc_remove(&mut self.keys, id);
                proof {
                    lemma_key_entries_kept(old(self).keys@, self.keys@);
                }
                return;
            }
            k = k + 1;
        }
        assoc_remove(&mut self.keys, id);
        proof {
            lemma_key_entries_kept(old(self).keys@, self.keys@);
        }
    }

    /// All connected peer identities.
    pub fn get_connected_clients(&self) -> (r: Vec<String>)
        ensures
            r@.len() == self.peers_view().len(),
            forall|i: int| 0 <= i < r@.len() ==> #[trigger] r@[i]@ == self.peers_view()[i]@,
    {
        let n = self.peers.len();
        let mut r: Vec<String> = Vec::new();
        let mut k: usize = 0;
        while k < n
            invariant
                k <= n,
                n == self.peers@.len(),
                r@.len() == k,
                forall|i: int| 0 <= i < k ==> #[trigger] r@[i]@ == self.peers@[i]@,
            decreases n - k,
        {
            r.push(self.peers[k].clone());
            k = k + 1;
        }
        r
    }

    /// The peers a relayed message goes to: everyone but the sender, one
    /// entry per eligible peer.
    pub fn get_to_send_clients(&self, from: &str) -> (r: Vec<String>)
        requires
            self.wf(),
        ensures
            strs_distinct(r@),
            r@.len() == count_except(self.peers_view(), from@),
            forall|x: Seq<char>| #[trigger] contains_str(r@, x) <==> (contains_str(
                self.peers_view(), x) && x != from@),
    {
        let n = self.peers.len();
        let mut r: Vec<String> = Vec::new();
        let mut k: usize = 0;
        while k < n
            invariant
                k <= n,
                n == self.peers@.len(),
                self.wf(),
                strs_distinct(r@),
                r@.len() == count_except(self.peers@.take(k as int), from@),
                forall|x: Seq<char>| #[trigger] contains_str(r@, x) <==> (exists|i: int| 0 <= i
                    < k && #[trigger] self.peers@[i]@ == x && x != from@),
            decreases n - k,
        {
            let ghost r0 = r@;
            proof {
                let t1 = self.peers@.take(k + 1);
                assert(t1.drop_last() =~= self.peers@.take(k as int));
                assert(t1.last() == self.peers@[k as int]);
            }
            if !str_eq(self.peers[k].as_str(), from) {
                r.push(self.peers[k].clone());
                proof {
                    assert(r@.last()@ == self.peers@[k as int]@);
                    assert forall|x: Seq<char>| #[trigger] contains_str(r@, x) implies (exists|
                        i: int| 0 <= i < k + 1 && #[trigger] self.peers@[i]@ == x && x != from@)
                        by {
                        let i = choose|i: int| 0 <= i < r@.len() && #[trigger] r@[i]@ == x;
                        if i < r0.len() {
                            assert(contains_str(r0, x)) by {
                                assert(r0[i]@ == x);
                            }
                        } else {
                            assert(self.peers@[k as int]@ == x);
                        }
                    }
                    assert forall|x: Seq<char>| (exists|i: int| 0 <= i < k + 1
                        && #[trigger] self.peers@[i]@ == x && x != from@)
                        implies #[trigger] contains_str(r@, x) by {
                        let i = choose|i: int| 0 <= i < k + 1 && #[trigger] self.peers@[i]@ == x
                            && x != from@;
                        if i < k {
                            assert(contains_str(r0, x));
                            let t = choose|t: int| 0 <= t < r0.len() && #[trigger] r0[t]@ == x;
                            assert(r@[t]@ == x);
                        } else {
                            assert(r@[r@.len() - 1]@ == x);
                        }
                    }
                    assert forall|i: int, j: int| 0 <= i < j < r@.len()
                        implies #[trigger] r@[i]@ != #[trigger] r@[j]@ by {
                        if j == r@.len() - 1 {
                            assert(contains_str(r0, r@[i]@)) by {
                                assert(r0[i]@ == r@[i]@);
                            }
                            let t = choose|t: int| 0 <= t < k && #[trigger] self.peers@[t]@
                                == r@[i]@ && r@[i]@ != from@;
                            if r@[i]@ == r@[j]@ {
                                assert(self.peers@[t]@ == self.peers@[k as int]@);
                            }
                        }
                    }
                }
            } else {
                proof {
                    assert forall|x: Seq<char>| #[trigger] contains_str(r@, x) implies (exists|
                        i: int| 0 <= i < k + 1 && #[trigger] self.peers@[i]@ == x && x != from@)
                        by {
                        let i = choose|i: int| 0 <= i < k && #[trigger] self.peers@[i]@ == x && x
                            != from@;
                        assert(0 <= i < k + 1 && self.peers@[i]@ == x && x != from@);
                    }
                }
            }
            k = k + 1;
        }
        proof {
            assert(self.peers@.take(n as int) =~= self.peers@);
            assert forall|x: Seq<char>| #[trigger] contains_str(r@, x) <==> (contains_str(
                self.peers@, x) && x != from@) by {
            }
        }
        r
    }

    /// A uniformly random subset of the peers, excluding the sender:
    /// exactly the requested size, or all eligible peers where fewer are
    /// connected.
    pub fn get_random_selection(&self, size: u32, from: &str) -> (r: Vec<String>)
        requires
            self.wf(),
        ensures
            strs_distinct(r@),
            r@.len() == vstd::math::min(size as int, count_except(self.peers_view(), from@)),
            forall|i: int| 0 <= i < r@.len() ==> contains_str(self.peers_view(),
                #[trigger] r@[i]@) && r@[i]@ != from@,
    {
        let candidates = self.get_to_send_clients(from);
        let picked = sample_strings(&candidates, size as usize);
        proof {
            assert forall|i: int| 0 <= i < picked@.len() implies contains_str(self.peers_view(),
                #[trigger] picked@[i]@) && picked@[i]@ != from@ by {
                assert(contains_str(candidates@, picked@[i]@));
            }
        }
        picked
    }
}

/// Entries surviving an eviction keep their shape: every entry of the new
/// key table is one of the old entries.
proof fn lemma_key_entries_kept(k0: Seq<(String, (Vec<u8>, Vec<u8>))>, k1: Seq<(String, (
    Vec<u8>, Vec<u8>))>)
    requires
        forall|i: int| 0 <= i < k0.len() ==> (#[trigger] k0[i].1).0@.len() == 32
            && k0[i].1.1@.len() == 16,
        forall|i: int| 0 <= i < k1.len() ==> exists|j: int| 0 <= j < k0.len()
            && #[trigger] k1[i] == k0[j],
    ensures
        forall|i: int| 0 <= i < k1.len() ==> (#[trigger] k1[i].1).0@.len() == 32
            && k1[i].1.1@.len() == 16,
{
    assert forall|i: int| 0 <= i < k1.len() implies (#[trigger] k1[i].1).0@.len() == 32
        && k1[i].1.1@.len() == 16 by {
        let j = choose|j: int| 0 <= j < k0.len() && k1[i] == #[trigger] k0[j];
        assert((k0[j].1).0@.len() == 32);
    }
}

/// How many entries differ from `x`: the number of peers eligible to
/// receive a message whose sender is `x`.
pub open spec fn count_except(s: Seq<String>, x: Seq<char>) -> int
    decreases s.len(),
{
    if s.len() == 0 {
        0
    } else {
        count_except(s.drop_last(), x) + if s.last()@ != x {
            1int
        } else {
            0int
        }
    }
}

/// Relies on rand's IteratorRandom::choose_multiple: a uniform sample of
/// distinct positions, of the requested size where enough items exist;
/// order of the sample is unspecified.
#[verifier::external_body]
fn sample_strings(items: &Vec<String>, k: usize) -> (r: Vec<String>)
    requires
        strs_distinct(items@),
    ensures
        r@.len() == if k <= items@.len() {
            k as int
        } else {
            items@.len() as int
        },
        forall|i: int| 0 <= i < r@.len() ==> contains_str(items@, #[trigger] r@[i]@),
        strs_distinct(r@),
{
    let mut rng = rand::rng();
    rand::seq::IteratorRandom::choose_multiple(items.iter().cloned(), &mut rng, k)
}

/// The inbound registry: identities of accepted sockets with their
/// admission times. The sockets themselves stay with the I/O layer, keyed
/// by the same identities.
pub struct ManagerServer {
    peers: Vec<(String, i64)>,
}

impl ManagerServer {
    /// Well-formedness: no duplicate identities, admission times never
    /// negative.
    pub closed spec fn wf(&self) -> bool {
        &&& keys_distinct(self.peers@)
        &&& forall|i: int| 0 <= i < self.peers@.len() ==> #[trigger] self.peers@[i].1 >= 0
    }

    /// The admission time recorded for `id`, if any.
    pub closed spec fn time_of(&self, id: Seq<char>) -> Option<i64> {
        assoc_find(self.peers@, id)
    }

    /// An empty registry.
    pub fn new() -> (r: ManagerServer)
        ensures
            r.wf(),
            forall|x: Seq<char>| #[trigger] r.time_of(x) is None,
    {
        let r = ManagerServer { peers: Vec::new() };
        proof {
            assert forall|x: Seq<char>| #[trigger] r.time_of(x) is None by {
                lemma_assoc_index(r.peers@, x);
            }
        }
        r
    }

    /// Records an accepted socket for `id` at time `now`, replacing any
    /// previous entry.
    pub fn add_server(&mut self, id: String, now: i64)
        requires
            old(self).wf(),
            0 <= now,
        ensures
            final(self).wf(),
            final(self).time_of(id@) == Some(now),
            forall|x: Seq<char>| x != id@ ==> #[trigger] final(self).time_of(x)
                == old(self).time_of(x),
    {
        let ghost s0 = self.peers@;
        assoc_insert(&mut self.peers, id, now);
        proof {
            assert forall|i: int| 0 <= i < self.peers@.len()
                implies #[trigger] self.peers@[i].1 >= 0 by {
                if self.peers@[i].1 == now {
                } else {
                    let j = choose|j: int| 0 <= j < s0.len() && self.peers@[i] == #[trigger] s0[
                        j];
                    assert(s0[j].1 >= 0);
                }
            }
        }
    }

    /// Whether an entry for `id` is present, expired or not.
    pub fn contains(&self, id: &str) -> (r: bool)
        ensures
            r == (self.time_of(id@) is Some),
    {
        match assoc_position(&self.peers, id) {
            Some(_) => true,
            None => false,
        }
    }

    /// Drops every entry older than the staleness window.
    pub fn cleanup(&mut self, now: i64)
        requires
            old(self).wf(),
            0 <= now,
        ensures
            final(self).wf(),
            forall|x: Seq<char>| #[trigger] final(self).time_of(x) == match old(self).time_of(
                x) {
                Some(t) => if now - t <= STALE_SECONDS {
                    Some(t)
                } else {
                    None::<i64>
                },
                None => None::<i64>,
            },
    {
        let ghost s0 = self.peers@;
        let n = self.peers.len();
        let mut kept: Vec<(String, i64)> = Vec::new();
        let mut k: usize = 0;
        while k < n
            invariant
                k <= n,
                n == self.peers@.len(),
                self.peers@ == s0,
                keys_distinct(s0),
                keys_distinct(kept@),
                forall|x: Seq<char>| #[trigger] assoc_find(kept@, x) == match assoc_find(
                    s0.take(k as int), x) {
                    Some(t) => if now - t <= STALE_SECONDS {
                        Some(t)
                    } else {
                        None::<i64>
                    },
                    None => None::<i64>,
                },
                forall|i: int| 0 <= i < kept@.len() ==> exists|j: int| 0 <= j < k
                    && #[trigger] kept@[i] == s0[j],
                forall|i: int| 0 <= i < s0.len() ==> #[trigger] s0[i].1 >= 0,
                0 <= now,
            decreases n - k,
        {
            let t = self.peers[k].1;
            let keep = now - t <= STALE_SECONDS;
            proof {
                let tk1 = s0.take(k + 1);
                assert(tk1 =~= s0.take(k as int) + seq![s0[k as int]]);
                assert forall|x: Seq<char>| #[trigger] assoc_find(tk1, x) == (if assoc_find(
                    s0.take(k as int), x) is Some {
                    assoc_find(s0.take(k as int), x)
                } else {
                    if x == s0[k as int].0@ {
                        Some(s0[k as int].1)
                    } else {
                        None::<i64>
                    }
                }) by {
                    lemma_assoc_app(s0.take(k as int), seq![s0[k as int]], x);
                    assert(seq![s0[k as int]].drop_first() =~= Seq::<(String, i64)>::empty());
                    assert(assoc_find(Seq::<(String, i64)>::empty(), x) is None);
                }
                assert(assoc_find(s0.take(k as int), s0[k as int].0@) is None) by {
                    lemma_assoc_index(s0.take(k as int), s0[k as int].0@);
                    if assoc_find(s0.take(k as int), s0[k as int].0@) is Some {
                        let i = choose|i: int| 0 <= i < k && #[trigger] s0.take(k as int)[i].0@
                            == s0[k as int].0@;
                        assert(s0[i].0@ != s0[k as int].0@);
                    }
                }
            }
            if keep {
                let ghost kept0 = kept@;
                kept.push((self.peers[k].0.clone(), t));
                proof {
                    let e = kept@.last();
                    assert(e.0@ == s0[k as int].0@ && e.1 == t);
                    assert(kept@ =~= kept0 + seq![e]);
                    assert forall|x: Seq<char>| true implies #[trigger] assoc_find(kept@, x)
                        == (if assoc_find(kept0, x) is Some {
                        assoc_find(kept0, x)
                    } else {
                        if x == e.0@ {
                            Some(e.1)
                        } else {
                            None::<i64>
                        }
                    }) by {
                        lemma_assoc_app(kept0, seq![e], x);
                        assert(seq![e].drop_first() =~= Seq::<(String, i64)>::empty());
                        assert(assoc_find(Seq::<(String, i64)>::empty(), x) is None);
                    }
                    assert forall|i: int, j: int| 0 <= i < j < kept@.len()
                        implies #[trigger] kept@[i].0@ != #[trigger] kept@[j].0@ by {
                        if j == kept@.len() - 1 {
                            let a = choose|a: int| 0 <= a < k && #[trigger] kept@[i] == s0[a];
                            assert(s0[a].0@ != s0[k as int].0@);
                        }
                    }
                }
            }
            k = k + 1;
        }
        assert(s0.take(n as int) =~= s0);
        proof {
            assert forall|i: int| 0 <= i < kept@.len() implies #[trigger] kept@[i].1 >= 0 by {
                let j = choose|j: int| 0 <= j < n && kept@[i] == #[trigger] s0[j];
                assert(s0[j].1 >= 0);
            }
        }
        self.peers = kept;
    }

    /// Removes the entry for `id` and says whether a fresh socket was
    /// there: true exactly when an entry existed and its admission time is
    /// within the staleness window. An expired entry is dropped but
    /// reported as already gone.
    pub fn remove_server(&mut self, id: &str, now: i64) -> (r: bool)
        requires
            old(self).wf(),
            0 <= now,
        ensures
            final(self).wf(),
            final(self).time_of(id@) is None,
            forall|x: Seq<char>| x != id@ ==> #[trigger] final(self).time_of(x)
                == old(self).time_of(x),
            r == match old(self).time_of(id@) {
                Some(t) => now - t <= STALE_SECONDS,
                None => false,
            },
    {
        let ghost s0 = self.peers@;
        let found = match assoc_position(&self.peers, id) {
            Some(i) => {
                let t = self.peers[i].1;
                proof {
                    assert(s0[i as int].1 >= 0);
                }
                Some(t)
            },
            None => None,
        };
        assoc_remove(&mut self.peers, id);
        proof {
            assert forall|i: int| 0 <= i < self.peers@.len()
                implies #[trigger] self.peers@[i].1 >= 0 by {
                let j = choose|j: int| 0 <= j < s0.len() && self.peers@[i] == #[trigger] s0[j];
                assert(s0[j].1 >= 0);
            }
        }
        match found {
            Some(t) => now - t <= STALE_SECONDS,
            None => false,
        }
    }
}

} // verus!

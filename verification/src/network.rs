//! The gossiped network view: a ledger of stake, reward and penalty per
//! node identity, kept strictly ascending by identity; a shared 32-byte
//! seed; and three per-round sets — `maintain` (creators whose broadcast
//! this node has already forwarded), `committee` (the currently elected
//! subset) and `received` (the dedupe guard shared by block-bearing
//! messages).

use vstd::prelude::*;
use vstd::utf8::encode_utf8;
use crate::order::{str_lt, str_lt_exec, str_eq, lemma_str_lt_connected, lemma_lex_irrefl,
    lemma_lex_trans};

verus! {

/// Per-node ledger entry. After any committee round the stake lies in
/// [1, 100]; reward and penalty are per-round accumulators and never
/// negative.
#[derive(Clone, Copy, Debug)]
pub struct NodeInfo {
    /// Election weight.
    pub stake: i32,
    /// Accumulated per-round reward.
    pub reward: i32,
    /// Accumulated per-round penalty.
    pub penalty: i32,
}

/// A well-formed ledger entry.
pub open spec fn node_ok(n: NodeInfo) -> bool {
    &&& 1 <= n.stake <= 100
    &&& 0 <= n.reward
    &&& 0 <= n.penalty
}

/// The first entry for `id`, if any. On a well-formed view the entry is
/// unique, so this is plain map lookup.
pub open spec fn spec_find(s: Seq<(String, NodeInfo)>, id: Seq<char>) -> Option<NodeInfo>
    decreases s.len(),
{
    if s.len() == 0 {
        None
    } else if s[0].0@ == id {
        Some(s[0].1)
    } else {
        spec_find(s.drop_first(), id)
    }
}

/// Whether the view knows `id`.
pub open spec fn contains_node(s: Seq<(String, NodeInfo)>, id: Seq<char>) -> bool {
    spec_find(s, id) is Some
}

/// Entries strictly ascending by identity.
pub open spec fn ids_sorted(s: Seq<(String, NodeInfo)>) -> bool {
    forall|i: int, j: int| 0 <= i < j < s.len() ==> #[trigger] str_lt(s[i].0@, s[j].0@)
}

/// Every entry well formed.
pub open spec fn nodes_ok(s: Seq<(String, NodeInfo)>) -> bool {
    forall|i: int| 0 <= i < s.len() ==> #[trigger] node_ok(s[i].1)
}

/// Membership of `x` in a list of strings.
pub open spec fn contains_str(s: Seq<String>, x: Seq<char>) -> bool {
    exists|i: int| 0 <= i < s.len() && #[trigger] s[i]@ == x
}

/// Pairwise-distinct strings.
pub open spec fn strs_distinct(s: Seq<String>) -> bool {
    forall|i: int, j: int| 0 <= i < j < s.len() ==> #[trigger] s[i]@ != #[trigger] s[j]@
}

/// Strictly ascending strings.
pub open spec fn strs_sorted(s: Seq<String>) -> bool {
    forall|i: int, j: int| 0 <= i < j < s.len() ==> #[trigger] str_lt(s[i]@, s[j]@)
}

/// Skipping entries that do not match leaves the lookup unchanged.
pub proof fn lemma_find_skip(s: Seq<(String, NodeInfo)>, id: Seq<char>, k: int)
    requires
        0 <= k <= s.len(),
        forall|i: int| 0 <= i < k ==> #[trigger] s[i].0@ != id,
    ensures
        spec_find(s, id) == spec_find(s.skip(k), id),
    decreases k,
{
    if k > 0 {
        assert(s.drop_first() =~= s.skip(1));
        assert forall|i: int| 0 <= i < k - 1 implies #[trigger] s.skip(1)[i].0@ != id by {
            assert(s.skip(1)[i] == s[i + 1]);
        }
        lemma_find_skip(s.skip(1), id, k - 1);
        assert(s.skip(1).skip(k - 1) =~= s.skip(k));
    } else {
        assert(s.skip(0) =~= s);
    }
}

/// Lookup distributes over concatenation: the left part wins if it knows
/// the identity.
pub proof fn lemma_find_app(s1: Seq<(String, NodeInfo)>, s2: Seq<(String, NodeInfo)>,
    id: Seq<char>)
    ensures
        spec_find(s1 + s2, id) == if spec_find(s1, id) is Some {
            spec_find(s1, id)
        } else {
            spec_find(s2, id)
        },
    decreases s1.len(),
{
    if s1.len() == 0 {
        assert(s1 + s2 =~= s2);
    } else {
        assert((s1 + s2).drop_first() =~= s1.drop_first() + s2);
        lemma_find_app(s1.drop_first(), s2, id);
    }
}

/// A lookup that succeeds names an index, and conversely.
pub proof fn lemma_find_index(s: Seq<(String, NodeInfo)>, id: Seq<char>)
    ensures
        contains_node(s, id) <==> exists|i: int| 0 <= i < s.len() && #[trigger] s[i].0@ == id,
    decreases s.len(),
{
    if s.len() > 0 {
        lemma_find_index(s.drop_first(), id);
        if s[0].0@ != id && contains_node(s, id) {
            let i = choose|i: int| 0 <= i < s.drop_first().len()
                && #[trigger] s.drop_first()[i].0@ == id;
            assert(s[i + 1].0@ == id);
        }
        if exists|i: int| 0 <= i < s.len() && #[trigger] s[i].0@ == id {
            let i = choose|i: int| 0 <= i < s.len() && #[trigger] s[i].0@ == id;
            if s[0].0@ != id {
                assert(s.drop_first()[i - 1].0@ == id);
            }
        }
    }
}

/// A successful lookup returns the value stored at some index.
pub proof fn lemma_find_value(s: Seq<(String, NodeInfo)>, id: Seq<char>)
    ensures
        match spec_find(s, id) {
            Some(v) => exists|i: int| 0 <= i < s.len() && #[trigger] s[i].0@ == id && s[i].1
                == v,
            None => true,
        },
    decreases s.len(),
{
    if s.len() > 0 {
        lemma_find_value(s.drop_first(), id);
        if s[0].0@ != id && spec_find(s, id) is Some {
            let v = spec_find(s, id)->Some_0;
            let i = choose|i: int| 0 <= i < s.drop_first().len()
                && #[trigger] s.drop_first()[i].0@ == id && s.drop_first()[i].1 == v;
            assert(s[i + 1].0@ == id && s[i + 1].1 == v);
        }
    }
}

/// The network view.
#[derive(Debug)]
pub struct ManagerNetwork {
    nodes: Vec<(String, NodeInfo)>,
    maintain: Vec<String>,
    committee: Vec<String>,
    received: Vec<String>,
    seed: Vec<u8>,
}

/// A name for what `blake3::hash` returns on given bytes.
pub uninterp spec fn blake3_of(data: Seq<u8>) -> Seq<u8>;

/// Relies on blake3::hash: the digest is a pure function of the input
/// bytes and is 32 bytes long.
#[verifier::external_body]
pub fn blake3_hash(data: &[u8]) -> (r: Vec<u8>)
    ensures
        r@ == blake3_of(data@),
        r@.len() == 32,
{
    blake3::hash(data).as_bytes().to_vec()
}

impl ManagerNetwork {
    /// Well-formedness: entries ascending and in range, the seed 32 bytes,
    /// the per-round sets free of duplicates, the committee ascending.
    pub closed spec fn wf(&self) -> bool {
        &&& ids_sorted(self.nodes@)
        &&& nodes_ok(self.nodes@)
        &&& self.seed@.len() == 32
        &&& strs_distinct(self.maintain@)
        &&& strs_distinct(self.received@)
        &&& strs_sorted(self.committee@)
    }

    /// The ledger entries, ascending by identity.
    pub closed spec fn nodes_view(&self) -> Seq<(String, NodeInfo)> {
        self.nodes@
    }

    /// The shared gossip seed.
    pub closed spec fn seed_view(&self) -> Seq<u8> {
        self.seed@
    }

    /// Creators already forwarded this round.
    pub closed spec fn maintain_view(&self) -> Seq<String> {
        self.maintain@
    }

    /// The elected committee, ascending.
    pub closed spec fn committee_view(&self) -> Seq<String> {
        self.committee@
    }

    /// Creators whose block already arrived this round.
    pub closed spec fn received_view(&self) -> Seq<String> {
        self.received@
    }

    /// An empty view with the well-known default seed.
    pub fn new() -> (r: ManagerNetwork)
        ensures
            r.wf(),
            r.nodes_view().len() == 0,
            r.maintain_view().len() == 0,
            r.committee_view().len() == 0,
            r.received_view().len() == 0,
            r.seed_view() == blake3_of(encode_utf8("DefaultSeed"@)),
    {
        let seed = blake3_hash("DefaultSeed".as_bytes());
        ManagerNetwork {
            nodes: Vec::new(),
            maintain: Vec::new(),
            committee: Vec::new(),
            received: Vec::new(),
            seed,
        }
    }

    /// Index of the first entry whose identity is not below `id`; entries
    /// before it are strictly below `id`.
    fn lower_bound(&self, id: &str) -> (r: usize)
        requires
            self.wf(),
        ensures
            r <= self.nodes@.len(),
            forall|i: int| 0 <= i < r ==> str_lt(#[trigger] self.nodes@[i].0@, id@),
            forall|i: int| r <= i < self.nodes@.len() ==> !str_lt(
                #[trigger] self.nodes@[i].0@, id@),
    {
        let n = self.nodes.len();
        let mut k: usize = 0;
        while k < n
            invariant
                k <= n,
                n == self.nodes@.len(),
                self.wf(),
                forall|i: int| 0 <= i < k ==> str_lt(#[trigger] self.nodes@[i].0@, id@),
            decreases n - k,
        {
            if !str_lt_exec(self.nodes[k].0.as_str(), id) {
                proof {
                    assert forall|i: int| k <= i < self.nodes@.len() implies !str_lt(
                        #[trigger] self.nodes@[i].0@, id@) by {
                        if i > k && str_lt(self.nodes@[i].0@, id@) {
                            assert(str_lt(self.nodes@[k as int].0@, self.nodes@[i].0@));
                            lemma_lex_trans(encode_utf8(self.nodes@[k as int].0@),
                                encode_utf8(self.nodes@[i].0@), encode_utf8(id@), 0);
                        }
                    }
                }
                return k;
            }
            k = k + 1;
        }
        k
    }

    /// Inserts `url` with the given ledger values, replacing any previous
    /// entry; every other entry is untouched.
    pub fn insert_node(&mut self, url: String, stake: i32, reward: i32, penalty: i32)
        requires
            old(self).wf(),
            1 <= stake <= 100,
            0 <= reward,
            0 <= penalty,
        ensures
            final(self).wf(),
            spec_find(final(self).nodes_view(), url@) == Some(NodeInfo { stake, reward, penalty }),
            forall|x: Seq<char>| x != url@ ==> #[trigger] spec_find(final(self).nodes_view(), x)
                == spec_find(old(self).nodes_view(), x),
            final(self).seed_view() == old(self).seed_view(),
            final(self).maintain_view() == old(self).maintain_view(),
            final(self).committee_view() == old(self).committee_view(),
            final(self).received_view() == old(self).received_view(),
    {
        let info = NodeInfo { stake, reward, penalty };
        let p = self.lower_bound(url.as_str());
        let ghost s0 = self.nodes@;
        if p < self.nodes.len() && str_eq(self.nodes[p].0.as_str(), url.as_str()) {
            self.nodes[p] = (url, info);
            proof {
                let s1 = self.nodes@;
                assert(s1 =~= s0.take(p as int) + seq![s1[p as int]] + s0.skip(p as int + 1));
                lemma_after_insert(s0, s1, info, p as int);
            }
        } else {
            proof {
                if p < s0.len() {
                    if !str_lt(url@, s0[p as int].0@) {
                        lemma_str_lt_connected(s0[p as int].0@, url@);
                    }
                    assert forall|i: int| p < i < s0.len() implies str_lt(url@,
                        #[trigger] s0[i].0@) by {
                        assert(str_lt(s0[p as int].0@, s0[i].0@));
                        lemma_lex_trans(encode_utf8(url@), encode_utf8(s0[p as int].0@),
                            encode_utf8(s0[i].0@), 0);
                    }
                }
            }
            self.nodes.insert(p, (url, info));
            proof {
                let e = self.nodes@[p as int];
                assert(self.nodes@ =~= s0.take(p as int) + seq![e] + s0.skip(p as int));
                lemma_after_insert_new(s0, e, p as int);
            }
        }
    }

    /// Whether the view knows `url`.
    pub fn exists_node(&self, url: &str) -> (r: bool)
        ensures
            r == contains_node(self.nodes_view(), url@),
    {
        let n = self.nodes.len();
        let mut k: usize = 0;
        while k < n
            invariant
                k <= n,
                n == self.nodes@.len(),
                forall|i: int| 0 <= i < k ==> #[trigger] self.nodes@[i].0@ != url@,
            decreases n - k,
        {
            if str_eq(self.nodes[k].0.as_str(), url) {
                proof {
                    lemma_find_index(self.nodes@, url@);
                }
                return true;
            }
            k = k + 1;
        }
        proof {
            lemma_find_index(self.nodes@, url@);
        }
        false
    }

    /// Removes the entry for `url`, if any; every other entry is
    /// untouched.
    pub fn remove_node(&mut self, url: &str)
        requires
            old(self).wf(),
        ensures
            final(self).wf(),
            spec_find(final(self).nodes_view(), url@) is None,
            forall|x: Seq<char>| x != url@ ==> #[trigger] spec_find(final(self).nodes_view(), x)
                == spec_find(old(self).nodes_view(), x),
            final(self).seed_view() == old(self).seed_view(),
            final(self).maintain_view() == old(self).maintain_view(),
            final(self).committee_view() == old(self).committee_view(),
            final(self).received_view() == old(self).received_view(),
    {
        let ghost s0 = self.nodes@;
        let n = self.nodes.len();
        let mut k: usize = 0;
        while k < n
            invariant
                k <= n,
                n == self.nodes@.len(),
                *self == *old(self),
                self.nodes@ == s0,
                old(self).wf(),
                forall|i: int| 0 <= i < k ==> #[trigger] self.nodes@[i].0@ != url@,
            decreases n - k,
        {
            if str_eq(self.nodes[k].0.as_str(), url) {
                self.nodes.remove(k);
                proof {
                    let s1 = self.nodes@;
                    assert(s1 =~= s0.take(k as int) + s0.skip(k as int + 1));
                    lemma_after_remove(s0, s1, url@, k as int);
                }
                return;
            }
            k = k + 1;
        }
        proof {
            lemma_find_index(self.nodes@, url@);
        }
    }
}

/// Whether a string list holds `x`, decided by scanning.
pub fn vec_contains_str(v: &Vec<String>, x: &str) -> (r: bool)
    ensures
        r == contains_str(v@, x@),
{
    let n = v.len();
    let mut k: usize = 0;
    while k < n
        invariant
            k <= n,
            n == v@.len(),
            forall|i: int| 0 <= i < k ==> #[trigger] v@[i]@ != x@,
        decreases n - k,
    {
        if str_eq(v[k].as_str(), x) {
            return true;
        }
        k = k + 1;
    }
    false
}

/// The committee entries that are not in `recv`, in committee order.
pub open spec fn filter_missing(c: Seq<String>, recv: Seq<String>) -> Seq<String>
    decreases c.len(),
{
    if c.len() == 0 {
        Seq::empty()
    } else {
        let rest = filter_missing(c.drop_last(), recv);
        if contains_str(recv, c.last()@) {
            rest
        } else {
            rest.push(c.last())
        }
    }
}

/// Membership in the filtered list is exactly membership in the committee
/// minus membership in `recv`.
pub proof fn lemma_filter_missing_contains(c: Seq<String>, recv: Seq<String>, x: Seq<char>)
    ensures
        contains_str(filter_missing(c, recv), x) <==> contains_str(c, x) && !contains_str(
            recv, x),
    decreases c.len(),
{
    if c.len() > 0 {
        lemma_filter_missing_contains(c.drop_last(), recv, x);
        let rest = filter_missing(c.drop_last(), recv);
        let f = filter_missing(c, recv);
        let pushed = !contains_str(recv, c.last()@);
        if contains_str(rest, x) {
            let i = choose|i: int| 0 <= i < rest.len() && #[trigger] rest[i]@ == x;
            assert(f[i]@ == x);
        }
        if pushed && x == c.last()@ {
            assert(f[f.len() - 1]@ == x);
        }
        if contains_str(f, x) {
            let i = choose|i: int| 0 <= i < f.len() && #[trigger] f[i]@ == x;
            if i < rest.len() {
                assert(rest[i]@ == x);
            }
        }
        if contains_str(c, x) {
            let i = choose|i: int| 0 <= i < c.len() && #[trigger] c[i]@ == x;
            if i < c.len() - 1 {
                assert(c.drop_last()[i]@ == x);
            }
        }
        if contains_str(c.drop_last(), x) {
            let i = choose|i: int| 0 <= i < c.drop_last().len() && #[trigger] c.drop_last()[i]@
                == x;
            assert(c[i]@ == x);
        }
        if x == c.last()@ {
            assert(c[c.len() - 1]@ == x);
        }
    }
}

/// Filtering keeps the order strict.
pub proof fn lemma_filter_missing_sorted(c: Seq<String>, recv: Seq<String>)
    requires
        strs_sorted(c),
    ensures
        strs_sorted(filter_missing(c, recv)),
    decreases c.len(),
{
    if c.len() > 0 {
        assert forall|i: int, j: int| 0 <= i < j < c.drop_last().len() implies #[trigger] str_lt(
            c.drop_last()[i]@, c.drop_last()[j]@) by {
            assert(str_lt(c[i]@, c[j]@));
        }
        lemma_filter_missing_sorted(c.drop_last(), recv);
        if !contains_str(recv, c.last()@) {
            let rest = filter_missing(c.drop_last(), recv);
            assert forall|i: int| 0 <= i < rest.len() implies str_lt(#[trigger] rest[i]@,
                c.last()@) by {
                lemma_filter_missing_contains(c.drop_last(), recv, rest[i]@);
                let j = choose|j: int| 0 <= j < c.drop_last().len()
                    && #[trigger] c.drop_last()[j]@ == rest[i]@;
                assert(str_lt(c[j]@, c.last()@));
            }
        }
    }
}

/// The element-wise merge of two optional ledger entries: the field-wise
/// maximum where both sides know the node, otherwise whichever side does.
pub open spec fn merge_info(a: Option<NodeInfo>, b: Option<NodeInfo>) -> Option<NodeInfo> {
    match (a, b) {
        (Some(x), Some(y)) => Some(NodeInfo {
            stake: if x.stake >= y.stake { x.stake } else { y.stake },
            reward: if x.reward >= y.reward { x.reward } else { y.reward },
            penalty: if x.penalty >= y.penalty { x.penalty } else { y.penalty },
        }),
        (Some(x), None) => Some(x),
        (None, Some(y)) => Some(y),
        (None, None) => None,
    }
}

impl ManagerNetwork {
    /// The ledger entry for `url`, if known.
    pub fn get_node(&self, url: &str) -> (r: Option<NodeInfo>)
        ensures
            r == spec_find(self.nodes_view(), url@),
    {
        let n = self.nodes.len();
        let mut k: usize = 0;
        while k < n
            invariant
                k <= n,
                n == self.nodes@.len(),
                forall|i: int| 0 <= i < k ==> #[trigger] self.nodes@[i].0@ != url@,
            decreases n - k,
        {
            if str_eq(self.nodes[k].0.as_str(), url) {
                proof {
                    lemma_find_skip(self.nodes@, url@, k as int);
                    assert(self.nodes@.skip(k as int)[0] == self.nodes@[k as int]);
                }
                return Some(self.nodes[k].1);
            }
            k = k + 1;
        }
        proof {
            lemma_find_skip(self.nodes@, url@, n as int);
            assert(self.nodes@.skip(n as int) =~= Seq::<(String, NodeInfo)>::empty());
        }
        None
    }

    /// Clears the per-round set of already-forwarded creators; a new
    /// maintenance round begins.
    pub fn prepare_for_maintenance(&mut self)
        requires
            old(self).wf(),
        ensures
            final(self).wf(),
            final(self).maintain_view().len() == 0,
            final(self).nodes_view() == old(self).nodes_view(),
            final(self).seed_view() == old(self).seed_view(),
            final(self).committee_view() == old(self).committee_view(),
            final(self).received_view() == old(self).received_view(),
    {
        self.maintain.clear();
    }

    /// Marks `from` as already forwarded this round; everything else is
    /// untouched.
    pub fn mark_maintenance(&mut self, from: String)
        requires
            old(self).wf(),
        ensures
            final(self).wf(),
            forall|x: Seq<char>| contains_str(final(self).maintain_view(), x) <==> (contains_str(
                old(self).maintain_view(), x) || x == from@),
            final(self).nodes_view() == old(self).nodes_view(),
            final(self).seed_view() == old(self).seed_view(),
            final(self).committee_view() == old(self).committee_view(),
            final(self).received_view() == old(self).received_view(),
    {
        if !vec_contains_str(&self.maintain, from.as_str()) {
            let ghost m0 = self.maintain@;
            self.maintain.push(from);
            proof {
                assert(self.maintain@[m0.len() as int]@ == self.maintain@.last()@);
                assert forall|x: Seq<char>| contains_str(self.maintain@, x) implies (contains_str(
                    m0, x) || x == self.maintain@.last()@) by {
                    let i = choose|i: int| 0 <= i < self.maintain@.len()
                        && #[trigger] self.maintain@[i]@ == x;
                    if i < m0.len() {
                        assert(m0[i]@ == x);
                    }
                }
                assert forall|x: Seq<char>| contains_str(m0, x) implies contains_str(
                    self.maintain@, x) by {
                    let i = choose|i: int| 0 <= i < m0.len() && #[trigger] m0[i]@ == x;
                    assert(self.maintain@[i]@ == x);
                }
            }
        }
    }

    /// Whether `from`'s broadcast was already forwarded this round.
    pub fn was_maintained_by(&self, from: &str) -> (r: bool)
        ensures
            r == contains_str(self.maintain_view(), from@),
    {
        vec_contains_str(&self.maintain, from)
    }

    /// Marks a creator's block as received this round; everything else is
    /// untouched.
    pub fn mark_received(&mut self, node_url: String)
        requires
            old(self).wf(),
        ensures
            final(self).wf(),
            forall|x: Seq<char>| contains_str(final(self).received_view(), x) <==> (contains_str(
                old(self).received_view(), x) || x == node_url@),
            final(self).nodes_view() == old(self).nodes_view(),
            final(self).seed_view() == old(self).seed_view(),
            final(self).committee_view() == old(self).committee_view(),
            final(self).maintain_view() == old(self).maintain_view(),
    {
        if !vec_contains_str(&self.received, node_url.as_str()) {
            let ghost m0 = self.received@;
            self.received.push(node_url);
            proof {
                assert(self.received@[m0.len() as int]@ == self.received@.last()@);
                assert forall|x: Seq<char>| contains_str(self.received@, x) implies (contains_str(
                    m0, x) || x == self.received@.last()@) by {
                    let i = choose|i: int| 0 <= i < self.received@.len()
                        && #[trigger] self.received@[i]@ == x;
                    if i < m0.len() {
                        assert(m0[i]@ == x);
                    }
                }
                assert forall|x: Seq<char>| contains_str(m0, x) implies contains_str(
                    self.received@, x) by {
                    let i = choose|i: int| 0 <= i < m0.len() && #[trigger] m0[i]@ == x;
                    assert(self.received@[i]@ == x);
                }
            }
        }
    }

    /// Whether a block from this creator already arrived this round.
    pub fn has_received(&self, node_url: &str) -> (r: bool)
        ensures
            r == contains_str(self.received_view(), node_url@),
    {
        vec_contains_str(&self.received, node_url)
    }

    /// The current committee, ascending by identity.
    pub fn get_committee(&self) -> (r: Vec<String>)
        ensures
            r@.len() == self.committee_view().len(),
            forall|i: int| 0 <= i < r@.len() ==> #[trigger] r@[i]@ == self.committee_view()[i]@,
    {
        let n = self.committee.len();
        let mut r: Vec<String> = Vec::new();
        let mut k: usize = 0;
        while k < n
            invariant
                k <= n,
                n == self.committee@.len(),
                r@.len() == k,
                forall|i: int| 0 <= i < k ==> #[trigger] r@[i]@ == self.committee@[i]@,
            decreases n - k,
        {
            r.push(self.committee[k].clone());
            k = k + 1;
        }
        r
    }

    /// Every known identity with its stake, ascending by identity.
    pub fn get_all_nodes(&self) -> (r: Vec<(String, i32)>)
        ensures
            r@.len() == self.nodes_view().len(),
            forall|i: int| 0 <= i < r@.len() ==> #[trigger] r@[i].0@ == self.nodes_view()[i].0@
                && r@[i].1 == self.nodes_view()[i].1.stake,
    {
        let n = self.nodes.len();
        let mut r: Vec<(String, i32)> = Vec::new();
        let mut k: usize = 0;
        while k < n
            invariant
                k <= n,
                n == self.nodes@.len(),
                r@.len() == k,
                forall|i: int| 0 <= i < k ==> #[trigger] r@[i].0@ == self.nodes@[i].0@
                    && r@[i].1 == self.nodes@[i].1.stake,
            decreases n - k,
        {
            r.push((self.nodes[k].0.clone(), self.nodes[k].1.stake));
            k = k + 1;
        }
        r
    }

    /// The committee members whose block has not arrived this round: the
    /// nodes a catch-up request should name.
    pub fn missing_nodes(&self) -> (r: Vec<String>)
        requires
            self.wf(),
        ensures
            r@ == filter_missing(self.committee_view(), self.received_view()),
            forall|x: Seq<char>| #[trigger] contains_str(r@, x) <==> (contains_str(
                self.committee_view(), x) && !contains_str(self.received_view(), x)),
            strs_sorted(r@),
    {
        let n = self.committee.len();
        let mut r: Vec<String> = Vec::new();
        let mut k: usize = 0;
        while k < n
            invariant
                k <= n,
                n == self.committee@.len(),
                self.wf(),
                r@ == filter_missing(self.committee@.take(k as int), self.received@),
            decreases n - k,
        {
            proof {
                let c1 = self.committee@.take(k + 1);
                assert(c1.drop_last() =~= self.committee@.take(k as int));
                assert(c1.last() == self.committee@[k as int]);
            }
            if !vec_contains_str(&self.received, self.committee[k].as_str()) {
                r.push(self.committee[k].clone());
            }
            k = k + 1;
        }
        assert(self.committee@.take(n as int) =~= self.committee@);
        proof {
            assert forall|x: Seq<char>| #[trigger] contains_str(r@, x) <==> (contains_str(
                self.committee@, x) && !contains_str(self.received@, x)) by {
                lemma_filter_missing_contains(self.committee@, self.received@, x);
            }
            lemma_filter_missing_sorted(self.committee@, self.received@);
        }
        r
    }

    /// Merges a received view into this one: for each incoming identity the
    /// ledger becomes the field-wise maximum of the two entries, or the
    /// incoming entry where the identity is new; the seed becomes the
    /// byte-wise maximum of the two seeds. The per-round sets are untouched.
    #[verifier::loop_isolation(false)]
    pub fn perform_maintenance(&mut self, received_network: ManagerNetwork)
        requires
            old(self).wf(),
            received_network.wf(),
        ensures
            final(self).wf(),
            forall|x: Seq<char>| #[trigger] spec_find(final(self).nodes_view(), x) == merge_info(
                spec_find(old(self).nodes_view(), x),
                spec_find(received_network.nodes_view(), x)),
            final(self).seed_view().len() == 32,
            forall|i: int| 0 <= i < 32 ==> final(self).seed_view()[i] == vstd::math::max(
                old(self).seed_view()[i] as int, received_network.seed_view()[i] as int),
            final(self).maintain_view() == old(self).maintain_view(),
            final(self).committee_view() == old(self).committee_view(),
            final(self).received_view() == old(self).received_view(),
    {
        let inc = received_network.nodes;
        let n = inc.len();
        let mut k: usize = 0;
        while k < n
            invariant
                k <= n,
                n == inc@.len(),
                self.wf(),
                ids_sorted(inc@),
                nodes_ok(inc@),
                forall|x: Seq<char>| #[trigger] spec_find(self.nodes_view(), x) == merge_info(
                    spec_find(old(self).nodes_view(), x), spec_find(inc@.take(k as int), x)),
                self.seed_view() == old(self).seed_view(),
                self.maintain_view() == old(self).maintain_view(),
                self.committee_view() == old(self).committee_view(),
                self.received_view() == old(self).received_view(),
            decreases n - k,
        {
            let id = inc[k].0.clone();
            let info = inc[k].1;
            proof {
                assert(node_ok(inc@[k as int].1));
            }
            let found = self.get_node(id.as_str());
            proof {
                if found is Some {
                    lemma_find_value(self.nodes@, id@);
                    let i = choose|i: int| 0 <= i < self.nodes@.len()
                        && #[trigger] self.nodes@[i].0@ == id@ && self.nodes@[i].1
                        == found->Some_0;
                    assert(node_ok(self.nodes@[i].1));
                }
            }
            let merged = match found {
                Some(local) => NodeInfo {
                    stake: if local.stake >= info.stake { local.stake } else { info.stake },
                    reward: if local.reward >= info.reward { local.reward } else { info.reward },
                    penalty: if local.penalty >= info.penalty {
                        local.penalty
                    } else {
                        info.penalty
                    },
                },
                None => info,
            };
            let ghost pre = self.nodes_view();
            self.insert_node(id, merged.stake, merged.reward, merged.penalty);
            proof {
                let ck1 = inc@.take(k + 1);
                let ck = inc@.take(k as int);
                let e = inc@[k as int];
                let idv = e.0@;
                assert(ck1 =~= ck + seq![e]);
                assert forall|x: Seq<char>| #[trigger] spec_find(ck1, x) == (if spec_find(ck,
                    x) is Some {
                    spec_find(ck, x)
                } else {
                    if x == idv {
                        Some(e.1)
                    } else {
                        None
                    }
                }) by {
                    lemma_find_app(ck, seq![e], x);
                    assert(seq![e].drop_first() =~= Seq::<(String, NodeInfo)>::empty());
                    assert(spec_find(Seq::<(String, NodeInfo)>::empty(), x) is None);
                    assert(spec_find(seq![e], x) == (if x == idv {
                        Some(e.1)
                    } else {
                        None
                    }));
                }
                assert(spec_find(ck, idv) is None) by {
                    lemma_find_index(ck, idv);
                    if contains_node(ck, idv) {
                        let i = choose|i: int| 0 <= i < ck.len() && #[trigger] ck[i].0@ == idv;
                        assert(str_lt(inc@[i].0@, inc@[k as int].0@));
                        lemma_lex_irrefl(encode_utf8(idv), 0);
                    }
                }
                assert(spec_find(ck1, idv) == Some(e.1));
                assert(spec_find(self.nodes_view(), idv) == Some(merged));
                assert(merged == merge_info(spec_find(old(self).nodes_view(), idv),
                    spec_find(ck1, idv))->Some_0) by {
                    assert(spec_find(pre, idv) == merge_info(spec_find(old(self).nodes_view(),
                        idv), spec_find(ck, idv)));
                }
                assert forall|x: Seq<char>| #[trigger] spec_find(self.nodes_view(), x)
                    == merge_info(spec_find(old(self).nodes_view(), x), spec_find(ck1, x)) by {
                    if x != idv {
                        assert(spec_find(self.nodes_view(), x) == spec_find(pre, x));
                        assert(spec_find(ck1, x) == spec_find(ck, x));
                    }
                }
            }
            k = k + 1;
        }
        assert(inc@.take(n as int) =~= inc@);
        let inc_seed = received_network.seed;
        let mut new_seed: Vec<u8> = Vec::new();
        let mut i: usize = 0;
        while i < 32
            invariant
                i <= 32,
                new_seed@.len() == i,
                forall|j: int| 0 <= j < i ==> new_seed@[j] == vstd::math::max(
                    self.seed@[j] as int, inc_seed@[j] as int),
            decreases 32 - i,
        {
            let a = self.seed[i];
            let b = inc_seed[i];
            new_seed.push(if a >= b {
                a
            } else {
                b
            });
            i = i + 1;
        }
        self.seed = new_seed;
    }
}

/// The 64-bit value of the first eight digest bytes, least significant
/// first.
pub open spec fn le64_val(b: Seq<u8>) -> u64
    recommends
        b.len() >= 8,
{
    (b[0] as u64) | ((b[1] as u64) << 8) | ((b[2] as u64) << 16) | ((b[3] as u64) << 24)
        | ((b[4] as u64) << 32) | ((b[5] as u64) << 40) | ((b[6] as u64) << 48)
        | ((b[7] as u64) << 56)
}

/// The election hash of one identity under a seed: the digest of the seed
/// followed by the identity's UTF-8 bytes, read as a 64-bit value.
pub open spec fn score_hash(seed: Seq<u8>, id: Seq<char>) -> u64 {
    le64_val(blake3_of(seed + encode_utf8(id)))
}

/// Whether the score `h1 / s1` is strictly below `h2 / s2`, compared
/// exactly by cross-multiplication; stakes are positive.
pub open spec fn score_lt(h1: u64, s1: int, h2: u64, s2: int) -> bool {
    h1 * s2 < h2 * s1
}

/// A scored candidate: identity, election hash, stake.
pub type Candidate = (String, u64, i32);

/// Whether candidate `i` precedes candidate `j`: a strictly lower score,
/// or an equal score and an earlier position. A strict total order on
/// positions.
pub open spec fn cand_lt(sc: Seq<Candidate>, i: int, j: int) -> bool {
    let si = sc[i];
    let sj = sc[j];
    ||| score_lt(si.1, si.2 as int, sj.1, sj.2 as int)
    ||| (!score_lt(si.1, si.2 as int, sj.1, sj.2 as int) && !score_lt(sj.1, sj.2 as int, si.1,
        si.2 as int) && i < j)
}

/// How many of the first `m` candidates precede candidate `i`.
pub open spec fn rank_below(sc: Seq<Candidate>, i: int, m: int) -> int
    decreases m,
{
    if m <= 0 {
        0
    } else {
        rank_below(sc, i, m - 1) + if cand_lt(sc, m - 1, i) {
            1int
        } else {
            0int
        }
    }
}

/// A candidate is elected when fewer than `k` candidates precede it: it is
/// among the `k` lowest scores.
pub open spec fn spec_elected(sc: Seq<Candidate>, k: int, i: int) -> bool {
    rank_below(sc, i, sc.len() as int) < k
}

/// The identities of the elected candidates among the first `m`, in input
/// order.
pub open spec fn elected_prefix(sc: Seq<Candidate>, k: int, m: int) -> Seq<String>
    decreases m,
{
    if m <= 0 {
        Seq::empty()
    } else {
        let rest = elected_prefix(sc, k, m - 1);
        if spec_elected(sc, k, m - 1) {
            rest.push(sc[m - 1].0)
        } else {
            rest
        }
    }
}

/// The elected identities of the whole candidate list, in input order.
pub open spec fn spec_committee(sc: Seq<Candidate>, k: int) -> Seq<String> {
    elected_prefix(sc, k, sc.len() as int)
}

/// Each elected identity is one of the candidates, and conversely every
/// elected candidate's identity appears.
pub proof fn lemma_elected_prefix_contains(sc: Seq<Candidate>, k: int, m: int, x: Seq<char>)
    requires
        0 <= m <= sc.len(),
    ensures
        contains_str(elected_prefix(sc, k, m), x) <==> exists|i: int| 0 <= i < m
            && #[trigger] sc[i].0@ == x && spec_elected(sc, k, i),
    decreases m,
{
    if m > 0 {
        lemma_elected_prefix_contains(sc, k, m - 1, x);
        let rest = elected_prefix(sc, k, m - 1);
        let f = elected_prefix(sc, k, m);
        if contains_str(rest, x) {
            let i = choose|i: int| 0 <= i < rest.len() && #[trigger] rest[i]@ == x;
            assert(f[i]@ == x);
        }
        if spec_elected(sc, k, m - 1) && sc[m - 1].0@ == x {
            assert(f[f.len() - 1]@ == x);
        }
        if contains_str(f, x) {
            let i = choose|i: int| 0 <= i < f.len() && #[trigger] f[i]@ == x;
            if i < rest.len() {
                assert(rest[i]@ == x);
            }
        }
    }
}

/// Compares two scored candidates exactly, by cross-multiplication in wide
/// arithmetic.
pub fn score_lt_exec(h1: u64, s1: i32, h2: u64, s2: i32) -> (r: bool)
    requires
        1 <= s1 <= 100,
        1 <= s2 <= 100,
    ensures
        r == score_lt(h1, s1 as int, h2, s2 as int),
{
    proof {
        assert((h1 as int) * (s2 as int) <= 0xffff_ffff_ffff_ffff * 100int
            && (h2 as int) * (s1 as int) <= 0xffff_ffff_ffff_ffff * 100int
            && (h1 as int) * (s2 as int) >= 0 && (h2 as int) * (s1 as int) >= 0)
            by (nonlinear_arith)
            requires
                h1 <= 0xffff_ffff_ffff_ffff,
                h2 <= 0xffff_ffff_ffff_ffff,
                1 <= s1 <= 100,
                1 <= s2 <= 100,
        ;
    }
    let a: u128 = (h1 as u128) * (s2 as u128);
    let b: u128 = (h2 as u128) * (s1 as u128);
    a < b
}

/// Elects a committee of (up to) `size` from scored candidates: exactly
/// those whose score ranks among the `size` lowest, with ties favouring
/// the earlier candidate; the result keeps the input order. The committee
/// is a pure function of the candidate list, so repeated runs on the same
/// inputs agree.
pub fn elect_committee(candidates: &Vec<Candidate>, size: u32) -> (r: Vec<String>)
    requires
        forall|i: int| 0 <= i < candidates@.len() ==> 1 <= #[trigger] candidates@[i].2 <= 100,
    ensures
        r@ == spec_committee(candidates@, size as int),
{
    let n = candidates.len();
    let mut r: Vec<String> = Vec::new();
    let mut i: usize = 0;
    while i < n
        invariant
            i <= n,
            n == candidates@.len(),
            forall|t: int| 0 <= t < candidates@.len() ==> 1 <= #[trigger] candidates@[t].2
                <= 100,
            r@ == elected_prefix(candidates@, size as int, i as int),
        decreases n - i,
    {
        let mut count: u64 = 0;
        let mut j: usize = 0;
        while j < n
            invariant
                j <= n,
                i < n,
                n == candidates@.len(),
                forall|t: int| 0 <= t < candidates@.len() ==> 1 <= #[trigger] candidates@[t].2
                    <= 100,
                count == rank_below(candidates@, i as int, j as int),
                count <= j,
            decreases n - j,
        {
            let before = score_lt_exec(candidates[j].1, candidates[j].2, candidates[i].1,
                candidates[i].2);
            let after = score_lt_exec(candidates[i].1, candidates[i].2, candidates[j].1,
                candidates[j].2);
            if before || (!before && !after && j < i) {
                count = count + 1;
            }
            j = j + 1;
        }
        if count < size as u64 {
            r.push(candidates[i].0.clone());
        }
        i = i + 1;
    }
    r
}

/// The committee member identities concatenated in committee order, the
/// preimage of the next seed.
pub open spec fn concat_ids(c: Seq<String>) -> Seq<u8>
    decreases c.len(),
{
    if c.len() == 0 {
        Seq::empty()
    } else {
        concat_ids(c.drop_last()) + encode_utf8(c.last()@)
    }
}

/// The reward or penalty share of each committee member this round.
pub open spec fn pool_base(committee_len: int, pool: int) -> int {
    pool / (if committee_len >= 1 {
        committee_len
    } else {
        1
    })
}

/// One node's ledger after a committee round: members lose their reward
/// and accrue penalty, non-members accrue reward and lose their penalty;
/// the stake moves by the difference and is clamped into [1, 100].
/// Accumulators saturate at the i32 maximum.
pub open spec fn refresh_info(n: NodeInfo, member: bool, base_reward: int, base_penalty: int)
    -> NodeInfo {
    let reward: int = if member {
        0
    } else {
        if n.reward + base_reward > i32::MAX {
            i32::MAX as int
        } else {
            n.reward + base_reward
        }
    };
    let penalty: int = if member {
        if n.penalty + base_penalty > i32::MAX {
            i32::MAX as int
        } else {
            n.penalty + base_penalty
        }
    } else {
        0
    };
    let moved: int = n.stake + reward - penalty;
    let stake: int = if moved < 1 {
        1
    } else if moved > 100 {
        100
    } else {
        moved
    };
    NodeInfo { stake: stake as i32, reward: reward as i32, penalty: penalty as i32 }
}

/// The total reward pool split per committee round.
pub const REWARD_POOL: i64 = 30;

/// The total penalty pool split per committee round.
pub const PENALTY_POOL: i64 = 50;

impl ManagerNetwork {
    /// Scores every known node under the current seed: the digest of
    /// seed followed by the identity's bytes, as a 64-bit value.
    fn compute_candidates(&self) -> (r: Vec<Candidate>)
        requires
            self.wf(),
        ensures
            r@.len() == self.nodes_view().len(),
            forall|i: int| 0 <= i < r@.len() ==> #[trigger] r@[i].0 == self.nodes_view()[i].0,
            forall|i: int| 0 <= i < r@.len() ==> #[trigger] r@[i].1 == score_hash(
                self.seed_view(), self.nodes_view()[i].0@),
            forall|i: int| 0 <= i < r@.len() ==> #[trigger] r@[i].2
                == self.nodes_view()[i].1.stake,
    {
        let n = self.nodes.len();
        let mut r: Vec<Candidate> = Vec::new();
        let mut i: usize = 0;
        while i < n
            invariant
                i <= n,
                n == self.nodes@.len(),
                self.wf(),
                r@.len() == i,
                forall|t: int| 0 <= t < i ==> #[trigger] r@[t].0 == self.nodes@[t].0,
                forall|t: int| 0 <= t < i ==> #[trigger] r@[t].1 == score_hash(self.seed@,
                    self.nodes@[t].0@),
                forall|t: int| 0 <= t < i ==> #[trigger] r@[t].2 == self.nodes@[t].1.stake,
            decreases n - i,
        {
            let mut buf: Vec<u8> = Vec::new();
            crate::codec::push_bytes(&mut buf, self.seed.as_slice());
            crate::codec::push_bytes(&mut buf, self.nodes[i].0.as_str().as_bytes());
            assert(buf@ =~= self.seed@ + encode_utf8(self.nodes@[i as int].0@));
            let digest = blake3_hash(buf.as_slice());
            let hv: u64 = (digest[0] as u64) | ((digest[1] as u64) << 8)
                | ((digest[2] as u64) << 16) | ((digest[3] as u64) << 24)
                | ((digest[4] as u64) << 32) | ((digest[5] as u64) << 40)
                | ((digest[6] as u64) << 48) | ((digest[7] as u64) << 56);
            r.push((self.nodes[i].0.clone(), hv, self.nodes[i].1.stake));
            i = i + 1;
        }
        r
    }

    /// Splits the pools over the committee and updates every node's
    /// ledger as `refresh_info` states.
    fn refresh_stakes(&mut self)
        requires
            old(self).wf(),
        ensures
            final(self).wf(),
            final(self).nodes_view().len() == old(self).nodes_view().len(),
            forall|i: int| 0 <= i < old(self).nodes_view().len() ==> {
                &&& #[trigger] final(self).nodes_view()[i].0 == old(self).nodes_view()[i].0
                &&& final(self).nodes_view()[i].1 == refresh_info(old(self).nodes_view()[i].1,
                    contains_str(old(self).committee_view(), old(self).nodes_view()[i].0@),
                    pool_base(old(self).committee_view().len() as int, REWARD_POOL as int),
                    pool_base(old(self).committee_view().len() as int, PENALTY_POOL as int))
            },
            final(self).seed_view() == old(self).seed_view(),
            final(self).maintain_view() == old(self).maintain_view(),
            final(self).committee_view() == old(self).committee_view(),
            final(self).received_view() == old(self).received_view(),
    {
        let committee_len = self.committee.len();
        let denom: u64 = if committee_len >= 1 {
            committee_len as u64
        } else {
            1
        };
        let base_reward: i64 = ((REWARD_POOL as u64) / denom) as i64;
        let base_penalty: i64 = ((PENALTY_POOL as u64) / denom) as i64;
        let n = self.nodes.len();
        let mut updated: Vec<(String, NodeInfo)> = Vec::new();
        let mut i: usize = 0;
        while i < n
            invariant
                i <= n,
                n == self.nodes@.len(),
                self.wf(),
                base_reward == pool_base(self.committee@.len() as int, REWARD_POOL as int),
                base_penalty == pool_base(self.committee@.len() as int, PENALTY_POOL as int),
                0 <= base_reward <= 30,
                0 <= base_penalty <= 50,
                updated@.len() == i,
                forall|t: int| 0 <= t < i ==> #[trigger] updated@[t].0 == self.nodes@[t].0,
                forall|t: int| 0 <= t < i ==> #[trigger] updated@[t].1 == refresh_info(
                    self.nodes@[t].1, contains_str(self.committee@, self.nodes@[t].0@),
                    base_reward as int, base_penalty as int),
            decreases n - i,
        {
            let member = vec_contains_str(&self.committee, self.nodes[i].0.as_str());
            let info = self.nodes[i].1;
            let reward: i32 = if member {
                0
            } else {
                let wide: i64 = info.reward as i64 + base_reward;
                if wide > i32::MAX as i64 {
                    i32::MAX
                } else {
                    wide as i32
                }
            };
            let penalty: i32 = if member {
                let wide: i64 = info.penalty as i64 + base_penalty;
                if wide > i32::MAX as i64 {
                    i32::MAX
                } else {
                    wide as i32
                }
            } else {
                0
            };
            let moved: i64 = info.stake as i64 + reward as i64 - penalty as i64;
            let stake: i32 = if moved < 1 {
                1
            } else if moved > 100 {
                100
            } else {
                moved as i32
            };
            updated.push((self.nodes[i].0.clone(), NodeInfo { stake, reward, penalty }));
            i = i + 1;
        }
        proof {
            assert forall|a: int, b: int| 0 <= a < b < updated@.len() implies #[trigger] str_lt(
                updated@[a].0@, updated@[b].0@) by {
                assert(str_lt(self.nodes@[a].0@, self.nodes@[b].0@));
            }
            assert forall|t: int| 0 <= t < updated@.len() implies #[trigger] node_ok(
                updated@[t].1) by {
                assert(node_ok(self.nodes@[t].1));
                assert(updated@[t].1 == refresh_info(self.nodes@[t].1, contains_str(
                    self.committee@, self.nodes@[t].0@), base_reward as int,
                    base_penalty as int));
            }
        }
        self.nodes = updated;
    }

    /// Rehashes the seed from the concatenation of the committee member
    /// identities in committee order.
    fn update_seed(&mut self)
        requires
            old(self).wf(),
        ensures
            final(self).wf(),
            final(self).seed_view() == blake3_of(concat_ids(old(self).committee_view())),
            final(self).nodes_view() == old(self).nodes_view(),
            final(self).maintain_view() == old(self).maintain_view(),
            final(self).committee_view() == old(self).committee_view(),
            final(self).received_view() == old(self).received_view(),
    {
        let n = self.committee.len();
        let mut buf: Vec<u8> = Vec::new();
        let mut i: usize = 0;
        while i < n
            invariant
                i <= n,
                n == self.committee@.len(),
                *self == *old(self),
                buf@ == concat_ids(self.committee@.take(i as int)),
            decreases n - i,
        {
            proof {
                let c1 = self.committee@.take(i + 1);
                assert(c1.drop_last() =~= self.committee@.take(i as int));
                assert(c1.last() == self.committee@[i as int]);
            }
            crate::codec::push_bytes(&mut buf, self.committee[i].as_str().as_bytes());
            i = i + 1;
        }
        assert(self.committee@.take(n as int) =~= self.committee@);
        let digest = blake3_hash(buf.as_slice());
        self.seed = digest;
    }

    /// A committee round: elects the committee from the current stakes and
    /// seed, splits the pools over it, rehashes the seed from the elected
    /// identities, and opens a fresh dedupe window.
    pub fn choose_committee(&mut self, size: u32)
        requires
            old(self).wf(),
        ensures
            final(self).wf(),
            ({
                let sc = Seq::new(old(self).nodes_view().len(), |i: int| (
                    old(self).nodes_view()[i].0,
                    score_hash(old(self).seed_view(), old(self).nodes_view()[i].0@),
                    old(self).nodes_view()[i].1.stake,
                ));
                &&& final(self).committee_view() == spec_committee(sc, size as int)
                &&& final(self).seed_view() == blake3_of(concat_ids(spec_committee(sc,
                    size as int)))
                &&& final(self).nodes_view().len() == old(self).nodes_view().len()
                &&& forall|i: int| 0 <= i < old(self).nodes_view().len() ==> {
                    &&& #[trigger] final(self).nodes_view()[i].0 == old(self).nodes_view()[i].0
                    &&& final(self).nodes_view()[i].1 == refresh_info(
                        old(self).nodes_view()[i].1, contains_str(spec_committee(sc,
                            size as int), old(self).nodes_view()[i].0@), pool_base(
                            spec_committee(sc, size as int).len() as int, REWARD_POOL as int),
                        pool_base(spec_committee(sc, size as int).len() as int,
                            PENALTY_POOL as int))
                }
            }),
            final(self).received_view().len() == 0,
            final(self).maintain_view() == old(self).maintain_view(),
    {
        let candidates = self.compute_candidates();
        proof {
            let sc = Seq::new(old(self).nodes_view().len(), |i: int| (
                old(self).nodes_view()[i].0,
                score_hash(old(self).seed_view(), old(self).nodes_view()[i].0@),
                old(self).nodes_view()[i].1.stake,
            ));
            assert forall|i: int| 0 <= i < candidates@.len() implies 1
                <= #[trigger] candidates@[i].2 <= 100 by {
                assert(candidates@[i].2 == self.nodes@[i].1.stake);
                assert(node_ok(self.nodes@[i].1));
            }
            assert forall|i: int| 0 <= i < candidates@.len() implies #[trigger] candidates@[i]
                == sc[i] by {
                assert(candidates@[i].0 == self.nodes@[i].0);
                assert(candidates@[i].1 == score_hash(self.seed@, self.nodes@[i].0@));
                assert(candidates@[i].2 == self.nodes@[i].1.stake);
            }
        }
        let committee = elect_committee(&candidates, size);
        proof {
            lemma_committee_candidates_agree(candidates@, Seq::new(old(self).nodes_view().len(),
                |i: int| (old(self).nodes_view()[i].0, score_hash(old(self).seed_view(),
                    old(self).nodes_view()[i].0@), old(self).nodes_view()[i].1.stake)),
                size as int);
        }
        let ghost sc = Seq::new(old(self).nodes_view().len(), |i: int| (
            old(self).nodes_view()[i].0,
            score_hash(old(self).seed_view(), old(self).nodes_view()[i].0@),
            old(self).nodes_view()[i].1.stake,
        ));
        proof {
            lemma_spec_committee_sorted(sc, size as int);
            assert(committee@ == spec_committee(sc, size as int));
        }
        self.committee = committee;
        self.refresh_stakes();
        self.update_seed();
        self.received.clear();
    }
}

/// Two candidate lists that agree pairwise on hash and stake, and whose
/// identities have equal views, elect the same committee.
proof fn lemma_committee_candidates_agree(a: Seq<Candidate>, b: Seq<Candidate>, k: int)
    requires
        a.len() == b.len(),
        forall|i: int| 0 <= i < a.len() ==> #[trigger] a[i].0 == b[i].0 && a[i].1 == b[i].1
            && a[i].2 == b[i].2,
    ensures
        spec_committee(a, k) == spec_committee(b, k),
{
    assert forall|i: int| 0 <= i < a.len() implies a[i] == b[i] by {
        assert(a[i].0 == b[i].0 && a[i].1 == b[i].1 && a[i].2 == b[i].2);
        assert(a[i] == (a[i].0, a[i].1, a[i].2));
        assert(b[i] == (b[i].0, b[i].1, b[i].2));
    }
    assert(a =~= b);
}

/// On an ascending candidate list the elected identities stay ascending.
proof fn lemma_spec_committee_sorted(sc: Seq<Candidate>, k: int)
    requires
        forall|i: int, j: int| 0 <= i < j < sc.len() ==> #[trigger] str_lt(sc[i].0@, sc[j].0@),
    ensures
        strs_sorted(spec_committee(sc, k)),
        strs_distinct(spec_committee(sc, k)),
{
    lemma_elected_prefix_sorted(sc, k, sc.len() as int);
    let c = spec_committee(sc, k);
    assert forall|i: int, j: int| 0 <= i < j < c.len() implies #[trigger] c[i]@ != #[trigger] c[
        j]@ by {
        assert(str_lt(c[i]@, c[j]@));
        if c[i]@ == c[j]@ {
            lemma_lex_irrefl(encode_utf8(c[i]@), 0);
        }
    }
}

/// Every elected identity among the first `m` stems from an index below
/// `m`, in order; on ascending input the prefix stays ascending.
proof fn lemma_elected_prefix_sorted(sc: Seq<Candidate>, k: int, m: int)
    requires
        0 <= m <= sc.len(),
        forall|i: int, j: int| 0 <= i < j < sc.len() ==> #[trigger] str_lt(sc[i].0@, sc[j].0@),
    ensures
        forall|i: int, j: int| 0 <= i < j < elected_prefix(sc, k, m).len()
            ==> #[trigger] str_lt(elected_prefix(sc, k, m)[i]@, elected_prefix(sc, k, m)[j]@),
        forall|i: int| 0 <= i < elected_prefix(sc, k, m).len() ==> exists|t: int| 0 <= t < m
            && #[trigger] elected_prefix(sc, k, m)[i]@ == sc[t].0@,
    decreases m,
{
    if m > 0 {
        lemma_elected_prefix_sorted(sc, k, m - 1);
        let rest = elected_prefix(sc, k, m - 1);
        let f = elected_prefix(sc, k, m);
        if spec_elected(sc, k, m - 1) {
            assert forall|i: int, j: int| 0 <= i < j < f.len() implies #[trigger] str_lt(f[i]@,
                f[j]@) by {
                if j < rest.len() {
                    assert(str_lt(rest[i]@, rest[j]@));
                } else {
                    assert(f[j]@ == sc[m - 1].0@);
                    assert(rest[i]@ == f[i]@);
                    let t = choose|t: int| 0 <= t < m - 1 && #[trigger] rest[i]@ == sc[t].0@;
                    assert(str_lt(sc[t].0@, sc[m - 1].0@));
                }
            }
            assert forall|i: int| 0 <= i < f.len() implies exists|t: int| 0 <= t < m
                && #[trigger] f[i]@ == sc[t].0@ by {
                if i < rest.len() {
                    let t = choose|t: int| 0 <= t < m - 1 && #[trigger] rest[i]@ == sc[t].0@;
                    assert(f[i]@ == sc[t].0@);
                } else {
                    assert(f[i]@ == sc[m - 1].0@);
                }
            }
        } else {
            assert forall|i: int| 0 <= i < f.len() implies exists|t: int| 0 <= t < m
                && #[trigger] f[i]@ == sc[t].0@ by {
                let t = choose|t: int| 0 <= t < m - 1 && #[trigger] rest[i]@ == sc[t].0@;
                assert(f[i]@ == sc[t].0@);
            }
        }
    }
}

/// After replacing the entry at `p` (same identity, new values), lookups
/// change only for that identity, and order is preserved.
proof fn lemma_after_insert(s0: Seq<(String, NodeInfo)>, s1: Seq<(String, NodeInfo)>,
    info: NodeInfo, p: int)
    requires
        ids_sorted(s0),
        nodes_ok(s0),
        node_ok(info),
        0 <= p < s0.len(),
        s1.len() == s0.len(),
        s1[p].1 == info,
        s1[p].0@ == s0[p].0@,
        forall|i: int| 0 <= i < s0.len() && i != p ==> s1[i] == s0[i],
    ensures
        ids_sorted(s1),
        nodes_ok(s1),
        spec_find(s1, s1[p].0@) == Some(info),
        forall|x: Seq<char>| x != s1[p].0@ ==> #[trigger] spec_find(s1, x) == spec_find(s0, x),
{
    let id = s1[p].0@;
    assert forall|i: int, j: int| 0 <= i < j < s1.len() implies #[trigger] str_lt(s1[i].0@,
        s1[j].0@) by {
        assert(str_lt(s0[i].0@, s0[j].0@));
    }
    assert forall|i: int| 0 <= i < p implies #[trigger] s1[i].0@ != id by {
        assert(str_lt(s0[i].0@, id));
        if s1[i].0@ == id {
            lemma_lex_irrefl(encode_utf8(id), 0);
        }
    }
    lemma_find_skip(s1, id, p);
    assert(s1.skip(p)[0] == s1[p]);
    assert forall|x: Seq<char>| x != id implies #[trigger] spec_find(s1, x) == spec_find(s0, x)
        by {
        assert(s0 =~= s0.take(p) + (seq![s0[p]] + s0.skip(p + 1)));
        assert(s1 =~= s0.take(p) + (seq![s1[p]] + s0.skip(p + 1)));
        lemma_find_app(s0.take(p), seq![s0[p]] + s0.skip(p + 1), x);
        lemma_find_app(s0.take(p), seq![s1[p]] + s0.skip(p + 1), x);
        assert((seq![s0[p]] + s0.skip(p + 1)).drop_first() =~= s0.skip(p + 1));
        assert((seq![s1[p]] + s0.skip(p + 1)).drop_first() =~= s0.skip(p + 1));
        assert(spec_find(seq![s0[p]] + s0.skip(p + 1), x) == spec_find(s0.skip(p + 1), x));
        assert(spec_find(seq![s1[p]] + s0.skip(p + 1), x) == spec_find(s0.skip(p + 1), x));
    }
}

/// After inserting a fresh entry at `p` between its strict neighbours,
/// lookups change only for the new identity, and order is preserved.
proof fn lemma_after_insert_new(s0: Seq<(String, NodeInfo)>, e: (String, NodeInfo), p: int)
    requires
        ids_sorted(s0),
        nodes_ok(s0),
        node_ok(e.1),
        0 <= p <= s0.len(),
        forall|i: int| 0 <= i < p ==> str_lt(#[trigger] s0[i].0@, e.0@),
        forall|i: int| p <= i < s0.len() ==> str_lt(e.0@, #[trigger] s0[i].0@),
    ensures
        ({
            let s1 = s0.take(p) + seq![e] + s0.skip(p);
            &&& ids_sorted(s1)
            &&& nodes_ok(s1)
            &&& spec_find(s1, e.0@) == Some(e.1)
            &&& forall|x: Seq<char>| x != e.0@ ==> #[trigger] spec_find(s1, x) == spec_find(
                s0, x)
        }),
{
    let id = e.0@;
    let s1 = s0.take(p) + seq![e] + s0.skip(p);
    assert forall|i: int, j: int| 0 <= i < j < s1.len() implies #[trigger] str_lt(s1[i].0@,
        s1[j].0@) by {
        if j < p {
            assert(s1[i] == s0[i] && s1[j] == s0[j]);
            assert(str_lt(s0[i].0@, s0[j].0@));
        } else if i < p && j == p {
            assert(s1[i] == s0[i] && s1[j] == e);
            assert(str_lt(s0[i].0@, id));
        } else if i < p && j > p {
            assert(s1[i] == s0[i] && s1[j] == s0[j - 1]);
            assert(str_lt(s0[i].0@, id));
            assert(str_lt(id, s0[j - 1].0@));
            lemma_lex_trans(encode_utf8(s0[i].0@), encode_utf8(id), encode_utf8(s0[j - 1].0@), 0);
        } else if i == p {
            assert(s1[j] == s0[j - 1]);
            assert(str_lt(id, s0[j - 1].0@));
        } else {
            assert(s1[i] == s0[i - 1] && s1[j] == s0[j - 1]);
            assert(str_lt(s0[i - 1].0@, s0[j - 1].0@));
        }
    }
    assert forall|i: int| 0 <= i < p implies #[trigger] s1[i].0@ != id by {
        assert(s1[i] == s0[i]);
        assert(str_lt(s0[i].0@, id));
        if s1[i].0@ == id {
            lemma_lex_irrefl(encode_utf8(id), 0);
        }
    }
    lemma_find_skip(s1, id, p);
    assert(s1.skip(p)[0] == s1[p]);
    assert(s1[p] == e);
    assert forall|x: Seq<char>| x != id implies #[trigger] spec_find(s1, x) == spec_find(s0, x)
        by {
        assert(s0 =~= s0.take(p) + s0.skip(p));
        assert(s1 =~= s0.take(p) + (seq![e] + s0.skip(p)));
        lemma_find_app(s0.take(p), s0.skip(p), x);
        lemma_find_app(s0.take(p), seq![e] + s0.skip(p), x);
        assert((seq![e] + s0.skip(p)).drop_first() =~= s0.skip(p));
        assert(spec_find(seq![e] + s0.skip(p), x) == spec_find(s0.skip(p), x));
    }
}

/// After removing the entry at `k`, lookups change only for its identity.
proof fn lemma_after_remove(s0: Seq<(String, NodeInfo)>, s1: Seq<(String, NodeInfo)>,
    id: Seq<char>, k: int)
    requires
        ids_sorted(s0),
        nodes_ok(s0),
        0 <= k < s0.len(),
        s0[k].0@ == id,
        forall|i: int| 0 <= i < k ==> #[trigger] s0[i].0@ != id,
        s1 =~= s0.take(k) + s0.skip(k + 1),
    ensures
        ids_sorted(s1),
        nodes_ok(s1),
        spec_find(s1, id) is None,
        forall|x: Seq<char>| x != id ==> #[trigger] spec_find(s1, x) == spec_find(s0, x),
{
    assert forall|i: int, j: int| 0 <= i < j < s1.len() implies #[trigger] str_lt(s1[i].0@,
        s1[j].0@) by {
        let i0: int = if i < k { i } else { i + 1 };
        let j0: int = if j < k { j } else { j + 1 };
        assert(s1[i] == s0[i0]);
        assert(s1[j] == s0[j0]);
        assert(str_lt(s0[i0].0@, s0[j0].0@));
    }
    assert forall|i: int| 0 <= i < s1.len() implies #[trigger] s1[i].0@ != id by {
        let i0: int = if i < k { i } else { i + 1 };
        assert(s1[i] == s0[i0]);
        if i0 > k && s0[i0].0@ == id {
            assert(str_lt(s0[k].0@, s0[i0].0@));
            lemma_lex_irrefl(encode_utf8(id), 0);
        }
    }
    lemma_find_skip(s1, id, s1.len() as int);
    assert(s1.skip(s1.len() as int) =~= Seq::<(String, NodeInfo)>::empty());
    assert forall|x: Seq<char>| x != id implies #[trigger] spec_find(s1, x) == spec_find(s0, x)
        by {
        lemma_find_app(s0.take(k), s0.skip(k + 1), x);
        lemma_find_app(s0.take(k), seq![s0[k]] + s0.skip(k + 1), x);
        assert(s0 =~= s0.take(k) + (seq![s0[k]] + s0.skip(k + 1)));
        assert(spec_find(seq![s0[k]] + s0.skip(k + 1), x) == spec_find(s0.skip(k + 1), x)) by {
            assert((seq![s0[k]] + s0.skip(k + 1)).drop_first() =~= s0.skip(k + 1));
        }
    }
}

/// The payload of a maintenance broadcast: the ledger entries and the
/// seed. The per-round sets never travel.
#[verifier::ext_equal]
pub struct ViewModel {
    /// Identity, stake, reward, penalty per node, ascending by identity.
    pub nodes: Seq<(Seq<char>, int, int, int)>,
    /// The 32-byte gossip seed.
    pub seed: Seq<u8>,
}

/// The encodable model of a view's ledger and seed.
pub open spec fn net_model(nodes: Seq<(String, NodeInfo)>, seed: Seq<u8>) -> ViewModel {
    ViewModel {
        nodes: nodes.map_values(|e: (String, NodeInfo)| (e.0@, e.1.stake as int,
            e.1.reward as int, e.1.penalty as int)),
        seed,
    }
}

/// One encoded ledger entry: identity, stake, reward, penalty.
pub open spec fn enc_vnode(e: (Seq<char>, int, int, int)) -> Seq<u8> {
    crate::codec::enc_str(e.0) + crate::codec::be64(e.1 as u64) + crate::codec::be64(e.2 as u64)
        + crate::codec::be64(e.3 as u64)
}

/// The concatenated encoded ledger entries.
pub open spec fn enc_vnodes(s: Seq<(Seq<char>, int, int, int)>) -> Seq<u8>
    decreases s.len(),
{
    if s.len() == 0 {
        Seq::empty()
    } else {
        enc_vnode(s.first()) + enc_vnodes(s.drop_first())
    }
}

/// The wire encoding of a view: entry count, entries, then the seed bytes.
pub open spec fn enc_view(m: ViewModel) -> Seq<u8> {
    crate::codec::be64(m.nodes.len() as u64) + enc_vnodes(m.nodes) + m.seed
}

/// A model entry within the ledger's ranges.
pub open spec fn vnode_ok(e: (Seq<char>, int, int, int)) -> bool {
    &&& 1 <= e.1 <= 100
    &&& 0 <= e.2 <= i32::MAX
    &&& 0 <= e.3 <= i32::MAX
}

/// Model entries strictly ascending by identity.
pub open spec fn vnodes_sorted(s: Seq<(Seq<char>, int, int, int)>) -> bool {
    forall|i: int, j: int| 0 <= i < j < s.len() ==> #[trigger] str_lt(s[i].0, s[j].0)
}

/// Spec-level parse of one ledger entry, rejecting out-of-range values.
pub open spec fn dec_vnode(b: Seq<u8>) -> Option<((Seq<char>, int, int, int), Seq<u8>)> {
    match crate::codec::dec_str_field(b) {
        None => None,
        Some((id, r0)) => match crate::codec::dec_u64(r0) {
            None => None,
            Some((stake, r1)) => match crate::codec::dec_u64(r1) {
                None => None,
                Some((reward, r2)) => match crate::codec::dec_u64(r2) {
                    None => None,
                    Some((penalty, r3)) => if 1 <= stake <= 100 && reward <= i32::MAX as u64
                        && penalty <= i32::MAX as u64 {
                        Some(((id, stake as int, reward as int, penalty as int), r3))
                    } else {
                        None
                    },
                },
            },
        },
    }
}

/// Spec-level parse of `n` consecutive ledger entries.
pub open spec fn dec_vnodes(b: Seq<u8>, n: nat) -> Option<(Seq<(Seq<char>, int, int, int)>,
    Seq<u8>)>
    decreases n,
{
    if n == 0 {
        Some((Seq::empty(), b))
    } else {
        match dec_vnode(b) {
            Some((e, r)) => match dec_vnodes(r, (n - 1) as nat) {
                Some((es, r2)) => Some((seq![e] + es, r2)),
                None => None,
            },
            None => None,
        }
    }
}

/// Spec-level parse of a whole view; `Some` exactly on complete encodings
/// whose entries are in range and strictly ascending and whose seed is 32
/// bytes.
pub open spec fn dec_view(b: Seq<u8>) -> Option<ViewModel> {
    match crate::codec::dec_u64(b) {
        None => None,
        Some((n, r)) => match dec_vnodes(r, n as nat) {
            None => None,
            Some((ns, r2)) => if r2.len() == 32 && vnodes_sorted(ns) {
                Some(ViewModel { nodes: ns, seed: r2 })
            } else {
                None
            },
        },
    }
}

/// Appending one entry extends the encoding by that entry's bytes.
pub proof fn lemma_enc_vnodes_snoc(s: Seq<(Seq<char>, int, int, int)>, e: (Seq<char>, int, int,
    int))
    ensures
        enc_vnodes(s.push(e)) == enc_vnodes(s) + enc_vnode(e),
    decreases s.len(),
{
    let p = s.push(e);
    if s.len() == 0 {
        assert(p.first() == e);
        assert(p.drop_first() =~= Seq::<(Seq<char>, int, int, int)>::empty());
        assert(enc_vnodes(p.drop_first()) == Seq::<u8>::empty());
        assert(enc_vnodes(p) =~= enc_vnode(e));
        assert(enc_vnodes(s) + enc_vnode(e) =~= enc_vnode(e));
    } else {
        assert(p.first() == s.first());
        assert(p.drop_first() =~= s.drop_first().push(e));
        lemma_enc_vnodes_snoc(s.drop_first(), e);
        assert(enc_vnodes(p) =~= enc_vnodes(s) + enc_vnode(e));
    }
}

/// A name for what base64's standard-alphabet encoder returns on given
/// bytes.
pub uninterp spec fn b64_of(data: Seq<u8>) -> Seq<char>;

/// Relies on base64's STANDARD engine: encoding is a pure function of the
/// input bytes.
#[verifier::external_body]
pub fn b64_encode(data: &[u8]) -> (r: String)
    ensures
        r@ == b64_of(data@),
{
    base64::Engine::encode(&base64::engine::general_purpose::STANDARD, data)
}

/// Relies on base64's STANDARD engine: decoding succeeds exactly on the
/// canonical encodings the encoder produces, and inverts it; an encoding
/// denotes one byte string.
#[verifier::external_body]
pub fn b64_decode(s: &str) -> (r: Option<Vec<u8>>)
    ensures
        match r {
            Some(v) => s@ == b64_of(v@) && forall|w: Seq<u8>| s@ == b64_of(w) ==> w == v@,
            None => forall|w: Seq<u8>| s@ != b64_of(w),
        },
{
    base64::Engine::decode(&base64::engine::general_purpose::STANDARD, s).ok()
}

impl ManagerNetwork {
    /// Encodes the ledger and seed for a maintenance broadcast, as text.
    /// Decoding the result yields the same model back.
    pub fn serialize(&self) -> (r: String)
        requires
            self.wf(),
        ensures
            r@ == b64_of(enc_view(net_model(self.nodes_view(), self.seed_view()))),
            dec_view(enc_view(net_model(self.nodes_view(), self.seed_view()))) == Some(
                net_model(self.nodes_view(), self.seed_view())),
    {
        let ghost m = net_model(self.nodes@, self.seed@);
        let n = self.nodes.len();
        let mut out: Vec<u8> = Vec::new();
        crate::codec::push_be64(&mut out, n as u64);
        let mut k: usize = 0;
        while k < n
            invariant
                k <= n,
                n == self.nodes@.len(),
                self.wf(),
                m == net_model(self.nodes@, self.seed@),
                out@ == crate::codec::be64(n as u64) + enc_vnodes(m.nodes.take(k as int)),
                forall|i: int| 0 <= i < k ==> #[trigger] encode_utf8(m.nodes[i].0).len()
                    <= u64::MAX,
            decreases n - k,
        {
            let info = self.nodes[k].1;
            proof {
                assert(node_ok(self.nodes@[k as int].1));
                assert(m.nodes[k as int] == (self.nodes@[k as int].0@, info.stake as int,
                    info.reward as int, info.penalty as int));
            }
            crate::codec::push_str_field(&mut out, self.nodes[k].0.as_str());
            crate::codec::push_be64(&mut out, info.stake as u64);
            crate::codec::push_be64(&mut out, info.reward as u64);
            crate::codec::push_be64(&mut out, info.penalty as u64);
            proof {
                lemma_enc_vnodes_snoc(m.nodes.take(k as int), m.nodes[k as int]);
                assert(m.nodes.take(k + 1) =~= m.nodes.take(k as int).push(m.nodes[k as int]));
                assert(out@ =~= crate::codec::be64(n as u64) + enc_vnodes(m.nodes.take(k + 1)));
            }
            k = k + 1;
        }
        crate::codec::push_bytes(&mut out, self.seed.as_slice());
        proof {
            assert(m.nodes.take(n as int) =~= m.nodes);
            assert(out@ =~= enc_view(m));
            assert forall|i: int| 0 <= i < m.nodes.len() implies #[trigger] vnode_ok(
                m.nodes[i]) by {
                assert(node_ok(self.nodes@[i].1));
                assert(m.nodes[i] == vnode_of(self.nodes@[i]));
            }
            assert forall|i: int, j: int| 0 <= i < j < m.nodes.len() implies #[trigger] str_lt(
                m.nodes[i].0, m.nodes[j].0) by {
                assert(str_lt(self.nodes@[i].0@, self.nodes@[j].0@));
                assert(m.nodes[i] == vnode_of(self.nodes@[i]));
                assert(m.nodes[j] == vnode_of(self.nodes@[j]));
            }
            lemma_dec_view_enc_view(m);
        }
        b64_encode(out.as_slice())
    }

    /// Decodes a maintenance payload into a fresh view with empty per-round
    /// sets; succeeds exactly on canonical encodings of a well-formed model.
    pub fn deserialize(s: &str) -> (r: Option<ManagerNetwork>)
        ensures
            match r {
                Some(net) => {
                    &&& net.wf()
                    &&& net.maintain_view().len() == 0
                    &&& net.committee_view().len() == 0
                    &&& net.received_view().len() == 0
                    &&& exists|bts: Seq<u8>| s@ == b64_of(bts) && #[trigger] dec_view(bts)
                        == Some(net_model(net.nodes_view(), net.seed_view()))
                },
                None => forall|bts: Seq<u8>| s@ == b64_of(bts) ==> #[trigger] dec_view(bts)
                    is None,
            },
    {
        let bytes = match b64_decode(s) {
            Some(v) => v,
            None => {
                return None;
            },
        };
        match Self::decode_view(&bytes) {
            Some(net) => Some(net),
            None => None,
        }
    }

    /// Decodes view bytes; succeeds exactly where `dec_view` does.
    #[verifier::rlimit(100)]
    fn decode_view(bytes: &Vec<u8>) -> (r: Option<ManagerNetwork>)
        ensures
            match r {
                Some(net) => {
                    &&& net.wf()
                    &&& net.maintain_view().len() == 0
                    &&& net.committee_view().len() == 0
                    &&& net.received_view().len() == 0
                    &&& dec_view(bytes@) == Some(net_model(net.nodes_view(), net.seed_view()))
                },
                None => dec_view(bytes@) is None,
            },
    {
        let (n, p0) = match crate::codec::read_be64(bytes, 0) {
            Some(x) => x,
            None => {
                assert(bytes@.skip(0) =~= bytes@);
                return None;
            },
        };
        assert(bytes@.skip(0) =~= bytes@);
        let (nodes, pos) = match Self::parse_vnodes(bytes, p0, n) {
            Some(x) => x,
            None => {
                return None;
            },
        };
        if bytes.len() - pos != 32 {
            return None;
        }
        let seed = Self::read_seed(bytes, pos);
        assert(seed@ =~= bytes@.skip(pos as int));
        let sorted = Self::check_adjacent_sorted(&nodes);
        proof {
            assert forall|a: int, b: int| 0 <= a < b < vnodes_of(nodes@).len()
                implies (#[trigger] str_lt(vnodes_of(nodes@)[a].0, vnodes_of(nodes@)[b].0))
                == str_lt(nodes@[a].0@, nodes@[b].0@) by {
                assert(vnodes_of(nodes@)[a] == vnode_of(nodes@[a]));
                assert(vnodes_of(nodes@)[b] == vnode_of(nodes@[b]));
            }
            if sorted {
                assert(vnodes_sorted(vnodes_of(nodes@)));
            } else {
                let (a, b) = choose|a: int, b: int| 0 <= a < b < nodes@.len()
                    && !#[trigger] str_lt(nodes@[a].0@, nodes@[b].0@);
                assert(!str_lt(vnodes_of(nodes@)[a].0, vnodes_of(nodes@)[b].0));
                assert(!vnodes_sorted(vnodes_of(nodes@)));
            }
        }
        if !sorted {
            return None;
        }
        let net = ManagerNetwork {
            nodes,
            maintain: Vec::new(),
            committee: Vec::new(),
            received: Vec::new(),
            seed,
        };
        proof {
            assert(net_model(net.nodes@, net.seed@).nodes =~= vnodes_of(net.nodes@));
            assert(net_model(net.nodes@, net.seed@) =~= ViewModel {
                nodes: vnodes_of(net.nodes@),
                seed: net.seed@,
            });
        }
        Some(net)
    }

    /// Parses `n` consecutive ledger entries starting at `p0`; the result
    /// is exactly what `dec_vnodes` denotes there.
    #[verifier::rlimit(100)]
    fn parse_vnodes(bytes: &Vec<u8>, p0: usize, n: u64) -> (r: Option<(Vec<(String, NodeInfo)>,
        usize)>)
        requires
            p0 <= bytes@.len(),
        ensures
            match r {
                Some((nodes, pos)) => {
                    &&& pos <= bytes@.len()
                    &&& nodes_ok(nodes@)
                    &&& dec_vnodes(bytes@.skip(p0 as int), n as nat) == Some((vnodes_of(nodes@),
                        bytes@.skip(pos as int)))
                },
                None => dec_vnodes(bytes@.skip(p0 as int), n as nat) is None,
            },
    {
        let mut nodes: Vec<(String, NodeInfo)> = Vec::new();
        let mut pos: usize = p0;
        let mut k: u64 = 0;
        proof {
            assert(vnodes_of(nodes@) =~= Seq::<(Seq<char>, int, int, int)>::empty());
        }
        while k < n
            invariant
                k <= n,
                pos <= bytes@.len(),
                nodes@.len() == k,
                nodes_ok(nodes@),
                dec_vnodes(bytes@.skip(p0 as int), n as nat) == match dec_vnodes(
                    bytes@.skip(pos as int), (n - k) as nat) {
                    Some((rest, r2)) => Some((vnodes_of(nodes@) + rest, r2)),
                    None => None::<(Seq<(Seq<char>, int, int, int)>, Seq<u8>)>,
                },
            decreases n - k,
        {
            let parsed = Self::read_vnode(bytes, pos);
            proof {
                if parsed is None {
                    assert(dec_vnodes(bytes@.skip(pos as int), (n - k) as nat) is None);
                }
            }
            let (id, info, p2) = match parsed {
                Some(y) => y,
                None => {
                    return None;
                },
            };
            let ghost pre = vnodes_of(nodes@);
            nodes.push((id, info));
            proof {
                assert(vnodes_of(nodes@) =~= pre + seq![vnode_of(nodes@[k as int])]);
                let step = dec_vnodes(bytes@.skip(p2 as int), (n - k - 1) as nat);
                match step {
                    Some((it, rr)) => {
                        assert(pre + (seq![vnode_of(nodes@[k as int])] + it) =~= vnodes_of(
                            nodes@) + it);
                    },
                    None => {},
                }
            }
            pos = p2;
            k = k + 1;
        }
        proof {
            assert(dec_vnodes(bytes@.skip(pos as int), 0) == Some((Seq::<(Seq<char>, int, int,
                int)>::empty(), bytes@.skip(pos as int))));
            assert(vnodes_of(nodes@) + Seq::<(Seq<char>, int, int, int)>::empty() =~= vnodes_of(
                nodes@));
        }
        Some((nodes, pos))
    }

    /// Copies the trailing 32 seed bytes.
    fn read_seed(bytes: &Vec<u8>, pos: usize) -> (r: Vec<u8>)
        requires
            pos + 32 == bytes@.len(),
        ensures
            r@ == bytes@.subrange(pos as int, pos + 32),
    {
        let mut seed: Vec<u8> = Vec::new();
        let total = bytes.len();
        let mut i: usize = 0;
        while i < 32
            invariant
                i <= 32,
                pos + 32 == bytes@.len(),
                bytes@.len() <= usize::MAX,
                seed@ == bytes@.subrange(pos as int, pos + i),
            decreases 32 - i,
        {
            seed.push(bytes[pos + i]);
            i = i + 1;
            assert(seed@ =~= bytes@.subrange(pos as int, pos + i));
        }
        seed
    }

    /// Whether the stored entries are strictly ascending: decided by the
    /// adjacent pairs alone.
    fn check_adjacent_sorted(nodes: &Vec<(String, NodeInfo)>) -> (r: bool)
        ensures
            r == ids_sorted(nodes@),
    {
        let nn = nodes.len();
        if nn == 0 {
            return true;
        }
        let mut t: usize = 1;
        while t < nn
            invariant
                1 <= t <= nn,
                nn == nodes@.len(),
                forall|a: int| 0 <= a < t - 1 ==> #[trigger] str_lt(nodes@[a].0@, nodes@[a
                    + 1].0@),
            decreases nn - t,
        {
            if !str_lt_exec(nodes[t - 1].0.as_str(), nodes[t].0.as_str()) {
                proof {
                    assert(!str_lt(nodes@[t - 1].0@, nodes@[t as int].0@));
                }
                return false;
            }
            t = t + 1;
        }
        proof {
            lemma_adjacent_sorted(nodes@);
        }
        true
    }

    /// Reads one ledger entry; the result is exactly what `dec_vnode`
    /// denotes on the remaining input.
    fn read_vnode(bytes: &Vec<u8>, pos: usize) -> (r: Option<(String, NodeInfo, usize)>)
        requires
            pos <= bytes@.len(),
        ensures
            match r {
                Some((id, info, p2)) => {
                    &&& p2 <= bytes@.len()
                    &&& node_ok(info)
                    &&& dec_vnode(bytes@.skip(pos as int)) == Some(((id@, info.stake as int,
                        info.reward as int, info.penalty as int), bytes@.skip(p2 as int)))
                },
                None => dec_vnode(bytes@.skip(pos as int)) is None,
            },
    {
        let (id, q0) = match crate::codec::read_str_field(bytes, pos) {
            Some(x) => x,
            None => {
                return None;
            },
        };
        let (stake, q1) = match crate::codec::read_be64(bytes, q0) {
            Some(x) => x,
            None => {
                return None;
            },
        };
        let (reward, q2) = match crate::codec::read_be64(bytes, q1) {
            Some(x) => x,
            None => {
                return None;
            },
        };
        let (penalty, q3) = match crate::codec::read_be64(bytes, q2) {
            Some(x) => x,
            None => {
                return None;
            },
        };
        if !(1 <= stake && stake <= 100 && reward <= i32::MAX as u64 && penalty <= i32::MAX
            as u64) {
            return None;
        }
        let info = NodeInfo {
            stake: stake as i32,
            reward: reward as i32,
            penalty: penalty as i32,
        };
        Some((id, info, q3))
    }
}

/// The model entry of one stored entry.
pub open spec fn vnode_of(e: (String, NodeInfo)) -> (Seq<char>, int, int, int) {
    (e.0@, e.1.stake as int, e.1.reward as int, e.1.penalty as int)
}

/// The model entries of the stored entries.
pub open spec fn vnodes_of(s: Seq<(String, NodeInfo)>) -> Seq<(Seq<char>, int, int, int)> {
    s.map_values(|e: (String, NodeInfo)| (e.0@, e.1.stake as int, e.1.reward as int,
        e.1.penalty as int))
}

/// Adjacent order extends to all pairs.
pub proof fn lemma_adjacent_sorted(s: Seq<(String, NodeInfo)>)
    requires
        forall|a: int| 0 <= a < s.len() - 1 ==> #[trigger] str_lt(s[a].0@, s[a + 1].0@),
    ensures
        ids_sorted(s),
{
    assert forall|i: int, j: int| 0 <= i < j < s.len() implies #[trigger] str_lt(s[i].0@,
        s[j].0@) by {
        lemma_chain_lt(s, i, j);
    }
}

/// The order chains from `i` to any later `j`.
proof fn lemma_chain_lt(s: Seq<(String, NodeInfo)>, i: int, j: int)
    requires
        forall|a: int| 0 <= a < s.len() - 1 ==> #[trigger] str_lt(s[a].0@, s[a + 1].0@),
        0 <= i < j < s.len(),
    ensures
        str_lt(s[i].0@, s[j].0@),
    decreases j - i,
{
    if j == i + 1 {
        assert(str_lt(s[i].0@, s[i + 1].0@));
    } else {
        lemma_chain_lt(s, i, j - 1);
        assert(str_lt(s[j - 1].0@, s[(j - 1) + 1].0@));
        lemma_lex_trans(encode_utf8(s[i].0@), encode_utf8(s[j - 1].0@), encode_utf8(s[j].0@), 0);
    }
}

/// A well-formed model decodes back from its own encoding.
pub proof fn lemma_dec_view_enc_view(m: ViewModel)
    requires
        m.nodes.len() <= u64::MAX,
        m.seed.len() == 32,
        vnodes_sorted(m.nodes),
        forall|i: int| 0 <= i < m.nodes.len() ==> #[trigger] vnode_ok(m.nodes[i]),
        forall|i: int| 0 <= i < m.nodes.len() ==> #[trigger] encode_utf8(m.nodes[i].0).len()
            <= u64::MAX,
    ensures
        dec_view(enc_view(m)) == Some(m),
{
    let b = enc_view(m);
    assert(b.take(8) =~= crate::codec::be64(m.nodes.len() as u64));
    crate::codec::lemma_be64_val(m.nodes.len() as u64);
    assert(b.skip(8) =~= enc_vnodes(m.nodes) + m.seed);
    lemma_dec_vnodes(m.nodes, m.seed);
}

/// Entries in range parse back from their own encodings, with the rest
/// untouched.
#[verifier::rlimit(100)]
#[verifier::spinoff_prover]
proof fn lemma_dec_vnodes(s: Seq<(Seq<char>, int, int, int)>, rest: Seq<u8>)
    requires
        forall|i: int| 0 <= i < s.len() ==> #[trigger] vnode_ok(s[i]),
        forall|i: int| 0 <= i < s.len() ==> #[trigger] encode_utf8(s[i].0).len() <= u64::MAX,
    ensures
        dec_vnodes(enc_vnodes(s) + rest, s.len() as nat) == Some((s, rest)),
    decreases s.len(),
{
    if s.len() == 0 {
        assert(enc_vnodes(s) + rest =~= rest);
        assert(Seq::<(Seq<char>, int, int, int)>::empty() =~= s);
    } else {
        let e = s.first();
        assert(vnode_ok(s[0]) && encode_utf8(s[0].0).len() <= u64::MAX);
        let tail_enc = enc_vnodes(s.drop_first()) + rest;
        assert(enc_vnodes(s) + rest =~= enc_vnode(e) + tail_enc);
        lemma_dec_vnode(e, tail_enc);
        assert forall|i: int| 0 <= i < s.drop_first().len() implies #[trigger] vnode_ok(
            s.drop_first()[i]) && encode_utf8(s.drop_first()[i].0).len() <= u64::MAX by {
            assert(s.drop_first()[i] == s[i + 1]);
            assert(vnode_ok(s[i + 1]));
            assert(encode_utf8(s[i + 1].0).len() <= u64::MAX);
        }
        lemma_dec_vnodes(s.drop_first(), rest);
        assert(seq![e] + s.drop_first() =~= s);
    }
}

/// One entry in range parses back from its own encoding.
proof fn lemma_dec_vnode(e: (Seq<char>, int, int, int), rest: Seq<u8>)
    requires
        vnode_ok(e),
        encode_utf8(e.0).len() <= u64::MAX,
    ensures
        dec_vnode(enc_vnode(e) + rest) == Some((e, rest)),
{
    let nums = crate::codec::be64(e.1 as u64) + (crate::codec::be64(e.2 as u64)
        + (crate::codec::be64(e.3 as u64) + rest));
    assert(enc_vnode(e) + rest =~= crate::codec::enc_str(e.0) + nums);
    crate::codec::lemma_dec_str_field(e.0, nums);
    assert(nums.take(8) =~= crate::codec::be64(e.1 as u64));
    crate::codec::lemma_be64_val(e.1 as u64);
    let nums2 = crate::codec::be64(e.2 as u64) + (crate::codec::be64(e.3 as u64) + rest);
    assert(nums.skip(8) =~= nums2);
    assert(nums2.take(8) =~= crate::codec::be64(e.2 as u64));
    crate::codec::lemma_be64_val(e.2 as u64);
    let nums3 = crate::codec::be64(e.3 as u64) + rest;
    assert(nums2.skip(8) =~= nums3);
    assert(nums3.take(8) =~= crate::codec::be64(e.3 as u64));
    crate::codec::lemma_be64_val(e.3 as u64);
    assert(nums3.skip(8) =~= rest);
    assert(((e.0, (e.1 as u64) as int, (e.2 as u64) as int, (e.3 as u64) as int)) == e);
}

/// The scored candidate list an election draws from: each known identity
/// with its election hash under the current seed and its stake.
pub open spec fn election_candidates(nodes: Seq<(String, NodeInfo)>, seed: Seq<u8>)
    -> Seq<Candidate> {
    Seq::new(nodes.len(), |i: int| (nodes[i].0, score_hash(seed, nodes[i].0@),
        nodes[i].1.stake))
}

/// Determinism: for a fixed seed, stake snapshot and node set the elected
/// committee is identical across repeated elections — it is a pure
/// function of the ledger and the seed.
pub proof fn lemma_election_deterministic(n1: ManagerNetwork, n2: ManagerNetwork, size: u32)
    requires
        n1.nodes_view() == n2.nodes_view(),
        n1.seed_view() == n2.seed_view(),
    ensures
        spec_committee(election_candidates(n1.nodes_view(), n1.seed_view()), size as int)
            == spec_committee(election_candidates(n2.nodes_view(), n2.seed_view()),
            size as int),
{
}

/// Whoever precedes the richer of two equally-hashed candidates precedes
/// the poorer as well, so the richer one ranks no worse.
proof fn lemma_rank_below_mono(sc: Seq<Candidate>, x: int, y: int, m: int)
    requires
        forall|j: int| 0 <= j < sc.len() ==> (#[trigger] cand_lt(sc, j, x) ==> cand_lt(sc, j,
            y)),
        m <= sc.len(),
    ensures
        rank_below(sc, x, m) <= rank_below(sc, y, m),
    decreases m,
{
    if m > 0 {
        lemma_rank_below_mono(sc, x, y, m - 1);
    }
}

/// Stake monotonicity: of two candidates with the same nonzero election
/// hash, the one with strictly more stake has the strictly lower score, so
/// whenever the poorer is elected the richer is elected too. On an exact
/// tie — equal hash and equal stake, or a zero hash — the earlier
/// candidate wins instead, so those inputs are left out.
pub proof fn lemma_stake_monotone(sc: Seq<Candidate>, k: int, x: int, y: int)
    requires
        0 <= x < sc.len(),
        0 <= y < sc.len(),
        forall|i: int| 0 <= i < sc.len() ==> 1 <= (#[trigger] sc[i]).2,
        sc[x].1 == sc[y].1,
        sc[x].1 >= 1,
        sc[x].2 > sc[y].2,
        spec_elected(sc, k, y),
    ensures
        spec_elected(sc, k, x),
{
    let h = sc[x].1 as int;
    let sx = sc[x].2 as int;
    let sy = sc[y].2 as int;
    assert forall|j: int| 0 <= j < sc.len() implies (#[trigger] cand_lt(sc, j, x) ==> cand_lt(
        sc, j, y)) by {
        if cand_lt(sc, j, x) {
            let hj = sc[j].1 as int;
            let sj = sc[j].2 as int;
            if score_lt(sc[j].1, sj, sc[x].1, sx) {
                assert(hj * sy < h * sj) by (nonlinear_arith)
                    requires
                        hj * sx < h * sj,
                        1 <= sy,
                        sy < sx,
                        0 <= hj,
                        0 <= h,
                ;
            } else {
                assert(hj * sx == h * sj);
                assert(hj * sy < h * sj) by (nonlinear_arith)
                    requires
                        hj * sx == h * sj,
                        1 <= sy,
                        sy < sx,
                        1 <= h,
                        1 <= sj,
                        0 <= hj,
                ;
            }
            assert(score_lt(sc[j].1, sj, sc[y].1, sy));
        }
    }
    lemma_rank_below_mono(sc, x, y, sc.len() as int);
}

/// Bounds: whatever ledger a committee round starts from, every refreshed
/// stake lies within [1, 100]; with the well-formedness each operation
/// preserves, the bound holds over any sequence of committee rounds.
pub proof fn lemma_stake_bounds(n: NodeInfo, member: bool, base_reward: int, base_penalty: int)
    requires
        node_ok(n),
        0 <= base_reward,
        0 <= base_penalty,
    ensures
        1 <= refresh_info(n, member, base_reward, base_penalty).stake <= 100,
        node_ok(refresh_info(n, member, base_reward, base_penalty)),
{
}

} // verus!

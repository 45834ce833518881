//! The protocol message: its model, its wire encoding, and (further down,
//! once the surrounding state types exist) its apply and distribute
//! semantics.
//!
//! A message names its origin (`creator`), its last hop (`from`, rewritten
//! on every relay), a task kind, an optional payload triple whose meaning
//! depends on the task, and a creation timestamp in whole seconds.

use vstd::prelude::*;
use vstd::utf8::encode_utf8;
use vstd::string::StringExecFns;
use crate::codec::{
    be64, be64_val, dec_str_field, dec_str_list, dec_u64, decode_str_list, enc_str,
    lemma_be64_val, lemma_dec_str_field, push_be64, push_str_field, read_be64, read_str_field,
    strs_view,
};
use crate::network::{
    b64_decode, b64_of, contains_str, dec_view, merge_info, net_model, spec_find, strs_distinct,
    ManagerNetwork,
};
use crate::queues::{DbEntry, DbQueue};
use crate::registry::{count_except, ManagerClient};
use crate::order::str_eq;

verus! {

/// The four message kinds of the protocol.
#[derive(Clone, Copy, PartialEq, Eq, Structural, Debug)]
pub enum TaskKind {
    /// Gossip of the network view.
    Maintain,
    /// A proposed data block from an elected committee member.
    Block,
    /// A point-to-point catch-up request for missing creators.
    Sync,
    /// A point-to-point reply to a catch-up request.
    RespSync,
}

/// Mathematical model of a message.
#[verifier::ext_equal]
pub struct MsgModel {
    /// Origin node identity.
    pub creator: Seq<char>,
    /// Last-hop node identity.
    pub from: Seq<char>,
    /// Task kind.
    pub task: TaskKind,
    /// Optional payload triple.
    pub data: Option<(Seq<char>, Seq<char>, Seq<char>)>,
    /// Creation time, seconds since the epoch.
    pub created_at: int,
}

/// A protocol message.
#[derive(Clone, Debug)]
pub struct InterpreterConstruct {
    /// Origin node identity.
    pub creator: String,
    /// Last-hop node identity, rewritten by every relay.
    pub from: String,
    /// Task kind.
    pub task: TaskKind,
    /// Optional payload triple; its meaning depends on the task.
    pub data: Option<(String, String, String)>,
    /// Creation time, seconds since the epoch.
    pub created_at: i64,
}

impl View for InterpreterConstruct {
    type V = MsgModel;

    open spec fn view(&self) -> MsgModel {
        MsgModel {
            creator: self.creator@,
            from: self.from@,
            task: self.task,
            data: match self.data {
                Some((a, b, c)) => Some((a@, b@, c@)),
                None => None,
            },
            created_at: self.created_at as int,
        }
    }
}

/// The wire tag of each task kind.
pub open spec fn task_tag(t: TaskKind) -> u8 {
    match t {
        TaskKind::Maintain => 0,
        TaskKind::Block => 1,
        TaskKind::Sync => 2,
        TaskKind::RespSync => 3,
    }
}

/// The task kind denoted by a wire tag, if any.
pub open spec fn dec_task(b: u8) -> Option<TaskKind> {
    if b == 0 {
        Some(TaskKind::Maintain)
    } else if b == 1 {
        Some(TaskKind::Block)
    } else if b == 2 {
        Some(TaskKind::Sync)
    } else if b == 3 {
        Some(TaskKind::RespSync)
    } else {
        None
    }
}

/// The wire encoding of a message: tag, creator, from, timestamp, then a
/// payload-presence byte followed by the payload fields.
pub open spec fn enc_msg(m: MsgModel) -> Seq<u8>
    recommends
        0 <= m.created_at <= i64::MAX,
{
    seq![task_tag(m.task)] + enc_str(m.creator) + enc_str(m.from) + be64(m.created_at as u64)
        + match m.data {
            None => seq![0u8],
            Some((a, b, c)) => seq![1u8] + enc_str(a) + enc_str(b) + enc_str(c),
        }
}

/// Spec-level parse of a whole message; `Some` exactly on complete, valid
/// encodings.
pub open spec fn dec_msg(bytes: Seq<u8>) -> Option<MsgModel> {
    if bytes.len() < 1 {
        None
    } else {
        match dec_task(bytes[0]) {
            None => None,
            Some(task) => match dec_str_field(bytes.skip(1)) {
                None => None,
                Some((creator, r1)) => match dec_str_field(r1) {
                    None => None,
                    Some((from, r2)) => match dec_u64(r2) {
                        None => None,
                        Some((ts, r3)) => if ts > i64::MAX as u64 || r3.len() < 1 {
                            None
                        } else if r3[0] == 0 {
                            if r3.len() == 1 {
                                Some(MsgModel {
                                    creator,
                                    from,
                                    task,
                                    data: None,
                                    created_at: ts as int,
                                })
                            } else {
                                None
                            }
                        } else if r3[0] == 1 {
                            match dec_str_field(r3.skip(1)) {
                                None => None,
                                Some((a, r4)) => match dec_str_field(r4) {
                                    None => None,
                                    Some((b, r5)) => match dec_str_field(r5) {
                                        None => None,
                                        Some((c, r6)) => if r6.len() == 0 {
                                            Some(MsgModel {
                                                creator,
                                                from,
                                                task,
                                                data: Some((a, b, c)),
                                                created_at: ts as int,
                                            })
                                        } else {
                                            None
                                        },
                                    },
                                },
                            }
                        } else {
                            None
                        },
                    },
                },
            },
        }
    }
}

impl InterpreterConstruct {
    /// Encodes the message for the wire. Decoding the result yields this
    /// very message back.
    pub fn encode(&self) -> (r: Vec<u8>)
        requires
            0 <= self.created_at,
        ensures
            r@ == enc_msg(self@),
            dec_msg(r@) == Some(self@),
    {
        let mut out: Vec<u8> = Vec::new();
        let tag: u8 = match self.task {
            TaskKind::Maintain => 0,
            TaskKind::Block => 1,
            TaskKind::Sync => 2,
            TaskKind::RespSync => 3,
        };
        out.push(tag);
        push_str_field(&mut out, self.creator.as_str());
        push_str_field(&mut out, self.from.as_str());
        push_be64(&mut out, self.created_at as u64);
        match &self.data {
            None => {
                out.push(0u8);
            },
            Some((a, b, c)) => {
                out.push(1u8);
                push_str_field(&mut out, a.as_str());
                push_str_field(&mut out, b.as_str());
                push_str_field(&mut out, c.as_str());
            },
        }
        assert(out@ =~= enc_msg(self@));
        proof {
            lemma_dec_msg_enc_msg(self@);
        }
        out
    }

    /// Decodes a message from the wire; succeeds exactly on the complete,
    /// valid encodings that `dec_msg` accepts.
    #[verifier::rlimit(100)]
    pub fn decode(bytes: &Vec<u8>) -> (r: Option<InterpreterConstruct>)
        ensures
            match r {
                Some(c) => dec_msg(bytes@) == Some(c@) && 0 <= c.created_at,
                None => dec_msg(bytes@) is None,
            },
    {
        if bytes.len() < 1 {
            return None;
        }
        let task = match bytes[0] {
            0u8 => TaskKind::Maintain,
            1u8 => TaskKind::Block,
            2u8 => TaskKind::Sync,
            3u8 => TaskKind::RespSync,
            _ => {
                return None;
            },
        };
        assert(bytes@.skip(0).skip(1) =~= bytes@.skip(1));
        let (creator, p1) = match read_str_field(bytes, 1) {
            Some(x) => x,
            None => {
                return None;
            },
        };
        let (from, p2) = match read_str_field(bytes, p1) {
            Some(x) => x,
            None => {
                return None;
            },
        };
        let (ts, p3) = match read_be64(bytes, p2) {
            Some(x) => x,
            None => {
                return None;
            },
        };
        if ts > i64::MAX as u64 {
            return None;
        }
        if p3 >= bytes.len() {
            return None;
        }
        let flag = bytes[p3];
        if flag == 0 {
            if p3 + 1 != bytes.len() {
                return None;
            }
            let c = InterpreterConstruct {
                creator,
                from,
                task,
                data: None,
                created_at: ts as i64,
            };
            assert(dec_msg(bytes@) == Some(c@));
            Some(c)
        } else if flag == 1 {
            assert(bytes@.skip(p3 as int).skip(1) =~= bytes@.skip(p3 + 1));
            let (a, p4) = match read_str_field(bytes, p3 + 1) {
                Some(x) => x,
                None => {
                    return None;
                },
            };
            let (b, p5) = match read_str_field(bytes, p4) {
                Some(x) => x,
                None => {
                    return None;
                },
            };
            let (c3, p6) = match read_str_field(bytes, p5) {
                Some(x) => x,
                None => {
                    return None;
                },
            };
            if p6 != bytes.len() {
                return None;
            }
            let c = InterpreterConstruct {
                creator,
                from,
                task,
                data: Some((a, b, c3)),
                created_at: ts as i64,
            };
            assert(dec_msg(bytes@) == Some(c@));
            Some(c)
        } else {
            None
        }
    }
}

/// Every message with a representable timestamp decodes back from its own
/// encoding: the wire format loses nothing.
#[verifier::rlimit(100)]
#[verifier::spinoff_prover]
pub proof fn lemma_dec_msg_enc_msg(m: MsgModel)
    requires
        0 <= m.created_at <= i64::MAX,
        encode_utf8_len_ok(m),
    ensures
        dec_msg(enc_msg(m)) == Some(m),
{
    let b = enc_msg(m);
    let tail = match m.data {
        None => seq![0u8],
        Some((a, bb, c)) => seq![1u8] + enc_str(a) + enc_str(bb) + enc_str(c),
    };
    assert(b[0] == task_tag(m.task));
    assert(dec_task(task_tag(m.task)) == Some(m.task));
    assert(b.skip(1) =~= enc_str(m.creator) + (enc_str(m.from) + (be64(m.created_at as u64)
        + tail)));
    lemma_dec_str_field(m.creator, enc_str(m.from) + (be64(m.created_at as u64) + tail));
    lemma_dec_str_field(m.from, be64(m.created_at as u64) + tail);
    let r2 = be64(m.created_at as u64) + tail;
    assert(r2.take(8) =~= be64(m.created_at as u64));
    lemma_be64_val(m.created_at as u64);
    assert(r2.skip(8) =~= tail);
    match m.data {
        None => {
            assert(dec_msg(b) == Some(m));
        },
        Some((a, bb, c)) => {
            assert(tail.skip(1) =~= enc_str(a) + (enc_str(bb) + (enc_str(c)
                + Seq::<u8>::empty())));
            lemma_dec_str_field(a, enc_str(bb) + (enc_str(c) + Seq::<u8>::empty()));
            lemma_dec_str_field(bb, enc_str(c) + Seq::<u8>::empty());
            lemma_dec_str_field(c, Seq::<u8>::empty());
            assert(dec_msg(b) == Some(m));
        },
    }
}

/// The UTF-8 encodings of all string fields fit a 64-bit length prefix;
/// true of every message an executable encoder can see.
pub open spec fn encode_utf8_len_ok(m: MsgModel) -> bool {
    &&& encode_utf8(m.creator).len() <= u64::MAX
    &&& encode_utf8(m.from).len() <= u64::MAX
    &&& match m.data {
        Some((a, b, c)) => encode_utf8(a).len() <= u64::MAX && encode_utf8(b).len() <= u64::MAX
            && encode_utf8(c).len() <= u64::MAX,
        None => true,
    }
}

/// Why a message was dropped instead of applied or relayed.
#[derive(Clone, Copy, PartialEq, Eq, Structural, Debug)]
pub enum InterpreterError {
    /// The task needs a payload and the message carries none.
    MissingData,
    /// The payload does not decode to what the task needs.
    MalformedPayload,
    /// A view broadcast found no peer to fan out to.
    NoConnectedClients,
}

/// What a distribute step decided: who receives the message, and its
/// encoded bytes.
pub struct DistributeOutcome {
    /// The target peer identities.
    pub recipients: Vec<String>,
    /// The encoded message to send to each of them.
    pub message: Vec<u8>,
}

/// The view of one persisted entry: the payload triple and its timestamp.
pub open spec fn entry_view(e: DbEntry) -> (Option<(Seq<char>, Seq<char>, Seq<char>)>, int) {
    (
        match e.0 {
            Some((a, b, c)) => Some((a@, b@, c@)),
            None => None,
        },
        e.1 as int,
    )
}

/// The model of a catch-up reply for `id` answered from entry `e`.
pub open spec fn resp_model(id: Seq<char>, e: DbEntry) -> MsgModel {
    MsgModel {
        creator: id,
        from: "Response"@,
        task: TaskKind::RespSync,
        data: entry_view(e).0,
        created_at: e.1 as int,
    }
}

/// The catch-up replies owed for a list of missing identities: one reply
/// per identity the queue knows, answered from its newest entry, in list
/// order.
pub open spec fn sync_responses(ids: Seq<Seq<char>>, db: DbQueue) -> Seq<MsgModel>
    decreases ids.len(),
{
    if ids.len() == 0 {
        Seq::empty()
    } else {
        let rest = sync_responses(ids.drop_first(), db);
        if db.entries_of(ids.first()).len() > 0 {
            seq![resp_model(ids.first(), db.entries_of(ids.first()).last())] + rest
        } else {
            rest
        }
    }
}

/// The models carried by a list of addressed replies.
pub open spec fn sync_models(r: Seq<(String, InterpreterConstruct)>) -> Seq<MsgModel> {
    r.map_values(|p: (String, InterpreterConstruct)| p.1@)
}

/// Whether `payload` is a valid text encoding of a list of identities.
pub open spec fn payload_decodes_ids(payload: Seq<char>, ids: Seq<Seq<char>>) -> bool {
    exists|bts: Seq<u8>| payload == b64_of(bts) && #[trigger] dec_str_list(bts) == Some(ids)
}

/// The decoded view a successful broadcast application merged in, and the
/// exact state relation it left behind: ledger entries merged field-wise,
/// the seed merged byte-wise, the creator marked forwarded, everything
/// else untouched.
pub open spec fn apply_maintain_decoded(m: MsgModel, net0: ManagerNetwork, net1: ManagerNetwork,
    dec: ManagerNetwork) -> bool {
    &&& dec.wf()
    &&& (exists|bts: Seq<u8>| m.data->Some_0.2 == b64_of(bts) && #[trigger] dec_view(bts)
        == Some(net_model(dec.nodes_view(), dec.seed_view())))
    &&& (forall|x: Seq<char>| #[trigger] spec_find(net1.nodes_view(), x) == merge_info(
        spec_find(net0.nodes_view(), x), spec_find(dec.nodes_view(), x)))
    &&& net1.seed_view().len() == 32
    &&& (forall|i: int| 0 <= i < 32 ==> net1.seed_view()[i] == vstd::math::max(
        net0.seed_view()[i] as int, dec.seed_view()[i] as int))
    &&& (forall|x: Seq<char>| contains_str(net1.maintain_view(), x) <==> (contains_str(
        net0.maintain_view(), x) || x == m.creator))
    &&& net1.committee_view() == net0.committee_view()
    &&& net1.received_view() == net0.received_view()
}

/// What applying a view broadcast guarantees: on success the payload
/// decoded to a view and was merged in; on failure — no payload, or one
/// that does not decode — nothing changed, and the error says which.
pub open spec fn apply_maintain_post(m: MsgModel, net0: ManagerNetwork, net1: ManagerNetwork,
    db0: DbQueue, db1: DbQueue, r: Result<Vec<(String, InterpreterConstruct)>,
    InterpreterError>) -> bool {
    match r {
        Ok(sends) => {
            &&& sends@.len() == 0
            &&& m.data is Some
            &&& db1 == db0
            &&& exists|dec: ManagerNetwork| #[trigger] apply_maintain_decoded(m, net0, net1,
                dec)
        },
        Err(e) => {
            &&& net1 == net0
            &&& db1 == db0
            &&& (e == InterpreterError::MissingData <==> m.data is None)
            &&& (e == InterpreterError::MalformedPayload ==> m.data is Some && (forall|
                bts: Seq<u8>| m.data->Some_0.2 == b64_of(bts) ==> #[trigger] dec_view(bts)
                is None))
            &&& (e == InterpreterError::MissingData || e == InterpreterError::MalformedPayload)
        },
    }
}

/// What applying a block or catch-up reply guarantees: the first delivery
/// per creator per round persists exactly one entry and marks the creator
/// received; a repeated delivery changes nothing. Always succeeds, with
/// nothing further to send.
pub open spec fn apply_block_post(m: MsgModel, net0: ManagerNetwork, net1: ManagerNetwork,
    db0: DbQueue, db1: DbQueue, r: Result<Vec<(String, InterpreterConstruct)>,
    InterpreterError>) -> bool {
    match r {
        Ok(sends) => {
            &&& sends@.len() == 0
            &&& if contains_str(net0.received_view(), m.creator) {
                net1 == net0 && db1 == db0
            } else {
                &&& (forall|x: Seq<char>| contains_str(net1.received_view(), x)
                    <==> (contains_str(net0.received_view(), x) || x == m.creator))
                &&& net1.nodes_view() == net0.nodes_view()
                &&& net1.seed_view() == net0.seed_view()
                &&& net1.maintain_view() == net0.maintain_view()
                &&& net1.committee_view() == net0.committee_view()
                &&& db1.entries_of(m.creator).len() == db0.entries_of(m.creator).len() + 1
                &&& db1.entries_of(m.creator).drop_last() == db0.entries_of(m.creator)
                &&& entry_view(db1.entries_of(m.creator).last()) == (m.data, m.created_at)
                &&& (forall|x: Seq<char>| x != m.creator ==> #[trigger] db1.entries_of(x)
                    == db0.entries_of(x))
            }
        },
        Err(_) => false,
    }
}

/// What applying a catch-up request guarantees: on success the payload
/// decoded to a list of identities and the replies are one per identity
/// the queue knows, carrying its newest entry, addressed to the sender;
/// all state is untouched either way.
pub open spec fn apply_sync_post(m: MsgModel, net0: ManagerNetwork, net1: ManagerNetwork,
    db0: DbQueue, db1: DbQueue, r: Result<Vec<(String, InterpreterConstruct)>,
    InterpreterError>) -> bool {
    &&& net1 == net0
    &&& db1 == db0
    &&& match r {
        Ok(sends) => {
            &&& m.data is Some
            &&& (exists|ids: Seq<Seq<char>>| #[trigger] payload_decodes_ids(m.data->Some_0.2,
                ids) && sync_models(sends@) == sync_responses(ids, db0))
            &&& (forall|i: int| 0 <= i < sends@.len() ==> #[trigger] sends@[i].0@ == m.from && 0
                <= sends@[i].1.created_at)
        },
        Err(e) => {
            &&& (e == InterpreterError::MissingData <==> m.data is None)
            &&& (e == InterpreterError::MalformedPayload ==> m.data is Some && (forall|
                bts: Seq<u8>| m.data->Some_0.2 == b64_of(bts) ==> #[trigger] dec_str_list(bts)
                is None))
            &&& (e == InterpreterError::MissingData || e == InterpreterError::MalformedPayload)
        },
    }
}

impl InterpreterConstruct {
    /// Applies the message to the local state: a view broadcast merges the
    /// carried view and marks its creator forwarded; a block or catch-up
    /// reply is persisted once per creator per round; a catch-up request
    /// yields the point-to-point replies to send. Errors leave all state
    /// unchanged.
    pub fn apply(&self, network: &mut ManagerNetwork, db_queue: &mut DbQueue) -> (r: Result<
        Vec<(String, InterpreterConstruct)>, InterpreterError>)
        requires
            old(network).wf(),
            old(db_queue).wf(),
            0 <= self.created_at,
        ensures
            final(network).wf(),
            final(db_queue).wf(),
            self.task == TaskKind::Maintain ==> apply_maintain_post(self@, *old(network),
                *final(network), *old(db_queue), *final(db_queue), r),
            (self.task == TaskKind::Block || self.task == TaskKind::RespSync)
                ==> apply_block_post(self@, *old(network), *final(network), *old(db_queue),
                *final(db_queue), r),
            self.task == TaskKind::Sync ==> apply_sync_post(self@, *old(network),
                *final(network), *old(db_queue), *final(db_queue), r),
    {
        match self.task {
            TaskKind::Maintain => {
                let payload = match &self.data {
                    Some((_, _, p)) => p,
                    None => {
                        return Err(InterpreterError::MissingData);
                    },
                };
                let received_network = match ManagerNetwork::deserialize(payload.as_str()) {
                    Some(n) => n,
                    None => {
                        return Err(InterpreterError::MalformedPayload);
                    },
                };
                let ghost dec = received_network;
                network.perform_maintenance(received_network);
                network.mark_maintenance(self.creator.clone());
                proof {
                    assert(apply_maintain_decoded(self@, *old(network), *network, dec));
                }
                Ok(Vec::new())
            },
            TaskKind::Block | TaskKind::RespSync => {
                if network.has_received(self.creator.as_str()) {
                    return Ok(Vec::new());
                }
                network.mark_received(self.creator.clone());
                let data = match &self.data {
                    Some((a, b, c)) => Some((a.clone(), b.clone(), c.clone())),
                    None => None,
                };
                proof {
                    let ghost d = self.data;
                    match d {
                        Some(t) => {
                            assert(t == (t.0, t.1, t.2));
                        },
                        None => {},
                    }
                }
                let ghost dd = data;
                db_queue.add_block(self.creator.clone(), data, self.created_at);
                proof {
                    assert(db_queue.entries_of(self.creator@).last() == (dd, self.created_at));
                    assert(entry_view((dd, self.created_at)).0 == self@.data);
                    assert(db_queue.entries_of(self.creator@).drop_last() =~= old(
                        db_queue).entries_of(self.creator@));
                }
                Ok(Vec::new())
            },
            TaskKind::Sync => {
                let payload = match &self.data {
                    Some((_, _, p)) => p,
                    None => {
                        return Err(InterpreterError::MissingData);
                    },
                };
                let bytes = match b64_decode(payload.as_str()) {
                    Some(v) => v,
                    None => {
                        return Err(InterpreterError::MalformedPayload);
                    },
                };
                let ids = match decode_str_list(&bytes) {
                    Some(v) => v,
                    None => {
                        return Err(InterpreterError::MalformedPayload);
                    },
                };
                let mut responses: Vec<(String, InterpreterConstruct)> = Vec::new();
                proof {
                    assert(strs_view(ids@).skip(0) =~= strs_view(ids@));
                    assert(sync_models(responses@) =~= Seq::<MsgModel>::empty());
                    assert(Seq::<MsgModel>::empty() + sync_responses(strs_view(ids@),
                        *db_queue) =~= sync_responses(strs_view(ids@), *db_queue));
                }
                let n = ids.len();
                let mut k: usize = 0;
                while k < n
                    invariant
                        k <= n,
                        n == ids@.len(),
                        *network == *old(network),
                        *db_queue == *old(db_queue),
                        db_queue.wf(),
                        sync_models(responses@) + sync_responses(strs_view(ids@).skip(k as int),
                            *db_queue) == sync_responses(strs_view(ids@), *db_queue),
                        forall|i: int| 0 <= i < responses@.len() ==> #[trigger] responses@[
                            i].0@ == self.from@ && 0 <= responses@[i].1.created_at,
                    decreases n - k,
                {
                    proof {
                        let tail = strs_view(ids@).skip(k as int);
                        assert(tail.first() == ids@[k as int]@);
                        assert(tail.drop_first() =~= strs_view(ids@).skip(k + 1));
                    }
                    match db_queue.get_last(ids[k].as_str()) {
                        Some((block, created_at)) => {
                            let ghost pre = sync_models(responses@);
                            let response = InterpreterConstruct {
                                creator: ids[k].clone(),
                                from: String::from_str("Response"),
                                task: TaskKind::RespSync,
                                data: block,
                                created_at,
                            };
                            proof {
                                let e = db_queue.entries_of(ids@[k as int]@).last();
                                assert(response@ =~= resp_model(ids@[k as int]@, e)) by {
                                    match e.0 {
                                        Some(t) => {
                                            assert(t == (t.0, t.1, t.2));
                                        },
                                        None => {},
                                    }
                                }
                            }
                            responses.push((self.from.clone(), response));
                            proof {
                                assert(sync_models(responses@) =~= pre + seq![
                                    responses@.last().1@]);
                                let tail1 = sync_responses(strs_view(ids@).skip(k + 1),
                                    *db_queue);
                                assert(pre + (seq![responses@.last().1@] + tail1)
                                    =~= sync_models(responses@) + tail1);
                            }
                        },
                        None => {},
                    }
                    k = k + 1;
                }
                proof {
                    assert(strs_view(ids@).skip(n as int) =~= Seq::<Seq<char>>::empty());
                    assert(sync_models(responses@) + Seq::<MsgModel>::empty() =~= sync_models(
                        responses@));
                    assert(payload_decodes_ids(self@.data->Some_0.2, strs_view(ids@)));
                }
                Ok(responses)
            },
        }
    }
}

/// What distributing a view broadcast guarantees: a creator already
/// forwarded this round is skipped with no recipients and no state change;
/// otherwise, if no peer but the sender is connected the step fails with
/// nothing changed, and else the message fans out to every peer except the
/// sender and the creator, who is then marked forwarded. Only the
/// forwarded-set ever changes.
pub open spec fn distribute_maintain_post(m: MsgModel, net0: ManagerNetwork,
    net1: ManagerNetwork, reg: ManagerClient, r: Result<DistributeOutcome, InterpreterError>)
    -> bool {
    match r {
        Ok(out) => {
            &&& out.message@ == enc_msg(m)
            &&& if contains_str(net0.maintain_view(), m.creator) {
                out.recipients@.len() == 0 && net1 == net0
            } else {
                &&& strs_distinct(out.recipients@)
                &&& (forall|x: Seq<char>| #[trigger] contains_str(out.recipients@, x)
                    <==> (contains_str(reg.peers_view(), x) && x != m.from && x != m.creator))
                &&& (forall|x: Seq<char>| contains_str(net1.maintain_view(), x)
                    <==> (contains_str(net0.maintain_view(), x) || x == m.creator))
                &&& net1.nodes_view() == net0.nodes_view()
                &&& net1.seed_view() == net0.seed_view()
                &&& net1.committee_view() == net0.committee_view()
                &&& net1.received_view() == net0.received_view()
            }
        },
        Err(e) => {
            &&& e == InterpreterError::NoConnectedClients
            &&& !contains_str(net0.maintain_view(), m.creator)
            &&& (forall|x: Seq<char>| contains_str(reg.peers_view(), x) ==> x == m.from)
            &&& net1 == net0
        },
    }
}

/// What distributing a block guarantees: a creator already received this
/// round is skipped with no recipients; otherwise the message goes to a
/// random subset of the peers, never the creator or the sender, of at most
/// `max(2 * max_connections / 3, 1)` targets. The view is never changed,
/// and the step always succeeds.
pub open spec fn distribute_block_post(m: MsgModel, net0: ManagerNetwork, net1: ManagerNetwork,
    reg: ManagerClient, max_connections: u32, r: Result<DistributeOutcome, InterpreterError>)
    -> bool {
    &&& net1 == net0
    &&& match r {
        Ok(out) => {
            &&& out.message@ == enc_msg(m)
            &&& if contains_str(net0.received_view(), m.creator) {
                out.recipients@.len() == 0
            } else {
                let drawn = vstd::math::min(sel_size(max_connections), count_except(
                    reg.peers_view(), m.from));
                &&& strs_distinct(out.recipients@)
                &&& drawn - 1 <= out.recipients@.len() <= drawn
                &&& (forall|i: int| 0 <= i < out.recipients@.len() ==> contains_str(
                    reg.peers_view(), #[trigger] out.recipients@[i]@) && out.recipients@[i]@
                    != m.from && out.recipients@[i]@ != m.creator)
            }
        },
        Err(_) => false,
    }
}

/// The fan-out size of a block: two thirds of the connection budget, at
/// least one.
pub open spec fn sel_size(max_connections: u32) -> int {
    let twothirds = 2 * max_connections as int / 3;
    if twothirds >= 1 {
        twothirds
    } else {
        1
    }
}

/// What distributing a catch-up request guarantees: only the original
/// requester re-distributes — a relayed request (creator differing from
/// sender) goes nowhere; the requester's own goes to every peer except
/// itself. The view is never changed, and the step always succeeds.
pub open spec fn distribute_sync_post(m: MsgModel, net0: ManagerNetwork, net1: ManagerNetwork,
    reg: ManagerClient, r: Result<DistributeOutcome, InterpreterError>) -> bool {
    &&& net1 == net0
    &&& match r {
        Ok(out) => {
            &&& out.message@ == enc_msg(m)
            &&& if m.creator != m.from {
                out.recipients@.len() == 0
            } else {
                &&& strs_distinct(out.recipients@)
                &&& (forall|x: Seq<char>| #[trigger] contains_str(out.recipients@, x)
                    <==> (contains_str(reg.peers_view(), x) && x != m.from && x != m.creator))
            }
        },
        Err(_) => false,
    }
}

/// How many entries differ from both `a` and `b`: the size of the kept
/// list after excluding the two.
pub open spec fn count_not_in(s: Seq<String>, a: Seq<char>, b: Seq<char>) -> int
    decreases s.len(),
{
    if s.len() == 0 {
        0
    } else {
        count_not_in(s.drop_last(), a, b) + if s.last()@ != a && s.last()@ != b {
            1int
        } else {
            0int
        }
    }
}

/// A list with no entry equal to either excluded value keeps its whole
/// length.
proof fn lemma_count_not_in_all(s: Seq<String>, a: Seq<char>, b: Seq<char>)
    requires
        forall|i: int| 0 <= i < s.len() ==> #[trigger] s[i]@ != a && s[i]@ != b,
    ensures
        count_not_in(s, a, b) == s.len(),
    decreases s.len(),
{
    if s.len() > 0 {
        assert forall|i: int| 0 <= i < s.drop_last().len() implies #[trigger] s.drop_last()[i]@
            != a && s.drop_last()[i]@ != b by {
            assert(s.drop_last()[i] == s[i]);
        }
        lemma_count_not_in_all(s.drop_last(), a, b);
    }
}

/// A duplicate-free list none of whose entries equals `b` loses at most
/// one entry to the exclusions.
proof fn lemma_count_not_in_bounds(s: Seq<String>, a: Seq<char>, b: Seq<char>)
    requires
        strs_distinct(s),
        forall|i: int| 0 <= i < s.len() ==> #[trigger] s[i]@ != b,
    ensures
        s.len() - 1 <= count_not_in(s, a, b) <= s.len(),
    decreases s.len(),
{
    if s.len() > 0 {
        assert forall|i: int, j: int| 0 <= i < j < s.drop_last().len()
            implies #[trigger] s.drop_last()[i]@ != #[trigger] s.drop_last()[j]@ by {
            assert(s.drop_last()[i] == s[i] && s.drop_last()[j] == s[j]);
        }
        assert forall|i: int| 0 <= i < s.drop_last().len() implies #[trigger] s.drop_last()[i]@
            != b by {
            assert(s.drop_last()[i] == s[i]);
        }
        if s.last()@ == a {
            assert forall|i: int| 0 <= i < s.drop_last().len()
                implies #[trigger] s.drop_last()[i]@ != a && s.drop_last()[i]@ != b by {
                assert(s.drop_last()[i] == s[i]);
                assert(s[i]@ != s[s.len() - 1]@);
            }
            lemma_count_not_in_all(s.drop_last(), a, b);
        } else {
            lemma_count_not_in_bounds(s.drop_last(), a, b);
        }
    }
}

/// Keeps the strings that differ from both `a` and `b`, preserving order
/// and distinctness; exactly the entries that differ survive.
fn filter_out_two(items: &Vec<String>, a: &str, b: &str) -> (r: Vec<String>)
    requires
        strs_distinct(items@),
    ensures
        strs_distinct(r@),
        r@.len() == count_not_in(items@, a@, b@),
        r@.len() <= items@.len(),
        forall|x: Seq<char>| #[trigger] contains_str(r@, x) <==> (contains_str(items@, x) && x
            != a@ && x != b@),
        forall|i: int| 0 <= i < r@.len() ==> contains_str(items@, #[trigger] r@[i]@)
            && r@[i]@ != a@ && r@[i]@ != b@,
{
    let n = items.len();
    let mut r: Vec<String> = Vec::new();
    let mut k: usize = 0;
    while k < n
        invariant
            k <= n,
            n == items@.len(),
            strs_distinct(items@),
            strs_distinct(r@),
            r@.len() <= k,
            r@.len() == count_not_in(items@.take(k as int), a@, b@),
            forall|x: Seq<char>| #[trigger] contains_str(r@, x) <==> (exists|i: int| 0 <= i < k
                && #[trigger] items@[i]@ == x && x != a@ && x != b@),
        decreases n - k,
    {
        let ghost r0 = r@;
        proof {
            let t1 = items@.take(k + 1);
            assert(t1.drop_last() =~= items@.take(k as int));
            assert(t1.last() == items@[k as int]);
        }
        if !str_eq(items[k].as_str(), a) && !str_eq(items[k].as_str(), b) {
            r.push(items[k].clone());
            proof {
                assert(r@.last()@ == items@[k as int]@);
                assert forall|x: Seq<char>| #[trigger] contains_str(r@, x) implies (exists|
                    i: int| 0 <= i < k + 1 && #[trigger] items@[i]@ == x && x != a@ && x != b@)
                    by {
                    let i = choose|i: int| 0 <= i < r@.len() && #[trigger] r@[i]@ == x;
                    if i < r0.len() {
                        assert(contains_str(r0, x)) by {
                            assert(r0[i]@ == x);
                        }
                    } else {
                        assert(items@[k as int]@ == x);
                    }
                }
                assert forall|x: Seq<char>| (exists|i: int| 0 <= i < k + 1
                    && #[trigger] items@[i]@ == x && x != a@ && x != b@)
                    implies #[trigger] contains_str(r@, x) by {
                    let i = choose|i: int| 0 <= i < k + 1 && #[trigger] items@[i]@ == x && x
                        != a@ && x != b@;
                    if i < k {
                        assert(contains_str(r0, x));
                        let t = choose|t: int| 0 <= t < r0.len() && #[trigger] r0[t]@ == x;
                        assert(r@[t]@ == x);
                    } else {
                        assert(r@[r@.len() - 1]@ == x);
                    }
                }
                assert forall|i: int, j: int| 0 <= i < j < r@.len() implies #[trigger] r@[i]@
                    != #[trigger] r@[j]@ by {
                    if j == r@.len() - 1 {
                        assert(contains_str(r0, r@[i]@)) by {
                            assert(r0[i]@ == r@[i]@);
                        }
                        let t = choose|t: int| 0 <= t < k && #[trigger] items@[t]@ == r@[i]@
                            && r@[i]@ != a@ && r@[i]@ != b@;
                        if r@[i]@ == r@[j]@ {
                            assert(items@[t]@ == items@[k as int]@);
                        }
                    }
                }
            }
        } else {
            proof {
                assert forall|x: Seq<char>| #[trigger] contains_str(r@, x) implies (exists|
                    i: int| 0 <= i < k + 1 && #[trigger] items@[i]@ == x && x != a@ && x != b@)
                    by {
                    let i = choose|i: int| 0 <= i < k && #[trigger] items@[i]@ == x && x != a@
                        && x != b@;
                    assert(0 <= i < k + 1 && items@[i]@ == x && x != a@ && x != b@);
                }
            }
        }
        k = k + 1;
    }
    proof {
        assert(items@.take(n as int) =~= items@);
        assert forall|i: int| 0 <= i < r@.len() implies contains_str(items@,
            #[trigger] r@[i]@) && r@[i]@ != a@ && r@[i]@ != b@ by {
            assert(contains_str(r@, r@[i]@)) by {
                assert(r@[i]@ == r@[i]@);
            }
            let t = choose|t: int| 0 <= t < items@.len() && #[trigger] items@[t]@ == r@[i]@
                && r@[i]@ != a@ && r@[i]@ != b@;
            assert(contains_str(items@, r@[i]@)) by {
                assert(items@[t]@ == r@[i]@);
            }
        }
    }
    r
}

impl InterpreterConstruct {
    /// Decides the re-dissemination of the message: who receives it and
    /// its encoded bytes. A view broadcast floods to all peers but the
    /// sender once per creator per round; a block goes to a bounded random
    /// subset once per creator per round; a catch-up request re-distributes
    /// only for its original requester; a catch-up reply never does.
    #[verifier::rlimit(100)]
    #[verifier::spinoff_prover]
    pub fn distribute(&self, network: &mut ManagerNetwork, registry: &ManagerClient,
        max_connections: u32) -> (r: Result<DistributeOutcome, InterpreterError>)
        requires
            old(network).wf(),
            registry.wf(),
            0 <= self.created_at,
        ensures
            final(network).wf(),
            self.task == TaskKind::Maintain ==> distribute_maintain_post(self@, *old(network),
                *final(network), *registry, r),
            self.task == TaskKind::Block ==> distribute_block_post(self@, *old(network),
                *final(network), *registry, max_connections, r),
            self.task == TaskKind::Sync ==> distribute_sync_post(self@, *old(network),
                *final(network), *registry, r),
            self.task == TaskKind::RespSync ==> *final(network) == *old(network) && (r matches
                Ok(out) && out.recipients@.len() == 0 && out.message@ == enc_msg(self@)),
    {
        match self.task {
            TaskKind::Maintain => {
                if network.was_maintained_by(self.creator.as_str()) {
                    return Ok(DistributeOutcome { recipients: Vec::new(), message: self.encode() });
                }
                let all_clients = registry.get_to_send_clients(self.from.as_str());
                if all_clients.len() == 0 {
                    proof {
                        assert forall|x: Seq<char>| contains_str(registry.peers_view(), x)
                            implies x == self.from@ by {
                            if x != self.from@ {
                                assert(contains_str(all_clients@, x));
                                let i = choose|i: int| 0 <= i < all_clients@.len()
                                    && #[trigger] all_clients@[i]@ == x;
                            }
                        }
                    }
                    return Err(InterpreterError::NoConnectedClients);
                }
                network.mark_maintenance(self.creator.clone());
                let recipients = filter_out_two(&all_clients, self.creator.as_str(),
                    self.from.as_str());
                Ok(DistributeOutcome { recipients, message: self.encode() })
            },
            TaskKind::Block => {
                if network.has_received(self.creator.as_str()) {
                    return Ok(DistributeOutcome { recipients: Vec::new(), message: self.encode() });
                }
                let two_thirds: u64 = 2 * (max_connections as u64) / 3;
                let size: u64 = if two_thirds >= 1 {
                    two_thirds
                } else {
                    1
                };
                let selection = registry.get_random_selection(size as u32, self.from.as_str());
                proof {
                    assert(size == sel_size(max_connections));
                }
                let recipients = filter_out_two(&selection, self.creator.as_str(),
                    self.from.as_str());
                proof {
                    assert forall|i: int| 0 <= i < recipients@.len() implies contains_str(
                        registry.peers_view(), #[trigger] recipients@[i]@) && recipients@[i]@
                        != self.from@ && recipients@[i]@ != self.creator@ by {
                        let t = choose|t: int| 0 <= t < selection@.len()
                            && #[trigger] selection@[t]@ == recipients@[i]@;
                        assert(contains_str(registry.peers_view(), selection@[t]@));
                    }
                    lemma_count_not_in_bounds(selection@, self.creator@, self.from@);
                }
                Ok(DistributeOutcome { recipients, message: self.encode() })
            },
            TaskKind::Sync => {
                if !str_eq(self.creator.as_str(), self.from.as_str()) {
                    return Ok(DistributeOutcome { recipients: Vec::new(), message: self.encode() });
                }
                let all_clients = registry.get_to_send_clients(self.from.as_str());
                let recipients = filter_out_two(&all_clients, self.creator.as_str(),
                    self.from.as_str());
                Ok(DistributeOutcome { recipients, message: self.encode() })
            },
            TaskKind::RespSync => Ok(DistributeOutcome {
                recipients: Vec::new(),
                message: self.encode(),
            }),
        }
    }
}


/// What one listener step did: the re-dissemination decision for the
/// relayed copy, and the catch-up replies the local application produced.
pub struct IncomingOutcome {
    /// The relay decision, with `from` rewritten to this node.
    pub distribute: Result<DistributeOutcome, InterpreterError>,
    /// The local application's result: catch-up replies to send
    /// point-to-point.
    pub responses: Result<Vec<(String, InterpreterConstruct)>, InterpreterError>,
}

/// The relation one handled message leaves behind: the relayed copy (same
/// message, `from` rewritten to this node) was distributed against the
/// incoming state, and the original was then applied to the state the
/// distribution left.
pub open spec fn incoming_post(m: MsgModel, self_url: Seq<char>, net0: ManagerNetwork,
    net_mid: ManagerNetwork, net1: ManagerNetwork, db0: DbQueue, db1: DbQueue,
    reg: ManagerClient, max_connections: u32, o: IncomingOutcome) -> bool {
    let md = MsgModel { from: self_url, ..m };
    &&& 0 <= m.created_at <= i64::MAX
    &&& match m.task {
        TaskKind::Maintain => distribute_maintain_post(md, net0, net_mid, reg, o.distribute)
            && apply_maintain_post(m, net_mid, net1, db0, db1, o.responses),
        TaskKind::Block => distribute_block_post(md, net0, net_mid, reg, max_connections,
            o.distribute) && apply_block_post(m, net_mid, net1, db0, db1, o.responses),
        TaskKind::Sync => distribute_sync_post(md, net0, net_mid, reg, o.distribute)
            && apply_sync_post(m, net_mid, net1, db0, db1, o.responses),
        TaskKind::RespSync => net_mid == net0 && apply_block_post(m, net_mid, net1, db0, db1,
            o.responses),
    }
}

/// One listener step: decrypts an incoming frame, decodes the message,
/// relays a copy with `from` rewritten to this node, then applies the
/// original locally. A frame that does not decrypt or decode is dropped
/// with nothing changed.
#[verifier::rlimit(100)]
#[verifier::spinoff_prover]
pub fn handle_incoming(ciphertext: &[u8], encryption: &crate::handshake::AesEncryption,
    out_server_url: &str, max_connections: u32, network: &mut ManagerNetwork,
    db_queue: &mut DbQueue, registry: &ManagerClient) -> (r: Option<IncomingOutcome>)
    requires
        old(network).wf(),
        old(db_queue).wf(),
        registry.wf(),
        encryption.wf(),
    ensures
        final(network).wf(),
        final(db_queue).wf(),
        match r {
            Some(o) => exists|m: MsgModel, net_mid: ManagerNetwork| #[trigger] incoming_post(m,
                out_server_url@, *old(network), net_mid, *final(network), *old(db_queue),
                *final(db_queue), *registry, max_connections, o),
            None => {
                &&& *final(network) == *old(network)
                &&& *final(db_queue) == *old(db_queue)
                &&& (forall|p: Seq<u8>| ciphertext@ == crate::handshake::aes_enc(p,
                    encryption.key_view(), encryption.iv_view()) ==> #[trigger] dec_msg(p)
                    is None)
            },
        },
{
    let decrypted = match encryption.decrypt(ciphertext) {
        Some(d) => d,
        None => {
            return None;
        },
    };
    let apply_construct = match InterpreterConstruct::decode(&decrypted) {
        Some(c) => c,
        None => {
            proof {
                assert forall|p: Seq<u8>| ciphertext@ == crate::handshake::aes_enc(p,
                    encryption.key_view(), encryption.iv_view())
                    implies #[trigger] dec_msg(p) is None by {
                    assert(decrypted@ == p);
                }
            }
            return None;
        },
    };
    let distribute_construct = InterpreterConstruct {
        from: String::from_str(out_server_url),
        creator: apply_construct.creator.clone(),
        task: apply_construct.task,
        data: match &apply_construct.data {
            Some((a, b, c)) => Some((a.clone(), b.clone(), c.clone())),
            None => None,
        },
        created_at: apply_construct.created_at,
    };
    proof {
        let ghost d = apply_construct.data;
        match d {
            Some(t) => {
                assert(t == (t.0, t.1, t.2));
            },
            None => {},
        }
        assert(distribute_construct@ =~= MsgModel { from: out_server_url@,
            ..apply_construct@ });
    }
    let distribute = distribute_construct.distribute(network, registry, max_connections);
    let ghost net_mid = *network;
    let responses = apply_construct.apply(network, db_queue);
    let o = IncomingOutcome { distribute, responses };
    proof {
        assert(incoming_post(apply_construct@, out_server_url@, *old(network), net_mid,
            *network, *old(db_queue), *db_queue, *registry, max_connections, o));
    }
    Some(o)
}

} // verus!
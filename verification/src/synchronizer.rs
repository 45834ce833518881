//! The wall-clock round scheduler. Each minute splits into five 12-second
//! slots; at the top of the minute a maintenance round gossips the network
//! view, at :12 and :36 a committee round elects and (when this node is
//! elected) proposes a block, at :24 and :48 a sync round requests the
//! committee blocks still missing. Committee and sync rounds wait until
//! the first maintenance round has gone out. The timing loop itself —
//! sleeping and polling a clock — stays with the I/O layer; everything it
//! decides is here.

use vstd::prelude::*;
use vstd::string::StringExecFns;
use crate::interpreter::{
    distribute_block_post, enc_msg, DistributeOutcome, InterpreterConstruct, InterpreterError,
    MsgModel, TaskKind,
};
use crate::network::{
    b64_encode, b64_of, contains_str, enc_view, filter_missing, net_model, strs_distinct,
    strs_sorted, ManagerNetwork, spec_committee, score_hash,
};
use crate::queues::{BlocksQueue, FeedbackQueue};
use crate::registry::ManagerClient;
use crate::codec::{enc_str_list, encode_str_list, strs_view};

verus! {

/// Which round a slot fires.
#[derive(Clone, Copy, PartialEq, Eq, Structural, Debug)]
pub enum RoundKind {
    /// Gossip the network view.
    Maintenance,
    /// Elect the committee and, if elected, propose a block.
    Committee,
    /// Request the committee blocks still missing.
    Sync,
}

/// Whether a slot boundary at `now` is newly crossed: `now` sits on a
/// 12-second boundary not yet fired.
pub open spec fn spec_crossed(now: i64, last_fired: i64) -> bool {
    now % 12 == 0 && last_fired < now
}

/// The round a boundary at `now` fires: maintenance at the top of the
/// minute; committee at :12 and :36 and sync at :24 and :48, both only
/// after the first maintenance round went out.
pub open spec fn spec_round_kind(now: i64, first_maintenance: bool) -> Option<RoundKind>
    recommends
        now >= 0,
{
    let offset = now % 60;
    if offset == 0 {
        Some(RoundKind::Maintenance)
    } else if (offset == 12 || offset == 36) && !first_maintenance {
        Some(RoundKind::Committee)
    } else if (offset == 24 || offset == 48) && !first_maintenance {
        Some(RoundKind::Sync)
    } else {
        None
    }
}

/// Round actions fire only at second-of-minute offsets 0, 12, 24, 36 and
/// 48; and a boundary already fired never fires again: once `last_fired`
/// has advanced to `now`, the same `now` is no longer crossed.
pub proof fn lemma_round_offsets(now: i64, last_fired: i64, first_maintenance: bool)
    requires
        now >= 0,
    ensures
        spec_crossed(now, last_fired) && spec_round_kind(now, first_maintenance) is Some ==> {
            let offset = now % 60;
            offset == 0 || offset == 12 || offset == 24 || offset == 36 || offset == 48
        },
        !spec_crossed(now, now),
{
    if spec_crossed(now, last_fired) {
        assert((now % 60) % 12 == now % 12) by (nonlinear_arith)
            requires
                now >= 0,
        ;
        let offset = now % 60;
        assert(0 <= offset < 60);
        assert(offset % 12 == 0);
    }
}

/// Whether the clock just crossed a slot boundary that has not fired yet.
pub fn crossed_boundary(now: i64, last_fired: i64) -> (r: bool)
    requires
        now >= 0,
    ensures
        r == spec_crossed(now, last_fired),
{
    now % 12 == 0 && last_fired < now
}

/// The round a newly crossed boundary fires, if any.
pub fn round_kind(now: i64, first_maintenance: bool) -> (r: Option<RoundKind>)
    requires
        now >= 0,
    ensures
        r == spec_round_kind(now, first_maintenance),
{
    let offset = now % 60;
    if offset == 0 {
        Some(RoundKind::Maintenance)
    } else if (offset == 12 || offset == 36) && !first_maintenance {
        Some(RoundKind::Committee)
    } else if (offset == 24 || offset == 48) && !first_maintenance {
        Some(RoundKind::Sync)
    } else {
        None
    }
}

/// How many nanoseconds remain until the next 12-second boundary: zero
/// when the clock sits exactly on one.
pub fn nanos_until_boundary(secs: i64, subsec_nanos: u32) -> (r: u64)
    requires
        secs >= 0,
        subsec_nanos < 1_000_000_000,
    ensures
        r == if ((12 - secs % 12) % 12) * 1_000_000_000 - subsec_nanos >= 0 {
            ((12 - secs % 12) % 12) * 1_000_000_000 - subsec_nanos
        } else {
            0
        },
{
    let remaining_secs: i64 = (12 - secs % 12) % 12;
    let total_nanos: i64 = remaining_secs * 1_000_000_000 - subsec_nanos as i64;
    if total_nanos >= 0 {
        total_nanos as u64
    } else {
        0
    }
}

/// The model of this node's own view broadcast.
pub open spec fn maintain_model(url: Seq<char>, payload: Seq<char>, now: int) -> MsgModel {
    MsgModel {
        creator: url,
        from: url,
        task: TaskKind::Maintain,
        data: Some(("maintenance"@, "job"@, payload)),
        created_at: now,
    }
}

/// The model of this node's own block proposal.
pub open spec fn block_model(url: Seq<char>, data: Option<(Seq<char>, Seq<char>, Seq<char>)>,
    now: int) -> MsgModel {
    MsgModel { creator: url, from: url, task: TaskKind::Block, data, created_at: now }
}

/// The payload of this node's next proposal: the oldest assembled block's
/// hash, organization and payload, or nothing when none is ready.
pub open spec fn proposal_data(q: BlocksQueue) -> Option<(Seq<char>, Seq<char>, Seq<char>)> {
    if q.view_of().len() > 0 {
        let b = q.view_of().first();
        Some((b.0@, b.1@, b.3@))
    } else {
        None
    }
}

/// The model of this node's own catch-up request.
pub open spec fn sync_model(url: Seq<char>, payload: Seq<char>, now: int) -> MsgModel {
    MsgModel {
        creator: url,
        from: url,
        task: TaskKind::Sync,
        data: Some(("missing"@, "job"@, payload)),
        created_at: now,
    }
}

/// The scheduler's own state: this node's advertised identity, the
/// committee size to elect, the fan-out budget, and whether the first
/// maintenance round is still owed.
pub struct Synchronizer {
    /// This node's advertised identity.
    pub server_url: String,
    /// How many nodes each committee round elects.
    pub committee_size: u32,
    /// The connection budget handed to each distribute step.
    pub selection_size: u32,
    /// Whether no maintenance round has gone out yet; committee and sync
    /// rounds are suppressed while it holds.
    pub first_maintenance: bool,
}

impl Synchronizer {
    /// A scheduler for `server_url`, which also enters this node into the
    /// view with the median stake.
    pub fn new(server_url: String, committee_size: u32, selection_size: u32,
        network: &mut ManagerNetwork) -> (r: Synchronizer)
        requires
            old(network).wf(),
        ensures
            final(network).wf(),
            crate::network::spec_find(final(network).nodes_view(), server_url@) == Some(
                crate::network::NodeInfo { stake: 50, reward: 0, penalty: 0 }),
            forall|x: Seq<char>| x != server_url@ ==> #[trigger] crate::network::spec_find(
                final(network).nodes_view(), x) == crate::network::spec_find(
                old(network).nodes_view(), x),
            final(network).seed_view() == old(network).seed_view(),
            final(network).maintain_view() == old(network).maintain_view(),
            final(network).committee_view() == old(network).committee_view(),
            final(network).received_view() == old(network).received_view(),
            r.server_url@ == server_url@,
            r.committee_size == committee_size,
            r.selection_size == selection_size,
            r.first_maintenance == true,
    {
        network.insert_node(server_url.clone(), 50, 0, 0);
        Synchronizer { server_url, committee_size, selection_size, first_maintenance: true }
    }

    /// A maintenance round: opens a fresh forwarded-set window, snapshots
    /// the view, and floods it as this node's own broadcast. The first
    /// successful round lifts the bootstrap guard.
    pub fn maintenance_round(&mut self, network: &mut ManagerNetwork, registry: &ManagerClient,
        now: i64) -> (r: Result<DistributeOutcome, InterpreterError>)
        requires
            old(network).wf(),
            registry.wf(),
            0 <= now,
        ensures
            final(network).wf(),
            ({
                let payload = b64_of(enc_view(net_model(old(network).nodes_view(),
                    old(network).seed_view())));
                let m = maintain_model(old(self).server_url@, payload, now as int);
                match r {
                    Ok(out) => {
                        &&& out.message@ == enc_msg(m)
                        &&& (forall|x: Seq<char>| #[trigger] contains_str(out.recipients@, x)
                            <==> (contains_str(registry.peers_view(), x) && x
                            != old(self).server_url@))
                        &&& (forall|x: Seq<char>| contains_str(final(network).maintain_view(),
                            x) <==> x == old(self).server_url@)
                        &&& final(self).first_maintenance == false
                    },
                    Err(e) => {
                        &&& e == InterpreterError::NoConnectedClients
                        &&& (forall|x: Seq<char>| contains_str(registry.peers_view(), x) ==> x
                            == old(self).server_url@)
                        &&& final(network).maintain_view().len() == 0
                        &&& final(self).first_maintenance == old(self).first_maintenance
                    },
                }
            }),
            final(network).nodes_view() == old(network).nodes_view(),
            final(network).seed_view() == old(network).seed_view(),
            final(network).committee_view() == old(network).committee_view(),
            final(network).received_view() == old(network).received_view(),
            final(self).server_url == old(self).server_url,
            final(self).committee_size == old(self).committee_size,
            final(self).selection_size == old(self).selection_size,
    {
        network.prepare_for_maintenance();
        let encoded_network = network.serialize();
        let construct = InterpreterConstruct {
            creator: self.server_url.clone(),
            from: self.server_url.clone(),
            task: TaskKind::Maintain,
            data: Some((String::from_str("maintenance"), String::from_str("job"),
                encoded_network)),
            created_at: now,
        };
        let result = construct.distribute(network, registry, self.selection_size);
        match result {
            Ok(out) => {
                if self.first_maintenance {
                    self.first_maintenance = false;
                }
                proof {
                    let payload = b64_of(enc_view(net_model(old(network).nodes_view(),
                        old(network).seed_view())));
                    assert(construct@ =~= maintain_model(old(self).server_url@, payload,
                        now as int));
                }
                Ok(out)
            },
            Err(e) => {
                proof {
                    let payload = b64_of(enc_view(net_model(old(network).nodes_view(),
                        old(network).seed_view())));
                    assert(construct@ =~= maintain_model(old(self).server_url@, payload,
                        now as int));
                }
                Err(e)
            },
        }
    }

    /// A committee round: elects the committee from the current view and,
    /// when this node is elected, dequeues the oldest ready block
    /// (registering its feedback target) and floods it as this node's own
    /// proposal. Nodes not elected only take part in the election.
    pub fn committee_round(&self, network: &mut ManagerNetwork, registry: &ManagerClient,
        blocks_queue: &mut BlocksQueue, feedback_queue: &mut FeedbackQueue, now: i64) -> (r:
        Option<Result<DistributeOutcome, InterpreterError>>)
        requires
            old(network).wf(),
            registry.wf(),
            old(feedback_queue).wf(),
            0 <= now,
        ensures
            final(network).wf(),
            final(feedback_queue).wf(),
            final(network).received_view().len() == 0,
            ({
                let sc = Seq::new(old(network).nodes_view().len(), |i: int| (
                    old(network).nodes_view()[i].0,
                    score_hash(old(network).seed_view(), old(network).nodes_view()[i].0@),
                    old(network).nodes_view()[i].1.stake,
                ));
                let committee = spec_committee(sc, self.committee_size as int);
                &&& final(network).committee_view() == committee
                &&& (r is Some <==> contains_str(committee, self.server_url@))
            }),
            match r {
                None => final(blocks_queue).view_of() == old(blocks_queue).view_of()
                    && *final(feedback_queue) == *old(feedback_queue),
                Some(inner) => {
                    &&& distribute_block_post(block_model(self.server_url@, proposal_data(
                        *old(blocks_queue)), now as int), *final(network), *final(network),
                        *registry, self.selection_size, inner)
                    &&& if old(blocks_queue).view_of().len() > 0 {
                        let b = old(blocks_queue).view_of().first();
                        &&& final(blocks_queue).view_of() == old(
                            blocks_queue).view_of().drop_first()
                        &&& final(feedback_queue).target_of(b.0@) == Some(b.2)
                        &&& (forall|x: Seq<char>| x != b.0@
                            ==> #[trigger] final(feedback_queue).target_of(x)
                            == old(feedback_queue).target_of(x))
                    } else {
                        &&& final(blocks_queue).view_of() == old(blocks_queue).view_of()
                        &&& *final(feedback_queue) == *old(feedback_queue)
                    }
                },
            },
    {
        network.choose_committee(self.committee_size);
        let member = {
            let committee = network.get_committee();
            let mut found = false;
            let n = committee.len();
            let mut k: usize = 0;
            while k < n
                invariant
                    k <= n,
                    n == committee@.len(),
                    network.wf(),
                    found ==> exists|i: int| 0 <= i < n && #[trigger] committee@[i]@
                        == self.server_url@,
                    !found ==> forall|i: int| 0 <= i < k ==> #[trigger] committee@[i]@
                        != self.server_url@,
                decreases n - k,
            {
                if crate::order::str_eq(committee[k].as_str(), self.server_url.as_str()) {
                    found = true;
                }
                k = k + 1;
            }
            proof {
                if found {
                    let i = choose|i: int| 0 <= i < committee@.len() && #[trigger] committee@[
                        i]@ == self.server_url@;
                    assert(network.committee_view()[i]@ == self.server_url@);
                } else {
                    if contains_str(network.committee_view(), self.server_url@) {
                        let i = choose|i: int| 0 <= i < network.committee_view().len()
                            && #[trigger] network.committee_view()[i]@ == self.server_url@;
                        assert(committee@[i]@ == self.server_url@);
                    }
                }
            }
            found
        };
        if !member {
            return None;
        }
        let data = match blocks_queue.get_block() {
            Some((hash, organization, feedback, payload)) => {
                feedback_queue.add_block(hash.clone(), feedback);
                Some((hash, organization, payload))
            },
            None => None,
        };
        let construct = InterpreterConstruct {
            creator: self.server_url.clone(),
            from: self.server_url.clone(),
            task: TaskKind::Block,
            data,
            created_at: now,
        };
        proof {
            assert(construct@ =~= block_model(self.server_url@, proposal_data(
                *old(blocks_queue)), now as int));
        }
        let inner = construct.distribute(network, registry, self.selection_size);
        Some(inner)
    }

    /// A sync round: requests the committee blocks still missing this
    /// round, as this node's own point-of-origin request.
    pub fn sync_round(&self, network: &mut ManagerNetwork, registry: &ManagerClient, now: i64)
        -> (r: Result<DistributeOutcome, InterpreterError>)
        requires
            old(network).wf(),
            registry.wf(),
            0 <= now,
        ensures
            final(network).wf(),
            *final(network) == *old(network),
            ({
                let m = sync_model(self.server_url@, b64_of(enc_str_list(missing_view(
                    *old(network)))), now as int);
                match r {
                    Ok(out) => {
                        &&& out.message@ == enc_msg(m)
                        &&& strs_distinct(out.recipients@)
                        &&& (forall|x: Seq<char>| #[trigger] contains_str(out.recipients@, x)
                            <==> (contains_str(registry.peers_view(), x) && x
                            != self.server_url@))
                    },
                    Err(_) => false,
                }
            }),
    {
        let missing = network.missing_nodes();
        let encoded = encode_str_list(&missing);
        let payload = b64_encode(encoded.as_slice());
        let construct = InterpreterConstruct {
            creator: self.server_url.clone(),
            from: self.server_url.clone(),
            task: TaskKind::Sync,
            data: Some((String::from_str("missing"), String::from_str("job"), payload)),
            created_at: now,
        };
        let result = construct.distribute(network, registry, self.selection_size);
        proof {
            let m = sync_model(self.server_url@, b64_of(enc_str_list(missing_view(
                *old(network)))), now as int);
            assert(construct@ =~= m);
        }
        result
    }
}

/// The committee members without a received block, in committee order: the
/// content of a sync round's request.
pub open spec fn missing_view(net: ManagerNetwork) -> Seq<Seq<char>> {
    strs_view(filter_missing(net.committee_view(), net.received_view()))
}

} // verus!

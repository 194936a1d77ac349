//! Multi-peer request ownership and scheduling.
//!
//! Each wanted block is owned by at most the request attempts that are still
//! active for it; payload, storage writes and hash checks move blocks through
//! their phases, and the scheduler fills every connection's request window
//! within the global outstanding-byte budget.
//!
//! Times are milliseconds since an origin the caller chooses.
use vstd::prelude::*;
use crate::piece_picker::{AvailabilityPicker, MAX_PICKER_SWEEP, falses};
use crate::request_window::{RequestWindow, RequestWindowPhase, timeout_spec};
use crate::storage_join::{ERR_NO_RUNNING_HASH, PieceHashJoinState, PieceStorageJoin, PieceStorageOutcome};
use crate::swarm_types::{
    BlockKey, BlockStatus, ConnectionId, ConnectionRemoval, ExpiredRequest, FastPeerSnapshot,
    NoRequestReason, PeerMessage, PendingDialId, PieceActivationPolicy, PieceGeneration, PieceHashFailure,
    PiecePlan, ReceiveDisposition, RejectDisposition, RequestAssignment, RequestAttempt,
    RequestAttemptId, RequestCancellation, RequestDisposition, SwarmConfig, SwarmError,
    MAX_FAST_ADVISORY_PIECES, MIN_HEALTHY_REQUESTS_PER_CONNECTION, well_planned,
};

verus! {

/// Most requestable blocks the active working set may span before new pieces wait.
pub const MAX_REQUESTABLE_ACTIVE_BLOCKS: usize = 2_048;

#[derive(Clone, Copy, Debug, PartialEq, Eq, Structural)]
pub enum BlockPhase {
    Missing,
    Requested,
    Writing { source: ConnectionId, evidence: RequestAttemptId },
    Received { source: ConnectionId, evidence: RequestAttemptId },
    Verified,
}

impl BlockPhase {
    pub open spec fn status_spec(self) -> BlockStatus {
        match self {
            BlockPhase::Missing => BlockStatus::Missing,
            BlockPhase::Requested => BlockStatus::Requested,
            BlockPhase::Writing { .. } => BlockStatus::Writing,
            BlockPhase::Received { .. } => BlockStatus::Received,
            BlockPhase::Verified => BlockStatus::Verified,
        }
    }

    pub fn status(self) -> (r: BlockStatus)
        ensures
            r == self.status_spec(),
    {
        match self {
            BlockPhase::Missing => BlockStatus::Missing,
            BlockPhase::Requested => BlockStatus::Requested,
            BlockPhase::Writing { .. } => BlockStatus::Writing,
            BlockPhase::Received { .. } => BlockStatus::Received,
            BlockPhase::Verified => BlockStatus::Verified,
        }
    }
}

/// One wanted block: its phase and its retained request attempts, oldest first.
#[derive(Debug)]
pub struct BlockEntry {
    pub key: BlockKey,
    pub phase: BlockPhase,
    pub attempts: Vec<RequestAttempt>,
}

/// One planned piece.
#[derive(Debug)]
pub struct PieceState {
    pub index: u32,
    pub blocks: Vec<BlockEntry>,
    pub working_set_bytes: usize,
    pub storage: PieceStorageJoin,
    pub active: bool,
    pub verified: bool,
}

/// One established connection.
#[derive(Debug)]
pub struct ConnectionState {
    pub id: ConnectionId,
    pub availability: Vec<bool>,
    pub have_count: usize,
    pub wanted_piece_count: usize,
    pub choking: bool,
    pub fast_extension: bool,
    pub initial_availability_received: bool,
    pub suggestions: Vec<u32>,
    pub allowed_fast: Vec<u32>,
    pub connected_at: u64,
    pub last_useful_at: Option<u64>,
    pub active_request_count: usize,
    pub request_window: RequestWindow,
}

impl ConnectionState {
    pub open spec fn wf(&self, piece_count: usize) -> bool {
        &&& self.availability@.len() == piece_count
        &&& self.request_window.wf()
    }

    /// The peer may be asked for `piece`: it has it, and it is unchoked or the
    /// piece is allowed fast on a Fast connection.
    pub open spec fn may_request(&self, piece: int) -> bool {
        &&& 0 <= piece < self.availability@.len()
        &&& self.availability@[piece]
        &&& (!self.choking || (self.fast_extension && piece <= u32::MAX && self.allowed_fast@.contains(
            piece as u32,
        )))
    }

    pub fn can_request_piece(&self, piece: usize) -> (r: bool)
        ensures
            r == self.may_request(piece as int),
    {
        if piece >= self.availability.len() || !self.availability[piece] {
            return false;
        }
        if !self.choking {
            return true;
        }
        self.fast_extension && piece <= u32::MAX as usize && contains_u32(&self.allowed_fast, piece as u32)
    }

    pub fn has_choked_fast_work(&self) -> (r: bool)
        ensures
            r == (self.fast_extension && self.choking && self.allowed_fast@.len() > 0),
    {
        self.fast_extension && self.choking && self.allowed_fast.len() > 0
    }
}

pub fn contains_u32(v: &Vec<u32>, x: u32) -> (r: bool)
    ensures
        r == v@.contains(x),
{
    let mut i: usize = 0;
    while i < v.len()
        invariant
            i <= v@.len(),
            forall|k: int| 0 <= k < i ==> v@[k] != x,
        decreases v@.len() - i,
    {
        if v[i] == x {
            return true;
        }
        i += 1;
    }
    false
}

/// Identifiers strictly increase along the connections.
pub open spec fn connections_sorted(c: Seq<ConnectionState>) -> bool {
    forall|i: int, j: int|
        #![trigger c[i], c[j]]
        0 <= i < j < c.len() ==> c[i].id.value() < c[j].id.value()
}

/// Indexes strictly increase along the pieces.
/// The active attempt an assignment made at `now` stands for.
pub open spec fn issued(a: RequestAssignment, now: u64) -> RequestAttempt {
    RequestAttempt {
        id: a.attempt,
        block: a.block,
        connection: a.connection,
        issued_at: now,
        disposition: RequestDisposition::Requested,
    }
}

/// The attempt was issued to `connection`.
pub open spec fn on_connection(connection: ConnectionId) -> spec_fn(RequestAttempt) -> bool {
    |a: RequestAttempt| a.connection == connection
}

/// Removing one attempt of a list with distinct identifiers removes exactly
/// that attempt.
proof fn lemma_remove_distinct(s: Seq<RequestAttempt>, j: int)
    requires
        attempt_ids_distinct(s),
        0 <= j < s.len(),
    ensures
        forall|a: RequestAttempt| #[trigger] s.remove(j).contains(a) <==> s.contains(a) && a != s[j],
{
    assert forall|a: RequestAttempt| #[trigger] s.remove(j).contains(a) implies s.contains(a) && a != s[j] by {
        let k = choose|k: int| 0 <= k < s.remove(j).len() && s.remove(j)[k] == a;
        let o = if k < j { k } else { k + 1 };
        assert(s[o] == a);
        assert(o != j);
        assert(s[o].id != s[j].id || o == j);
    }
    assert forall|a: RequestAttempt| s.contains(a) && a != s[j] implies #[trigger] s.remove(j).contains(a) by {
        let o = choose|o: int| 0 <= o < s.len() && s[o] == a;
        assert(o != j);
        let k = if o < j { o } else { o - 1 };
        assert(s.remove(j)[k] == a);
    }
}

/// No two attempts share an identifier.
pub open spec fn attempt_ids_distinct(attempts: Seq<RequestAttempt>) -> bool {
    forall|i: int, j: int|
        #![trigger attempts[i], attempts[j]]
        0 <= i < j < attempts.len() ==> attempts[i].id != attempts[j].id
}

/// `n`, held at `usize::MAX`.
pub open spec fn saturate(n: nat) -> usize {
    if n > usize::MAX {
        usize::MAX
    } else {
        n as usize
    }
}

/// An active piece that still has a missing block.
pub open spec fn requestable_piece(p: PieceState) -> bool {
    &&& p.active
    &&& exists|b: int| 0 <= b < p.blocks@.len() && (#[trigger] p.blocks@[b]).phase == BlockPhase::Missing
}

/// How many pieces are active.
pub open spec fn active_count(pieces: Seq<PieceState>) -> nat
    decreases pieces.len(),
{
    if pieces.len() == 0 {
        0
    } else {
        active_count(pieces.drop_last()) + if pieces.last().active {
            1nat
        } else {
            0nat
        }
    }
}

/// How many pieces are requestable.
pub open spec fn requestable_count(pieces: Seq<PieceState>) -> nat
    decreases pieces.len(),
{
    if pieces.len() == 0 {
        0
    } else {
        requestable_count(pieces.drop_last()) + if requestable_piece(pieces.last()) {
            1nat
        } else {
            0nat
        }
    }
}

/// How many blocks the requestable pieces span.
pub open spec fn requestable_blocks(pieces: Seq<PieceState>) -> nat
    decreases pieces.len(),
{
    if pieces.len() == 0 {
        0
    } else {
        requestable_blocks(pieces.drop_last()) + if requestable_piece(pieces.last()) {
            pieces.last().blocks@.len()
        } else {
            0nat
        }
    }
}

/// How many requestable active pieces `connections` peers may keep busy:
/// one and a half per peer.
pub open spec fn activation_pressure(connections: nat) -> int {
    (if connections * 3 <= usize::MAX {
        (connections * 3) as int
    } else {
        usize::MAX as int
    }) / 2
}

pub open spec fn pieces_sorted(p: Seq<PieceState>) -> bool {
    forall|i: int, j: int|
        #![trigger p[i], p[j]]
        0 <= i < j < p.len() ==> p[i].index < p[j].index
}

impl PieceState {
    pub open spec fn wf(&self, piece_count: usize) -> bool {
        &&& self.index < piece_count
        &&& self.blocks@.len() > 0
        &&& self.storage.wf()
        &&& self.storage.expected_view() == self.blocks@.len()
        &&& forall|b: int| 0 <= b < self.blocks@.len() ==> (#[trigger] self.blocks@[b]).key.piece == self.index
    }
}

#[derive(Clone, Copy, Debug, PartialEq, Eq)]
pub struct SwarmSnapshot {
    pub pending_dials: usize,
    pub connected_peers: usize,
    pub unchoked_peers: usize,
    pub missing_blocks: usize,
    pub requested_blocks: usize,
    pub active_request_attempts: usize,
    pub active_duplicate_attempts: usize,
    pub writing_blocks: usize,
    pub received_blocks: usize,
    pub verified_blocks: usize,
    pub active_piece_count: usize,
    pub active_piece_bytes: usize,
    pub max_active_pieces: usize,
    pub piece_activation_policy: PieceActivationPolicy,
    pub availability_seed_count: usize,
    pub picker_retained_bytes: usize,
    pub picker_rank_comparisons: u64,
    pub picker_bulk_rebuilds: u64,
    pub picker_candidate_inspections: u64,
    pub active_piece_visits: u64,
    pub inactive_planned_piece_visits: u64,
    pub last_activated_piece: Option<u32>,
    pub last_activated_availability: Option<u32>,
    pub outstanding_request_bytes: usize,
    pub outstanding_request_high_water: usize,
    pub request_target_total: usize,
    pub request_target_max: usize,
    pub slow_start_peers: usize,
    pub stalled_peers: usize,
    pub useful_payload_bytes: usize,
    pub observed_payload_rate: usize,
    pub endgame_assignments: usize,
    pub cancelled_request_attempts: usize,
    pub redundant_payload_bytes: usize,
    pub piece_hash_failures: usize,
    pub failed_piece_bytes: usize,
    pub last_hash_failure_contributors: usize,
    pub request_timeout_min: Option<u64>,
    pub request_timeout_max: Option<u64>,
    pub oldest_request_age: Option<u64>,
    pub next_request_expiry: Option<u64>,
    pub next_replacement_at: Option<u64>,
    pub no_request_reason: Option<NoRequestReason>,
}

#[derive(Clone, Copy, Debug, PartialEq, Eq, Structural)]
pub enum ConnectionWindowPhaseSnapshot {
    SlowStart,
    Steady,
    Stalled,
}

#[derive(Clone, Copy, Debug, PartialEq, Eq)]
pub struct ConnectionActivitySnapshot {
    pub id: ConnectionId,
    pub choking: bool,
    pub wanted_piece_count: usize,
    pub pending_requests: usize,
    pub target_requests: usize,
    pub queued_payload_bytes: usize,
    pub window_phase: ConnectionWindowPhaseSnapshot,
    pub useful_payload_bytes: usize,
    pub observed_payload_rate: usize,
    pub connected_age: u64,
    pub last_useful_age: Option<u64>,
    pub last_payload_age: Option<u64>,
    pub request_timeout: u64,
    pub oldest_request_age: Option<u64>,
}

pub const ERR_NO_PLANS: &'static str = "at least one wanted piece plan is required";

pub const ERR_NO_PIECES: &'static str = "piece count must be nonzero";

pub const ERR_NO_WANTED: &'static str = "at least one wanted piece is required";

pub const ERR_PIECE_WIDTH: &'static str = "piece count exceeds the piece index width";

pub const OWNER_WORKING_SET: &'static str = "piece working-set bytes";

pub const OWNER_MISSING: &'static str = "missing block count";

pub const ERR_RETIRE_EARLY: &'static str = "piece cannot retire before verification completes";

pub const ERR_RETIRE_UNVERIFIED: &'static str = "retired piece contains an unverified block";

/// Request ownership and scheduling state of one torrent.
#[derive(Debug)]
pub struct SwarmState {
    config: SwarmConfig,
    piece_count: usize,
    picker: AvailabilityPicker,
    pieces: Vec<PieceState>,
    connections: Vec<ConnectionState>,
    pending_dials: Vec<PendingDialId>,
    active_attempts: Vec<RequestAttempt>,
    next_attempt_id: u64,
    missing_blocks: usize,
    requested_blocks: usize,
    writing_blocks: usize,
    received_blocks: usize,
    verified_blocks: usize,
    active_piece_bytes: usize,
    outstanding_request_bytes: usize,
    outstanding_request_high_water: usize,
    last_scheduled_connection: Option<ConnectionId>,
    last_activated_piece: Option<u32>,
    last_activated_availability: Option<u32>,
    active_piece_visits: u64,
    inactive_planned_piece_visits: u64,
    endgame_assignments: usize,
    cancelled_request_attempts: usize,
    redundant_payload_bytes: usize,
    piece_hash_failures: usize,
    failed_piece_bytes: usize,
    last_hash_failure_contributors: usize,
}

/// The running tallies a swarm keeps for its snapshots.
pub struct SwarmTallies {
    pub requested_blocks: usize,
    pub writing_blocks: usize,
    pub received_blocks: usize,
    pub verified_blocks: usize,
    pub active_piece_bytes: usize,
    pub last_activated_piece: Option<u32>,
    pub last_activated_availability: Option<u32>,
    pub active_piece_visits: u64,
    pub inactive_planned_piece_visits: u64,
    pub endgame_assignments: usize,
    pub cancelled_request_attempts: usize,
    pub redundant_payload_bytes: usize,
    pub piece_hash_failures: usize,
    pub failed_piece_bytes: usize,
    pub last_hash_failure_contributors: usize,
}

/// The tallies of a fresh swarm.
pub open spec fn fresh_tallies() -> SwarmTallies {
    SwarmTallies {
        requested_blocks: 0,
        writing_blocks: 0,
        received_blocks: 0,
        verified_blocks: 0,
        active_piece_bytes: 0,
        last_activated_piece: None,
        last_activated_availability: None,
        active_piece_visits: 0,
        inactive_planned_piece_visits: 0,
        endgame_assignments: 0,
        cancelled_request_attempts: 0,
        redundant_payload_bytes: 0,
        piece_hash_failures: 0,
        failed_piece_bytes: 0,
        last_hash_failure_contributors: 0,
    }
}

/// The number of connections that do not choke us.
pub open spec fn unchoked_count(connections: Seq<ConnectionState>) -> nat
    decreases connections.len(),
{
    if connections.len() == 0 {
        0
    } else {
        unchoked_count(connections.drop_last()) + if connections.last().choking {
            0nat
        } else {
            1nat
        }
    }
}

impl SwarmState {
    pub closed spec fn tallies(&self) -> SwarmTallies {
        SwarmTallies {
            requested_blocks: self.requested_blocks,
            writing_blocks: self.writing_blocks,
            received_blocks: self.received_blocks,
            verified_blocks: self.verified_blocks,
            active_piece_bytes: self.active_piece_bytes,
            last_activated_piece: self.last_activated_piece,
            last_activated_availability: self.last_activated_availability,
            active_piece_visits: self.active_piece_visits,
            inactive_planned_piece_visits: self.inactive_planned_piece_visits,
            endgame_assignments: self.endgame_assignments,
            cancelled_request_attempts: self.cancelled_request_attempts,
            redundant_payload_bytes: self.redundant_payload_bytes,
            piece_hash_failures: self.piece_hash_failures,
            failed_piece_bytes: self.failed_piece_bytes,
            last_hash_failure_contributors: self.last_hash_failure_contributors,
        }
    }

    pub closed spec fn config_view(&self) -> SwarmConfig {
        self.config
    }

    pub closed spec fn piece_count_view(&self) -> usize {
        self.piece_count
    }

    pub closed spec fn pieces_view(&self) -> Seq<PieceState> {
        self.pieces@
    }

    pub closed spec fn connections_view(&self) -> Seq<ConnectionState> {
        self.connections@
    }

    pub closed spec fn pending_dials_view(&self) -> Seq<PendingDialId> {
        self.pending_dials@
    }

    pub closed spec fn picker_view(&self) -> AvailabilityPicker {
        self.picker
    }

    /// The cached number of missing blocks.
    pub closed spec fn missing_count(&self) -> usize {
        self.missing_blocks
    }

    pub closed spec fn outstanding_view(&self) -> usize {
        self.outstanding_request_bytes
    }

    pub closed spec fn high_water_view(&self) -> usize {
        self.outstanding_request_high_water
    }

    pub closed spec fn wf(&self) -> bool {
        &&& self.config.valid()
        &&& self.piece_count <= u32::MAX
        &&& self.picker.wf()
        &&& self.picker.piece_count() == self.piece_count
        &&& connections_sorted(self.connections@)
        &&& forall|i: int|
            0 <= i < self.connections@.len() ==> (#[trigger] self.connections@[i]).wf(self.piece_count)
        &&& pieces_sorted(self.pieces@)
        &&& forall|i: int| 0 <= i < self.pieces@.len() ==> (#[trigger] self.pieces@[i]).wf(self.piece_count)
        &&& self.pending_dials@.no_duplicates()
        &&& self.pending_dials@.len() <= self.config.max_pending_dials
        &&& self.connections@.len() <= self.config.max_established_connections
        &&& self.outstanding_request_high_water >= self.outstanding_request_bytes
        &&& attempt_ids_distinct(self.active_attempts@)
        &&& forall|i: int|
            0 <= i < self.active_attempts@.len() ==> (#[trigger] self.active_attempts@[i]).id.value()
                < self.next_attempt_id
    }

    /// Index of the connection named `id`, if it is established.
    pub open spec fn connection_index(&self, id: ConnectionId) -> Option<int> {
        if exists|i: int| 0 <= i < self.connections_view().len() && #[trigger] self.connections_view()[i].id == id {
            Some(choose|i: int| 0 <= i < self.connections_view().len() && #[trigger] self.connections_view()[i].id == id)
        } else {
            None
        }
    }

    pub open spec fn has_connection(&self, id: ConnectionId) -> bool {
        exists|i: int| 0 <= i < self.connections_view().len() && #[trigger] self.connections_view()[i].id == id
    }

    /// Some planned piece has index `piece`.
    pub open spec fn has_piece(&self, piece: u32) -> bool {
        holds_index(self.pieces_view(), piece)
    }

    /// Position of the planned piece with `index`, if there is one.
    pub open spec fn piece_position(&self, index: u32) -> Option<int> {
        if self.has_piece(index) {
            Some(choose|p: int| 0 <= p < self.pieces_view().len() && #[trigger] self.pieces_view()[p].index == index)
        } else {
            None
        }
    }

    /// The bytes that the active pieces hold in the working set.
    pub closed spec fn active_bytes_view(&self) -> usize {
        self.active_piece_bytes
    }

    /// Whether `piece` may join the active working set: always when no
    /// piece is active; otherwise only a planned piece, while fewer than the
    /// configured count are active, the requestable active pieces number at
    /// most one and a half per peer and span at most 2048 blocks, and the
    /// piece's bytes fit under the byte ceiling.
    pub open spec fn may_activate(&self, piece: usize) -> bool {
        let pieces = self.pieces_view();
        if active_count(pieces) == 0 {
            true
        } else if active_count(pieces) >= self.config_view().max_active_pieces {
            false
        } else if piece > u32::MAX {
            false
        } else {
            match self.piece_position(piece as u32) {
                None => false,
                Some(p) => {
                    &&& requestable_count(pieces) <= activation_pressure(self.connections_view().len())
                    &&& requestable_blocks(pieces) <= MAX_REQUESTABLE_ACTIVE_BLOCKS
                    &&& self.active_bytes_view() + pieces[p].working_set_bytes
                        <= self.config_view().max_active_piece_bytes
                }
            }
        }
    }

    pub fn new(config: SwarmConfig, piece_count: usize, plans: Vec<PiecePlan>) -> (r: Result<
        Self,
        SwarmError,
    >)
        requires
            forall|i: int| 0 <= i < plans@.len() ==> (#[trigger] plans@[i]).wf(),
        ensures
            plans@.len() == 0 ==> r == Err::<Self, SwarmError>(SwarmError::InvalidConfig(ERR_NO_PLANS)),
            r is Ok <==> config.valid() && piece_count > 0 && plans@.len() > 0 && piece_count <= u32::MAX
                && plans_error(piece_count, Set::empty(), 0, plans@, 0, 0) is None,
            r matches Ok(s) ==> {
                &&& s.connections_view().len() == 0
                &&& s.pending_dials_view().len() == 0
                &&& s.active_view().len() == 0
                &&& s.missing_count() == count_blocks(plans@)
                &&& s.outstanding_view() == 0
                &&& s.high_water_view() == 0
                &&& s.tallies() == fresh_tallies()
                &&& forall|i: int| 0 <= i < plans@.len() ==> #[trigger] s.planned_as(plans@[i])
            },

            r matches Ok(s) ==> s.wf() && s.config_view() == config && s.piece_count_view()
                == piece_count && s.pieces_view().len() == plans@.len(),
            r matches Ok(s) ==> s.picker_view().wanted_remaining_spec() > 0,
            r is Ok ==> forall|i: int|
                0 <= i < plans@.len() ==> (#[trigger] plans@[i]).index_view() < piece_count,
            r is Ok ==> forall|i: int, j: int|
                0 <= i < j < plans@.len() ==> (#[trigger] plans@[i]).index_view() != (
                #[trigger] plans@[j]).index_view(),
    {
        if plans.len() == 0 {
            return Err(SwarmError::InvalidConfig(ERR_NO_PLANS));
        }
        let mut wanted: Vec<u32> = Vec::new();
        let mut i: usize = 0;
        while i < plans.len()
            invariant
                i <= plans@.len(),
                wanted@.len() == i,
                forall|k: int| 0 <= k < i ==> #[trigger] wanted@[k] == plans@[k].index_view(),
            decreases plans@.len() - i,
        {
            wanted.push(plans[i].index());
            i += 1;
        }
        proof {
            if plans_error(piece_count, Set::empty(), 0, plans@, 0, 0) is None {
                lemma_plans_in_range(piece_count, Set::empty(), 0, plans@, 0, 0);
            }
        }
        SwarmState::new_with_wanted(config, piece_count, wanted, plans, 0)
    }

    pub fn new_with_wanted(
        config: SwarmConfig,
        piece_count: usize,
        wanted: Vec<u32>,
        plans: Vec<PiecePlan>,
        picker_seed: u64,
    ) -> (r: Result<Self, SwarmError>)
        requires
            forall|i: int| 0 <= i < plans@.len() ==> (#[trigger] plans@[i]).wf(),
        ensures
            config_problem_err(config) matches Some(e) ==> r == Err::<Self, SwarmError>(e),
            config.valid() && piece_count == 0 ==> r == Err::<Self, SwarmError>(
                SwarmError::InvalidConfig(ERR_NO_PIECES),
            ),
            config.valid() && piece_count > 0 && wanted@.len() == 0 ==> r == Err::<Self, SwarmError>(
                SwarmError::InvalidConfig(ERR_NO_WANTED),
            ),
            config.valid() && piece_count > 0 && wanted@.len() > 0 && piece_count > u32::MAX ==> r == Err::<
                Self,
                SwarmError,
            >(SwarmError::InvalidConfig(ERR_PIECE_WIDTH)),
            r is Ok <==> config.valid() && piece_count > 0 && wanted@.len() > 0 && piece_count <= u32::MAX
                && (forall|i: int| 0 <= i < wanted@.len() ==> #[trigger] wanted@[i] < piece_count) && plans_error(
                piece_count,
                Set::empty(),
                0,
                plans@,
                0,
                0,
            ) is None,
            config.valid() && piece_count > 0 && wanted@.len() > 0 && piece_count <= u32::MAX && (forall|i: int|
                0 <= i < wanted@.len() ==> #[trigger] wanted@[i] < piece_count) ==> (plans_error(
                piece_count,
                Set::empty(),
                0,
                plans@,
                0,
                0,
            ) matches Some(e) ==> r == Err::<Self, SwarmError>(e)),
            r matches Ok(s) ==> {
                &&& s.connections_view().len() == 0
                &&& s.pending_dials_view().len() == 0
                &&& s.active_view().len() == 0
                &&& s.missing_count() == count_blocks(plans@)
                &&& s.outstanding_view() == 0
                &&& s.high_water_view() == 0
                &&& s.tallies() == fresh_tallies()
                &&& forall|i: int| 0 <= i < plans@.len() ==> #[trigger] s.planned_as(plans@[i])
            },

            r matches Ok(s) ==> s.wf() && s.config_view() == config && s.piece_count_view()
                == piece_count && s.pieces_view().len() == plans@.len(),
            r matches Ok(s) ==> s.picker_view().wanted_remaining_spec() > 0,
            r is Ok ==> forall|i: int|
                0 <= i < plans@.len() ==> (#[trigger] plans@[i]).index_view() < piece_count,
            r is Ok ==> forall|i: int, j: int|
                0 <= i < j < plans@.len() ==> (#[trigger] plans@[i]).index_view() != (
                #[trigger] plans@[j]).index_view(),
    {
        let config = config.validate()?;
        if piece_count == 0 {
            return Err(SwarmError::InvalidConfig(ERR_NO_PIECES));
        }
        if wanted.len() == 0 {
            return Err(SwarmError::InvalidConfig(ERR_NO_WANTED));
        }
        if piece_count > u32::MAX as usize {
            return Err(SwarmError::InvalidConfig(ERR_PIECE_WIDTH));
        }
        let picker = match AvailabilityPicker::new(
            piece_count,
            wanted,
            config.piece_activation_policy,
            picker_seed,
        ) {
            Ok(p) => p,
            Err(m) => {
                return Err(SwarmError::Invariant(m));
            },
        };
        proof {
            let w0 = wanted@[0];
            assert(wanted@.contains(w0));
            assert(picker.counts@[w0 as int] == 0);
            assert(picker.wanted@[w0 as int]);
            crate::piece_picker::lemma_count_wanted_positive(
                picker.wanted@,
                picker.completed@,
                picker.piece_count(),
                w0 as int,
            );
        }
        let mut state = SwarmState {
            config,
            piece_count,
            picker,
            pieces: Vec::new(),
            connections: Vec::new(),
            pending_dials: Vec::new(),
            active_attempts: Vec::new(),
            next_attempt_id: 1,
            missing_blocks: 0,
            requested_blocks: 0,
            writing_blocks: 0,
            received_blocks: 0,
            verified_blocks: 0,
            active_piece_bytes: 0,
            outstanding_request_bytes: 0,
            outstanding_request_high_water: 0,
            last_scheduled_connection: None,
            last_activated_piece: None,
            last_activated_availability: None,
            active_piece_visits: 0,
            inactive_planned_piece_visits: 0,
            endgame_assignments: 0,
            cancelled_request_attempts: 0,
            redundant_payload_bytes: 0,
            piece_hash_failures: 0,
            failed_piece_bytes: 0,
            last_hash_failure_contributors: 0,
        };
        assert(state.pending_dials@.no_duplicates());
        proof {
            assert(state.planned_indexes() =~= Set::<u32>::empty());
        }
        state.append_piece_plans(plans)?;
        Ok(state)
    }

    /// Adds the plans in order; stops at the first plan that is out of range,
    /// duplicates a planned piece, or whose bytes or blocks overflow a counter.
    pub fn append_piece_plans(&mut self, plans: Vec<PiecePlan>) -> (r: Result<(), SwarmError>)
        requires
            old(self).wf(),
            forall|i: int| 0 <= i < plans@.len() ==> (#[trigger] plans@[i]).wf(),
        ensures
            final(self).wf(),
            final(self).config_view() == old(self).config_view(),
            final(self).piece_count_view() == old(self).piece_count_view(),
            final(self).connections_view() == old(self).connections_view(),
            r is Ok ==> final(self).pieces_view().len() == old(self).pieces_view().len() + plans@.len(),
            r is Ok ==> forall|i: int|
                0 <= i < plans@.len() ==> final(self).has_piece(#[trigger] plans@[i].index_view()),
            r is Ok ==> forall|i: int|
                0 <= i < old(self).pieces_view().len() ==> final(self).has_piece(
                    #[trigger] old(self).pieces_view()[i].index,
                ),
            r is Ok ==> forall|i: int|
                0 <= i < plans@.len() ==> (#[trigger] plans@[i]).index_view() < old(self).piece_count_view()
                    && !old(self).has_piece(plans@[i].index_view()),
            r is Ok ==> forall|i: int, j: int|
                0 <= i < j < plans@.len() ==> (#[trigger] plans@[i]).index_view() != (
                #[trigger] plans@[j]).index_view(),
            r is Ok <==> old(self).plans_fit(plans@),
            r is Ok ==> final(self).missing_count() == old(self).missing_count() + count_blocks(plans@),
            r == as_result(
                plans_error(
                    old(self).piece_count_view(),
                    old(self).planned_indexes(),
                    old(self).missing_count() as nat,
                    plans@,
                    0,
                    0,
                ),
            ),
            final(self).tallies() == old(self).tallies(),
            final(self).active_view() == old(self).active_view(),
            final(self).outstanding_view() == old(self).outstanding_view(),
            final(self).high_water_view() == old(self).high_water_view(),
            final(self).pending_dials_view() == old(self).pending_dials_view(),
            r is Ok ==> forall|i: int|
                0 <= i < plans@.len() ==> #[trigger] final(self).planned_as(plans@[i]),
            final(self).picker_view().wanted@ == old(self).picker_view().wanted@,
            final(self).picker_view().completed@ == old(self).picker_view().completed@,
            final(self).picker_view().piece_count() == old(self).picker_view().piece_count(),
            final(self).high_water_view() >= old(self).high_water_view(),
    {
        let ghost initial = plans@;
        let mut remaining = plans;
        assert(initial == remaining@);
        proof {
            assert(initial.len() == remaining.len());
        }
        let ghost start = self.pieces@;
        let mut done: usize = 0;
        while remaining.len() > 0
            invariant
                self.outstanding_request_high_water >= old(self).outstanding_request_high_water,
                self.wf(),
                initial.len() <= usize::MAX,
                self.config == old(self).config,
                self.piece_count == old(self).piece_count,
                self.connections@ == old(self).connections@,
                start == old(self).pieces@,
                self.picker.wanted@ == old(self).picker.wanted@,
                self.picker.completed@ == old(self).picker.completed@,
                self.picker.piece_count() == old(self).picker.piece_count(),
                initial == plans@,
                done + remaining@.len() == initial.len(),
                remaining@ == initial.subrange(done as int, initial.len() as int),
                forall|i: int| 0 <= i < remaining@.len() ==> (#[trigger] remaining@[i]).wf(),
                self.pieces@.len() == start.len() + done,
                forall|i: int| 0 <= i < done ==> self.has_piece(#[trigger] initial[i].index_view()),
                forall|i: int| 0 <= i < start.len() ==> self.has_piece(#[trigger] start[i].index),
                forall|i: int|
                    0 <= i < done ==> (#[trigger] initial[i]).index_view() < old(self).piece_count
                        && !holds_index(start, initial[i].index_view()),
                forall|i: int, j: int|
                    0 <= i < j < done ==> (#[trigger] initial[i]).index_view() != (
                    #[trigger] initial[j]).index_view(),
                self.missing_blocks == old(self).missing_blocks + count_blocks(initial.take(done as int)),
                forall|i: int| 0 <= i < done ==> total_length((#[trigger] initial[i]).blocks_view()) <= usize::MAX,
                forall|x: u32|
                    #[trigger] holds_index(self.pieces@, x) ==> holds_index(start, x) || exists|i: int|
                        0 <= i < done && (#[trigger] initial[i]).index_view() == x,
                self.tallies() == old(self).tallies(),
                self.active_attempts@ == old(self).active_attempts@,
                self.outstanding_request_bytes == old(self).outstanding_request_bytes,
                self.outstanding_request_high_water == old(self).outstanding_request_high_water,
                self.pending_dials@ == old(self).pending_dials@,
                forall|i: int| 0 <= i < done ==> #[trigger] self.planned_as(initial[i]),
                plans_error(
                    old(self).piece_count,
                    old(self).planned_indexes(),
                    old(self).missing_blocks as nat,
                    initial,
                    0,
                    0,
                ) == plans_error(
                    old(self).piece_count,
                    old(self).planned_indexes(),
                    old(self).missing_blocks as nat,
                    initial,
                    done as int,
                    count_blocks(initial.take(done as int)),
                ),
            decreases remaining@.len(),
        {
            let plan = remaining.remove(0);
            let ghost before = self.pieces@;
            let ghost before_state = *self;
            proof {
                assert(plan == initial[done as int]);
                lemma_count_blocks_take(initial, done as int);
                lemma_count_blocks_prefix(initial, done as int + 1);
                let x = plan.index_view();
                assert(self.planned_indexes().contains(x) <==> (old(self).planned_indexes().contains(x) || exists|j: int|
                    0 <= j < done && (#[trigger] initial[j]).index_view() == x)) by {
                    assert(self.pieces_view() == self.pieces@);
                    assert(old(self).pieces_view() == start);
                    if exists|j: int| 0 <= j < done && (#[trigger] initial[j]).index_view() == x {
                        let j = choose|j: int| 0 <= j < done && (#[trigger] initial[j]).index_view() == x;
                        assert(self.has_piece(initial[j].index_view()));
                    }
                    if old(self).planned_indexes().contains(x) {
                        let m = choose|m: int| 0 <= m < start.len() && #[trigger] start[m].index == x;
                        assert(self.has_piece(start[m].index));
                    }
                }
                assert(plan_check(self.piece_count, self.planned_indexes(), self.missing_blocks as nat, plan) == match plans_error(
                    old(self).piece_count,
                    old(self).planned_indexes(),
                    old(self).missing_blocks as nat,
                    initial,
                    done as int,
                    count_blocks(initial.take(done as int)),
                ) {
                    Some(e) => if plan_check(self.piece_count, self.planned_indexes(), self.missing_blocks as nat, plan) is Some {
                        Some(e)
                    } else {
                        None
                    },
                    None => None,
                });
            }
            let appended = self.append_one_plan(plan);
            if let Err(e) = appended {
                proof {
                    let x = plan.index_view();
                    if x < old(self).piece_count && holds_index(before, x) {
                        if !holds_index(start, x) {
                            let i = choose|i: int| 0 <= i < done && (#[trigger] initial[i]).index_view() == x;
                            assert(initial[i].index_view() == initial[done as int].index_view());
                        }
                    }
                    assert(!old(self).plans_fit(initial));
                    assert(initial == plans@);
                }
                return Err(e);
            }
            proof {
                assert forall|i: int| 0 <= i < done implies (#[trigger] initial[i]).index_view() != plan.index_view() by {
                    assert(holds_index(before, initial[i].index_view()));
                }
                if holds_index(start, plan.index_view()) {
                    let m = choose|m: int| 0 <= m < start.len() && #[trigger] start[m].index == plan.index_view();
                    assert(holds_index(before, start[m].index));
                }
                assert(remaining@ =~= initial.subrange(done as int + 1, initial.len() as int));
                assert forall|i: int| 0 <= i < done + 1 implies self.has_piece(#[trigger] initial[i].index_view()) by {
                    if i < done {
                        let k = choose|k: int| 0 <= k < before.len() && before[k].index == initial[i].index_view();
                        assert(holds_index(self.pieces@, before[k].index));
                    }
                }
                assert forall|i: int| 0 <= i < start.len() implies self.has_piece(#[trigger] start[i].index) by {
                    let k = choose|k: int| 0 <= k < before.len() && before[k].index == start[i].index;
                    assert(holds_index(self.pieces@, before[k].index));
                }
            }
            proof {
                assert(initial.take(done + 1).drop_last() =~= initial.take(done as int));
                assert forall|i: int| 0 <= i < done + 1 implies #[trigger] self.planned_as(initial[i]) by {
                    if i < done {
                        assert(before_state.planned_as(initial[i]));
                        let q = choose|q: PieceState| before_state.pieces_view().contains(q) && #[trigger] plan_piece(
                            q,
                            initial[i],
                        );
                        let k = choose|k: int| 0 <= k < before.len() && before[k] == q;
                        assert(self.pieces@.contains(before[k]));
                        assert(self.pieces_view() == self.pieces@);
                    }
                }
                assert forall|x: u32|
                    #[trigger] holds_index(self.pieces@, x) implies holds_index(start, x) || exists|i: int|
                        0 <= i < done + 1 && (#[trigger] initial[i]).index_view() == x by {
                    if x != plan.index_view() && !holds_index(start, x) {
                        let i = choose|i: int| 0 <= i < done && (#[trigger] initial[i]).index_view() == x;
                        assert(0 <= i < done + 1);
                    } else if x == plan.index_view() {
                        assert(initial[done as int].index_view() == x);
                    }
                }
            }
            done += 1;
        }
        proof {
            assert(initial.take(initial.len() as int) =~= initial);
            assert(self.missing_count() == self.missing_blocks);
        }
        Ok(())
    }

    /// Whether the swarm holds the fresh piece of `plan`.
    pub open spec fn planned_as(&self, plan: PiecePlan) -> bool {
        exists|q: PieceState| self.pieces_view().contains(q) && #[trigger] plan_piece(q, plan)
    }

    /// The pieces planned so far.
    pub open spec fn planned_indexes(&self) -> Set<u32> {
        Set::new(|x: u32| self.has_piece(x))
    }

    /// Whether every plan can be appended: each names a piece in range that
    /// is not planned yet, no piece twice, each piece's bytes fit, and the
    /// missing-block count stays within range.
    pub open spec fn plans_fit(&self, plans: Seq<PiecePlan>) -> bool {
        &&& forall|i: int|
            0 <= i < plans.len() ==> (#[trigger] plans[i]).index_view() < self.piece_count_view() && !self.has_piece(
                plans[i].index_view(),
            ) && total_length(plans[i].blocks_view()) <= usize::MAX
        &&& forall|i: int, j: int|
            0 <= i < j < plans.len() ==> (#[trigger] plans[i]).index_view() != (#[trigger] plans[j]).index_view()
        &&& self.missing_count() + count_blocks(plans) <= usize::MAX
    }

    fn append_one_plan(&mut self, plan: PiecePlan) -> (r: Result<(), SwarmError>)
        requires
            old(self).wf(),
            plan.wf(),
        ensures
            final(self).wf(),
            final(self).config == old(self).config,
            final(self).piece_count == old(self).piece_count,
            final(self).connections@ == old(self).connections@,
            r is Ok ==> final(self).pieces@.len() == old(self).pieces@.len() + 1,
            r is Ok ==> final(self).has_piece(plan.index_view()),
            r is Ok ==> plan.index_view() < old(self).piece_count && !old(self).has_piece(plan.index_view()),
            plan.index_view() >= old(self).piece_count ==> r == Err::<(), SwarmError>(
                SwarmError::PieceOutOfRange { piece: plan.index_view(), piece_count: old(self).piece_count },
            ),
            plan.index_view() < old(self).piece_count && old(self).has_piece(plan.index_view()) ==> r
                == Err::<(), SwarmError>(SwarmError::DuplicatePiecePlan(plan.index_view())),
            r is Ok ==> forall|k: int|
                0 <= k < old(self).pieces@.len() ==> holds_index(final(self).pieces@, #[trigger] old(self).pieces@[k].index),
            r is Err ==> final(self).pieces@ == old(self).pieces@,
            r == as_result(
                plan_check(old(self).piece_count, old(self).planned_indexes(), old(self).missing_blocks as nat, plan),
            ),
            final(self).tallies() == old(self).tallies(),
            final(self).active_attempts@ == old(self).active_attempts@,
            final(self).outstanding_request_bytes == old(self).outstanding_request_bytes,
            final(self).outstanding_request_high_water == old(self).outstanding_request_high_water,
            final(self).pending_dials@ == old(self).pending_dials@,
            r is Ok ==> forall|k: int| 0 <= k < old(self).pieces@.len() ==> final(self).pieces@.contains(
                #[trigger] old(self).pieces@[k],
            ),
            r is Ok ==> final(self).planned_as(plan),
            r is Ok <==> plan.index_view() < old(self).piece_count && !old(self).has_piece(plan.index_view())
                && total_length(plan.blocks_view()) <= usize::MAX && old(self).missing_blocks + plan.blocks_view().len()
                <= usize::MAX,
            r is Ok ==> final(self).missing_blocks == old(self).missing_blocks + plan.blocks_view().len(),
            r is Err ==> final(self).missing_blocks == old(self).missing_blocks,
            r is Ok ==> forall|x: u32|
                #[trigger] holds_index(final(self).pieces@, x) ==> holds_index(old(self).pieces@, x) || x
                    == plan.index_view(),
            final(self).picker_view().wanted@ == old(self).picker_view().wanted@,
            final(self).picker_view().completed@ == old(self).picker_view().completed@,
            final(self).picker_view().piece_count() == old(self).picker_view().piece_count(),
            final(self).high_water_view() >= old(self).high_water_view(),
    {
        let index = plan.index();
        if index as usize >= self.piece_count {
            return Err(SwarmError::PieceOutOfRange { piece: index, piece_count: self.piece_count });
        }
        let (position, found) = self.locate_piece(index);
        if found {
            return Err(SwarmError::DuplicatePiecePlan(index));
        }
        let keys = plan.into_blocks();
        let (entries, bytes) = match fresh_entries(&keys) {
            Some(pair) => pair,
            None => {
                return Err(SwarmError::ArithmeticOverflow(OWNER_WORKING_SET));
            },
        };
        let count = entries.len();
        let missing = match self.missing_blocks.checked_add(count) {
            Some(v) => v,
            None => {
                return Err(SwarmError::ArithmeticOverflow(OWNER_MISSING));
            },
        };
        match self.picker.mark_planned(index as usize) {
            Ok(()) => {},
            Err(m) => {
                return Err(SwarmError::Invariant(m));
            },
        }
        self.missing_blocks = missing;
        let piece = PieceState {
            index,
            blocks: entries,
            working_set_bytes: bytes,
            storage: PieceStorageJoin::new(count),
            active: false,
            verified: false,
        };
        let ghost before = self.pieces@;
        self.pieces.insert(position, piece);
        proof {
            assert(self.pieces@ == before.insert(position as int, piece));
            assert forall|i: int, j: int|
                #![trigger self.pieces@[i], self.pieces@[j]]
                0 <= i < j < self.pieces@.len() implies self.pieces@[i].index < self.pieces@[j].index by {
                if j < position {
                    assert(before[i].index < before[j].index);
                } else if j == position {
                    assert(before[i].index < index);
                } else if i < position {
                    assert(before[i].index < before[j - 1].index);
                } else if i == position {
                    assert(before[j - 1].index >= index);
                    if before[j - 1].index == index {
                        assert(holds_index(before, index));
                    }
                } else {
                    assert(before[i - 1].index < before[j - 1].index);
                }
            }
            assert forall|k: int| 0 <= k < self.pieces@.len() implies (#[trigger] self.pieces@[k]).wf(
                self.piece_count,
            ) by {
                if k < position {
                    assert(self.pieces@[k] == before[k]);
                } else if k > position {
                    assert(self.pieces@[k] == before[k - 1]);
                } else {
                    assert forall|b: int| 0 <= b < self.pieces@[k].blocks@.len() implies (
                    #[trigger] self.pieces@[k].blocks@[b]).key.piece == self.pieces@[k].index by {
                        assert(keys@[b].piece == index);
                    }
                }
            }
            assert(self.pieces@[position as int].index == index);
            assert(holds_index(self.pieces@, index));
            assert(self.pieces_view() == self.pieces@);
            assert forall|k: int| 0 <= k < before.len() implies holds_index(self.pieces@, #[trigger] before[k].index) by {
                if k < position {
                    assert(self.pieces@[k] == before[k]);
                } else {
                    assert(self.pieces@[k + 1] == before[k]);
                }
            }
            assert forall|x: u32| #[trigger] holds_index(self.pieces@, x) implies holds_index(before, x) || x == index by {
                let m = choose|m: int| 0 <= m < self.pieces@.len() && #[trigger] self.pieces@[m].index == x;
                if m < position {
                    assert(before[m].index == x);
                } else if m > position {
                    assert(before[m - 1].index == x);
                }
            }
            assert(plan_piece(self.pieces@[position as int], plan));
            assert(self.pieces_view().contains(self.pieces@[position as int]));
            assert forall|k: int| 0 <= k < before.len() implies self.pieces@.contains(#[trigger] before[k]) by {
                if k < position {
                    assert(self.pieces@[k] == before[k]);
                } else {
                    assert(self.pieces@[k + 1] == before[k]);
                }
            }
        }
        Ok(())
    }

    /// Position of the piece with `index`, or where it would be inserted.
    fn locate_piece(&self, index: u32) -> (r: (usize, bool))
        requires
            pieces_sorted(self.pieces@),
        ensures
            r.0 <= self.pieces@.len(),
            r.1 <==> self.has_piece(index),
            r.1 ==> self.pieces@[r.0 as int].index == index,
            forall|k: int| 0 <= k < r.0 ==> (#[trigger] self.pieces@[k]).index < index,
            forall|k: int| r.0 <= k < self.pieces@.len() ==> (#[trigger] self.pieces@[k]).index >= index,
    {
        let mut i: usize = 0;
        while i < self.pieces.len()
            invariant
                i <= self.pieces@.len(),
                pieces_sorted(self.pieces@),
                forall|k: int| 0 <= k < i ==> (#[trigger] self.pieces@[k]).index < index,
            decreases self.pieces@.len() - i,
        {
            if self.pieces[i].index >= index {
                proof {
                    assert forall|k: int| i <= k < self.pieces@.len() implies (#[trigger] self.pieces@[k]).index >= index by {
                        if k > i {
                            assert(self.pieces@[i as int].index < self.pieces@[k].index);
                        }
                    }
                    if self.pieces@[i as int].index == index {
                        assert(holds_index(self.pieces@, index));
                        assert(self.pieces_view() == self.pieces@);
                    }
                    if self.pieces@[i as int].index != index && self.has_piece(index) {
                        let m = choose|m: int| 0 <= m < self.pieces@.len() && self.pieces@[m].index == index;
                        assert(self.pieces@[m].index == index);
                    }
                }
                return (i, self.pieces[i].index == index);
            }
            i += 1;
        }
        proof {
            if self.has_piece(index) {
                let m = choose|m: int| 0 <= m < self.pieces@.len() && self.pieces@[m].index == index;
                assert(self.pieces@[m].index < index);
            }
        }
        (i, false)
    }

    /// Index of the connection named `id`, if established.
    fn find_connection(&self, id: ConnectionId) -> (r: Option<usize>)
        ensures
            r matches Some(i) ==> i < self.connections@.len() && self.connections@[i as int].id == id,
            r is None <==> !self.has_connection(id),
    {
        let mut i: usize = 0;
        while i < self.connections.len()
            invariant
                i <= self.connections@.len(),
                forall|k: int| 0 <= k < i ==> (#[trigger] self.connections@[k]).id != id,
            decreases self.connections@.len() - i,
        {
            if self.connections[i].id.same(id) {
                return Some(i);
            }
            i += 1;
        }
        None
    }

    /// Piece position and block position of `block`, if planned.
    fn find_block(&self, block: BlockKey) -> (r: Option<(usize, usize)>)
        ensures
            r matches Some((p, b)) ==> p < self.pieces@.len() && b < self.pieces@[p as int].blocks@.len()
                && self.pieces@[p as int].blocks@[b as int].key == block,
            (match r {
                Some((p, b)) => Some((p as int, b as int)),
                None => None::<(int, int)>,
            }) == block_search(self.pieces@, block, 0),
    {
        let mut p: usize = 0;
        while p < self.pieces.len()
            invariant
                p <= self.pieces@.len(),
                block_search(self.pieces@, block, 0) == block_search(self.pieces@, block, p as int),
            decreases self.pieces@.len() - p,
        {
            let mut b: usize = 0;
            while b < self.pieces[p].blocks.len()
                invariant
                    p < self.pieces@.len(),
                    b <= self.pieces@[p as int].blocks@.len(),
                    block_search(self.pieces@, block, 0) == block_search(self.pieces@, block, p as int),
                    entry_search(self.pieces@[p as int].blocks@, block, 0) == entry_search(
                        self.pieces@[p as int].blocks@,
                        block,
                        b as int,
                    ),
                decreases self.pieces@[p as int].blocks@.len() - b,
            {
                if self.pieces[p].blocks[b].key.same(&block) {
                    assert(entry_search(self.pieces@[p as int].blocks@, block, b as int) == Some(b as int));
                    assert(block_search(self.pieces@, block, p as int) == Some((p as int, b as int)));
                    return Some((p, b));
                }
                b += 1;
            }
            p += 1;
        }
        None
    }

    /// Where `block` stands among the planned blocks.
    pub closed spec fn block_position(&self, block: BlockKey) -> Option<(int, int)> {
        block_search(self.pieces@, block, 0)
    }

    /// The planned block `block`, if any.
    pub open spec fn entry_of(&self, block: BlockKey) -> Option<BlockEntry> {
        match self.block_position(block) {
            Some((p, b)) => Some(self.pieces_view()[p].blocks@[b]),
            None => None,
        }
    }

    pub fn begin_dial(&mut self, id: PendingDialId) -> (r: Result<(), SwarmError>)
        requires
            old(self).wf(),
        ensures
            final(self).wf(),
            old(self).pending_dials_view().contains(id) ==> r == Err::<(), SwarmError>(
                SwarmError::DuplicatePendingDial(id),
            ),
            !old(self).pending_dials_view().contains(id) && old(self).pending_dials_view().len()
                == old(self).config_view().max_pending_dials ==> r == Err::<(), SwarmError>(
                SwarmError::PendingDialCapacity,
            ),
            r is Err ==> final(self).pending_dials_view() == old(self).pending_dials_view(),
            !old(self).pending_dials_view().contains(id) && old(self).pending_dials_view().len()
                < old(self).config_view().max_pending_dials ==> r is Ok
                && final(self).pending_dials_view() == old(self).pending_dials_view().push(id),
            r is Err ==> *final(self) == *old(self),
            final(self).same_but_dials(old(self)),
            final(self).config_view() == old(self).config_view(),
            final(self).high_water_view() >= old(self).high_water_view(),
    {
        if contains_dial(&self.pending_dials, id) {
            return Err(SwarmError::DuplicatePendingDial(id));
        }
        if self.pending_dials.len() == self.config.max_pending_dials {
            return Err(SwarmError::PendingDialCapacity);
        }
        let ghost before = self.pending_dials@;
        self.pending_dials.push(id);
        proof {
            assert forall|i: int, j: int|
                0 <= i < self.pending_dials@.len() && 0 <= j < self.pending_dials@.len() && i != j
                    implies self.pending_dials@[i] != self.pending_dials@[j] by {
                if i < before.len() && j < before.len() {
                    assert(before[i] != before[j]);
                } else if i < before.len() {
                    assert(before[i] != id);
                } else if j < before.len() {
                    assert(before[j] != id);
                }
            }
        }
        Ok(())
    }

    pub fn finish_dial(&mut self, id: PendingDialId) -> (r: Result<(), SwarmError>)
        requires
            old(self).wf(),
        ensures
            final(self).wf(),
            !old(self).pending_dials_view().contains(id) ==> r == Err::<(), SwarmError>(
                SwarmError::UnknownPendingDial(id),
            ) && final(self).pending_dials_view() == old(self).pending_dials_view(),
            old(self).pending_dials_view().contains(id) ==> r is Ok && final(self).pending_dials_view().len() == old(self).pending_dials_view().len() - 1
                && !final(self).pending_dials_view().contains(id) && forall|d: PendingDialId|
                d != id ==> (#[trigger] final(self).pending_dials_view().contains(d) <==> old(self).pending_dials_view().contains(d)),
            r is Err ==> *final(self) == *old(self),
            final(self).same_but_dials(old(self)),
            final(self).config_view() == old(self).config_view(),
            final(self).high_water_view() >= old(self).high_water_view(),
    {
        let mut i: usize = 0;
        while i < self.pending_dials.len()
            invariant
                self.outstanding_request_high_water >= old(self).outstanding_request_high_water,
                i <= self.pending_dials@.len(),
                self.wf(),
                self.pending_dials@ == old(self).pending_dials@,
                self.pieces@ == old(self).pieces@,
                *self == *old(self),
                forall|k: int| 0 <= k < i ==> self.pending_dials@[k] != id,
            decreases self.pending_dials@.len() - i,
        {
            if self.pending_dials[i].same(id) {
                let ghost before = self.pending_dials@;
                self.pending_dials.remove(i);
                proof {
                    assert(self.pending_dials@ == before.remove(i as int));
                    assert forall|a: int, b: int|
                        0 <= a < self.pending_dials@.len() && 0 <= b < self.pending_dials@.len() && a
                            != b implies self.pending_dials@[a] != self.pending_dials@[b] by {
                        let x = if a < i { a } else { a + 1 };
                        let y = if b < i { b } else { b + 1 };
                        assert(before[x] != before[y]);
                    }
                    if self.pending_dials@.contains(id) {
                        let k = choose|k: int| 0 <= k < self.pending_dials@.len() && self.pending_dials@[k] == id;
                        let x = if k < i { k } else { k + 1 };
                        assert(before[x] == before[i as int]);
                    }
                    assert forall|d: PendingDialId| d != id implies (#[trigger] self.pending_dials@.contains(d)
                        <==> before.contains(d)) by {
                        if before.contains(d) {
                            let k = choose|k: int| 0 <= k < before.len() && before[k] == d;
                            if k < i {
                                assert(self.pending_dials@[k] == d);
                            } else {
                                assert(k != i);
                                assert(self.pending_dials@[k - 1] == d);
                            }
                        }
                        if self.pending_dials@.contains(d) {
                            let k = choose|k: int| 0 <= k < self.pending_dials@.len() && self.pending_dials@[k] == d;
                            if k < i {
                                assert(before[k] == d);
                            } else {
                                assert(before[k + 1] == d);
                            }
                        }
                    }
                }
                return Ok(());
            }
            i += 1;
        }
        Err(SwarmError::UnknownPendingDial(id))
    }

    pub fn add_connection(&mut self, id: ConnectionId, now: u64) -> (r: Result<(), SwarmError>)
        requires
            old(self).wf(),
        ensures
            final(self).wf(),
            old(self).has_connection(id) ==> r == Err::<(), SwarmError>(SwarmError::DuplicateConnection(id)),
            !old(self).has_connection(id) && old(self).connections_view().len() == old(self).config_view().max_established_connections ==> r == Err::<(), SwarmError>(
                SwarmError::ConnectionCapacity,
            ),
            r is Err ==> final(self).connections_view() == old(self).connections_view(),
            !old(self).has_connection(id) && old(self).connections_view().len() < old(self).config_view().max_established_connections ==> r is Ok,
            r is Ok ==> final(self).has_connection(id) && final(self).connections_view().len() == old(self).connections_view().len() + 1,
            r is Ok ==> unchoked_count(final(self).connections_view()) == unchoked_count(old(self).connections_view()),
            r is Ok ==> ({
                let n = final(self).connections_view()[final(self).connection_index(id)->0];
                &&& n.choking && !n.fast_extension && !n.initial_availability_received
                &&& n.suggestions@.len() == 0 && n.allowed_fast@.len() == 0
                &&& n.have_count == 0 && n.wanted_piece_count == 0 && n.active_request_count == 0
                &&& n.connected_at == now && n.last_useful_at is None
                &&& n.availability@.len() == old(self).piece_count_view()
                &&& forall|q: int| 0 <= q < n.availability@.len() ==> !#[trigger] n.availability@[q]
            }),
            final(self).pieces_view() == old(self).pieces_view(),
            final(self).picker_view() == old(self).picker_view(),
            r is Err ==> *final(self) == *old(self),
            final(self).high_water_view() >= old(self).high_water_view(),
    {
        let (position, found) = self.locate_connection(id);
        if found {
            return Err(SwarmError::DuplicateConnection(id));
        }
        if self.connections.len() == self.config.max_established_connections {
            return Err(SwarmError::ConnectionCapacity);
        }
        let connection = ConnectionState {
            id,
            availability: falses(self.piece_count),
            have_count: 0,
            wanted_piece_count: 0,
            choking: true,
            fast_extension: false,
            initial_availability_received: false,
            suggestions: Vec::new(),
            allowed_fast: Vec::new(),
            connected_at: now,
            last_useful_at: None,
            active_request_count: 0,
            request_window: RequestWindow::new(now, self.config.initial_requests_per_connection),
        };
        let ghost before = self.connections@;
        self.connections.insert(position, connection);
        proof {
            assert(self.connections@ == before.insert(position as int, connection));
            assert forall|i: int, j: int|
                #![trigger self.connections@[i], self.connections@[j]]
                0 <= i < j < self.connections@.len() implies self.connections@[i].id.value()
                    < self.connections@[j].id.value() by {
                if j < position {
                    assert(before[i].id.value() < before[j].id.value());
                } else if j == position {
                    assert(before[i].id.value() < id.value());
                } else if i < position {
                    assert(before[i].id.value() < before[j - 1].id.value());
                } else if i == position {
                    assert(before[j - 1].id.value() >= id.value());
                    assert(before[j - 1].id != id);
                    lemma_id_value_injective(before[j - 1].id, id);
                } else {
                    assert(before[i - 1].id.value() < before[j - 1].id.value());
                }
            }
            assert forall|k: int| 0 <= k < self.connections@.len() implies (
            #[trigger] self.connections@[k]).wf(self.piece_count) by {
                if k < position {
                    assert(self.connections@[k] == before[k]);
                } else if k > position {
                    assert(self.connections@[k] == before[k - 1]);
                }
            }
            assert(self.connections@[position as int].id == id);
            assert(self.connections_view() == self.connections@);
            lemma_connection_index(self, id, position as int);
            lemma_unchoked_insert(before, position as int, connection);
        }
        Ok(())
    }

    /// Position of the connection named `id`, or where it would be inserted.
    fn locate_connection(&self, id: ConnectionId) -> (r: (usize, bool))
        requires
            connections_sorted(self.connections@),
        ensures
            r.0 <= self.connections@.len(),
            r.1 <==> self.has_connection(id),
            r.1 ==> self.connections@[r.0 as int].id == id,
            forall|k: int| 0 <= k < r.0 ==> (#[trigger] self.connections@[k]).id.value() < id.value(),
            forall|k: int|
                r.0 <= k < self.connections@.len() ==> (#[trigger] self.connections@[k]).id.value()
                    >= id.value(),
    {
        let mut i: usize = 0;
        while i < self.connections.len()
            invariant
                i <= self.connections@.len(),
                connections_sorted(self.connections@),
                forall|k: int| 0 <= k < i ==> (#[trigger] self.connections@[k]).id.value() < id.value(),
            decreases self.connections@.len() - i,
        {
            let here = self.connections[i].id;
            if !here.precedes(id) {
                proof {
                    assert forall|k: int| i <= k < self.connections@.len() implies (
                    #[trigger] self.connections@[k]).id.value() >= id.value() by {
                        if k > i {
                            assert(self.connections@[i as int].id.value() < self.connections@[k].id.value());
                        }
                    }
                    if self.has_connection(id) {
                        let m = choose|m: int| 0 <= m < self.connections_view().len() && #[trigger] self.connections_view()[m].id == id;
                        if m < i {
                            assert(self.connections@[m].id.value() < id.value());
                        }
                        if m > i && here != id {
                            assert(self.connections@[i as int].id.value() < self.connections@[m].id.value());
                            lemma_id_value_injective(here, id);
                        }
                    }
                }
                return (i, here.same(id));
            }
            i += 1;
        }
        proof {
            if self.has_connection(id) {
                let m = choose|m: int| 0 <= m < self.connections_view().len() && #[trigger] self.connections_view()[m].id == id;
                assert(self.connections@[m].id.value() < id.value());
            }
        }
        (i, false)
    }

    /// Marks a Fast connection's initial availability as received; a second
    /// initial availability is refused.
    fn mark_initial_availability(&mut self, index: usize) -> (r: Result<(), SwarmError>)
        requires
            old(self).wf(),
            index < old(self).connections@.len(),
        ensures
            final(self).wf(),
            final(self).pieces@ == old(self).pieces@,
            final(self).picker == old(self).picker,
            final(self).connections@.len() == old(self).connections@.len(),
            forall|k: int| 0 <= k < final(self).connections@.len() ==> (#[trigger] final(self).connections@[k]).id == old(self).connections@[k].id,
            final(self).connections@[index as int].availability@ == old(self).connections@[index as int].availability@,
            final(self).connections@[index as int].active_request_count == old(self).connections@[index as int].active_request_count,
            r is Err ==> r == Err::<(), SwarmError>(SwarmError::InvalidTransition(ERR_INITIAL_REPEATED)),
            r is Err ==> *final(self) == *old(self),
            final(self).piece_count == old(self).piece_count,
            final(self).connections@[index as int].have_count == old(self).connections@[index as int].have_count,
            forall|a: Seq<bool>| #[trigger] final(self).availability_swap_fits(index as int, a)
                == old(self).availability_swap_fits(index as int, a),
            forall|a: Seq<bool>| #[trigger] final(self).swapped_counts(index as int, a) == old(self).swapped_counts(
                index as int,
                a,
            ),
            forall|a: Seq<bool>| #[trigger] final(self).swapped_seeds(index as int, a) == old(self).swapped_seeds(
                index as int,
                a,
            ),
            r is Err <==> old(self).connections@[index as int].fast_extension && old(self).connections@[index as int].initial_availability_received,
            final(self).high_water_view() >= old(self).high_water_view(),
    {
        if !self.connections[index].fast_extension {
            return Ok(());
        }
        if self.connections[index].initial_availability_received {
            return Err(SwarmError::InvalidTransition(ERR_INITIAL_REPEATED));
        }
        self.connections[index].initial_availability_received = true;
        proof {
            lemma_connections_update(old(self).connections@, self.connections@, index as int, self.piece_count);
        }
        Ok(())
    }

    pub fn set_bitfield(&mut self, id: ConnectionId, availability: Vec<bool>) -> (r: Result<(), SwarmError>)
        requires
            old(self).wf(),
        ensures
            final(self).wf(),
            availability@.len() != old(self).piece_count_view() ==> r == Err::<(), SwarmError>(
                SwarmError::InvalidAvailability {
                    actual: availability@.len() as usize,
                    expected: old(self).piece_count_view(),
                },
            ),
            availability@.len() == old(self).piece_count_view() && !old(self).has_connection(id)
                ==> r == Err::<(), SwarmError>(SwarmError::UnknownConnection(id)),
            r is Ok ==> final(self).has_connection(id),
            old(self).connection_index(id) matches Some(i) ==> (availability@.len() == old(self).piece_count_view()
                ==> old(self).availability_outcome(i, availability@, r, *final(self))),
            final(self).pieces_view() == old(self).pieces_view(),
            availability@.len() != old(self).piece_count_view() || !old(self).has_connection(id) ==> *final(self) == *old(self),
            final(self).high_water_view() >= old(self).high_water_view(),
    {
        if availability.len() != self.piece_count {
            return Err(SwarmError::InvalidAvailability {
                actual: availability.len(),
                expected: self.piece_count,
            });
        }
        let index = match self.find_connection(id) {
            Some(i) => i,
            None => {
                return Err(SwarmError::UnknownConnection(id));
            },
        };
        proof {
            lemma_connection_index(self, id, index as int);
        }
        self.mark_initial_availability(index)?;
        self.replace_connection_availability(index, availability)
    }

    pub fn set_compact_bitfield(&mut self, id: ConnectionId, availability: Vec<u8>) -> (r: Result<
        (),
        SwarmError,
    >)
        requires
            old(self).wf(),
        ensures
            final(self).wf(),
            !compact_fits(availability@, old(self).piece_count_view()) ==> r == Err::<(), SwarmError>(
                SwarmError::InvalidAvailability {
                    actual: if availability@.len() * 8 <= usize::MAX {
                        (availability@.len() * 8) as usize
                    } else {
                        usize::MAX
                    },
                    expected: old(self).piece_count_view(),
                },
            ),
            compact_fits(availability@, old(self).piece_count_view()) && !old(self).has_connection(id)
                ==> r == Err::<(), SwarmError>(SwarmError::UnknownConnection(id)),
            r is Ok ==> final(self).has_connection(id),
            old(self).connection_index(id) matches Some(i) ==> (compact_fits(availability@, old(self).piece_count_view())
                ==> old(self).availability_outcome(
                i,
                compact_flags(availability@, old(self).piece_count_view() as int),
                r,
                *final(self),
            )),
            final(self).pieces_view() == old(self).pieces_view(),
            !compact_fits(availability@, old(self).piece_count_view()) || !old(self).has_connection(id) ==> *final(self)
                == *old(self),
            final(self).high_water_view() >= old(self).high_water_view(),
    {
        let actual = match availability.len().checked_mul(8) {
            Some(v) => v,
            None => usize::MAX,
        };
        let flags = match flags_from_bytes(&availability, self.piece_count) {
            Some(f) => f,
            None => {
                return Err(SwarmError::InvalidAvailability { actual, expected: self.piece_count });
            },
        };
        let index = match self.find_connection(id) {
            Some(i) => i,
            None => {
                return Err(SwarmError::UnknownConnection(id));
            },
        };
        proof {
            lemma_connection_index(self, id, index as int);
            assert(flags@ =~= compact_flags(availability@, self.piece_count as int));
        }
        self.mark_initial_availability(index)?;
        self.replace_connection_availability(index, flags)
    }

    pub fn set_have_all(&mut self, id: ConnectionId) -> (r: Result<(), SwarmError>)
        requires
            old(self).wf(),
        ensures
            final(self).wf(),
            !old(self).has_connection(id) ==> r == Err::<(), SwarmError>(SwarmError::UnknownConnection(id)),
            r is Ok ==> final(self).has_connection(id),
            final(self).pieces_view() == old(self).pieces_view(),
            final(self).high_water_view() >= old(self).high_water_view(),
    {
        let index = match self.find_connection(id) {
            Some(i) => i,
            None => {
                return Err(SwarmError::UnknownConnection(id));
            },
        };
        self.mark_initial_availability(index)?;
        let flags = trues(self.piece_count);
        self.replace_connection_availability(index, flags)
    }

    pub fn set_have_none(&mut self, id: ConnectionId) -> (r: Result<(), SwarmError>)
        requires
            old(self).wf(),
        ensures
            final(self).wf(),
            !old(self).has_connection(id) ==> r == Err::<(), SwarmError>(SwarmError::UnknownConnection(id)),
            r is Ok ==> final(self).has_connection(id),
            final(self).pieces_view() == old(self).pieces_view(),
            final(self).high_water_view() >= old(self).high_water_view(),
    {
        let index = match self.find_connection(id) {
            Some(i) => i,
            None => {
                return Err(SwarmError::UnknownConnection(id));
            },
        };
        self.mark_initial_availability(index)?;
        let flags = falses(self.piece_count);
        self.replace_connection_availability(index, flags)
    }

    /// Replaces one connection's announced pieces and moves its contribution
    /// to the availability counts: a seed counts once as a seed, any other
    /// peer once per announced piece.
    fn replace_connection_availability(&mut self, index: usize, availability: Vec<bool>) -> (r: Result<(), SwarmError>)
        requires
            old(self).wf(),
            index < old(self).connections@.len(),
            availability@.len() == old(self).piece_count,
        ensures
            final(self).wf(),
            final(self).pieces@ == old(self).pieces@,
            final(self).connections@.len() == old(self).connections@.len(),
            forall|k: int| 0 <= k < final(self).connections@.len() ==> (#[trigger] final(self).connections@[k]).id == old(self).connections@[k].id,
            r is Ok ==> final(self).connections@[index as int].availability@ == availability@,
            final(self).connections@[index as int].availability@ == availability@,
            final(self).connections@[index as int].wanted_piece_count == wanted_flag_count(
                availability@,
                old(self).picker.wanted@,
                old(self).piece_count as int,
            ),
            final(self).connections@[index as int].have_count == count_flags(availability@, availability@.len() as int),
            r is Ok <==> old(self).availability_swap_fits(index as int, availability@),
            r is Ok ==> final(self).picker.seed_count == old(self).swapped_seeds(index as int, availability@),
            r is Ok ==> final(self).picker.counts@ == old(self).swapped_counts(index as int, availability@),
            final(self).high_water_view() >= old(self).high_water_view(),
    {
        let wanted = self.count_wanted_in(&availability);
        let have = count_true(&availability);
        let previous_full = self.connections[index].have_count == self.piece_count;
        let mut previous = availability;
        std::mem::swap(&mut self.connections[index].availability, &mut previous);
        self.connections[index].wanted_piece_count = wanted;
        self.connections[index].have_count = have;
        proof {
            lemma_connections_update(old(self).connections@, self.connections@, index as int, self.piece_count);
        }
        let ghost after_swap = self.connections@[index as int];
        proof {
            assert(previous@ == old(self).connections@[index as int].availability@);
            assert(old(self).connections@[index as int].wf(old(self).piece_count));
            assert(old(self).picker.counts@.len() == old(self).piece_count);
        }
        self.remove_contribution(&previous, previous_full)?;
        let ghost counts1 = self.picker.counts@;
        let ghost seed1 = self.picker.seed_count;
        proof {
            assert(counts1 =~= old(self).withdrawn_counts(index as int));
        }
        let now_full = have == self.piece_count;
        if now_full {
            match self.picker.increment_seed() {
                Ok(()) => {},
                Err(m) => {
                    return Err(SwarmError::Invariant(m));
                },
            }
        } else {
            let mut p: usize = 0;
            while p < self.piece_count
                invariant
                    self.outstanding_request_high_water >= old(self).outstanding_request_high_water,
                    self.wf(),
                    index < self.connections@.len(),
                    self.pieces@ == old(self).pieces@,
                    self.connections@.len() == old(self).connections@.len(),
                    forall|k: int| 0 <= k < self.connections@.len() ==> (#[trigger] self.connections@[k]).id == old(self).connections@[k].id,
                    self.connections@[index as int].availability@ == availability@,
                    self.connections@[index as int] == after_swap,
                    after_swap.wanted_piece_count == wanted_flag_count(
                        availability@,
                        old(self).picker.wanted@,
                        old(self).piece_count as int,
                    ),
                    after_swap.have_count == count_flags(availability@, availability@.len() as int),
                    p <= self.piece_count,
                    availability@.len() == self.piece_count,
                    self.piece_count == old(self).piece_count,
                    self.picker.seed_count == seed1,
                    self.picker.counts@.len() == counts1.len(),
                    counts1.len() == self.piece_count,
                    counts1 == old(self).withdrawn_counts(index as int),
                    count_flags(availability@, availability@.len() as int) != old(self).piece_count,
                    forall|q: int|
                        0 <= q < p ==> #[trigger] self.picker.counts@[q] == counts1[q] + if availability@[q] {
                            1int
                        } else {
                            0int
                        },
                    forall|q: int| p <= q < counts1.len() ==> #[trigger] self.picker.counts@[q] == counts1[q],
                    forall|q: int| 0 <= q < p && #[trigger] availability@[q] ==> counts1[q] < u32::MAX,
                decreases self.piece_count - p,
            {
                if self.connections[index].availability[p] {
                    match self.picker.increment_piece(p) {
                        Ok(()) => {},
                        Err(m) => {
                            assert(availability@[p as int]);
                            assert(!(old(self).withdrawn_counts(index as int)[p as int] < u32::MAX));
                            assert(!old(self).availability_swap_fits(index as int, availability@));
                            return Err(SwarmError::Invariant(m));
                        },
                    }
                }
                p += 1;
            }
            proof {
                assert(self.picker.counts@ =~= added_counts(counts1, availability@));
            }
        }
        self.picker.rebuild_after_bulk_update();
        Ok(())
    }

    /// The counts once the availability of the connection at `index` is
    /// withdrawn: unchanged when it was a seed.
    pub closed spec fn withdrawn_counts(&self, index: int) -> Seq<u32> {
        let prev = self.connections@[index];
        if prev.have_count == self.piece_count {
            self.picker.counts@
        } else {
            Seq::new(
                self.picker.counts@.len(),
                |q: int|
                    if q < prev.availability@.len() && prev.availability@[q] {
                        (self.picker.counts@[q] - 1) as u32
                    } else {
                        self.picker.counts@[q]
                    },
            )
        }
    }

    /// The seed count once the availability of the connection at `index`
    /// is withdrawn.
    pub closed spec fn withdrawn_seeds(&self, index: int) -> u32 {
        if self.connections@[index].have_count == self.piece_count {
            (self.picker.seed_count - 1) as u32
        } else {
            self.picker.seed_count
        }
    }

    /// Whether the connection at `index` can announce `piece`, which it had
    /// not: its wanted count and the piece's count stay in range, and when
    /// the announcement makes it a seed, every piece it has can leave the
    /// per-piece counts for the seed count.
    pub closed spec fn announce_succeeds(&self, index: int, piece: int) -> bool {
        let c = self.connections@[index];
        let avail2 = c.availability@.update(piece, true);
        let counts1 = self.picker.counts@.update(piece, (self.picker.counts@[piece] + 1) as u32);
        &&& self.picker.wanted@[piece] ==> c.wanted_piece_count < usize::MAX
        &&& self.picker.counts@[piece] < u32::MAX
        &&& self.announces_seed(index) ==> (forall|q: int|
            0 <= q < self.piece_count && avail2[q] ==> #[trigger] counts1[q] > 0) && self.picker.seed_count < u32::MAX
    }

    /// Whether one more announced piece makes the connection at `index` a
    /// seed.
    pub closed spec fn announces_seed(&self, index: int) -> bool {
        let have = self.connections@[index].have_count;
        (if have < usize::MAX { have + 1 } else { have as int }) == self.piece_count
    }

    /// The per-piece counts after the connection at `index` announces
    /// `piece`: one more for the piece, then, when it becomes a seed, one
    /// fewer for every piece it has.
    pub closed spec fn announced_counts(&self, index: int, piece: int) -> Seq<u32> {
        let avail2 = self.connections@[index].availability@.update(piece, true);
        let counts1 = self.picker.counts@.update(piece, (self.picker.counts@[piece] + 1) as u32);
        if self.announces_seed(index) {
            Seq::new(counts1.len(), |x: int| if avail2[x] { (counts1[x] - 1) as u32 } else { counts1[x] })
        } else {
            counts1
        }
    }

    /// The seed count after the connection at `index` announces a piece.
    pub closed spec fn announced_seeds(&self, index: int, piece: int) -> u32 {
        if self.announces_seed(index) {
            (self.picker.seed_count + 1) as u32
        } else {
            self.picker.seed_count
        }
    }

    /// Whether the picker's counts can give up the availability of the
    /// connection at `index`: the seed count when it has every piece,
    /// otherwise the count of each piece it has.
    pub closed spec fn withdrawal_fits(&self, index: int) -> bool {
        let c = self.connections@[index];
        if c.have_count == self.piece_count {
            self.picker.seed_count > 0
        } else {
            forall|q: int| 0 <= q < c.availability@.len() && #[trigger] c.availability@[q] ==> self.picker.counts@[q] > 0
        }
    }

    /// Whether nothing is due at `now`: no active attempt has waited its
    /// request timeout, and no connection holding an active attempt has
    /// reached its stall deadline.
    pub open spec fn expiry_quiet(&self, now: u64) -> bool {
        &&& forall|i: int|
            0 <= i < self.active_view().len() ==> (if now >= (#[trigger] self.active_view()[i]).issued_at {
                now - self.active_view()[i].issued_at
            } else {
                0
            }) < self.config_view().request_timeout
        &&& forall|c: int|
            0 <= c < self.connections_view().len() ==> (oldest_issue_of(
                self.active_view(),
                (#[trigger] self.connections_view()[c]).id,
            ) matches Some(o) ==> now < stall_deadline_at(self.connections_view()[c].request_window, o, self.config_view()))
    }

    /// Whether no request is active and no block is being written.
    pub open spec fn nothing_in_flight(&self) -> bool {
        &&& self.active_view().len() == 0
        &&& forall|p: int, b: int|
            0 <= p < self.pieces_view().len() && 0 <= b < self.pieces_view()[p].blocks@.len() ==> !((
            #[trigger] self.pieces_view()[p].blocks@[b]).phase is Writing)
    }

    /// What announcing the whole `availability` of the connection at `index`
    /// gives: a repeated initial announcement on a Fast connection is
    /// refused; otherwise it succeeds exactly when the picker's counts can
    /// trade the old availability for the new one, and then the connection
    /// holds the new availability and the counts and seeds are swapped.
    pub open spec fn availability_outcome(&self, index: int, availability: Seq<bool>, r: Result<(), SwarmError>, after: Self) -> bool {
        let c = self.connections_view()[index];
        &&& c.fast_extension && c.initial_availability_received ==> r == Err::<(), SwarmError>(
            SwarmError::InvalidTransition(ERR_INITIAL_REPEATED),
        ) && after == *self
        &&& r is Ok <==> !(c.fast_extension && c.initial_availability_received) && self.availability_swap_fits(
            index,
            availability,
        )
        &&& r is Ok ==> after.connections_view()[index].availability@ == availability && after.picker_view().counts@
            == self.swapped_counts(index, availability) && after.picker_view().seed_count == self.swapped_seeds(
            index,
            availability,
        )
    }

    /// Whether the connection at `index` can trade its availability for
    /// `availability`: its old contribution is counted, and the new one fits
    /// the counters.
    pub closed spec fn availability_swap_fits(&self, index: int, availability: Seq<bool>) -> bool {
        let prev = self.connections@[index];
        let now_full = count_flags(availability, availability.len() as int) == self.piece_count;
        &&& if prev.have_count == self.piece_count {
            self.picker.seed_count > 0
        } else {
            forall|q: int| 0 <= q < prev.availability@.len() && #[trigger] prev.availability@[q] ==> self.picker.counts@[q] > 0
        }
        &&& if now_full {
            self.withdrawn_seeds(index) < u32::MAX
        } else {
            forall|q: int|
                0 <= q < availability.len() && #[trigger] availability[q] ==> self.withdrawn_counts(index)[q] < u32::MAX
        }
    }

    /// The seed count after the swap.
    pub closed spec fn swapped_seeds(&self, index: int, availability: Seq<bool>) -> u32 {
        if count_flags(availability, availability.len() as int) == self.piece_count {
            (self.withdrawn_seeds(index) + 1) as u32
        } else {
            self.withdrawn_seeds(index)
        }
    }

    /// The counts after the swap.
    pub closed spec fn swapped_counts(&self, index: int, availability: Seq<bool>) -> Seq<u32> {
        if count_flags(availability, availability.len() as int) == self.piece_count {
            self.withdrawn_counts(index)
        } else {
            added_counts(self.withdrawn_counts(index), availability)
        }
    }

    /// Withdraws a former availability from the counts.
    fn remove_contribution(&mut self, availability: &Vec<bool>, full: bool) -> (r: Result<(), SwarmError>)
        requires
            old(self).wf(),
            availability@.len() == old(self).piece_count,
        ensures
            final(self).wf(),
            final(self).pieces@ == old(self).pieces@,
            final(self).connections@ == old(self).connections@,
            final(self).pending_dials@ == old(self).pending_dials@,
            final(self).config == old(self).config,
            final(self).piece_count == old(self).piece_count,
            final(self).active_attempts@ == old(self).active_attempts@,
            full ==> (r is Ok <==> old(self).picker.seed_count > 0),
            full && r is Ok ==> final(self).picker.seed_count == old(self).picker.seed_count - 1
                && final(self).picker.counts@ == old(self).picker.counts@,
            !full ==> (r is Ok <==> forall|p: int|
                0 <= p < availability@.len() && #[trigger] availability@[p] ==> old(self).picker.counts@[p] > 0),
            !full && r is Ok ==> final(self).picker.seed_count == old(self).picker.seed_count
                && final(self).picker.counts@.len() == old(self).picker.counts@.len() && forall|p: int|
                0 <= p < availability@.len() ==> #[trigger] final(self).picker.counts@[p] == old(self).picker.counts@[p]
                    - if availability@[p] {
                    1int
                } else {
                    0int
                },
            final(self).high_water_view() >= old(self).high_water_view(),
    {
        if full {
            match self.picker.decrement_seed() {
                Ok(()) => {},
                Err(m) => {
                    return Err(SwarmError::Invariant(m));
                },
            }
            return Ok(());
        }
        let mut p: usize = 0;
        while p < availability.len()
            invariant
                self.outstanding_request_high_water >= old(self).outstanding_request_high_water,
                self.wf(),
                availability@.len() == self.piece_count,
                self.pieces@ == old(self).pieces@,
                self.connections@ == old(self).connections@,
                self.pending_dials@ == old(self).pending_dials@,
                self.config == old(self).config,
                self.piece_count == old(self).piece_count,
                self.active_attempts@ == old(self).active_attempts@,
                p <= availability@.len(),
                !full,
                self.picker.seed_count == old(self).picker.seed_count,
                self.picker.counts@.len() == old(self).picker.counts@.len(),
                forall|q: int|
                    0 <= q < p ==> #[trigger] self.picker.counts@[q] == old(self).picker.counts@[q] - if availability@[q] {
                        1int
                    } else {
                        0int
                    },
                forall|q: int| p <= q < availability@.len() ==> #[trigger] self.picker.counts@[q] == old(self).picker.counts@[q],
                forall|q: int| 0 <= q < p && #[trigger] availability@[q] ==> old(self).picker.counts@[q] > 0,
            decreases availability@.len() - p,
        {
            if availability[p] {
                match self.picker.decrement_piece(p) {
                    Ok(()) => {},
                    Err(m) => {
                        return Err(SwarmError::Invariant(m));
                    },
                }
            }
            p += 1;
        }
        Ok(())
    }

    /// Announced pieces that are wanted.
    fn count_wanted_in(&self, availability: &Vec<bool>) -> (r: usize)
        requires
            self.wf(),
        ensures
            r <= availability@.len(),
            r == wanted_flag_count(availability@, self.picker_view().wanted@, self.piece_count_view() as int),
    {
        let mut r: usize = 0;
        let mut p: usize = 0;
        while p < availability.len()
            invariant
                self.wf(),
                p <= availability@.len(),
                r <= p,
                r == wanted_flag_count(availability@.take(p as int), self.picker_view().wanted@, self.piece_count_view() as int),
            decreases availability@.len() - p,
        {
            proof {
                assert(availability@.take(p + 1).drop_last() =~= availability@.take(p as int));
            }
            if availability[p] && self.picker.is_wanted(p) {
                r += 1;
            }
            p += 1;
        }
        proof {
            assert(availability@.take(availability@.len() as int) =~= availability@);
        }
        r
    }

    pub fn peer_has(&mut self, id: ConnectionId, piece: u32) -> (r: Result<(), SwarmError>)
        requires
            old(self).wf(),
        ensures
            final(self).wf(),
            piece >= old(self).piece_count_view() ==> r == Err::<(), SwarmError>(
                SwarmError::PieceOutOfRange { piece, piece_count: old(self).piece_count_view() },
            ),
            piece < old(self).piece_count_view() && !old(self).has_connection(id) ==> r == Err::<
                (),
                SwarmError,
            >(SwarmError::UnknownConnection(id)),
            final(self).pieces_view() == old(self).pieces_view(),
            old(self).connection_index(id) matches Some(i) ==> (piece < old(self).piece_count_view() ==> ({
                let c = old(self).connections_view()[i];
                &&& c.availability@[piece as int] ==> r is Ok && final(self).connections_view() == old(
                    self,
                ).connections_view() && final(self).picker_view() == old(self).picker_view()
                &&& !c.availability@[piece as int] ==> (r is Ok <==> old(self).announce_succeeds(i, piece as int))
                &&& r is Ok ==> final(self).connections_view()[i].availability@ == c.availability@.update(
                    piece as int,
                    true,
                )
                &&& r is Ok && !c.availability@[piece as int] ==> final(self).picker_view().counts@ == old(
                    self,
                ).announced_counts(i, piece as int) && final(self).picker_view().seed_count == old(
                    self,
                ).announced_seeds(i, piece as int)
            })),
            final(self).high_water_view() >= old(self).high_water_view(),
    {
        if piece as usize >= self.piece_count {
            return Err(SwarmError::PieceOutOfRange { piece, piece_count: self.piece_count });
        }
        let index = match self.find_connection(id) {
            Some(i) => i,
            None => {
                return Err(SwarmError::UnknownConnection(id));
            },
        };
        proof {
            lemma_connection_index(self, id, index as int);
        }
        let p = piece as usize;
        if self.connections[index].availability[p] {
            return Ok(());
        }
        let ghost avail2 = self.connections@[index as int].availability@.update(piece as int, true);
        let ghost counts1 = self.picker.counts@.update(piece as int, (self.picker.counts@[piece as int] + 1) as u32);
        let wanted = self.picker.is_wanted(p);
        self.connections[index].availability.set(p, true);
        if wanted {
            let count = self.connections[index].wanted_piece_count;
            self.connections[index].wanted_piece_count = match count.checked_add(1) {
                Some(v) => v,
                None => {
                    proof {
                        lemma_connections_update(old(self).connections@, self.connections@, index as int, self.piece_count);
                    }
                    return Err(SwarmError::ArithmeticOverflow(OWNER_WANTED_COUNT));
                },
            };
        }
        let have = self.connections[index].have_count.saturating_add(1);
        self.connections[index].have_count = have;
        proof {
            lemma_connections_update(old(self).connections@, self.connections@, index as int, self.piece_count);
        }
        match self.picker.increment_piece(p) {
            Ok(()) => {},
            Err(m) => {
                return Err(SwarmError::Invariant(m));
            },
        }
        let ghost conns2 = self.connections@;
        proof {
            assert(self.connections@[index as int].availability@ =~= avail2);
            assert(self.picker.counts@ =~= Seq::new(
                counts1.len(),
                |x: int| if x < 0 && avail2[x] { (counts1[x] - 1) as u32 } else { counts1[x] },
            ));
        }
        proof {
            assert(have == self.piece_count <==> old(self).announces_seed(index as int));
        }
        if have == self.piece_count {
            let mut q: usize = 0;
            while q < self.piece_count
                invariant
                    self.outstanding_request_high_water >= old(self).outstanding_request_high_water,
                    self.wf(),
                    index < self.connections@.len(),
                    self.pieces@ == old(self).pieces@,
                    self.piece_count == old(self).piece_count,
                    piece < self.piece_count,
                    old(self).has_connection(id),
                    q <= self.piece_count,
                    self.connections@ == conns2,
                    conns2[index as int].availability@ == avail2,
                    counts1.len() == self.piece_count,
                    self.picker.seed_count == old(self).picker.seed_count,
                    self.picker.counts@ == Seq::new(
                        counts1.len(),
                        |x: int| if x < q && avail2[x] { (counts1[x] - 1) as u32 } else { counts1[x] },
                    ),
                    forall|x: int| 0 <= x < q && avail2[x] ==> #[trigger] counts1[x] > 0,
                    counts1 == old(self).picker.counts@.update(
                        piece as int,
                        (old(self).picker.counts@[piece as int] + 1) as u32,
                    ),
                    avail2 == old(self).connections@[index as int].availability@.update(piece as int, true),
                    old(self).announces_seed(index as int),
                    old(self).connection_index(id) == Some(index as int),
                    !old(self).connections@[index as int].availability@[piece as int],
                decreases self.piece_count - q,
            {
                if self.connections[index].availability[q] {
                    match self.picker.decrement_piece(q) {
                        Ok(()) => {},
                        Err(m) => {
                            return Err(SwarmError::Invariant(m));
                        },
                    }
                }
                proof {
                    assert(self.picker.counts@ =~= Seq::new(
                        counts1.len(),
                        |x: int| if x < q + 1 && avail2[x] { (counts1[x] - 1) as u32 } else { counts1[x] },
                    ));
                }
                q += 1;
            }
            match self.picker.increment_seed() {
                Ok(()) => {},
                Err(m) => {
                    return Err(SwarmError::Invariant(m));
                },
            }
            self.picker.rebuild_after_bulk_update();
        }
        Ok(())
    }

    pub fn set_fast_extension(&mut self, id: ConnectionId, enabled: bool) -> (r: Result<(), SwarmError>)
        requires
            old(self).wf(),
        ensures
            final(self).wf(),
            !old(self).has_connection(id) ==> r == Err::<(), SwarmError>(SwarmError::UnknownConnection(id)),
            r is Ok ==> (final(self).connection_index(id) matches Some(i) && final(self).connections_view()[i].fast_extension
                == enabled && !final(self).connections_view()[i].initial_availability_received
                && final(self).connections_view()[i].suggestions@.len() == 0
                && final(self).connections_view()[i].allowed_fast@.len() == 0),
            old(self).connection_index(id) matches Some(i) ==> ((r is Err <==> old(self).connections_view()[i].active_request_count
                != 0) && (r is Err ==> r == Err::<(), SwarmError>(SwarmError::InvalidTransition(ERR_FAST_AFTER_REQUESTS)))),
            r is Err ==> final(self).connections_view() == old(self).connections_view(),
            final(self).pieces_view() == old(self).pieces_view(),
            r is Err ==> *final(self) == *old(self),
            final(self).high_water_view() >= old(self).high_water_view(),
    {
        let index = match self.find_connection(id) {
            Some(i) => i,
            None => {
                return Err(SwarmError::UnknownConnection(id));
            },
        };
        proof {
            lemma_connection_index(self, id, index as int);
        }
        if self.connections[index].active_request_count != 0 {
            return Err(SwarmError::InvalidTransition(ERR_FAST_AFTER_REQUESTS));
        }
        self.connections[index].fast_extension = enabled;
        self.connections[index].initial_availability_received = false;
        self.connections[index].suggestions.clear();
        self.connections[index].allowed_fast.clear();
        proof {
            lemma_connections_update(old(self).connections@, self.connections@, index as int, self.piece_count);
            lemma_connection_index(self, id, index as int);
        }
        Ok(())
    }

    /// Checks a message of a Fast connection against the extension's rules
    /// and records its advisories: availability must come first and once,
    /// Fast messages need a Fast connection, and suggestions (newest first)
    /// and allowed-fast pieces are kept without repeats, at most 32 each.
    pub fn observe_fast_message(&mut self, id: ConnectionId, message: &PeerMessage) -> (r: Result<(), SwarmError>)
        requires
            old(self).wf(),
        ensures
            final(self).wf(),
            final(self).pieces_view() == old(self).pieces_view(),
            final(self).picker_view() == old(self).picker_view(),
            final(self).connections_view().len() == old(self).connections_view().len(),
            final(self).tallies() == old(self).tallies(),
            final(self).missing_count() == old(self).missing_count(),
            final(self).pending_dials_view() == old(self).pending_dials_view(),
            final(self).outstanding_view() == old(self).outstanding_view(),
            r is Err ==> final(self).connections_view() == old(self).connections_view(),
            !old(self).has_connection(id) ==> r == Err::<(), SwarmError>(SwarmError::UnknownConnection(id))
                && final(self).connections_view() == old(self).connections_view(),
            old(self).connection_index(id) matches Some(i) ==> {
                let c = old(self).connections_view()[i];
                let n = final(self).connections_view()[i];
                let piece_count = old(self).piece_count_view();
                &&& forall|k: int| 0 <= k < old(self).connections_view().len() && k != i ==>
                    #[trigger] final(self).connections_view()[k] == old(self).connections_view()[k]
                &&& n.id == c.id && n.availability == c.availability && n.choking == c.choking
                &&& n.fast_extension == c.fast_extension
                &&& n.initial_availability_received == c.initial_availability_received
                &&& n.have_count == c.have_count && n.wanted_piece_count == c.wanted_piece_count
                &&& n.active_request_count == c.active_request_count
                &&& n.request_window == c.request_window
                &&& n.connected_at == c.connected_at && n.last_useful_at == c.last_useful_at
                &&& r == if !c.fast_extension {
                    if message.is_fast() {
                        Err(SwarmError::InvalidTransition(ERR_FAST_UNNEGOTIATED))
                    } else {
                        Ok(())
                    }
                } else if !c.initial_availability_received && !message.is_initial_availability() {
                    if message.needs_availability() {
                        Err(SwarmError::InvalidTransition(ERR_INITIAL_MISSING))
                    } else {
                        Ok(())
                    }
                } else if c.initial_availability_received && message.is_initial_availability() {
                    Err(SwarmError::InvalidTransition(ERR_INITIAL_REPEATED))
                } else {
                    match message {
                        PeerMessage::SuggestPiece(piece) => if piece >= piece_count {
                            Err(SwarmError::PieceOutOfRange { piece: *piece, piece_count })
                        } else {
                            Ok(())
                        },
                        PeerMessage::AllowedFast(piece) => if piece >= piece_count {
                            Err(SwarmError::PieceOutOfRange { piece: *piece, piece_count })
                        } else {
                            Ok(())
                        },
                        _ => Ok(()),
                    }
                }
                &&& n.suggestions@ == if r is Ok && message is SuggestPiece
                    && !c.suggestions@.contains(message->SuggestPiece_0) && c.suggestions@.len()
                    < MAX_FAST_ADVISORY_PIECES {
                    seq![message->SuggestPiece_0] + c.suggestions@
                } else {
                    c.suggestions@
                }
                &&& n.allowed_fast@ == if r is Ok && message is AllowedFast
                    && !c.allowed_fast@.contains(message->AllowedFast_0) && c.allowed_fast@.len()
                    < MAX_FAST_ADVISORY_PIECES {
                    c.allowed_fast@.push(message->AllowedFast_0)
                } else {
                    c.allowed_fast@
                }
            },
            final(self).high_water_view() >= old(self).high_water_view(),
    {
        let index = match self.find_connection(id) {
            Some(i) => i,
            None => {
                return Err(SwarmError::UnknownConnection(id));
            },
        };
        proof {
            lemma_connection_index(self, id, index as int);
        }
        let piece_count = self.piece_count;
        let fast_message = matches!(
            message,
            PeerMessage::SuggestPiece(_) | PeerMessage::HaveAll | PeerMessage::HaveNone
                | PeerMessage::RejectRequest(_) | PeerMessage::AllowedFast(_)
        );
        let fast_extension = self.connections[index].fast_extension;
        let initial_received = self.connections[index].initial_availability_received;
        if !fast_extension {
            return if fast_message {
                Err(SwarmError::InvalidTransition(ERR_FAST_UNNEGOTIATED))
            } else {
                Ok(())
            };
        }
        let initial = matches!(
            message,
            PeerMessage::Bitfield(_) | PeerMessage::HaveAll | PeerMessage::HaveNone
        );
        if !initial_received && !initial {
            let requires_availability = fast_message || matches!(
                message,
                PeerMessage::Have(_) | PeerMessage::Request(_) | PeerMessage::Cancel(_)
                    | PeerMessage::Piece { .. }
            );
            return if requires_availability {
                Err(SwarmError::InvalidTransition(ERR_INITIAL_MISSING))
            } else {
                Ok(())
            };
        }
        if initial_received && initial {
            return Err(SwarmError::InvalidTransition(ERR_INITIAL_REPEATED));
        }
        let (piece, suggestion) = match message {
            PeerMessage::SuggestPiece(piece) => (*piece, true),
            PeerMessage::AllowedFast(piece) => (*piece, false),
            _ => {
                return Ok(());
            },
        };
        if piece as usize >= piece_count {
            return Err(SwarmError::PieceOutOfRange { piece, piece_count });
        }
        if suggestion {
            if !contains_u32(&self.connections[index].suggestions, piece)
                && self.connections[index].suggestions.len() < MAX_FAST_ADVISORY_PIECES {
                self.connections[index].suggestions.insert(0, piece);
            }
        } else if !contains_u32(&self.connections[index].allowed_fast, piece)
            && self.connections[index].allowed_fast.len() < MAX_FAST_ADVISORY_PIECES {
            self.connections[index].allowed_fast.push(piece);
        }
        proof {
            lemma_connections_update(old(self).connections@, self.connections@, index as int, self.piece_count);
            lemma_connection_index(self, id, index as int);
        }
        Ok(())
    }

    pub fn fast_peer_snapshot(&self, id: ConnectionId) -> (r: Result<FastPeerSnapshot, SwarmError>)
        requires
            self.wf(),
        ensures
            !self.has_connection(id) ==> r == Err::<FastPeerSnapshot, SwarmError>(
                SwarmError::UnknownConnection(id),
            ),
            self.connection_index(id) matches Some(i) ==> r == Ok::<FastPeerSnapshot, SwarmError>(
                FastPeerSnapshot {
                    negotiated: self.connections_view()[i].fast_extension,
                    initial_availability_received: self.connections_view()[i].initial_availability_received,
                    suggestions: self.connections_view()[i].suggestions@.len() as usize,
                    allowed_fast: self.connections_view()[i].allowed_fast@.len() as usize,
                },
            ),
    {
        let index = match self.find_connection(id) {
            Some(i) => i,
            None => {
                return Err(SwarmError::UnknownConnection(id));
            },
        };
        proof {
            lemma_connection_index(self, id, index as int);
        }
        let c = &self.connections[index];
        Ok(FastPeerSnapshot {
            negotiated: c.fast_extension,
            initial_availability_received: c.initial_availability_received,
            suggestions: c.suggestions.len(),
            allowed_fast: c.allowed_fast.len(),
        })
    }

    pub fn note_useful_payload(&mut self, connection: ConnectionId, now: u64) -> (r: Result<(), SwarmError>)
        requires
            old(self).wf(),
        ensures
            final(self).wf(),
            !old(self).has_connection(connection) ==> r == Err::<(), SwarmError>(
                SwarmError::UnknownConnection(connection),
            ),
            r is Ok ==> (final(self).connection_index(connection) matches Some(i)
                && final(self).connections_view()[i].last_useful_at == Some(now)),
            final(self).pieces_view() == old(self).pieces_view(),
            final(self).high_water_view() >= old(self).high_water_view(),
    {
        let index = match self.find_connection(connection) {
            Some(i) => i,
            None => {
                return Err(SwarmError::UnknownConnection(connection));
            },
        };
        self.connections[index].last_useful_at = Some(now);
        proof {
            lemma_connections_update(old(self).connections@, self.connections@, index as int, self.piece_count);
            lemma_connection_index(self, connection, index as int);
        }
        Ok(())
    }

    /// Every field but the pieces is unchanged.
    pub closed spec fn same_but_pieces(&self, other: &Self) -> bool {
        &&& self.config == other.config
        &&& self.piece_count == other.piece_count
        &&& self.picker == other.picker
        &&& self.connections@ == other.connections@
        &&& self.pending_dials@ == other.pending_dials@
        &&& self.active_attempts@ == other.active_attempts@
        &&& self.next_attempt_id == other.next_attempt_id
        &&& self.missing_blocks == other.missing_blocks
        &&& self.requested_blocks == other.requested_blocks
        &&& self.writing_blocks == other.writing_blocks
        &&& self.received_blocks == other.received_blocks
        &&& self.verified_blocks == other.verified_blocks
        &&& self.active_piece_bytes == other.active_piece_bytes
        &&& self.outstanding_request_bytes == other.outstanding_request_bytes
        &&& self.outstanding_request_high_water == other.outstanding_request_high_water
        &&& self.last_scheduled_connection == other.last_scheduled_connection
        &&& self.last_activated_piece == other.last_activated_piece
        &&& self.last_activated_availability == other.last_activated_availability
        &&& self.active_piece_visits == other.active_piece_visits
        &&& self.inactive_planned_piece_visits == other.inactive_planned_piece_visits
        &&& self.endgame_assignments == other.endgame_assignments
        &&& self.cancelled_request_attempts == other.cancelled_request_attempts
        &&& self.redundant_payload_bytes == other.redundant_payload_bytes
        &&& self.piece_hash_failures == other.piece_hash_failures
        &&& self.failed_piece_bytes == other.failed_piece_bytes
        &&& self.last_hash_failure_contributors == other.last_hash_failure_contributors
    }

    /// Sets one block's phase.
    fn set_phase(&mut self, p: usize, b: usize, phase: BlockPhase)
        requires
            old(self).wf(),
            p < old(self).pieces@.len(),
            b < old(self).pieces@[p as int].blocks@.len(),
        ensures
            final(self).wf(),
            final(self).same_but_pieces(old(self)),
            final(self).pieces@.len() == old(self).pieces@.len(),
            forall|k: int|
                0 <= k < old(self).pieces@.len() && k != p ==> #[trigger] final(self).pieces@[k] == old(
                    self,
                ).pieces@[k],
            same_piece_shape(old(self).pieces@[p as int], final(self).pieces@[p as int]),
            final(self).pieces@[p as int].blocks@ == old(self).pieces@[p as int].blocks@.update(
                b as int,
                BlockEntry { phase, ..old(self).pieces@[p as int].blocks@[b as int] },
            ),
            final(self).high_water_view() >= old(self).high_water_view(),
    {
        self.pieces[p].blocks[b].phase = phase;
        proof {
            lemma_pieces_update(old(self).pieces@, self.pieces@, p as int, self.piece_count);
        }
    }

    /// Piece position of the planned piece with `index`.
    fn find_piece(&self, index: u32) -> (r: Option<usize>)
        requires
            pieces_sorted(self.pieces@),
        ensures
            r matches Some(p) ==> p < self.pieces@.len() && self.pieces@[p as int].index == index,
            r is None <==> !self.has_piece(index),
    {
        let (position, found) = self.locate_piece(index);
        if found {
            Some(position)
        } else {
            None
        }
    }

    /// Drops the oldest terminal attempts of one block until at most `maximum`
    /// remain, never the `protected` one.
    fn trim_block(&mut self, p: usize, b: usize, maximum: usize, protected: Option<RequestAttemptId>) -> (r: Result<(), SwarmError>)
        requires
            old(self).wf(),
            p < old(self).pieces@.len(),
            b < old(self).pieces@[p as int].blocks@.len(),
        ensures
            final(self).wf(),
            final(self).same_but_pieces(old(self)),
            final(self).pieces@.len() == old(self).pieces@.len(),
            forall|k: int|
                0 <= k < old(self).pieces@.len() && k != p ==> #[trigger] final(self).pieces@[k] == old(self).pieces@[k],
            same_piece_shape(old(self).pieces@[p as int], final(self).pieces@[p as int]),
            forall|x: int|
                0 <= x < old(self).pieces@[p as int].blocks@.len() && x != b ==> #[trigger] final(self).pieces@[p as int].blocks@[x]
                    == old(self).pieces@[p as int].blocks@[x],
            final(self).pieces@[p as int].blocks@[b as int].phase == old(self).pieces@[p as int].blocks@[b as int].phase,
            r is Ok ==> terminal_count(final(self).pieces@[p as int].blocks@[b as int].attempts@) <= maximum,
            kept_attempts(old(self).pieces@[p as int].blocks@[b as int].attempts@, final(self).pieces@[p as int].blocks@[b as int].attempts@, protected),
            final(self).config == old(self).config,
            r is Ok <==> protected_terminal_count(old(self).pieces@[p as int].blocks@[b as int].attempts@, protected)
                <= maximum,
            r is Err ==> r == Err::<(), SwarmError>(SwarmError::Invariant(ERR_TRIM)),
            terminal_count(old(self).pieces@[p as int].blocks@[b as int].attempts@) <= maximum
                ==> final(self).pieces@[p as int].blocks@[b as int].attempts@ == old(self).pieces@[p as int].blocks@[b as int].attempts@,
            final(self).high_water_view() >= old(self).high_water_view(),
    {
        let mut attempts: Vec<RequestAttempt> = Vec::new();
        std::mem::swap(&mut attempts, &mut self.pieces[p].blocks[b].attempts);
        let result = trim_attempts(&mut attempts, maximum, protected);
        std::mem::swap(&mut attempts, &mut self.pieces[p].blocks[b].attempts);
        proof {
            lemma_pieces_update(old(self).pieces@, self.pieces@, p as int, self.piece_count);
        }
        result
    }

    /// Makes `piece` part of the active working set.
    pub fn activate_piece(&mut self, piece: u32) -> (r: Result<(), SwarmError>)
        requires
            old(self).wf(),
        ensures
            final(self).wf(),
            !old(self).has_piece(piece) ==> r == Err::<(), SwarmError>(SwarmError::UnknownPiece(piece)),
            r is Ok ==> final(self).piece_active(piece),
            old(self).has_piece(piece) ==> (r is Ok <==> old(self).piece_active(piece) || old(self).active_bytes_view()
                + old(self).pieces_view()[old(self).piece_position(piece)->0].working_set_bytes <= usize::MAX),
            final(self).connections_view() == old(self).connections_view(),
            final(self).pieces_view().len() == old(self).pieces_view().len(),
            final(self).pending_dials_view() == old(self).pending_dials_view(),
            final(self).missing_count() == old(self).missing_count(),
            final(self).outstanding_view() == old(self).outstanding_view(),
            final(self).high_water_view() == old(self).high_water_view(),
            final(self).config_view() == old(self).config_view(),
            final(self).active_view() == old(self).active_view(),
            forall|k: int| 0 <= k < final(self).pieces_view().len() ==> (#[trigger] final(self).pieces_view()[k]).blocks@
                == old(self).pieces_view()[k].blocks@ && final(self).pieces_view()[k].index == old(self).pieces_view()[k].index,
            final(self).tallies().requested_blocks == old(self).tallies().requested_blocks,
            final(self).tallies().writing_blocks == old(self).tallies().writing_blocks,
            final(self).next_attempt_view() == old(self).next_attempt_view(),
            final(self).high_water_view() >= old(self).high_water_view(),
    {
        let p = match self.find_piece(piece) {
            Some(p) => p,
            None => {
                return Err(SwarmError::UnknownPiece(piece));
            },
        };
        proof {
            lemma_found_piece(self, p as int, piece);
            if self.piece_active(piece) {
                let i = choose|i: int|
                    0 <= i < self.pieces_view().len() && #[trigger] self.pieces_view()[i].index == piece
                        && self.pieces_view()[i].active;
                if i < p {
                    assert(self.pieces@[i].index < self.pieces@[p as int].index);
                } else if i > p {
                    assert(self.pieces@[p as int].index < self.pieces@[i].index);
                }
            }
        }
        if !self.pieces[p].active {
            let bytes = match self.active_piece_bytes.checked_add(self.pieces[p].working_set_bytes) {
                Some(v) => v,
                None => {
                    return Err(SwarmError::ArithmeticOverflow(OWNER_ACTIVE_BYTES));
                },
            };
            self.pieces[p].active = true;
            proof {
                lemma_pieces_update(old(self).pieces@, self.pieces@, p as int, self.piece_count);
            }
            self.active_piece_bytes = bytes;
            self.last_activated_piece = Some(piece);
            self.last_activated_availability = self.picker.availability(piece as usize);
        }
        proof {
            self.lemma_piece_active_at(piece, p as int);
        }
        Ok(())
    }

    /// The planned piece with `index` is in the active working set.
    pub open spec fn piece_active(&self, index: u32) -> bool {
        exists|i: int|
            0 <= i < self.pieces_view().len() && #[trigger] self.pieces_view()[i].index == index
                && self.pieces_view()[i].active
    }

    proof fn lemma_piece_active_at(&self, index: u32, p: int)
        requires
            0 <= p < self.pieces@.len(),
            self.pieces@[p].index == index,
            self.pieces@[p].active,
        ensures
            self.piece_active(index),
    {
        assert(self.pieces_view() == self.pieces@);
        assert(self.pieces_view()[p].index == index);
    }

    /// Removes the piece at position `p` from the active working set.
    fn deactivate_at(&mut self, p: usize) -> (r: Result<(), SwarmError>)
        requires
            old(self).wf(),
            p < old(self).pieces@.len(),
        ensures
            final(self).wf(),
            final(self).connections@ == old(self).connections@,
            final(self).pieces@.len() == old(self).pieces@.len(),
            final(self).missing_blocks == old(self).missing_blocks,
            final(self).writing_blocks == old(self).writing_blocks,
            final(self).received_blocks == old(self).received_blocks,
            final(self).verified_blocks == old(self).verified_blocks,
            final(self).requested_blocks == old(self).requested_blocks,
            final(self).picker == old(self).picker,
            final(self).active_attempts@ == old(self).active_attempts@,
            final(self).outstanding_request_bytes == old(self).outstanding_request_bytes,
            final(self).next_attempt_id == old(self).next_attempt_id,
            final(self).pending_dials@ == old(self).pending_dials@,
            forall|k: int| 0 <= k < final(self).pieces@.len() ==> (#[trigger] final(self).pieces@[k]).index == old(self).pieces@[k].index,
            forall|k: int| 0 <= k < final(self).pieces@.len() ==> (#[trigger] final(self).pieces@[k]).blocks@ == old(self).pieces@[k].blocks@,
            forall|k: int| 0 <= k < final(self).pieces@.len() ==> (#[trigger] final(self).pieces@[k]).verified == old(self).pieces@[k].verified,
            r is Ok ==> !final(self).pieces@[p as int].active,
            final(self).config == old(self).config,
            r is Err <==> old(self).pieces@[p as int].active && old(self).active_piece_bytes
                < old(self).pieces@[p as int].working_set_bytes,
            r is Err ==> r == Err::<(), SwarmError>(SwarmError::Invariant(ERR_ACTIVE_BYTES_UNDERFLOW)),
            r is Err ==> final(self).pieces@ == old(self).pieces@ && final(self).active_piece_bytes
                == old(self).active_piece_bytes,
            r is Ok ==> final(self).pieces@ == old(self).pieces@.update(
                p as int,
                PieceState { active: false, ..old(self).pieces@[p as int] },
            ),
            r is Ok ==> final(self).active_piece_bytes == if old(self).pieces@[p as int].active {
                (old(self).active_piece_bytes - old(self).pieces@[p as int].working_set_bytes) as usize
            } else {
                old(self).active_piece_bytes
            },
            final(self).high_water_view() >= old(self).high_water_view(),
    {
        if !self.pieces[p].active {
            return Ok(());
        }
        let bytes = match self.active_piece_bytes.checked_sub(self.pieces[p].working_set_bytes) {
            Some(v) => v,
            None => {
                return Err(SwarmError::Invariant(ERR_ACTIVE_BYTES_UNDERFLOW));
            },
        };
        self.pieces[p].active = false;
        proof {
            lemma_pieces_update(old(self).pieces@, self.pieces@, p as int, self.piece_count);
        }
        self.active_piece_bytes = bytes;
        Ok(())
    }

    /// Deactivates the piece at `p` when none of its blocks is requested,
    /// being written or awaiting verification.
    fn deactivate_if_idle(&mut self, p: usize) -> (r: Result<(), SwarmError>)
        requires
            old(self).wf(),
            p < old(self).pieces@.len(),
        ensures
            final(self).wf(),
            final(self).connections@ == old(self).connections@,
            final(self).pieces@.len() == old(self).pieces@.len(),
            final(self).missing_blocks == old(self).missing_blocks,
            final(self).writing_blocks == old(self).writing_blocks,
            final(self).received_blocks == old(self).received_blocks,
            final(self).verified_blocks == old(self).verified_blocks,
            final(self).requested_blocks == old(self).requested_blocks,
            final(self).picker == old(self).picker,
            final(self).active_attempts@ == old(self).active_attempts@,
            final(self).outstanding_request_bytes == old(self).outstanding_request_bytes,
            final(self).next_attempt_id == old(self).next_attempt_id,
            final(self).pending_dials@ == old(self).pending_dials@,
            forall|k: int| 0 <= k < final(self).pieces@.len() ==> (#[trigger] final(self).pieces@[k]).index == old(self).pieces@[k].index,
            forall|k: int| 0 <= k < final(self).pieces@.len() ==> (#[trigger] final(self).pieces@[k]).blocks@ == old(self).pieces@[k].blocks@,
            final(self).config == old(self).config,
            in_flight_count(old(self).pieces@[p as int].blocks@) != 0 ==> r is Ok && final(self).pieces@ == old(
                self,
            ).pieces@ && final(self).active_piece_bytes == old(self).active_piece_bytes,
            in_flight_count(old(self).pieces@[p as int].blocks@) == 0 ==> {
                &&& (r is Err <==> old(self).pieces@[p as int].active && old(self).active_piece_bytes
                    < old(self).pieces@[p as int].working_set_bytes)
                &&& r is Err ==> final(self).pieces@ == old(self).pieces@ && final(self).active_piece_bytes
                    == old(self).active_piece_bytes
                &&& r is Ok ==> final(self).pieces@ == old(self).pieces@.update(
                    p as int,
                    PieceState { active: false, ..old(self).pieces@[p as int] },
                )
                &&& r is Ok ==> final(self).active_piece_bytes == if old(self).pieces@[p as int].active {
                    (old(self).active_piece_bytes - old(self).pieces@[p as int].working_set_bytes) as usize
                } else {
                    old(self).active_piece_bytes
                }
            },
            final(self).high_water_view() >= old(self).high_water_view(),
    {
        if active_block_count(&self.pieces[p]) == 0 {
            self.deactivate_at(p)
        } else {
            Ok(())
        }
    }

    /// One fewer request of `connection` is active.
    fn release_connection_request(&mut self, connection: ConnectionId) -> (r: Result<(), SwarmError>)
        requires
            old(self).wf(),
        ensures
            final(self).wf(),
            final(self).pieces@ == old(self).pieces@,
            final(self).missing_blocks == old(self).missing_blocks,
            final(self).active_attempts@ == old(self).active_attempts@,
            final(self).outstanding_request_bytes == old(self).outstanding_request_bytes,
            final(self).next_attempt_id == old(self).next_attempt_id,
            final(self).pending_dials@ == old(self).pending_dials@,
            final(self).requested_blocks == old(self).requested_blocks,
            final(self).writing_blocks == old(self).writing_blocks,
            final(self).piece_count == old(self).piece_count,
            final(self).connections@.len() == old(self).connections@.len(),
            forall|k: int| 0 <= k < final(self).connections@.len() ==> (#[trigger] final(self).connections@[k]).id == old(self).connections@[k].id,
            final(self).config == old(self).config,
            final(self).requested_blocks == old(self).requested_blocks,
            final(self).active_piece_bytes == old(self).active_piece_bytes,
            !old(self).has_connection(connection) ==> r == Err::<(), SwarmError>(SwarmError::Invariant(ERR_ABSENT_CONNECTION)),
            old(self).connection_index(connection) matches Some(i) ==> {
                &&& (r is Ok <==> old(self).connections@[i].active_request_count > 0)
                &&& r is Ok ==> final(self).connections@ == old(self).connections@.update(
                    i,
                    ConnectionState {
                        active_request_count: (old(self).connections@[i].active_request_count - 1) as usize,
                        ..old(self).connections@[i]
                    },
                )
                &&& r is Err ==> final(self).connections@ == old(self).connections@
                    && r == Err::<(), SwarmError>(SwarmError::Invariant(ERR_CONNECTION_COUNT_UNDERFLOW))
            },
            final(self).high_water_view() >= old(self).high_water_view(),
    {
        let index = match self.find_connection(connection) {
            Some(i) => i,
            None => {
                return Err(SwarmError::Invariant(ERR_ABSENT_CONNECTION));
            },
        };
        proof {
            lemma_connection_index(old(self), connection, index as int);
        }
        let count = match self.connections[index].active_request_count.checked_sub(1) {
            Some(v) => v,
            None => {
                return Err(SwarmError::Invariant(ERR_CONNECTION_COUNT_UNDERFLOW));
            },
        };
        self.connections[index].active_request_count = count;
        proof {
            lemma_connections_update(old(self).connections@, self.connections@, index as int, self.piece_count);
        }
        self.picker.note_eligibility_change();
        Ok(())
    }

    /// Returns a request's bytes to the outstanding budget.
    fn release_request(&mut self, length: u32) -> (r: Result<(), SwarmError>)
        requires
            old(self).wf(),
        ensures
            final(self).wf(),
            final(self).pieces@ == old(self).pieces@,
            final(self).connections@ == old(self).connections@,
            final(self).missing_blocks == old(self).missing_blocks,
            final(self).active_attempts@ == old(self).active_attempts@,
            final(self).next_attempt_id == old(self).next_attempt_id,
            final(self).pending_dials@ == old(self).pending_dials@,
            final(self).requested_blocks == old(self).requested_blocks,
            final(self).writing_blocks == old(self).writing_blocks,
            final(self).piece_count == old(self).piece_count,
            r is Ok <==> length <= old(self).outstanding_request_bytes,
            r is Ok ==> final(self).outstanding_request_bytes == old(self).outstanding_request_bytes - length,
            r is Err ==> final(self).outstanding_request_bytes == old(self).outstanding_request_bytes,
            r is Err ==> r == Err::<(), SwarmError>(SwarmError::Invariant(ERR_RESERVATION_UNDERFLOW)),
            final(self).config == old(self).config,
            final(self).high_water_view() >= old(self).high_water_view(),
    {
        match self.outstanding_request_bytes.checked_sub(length as usize) {
            Some(v) => {
                self.outstanding_request_bytes = v;
                Ok(())
            },
            None => Err(SwarmError::Invariant(ERR_RESERVATION_UNDERFLOW)),
        }
    }

    /// Position of the active attempt `id` in the active index.
    fn find_active(&self, id: RequestAttemptId) -> (r: Option<usize>)
        ensures
            r matches Some(i) ==> i < self.active_attempts@.len() && self.active_attempts@[i as int].id == id,
            r is None ==> forall|k: int| 0 <= k < self.active_attempts@.len() ==> #[trigger] self.active_attempts@[k].id != id,
    {
        let mut i: usize = 0;
        while i < self.active_attempts.len()
            invariant
                i <= self.active_attempts@.len(),
                forall|k: int| 0 <= k < i ==> #[trigger] self.active_attempts@[k].id != id,
            decreases self.active_attempts@.len() - i,
        {
            if self.active_attempts[i].id.same(id) {
                return Some(i);
            }
            i += 1;
        }
        None
    }

    /// Issues a request attempt for `block` to `connection`: an ordinary one
    /// for a missing block, or an endgame duplicate of a requested block the
    /// connection does not already own.
    fn assign(&mut self, connection: ConnectionId, block: BlockKey, now: u64, endgame: bool) -> (r: Result<RequestAssignment, SwarmError>)
        requires
            old(self).wf(),
        ensures
            final(self).wf(),
            final(self).pending_dials@ == old(self).pending_dials@,
            final(self).pieces@.len() == old(self).pieces@.len(),
            final(self).connections@.len() == old(self).connections@.len(),
            r is Ok && !endgame ==> final(self).missing_blocks == old(self).missing_blocks - 1,
            r is Ok ==> final(self).outstanding_request_bytes == old(self).outstanding_request_bytes + block.length,
            r is Ok ==> final(self).outstanding_request_bytes <= final(self).outstanding_request_high_water,
            r matches Ok(a) ==> a.connection == connection && a.block == block && a.attempt.value() == old(self).next_attempt_id,
            r matches Ok(a) ==> final(self).active_attempts@ == old(self).active_attempts@.push(issued(a, now)),
            r is Ok && endgame ==> final(self).missing_blocks == old(self).missing_blocks,
            final(self).config == old(self).config,
            final(self).outstanding_request_bytes == old(self).outstanding_request_bytes
                || final(self).outstanding_request_bytes == old(self).outstanding_request_bytes + block.length,
            r is Ok <==> old(self).assign_succeeds(connection, block, endgame),
            r is Ok ==> (final(self).entry_of(block) matches Some(f) && f.phase == BlockPhase::Requested),
            r is Ok && !endgame ==> final(self).requested_blocks == old(self).requested_blocks + 1,
            r is Ok && endgame ==> final(self).requested_blocks == old(self).requested_blocks,
            r is Ok ==> final(self).next_attempt_id == old(self).next_attempt_id + 1,
            same_permissions(final(self).connections@, old(self).connections@),
            r is Ok ==> forall|other: BlockKey| other != block ==> #[trigger] final(self).entry_of(other) == old(self).entry_of(other),
            final(self).high_water_view() >= old(self).high_water_view(),
    {
        let attempt_id = RequestAttemptId::of(self.next_attempt_id);
        self.next_attempt_id = match self.next_attempt_id.checked_add(1) {
            Some(v) => v,
            None => {
                return Err(SwarmError::IdentifierOverflow(OWNER_ATTEMPT));
            },
        };
        let (p, b) = match self.find_block(block) {
            Some(pair) => pair,
            None => {
                return Err(SwarmError::UnknownBlock(block));
            },
        };
        let valid = if endgame {
            matches!(self.pieces[p].blocks[b].phase, BlockPhase::Requested)
                && has_active_attempt(&self.pieces[p].blocks[b].attempts)
                && !has_active_attempt_of(&self.pieces[p].blocks[b].attempts, connection)
        } else {
            matches!(self.pieces[p].blocks[b].phase, BlockPhase::Missing)
        };
        if !valid {
            return Err(SwarmError::InvalidTransition(if endgame {
                ERR_ENDGAME_BLOCK
            } else {
                ERR_NOT_MISSING
            }));
        }
        let connection_index = match self.find_connection(connection) {
            Some(i) => i,
            None => {
                return Err(SwarmError::UnknownConnection(connection));
            },
        };
        proof {
            lemma_connection_index(self, connection, connection_index as int);
        }
        let length = block.length as usize;
        let outstanding = match self.outstanding_request_bytes.checked_add(length) {
            Some(v) => v,
            None => {
                return Err(SwarmError::ArithmeticOverflow(OWNER_RESERVATION));
            },
        };
        let count = match self.connections[connection_index].active_request_count.checked_add(1) {
            Some(v) => v,
            None => {
                return Err(SwarmError::ArithmeticOverflow(OWNER_CONNECTION_COUNT));
            },
        };
        let (missing, requested) = if endgame {
            (self.missing_blocks, self.requested_blocks)
        } else {
            let missing = match self.missing_blocks.checked_sub(1) {
                Some(v) => v,
                None => {
                    return Err(SwarmError::Invariant(ERR_MISSING_UNDERFLOW));
                },
            };
            let requested = match self.requested_blocks.checked_add(1) {
                Some(v) => v,
                None => {
                    return Err(SwarmError::ArithmeticOverflow(OWNER_REQUESTED));
                },
            };
            (missing, requested)
        };
        let keep = self.config.max_terminal_attempts_per_block.saturating_sub(1);
        proof {
            lemma_nothing_protected(self.pieces@[p as int].blocks@[b as int].attempts@);
            assert(self.pieces@[p as int].wf(self.piece_count));
            assert(self.pieces@[p as int].blocks@[b as int].key.piece == self.pieces@[p as int].index);
        }
        self.trim_block(p, b, keep, None)?;
        let ghost trimmed = self.pieces@;
        let attempt = RequestAttempt {
            id: attempt_id,
            block,
            connection,
            issued_at: now,
            disposition: RequestDisposition::Requested,
        };
        self.pieces[p].blocks[b].attempts.push(attempt);
        self.pieces[p].blocks[b].phase = BlockPhase::Requested;
        proof {
            lemma_pieces_update(old(self).pieces@, self.pieces@, p as int, self.piece_count);
        }
        self.missing_blocks = missing;
        self.requested_blocks = requested;
        self.active_attempts.push(attempt);
        self.connections[connection_index].active_request_count = count;
        proof {
            lemma_connections_update(old(self).connections@, self.connections@, connection_index as int, self.piece_count);
        }
        self.outstanding_request_bytes = outstanding;
        if self.outstanding_request_high_water < outstanding {
            self.outstanding_request_high_water = outstanding;
        }
        if endgame {
            self.endgame_assignments = self.endgame_assignments.saturating_add(1);
        } else {
            let activated = self.activate_piece(block.piece);
            match activated {
                Ok(()) => {},
                Err(e) => {
                    return Err(e);
                },
            }
        }
        proof {
            assert(self.pieces_view() == self.pieces@);
            assert(same_keys(self.pieces@, old(self).pieces@)) by {
                assert forall|x: int| 0 <= x < self.pieces@.len() implies (#[trigger] self.pieces@[x]).blocks@.len()
                    == old(self).pieces@[x].blocks@.len() && forall|y: int|
                    0 <= y < self.pieces@[x].blocks@.len() ==> (#[trigger] self.pieces@[x].blocks@[y]).key
                        == old(self).pieces@[x].blocks@[y].key by {
                    if x == p {
                        assert forall|y: int| 0 <= y < self.pieces@[x].blocks@.len() implies (
                        #[trigger] self.pieces@[x].blocks@[y]).key == old(self).pieces@[x].blocks@[y].key by {
                            assert(trimmed[x].blocks@[y].key == old(self).pieces@[x].blocks@[y].key);
                        }
                    }
                }
            }
            lemma_block_search_same_keys(self.pieces@, old(self).pieces@, block, 0);
            assert forall|other: BlockKey| other != block implies #[trigger] self.entry_of(other) == old(self).entry_of(other) by {
                lemma_block_search_same_keys(self.pieces@, old(self).pieces@, other, 0);
                old(self).lemma_block_piece(other);
                if let Some((p2, b2)) = old(self).block_position(other) {
                    assert(old(self).pieces@[p2].blocks@[b2].key == other);
                    if p2 == p {
                        assert(b2 != b);
                        assert(trimmed[p2].blocks@[b2] == old(self).pieces@[p2].blocks@[b2]);
                    }
                }
            }
        }
        Ok(RequestAssignment { attempt: attempt_id, connection, block })
    }

    /// Whether assigning `block` to `connection` goes through: attempt
    /// identifiers remain, the block is planned and missing (or, in endgame,
    /// requested from another connection only), the connection is
    /// established, no counter overflows, and the block's piece can be
    /// activated.
    pub closed spec fn assign_succeeds(&self, connection: ConnectionId, block: BlockKey, endgame: bool) -> bool {
        match self.block_position(block) {
            None => false,
            Some((p, b)) => {
                let e = self.pieces@[p].blocks@[b];
                &&& self.next_attempt_id < u64::MAX
                &&& if endgame {
                    &&& e.phase == BlockPhase::Requested
                    &&& exists|k: int| 0 <= k < e.attempts@.len() && (#[trigger] e.attempts@[k]).active()
                    &&& !exists|k: int|
                        0 <= k < e.attempts@.len() && (#[trigger] e.attempts@[k]).active() && e.attempts@[k].connection
                            == connection
                } else {
                    e.phase == BlockPhase::Missing
                }
                &&& self.connection_index(connection) is Some
                &&& self.outstanding_request_bytes + block.length <= usize::MAX
                &&& self.connections@[self.connection_index(connection)->0].active_request_count < usize::MAX
                &&& !endgame ==> self.missing_blocks >= 1 && self.requested_blocks < usize::MAX
                &&& !endgame ==> (self.pieces@[p].active || self.active_piece_bytes + self.pieces@[p].working_set_bytes
                    <= usize::MAX)
            },
        }
    }

    /// The first attempt of `attempts` named `id`, if any.
    pub open spec fn first_attempt(attempts: Seq<RequestAttempt>, id: RequestAttemptId) -> Option<int> {
        if exists|k: int| 0 <= k < attempts.len() && (#[trigger] attempts[k]).id == id {
            Some(
                choose|k: int|
                    0 <= k < attempts.len() && (#[trigger] attempts[k]).id == id && forall|j: int|
                        0 <= j < k ==> (#[trigger] attempts[j]).id != id,
            )
        } else {
            None
        }
    }

    /// A planned block lies in the planned piece its key names.
    proof fn lemma_block_piece(&self, block: BlockKey)
        requires
            self.wf(),
        ensures
            self.block_position(block) matches Some((p, b)) ==> self.has_piece(block.piece) && self.piece_position(
                block.piece,
            ) == Some(p) && 0 <= p < self.pieces@.len() && 0 <= b < self.pieces@[p].blocks@.len()
                && self.pieces@[p].blocks@[b].key == block,
    {
        lemma_block_search(self.pieces@, block, 0);
        if let Some((p, b)) = self.block_position(block) {
            assert(self.pieces@[p].wf(self.piece_count));
            lemma_found_piece(self, p, block.piece);
        }
    }

    /// Whether accepting the payload of `block` from `connection` goes
    /// through: the block is requested, the connection holds an attempt on
    /// it and some attempt is active, the counters stay in range, the settled
    /// attempt history can be trimmed around the evidence, and every active
    /// attempt can be released in turn from the active index, its
    /// connection's request count and the outstanding bytes.
    pub closed spec fn accept_succeeds(&self, connection: ConnectionId, block: BlockKey) -> bool {
        match self.block_position(block) {
            None => false,
            Some((p, b)) => {
                let e = self.pieces@[p].blocks@[b];
                match last_attempt_of(e.attempts@, connection) {
                    None => false,
                    Some(ev) => {
                        &&& e.phase == BlockPhase::Requested
                        &&& active_of(e.attempts@).len() > 0
                        &&& self.requested_blocks >= 1
                        &&& self.writing_blocks < usize::MAX
                        &&& protected_terminal_count(settled_all(e.attempts@, ev.id), Some(ev.id))
                            <= self.config.max_terminal_attempts_per_block
                        &&& releases_fit(
                            self.active_attempts@,
                            self.connections@,
                            self.outstanding_request_bytes as int,
                            block.length as int,
                            active_of(e.attempts@),
                        )
                    },
                }
            },
        }
    }

    /// Whether accepting the piece `piece` of `generation` goes through: the
    /// generation is current and its writes and hash passed, every block is
    /// stored with the payload evidence of its source, the counters stay in
    /// range, the piece was not verified before, every connection that has it
    /// still counts it wanted, and its working-set bytes can be released.
    pub closed spec fn verify_succeeds(&self, piece: u32, generation: PieceGeneration) -> bool {
        match self.piece_position(piece) {
            None => false,
            Some(p) => {
                let pc = self.pieces@[p];
                &&& generation == pc.storage.generation_view()
                &&& pc.storage.outcome_view() == PieceStorageOutcome::Verified
                &&& self.verify_rest(piece)
            },
        }
    }

    /// Whether accepting the piece `piece` goes through once its storage
    /// passed: every condition of `verify_succeeds` but the storage's.
    pub closed spec fn verify_rest(&self, piece: u32) -> bool {
        match self.piece_position(piece) {
            None => false,
            Some(p) => {
                let pc = self.pieces@[p];
                &&& forall|b: int| 0 <= b < pc.blocks@.len() ==> #[trigger] backed_contribution(pc.blocks@[b])
                &&& self.received_blocks >= pc.blocks@.len()
                &&& self.verified_blocks + pc.blocks@.len() <= usize::MAX
                &&& !pc.verified
                &&& forall|c: int|
                    0 <= c < self.connections@.len() && (#[trigger] self.connections@[c]).availability@[piece as int]
                        ==> self.connections@[c].wanted_piece_count >= 1
                &&& pc.active ==> self.active_piece_bytes >= pc.working_set_bytes
            },
        }
    }

    /// Whether resetting the piece `piece` of `generation` goes through: the
    /// generation is current and its writes or hash failed, every block is
    /// stored with the payload evidence of its source, the piece's bytes and
    /// the counters stay in range, its working-set bytes can be released, and
    /// a next generation exists.
    pub closed spec fn fail_succeeds(&self, piece: u32, generation: PieceGeneration) -> bool {
        match self.piece_position(piece) {
            None => false,
            Some(p) => {
                let pc = self.pieces@[p];
                &&& generation == pc.storage.generation_view()
                &&& pc.storage.outcome_view() == PieceStorageOutcome::Failed
                &&& self.fail_rest(piece)
            },
        }
    }

    /// Whether resetting the piece `piece` goes through once its storage
    /// failed: every condition of `fail_succeeds` but the storage outcome's.
    pub closed spec fn fail_rest(&self, piece: u32) -> bool {
        match self.piece_position(piece) {
            None => false,
            Some(p) => {
                let pc = self.pieces@[p];
                &&& forall|b: int| 0 <= b < pc.blocks@.len() ==> #[trigger] backed_contribution(pc.blocks@[b])
                &&& block_bytes(pc.blocks@) <= usize::MAX
                &&& self.received_blocks >= pc.blocks@.len()
                &&& self.missing_blocks + pc.blocks@.len() <= usize::MAX
                &&& pc.active ==> self.active_piece_bytes >= pc.working_set_bytes
                &&& pc.storage.generation_view().value() < u64::MAX
            },
        }
    }

    /// The state differs from `other` at most in its pending dials.
    pub closed spec fn same_but_dials(&self, other: &Self) -> bool {
        &&& self.config == other.config
        &&& self.piece_count == other.piece_count
        &&& self.picker == other.picker
        &&& self.pieces@ == other.pieces@
        &&& self.connections@ == other.connections@
        &&& self.active_attempts@ == other.active_attempts@
        &&& self.next_attempt_id == other.next_attempt_id
        &&& self.missing_blocks == other.missing_blocks
        &&& self.requested_blocks == other.requested_blocks
        &&& self.writing_blocks == other.writing_blocks
        &&& self.received_blocks == other.received_blocks
        &&& self.verified_blocks == other.verified_blocks
        &&& self.active_piece_bytes == other.active_piece_bytes
        &&& self.outstanding_request_bytes == other.outstanding_request_bytes
        &&& self.outstanding_request_high_water == other.outstanding_request_high_water
        &&& self.last_scheduled_connection == other.last_scheduled_connection
        &&& self.last_activated_piece == other.last_activated_piece
        &&& self.last_activated_availability == other.last_activated_availability
        &&& self.active_piece_visits == other.active_piece_visits
        &&& self.inactive_planned_piece_visits == other.inactive_planned_piece_visits
        &&& self.endgame_assignments == other.endgame_assignments
        &&& self.cancelled_request_attempts == other.cancelled_request_attempts
        &&& self.redundant_payload_bytes == other.redundant_payload_bytes
        &&& self.piece_hash_failures == other.piece_hash_failures
        &&& self.failed_piece_bytes == other.failed_piece_bytes
        &&& self.last_hash_failure_contributors == other.last_hash_failure_contributors
    }

    /// The state differs from `other` at most in its redundant-payload count.
    pub closed spec fn same_but_redundant(&self, other: &Self) -> bool {
        &&& self.config == other.config
        &&& self.piece_count == other.piece_count
        &&& self.picker == other.picker
        &&& self.pieces@ == other.pieces@
        &&& self.connections@ == other.connections@
        &&& self.pending_dials@ == other.pending_dials@
        &&& self.active_attempts@ == other.active_attempts@
        &&& self.next_attempt_id == other.next_attempt_id
        &&& self.missing_blocks == other.missing_blocks
        &&& self.requested_blocks == other.requested_blocks
        &&& self.writing_blocks == other.writing_blocks
        &&& self.received_blocks == other.received_blocks
        &&& self.verified_blocks == other.verified_blocks
        &&& self.active_piece_bytes == other.active_piece_bytes
        &&& self.outstanding_request_bytes == other.outstanding_request_bytes
        &&& self.outstanding_request_high_water == other.outstanding_request_high_water
        &&& self.last_scheduled_connection == other.last_scheduled_connection
        &&& self.last_activated_piece == other.last_activated_piece
        &&& self.last_activated_availability == other.last_activated_availability
        &&& self.active_piece_visits == other.active_piece_visits
        &&& self.inactive_planned_piece_visits == other.inactive_planned_piece_visits
        &&& self.endgame_assignments == other.endgame_assignments
        &&& self.cancelled_request_attempts == other.cancelled_request_attempts
        &&& self.piece_hash_failures == other.piece_hash_failures
        &&& self.failed_piece_bytes == other.failed_piece_bytes
        &&& self.last_hash_failure_contributors == other.last_hash_failure_contributors
    }

    /// The state differs from `other` at most in the storage of the piece
    /// at `p`.
    pub closed spec fn same_but_storage(&self, other: &Self, p: int) -> bool {
        &&& self.same_but_pieces(other)
        &&& 0 <= p < self.pieces@.len()
        &&& self.pieces@.len() == other.pieces@.len()
        &&& forall|k: int| 0 <= k < self.pieces@.len() && k != p ==> #[trigger] self.pieces@[k] == other.pieces@[k]
        &&& self.pieces@[p] == PieceState { storage: self.pieces@[p].storage, ..other.pieces@[p] }
    }

    /// Whether finishing the write of `block` for `generation` goes through:
    /// the generation is current, the block is being written and its
    /// evidence attempt is recorded, the counters stay in range, the
    /// attempt history can be trimmed, a refused write can return the block
    /// to missing and deactivate its idle piece, and the piece still awaits
    /// a write.
    pub closed spec fn finish_write_succeeds(&self, block: BlockKey, generation: PieceGeneration, accepted: bool) -> bool {
        match self.block_position(block) {
            None => false,
            Some((p, b)) => {
                let e = self.pieces@[p].blocks@[b];
                let st = self.pieces@[p].storage;
                &&& generation == st.generation_view()
                &&& match e.phase {
                    BlockPhase::Writing { source, evidence } => {
                        &&& exists|k: int| 0 <= k < e.attempts@.len() && (#[trigger] e.attempts@[k]).id == evidence
                        &&& accepted ==> protected_terminal_count(e.attempts@, Some(evidence))
                            <= self.config.max_terminal_attempts_per_block
                    },
                    _ => false,
                }
                &&& self.writing_blocks >= 1
                &&& accepted ==> self.received_blocks < usize::MAX
                &&& !accepted ==> self.missing_blocks < usize::MAX && (in_flight_count(
                    self.pieces@[p].blocks@.update(b, BlockEntry { phase: BlockPhase::Missing, ..e }),
                ) == 0 ==> !(self.pieces@[p].active && self.active_piece_bytes < self.pieces@[p].working_set_bytes))
                &&& st.completed_view() < st.expected_view()
            },
        }
    }

    /// Whether ending attempt `attempt_id` of `block` with `disposition` goes
    /// through: the block is requested and its first attempt so named is
    /// active and indexed, its connection holds a request, the counters do
    /// not leave their range, a block left without active attempt can be
    /// counted missing and its piece deactivated when idle, and the bytes
    /// are reserved.
    pub closed spec fn terminate_succeeds(&self, block: BlockKey, attempt_id: RequestAttemptId, disposition: RequestDisposition) -> bool {
        match self.block_position(block) {
            None => false,
            Some((p, b)) => {
                let e = self.pieces@[p].blocks@[b];
                match Self::first_attempt(e.attempts@, attempt_id) {
                    None => false,
                    Some(a) => {
                        let attempt = e.attempts@[a];
                        let updated = e.attempts@.update(a, RequestAttempt { disposition, ..attempt });
                        let became_missing = !exists|k: int| 0 <= k < updated.len() && (#[trigger] updated[k]).active();
                        let blocks_after = self.pieces@[p].blocks@.update(
                            b,
                            BlockEntry { phase: BlockPhase::Missing, ..e },
                        );
                        &&& e.phase == BlockPhase::Requested
                        &&& attempt.active()
                        &&& exists|j: int| 0 <= j < self.active_attempts@.len() && (#[trigger] self.active_attempts@[j]).id == attempt_id
                        &&& self.connection_index(attempt.connection) is Some
                        &&& self.connections@[self.connection_index(attempt.connection)->0].active_request_count > 0
                        &&& became_missing ==> {
                            &&& self.requested_blocks >= 1
                            &&& self.missing_blocks < usize::MAX
                            &&& in_flight_count(blocks_after) == 0 ==> !(self.pieces@[p].active && self.active_piece_bytes
                                < self.pieces@[p].working_set_bytes)
                        }
                        &&& self.outstanding_request_bytes >= block.length
                    },
                }
            },
        }
    }

    /// Ends the active attempt `attempt_id` of `block` with `disposition`,
    /// returning the block to missing when no other attempt owns it.
    fn terminate_requested(&mut self, block: BlockKey, attempt_id: RequestAttemptId, disposition: RequestDisposition) -> (r: Result<(), SwarmError>)
        requires
            old(self).wf(),
        ensures
            final(self).wf(),
            final(self).pending_dials@ == old(self).pending_dials@,
            final(self).pieces@.len() == old(self).pieces@.len(),
            final(self).connections@.len() == old(self).connections@.len(),
            final(self).next_attempt_id == old(self).next_attempt_id,
            forall|k: int| 0 <= k < final(self).connections@.len() ==> (#[trigger] final(self).connections@[k]).id == old(self).connections@[k].id,
            forall|k: int| 0 <= k < final(self).pieces@.len() ==> (#[trigger] final(self).pieces@[k]).index == old(self).pieces@[k].index,
            r is Ok ==> final(self).active_attempts@.len() == old(self).active_attempts@.len() - 1,
            r is Ok ==> exists|j: int|
                0 <= j < old(self).active_attempts@.len() && old(self).active_attempts@[j].id == attempt_id
                    && #[trigger] final(self).active_attempts@ == old(self).active_attempts@.remove(j),
            r is Ok ==> final(self).outstanding_request_bytes == old(self).outstanding_request_bytes - block.length,
            final(self).config == old(self).config,
            r is Ok <==> old(self).terminate_succeeds(block, attempt_id, disposition),
            final(self).high_water_view() >= old(self).high_water_view(),
    {
        let (p, b) = match self.find_block(block) {
            Some(pair) => pair,
            None => {
                return Err(SwarmError::UnknownBlock(block));
            },
        };
        if !matches!(self.pieces[p].blocks[b].phase, BlockPhase::Requested) {
            return Err(SwarmError::InvalidTransition(ERR_NOT_OWNER));
        }
        let a = match find_attempt(&self.pieces[p].blocks[b].attempts, attempt_id) {
            Some(a) => a,
            None => {
                return Err(SwarmError::Invariant(ERR_ATTEMPT_MISSING));
            },
        };
        proof {
            let atts = self.pieces@[p as int].blocks@[b as int].attempts@;
            assert(0 <= a < atts.len() && atts[a as int].id == attempt_id && forall|j: int|
                0 <= j < a ==> (#[trigger] atts[j]).id != attempt_id);
            let c = choose|k: int|
                0 <= k < atts.len() && (#[trigger] atts[k]).id == attempt_id && forall|j: int|
                    0 <= j < k ==> (#[trigger] atts[j]).id != attempt_id;
            if c < a {
                assert(atts[c].id != attempt_id);
            } else if c > a {
                assert(atts[a as int].id != attempt_id);
            }
            assert(Self::first_attempt(atts, attempt_id) == Some(a as int));
        }
        let attempt = self.pieces[p].blocks[b].attempts[a];
        if !matches!(attempt.disposition, RequestDisposition::Requested) {
            return Err(SwarmError::Invariant(ERR_ATTEMPT_TERMINAL));
        }
        let active_index = match self.find_active(attempt_id) {
            Some(i) => i,
            None => {
                return Err(SwarmError::Invariant(ERR_ACTIVE_INDEX));
            },
        };
        self.pieces[p].blocks[b].attempts.set(a, RequestAttempt { disposition, ..attempt });
        let became_missing = !has_active_attempt(&self.pieces[p].blocks[b].attempts);
        self.pieces[p].blocks[b].phase = if became_missing {
            BlockPhase::Missing
        } else {
            BlockPhase::Requested
        };
        proof {
            lemma_pieces_update(old(self).pieces@, self.pieces@, p as int, self.piece_count);
        }
        let keep = self.config.max_terminal_attempts_per_block;
        proof {
            lemma_nothing_protected(self.pieces@[p as int].blocks@[b as int].attempts@);
        }
        self.trim_block(p, b, keep, None)?;
        let ghost after_trim = self.pieces@[p as int].blocks@;
        proof {
            let e = old(self).pieces@[p as int].blocks@[b as int];
            let blocks_after = old(self).pieces@[p as int].blocks@.update(
                b as int,
                BlockEntry { phase: BlockPhase::Missing, ..e },
            );
            if became_missing {
                lemma_in_flight_same_phases(after_trim, blocks_after);
            }
        }
        self.active_attempts.remove(active_index);
        self.release_connection_request(attempt.connection)?;
        if became_missing {
            self.requested_blocks = match self.requested_blocks.checked_sub(1) {
                Some(v) => v,
                None => {
                    return Err(SwarmError::Invariant(ERR_REQUESTED_UNDERFLOW));
                },
            };
            self.missing_blocks = match self.missing_blocks.checked_add(1) {
                Some(v) => v,
                None => {
                    return Err(SwarmError::ArithmeticOverflow(OWNER_MISSING));
                },
            };
            self.deactivate_if_idle(p)?;
        }
        self.release_request(block.length)
    }

    /// Ends every active attempt of `connection` with `disposition`, in
    /// attempt order, and returns their blocks.
    fn release_requests_for_connection(&mut self, connection: ConnectionId, disposition: RequestDisposition) -> (r: Result<Vec<BlockKey>, SwarmError>)
        requires
            old(self).wf(),
        ensures
            final(self).wf(),
            final(self).pending_dials@ == old(self).pending_dials@,
            final(self).pieces@.len() == old(self).pieces@.len(),
            final(self).connections@.len() == old(self).connections@.len(),
            forall|k: int| 0 <= k < final(self).connections@.len() ==> (#[trigger] final(self).connections@[k]).id == old(self).connections@[k].id,
            forall|k: int| 0 <= k < final(self).pieces@.len() ==> (#[trigger] final(self).pieces@[k]).index == old(self).pieces@[k].index,
            final(self).config == old(self).config,
            r matches Ok(blocks) ==> blocks@ == old(self).active_attempts@.filter(on_connection(connection)).map_values(
                |a: RequestAttempt| a.block,
            ),
            r is Ok ==> forall|a: RequestAttempt|
                #[trigger] final(self).active_attempts@.contains(a) <==> old(self).active_attempts@.contains(a)
                    && a.connection != connection,
            (forall|a: RequestAttempt| #[trigger] old(self).active_attempts@.contains(a) ==> a.connection != connection)
                ==> r is Ok && *final(self) == *old(self),
            final(self).high_water_view() >= old(self).high_water_view(),
    {
        let ghost start = self.active_attempts@;
        let mut owned: Vec<RequestAttempt> = Vec::new();
        let mut i: usize = 0;
        proof {
            assert(start.take(0) =~= Seq::<RequestAttempt>::empty());
        }
        while i < self.active_attempts.len()
            invariant
                self.outstanding_request_high_water >= old(self).outstanding_request_high_water,
                i <= self.active_attempts@.len(),
                self.active_attempts@ == start,
                attempt_ids_distinct(start),
                owned@ == start.take(i as int).filter(on_connection(connection)),
                forall|x: int| 0 <= x < owned@.len() ==> start.contains(#[trigger] owned@[x]),
                forall|x: int, y: int|
                    0 <= x < owned@.len() && 0 <= y < start.len() && #[trigger] owned@[x] == #[trigger] start[y]
                        ==> y < i,
                attempt_ids_distinct(owned@),
            decreases self.active_attempts@.len() - i,
        {
            let attempt = self.active_attempts[i];
            proof {
                reveal(Seq::filter);
                assert(start.take(i + 1).drop_last() =~= start.take(i as int));
                assert(start.take(i + 1).last() == attempt);
                assert(start.contains(attempt));
                assert forall|x: int| 0 <= x < owned@.len() implies (#[trigger] owned@[x]).id != attempt.id by {
                    let y = choose|y: int| 0 <= y < start.len() && start[y] == owned@[x];
                    assert(y < i);
                    assert(start[y].id != start[i as int].id);
                }
            }
            if attempt.connection.same(connection) {
                owned.push(attempt);
            }
            i += 1;
        }
        proof {
            assert(start.take(i as int) =~= start);
            start.filter_lemma(on_connection(connection));
        }
        let mut released: Vec<BlockKey> = Vec::new();
        let mut k: usize = 0;
        while k < owned.len()
            invariant
                self.outstanding_request_high_water >= old(self).outstanding_request_high_water,
                self.wf(),
                self.config == old(self).config,
                k <= owned@.len(),
                start == old(self).active_attempts@,
                attempt_ids_distinct(start),
                owned@ == start.filter(on_connection(connection)),
                forall|x: int| 0 <= x < owned@.len() ==> start.contains(#[trigger] owned@[x]),
                forall|x: int| 0 <= x < owned@.len() ==> (#[trigger] owned@[x]).connection == connection,
                forall|a: RequestAttempt| start.contains(a) && a.connection == connection ==> #[trigger] owned@.contains(a),
                attempt_ids_distinct(owned@),
                released@ == owned@.take(k as int).map_values(|a: RequestAttempt| a.block),
                forall|a: RequestAttempt|
                    #[trigger] self.active_attempts@.contains(a) <==> start.contains(a) && !owned@.take(k as int).contains(a),
                self.pending_dials@ == old(self).pending_dials@,
                self.pieces@.len() == old(self).pieces@.len(),
                self.connections@.len() == old(self).connections@.len(),
                forall|x: int| 0 <= x < self.connections@.len() ==> (#[trigger] self.connections@[x]).id == old(self).connections@[x].id,
                forall|x: int| 0 <= x < self.pieces@.len() ==> (#[trigger] self.pieces@[x]).index == old(self).pieces@[x].index,
                k == 0 ==> *self == *old(self),
            decreases owned@.len() - k,
        {
            let attempt = owned[k];
            let ghost current = self.active_attempts@;
            self.terminate_requested(attempt.block, attempt.id, disposition)?;
            proof {
                let j = choose|j: int|
                    0 <= j < current.len() && current[j].id == attempt.id
                        && #[trigger] self.active_attempts@ == current.remove(j);
                assert(current.contains(current[j]));
                assert(start.contains(current[j]));
                let x = choose|x: int| 0 <= x < start.len() && start[x] == current[j];
                let y = choose|y: int| 0 <= y < start.len() && start[y] == attempt;
                assert(x == y);
                assert(current[j] == attempt);
                lemma_remove_distinct(current, j);
                assert(owned@.take(k + 1) =~= owned@.take(k as int).push(attempt));
                assert forall|a: RequestAttempt|
                    #[trigger] self.active_attempts@.contains(a) <==> start.contains(a) && !owned@.take(k + 1).contains(a) by {
                    if a == attempt {
                        assert(owned@.take(k + 1)[k as int] == a);
                    }
                    if owned@.take(k as int).contains(a) {
                        let z = choose|z: int| 0 <= z < k && #[trigger] owned@.take(k as int)[z] == a;
                        assert(owned@.take(k + 1)[z] == a);
                    }
                    if owned@.take(k + 1).contains(a) && a != attempt {
                        let z = choose|z: int| 0 <= z < k + 1 && #[trigger] owned@.take(k + 1)[z] == a;
                        assert(z != k);
                        assert(owned@.take(k as int)[z] == a);
                    }
                }
            }
            released.push(attempt.block);
            proof {
                assert(released@ =~= owned@.take(k + 1).map_values(|a: RequestAttempt| a.block));
            }
            k += 1;
        }
        proof {
            assert(owned@.take(k as int) =~= owned@);
            if forall|a: RequestAttempt| #[trigger] old(self).active_attempts@.contains(a) ==> a.connection != connection {
                if owned@.len() > 0 {
                    assert(start.contains(owned@[0]));
                }
            }
        }
        Ok(released)
    }

    /// Connection identifiers in order, starting after the connection that
    /// was scheduled last.
    fn ordered_connection_ids(&self) -> (r: Vec<ConnectionId>)
        requires
            self.wf(),
        ensures
            r@.len() == self.connections@.len(),
            forall|k: int|
                0 <= k < r@.len() ==> #[trigger] r@[k] == self.connections@[rotated(self.rotation_start(), k, r@.len() as int)].id,
            self.rotation_start() < self.connections@.len() || self.rotation_start() == 0,
    {
        let n = self.connections.len();
        let mut start: usize = 0;
        if let Some(last) = self.last_scheduled_connection {
            let mut i: usize = 0;
            while i < n
                invariant_except_break
                    start == 0,
                    forall|j: int| 0 <= j < i ==> (#[trigger] self.connections@[j]).id != last,
                invariant
                    n == self.connections@.len(),
                    i <= n,
                    self.wf(),
                    self.last_scheduled_connection == Some(last),
                ensures
                    start == self.rotation_start(),
                decreases n - i,
            {
                if self.connections[i].id.same(last) {
                    start = if i + 1 < n {
                        i + 1
                    } else {
                        0
                    };
                    proof {
                        lemma_connection_index(self, last, i as int);
                    }
                    break ;
                }
                i += 1;
                proof {
                    if i == n && self.connection_index(last) is Some {
                        let j = self.connection_index(last)->0;
                        assert(self.connections_view() == self.connections@);
                        assert(self.connections@[j].id == last);
                    }
                }
            }
        }
        assert(start == self.rotation_start());
        let mut ids: Vec<ConnectionId> = Vec::new();
        let mut k: usize = 0;
        while k < n
            invariant
                n == self.connections@.len(),
                k <= n,
                start < n || start == 0,
                ids@.len() == k,
                forall|x: int| 0 <= x < k ==> #[trigger] ids@[x] == self.connections@[rotated(start as int, x, n as int)].id,
            decreases n - k,
        {
            let j = if k < n - start {
                start + k
            } else {
                k - (n - start)
            };
            ids.push(self.connections[j].id);
            k += 1;
        }
        ids
    }

    /// The first missing block of the first requestable active piece that
    /// the connection at `c` may be asked for; counts each piece visited.
    fn next_active_block_for_connection(&mut self, c: usize) -> (r: Option<BlockKey>)
        requires
            old(self).wf(),
            c < old(self).connections@.len(),
        ensures
            r is None ==> forall|p: int| !#[trigger] old(self).active_offer(c as int, p),
            r matches Some(k) ==> exists|p: int, b: int|
                #![trigger old(self).active_offer(c as int, p), is_first_missing(old(self).pieces@[p].blocks@, b)]
                old(self).active_offer(c as int, p) && is_first_missing(old(self).pieces@[p].blocks@, b)
                    && k == old(self).pieces@[p].blocks@[b].key && forall|q: int|
                    q < p ==> !#[trigger] old(self).active_offer(c as int, q),
            final(self).wf(),
            final(self).pieces@ == old(self).pieces@,
            final(self).connections@ == old(self).connections@,
            final(self).missing_blocks == old(self).missing_blocks,
            final(self).outstanding_request_bytes == old(self).outstanding_request_bytes,
            final(self).pending_dials@ == old(self).pending_dials@,
            final(self).next_attempt_id == old(self).next_attempt_id,
            final(self).active_attempts@ == old(self).active_attempts@,
            final(self).config == old(self).config,
            final(self).high_water_view() >= old(self).high_water_view(),
    {
        let mut p: usize = 0;
        while p < self.pieces.len()
            invariant
                self.outstanding_request_high_water >= old(self).outstanding_request_high_water,
                self.active_attempts@ == old(self).active_attempts@,
                self.wf(),
                self.config == old(self).config,
                c < self.connections@.len(),
                p <= self.pieces@.len(),
                self.pieces@ == old(self).pieces@,
                self.connections@ == old(self).connections@,
                self.missing_blocks == old(self).missing_blocks,
                self.outstanding_request_bytes == old(self).outstanding_request_bytes,
                self.pending_dials@ == old(self).pending_dials@,
                self.next_attempt_id == old(self).next_attempt_id,
                forall|q: int| q < p ==> !#[trigger] old(self).active_offer(c as int, q),
            decreases self.pieces@.len() - p,
        {
            proof {
                assert(old(self).pieces_view() == old(self).pieces@);
                assert(old(self).connections_view() == old(self).connections@);
            }
            if self.pieces[p].active {
                if let Some(b) = first_missing_in(&self.pieces[p]) {
                    self.active_piece_visits = self.active_piece_visits.saturating_add(1);
                    if self.connections[c].can_request_piece(self.pieces[p].index as usize) {
                        assert(old(self).active_offer(c as int, p as int));
                        return Some(self.pieces[p].blocks[b].key);
                    }
                }
            }
            assert(!old(self).active_offer(c as int, p as int));
            p += 1;
        }
        assert forall|q: int| !#[trigger] old(self).active_offer(c as int, q) by {
            if 0 <= q < self.pieces@.len() {
                assert(q < p);
            }
        }
        None
    }

    /// Whether the piece at `p` is active, has a missing block, and the
    /// connection at `c` may be asked for it.
    pub open spec fn active_offer(&self, c: int, p: int) -> bool {
        &&& 0 <= p < self.pieces_view().len()
        &&& self.pieces_view()[p].active
        &&& has_missing(self.pieces_view()[p].blocks@)
        &&& self.connections_view()[c].may_request(self.pieces_view()[p].index as int)
    }

    /// The block fits in the outstanding-byte budget.
    fn request_budget_allows(&self, block: BlockKey) -> (r: bool)
        ensures
            r == (self.outstanding_request_bytes + block.length <= self.config.max_outstanding_request_bytes),
    {
        match self.outstanding_request_bytes.checked_add(block.length as usize) {
            Some(reserved) => reserved <= self.config.max_outstanding_request_bytes,
            None => false,
        }
    }

    pub fn connection_request_count(&self, connection: ConnectionId) -> (r: usize)
        requires
            self.wf(),
        ensures
            self.connection_index(connection) matches Some(i) ==> r == self.connections_view()[i].active_request_count,
            self.connection_index(connection) is None ==> r == 0,
    {
        match self.find_connection(connection) {
            Some(i) => {
                proof {
                    lemma_connection_index(self, connection, i as int);
                }
                self.connections[i].active_request_count
            },
            None => 0,
        }
    }

    /// Requestable active pieces (active, with a missing block) and the
    /// blocks they span, held at `usize::MAX`.
    fn requestable_active(&self) -> (r: (usize, usize))
        ensures
            r.0 == requestable_count(self.pieces_view()),
            r.1 == saturate(requestable_blocks(self.pieces_view())),
    {
        let mut pieces: usize = 0;
        let mut blocks: usize = 0;
        let mut p: usize = 0;
        proof {
            assert(self.pieces@.take(0) =~= Seq::<PieceState>::empty());
        }
        while p < self.pieces.len()
            invariant
                p <= self.pieces@.len(),
                self.pieces_view() == self.pieces@,
                pieces == requestable_count(self.pieces@.take(p as int)),
                pieces <= p,
                blocks == saturate(requestable_blocks(self.pieces@.take(p as int))),
            decreases self.pieces@.len() - p,
        {
            proof {
                assert(self.pieces@.take(p + 1).drop_last() =~= self.pieces@.take(p as int));
                assert(self.pieces@.take(p + 1).last() == self.pieces@[p as int]);
            }
            let missing = first_missing_in(&self.pieces[p]);
            proof {
                if let Some(b) = missing {
                    assert(self.pieces@[p as int].blocks@[b as int].phase == BlockPhase::Missing);
                }
            }
            if self.pieces[p].active && missing.is_some() {
                pieces += 1;
                blocks = blocks.saturating_add(self.pieces[p].blocks.len());
            }
            p += 1;
        }
        proof {
            assert(self.pieces@.take(p as int) =~= self.pieces@);
        }
        (pieces, blocks)
    }

    /// The blocks that the requestable active pieces (active, with a
    /// missing block) span, held at `usize::MAX`.
    pub fn requestable_active_blocks(&self) -> (r: usize)
        ensures
            r == saturate(requestable_blocks(self.pieces_view())),
    {
        self.requestable_active().1
    }

    fn active_piece_count(&self) -> (r: usize)
        ensures
            r == active_count(self.pieces_view()),
            r <= self.pieces_view().len(),
    {
        let mut n: usize = 0;
        let mut p: usize = 0;
        proof {
            assert(self.pieces@.take(0) =~= Seq::<PieceState>::empty());
        }
        while p < self.pieces.len()
            invariant
                p <= self.pieces@.len(),
                self.pieces_view() == self.pieces@,
                n == active_count(self.pieces@.take(p as int)),
                n <= p,
            decreases self.pieces@.len() - p,
        {
            proof {
                assert(self.pieces@.take(p + 1).drop_last() =~= self.pieces@.take(p as int));
                assert(self.pieces@.take(p + 1).last() == self.pieces@[p as int]);
            }
            if self.pieces[p].active {
                n += 1;
            }
            p += 1;
        }
        proof {
            assert(self.pieces@.take(p as int) =~= self.pieces@);
        }
        n
    }

    /// Whether `piece` may join the active working set now (see
    /// `may_activate`).
    pub fn can_activate_piece(&self, piece: usize) -> (r: bool)
        requires
            self.wf(),
        ensures
            r == self.may_activate(piece),
    {
        let active = self.active_piece_count();
        if active == 0 {
            return true;
        }
        if active >= self.config.max_active_pieces {
            return false;
        }
        if piece > u32::MAX as usize {
            return false;
        }
        let p = match self.find_piece(piece as u32) {
            Some(p) => p,
            None => {
                proof {
                    assert(!self.has_piece(piece as u32));
                }
                return false;
            },
        };
        proof {
            lemma_piece_position(self, piece as u32, p as int);
        }
        let pressure = match self.connections.len().checked_mul(3) {
            Some(v) => v,
            None => usize::MAX,
        } / 2;
        let (requestable_pieces, requestable_blocks) = self.requestable_active();
        if requestable_pieces > pressure || requestable_blocks > MAX_REQUESTABLE_ACTIVE_BLOCKS {
            return false;
        }
        match self.active_piece_bytes.checked_add(self.pieces[p].working_set_bytes) {
            Some(bytes) => bytes <= self.config.max_active_piece_bytes,
            None => false,
        }
    }

    /// Position of the incomplete piece that ranks first after the piece at
    /// position `after` (or first of all).
    fn next_ranked(&self, after: Option<usize>) -> (r: Option<usize>)
        requires
            self.wf(),
            after matches Some(a) ==> a < self.pieces@.len(),
        ensures
            r matches Some(p) ==> p < self.pieces@.len(),
            r is None <==> forall|q: int| !#[trigger] self.ranked_after(q, after),
            r matches Some(b) ==> self.ranked_after(b as int, after) && forall|q: int|
                q != b && #[trigger] self.ranked_after(q, after) ==> self.picker.precedes_spec(
                    self.pieces@[b as int].index as int,
                    self.pieces@[q].index as int,
                ),
    {
        let mut best: Option<usize> = None;
        let mut p: usize = 0;
        while p < self.pieces.len()
            invariant
                self.wf(),
                p <= self.pieces@.len(),
                after matches Some(a) ==> a < self.pieces@.len(),
                best matches Some(b) ==> b < p && self.ranked_after(b as int, after),
                best is None ==> forall|q: int| q < p ==> !#[trigger] self.ranked_after(q, after),
                best matches Some(b) ==> forall|q: int|
                    q < p && q != b && #[trigger] self.ranked_after(q, after) ==> self.picker.precedes_spec(
                        self.pieces@[b as int].index as int,
                        self.pieces@[q].index as int,
                    ),
            decreases self.pieces@.len() - p,
        {
            proof {
                assert(self.pieces@[p as int].wf(self.piece_count));
                if let Some(a) = after {
                    assert(self.pieces@[a as int].wf(self.piece_count));
                }
                if let Some(b) = best {
                    assert(self.pieces@[b as int].wf(self.piece_count));
                    assert(self.pieces@[b as int].index < self.pieces@[p as int].index);
                }
            }
            let ghost previous = best;
            if !self.pieces[p].verified {
                let index = self.pieces[p].index as usize;
                let follows = match after {
                    None => true,
                    Some(a) => self.picker.precedes_pure(self.pieces[a].index as usize, index),
                };
                if follows {
                    match best {
                        None => {
                            best = Some(p);
                        },
                        Some(b) => {
                            if self.picker.precedes_pure(index, self.pieces[b].index as usize) {
                                best = Some(p);
                            }
                        },
                    }
                }
            }
            proof {
                if let Some(b) = previous {
                    let bi = self.pieces@[b as int].index as int;
                    let pi = self.pieces@[p as int].index as int;
                    if self.ranked_after(p as int, after) {
                        if self.picker.precedes_spec(pi, bi) {
                            assert forall|q: int|
                                q < p + 1 && q != p && #[trigger] self.ranked_after(q, after) implies self.picker.precedes_spec(
                                    pi,
                                    self.pieces@[q].index as int,
                                ) by {
                                if q != b {
                                    lemma_ranks_before_transitive(self.picker, pi, bi, self.pieces@[q].index as int);
                                }
                            }
                        } else {
                            lemma_ranks_before_total(self.picker, pi, bi);
                        }
                    }
                }
            }
            p += 1;
        }
        best
    }

    /// Whether the piece at `q` is unverified and ranks after the piece at
    /// `after`, if any.
    pub closed spec fn ranked_after(&self, q: int, after: Option<usize>) -> bool {
        &&& 0 <= q < self.pieces@.len()
        &&& !self.pieces@[q].verified
        &&& (after matches Some(a) ==> self.picker.precedes_spec(
            self.pieces@[a as int].index as int,
            self.pieces@[q].index as int,
        ))
    }

    /// A first assignment for an inactive planned piece, in rank order: the
    /// first piece that may activate, has a missing block within the budget,
    /// and that one of `ordered` may be asked for.
    #[verifier::rlimit(100)]
    #[verifier::spinoff_prover]
    fn next_inactive_assignment(&mut self, ordered: &Vec<ConnectionId>) -> (r: Option<(ConnectionId, BlockKey)>)
        requires
            old(self).wf(),
        ensures
            final(self).wf(),
            final(self).pieces@ == old(self).pieces@,
            final(self).connections@ == old(self).connections@,
            final(self).missing_blocks == old(self).missing_blocks,
            final(self).outstanding_request_bytes == old(self).outstanding_request_bytes,
            final(self).pending_dials@ == old(self).pending_dials@,
            final(self).next_attempt_id == old(self).next_attempt_id,
            r matches Some((c, b)) ==> final(self).outstanding_request_bytes + b.length <= final(self).config.max_outstanding_request_bytes,
            final(self).active_attempts@ == old(self).active_attempts@,
            final(self).config == old(self).config,
            old(self).inactive_choice(ordered@, r),
            final(self).high_water_view() >= old(self).high_water_view(),
    {
        proof {
            reveal(SwarmState::inactive_choice);
        }
        if self.outstanding_request_bytes >= self.config.max_outstanding_request_bytes {
            return None;
        }
        let mut visits = self.inactive_planned_piece_visits;
        let mut after: Option<usize> = None;
        let mut step: usize = 0;
        let n = self.pieces.len();
        let ghost mut seen: Set<int> = Set::empty();
        while step < n
            invariant
                self.outstanding_request_high_water >= old(self).outstanding_request_high_water,
                self.wf(),
                *self == *old(self),
                n == self.pieces@.len(),
                step <= n,
                after matches Some(a) ==> a < n,
                after is None ==> step == 0,
                self.outstanding_request_bytes < self.config.max_outstanding_request_bytes,
                seen.finite(),
                seen.len() == step,
                forall|q: int| #[trigger] seen.contains(q) <==> self.ranked_through(q, after),
                forall|q: int| self.ranked_through(q, after) ==> !#[trigger] self.inactive_offer(q, ordered@),
            decreases n - step,
        {
            let p = match self.next_ranked(after) {
                Some(p) => p,
                None => {
                    proof {
                        self.lemma_ranking_exhausted(after, ordered@);
                        assert(forall|q: int| !#[trigger] old(self).inactive_offer(q, ordered@));
                        reveal(SwarmState::inactive_choice);
                    }
                    self.inactive_planned_piece_visits = visits;
                    return None;
                },
            };
            proof {
                self.lemma_ranking_step(after, p, seen);
            }
            let ghost prior = after;
            after = Some(p);
            step += 1;
            proof {
                seen = seen.insert(p as int);
            }
            visits = visits.saturating_add(1);
            proof {
                assert(self.ranked_after(p as int, prior));
                assert(!self.pieces@[p as int].verified);
            }
            let block = match self.start_block(p) {
                Some(block) => block,
                None => {
                    proof {
                        assert(!self.inactive_offer(p as int, ordered@));
                        assert forall|q: int| self.ranked_through(q, after) implies !#[trigger] self.inactive_offer(
                            q,
                            ordered@,
                        ) by {
                            if q != p as int {
                                assert(seen.contains(q));
                                assert(self.ranked_through(q, prior));
                            }
                        }
                    }
                    continue;
                },
            };
            match self.asked_connection(ordered, self.pieces[p].index) {
                Some(id) => {
                    proof {
                        self.lemma_best_offer(prior, p as int, ordered@);
                        assert(self.startable(p as int));
                        assert(self.inactive_offer(p as int, ordered@));
                        let bk = choose|bk: int|
                            is_first_missing(self.pieces@[p as int].blocks@, bk) && block == self.pieces@[p as int].blocks@[bk].key
                                && self.outstanding_request_bytes + block.length <= self.config.max_outstanding_request_bytes;
                        assert(is_first_missing(old(self).pieces@[p as int].blocks@, bk));
                        assert(old(self).inactive_offer(p as int, ordered@));
                        reveal(SwarmState::inactive_choice);
                    }
                    self.inactive_planned_piece_visits = visits;
                    return Some((id, block));
                },
                None => {
                    proof {
                        assert(!self.inactive_offer(p as int, ordered@));
                        assert forall|q: int| self.ranked_through(q, after) implies !#[trigger] self.inactive_offer(
                            q,
                            ordered@,
                        ) by {
                            if q != p as int {
                                assert(seen.contains(q));
                                assert(self.ranked_through(q, prior));
                            }
                        }
                    }
                },
            }
        }
        proof {
            assert forall|q: int| !#[trigger] self.inactive_offer(q, ordered@) by {
                if self.inactive_offer(q, ordered@) && !seen.contains(q) {
                    vstd::set_lib::lemma_int_range(0, n as int);
                    let range = vstd::set_lib::set_int_range(0, n as int);
                    assert(seen.subset_of(range.remove(q)));
                    vstd::set_lib::lemma_len_subset(seen, range.remove(q));
                }
            }
        }
        self.inactive_planned_piece_visits = visits;
        None
    }

    /// The first missing block of the unverified piece at `p`, when the piece
    /// is inactive, may be activated and that block fits the budget.
    fn start_block(&self, p: usize) -> (r: Option<BlockKey>)
        requires
            self.wf(),
            p < self.pieces@.len(),
        ensures
            r is Some <==> self.startable(p as int) || self.pieces@[p as int].verified && self.startable_ignoring_verification(p as int),
            r matches Some(k) ==> exists|bk: int|
                is_first_missing(self.pieces@[p as int].blocks@, bk) && k == self.pieces@[p as int].blocks@[bk].key
                    && self.outstanding_request_bytes + k.length <= self.config.max_outstanding_request_bytes,
    {
        let index = self.pieces[p].index;
        if self.pieces[p].active || !self.can_activate_piece(index as usize) {
            return None;
        }
        let b = match first_missing_in(&self.pieces[p]) {
            Some(b) => b,
            None => {
                return None;
            },
        };
        let block = self.pieces[p].blocks[b].key;
        if !self.request_budget_allows(block) {
            proof {
                if self.startable_ignoring_verification(p as int) {
                    let bk = choose|bk: int|
                        is_first_missing(self.pieces@[p as int].blocks@, bk) && self.outstanding_request_bytes
                            + self.pieces@[p as int].blocks@[bk].key.length <= self.config.max_outstanding_request_bytes;
                    if bk < b {
                        assert(self.pieces@[p as int].blocks@[bk].phase != BlockPhase::Missing);
                    } else if bk > b {
                        assert(self.pieces@[p as int].blocks@[b as int].phase != BlockPhase::Missing);
                    }
                }
            }
            return None;
        }
        assert(is_first_missing(self.pieces@[p as int].blocks@, b as int));
        Some(block)
    }

    /// The first of `ordered` that is established and may be asked for `piece`.
    fn asked_connection(&self, ordered: &Vec<ConnectionId>, piece: u32) -> (r: Option<ConnectionId>)
        requires
            self.wf(),
        ensures
            r == self.first_asked(ordered@, piece),
    {
        let mut k: usize = 0;
        while k < ordered.len()
            invariant
                self.wf(),
                k <= ordered@.len(),
                forall|k2: int, c: int|
                    #![trigger self.connections@[c], ordered@[k2]]
                    0 <= k2 < k && 0 <= c < self.connections@.len() && self.connections@[c].id == ordered@[k2]
                        ==> !self.connections@[c].may_request(piece as int),
            decreases ordered@.len() - k,
        {
            if let Some(c) = self.find_connection(ordered[k]) {
                proof {
                    assert forall|c2: int|
                        0 <= c2 < self.connections@.len() && #[trigger] self.connections@[c2].id == ordered@[k as int]
                            implies c2 == c by {
                        lemma_connection_index(self, ordered@[k as int], c2);
                        lemma_connection_index(self, ordered@[k as int], c as int);
                    }
                }
                if self.connections[c].can_request_piece(piece as usize) {
                    proof {
                        self.lemma_first_asked(ordered@, piece, k as int, c as int);
                    }
                    return Some(ordered[k]);
                }
            }
            k += 1;
        }
        proof {
            if self.first_asked(ordered@, piece) is Some {
                let (k1, c1) = choose|k1: int, c1: int|
                    #![trigger self.connections@[c1], ordered[k1]]
                    0 <= k1 < ordered@.len() && 0 <= c1 < self.connections@.len() && self.connections@[c1].id
                        == ordered@[k1] && self.connections@[c1].may_request(piece as int);
                assert(!self.connections@[c1].may_request(piece as int));
            }
        }
        None
    }

    /// With no unverified piece ranked after `after`, no inactive piece can
    /// start beyond those ranked through it.
    proof fn lemma_ranking_exhausted(&self, after: Option<usize>, ordered: Seq<ConnectionId>)
        requires
            self.wf(),
            after matches Some(a) ==> a < self.pieces@.len(),
            forall|q: int| !#[trigger] self.ranked_after(q, after),
            forall|q: int| self.ranked_through(q, after) ==> !#[trigger] self.inactive_offer(q, ordered),
        ensures
            forall|q: int| !#[trigger] self.inactive_offer(q, ordered),
    {
        assert forall|q: int| !#[trigger] self.inactive_offer(q, ordered) by {
            if self.inactive_offer(q, ordered) {
                assert(!self.ranked_after(q, after));
                if let Some(a) = after {
                    if q != a as int {
                        self.lemma_distinct_indexes(q, a as int);
                        lemma_ranks_before_total(self.picker, self.pieces@[q].index as int, self.pieces@[a as int].index as int);
                    }
                    assert(self.ranked_through(q, after));
                }
            }
        }
    }

    proof fn lemma_distinct_indexes(&self, q: int, a: int)
        requires
            self.wf(),
            0 <= q < self.pieces@.len(),
            0 <= a < self.pieces@.len(),
            q != a,
        ensures
            self.pieces@[q].index != self.pieces@[a].index,
    {
        if q < a {
            assert(self.pieces@[q].index < self.pieces@[a].index);
        } else {
            assert(self.pieces@[a].index < self.pieces@[q].index);
        }
    }

    /// The piece ranked next after `after` joins those ranked through.
    proof fn lemma_ranking_step(&self, after: Option<usize>, p: usize, seen: Set<int>)
        requires
            self.wf(),
            after matches Some(a) ==> a < self.pieces@.len(),
            p < self.pieces@.len(),
            self.ranked_after(p as int, after),
            forall|q: int|
                q != p as int && #[trigger] self.ranked_after(q, after) ==> self.picker.precedes_spec(
                    self.pieces@[p as int].index as int,
                    self.pieces@[q].index as int,
                ),
            forall|q: int| #[trigger] seen.contains(q) <==> self.ranked_through(q, after),
        ensures
            !seen.contains(p as int),
            forall|q: int| #[trigger] seen.insert(p as int).contains(q) <==> self.ranked_through(q, Some(p)),
    {
        if let Some(a) = after {
            assert(!(self.picker.precedes_spec(self.pieces@[p as int].index as int, self.pieces@[a as int].index as int)
                && self.picker.precedes_spec(self.pieces@[a as int].index as int, self.pieces@[p as int].index as int)));
        }
        assert forall|q: int| #[trigger] seen.insert(p as int).contains(q) <==> self.ranked_through(q, Some(p)) by {
            if self.ranked_through(q, Some(p)) && q != p as int {
                self.lemma_distinct_indexes(q, p as int);
                if !self.ranked_after(q, after) {
                    if let Some(a) = after {
                        if q != a as int {
                            self.lemma_distinct_indexes(q, a as int);
                            lemma_ranks_before_total(
                                self.picker,
                                self.pieces@[q].index as int,
                                self.pieces@[a as int].index as int,
                            );
                        }
                    }
                }
            }
            if seen.contains(q) {
                if let Some(a) = after {
                    if q != a as int {
                        lemma_ranks_before_transitive(
                            self.picker,
                            self.pieces@[q].index as int,
                            self.pieces@[a as int].index as int,
                            self.pieces@[p as int].index as int,
                        );
                    }
                }
            }
        }
    }

    /// The piece ranked next, when it can start, ranks before every other
    /// piece that can start.
    proof fn lemma_best_offer(&self, prior: Option<usize>, p: int, ordered: Seq<ConnectionId>)
        requires
            self.wf(),
            prior matches Some(a) ==> a < self.pieces@.len(),
            0 <= p < self.pieces@.len(),
            self.ranked_after(p, prior),
            forall|q: int|
                q != p && #[trigger] self.ranked_after(q, prior) ==> self.picker.precedes_spec(
                    self.pieces@[p].index as int,
                    self.pieces@[q].index as int,
                ),
            forall|q: int| self.ranked_through(q, prior) ==> !#[trigger] self.inactive_offer(q, ordered),
        ensures
            forall|q2: int|
                q2 != p && #[trigger] self.inactive_offer(q2, ordered) ==> self.picker.precedes_spec(
                    self.pieces@[p].index as int,
                    self.pieces@[q2].index as int,
                ),
    {
        assert forall|q2: int| q2 != p && #[trigger] self.inactive_offer(q2, ordered) implies self.picker.precedes_spec(
            self.pieces@[p].index as int,
            self.pieces@[q2].index as int,
        ) by {
            assert(!self.ranked_through(q2, prior));
            if let Some(a) = prior {
                if q2 != a as int {
                    self.lemma_distinct_indexes(q2, a as int);
                    lemma_ranks_before_total(
                        self.picker,
                        self.pieces@[q2].index as int,
                        self.pieces@[a as int].index as int,
                    );
                }
            }
            assert(self.ranked_after(q2, prior));
        }
    }

    /// What a first assignment for an inactive piece gives: nothing when the
    /// outstanding bytes are at their limit or no inactive piece can start;
    /// otherwise the best-ranked inactive piece that can start, its first
    /// missing block, and the first of `ordered` that may be asked for it.
    #[verifier::opaque]
    pub closed spec fn inactive_choice(&self, ordered: Seq<ConnectionId>, r: Option<(ConnectionId, BlockKey)>) -> bool {
        &&& r is None ==> self.outstanding_request_bytes >= self.config.max_outstanding_request_bytes
            || forall|q: int| !#[trigger] self.inactive_offer(q, ordered)
        &&& r matches Some((id, blk)) ==> exists|q: int, bk: int|
            #![trigger self.inactive_offer(q, ordered), is_first_missing(self.pieces@[q].blocks@, bk)]
            self.inactive_offer(q, ordered) && is_first_missing(self.pieces@[q].blocks@, bk)
                && blk == self.pieces@[q].blocks@[bk].key && self.first_asked(ordered, self.pieces@[q].index) == Some(
                id,
            ) && forall|q2: int|
                q2 != q && #[trigger] self.inactive_offer(q2, ordered) ==> self.picker.precedes_spec(
                    self.pieces@[q].index as int,
                    self.pieces@[q2].index as int,
                )
    }

    /// Whether the unverified piece at `q` ranks at or before the piece at
    /// `last`.
    pub closed spec fn ranked_through(&self, q: int, last: Option<usize>) -> bool {
        &&& 0 <= q < self.pieces@.len()
        &&& !self.pieces@[q].verified
        &&& match last {
            None => false,
            Some(a) => q == a || self.picker.precedes_spec(self.pieces@[q].index as int, self.pieces@[a as int].index as int),
        }
    }

    /// Whether the piece at `q` is inactive, may be activated, and its first
    /// missing block fits the outstanding-byte budget.
    pub closed spec fn startable_ignoring_verification(&self, q: int) -> bool {
        let piece = self.pieces@[q];
        &&& 0 <= q < self.pieces@.len()
        &&& !piece.active
        &&& self.may_activate(piece.index as usize)
        &&& exists|bk: int|
            is_first_missing(piece.blocks@, bk) && self.outstanding_request_bytes + piece.blocks@[bk].key.length
                <= self.config.max_outstanding_request_bytes
    }

    /// Whether the unverified piece at `q` can start now.
    pub closed spec fn startable(&self, q: int) -> bool {
        &&& 0 <= q < self.pieces@.len()
        &&& !self.pieces@[q].verified
        &&& self.startable_ignoring_verification(q)
    }

    /// Whether the piece at `q` can start now for one of `ordered`.
    pub closed spec fn inactive_offer(&self, q: int, ordered: Seq<ConnectionId>) -> bool {
        &&& self.startable(q)
        &&& self.first_asked(ordered, self.pieces@[q].index) is Some
    }

    /// The first of `ordered` that is established and may be asked for `piece`.
    pub closed spec fn first_asked(&self, ordered: Seq<ConnectionId>, piece: u32) -> Option<ConnectionId> {
        if exists|k: int, c: int|
            #![trigger self.connections@[c], ordered[k]]
            0 <= k < ordered.len() && 0 <= c < self.connections@.len() && self.connections@[c].id == ordered[k]
                && self.connections@[c].may_request(piece as int) {
            let (k, c) = choose|k: int, c: int|
                #![trigger self.connections@[c], ordered[k]]
                0 <= k < ordered.len() && 0 <= c < self.connections@.len() && self.connections@[c].id == ordered[k]
                    && self.connections@[c].may_request(piece as int) && forall|k2: int, c2: int|
                    #![trigger self.connections@[c2], ordered[k2]]
                    0 <= k2 < k && 0 <= c2 < self.connections@.len() && self.connections@[c2].id == ordered[k2]
                        ==> !self.connections@[c2].may_request(piece as int);
            Some(ordered[k])
        } else {
            None
        }
    }

    proof fn lemma_first_asked(&self, ordered: Seq<ConnectionId>, piece: u32, k: int, c: int)
        requires
            0 <= k < ordered.len(),
            0 <= c < self.connections@.len(),
            self.connections@[c].id == ordered[k],
            self.connections@[c].may_request(piece as int),
            forall|k2: int, c2: int|
                #![trigger self.connections@[c2], ordered[k2]]
                0 <= k2 < k && 0 <= c2 < self.connections@.len() && self.connections@[c2].id == ordered[k2]
                    ==> !self.connections@[c2].may_request(piece as int),
        ensures
            self.first_asked(ordered, piece) == Some(ordered[k]),
    {
        let (k1, c1) = choose|k1: int, c1: int|
            #![trigger self.connections@[c1], ordered[k1]]
            0 <= k1 < ordered.len() && 0 <= c1 < self.connections@.len() && self.connections@[c1].id == ordered[k1]
                && self.connections@[c1].may_request(piece as int) && forall|k2: int, c2: int|
                #![trigger self.connections@[c2], ordered[k2]]
                0 <= k2 < k1 && 0 <= c2 < self.connections@.len() && self.connections@[c2].id == ordered[k2]
                    ==> !self.connections@[c2].may_request(piece as int);
        if k1 < k {
            assert(!self.connections@[c1].may_request(piece as int));
        } else if k1 > k {
            assert(!self.connections@[c].may_request(piece as int));
        }
    }

    /// A requested block that another connection owns and the connection at
    /// `c` may duplicate, in block order.
    fn next_endgame_block_for_connection(&self, c: usize) -> (r: Option<BlockKey>)
        requires
            self.wf(),
            c < self.connections@.len(),
        ensures
            r is None ==> forall|p: int, b: int| !#[trigger] self.endgame_offer(c as int, p, b),
            r matches Some(k) ==> exists|p: int, b: int|
                #[trigger] self.endgame_offer(c as int, p, b) && k == self.pieces_view()[p].blocks@[b].key
                    && forall|p2: int, b2: int|
                    (p2 < p || (p2 == p && b2 < b)) ==> !#[trigger] self.endgame_offer(c as int, p2, b2),
    {
        let connection = self.connections[c].id;
        let mut p: usize = 0;
        while p < self.pieces.len()
            invariant
                self.wf(),
                c < self.connections@.len(),
                p <= self.pieces@.len(),
                connection == self.connections@[c as int].id,
                self.pieces_view() == self.pieces@,
                self.connections_view() == self.connections@,
                forall|p2: int, b2: int| p2 < p ==> !#[trigger] self.endgame_offer(c as int, p2, b2),
            decreases self.pieces@.len() - p,
        {
            let mut b: usize = 0;
            while b < self.pieces[p].blocks.len()
                invariant
                    self.wf(),
                    c < self.connections@.len(),
                    p < self.pieces@.len(),
                    b <= self.pieces@[p as int].blocks@.len(),
                    connection == self.connections@[c as int].id,
                    self.pieces_view() == self.pieces@,
                    self.connections_view() == self.connections@,
                    forall|p2: int, b2: int| p2 < p ==> !#[trigger] self.endgame_offer(c as int, p2, b2),
                    forall|b2: int| b2 < b ==> !#[trigger] self.endgame_offer(c as int, p as int, b2),
                decreases self.pieces@[p as int].blocks@.len() - b,
            {
                let entry = &self.pieces[p].blocks[b];
                if matches!(entry.phase, BlockPhase::Requested) && has_active_attempt(&entry.attempts)
                    && !has_active_attempt_of(&entry.attempts, connection)
                    && self.connections[c].can_request_piece(entry.key.piece as usize) {
                    assert(self.endgame_offer(c as int, p as int, b as int));
                    return Some(entry.key);
                }
                assert(!self.endgame_offer(c as int, p as int, b as int));
                b += 1;
            }
            assert forall|b2: int| !#[trigger] self.endgame_offer(c as int, p as int, b2) by {
                if 0 <= b2 < self.pieces@[p as int].blocks@.len() {
                    assert(b2 < b);
                }
            }
            p += 1;
        }
        assert forall|p2: int, b2: int| !#[trigger] self.endgame_offer(c as int, p2, b2) by {
            if 0 <= p2 < self.pieces@.len() {
                assert(p2 < p);
            }
        }
        None
    }

    /// Whether block `b` of the piece at `p` is requested from another
    /// connection and may be duplicated by the connection at `c`.
    pub open spec fn endgame_offer(&self, c: int, p: int, b: int) -> bool {
        let e = self.pieces_view()[p].blocks@[b];
        let conn = self.connections_view()[c];
        &&& 0 <= p < self.pieces_view().len()
        &&& 0 <= b < self.pieces_view()[p].blocks@.len()
        &&& e.phase == BlockPhase::Requested
        &&& exists|k: int| 0 <= k < e.attempts@.len() && (#[trigger] e.attempts@[k]).active()
        &&& !exists|k: int|
            0 <= k < e.attempts@.len() && (#[trigger] e.attempts@[k]).active() && e.attempts@[k].connection == conn.id
        &&& conn.may_request(e.key.piece as int)
    }

    /// Refreshes every request window, fills the windows of unchoked (or
    /// Fast-allowed) connections in rotation from active pieces, then from
    /// inactive planned pieces in rank order; once no block is missing, gives
    /// each idle connection one endgame duplicate. Never lets the outstanding
    /// request bytes exceed the configured limit.
    pub fn schedule(&mut self, now: u64) -> (r: Result<Vec<RequestAssignment>, SwarmError>)
        requires
            old(self).wf(),
        ensures
            final(self).wf(),
            final(self).pending_dials_view() == old(self).pending_dials_view(),
            final(self).connections_view().len() == old(self).connections_view().len(),
            final(self).pieces_view().len() == old(self).pieces_view().len(),
            old(self).outstanding_view() <= old(self).config_view().max_outstanding_request_bytes
                ==> final(self).outstanding_view() <= final(self).config_view().max_outstanding_request_bytes,
            final(self).config_view() == old(self).config_view(),
            r matches Ok(assigned) ==> final(self).active_view() == old(self).active_view()
                + assigned@.map_values(|a: RequestAssignment| issued(a, now)),
            r matches Ok(assigned) ==> fresh_ids(assigned@, old(self).next_attempt_view(), final(self).next_attempt_view()),
            r matches Ok(assigned) ==> forall|x: int|
                0 <= x < assigned@.len() ==> (final(self).entry_of((#[trigger] assigned@[x]).block) matches Some(f)
                    && f.phase == BlockPhase::Requested),
            r matches Ok(assigned) ==> forall|x: int|
                0 <= x < assigned@.len() ==> peer_may_request(
                    old(self).connections_view(),
                    (#[trigger] assigned@[x]).connection,
                    assigned@[x].block.piece,
                ),
            r matches Ok(assigned) ==> forall|x: int|
                0 <= x < assigned@.len() && #[trigger] duplicate_at(old(self), assigned@, x) ==> final(self).missing_count()
                    == 0,
            r matches Ok(assigned) ==> (assigned@.len() == 0 ==> final(self).active_offers_exhausted()),
            r matches Ok(assigned) ==> (assigned@.len() == 0 && final(self).missing_count() == 0
                ==> final(self).endgame_exhausted()),
            final(self).high_water_view() >= old(self).high_water_view(),
    {
        let config = self.config;
        let mut c: usize = 0;
        while c < self.connections.len()
            invariant
                self.outstanding_request_high_water >= old(self).outstanding_request_high_water,
                self.wf(),
                self.config == config,
                config == old(self).config,
                c <= self.connections@.len(),
                self.pieces@ == old(self).pieces@,
                self.pending_dials@ == old(self).pending_dials@,
                self.connections@.len() == old(self).connections@.len(),
                self.outstanding_request_bytes == old(self).outstanding_request_bytes,
                self.active_attempts@ == old(self).active_attempts@,
                self.next_attempt_id == old(self).next_attempt_id,
                same_permissions(self.connections@, old(self).connections@),
            decreases self.connections@.len() - c,
        {
            let ghost before = self.connections@;
            self.connections[c].request_window.refresh(now, config);
            proof {
                lemma_connections_update(before, self.connections@, c as int, self.piece_count);
            }
            c += 1;
        }
        let ghost bounded = old(self).outstanding_request_bytes <= config.max_outstanding_request_bytes;
        let mut assignments: Vec<RequestAssignment> = Vec::new();
        proof {
            assert(old(self).active_attempts@ + assignments@.map_values(|a: RequestAssignment| issued(a, now))
                =~= old(self).active_attempts@);
        }
        loop
            invariant
                self.outstanding_request_high_water >= old(self).outstanding_request_high_water,
                self.wf(),
                self.config == config,
                config == old(self).config,
                bounded == (old(self).outstanding_request_bytes <= old(self).config.max_outstanding_request_bytes),
                self.pending_dials@ == old(self).pending_dials@,
                self.connections@.len() == old(self).connections@.len(),
                self.pieces@.len() == old(self).pieces@.len(),
                bounded ==> self.outstanding_request_bytes <= config.max_outstanding_request_bytes,
                self.active_attempts@ == old(self).active_attempts@ + assignments@.map_values(
                    |a: RequestAssignment| issued(a, now),
                ),
                fresh_ids(assignments@, old(self).next_attempt_id, self.next_attempt_id),
                same_permissions(self.connections@, old(self).connections@),
                forall|x: int| 0 <= x < assignments@.len() ==> !#[trigger] duplicate_at(old(self), assignments@, x),
                forall|blk: BlockKey|
                    !blocks_named(assignments@, blk) ==> #[trigger] self.entry_of(blk) == old(self).entry_of(blk),
                forall|x: int|
                    0 <= x < assignments@.len() ==> peer_may_request(
                        old(self).connections@,
                        (#[trigger] assignments@[x]).connection,
                        assignments@[x].block.piece,
                    ),
                forall|x: int|
                    0 <= x < assignments@.len() ==> (self.entry_of((#[trigger] assignments@[x]).block) matches Some(f)
                        && f.phase == BlockPhase::Requested),
            ensures
                assignments@.len() == 0 ==> self.active_offers_exhausted(),
            decreases self.missing_blocks,
        {
            let ghost round_start = self.missing_blocks;
            let ghost round_state = *self;
            let ordered = self.eligible_connections();
            if ordered.len() == 0 {
                proof {
                    assert forall|c: int|
                        0 <= c < self.connections@.len() && may_be_scheduled(#[trigger] self.connections@[c]) implies first_offer_blocked(
                        self.pieces@,
                        self.connections@,
                        self.outstanding_request_bytes as int,
                        self.config.max_outstanding_request_bytes as int,
                        self.connections@[c].id,
                    ) by {
                        self.lemma_eligible_contains(c);
                    }
                }
                break ;
            }
            let mut progress = false;
            let mut k: usize = 0;
            while k < ordered.len()
                invariant
                    self.outstanding_request_high_water >= old(self).outstanding_request_high_water,
                    self.wf(),
                    self.config == config,
                    config == old(self).config,
                    bounded == (old(self).outstanding_request_bytes <= old(self).config.max_outstanding_request_bytes),
                    self.pending_dials@ == old(self).pending_dials@,
                    self.connections@.len() == old(self).connections@.len(),
                    self.pieces@.len() == old(self).pieces@.len(),
                    bounded ==> self.outstanding_request_bytes <= config.max_outstanding_request_bytes,
                    self.active_attempts@ == old(self).active_attempts@ + assignments@.map_values(
                        |a: RequestAssignment| issued(a, now),
                    ),
                    fresh_ids(assignments@, old(self).next_attempt_id, self.next_attempt_id),
                    same_permissions(self.connections@, old(self).connections@),
                    forall|x: int| 0 <= x < assignments@.len() ==> !#[trigger] duplicate_at(old(self), assignments@, x),
                    forall|blk: BlockKey|
                        !blocks_named(assignments@, blk) ==> #[trigger] self.entry_of(blk) == old(self).entry_of(blk),
                    forall|x: int|
                        0 <= x < assignments@.len() ==> peer_may_request(
                            old(self).connections@,
                            (#[trigger] assignments@[x]).connection,
                            assignments@[x].block.piece,
                        ),
                    forall|x: int|
                        0 <= x < assignments@.len() ==> (self.entry_of((#[trigger] assignments@[x]).block) matches Some(f)
                            && f.phase == BlockPhase::Requested),
                    k <= ordered@.len(),
                    self.missing_blocks <= round_start,
                    progress ==> self.missing_blocks < round_start,
                    progress ==> assignments@.len() > 0,
                    ordered@ == round_state.eligible_prefix(round_state.connections@.len() as int),
                    round_state.wf(),
                    assignments@.len() == 0 ==> self.pieces@ == round_state.pieces@ && self.connections@
                        == round_state.connections@ && self.outstanding_request_bytes == round_state.outstanding_request_bytes,
                    assignments@.len() == 0 ==> forall|x: int|
                        0 <= x < k ==> first_offer_blocked(
                            self.pieces@,
                            self.connections@,
                            self.outstanding_request_bytes as int,
                            config.max_outstanding_request_bytes as int,
                            #[trigger] ordered@[x],
                        ),
                decreases ordered@.len() - k,
            {
                let id = ordered[k];
                k += 1;
                let c = match self.find_connection(id) {
                    Some(c) => c,
                    None => {
                        proof {
                            assert(self.connections_view() == self.connections@);
                            assert(first_offer_blocked(
                                self.pieces@,
                                self.connections@,
                                self.outstanding_request_bytes as int,
                                config.max_outstanding_request_bytes as int,
                                ordered@[k - 1],
                            )) by {
                                assert forall|c2: int| 0 <= c2 < self.connections@.len() implies #[trigger] self.connections@[c2].id
                                    != id by {
                                    assert(self.connections_view()[c2].id == self.connections@[c2].id);
                                }
                            }
                        }
                        continue;
                    },
                };
                let ghost pre_pick = *self;
                let picked = self.next_active_block_for_connection(c);
                proof {
                    lemma_same_entries(&pre_pick, self);
                }
                let block = match picked {
                    Some(b) => b,
                    None => {
                        proof {
                            pre_pick.lemma_first_offer_none(c as int);
                        }
                        continue;
                    },
                };
                if !self.request_budget_allows(block) {
                    proof {
                        pre_pick.lemma_first_offer_over(c as int, block);
                    }
                    continue;
                }
                proof {
                    pre_pick.lemma_active_block_allowed(c as int, id, block);
                }
                let ghost pre_assign = self.connections@;
                let ghost pre_state = *self;
                let assignment = self.assign(id, block, now, false)?;
                proof {
                    pre_state.lemma_assign_takes_missing(id, block);
                    lemma_fresh_block(pre_state, old(self), assignments@, block);
                }
                let ghost before_push = assignments@;
                assignments.push(assignment);
                proof {
                    assert(assignments@.map_values(|a: RequestAssignment| issued(a, now)) =~= before_push.map_values(
                        |a: RequestAssignment| issued(a, now),
                    ).push(issued(assignment, now)));
                    assert(assignments@[assignments@.len() - 1] == assignment);
                    lemma_permission_kept(pre_assign, old(self).connections@, id, block.piece);
                    lemma_push_fresh(pre_state, old(self), *self, before_push, assignments@, assignment);
                    assert forall|x: int| 0 <= x < assignments@.len() implies peer_may_request(
                        old(self).connections@,
                        (#[trigger] assignments@[x]).connection,
                        assignments@[x].block.piece,
                    ) by {
                        if x < before_push.len() {
                            assert(assignments@[x] == before_push[x]);
                        }
                    }
                    assert forall|x: int| 0 <= x < assignments@.len() implies (self.entry_of(
                        (#[trigger] assignments@[x]).block,
                    ) matches Some(f) && f.phase == BlockPhase::Requested) by {
                        if x < before_push.len() {
                            assert(assignments@[x] == before_push[x]);
                        }
                    }
                }
                let ghost before_last = *self;
                self.last_scheduled_connection = Some(id);
                proof {
                    lemma_same_entries(&before_last, self);
                }
                progress = true;
            }
            if progress {
                continue;
            }
            let ghost pre_pick = *self;
            let chosen = self.next_inactive_assignment(&ordered);
            proof {
                lemma_same_entries(&pre_pick, self);
            }
            let (id, block) = match chosen {
                Some(pair) => pair,
                None => {
                    proof {
                        if assignments@.len() == 0 {
                            assert forall|c: int|
                                0 <= c < self.connections@.len() && may_be_scheduled(#[trigger] self.connections@[c])
                                    implies first_offer_blocked(
                                self.pieces@,
                                self.connections@,
                                self.outstanding_request_bytes as int,
                                self.config.max_outstanding_request_bytes as int,
                                self.connections@[c].id,
                            ) by {
                                round_state.lemma_eligible_contains(c);
                                let x = choose|x: int|
                                    0 <= x < ordered@.len() && ordered@[x] == self.connections@[c].id;
                                assert(first_offer_blocked(
                                    self.pieces@,
                                    self.connections@,
                                    self.outstanding_request_bytes as int,
                                    config.max_outstanding_request_bytes as int,
                                    ordered@[x],
                                ));
                            }
                        }
                    }
                    break ;
                },
            };
            proof {
                pre_pick.lemma_inactive_block_allowed(ordered@, id, block);
            }
            let ghost pre_assign = self.connections@;
            let ghost pre_state = *self;
            let assignment = self.assign(id, block, now, false)?;
            proof {
                pre_state.lemma_assign_takes_missing(id, block);
                lemma_fresh_block(pre_state, old(self), assignments@, block);
            }
            let ghost before_push = assignments@;
            assignments.push(assignment);
            proof {
                assert(assignments@.map_values(|a: RequestAssignment| issued(a, now)) =~= before_push.map_values(
                    |a: RequestAssignment| issued(a, now),
                ).push(issued(assignment, now)));
                assert(assignments@[assignments@.len() - 1] == assignment);
                lemma_permission_kept(pre_assign, old(self).connections@, id, block.piece);
                lemma_push_fresh(pre_state, old(self), *self, before_push, assignments@, assignment);
                assert forall|x: int| 0 <= x < assignments@.len() implies peer_may_request(
                    old(self).connections@,
                    (#[trigger] assignments@[x]).connection,
                    assignments@[x].block.piece,
                ) by {
                    if x < before_push.len() {
                        assert(assignments@[x] == before_push[x]);
                    }
                }
                assert forall|x: int| 0 <= x < assignments@.len() implies (self.entry_of(
                    (#[trigger] assignments@[x]).block,
                ) matches Some(f) && f.phase == BlockPhase::Requested) by {
                    if x < before_push.len() {
                        assert(assignments@[x] == before_push[x]);
                    }
                }
            }
            let ghost before_last = *self;
            self.last_scheduled_connection = Some(id);
            proof {
                lemma_same_entries(&before_last, self);
            }
        }
        if self.missing_blocks == 0 {
            let ordered = self.ordered_connection_ids();
            let ghost endgame_start = *self;
            let mut k: usize = 0;
            while k < ordered.len()
                invariant
                    self.outstanding_request_high_water >= old(self).outstanding_request_high_water,
                    self.wf(),
                    self.config == config,
                    config == old(self).config,
                    bounded == (old(self).outstanding_request_bytes <= old(self).config.max_outstanding_request_bytes),
                    self.pending_dials@ == old(self).pending_dials@,
                    self.connections@.len() == old(self).connections@.len(),
                    self.pieces@.len() == old(self).pieces@.len(),
                    bounded ==> self.outstanding_request_bytes <= config.max_outstanding_request_bytes,
                    self.active_attempts@ == old(self).active_attempts@ + assignments@.map_values(
                        |a: RequestAssignment| issued(a, now),
                    ),
                    fresh_ids(assignments@, old(self).next_attempt_id, self.next_attempt_id),
                    same_permissions(self.connections@, old(self).connections@),
                    self.missing_blocks == 0,
                    assignments@.len() == 0 ==> self.active_offers_exhausted(),
                    assignments@.len() == 0 ==> *self == endgame_start,
                    ordered@.len() == endgame_start.connections@.len(),
                    forall|x: int|
                        0 <= x < ordered@.len() ==> #[trigger] ordered@[x] == endgame_start.connections@[rotated(
                            endgame_start.rotation_start(),
                            x,
                            ordered@.len() as int,
                        )].id,
                    endgame_start.rotation_start() < endgame_start.connections@.len()
                        || endgame_start.rotation_start() == 0,
                    endgame_start.wf(),
                    assignments@.len() == 0 ==> forall|x: int|
                        0 <= x < k ==> self.endgame_blocked_for(#[trigger] ordered@[x]),
                    forall|x: int|
                        0 <= x < assignments@.len() ==> peer_may_request(
                            old(self).connections@,
                            (#[trigger] assignments@[x]).connection,
                            assignments@[x].block.piece,
                        ),
                    forall|x: int|
                        0 <= x < assignments@.len() ==> (self.entry_of((#[trigger] assignments@[x]).block) matches Some(f)
                            && f.phase == BlockPhase::Requested),
                    k <= ordered@.len(),
                decreases ordered@.len() - k,
            {
                let id = ordered[k];
                k += 1;
                let c = match self.find_connection(id) {
                    Some(c) => c,
                    None => {
                        proof {
                            assert(self.endgame_blocked_for(ordered@[k - 1])) by {
                                assert forall|c2: int| 0 <= c2 < self.connections@.len() implies #[trigger] self.connections@[c2].id
                                    != id by {
                                    assert(self.connections_view()[c2].id == self.connections@[c2].id);
                                }
                            }
                        }
                        continue;
                    },
                };
                proof {
                    lemma_connection_index(self, id, c as int);
                }
                if self.connections[c].active_request_count != 0 {
                    proof {
                        self.lemma_endgame_blocked_busy(c as int);
                    }
                    continue;
                }
                let block = match self.next_endgame_block_for_connection(c) {
                    Some(b) => b,
                    None => {
                        proof {
                            self.lemma_endgame_blocked_none(c as int);
                        }
                        continue;
                    },
                };
                if !self.request_budget_allows(block) {
                    proof {
                        self.lemma_endgame_blocked_over(c as int, block);
                    }
                    continue;
                }
                proof {
                    self.lemma_endgame_block_allowed(c as int, id, block);
                }
                let ghost pre_assign = self.connections@;
                let assignment = self.assign(id, block, now, true)?;
                let ghost before_push = assignments@;
                assignments.push(assignment);
                proof {
                    assert(assignments@.map_values(|a: RequestAssignment| issued(a, now)) =~= before_push.map_values(
                        |a: RequestAssignment| issued(a, now),
                    ).push(issued(assignment, now)));
                    assert(assignments@[assignments@.len() - 1] == assignment);
                    lemma_permission_kept(pre_assign, old(self).connections@, id, block.piece);
                    assert forall|x: int| 0 <= x < assignments@.len() implies peer_may_request(
                        old(self).connections@,
                        (#[trigger] assignments@[x]).connection,
                        assignments@[x].block.piece,
                    ) by {
                        if x < before_push.len() {
                            assert(assignments@[x] == before_push[x]);
                        }
                    }
                    assert forall|x: int| 0 <= x < assignments@.len() implies (self.entry_of(
                        (#[trigger] assignments@[x]).block,
                    ) matches Some(f) && f.phase == BlockPhase::Requested) by {
                        if x < before_push.len() {
                            assert(assignments@[x] == before_push[x]);
                        }
                    }
                }
                self.last_scheduled_connection = Some(id);
            }
            proof {
                if assignments@.len() == 0 {
                    assert forall|c: int|
                        0 <= c < self.connections@.len() && (#[trigger] self.connections@[c]).active_request_count == 0
                            implies self.first_endgame_blocked(c) by {
                        let n = self.connections@.len() as int;
                        let st = endgame_start.rotation_start();
                        let x = if c >= st {
                            c - st
                        } else {
                            c + (n - st)
                        };
                        assert(rotated(st, x, n) == c);
                        assert(ordered@[x] == self.connections@[c].id);
                        assert(self.endgame_blocked_for(ordered@[x]));
                    }
                }
            }
        }
        Ok(assignments)
    }

    /// The identifier the next request attempt receives.
    pub closed spec fn next_attempt_view(&self) -> u64 {
        self.next_attempt_id
    }

    /// Where the rotation of connections starts: just after the connection
    /// scheduled last, wrapping around; at the first when there is none.
    pub closed spec fn rotation_start(&self) -> int {
        match self.last_scheduled_connection {
            Some(last) => match self.connection_index(last) {
                Some(i) => if i + 1 < self.connections@.len() {
                    i + 1
                } else {
                    0
                },
                None => 0,
            },
            None => 0,
        }
    }

    /// The eligible connections among the first `k` of the rotation.
    pub closed spec fn eligible_prefix(&self, k: int) -> Seq<ConnectionId>
        decreases k,
    {
        if k <= 0 {
            Seq::empty()
        } else {
            let state = self.connections@[rotated(self.rotation_start(), k - 1, self.connections@.len() as int)];
            if may_be_scheduled(state) {
                self.eligible_prefix(k - 1).push(state.id)
            } else {
                self.eligible_prefix(k - 1)
            }
        }
    }

    /// The rotation of connections that are unchoked (or have Fast-allowed
    /// work while choked) and below their request target.
    /// A block offered to the connection at `c` from an active piece is one
    /// it may be asked for.
    proof fn lemma_active_block_allowed(&self, c: int, id: ConnectionId, block: BlockKey)
        requires
            self.wf(),
            0 <= c < self.connections@.len(),
            self.connections@[c].id == id,
            exists|p: int, b: int|
                #![trigger self.active_offer(c, p), is_first_missing(self.pieces@[p].blocks@, b)]
                self.active_offer(c, p) && is_first_missing(self.pieces@[p].blocks@, b) && block
                    == self.pieces@[p].blocks@[b].key,
        ensures
            peer_may_request(self.connections@, id, block.piece),
    {
        let (p, b) = choose|p: int, b: int|
            #![trigger self.active_offer(c, p), is_first_missing(self.pieces@[p].blocks@, b)]
            self.active_offer(c, p) && is_first_missing(self.pieces@[p].blocks@, b) && block
                == self.pieces@[p].blocks@[b].key;
        assert(self.pieces@[p].wf(self.piece_count));
        assert(self.connections_view() == self.connections@);
        assert(self.connections@[c].may_request(block.piece as int));
    }

    /// A duplicate offered to the connection at `c` in endgame is one it may
    /// be asked for.
    proof fn lemma_endgame_block_allowed(&self, c: int, id: ConnectionId, block: BlockKey)
        requires
            0 <= c < self.connections@.len(),
            self.connections@[c].id == id,
            exists|p: int, b: int| #[trigger] self.endgame_offer(c, p, b) && block == self.pieces_view()[p].blocks@[b].key,
        ensures
            peer_may_request(self.connections@, id, block.piece),
    {
        let (p, b) = choose|p: int, b: int| #[trigger] self.endgame_offer(c, p, b) && block == self.pieces_view()[p].blocks@[b].key;
        assert(self.connections_view() == self.connections@);
        assert(self.connections@[c].may_request(block.piece as int));
    }

    /// The connection that asks first for a piece may be asked for it.
    proof fn lemma_first_asked_allowed(&self, ordered: Seq<ConnectionId>, piece: u32)
        ensures
            self.first_asked(ordered, piece) matches Some(id) ==> peer_may_request(self.connections@, id, piece),
    {
        if exists|k: int, c: int|
            #![trigger self.connections@[c], ordered[k]]
            0 <= k < ordered.len() && 0 <= c < self.connections@.len() && self.connections@[c].id == ordered[k]
                && self.connections@[c].may_request(piece as int) {
            let (k, c) = choose|k: int, c: int|
                #![trigger self.connections@[c], ordered[k]]
                0 <= k < ordered.len() && 0 <= c < self.connections@.len() && self.connections@[c].id == ordered[k]
                    && self.connections@[c].may_request(piece as int);
            self.lemma_first_asked_least(ordered, piece, k, c);
        }
    }

    /// Below any connection of `ordered` that may be asked for `piece` lies a
    /// first one.
    proof fn lemma_first_asked_least(&self, ordered: Seq<ConnectionId>, piece: u32, k: int, c: int)
        requires
            0 <= k < ordered.len(),
            0 <= c < self.connections@.len(),
            self.connections@[c].id == ordered[k],
            self.connections@[c].may_request(piece as int),
        ensures
            exists|k1: int, c1: int|
                #![trigger self.connections@[c1], ordered[k1]]
                0 <= k1 < ordered.len() && 0 <= c1 < self.connections@.len() && self.connections@[c1].id == ordered[k1]
                    && self.connections@[c1].may_request(piece as int) && forall|k2: int, c2: int|
                    #![trigger self.connections@[c2], ordered[k2]]
                    0 <= k2 < k1 && 0 <= c2 < self.connections@.len() && self.connections@[c2].id == ordered[k2]
                        ==> !self.connections@[c2].may_request(piece as int),
        decreases k,
    {
        if exists|k2: int, c2: int|
            #![trigger self.connections@[c2], ordered[k2]]
            0 <= k2 < k && 0 <= c2 < self.connections@.len() && self.connections@[c2].id == ordered[k2]
                && self.connections@[c2].may_request(piece as int) {
            let (k2, c2) = choose|k2: int, c2: int|
                #![trigger self.connections@[c2], ordered[k2]]
                0 <= k2 < k && 0 <= c2 < self.connections@.len() && self.connections@[c2].id == ordered[k2]
                    && self.connections@[c2].may_request(piece as int);
            self.lemma_first_asked_least(ordered, piece, k2, c2);
        } else {
            assert(self.connections@[c].id == ordered[k]);
        }
    }

    /// The block an inactive piece offers is one its first asker may be asked
    /// for.
    proof fn lemma_inactive_block_allowed(&self, ordered: Seq<ConnectionId>, id: ConnectionId, block: BlockKey)
        requires
            self.wf(),
            self.inactive_choice(ordered, Some((id, block))),
        ensures
            peer_may_request(self.connections@, id, block.piece),
    {
        reveal(SwarmState::inactive_choice);
        let (q, bk) = choose|q: int, bk: int|
            #![trigger self.inactive_offer(q, ordered), is_first_missing(self.pieces@[q].blocks@, bk)]
            self.inactive_offer(q, ordered) && is_first_missing(self.pieces@[q].blocks@, bk) && block
                == self.pieces@[q].blocks@[bk].key && self.first_asked(ordered, self.pieces@[q].index) == Some(id)
                && forall|q2: int|
                q2 != q && #[trigger] self.inactive_offer(q2, ordered) ==> self.picker.precedes_spec(
                    self.pieces@[q].index as int,
                    self.pieces@[q2].index as int,
                );
        assert(self.startable(q));
        assert(self.pieces@[q].wf(self.piece_count));
        self.lemma_first_asked_allowed(ordered, self.pieces@[q].index);
    }

    /// An ordinary assignment takes a missing block.
    proof fn lemma_assign_takes_missing(&self, connection: ConnectionId, block: BlockKey)
        ensures
            self.assign_succeeds(connection, block, false) ==> (self.entry_of(block) matches Some(e) && e.phase
                == BlockPhase::Missing),
    {
        assert(self.pieces_view() == self.pieces@);
    }

    /// Every connection left room to schedule an active offer's first block
    /// finds that block over the outstanding-byte budget, or has no offer.
    pub closed spec fn active_offers_exhausted(&self) -> bool {
        forall|c: int|
            0 <= c < self.connections@.len() && may_be_scheduled(#[trigger] self.connections@[c]) ==> first_offer_blocked(
                self.pieces@,
                self.connections@,
                self.outstanding_request_bytes as int,
                self.config.max_outstanding_request_bytes as int,
                self.connections@[c].id,
            )
    }

    /// A connection that may be scheduled is named among the eligible ones.
    proof fn lemma_eligible_contains(&self, c: int)
        requires
            self.wf(),
            0 <= c < self.connections@.len(),
            may_be_scheduled(self.connections@[c]),
        ensures
            self.eligible_prefix(self.connections@.len() as int).contains(self.connections@[c].id),
    {
        let n = self.connections@.len() as int;
        let st = self.rotation_start();
        assert(0 <= st < n);
        let k = if c >= st {
            c - st
        } else {
            c + (n - st)
        };
        assert(rotated(st, k, n) == c);
        let pre = self.eligible_prefix(k);
        assert(self.eligible_prefix(k + 1) == pre.push(self.connections@[c].id));
        assert(self.eligible_prefix(k + 1)[pre.len() as int] == self.connections@[c].id);
        self.lemma_eligible_prefix_grows(k + 1, n, self.connections@[c].id);
    }

    proof fn lemma_eligible_prefix_grows(&self, j: int, n: int, id: ConnectionId)
        requires
            0 <= j <= n,
            self.eligible_prefix(j).contains(id),
        ensures
            self.eligible_prefix(n).contains(id),
        decreases n - j,
    {
        if j < n {
            let x = choose|x: int| 0 <= x < self.eligible_prefix(j).len() && self.eligible_prefix(j)[x] == id;
            let state = self.connections@[rotated(self.rotation_start(), j, self.connections@.len() as int)];
            if may_be_scheduled(state) {
                assert(self.eligible_prefix(j + 1)[x] == id);
            }
            assert(self.eligible_prefix(j + 1).contains(id));
            self.lemma_eligible_prefix_grows(j + 1, n, id);
        }
    }

    /// A connection without active offer has its first offer blocked.
    proof fn lemma_first_offer_none(&self, c: int)
        requires
            self.wf(),
            0 <= c < self.connections@.len(),
            forall|p: int| !#[trigger] self.active_offer(c, p),
        ensures
            first_offer_blocked(
                self.pieces@,
                self.connections@,
                self.outstanding_request_bytes as int,
                self.config.max_outstanding_request_bytes as int,
                self.connections@[c].id,
            ),
    {
        let id = self.connections@[c].id;
        assert(self.pieces_view() == self.pieces@ && self.connections_view() == self.connections@);
        assert forall|c2: int, p: int, b: int|
            #![trigger offer_at(self.pieces@, self.connections@, c2, p), is_first_missing(self.pieces@[p].blocks@, b)]
            0 <= c2 < self.connections@.len() && self.connections@[c2].id == id && offer_at(
                self.pieces@,
                self.connections@,
                c2,
                p,
            ) && is_first_missing(self.pieces@[p].blocks@, b) && (forall|q: int|
                q < p ==> !#[trigger] offer_at(self.pieces@, self.connections@, c2, q)) implies self.outstanding_request_bytes
            + self.pieces@[p].blocks@[b].key.length > self.config.max_outstanding_request_bytes by {
            lemma_connection_index(self, id, c);
            lemma_connection_index(self, id, c2);
            assert(self.active_offer(c, p));
        }
    }

    /// A connection whose first offered block overruns the budget has its
    /// first offer blocked.
    proof fn lemma_first_offer_over(&self, c: int, block: BlockKey)
        requires
            self.wf(),
            0 <= c < self.connections@.len(),
            exists|p: int, b: int|
                #![trigger self.active_offer(c, p), is_first_missing(self.pieces@[p].blocks@, b)]
                self.active_offer(c, p) && is_first_missing(self.pieces@[p].blocks@, b) && block
                    == self.pieces@[p].blocks@[b].key && forall|q: int| q < p ==> !#[trigger] self.active_offer(c, q),
            self.outstanding_request_bytes + block.length > self.config.max_outstanding_request_bytes,
        ensures
            first_offer_blocked(
                self.pieces@,
                self.connections@,
                self.outstanding_request_bytes as int,
                self.config.max_outstanding_request_bytes as int,
                self.connections@[c].id,
            ),
    {
        let id = self.connections@[c].id;
        assert(self.pieces_view() == self.pieces@ && self.connections_view() == self.connections@);
        let (p0, b0) = choose|p: int, b: int|
            #![trigger self.active_offer(c, p), is_first_missing(self.pieces@[p].blocks@, b)]
            self.active_offer(c, p) && is_first_missing(self.pieces@[p].blocks@, b) && block
                == self.pieces@[p].blocks@[b].key && forall|q: int| q < p ==> !#[trigger] self.active_offer(c, q);
        assert forall|c2: int, p: int, b: int|
            #![trigger offer_at(self.pieces@, self.connections@, c2, p), is_first_missing(self.pieces@[p].blocks@, b)]
            0 <= c2 < self.connections@.len() && self.connections@[c2].id == id && offer_at(
                self.pieces@,
                self.connections@,
                c2,
                p,
            ) && is_first_missing(self.pieces@[p].blocks@, b) && (forall|q: int|
                q < p ==> !#[trigger] offer_at(self.pieces@, self.connections@, c2, q)) implies self.outstanding_request_bytes
            + self.pieces@[p].blocks@[b].key.length > self.config.max_outstanding_request_bytes by {
            lemma_connection_index(self, id, c);
            lemma_connection_index(self, id, c2);
            assert(self.active_offer(c, p));
            if p < p0 {
                assert(!self.active_offer(c, p));
            }
            if p0 < p {
                assert(!offer_at(self.pieces@, self.connections@, c2, p0));
                assert(self.active_offer(c, p0));
            }
            if b < b0 {
                assert(self.pieces@[p].blocks@[b].phase == BlockPhase::Missing);
            }
            if b0 < b {
                assert(self.pieces@[p].blocks@[b0].phase == BlockPhase::Missing);
            }
        }
    }

    /// No idle connection has an endgame duplicate whose block fits the
    /// outstanding-byte budget first.
    pub closed spec fn endgame_exhausted(&self) -> bool {
        forall|c: int|
            0 <= c < self.connections@.len() && (#[trigger] self.connections@[c]).active_request_count == 0
                ==> self.first_endgame_blocked(c)
    }

    /// The first endgame duplicate offered to the connection at `c` does not
    /// fit the outstanding-byte budget, or there is none.
    pub closed spec fn first_endgame_blocked(&self, c: int) -> bool {
        forall|p: int, b: int|
            #[trigger] self.endgame_offer(c, p, b) && (forall|p2: int, b2: int|
                (p2 < p || (p2 == p && b2 < b)) ==> !#[trigger] self.endgame_offer(c, p2, b2))
                ==> self.outstanding_request_bytes + self.pieces@[p].blocks@[b].key.length
                > self.config.max_outstanding_request_bytes
    }

    /// Every idle connection named `id` has its first endgame duplicate
    /// blocked.
    pub closed spec fn endgame_blocked_for(&self, id: ConnectionId) -> bool {
        forall|c: int|
            0 <= c < self.connections@.len() && (#[trigger] self.connections@[c]).id == id
                && self.connections@[c].active_request_count == 0 ==> self.first_endgame_blocked(c)
    }

    proof fn lemma_endgame_blocked_busy(&self, c: int)
        requires
            self.wf(),
            0 <= c < self.connections@.len(),
            self.connections@[c].active_request_count != 0,
        ensures
            self.endgame_blocked_for(self.connections@[c].id),
    {
        let id = self.connections@[c].id;
        assert forall|c2: int|
            0 <= c2 < self.connections@.len() && (#[trigger] self.connections@[c2]).id == id
                && self.connections@[c2].active_request_count == 0 implies self.first_endgame_blocked(c2) by {
            lemma_connection_index(self, id, c);
            lemma_connection_index(self, id, c2);
        }
    }

    proof fn lemma_endgame_blocked_none(&self, c: int)
        requires
            self.wf(),
            0 <= c < self.connections@.len(),
            forall|p: int, b: int| !#[trigger] self.endgame_offer(c, p, b),
        ensures
            self.endgame_blocked_for(self.connections@[c].id),
    {
        let id = self.connections@[c].id;
        assert forall|c2: int|
            0 <= c2 < self.connections@.len() && (#[trigger] self.connections@[c2]).id == id
                && self.connections@[c2].active_request_count == 0 implies self.first_endgame_blocked(c2) by {
            lemma_connection_index(self, id, c);
            lemma_connection_index(self, id, c2);
        }
    }

    proof fn lemma_endgame_blocked_over(&self, c: int, block: BlockKey)
        requires
            self.wf(),
            0 <= c < self.connections@.len(),
            exists|p: int, b: int|
                #[trigger] self.endgame_offer(c, p, b) && block == self.pieces_view()[p].blocks@[b].key && forall|
                    p2: int,
                    b2: int,
                | (p2 < p || (p2 == p && b2 < b)) ==> !#[trigger] self.endgame_offer(c, p2, b2),
            self.outstanding_request_bytes + block.length > self.config.max_outstanding_request_bytes,
        ensures
            self.endgame_blocked_for(self.connections@[c].id),
    {
        let id = self.connections@[c].id;
        assert(self.pieces_view() == self.pieces@);
        let (p0, b0) = choose|p: int, b: int|
            #[trigger] self.endgame_offer(c, p, b) && block == self.pieces_view()[p].blocks@[b].key && forall|
                p2: int,
                b2: int,
            | (p2 < p || (p2 == p && b2 < b)) ==> !#[trigger] self.endgame_offer(c, p2, b2);
        assert forall|c2: int|
            0 <= c2 < self.connections@.len() && (#[trigger] self.connections@[c2]).id == id
                && self.connections@[c2].active_request_count == 0 implies self.first_endgame_blocked(c2) by {
            lemma_connection_index(self, id, c);
            lemma_connection_index(self, id, c2);
            assert forall|p: int, b: int|
                #[trigger] self.endgame_offer(c2, p, b) && (forall|p2: int, b2: int|
                    (p2 < p || (p2 == p && b2 < b)) ==> !#[trigger] self.endgame_offer(c2, p2, b2)) implies self.outstanding_request_bytes
                + self.pieces@[p].blocks@[b].key.length > self.config.max_outstanding_request_bytes by {
                if p < p0 || (p == p0 && b < b0) {
                    assert(!self.endgame_offer(c, p, b));
                }
                if p0 < p || (p0 == p && b0 < b) {
                    assert(!self.endgame_offer(c2, p0, b0));
                }
            }
        }
    }

    fn eligible_connections(&self) -> (r: Vec<ConnectionId>)
        requires
            self.wf(),
        ensures
            r@ == self.eligible_prefix(self.connections@.len() as int),
    {
        let ids = self.ordered_connection_ids();
        let mut r: Vec<ConnectionId> = Vec::new();
        let mut k: usize = 0;
        while k < ids.len()
            invariant
                self.wf(),
                k <= ids@.len(),
                ids@.len() == self.connections@.len(),
                self.rotation_start() < self.connections@.len() || self.rotation_start() == 0,
                forall|x: int|
                    0 <= x < ids@.len() ==> #[trigger] ids@[x] == self.connections@[rotated(
                        self.rotation_start(),
                        x,
                        ids@.len() as int,
                    )].id,
                r@ == self.eligible_prefix(k as int),
            decreases ids@.len() - k,
        {
            let ghost at = rotated(self.rotation_start(), k as int, ids@.len() as int);
            assert(ids@[k as int] == self.connections@[at].id);
            match self.find_connection(ids[k]) {
                Some(c) => {
                    proof {
                        lemma_connection_index(self, ids@[k as int], c as int);
                        lemma_connection_index(self, ids@[k as int], at);
                    }
                    let state = &self.connections[c];
                    if (!state.choking || state.has_choked_fast_work()) && state.active_request_count
                        < state.request_window.target {
                        r.push(ids[k]);
                    }
                },
                None => {
                    assert(self.connections_view()[at].id == ids@[k as int]);
                },
            }
            k += 1;
        }
        r
    }

    pub fn set_choking(&mut self, id: ConnectionId, choking: bool) -> (r: Result<Vec<BlockKey>, SwarmError>)
        requires
            old(self).wf(),
        ensures
            final(self).wf(),
            !old(self).has_connection(id) ==> r == Err::<Vec<BlockKey>, SwarmError>(SwarmError::UnknownConnection(id)),
            final(self).pending_dials_view() == old(self).pending_dials_view(),
            final(self).connections_view().len() == old(self).connections_view().len(),
            final(self).pieces_view().len() == old(self).pieces_view().len(),
            old(self).connection_index(id) matches Some(i) ==> {
                let releases = choking && !old(self).connections_view()[i].fast_extension;
                &&& releases ==> (r matches Ok(blocks) ==> blocks@ == old(self).active_view().filter(
                    on_connection(id),
                ).map_values(|a: RequestAttempt| a.block))
                &&& releases ==> (r is Ok ==> forall|a: RequestAttempt|
                    #[trigger] final(self).active_view().contains(a) <==> old(self).active_view().contains(a)
                        && a.connection != id)
                &&& !releases ==> (r matches Ok(blocks) && blocks@.len() == 0
                    && final(self).active_view() == old(self).active_view())
                &&& (forall|a: RequestAttempt| #[trigger] old(self).active_view().contains(a) ==> a.connection != id)
                    ==> r is Ok
            },
            final(self).high_water_view() >= old(self).high_water_view(),
    {
        let index = match self.find_connection(id) {
            Some(i) => i,
            None => {
                return Err(SwarmError::UnknownConnection(id));
            },
        };
        let changed = self.connections[index].choking != choking;
        self.connections[index].choking = choking;
        proof {
            lemma_connections_update(old(self).connections@, self.connections@, index as int, self.piece_count);
        }
        if changed {
            self.picker.note_eligibility_change();
        }
        proof {
            assert(old(self).active_view() == self.active_attempts@);
        }
        if choking && !self.connections[index].fast_extension {
            self.release_requests_for_connection(id, RequestDisposition::Choked)
        } else {
            Ok(Vec::new())
        }
    }

    pub fn remove_connection(&mut self, id: ConnectionId, removal: ConnectionRemoval) -> (r: Result<Vec<BlockKey>, SwarmError>)
        requires
            old(self).wf(),
        ensures
            final(self).wf(),
            !old(self).has_connection(id) ==> r == Err::<Vec<BlockKey>, SwarmError>(SwarmError::UnknownConnection(id)),
            r is Ok ==> !final(self).has_connection(id),
            final(self).pending_dials_view() == old(self).pending_dials_view(),
            r matches Ok(blocks) ==> blocks@ == old(self).active_view().filter(on_connection(id)).map_values(
                |a: RequestAttempt| a.block,
            ),
            r is Ok ==> forall|a: RequestAttempt|
                #[trigger] final(self).active_view().contains(a) <==> old(self).active_view().contains(a)
                    && a.connection != id,
            old(self).connection_index(id) matches Some(i) ==> ((forall|a: RequestAttempt|
                #[trigger] old(self).active_view().contains(a) ==> a.connection != id)
                && old(self).connections_view()[i].active_request_count == 0 && old(self).withdrawal_fits(i) ==> r is Ok),
            final(self).high_water_view() >= old(self).high_water_view(),
    {
        if self.find_connection(id).is_none() {
            return Err(SwarmError::UnknownConnection(id));
        }
        let disposition = match removal {
            ConnectionRemoval::Disconnected | ConnectionRemoval::Replaced => RequestDisposition::Disconnected,
            ConnectionRemoval::Cancelled => RequestDisposition::Cancelled,
        };
        proof {
            assert(old(self).active_view() == self.active_attempts@);
        }
        let released = self.release_requests_for_connection(id, disposition)?;
        let index = match self.find_connection(id) {
            Some(i) => i,
            None => {
                return Err(SwarmError::UnknownConnection(id));
            },
        };
        if self.connections[index].active_request_count != 0 {
            return Err(SwarmError::Invariant(ERR_RETAINED_REQUESTS));
        }
        let ghost before = self.connections@;
        let removed = self.connections.remove(index);
        proof {
            assert(self.connections@ == before.remove(index as int));
            assert forall|i: int, j: int|
                #![trigger self.connections@[i], self.connections@[j]]
                0 <= i < j < self.connections@.len() implies self.connections@[i].id.value()
                    < self.connections@[j].id.value() by {
                if j < index {
                    assert(before[i].id.value() < before[j].id.value());
                } else if i < index {
                    assert(before[i].id.value() < before[j + 1].id.value());
                } else {
                    assert(before[i + 1].id.value() < before[j + 1].id.value());
                }
            }
            assert forall|k: int| 0 <= k < self.connections@.len() implies (#[trigger] self.connections@[k]).wf(self.piece_count) by {
                if k < index {
                    assert(self.connections@[k] == before[k]);
                } else {
                    assert(self.connections@[k] == before[k + 1]);
                }
            }
            if self.has_connection(id) {
                let m = choose|m: int| 0 <= m < self.connections_view().len() && #[trigger] self.connections_view()[m].id == id;
                if m < index {
                    assert(before[m].id.value() < before[index as int].id.value());
                } else {
                    assert(before[index as int].id.value() < before[m + 1].id.value());
                }
            }
        }
        let full = removed.have_count == self.piece_count;
        self.remove_contribution(&removed.availability, full)?;
        self.picker.rebuild_after_bulk_update();
        Ok(released)
    }

    /// Classifies payload for `block` from `connection`: unsolicited unless
    /// the connection requested it; redundant once the block left the
    /// requested phase; otherwise accepted as evidence of the connection's
    /// latest attempt, cancelling every other active attempt.
    pub fn receive_block(&mut self, connection: ConnectionId, block: BlockKey, now: u64) -> (r: Result<ReceiveDisposition, SwarmError>)
        requires
            old(self).wf(),
        ensures
            final(self).wf(),
            final(self).pending_dials_view() == old(self).pending_dials_view(),
            !old(self).has_connection(connection) ==> r == Err::<ReceiveDisposition, SwarmError>(
                SwarmError::UnknownConnection(connection),
            ),
            old(self).has_connection(connection) && old(self).entry_of(block) is None ==> r
                == Ok::<ReceiveDisposition, SwarmError>(ReceiveDisposition::Unsolicited),
            old(self).has_connection(connection) ==> (old(self).entry_of(block) matches Some(e) ==> {
                &&& e.phase != BlockPhase::Requested ==> r == Ok::<ReceiveDisposition, SwarmError>(
                    if last_attempt_of(e.attempts@, connection) is Some {
                        ReceiveDisposition::Redundant
                    } else {
                        ReceiveDisposition::Unsolicited
                    },
                )
                &&& e.phase == BlockPhase::Requested && last_attempt_of(e.attempts@, connection) is None
                    ==> r == Ok::<ReceiveDisposition, SwarmError>(ReceiveDisposition::Unsolicited)
                &&& e.phase == BlockPhase::Requested ==> (last_attempt_of(e.attempts@, connection) matches Some(ev)
                    ==> (r is Ok ==> (r matches Ok(ReceiveDisposition::Accept { evidence: x, cancellations: cs, late: l })
                    && x == ev.id && cs@ == cancellations_of(e.attempts@, ev.id, block) && l == !ev.active())))
                &&& e.phase == BlockPhase::Requested ==> (last_attempt_of(e.attempts@, connection) matches Some(ev)
                    ==> ((r is Ok <==> old(self).accept_succeeds(connection, block)) && (r is Ok ==> ({
                    &&& final(self).entry_of(block) matches Some(f) && f.phase == (BlockPhase::Writing {
                        source: connection,
                        evidence: ev.id,
                    })
                    &&& final(self).tallies().requested_blocks == old(self).tallies().requested_blocks - 1
                    &&& final(self).tallies().writing_blocks == old(self).tallies().writing_blocks + 1
                    &&& final(self).missing_count() == old(self).missing_count()
                    &&& final(self).outstanding_view() + active_of(e.attempts@).len() * block.length == old(
                        self,
                    ).outstanding_view()
                    &&& forall|a: RequestAttempt|
                        #[trigger] final(self).active_view().contains(a) <==> old(self).active_view().contains(a)
                            && !names_attempt(active_of(e.attempts@), a.id)
                }))))
                &&& e.phase != BlockPhase::Requested && last_attempt_of(e.attempts@, connection) is Some
                    ==> final(self).tallies().redundant_payload_bytes == if old(self).tallies().redundant_payload_bytes
                    + block.length <= usize::MAX {
                    (old(self).tallies().redundant_payload_bytes + block.length) as usize
                } else {
                    usize::MAX
                }
            }),
            r == Ok::<ReceiveDisposition, SwarmError>(ReceiveDisposition::Unsolicited) ==> *final(self) == *old(self),
            r == Ok::<ReceiveDisposition, SwarmError>(ReceiveDisposition::Redundant) ==> final(self).same_but_redundant(
                old(self),
            ),
            r is Err && !old(self).has_connection(connection) ==> *final(self) == *old(self),
            final(self).high_water_view() >= old(self).high_water_view(),
    {
        let c = match self.find_connection(connection) {
            Some(c) => c,
            None => {
                return Err(SwarmError::UnknownConnection(connection));
            },
        };
        let (p, b) = match self.find_block(block) {
            Some(pair) => pair,
            None => {
                return Ok(ReceiveDisposition::Unsolicited);
            },
        };
        proof {
            self.lemma_block_piece(block);
        }
        let ghost attempts0 = self.pieces@[p as int].blocks@[b as int].attempts@;
        let evidence = last_attempt_by(&self.pieces[p].blocks[b].attempts, connection);
        if !matches!(self.pieces[p].blocks[b].phase, BlockPhase::Requested) {
            if evidence.is_some() {
                self.redundant_payload_bytes = self.redundant_payload_bytes.saturating_add(block.length as usize);
                return Ok(ReceiveDisposition::Redundant);
            }
            return Ok(ReceiveDisposition::Unsolicited);
        }
        let evidence = match evidence {
            Some(e) => e,
            None => {
                return Ok(ReceiveDisposition::Unsolicited);
            },
        };
        let active = active_attempts_in(&self.pieces[p].blocks[b].attempts);
        if active.len() == 0 {
            return Err(SwarmError::Invariant(ERR_NO_ACTIVE_ATTEMPT));
        }
        let evidence_active = matches!(evidence.disposition, RequestDisposition::Requested);
        let issued = if evidence_active {
            Some(evidence.issued_at)
        } else {
            None
        };
        let cancellations = cancellations_for(&self.pieces[p].blocks[b].attempts, evidence.id, block);
        let requested = match self.requested_blocks.checked_sub(1) {
            Some(v) => v,
            None => {
                return Err(SwarmError::Invariant(ERR_REQUESTED_UNDERFLOW));
            },
        };
        let writing = match self.writing_blocks.checked_add(1) {
            Some(v) => v,
            None => {
                return Err(SwarmError::ArithmeticOverflow(OWNER_WRITING));
            },
        };
        let mut attempts: Vec<RequestAttempt> = Vec::new();
        std::mem::swap(&mut attempts, &mut self.pieces[p].blocks[b].attempts);
        settle_attempts(&mut attempts, evidence.id);
        proof {
            assert(attempts@ =~= settled_all(attempts0, evidence.id));
        }
        std::mem::swap(&mut attempts, &mut self.pieces[p].blocks[b].attempts);
        self.pieces[p].blocks[b].phase = BlockPhase::Writing { source: connection, evidence: evidence.id };
        proof {
            lemma_pieces_update(old(self).pieces@, self.pieces@, p as int, self.piece_count);
        }
        let keep = self.config.max_terminal_attempts_per_block;
        self.trim_block(p, b, keep, Some(evidence.id))?;
        self.requested_blocks = requested;
        self.writing_blocks = writing;
        let ghost pieces_trimmed = self.pieces@;
        proof {
            assert(active@.skip(0) =~= active@);
            assert(same_keys(pieces_trimmed, old(self).pieces@)) by {
                assert forall|x: int| 0 <= x < pieces_trimmed.len() implies (#[trigger] pieces_trimmed[x]).blocks@.len()
                    == old(self).pieces@[x].blocks@.len() && forall|y: int|
                    0 <= y < pieces_trimmed[x].blocks@.len() ==> (#[trigger] pieces_trimmed[x].blocks@[y]).key
                        == old(self).pieces@[x].blocks@[y].key by {
                    if x == p {
                        assert forall|y: int| 0 <= y < pieces_trimmed[x].blocks@.len() implies (
                        #[trigger] pieces_trimmed[x].blocks@[y]).key == old(self).pieces@[x].blocks@[y].key by {
                            assert(old(self).pieces@[x].blocks@[y].key == old(self).pieces@[x].blocks@[y].key);
                        }
                    }
                }
            }
            lemma_connection_position(old(self), connection);
        }
        let mut k: usize = 0;
        while k < active.len()
            invariant
                self.outstanding_request_high_water >= old(self).outstanding_request_high_water,
                self.wf(),
                self.pending_dials@ == old(self).pending_dials@,
                self.config == old(self).config,
                old(self).has_connection(connection),
                old(self).entry_of(block) matches Some(e) && e.phase == BlockPhase::Requested
                    && last_attempt_of(e.attempts@, connection) is Some,
                k <= active@.len(),
                self.pieces@ == pieces_trimmed,
                self.requested_blocks == requested,
                self.writing_blocks == writing,
                self.missing_blocks == old(self).missing_blocks,
                self.piece_count == old(self).piece_count,
                self.connections@.len() == old(self).connections@.len(),
                forall|x: int| 0 <= x < self.connections@.len() ==> (#[trigger] self.connections@[x]).id == old(self).connections@[x].id,
                old(self).accept_succeeds(connection, block) <==> releases_fit(
                    self.active_attempts@,
                    self.connections@,
                    self.outstanding_request_bytes as int,
                    block.length as int,
                    active@.skip(k as int),
                ),
                self.outstanding_request_bytes + k * block.length == old(self).outstanding_request_bytes,
                attempt_ids_distinct(old(self).active_attempts@),
                forall|a: RequestAttempt|
                    #[trigger] self.active_attempts@.contains(a) <==> old(self).active_attempts@.contains(a)
                        && !names_attempt(active@.take(k as int), a.id),
            decreases active@.len() - k,
        {
            proof {
                assert(active@.skip(k as int)[0] == active@[k as int]);
                assert(active@.skip(k as int).drop_first() =~= active@.skip(k + 1));
            }
            let attempt = active[k];
            let index = match self.find_active(attempt.id) {
                Some(i) => i,
                None => {
                    return Err(SwarmError::Invariant(ERR_RECEIVED_ACTIVE_INDEX));
                },
            };
            proof {
                lemma_attempt_position(self.active_attempts@, attempt.id, index as int);
                lemma_connection_position(self, attempt.connection);
            }
            let ghost current = self.active_attempts@;
            self.active_attempts.remove(index);
            proof {
                lemma_remove_distinct(current, index as int);
                assert(active@.take(k + 1) =~= active@.take(k as int).push(attempt));
                assert forall|a: RequestAttempt|
                    #[trigger] self.active_attempts@.contains(a) <==> old(self).active_attempts@.contains(a)
                        && !names_attempt(active@.take(k + 1), a.id) by {
                    if names_attempt(active@.take(k + 1), a.id) && !names_attempt(active@.take(k as int), a.id) {
                        let j = choose|j: int| 0 <= j < active@.take(k + 1).len() && (#[trigger] active@.take(k + 1)[j]).id == a.id;
                        if j < k {
                            assert(active@.take(k as int)[j] == active@.take(k + 1)[j]);
                        }
                        if current.contains(a) {
                            let x = choose|x: int| 0 <= x < current.len() && current[x] == a;
                            if x != index {
                                assert(current[x].id != current[index as int].id);
                            }
                        }
                    }
                    if names_attempt(active@.take(k as int), a.id) {
                        let j = choose|j: int| 0 <= j < active@.take(k as int).len() && (#[trigger] active@.take(k as int)[j]).id == a.id;
                        assert(active@.take(k + 1)[j] == active@.take(k as int)[j]);
                    }
                    if !names_attempt(active@.take(k + 1), a.id) {
                        assert(active@.take(k + 1)[k as int] == attempt);
                        assert(a.id != attempt.id);
                        if names_attempt(active@.take(k as int), a.id) {
                            let j = choose|j: int| 0 <= j < active@.take(k as int).len() && (#[trigger] active@.take(k as int)[j]).id == a.id;
                            assert(active@.take(k + 1)[j] == active@.take(k as int)[j]);
                        }
                    }
                }
            }
            self.release_connection_request(attempt.connection)?;
            self.release_request(block.length)?;
            proof {
                assert((k + 1) * block.length == k * block.length + block.length) by (nonlinear_arith);
            }
            k += 1;
        }
        self.cancelled_request_attempts = self.cancelled_request_attempts.saturating_add(cancellations.len());
        let config = self.config;
        proof {
            let i = choose|i: int| 0 <= i < old(self).connections_view().len() && #[trigger] old(self).connections_view()[i].id
                == connection;
            assert(self.connections@[i].id == connection);
            assert(self.has_connection(connection)) by {
                assert(self.connections_view()[i].id == connection);
            }
            assert(active@.skip(k as int) =~= Seq::<RequestAttempt>::empty());
        }
        let c = match self.find_connection(connection) {
            Some(c) => c,
            None => {
                return Err(SwarmError::UnknownConnection(connection));
            },
        };
        let ghost before = self.connections@;
        self.connections[c].request_window.accepted_payload(now, block.length as usize, issued, config);
        proof {
            lemma_connections_update(before, self.connections@, c as int, self.piece_count);
            lemma_block_search_same_keys(self.pieces@, old(self).pieces@, block, 0);
        }
        Ok(ReceiveDisposition::Accept { evidence: evidence.id, cancellations, late: !evidence_active })
    }

    pub fn piece_generation(&self, piece: u32) -> (r: Result<PieceGeneration, SwarmError>)
        requires
            self.wf(),
        ensures
            !self.has_piece(piece) ==> r == Err::<PieceGeneration, SwarmError>(SwarmError::UnknownPiece(piece)),
            self.has_piece(piece) ==> r == Ok::<PieceGeneration, SwarmError>(
                self.pieces_view()[self.piece_position(piece)->0].storage.generation_view(),
            ),
    {
        match self.find_piece(piece) {
            Some(p) => {
                proof {
                    lemma_found_piece(self, p as int, piece);
                }
                Ok(self.pieces[p].storage.generation())
            },
            None => Err(SwarmError::UnknownPiece(piece)),
        }
    }

    pub fn finish_write(&mut self, block: BlockKey, accepted: bool, now: u64) -> (r: Result<(), SwarmError>)
        requires
            old(self).wf(),
        ensures
            final(self).wf(),
            final(self).pending_dials_view() == old(self).pending_dials_view(),
            !old(self).has_piece(block.piece) ==> r == Err::<(), SwarmError>(SwarmError::UnknownPiece(block.piece)),
            old(self).has_piece(block.piece) ==> (r is Ok <==> old(self).finish_write_succeeds(
                block,
                old(self).pieces_view()[old(self).piece_position(block.piece)->0].storage.generation_view(),
                accepted,
            )),
            r is Ok ==> final(self).entry_of(block) is Some && written_phase(
                old(self).entry_of(block)->0.phase,
                final(self).entry_of(block)->0.phase,
                accepted,
            ),
            final(self).high_water_view() >= old(self).high_water_view(),
    {
        let generation = self.piece_generation(block.piece)?;
        self.finish_write_for_generation(block, generation, accepted, now)
    }

    /// Completes the storage write of a block of the named generation: stored
    /// blocks await verification, failed ones become missing again.
    pub fn finish_write_for_generation(&mut self, block: BlockKey, generation: PieceGeneration, accepted: bool, now: u64) -> (r: Result<(), SwarmError>)
        requires
            old(self).wf(),
        ensures
            final(self).wf(),
            final(self).pending_dials_view() == old(self).pending_dials_view(),
            !old(self).has_piece(block.piece) ==> r == Err::<(), SwarmError>(SwarmError::UnknownPiece(block.piece)),
            old(self).has_piece(block.piece) && old(self).entry_of(block) is None ==> r is Err,
            old(self).entry_of(block) matches Some(e) ==> (!(e.phase is Writing) ==> r is Err),
            old(self).has_piece(block.piece) && generation != old(self).pieces_view()[old(self).piece_position(
                block.piece,
            )->0].storage.generation_view() ==> r == Err::<(), SwarmError>(
                old(self).pieces_view()[old(self).piece_position(block.piece)->0].storage.stale(generation),
            ),
            r is Ok <==> old(self).finish_write_succeeds(block, generation, accepted),
            r is Ok ==> final(self).entry_of(block) is Some && written_phase(
                old(self).entry_of(block)->0.phase,
                final(self).entry_of(block)->0.phase,
                accepted,
            ),
            r is Ok ==> final(self).tallies().writing_blocks == old(self).tallies().writing_blocks - 1,
            r is Ok && accepted ==> final(self).tallies().received_blocks == old(self).tallies().received_blocks + 1
                && final(self).missing_count() == old(self).missing_count(),
            r is Ok && !accepted ==> final(self).missing_count() == old(self).missing_count() + 1
                && final(self).tallies().received_blocks == old(self).tallies().received_blocks,
            !old(self).has_piece(block.piece) ==> *final(self) == *old(self),
            old(self).has_piece(block.piece) && generation != old(self).pieces_view()[old(self).piece_position(
                block.piece,
            )->0].storage.generation_view() ==> *final(self) == *old(self),
            old(self).has_piece(block.piece) && generation == old(self).pieces_view()[old(self).piece_position(
                block.piece,
            )->0].storage.generation_view() ==> (old(self).entry_of(block) matches Some(e) ==> (!(e.phase is Writing)
                ==> r == Err::<(), SwarmError>(SwarmError::InvalidTransition(ERR_NOT_WRITING)) && *final(self) == *old(
                self,
            ))),
            old(self).has_piece(block.piece) && old(self).entry_of(block) is None ==> *final(self) == *old(self),
            final(self).high_water_view() >= old(self).high_water_view(),
    {
        proof {
            self.lemma_block_piece(block);
        }
        let sp = match self.find_piece(block.piece) {
            Some(p) => p,
            None => {
                return Err(SwarmError::UnknownPiece(block.piece));
            },
        };
        self.pieces[sp].storage.validate_generation(generation)?;
        let (p, b) = match self.find_block(block) {
            Some(pair) => pair,
            None => {
                return Err(SwarmError::UnknownBlock(block));
            },
        };
        let (source, evidence) = match self.pieces[p].blocks[b].phase {
            BlockPhase::Writing { source, evidence } => (source, evidence),
            _ => {
                return Err(SwarmError::InvalidTransition(ERR_NOT_WRITING));
            },
        };
        if find_attempt(&self.pieces[p].blocks[b].attempts, evidence).is_none() {
            return Err(SwarmError::Invariant(ERR_WRITE_EVIDENCE));
        }
        let writing = match self.writing_blocks.checked_sub(1) {
            Some(v) => v,
            None => {
                return Err(SwarmError::Invariant(ERR_WRITING_UNDERFLOW));
            },
        };
        let phase = if accepted {
            BlockPhase::Received { source, evidence }
        } else {
            BlockPhase::Missing
        };
        self.set_phase(p, b, phase);
        let ghost phase_set = self.pieces@;
        let keep = self.config.max_terminal_attempts_per_block;
        let protected = if accepted {
            Some(evidence)
        } else {
            None
        };
        proof {
            lemma_nothing_protected(self.pieces@[p as int].blocks@[b as int].attempts@);
        }
        self.trim_block(p, b, keep, protected)?;
        let ghost after_phase = self.pieces@;
        proof {
            let e = old(self).pieces@[p as int].blocks@[b as int];
            assert(old(self).block_position(block) == Some((p as int, b as int)));
            assert(e.phase == BlockPhase::Writing { source, evidence });
            assert(accepted ==> protected_terminal_count(e.attempts@, Some(evidence))
                <= old(self).config.max_terminal_attempts_per_block);
            assert(old(self).writing_blocks >= 1);
        }
        proof {
            assert(same_keys(after_phase, old(self).pieces@)) by {
                assert forall|x: int| 0 <= x < after_phase.len() implies (#[trigger] after_phase[x]).blocks@.len()
                    == old(self).pieces@[x].blocks@.len() && forall|y: int|
                    0 <= y < after_phase[x].blocks@.len() ==> (#[trigger] after_phase[x].blocks@[y]).key
                        == old(self).pieces@[x].blocks@[y].key by {
                    if x == p {
                        assert forall|y: int| 0 <= y < after_phase[x].blocks@.len() implies (
                        #[trigger] after_phase[x].blocks@[y]).key == old(self).pieces@[x].blocks@[y].key by {
                            if y != b {
                                assert(after_phase[x].blocks@[y].key == phase_set[x].blocks@[y].key);
                            }
                        }
                    }
                }
            }
        }
        self.writing_blocks = writing;
        if accepted {
            self.received_blocks = match self.received_blocks.checked_add(1) {
                Some(v) => v,
                None => {
                    return Err(SwarmError::ArithmeticOverflow(OWNER_RECEIVED));
                },
            };
            if let Some(c) = self.find_connection(source) {
                self.connections[c].last_useful_at = Some(now);
                proof {
                    lemma_connections_update(old(self).connections@, self.connections@, c as int, self.piece_count);
                }
            }
        } else {
            self.missing_blocks = match self.missing_blocks.checked_add(1) {
                Some(v) => v,
                None => {
                    return Err(SwarmError::ArithmeticOverflow(OWNER_MISSING));
                },
            };
            proof {
                let e = old(self).pieces@[p as int].blocks@[b as int];
                lemma_in_flight_same_phases(
                    self.pieces@[p as int].blocks@,
                    old(self).pieces@[p as int].blocks@.update(b as int, BlockEntry { phase: BlockPhase::Missing, ..e }),
                );
            }
            self.deactivate_if_idle(p)?;
            proof {
                let e = old(self).pieces@[p as int].blocks@[b as int];
                assert(in_flight_count(
                    old(self).pieces@[p as int].blocks@.update(b as int, BlockEntry { phase: BlockPhase::Missing, ..e }),
                ) == 0 ==> !(old(self).pieces@[p as int].active && old(self).active_piece_bytes
                    < old(self).pieces@[p as int].working_set_bytes));
            }
        }
        proof {
            assert(self.pieces@[p as int].wf(self.piece_count));
            assert(self.pieces@[p as int].blocks@[b as int].key == block);
            assert(self.pieces@[p as int].index == block.piece);
            lemma_found_piece(self, p as int, block.piece);
        }
        let sp = match self.find_piece(block.piece) {
            Some(p) => p,
            None => {
                return Err(SwarmError::UnknownPiece(block.piece));
            },
        };
        let ghost before = self.pieces@;
        assert(before[sp as int].wf(self.piece_count));
        proof {
            lemma_found_piece(self, sp as int, block.piece);
            assert(sp == p);
            assert(self.pieces@[p as int].storage == old(self).pieces@[p as int].storage);
        }
        let outcome = self.pieces[sp].storage.write_completed(generation, accepted);
        proof {
            assert(self.pieces@[sp as int].storage.expected_view() == before[sp as int].storage.expected_view());
            lemma_pieces_update(before, self.pieces@, sp as int, self.piece_count);
        }
        outcome?;
        proof {
            assert(old(self).pieces@[p as int].storage.completed_view() < old(self).pieces@[p as int].storage.expected_view());
            assert(accepted ==> old(self).received_blocks < usize::MAX);
            assert(!accepted ==> old(self).missing_blocks < usize::MAX);
            assert(same_keys(self.pieces@, old(self).pieces@)) by {
                assert forall|x: int| 0 <= x < self.pieces@.len() implies (#[trigger] self.pieces@[x]).blocks@.len()
                    == old(self).pieces@[x].blocks@.len() && forall|y: int|
                    0 <= y < self.pieces@[x].blocks@.len() ==> (#[trigger] self.pieces@[x].blocks@[y]).key
                        == old(self).pieces@[x].blocks@[y].key by {
                    assert(self.pieces@[x].blocks@ == after_phase[x].blocks@);
                }
            }
            lemma_block_search_same_keys(self.pieces@, old(self).pieces@, block, 0);
        }
        Ok(())
    }

    pub fn piece_ready(&self, piece: u32) -> (r: Result<bool, SwarmError>)
        requires
            self.wf(),
        ensures
            !self.has_piece(piece) ==> r == Err::<bool, SwarmError>(SwarmError::UnknownPiece(piece)),
            self.has_piece(piece) ==> r == Ok::<bool, SwarmError>(
                storage_ready(self.pieces_view()[self.piece_position(piece)->0].storage),
            ),
    {
        let generation = self.piece_generation(piece)?;
        self.piece_ready_for_generation(piece, generation)
    }

    /// Every write of the generation succeeded and no hash check started.
    pub fn piece_ready_for_generation(&self, piece: u32, generation: PieceGeneration) -> (r: Result<bool, SwarmError>)
        requires
            self.wf(),
        ensures
            !self.has_piece(piece) ==> r == Err::<bool, SwarmError>(SwarmError::UnknownPiece(piece)),
            self.has_piece(piece) ==> ({
                let st = self.pieces_view()[self.piece_position(piece)->0].storage;
                &&& generation != st.generation_view() ==> r == Err::<bool, SwarmError>(st.stale(generation))
                &&& generation == st.generation_view() ==> r == Ok::<bool, SwarmError>(storage_ready(st))
            }),
    {
        match self.find_piece(piece) {
            Some(p) => {
                proof {
                    lemma_found_piece(self, p as int, piece);
                }
                self.pieces[p].storage.hash_eligible(generation)
            },
            None => Err(SwarmError::UnknownPiece(piece)),
        }
    }

    pub fn begin_piece_hash(&mut self, piece: u32, generation: PieceGeneration) -> (r: Result<(), SwarmError>)
        requires
            old(self).wf(),
        ensures
            final(self).wf(),
            final(self).pending_dials_view() == old(self).pending_dials_view(),
            final(self).connections_view() == old(self).connections_view(),
            !old(self).has_piece(piece) ==> r == Err::<(), SwarmError>(SwarmError::UnknownPiece(piece)),
            !old(self).has_piece(piece) ==> *final(self) == *old(self),
            old(self).has_piece(piece) ==> ({
                let p = old(self).piece_position(piece)->0;
                let st = old(self).pieces_view()[p].storage;
                let n = final(self).pieces_view()[p].storage;
                &&& final(self).same_but_storage(old(self), p)
                &&& generation != st.generation_view() ==> r == Err::<(), SwarmError>(st.stale(generation))
                &&& generation == st.generation_view() && !storage_ready(st) ==> r == Err::<(), SwarmError>(
                    SwarmError::InvalidTransition(ERR_HASH_EARLY),
                )
                &&& generation == st.generation_view() && storage_ready(st) ==> r is Ok
                &&& r is Ok ==> n.hash_view() == PieceHashJoinState::Running && n.generation_view() == st.generation_view()
                    && n.expected_view() == st.expected_view() && n.completed_view() == st.completed_view()
                    && n.write_failed_view() == st.write_failed_view()
            }),
            final(self).high_water_view() >= old(self).high_water_view(),
    {
        let p = match self.find_piece(piece) {
            Some(p) => p,
            None => {
                return Err(SwarmError::UnknownPiece(piece));
            },
        };
        proof {
            lemma_found_piece(self, p as int, piece);
        }
        if !self.pieces[p].storage.hash_eligible(generation)? {
            return Err(SwarmError::InvalidTransition(ERR_HASH_EARLY));
        }
        let result = self.pieces[p].storage.begin_hash(generation);
        proof {
            lemma_pieces_update(old(self).pieces@, self.pieces@, p as int, self.piece_count);
        }
        result
    }

    pub fn finish_piece_hash(&mut self, piece: u32, generation: PieceGeneration, passed: bool) -> (r: Result<(), SwarmError>)
        requires
            old(self).wf(),
        ensures
            final(self).wf(),
            final(self).pending_dials_view() == old(self).pending_dials_view(),
            final(self).connections_view() == old(self).connections_view(),
            !old(self).has_piece(piece) ==> r == Err::<(), SwarmError>(SwarmError::UnknownPiece(piece)),
            !old(self).has_piece(piece) ==> *final(self) == *old(self),
            old(self).has_piece(piece) ==> ({
                let p = old(self).piece_position(piece)->0;
                let st = old(self).pieces_view()[p].storage;
                let n = final(self).pieces_view()[p].storage;
                &&& final(self).same_but_storage(old(self), p)
                &&& generation != st.generation_view() ==> r == Err::<(), SwarmError>(st.stale(generation))
                &&& generation == st.generation_view() && st.hash_view() != PieceHashJoinState::Running ==> r
                    == Err::<(), SwarmError>(SwarmError::InvalidTransition(ERR_NO_RUNNING_HASH))
                &&& generation == st.generation_view() && st.hash_view() == PieceHashJoinState::Running ==> r is Ok
                &&& r is Ok ==> n.hash_view() == (if passed {
                    PieceHashJoinState::Passed
                } else {
                    PieceHashJoinState::Failed
                }) && n.generation_view() == st.generation_view() && n.expected_view() == st.expected_view()
                    && n.completed_view() == st.completed_view() && n.write_failed_view() == st.write_failed_view()
            }),
            final(self).high_water_view() >= old(self).high_water_view(),
    {
        let p = match self.find_piece(piece) {
            Some(p) => p,
            None => {
                return Err(SwarmError::UnknownPiece(piece));
            },
        };
        proof {
            lemma_found_piece(self, p as int, piece);
        }
        let result = self.pieces[p].storage.hash_completed(generation, passed);
        proof {
            lemma_pieces_update(old(self).pieces@, self.pieces@, p as int, self.piece_count);
        }
        result?;
        Ok(())
    }

    pub fn mark_piece_verified(&mut self, piece: u32) -> (r: Result<Vec<ConnectionId>, SwarmError>)
        requires
            old(self).wf(),
        ensures
            final(self).wf(),
            final(self).pending_dials_view() == old(self).pending_dials_view(),
            !old(self).has_piece(piece) ==> r == Err::<Vec<ConnectionId>, SwarmError>(SwarmError::UnknownPiece(piece)),
            r matches Ok(c) ==> ids_increasing(c@),
            r is Ok ==> final(self).has_piece(piece),
            r is Ok ==> forall|k: int|
                0 <= k < final(self).pieces_view().len() && (#[trigger] final(self).pieces_view()[k]).index == piece
                    ==> final(self).pieces_view()[k].verified && !final(self).pieces_view()[k].active,
            old(self).has_piece(piece) ==> ({
                let pc = old(self).pieces_view()[old(self).piece_position(piece)->0];
                &&& !storage_ready(pc.storage) ==> r == Err::<Vec<ConnectionId>, SwarmError>(
                    SwarmError::InvalidTransition(ERR_HASH_EARLY),
                )
                &&& r is Ok <==> storage_ready(pc.storage) && old(self).verify_rest(piece)
                &&& r matches Ok(c) ==> forall|x: ConnectionId| #[trigger] c@.contains(x) <==> contributed(pc.blocks@, x)
                &&& r is Ok ==> final(self).tallies().verified_blocks == old(self).tallies().verified_blocks
                    + pc.blocks@.len() && final(self).tallies().received_blocks == old(self).tallies().received_blocks
                    - pc.blocks@.len() && final(self).missing_count() == old(self).missing_count()
            }),
            r is Ok ==> ({
                let p = old(self).piece_position(piece)->0;
                &&& final(self).pieces_view()[p].blocks@.len() == old(self).pieces_view()[p].blocks@.len()
                &&& forall|j: int|
                    0 <= j < final(self).pieces_view()[p].blocks@.len() ==> (#[trigger] final(self).pieces_view()[p].blocks@[j]).phase
                        == BlockPhase::Verified
            }),
            final(self).high_water_view() >= old(self).high_water_view(),
    {
        let generation = self.piece_generation(piece)?;
        let ghost p = old(self).piece_position(piece)->0;
        self.begin_piece_hash(piece, generation)?;
        let ghost s1 = *self;
        self.finish_piece_hash(piece, generation, true)?;
        proof {
            lemma_same_but_storage_trans(self, &s1, old(self), p);
            lemma_found_piece(self, p, piece);
            lemma_same_but_storage_rest(self, old(self), p, piece);
        }
        self.mark_piece_verified_for_generation(piece, generation)
    }

    /// The sources of the piece's stored blocks, each backed by the attempt
    /// whose payload it stored.
    fn piece_contributor_sources(&self, p: usize) -> (r: Result<Vec<ConnectionId>, SwarmError>)
        requires
            self.wf(),
            p < self.pieces@.len(),
        ensures
            r is Ok <==> forall|b: int|
                0 <= b < self.pieces@[p as int].blocks@.len() ==> #[trigger] backed_contribution(
                    self.pieces@[p as int].blocks@[b],
                ),
            r matches Ok(v) ==> v@.len() == self.pieces@[p as int].blocks@.len() && forall|b: int|
                0 <= b < v@.len() ==> received_from(self.pieces@[p as int].blocks@[b], #[trigger] v@[b]),
    {
        let mut sources: Vec<ConnectionId> = Vec::new();
        let mut b: usize = 0;
        while b < self.pieces[p].blocks.len()
            invariant
                self.wf(),
                p < self.pieces@.len(),
                b <= self.pieces@[p as int].blocks@.len(),
                sources@.len() == b,
                forall|x: int| 0 <= x < b ==> #[trigger] backed_contribution(self.pieces@[p as int].blocks@[x]),
                forall|x: int|
                    0 <= x < b ==> received_from(self.pieces@[p as int].blocks@[x], #[trigger] sources@[x]),
            decreases self.pieces@[p as int].blocks@.len() - b,
        {
            let entry = &self.pieces[p].blocks[b];
            match entry.phase {
                BlockPhase::Received { source, evidence } => {
                    if !has_payload_evidence(&entry.attempts, evidence, source) {
                        assert(!backed_contribution(self.pieces@[p as int].blocks@[b as int]));
                        return Err(SwarmError::Invariant(ERR_CONTRIBUTOR_EVIDENCE));
                    }
                    sources.push(source);
                    assert(backed_contribution(self.pieces@[p as int].blocks@[b as int]));
                },
                _ => {
                    assert(!backed_contribution(self.pieces@[p as int].blocks@[b as int]));
                    return Err(SwarmError::InvalidTransition(ERR_CONTRIBUTOR_EARLY));
                },
            }
            b += 1;
        }
        Ok(sources)
    }

    /// Marks every block of the piece at `p` with `phase`.
    fn set_all_phases(&mut self, p: usize, phase: BlockPhase)
        requires
            old(self).wf(),
            p < old(self).pieces@.len(),
        ensures
            final(self).wf(),
            final(self).same_but_pieces(old(self)),
            final(self).pieces@.len() == old(self).pieces@.len(),
            forall|k: int| 0 <= k < final(self).pieces@.len() ==> (#[trigger] final(self).pieces@[k]).index == old(self).pieces@[k].index,
            same_piece_shape(old(self).pieces@[p as int], final(self).pieces@[p as int]),
            forall|j: int|
                0 <= j < final(self).pieces@[p as int].blocks@.len() ==> (#[trigger] final(self).pieces@[p as int].blocks@[j]).phase
                    == phase,
            final(self).high_water_view() >= old(self).high_water_view(),
    {
        let n = self.pieces[p].blocks.len();
        let mut b: usize = 0;
        while b < n
            invariant
                self.outstanding_request_high_water >= old(self).outstanding_request_high_water,
                self.wf(),
                self.same_but_pieces(old(self)),
                p < self.pieces@.len(),
                n == self.pieces@[p as int].blocks@.len(),
                b <= n,
                self.pieces@.len() == old(self).pieces@.len(),
                forall|k: int| 0 <= k < self.pieces@.len() ==> (#[trigger] self.pieces@[k]).index == old(self).pieces@[k].index,
                same_piece_shape(old(self).pieces@[p as int], self.pieces@[p as int]),
                forall|j: int| 0 <= j < b ==> (#[trigger] self.pieces@[p as int].blocks@[j]).phase == phase,
            decreases n - b,
        {
            self.set_phase(p, b, phase);
            b += 1;
        }
    }

    /// Accepts a piece whose writes and hash check of `generation` passed:
    /// its blocks become verified and the distinct contributors are returned
    /// in identifier order.
    pub fn mark_piece_verified_for_generation(&mut self, piece: u32, generation: PieceGeneration) -> (r: Result<Vec<ConnectionId>, SwarmError>)
        requires
            old(self).wf(),
        ensures
            final(self).wf(),
            final(self).pending_dials_view() == old(self).pending_dials_view(),
            !old(self).has_piece(piece) ==> r == Err::<Vec<ConnectionId>, SwarmError>(SwarmError::UnknownPiece(piece)),
            old(self).has_piece(piece) ==> ({
                let pc = old(self).pieces_view()[old(self).piece_position(piece)->0];
                let st = pc.storage;
                &&& generation != st.generation_view() ==> r == Err::<Vec<ConnectionId>, SwarmError>(st.stale(generation))
                &&& generation == st.generation_view() && st.outcome_view() != PieceStorageOutcome::Verified ==> r
                    == Err::<Vec<ConnectionId>, SwarmError>(SwarmError::InvalidTransition(ERR_VERIFY_EARLY))
                &&& generation == st.generation_view() && st.outcome_view() == PieceStorageOutcome::Verified
                    && !every_block_received(pc.blocks@) ==> r == Err::<Vec<ConnectionId>, SwarmError>(
                    SwarmError::InvalidTransition(ERR_VERIFY_UNSTORED),
                )
                &&& r matches Ok(c) ==> forall|x: ConnectionId| #[trigger] c@.contains(x) <==> contributed(pc.blocks@, x)
                &&& r is Ok ==> final(self).tallies().verified_blocks == old(self).tallies().verified_blocks
                    + pc.blocks@.len() && final(self).tallies().received_blocks == old(self).tallies().received_blocks
                    - pc.blocks@.len() && final(self).missing_count() == old(self).missing_count()
            }),
            r is Ok <==> old(self).verify_succeeds(piece, generation),
            r matches Ok(c) ==> ids_increasing(c@),
            r is Ok ==> old(self).has_piece(piece) && final(self).has_piece(piece),
            r is Ok ==> forall|k: int|
                0 <= k < final(self).pieces_view().len() && (#[trigger] final(self).pieces_view()[k]).index == piece
                    ==> final(self).pieces_view()[k].verified && !final(self).pieces_view()[k].active,
            !old(self).has_piece(piece) ==> *final(self) == *old(self),
            old(self).has_piece(piece) ==> ({
                let st = old(self).pieces_view()[old(self).piece_position(piece)->0].storage;
                let blocks = old(self).pieces_view()[old(self).piece_position(piece)->0].blocks@;
                (generation != st.generation_view() || st.outcome_view() != PieceStorageOutcome::Verified
                    || !every_block_received(blocks)) ==> *final(self) == *old(self)
            }),
            r is Ok ==> ({
                let p = old(self).piece_position(piece)->0;
                &&& final(self).pieces_view()[p].blocks@.len() == old(self).pieces_view()[p].blocks@.len()
                &&& forall|j: int|
                    0 <= j < final(self).pieces_view()[p].blocks@.len() ==> (#[trigger] final(self).pieces_view()[p].blocks@[j]).phase
                        == BlockPhase::Verified
            }),
            final(self).high_water_view() >= old(self).high_water_view(),
    {
        let p = match self.find_piece(piece) {
            Some(p) => p,
            None => {
                return Err(SwarmError::UnknownPiece(piece));
            },
        };
        proof {
            lemma_found_piece(self, p as int, piece);
        }
        let ghost blocks0 = self.pieces@[p as int].blocks@;
        self.pieces[p].storage.validate_generation(generation)?;
        if !matches!(self.pieces[p].storage.outcome(), PieceStorageOutcome::Verified) {
            return Err(SwarmError::InvalidTransition(ERR_VERIFY_EARLY));
        }
        if !all_blocks_received(&self.pieces[p]) {
            proof {
                lemma_backed_all_received(blocks0);
            }
            return Err(SwarmError::InvalidTransition(ERR_VERIFY_UNSTORED));
        }
        let sources = self.piece_contributor_sources(p)?;
        let contributors = distinct_sorted(&sources);
        proof {
            lemma_contributors_exact(blocks0, sources@, contributors@);
        }
        let count = self.pieces[p].blocks.len();
        let received = match self.received_blocks.checked_sub(count) {
            Some(v) => v,
            None => {
                return Err(SwarmError::Invariant(ERR_RECEIVED_UNDERFLOW));
            },
        };
        let verified = match self.verified_blocks.checked_add(count) {
            Some(v) => v,
            None => {
                return Err(SwarmError::ArithmeticOverflow(OWNER_VERIFIED));
            },
        };
        if self.pieces[p].verified {
            return Err(SwarmError::Invariant(ERR_NOT_INCOMPLETE));
        }
        self.set_all_phases(p, BlockPhase::Verified);
        self.received_blocks = received;
        self.verified_blocks = verified;
        let ghost before = self.pieces@;
        self.pieces[p].verified = true;
        proof {
            lemma_pieces_update(before, self.pieces@, p as int, self.piece_count);
        }
        match self.picker.mark_completed(piece as usize) {
            Ok(()) => {},
            Err(m) => {
                return Err(SwarmError::Invariant(m));
            },
        }
        let ghost pieces_marked = self.pieces@;
        let mut c: usize = 0;
        while c < self.connections.len()
            invariant
                self.outstanding_request_high_water >= old(self).outstanding_request_high_water,
                self.wf(),
                self.pending_dials@ == old(self).pending_dials@,
                self.pieces@.len() == old(self).pieces@.len(),
                old(self).has_piece(piece),
                p < self.pieces@.len(),
                self.pieces@[p as int].verified,
                self.pieces@[p as int].index == piece,
                c <= self.connections@.len(),
                self.pieces@ == pieces_marked,
                self.received_blocks == received,
                self.verified_blocks == verified,
                self.missing_blocks == old(self).missing_blocks,
                self.active_piece_bytes == old(self).active_piece_bytes,
                self.connections@.len() == old(self).connections@.len(),
                old(self).piece_position(piece) == Some(p as int),
                generation == old(self).pieces@[p as int].storage.generation_view(),
                old(self).pieces@[p as int].storage.outcome_view() == PieceStorageOutcome::Verified,
                every_block_received(old(self).pieces@[p as int].blocks@),
                forall|x: int| c <= x < self.connections@.len() ==> #[trigger] self.connections@[x] == old(self).connections@[x],
                forall|x: int|
                    0 <= x < c && (#[trigger] old(self).connections@[x]).availability@[piece as int]
                        ==> old(self).connections@[x].wanted_piece_count >= 1,
            decreases self.connections@.len() - c,
        {
            proof {
                assert(self.connections@[c as int].wf(self.piece_count));
                assert(self.pieces@[p as int].wf(self.piece_count));
            }
            if (piece as usize) < self.connections[c].availability.len() && self.connections[c].availability[piece as usize] {
                let wanted = match self.connections[c].wanted_piece_count.checked_sub(1) {
                    Some(v) => v,
                    None => {
                        proof {
                            assert(old(self).connections@[c as int].availability@[piece as int]);
                        }
                        return Err(SwarmError::Invariant(ERR_WANTED_UNDERFLOW));
                    },
                };
                let ghost before = self.connections@;
                self.connections[c].wanted_piece_count = wanted;
                proof {
                    lemma_connections_update(before, self.connections@, c as int, self.piece_count);
                }
            }
            c += 1;
        }
        self.deactivate_at(p)?;
        proof {
            assert forall|k: int|
                0 <= k < self.pieces_view().len() && (#[trigger] self.pieces_view()[k]).index == piece implies k == p by {
                if k < p {
                    assert(self.pieces@[k].index < self.pieces@[p as int].index);
                } else if k > p {
                    assert(self.pieces@[p as int].index < self.pieces@[k].index);
                }
            }
            assert(holds_index(self.pieces_view(), piece)) by {
                assert(self.pieces_view()[p as int].index == piece);
            }
        }
        Ok(contributors)
    }

    pub fn mark_piece_hash_failed(&mut self, piece: u32) -> (r: Result<PieceHashFailure, SwarmError>)
        requires
            old(self).wf(),
        ensures
            final(self).wf(),
            final(self).pending_dials_view() == old(self).pending_dials_view(),
            !old(self).has_piece(piece) ==> r == Err::<PieceHashFailure, SwarmError>(SwarmError::UnknownPiece(piece)),
            r matches Ok(f) ==> f.piece == piece && ids_increasing(f.contributors@),
            r is Ok ==> forall|k: int|
                0 <= k < final(self).pieces_view().len() && (#[trigger] final(self).pieces_view()[k]).index == piece
                    ==> !final(self).pieces_view()[k].active && forall|j: int|
                    0 <= j < final(self).pieces_view()[k].blocks@.len() ==> (#[trigger] final(self).pieces_view()[k].blocks@[j]).phase
                        == BlockPhase::Missing,
            old(self).has_piece(piece) ==> ({
                let pc = old(self).pieces_view()[old(self).piece_position(piece)->0];
                &&& !storage_ready(pc.storage) ==> r == Err::<PieceHashFailure, SwarmError>(
                    SwarmError::InvalidTransition(ERR_HASH_EARLY),
                )
                &&& r is Ok <==> storage_ready(pc.storage) && old(self).fail_rest(piece)
                &&& r matches Ok(f) ==> f.failed_bytes == block_bytes(pc.blocks@) && forall|x: ConnectionId|
                    #[trigger] f.contributors@.contains(x) <==> contributed(pc.blocks@, x)
                &&& r is Ok ==> final(self).missing_count() == old(self).missing_count() + pc.blocks@.len()
                    && final(self).tallies().received_blocks == old(self).tallies().received_blocks - pc.blocks@.len()
            }),
            final(self).high_water_view() >= old(self).high_water_view(),
    {
        let generation = self.piece_generation(piece)?;
        let ghost p = old(self).piece_position(piece)->0;
        self.begin_piece_hash(piece, generation)?;
        let ghost s1 = *self;
        self.finish_piece_hash(piece, generation, false)?;
        proof {
            lemma_same_but_storage_trans(self, &s1, old(self), p);
            lemma_found_piece(self, p, piece);
            lemma_same_but_storage_rest(self, old(self), p, piece);
        }
        self.mark_piece_hash_failed_for_generation(piece, generation)
    }

    /// Resets a piece whose writes or hash check of `generation` failed: its
    /// blocks become missing, its storage starts the next generation, and the
    /// distinct contributors and failed bytes are reported.
    pub fn mark_piece_hash_failed_for_generation(&mut self, piece: u32, generation: PieceGeneration) -> (r: Result<PieceHashFailure, SwarmError>)
        requires
            old(self).wf(),
        ensures
            final(self).wf(),
            final(self).pending_dials_view() == old(self).pending_dials_view(),
            !old(self).has_piece(piece) ==> r == Err::<PieceHashFailure, SwarmError>(SwarmError::UnknownPiece(piece)),
            old(self).has_piece(piece) ==> ({
                let p = old(self).piece_position(piece)->0;
                let pc = old(self).pieces_view()[p];
                let st = pc.storage;
                &&& generation != st.generation_view() ==> r == Err::<PieceHashFailure, SwarmError>(st.stale(generation))
                &&& generation == st.generation_view() && st.outcome_view() != PieceStorageOutcome::Failed ==> r
                    == Err::<PieceHashFailure, SwarmError>(SwarmError::InvalidTransition(ERR_FAIL_EARLY))
                &&& generation == st.generation_view() && st.outcome_view() == PieceStorageOutcome::Failed
                    && !every_block_received(pc.blocks@) ==> r == Err::<PieceHashFailure, SwarmError>(
                    SwarmError::InvalidTransition(ERR_FAIL_UNSTORED),
                )
                &&& r matches Ok(f) ==> forall|x: ConnectionId| #[trigger] f.contributors@.contains(x) <==> contributed(pc.blocks@, x)
                &&& r is Ok ==> final(self).pieces_view()[p].storage.generation_view().value() == st.generation_view().value() + 1
                &&& r is Ok ==> final(self).missing_count() == old(self).missing_count() + pc.blocks@.len()
                    && final(self).tallies().received_blocks == old(self).tallies().received_blocks - pc.blocks@.len()
            }),
            r is Ok <==> old(self).fail_succeeds(piece, generation),
            r matches Ok(f) ==> f.piece == piece && ids_increasing(f.contributors@),
            r matches Ok(f) ==> old(self).has_piece(piece) && f.failed_bytes == block_bytes(
                old(self).pieces_view()[old(self).piece_position(piece)->0].blocks@,
            ),
            r is Ok ==> forall|k: int|
                0 <= k < final(self).pieces_view().len() && (#[trigger] final(self).pieces_view()[k]).index == piece
                    ==> !final(self).pieces_view()[k].active && forall|j: int|
                    0 <= j < final(self).pieces_view()[k].blocks@.len() ==> (#[trigger] final(self).pieces_view()[k].blocks@[j]).phase
                        == BlockPhase::Missing,
            !old(self).has_piece(piece) ==> *final(self) == *old(self),
            old(self).has_piece(piece) ==> ({
                let st = old(self).pieces_view()[old(self).piece_position(piece)->0].storage;
                let blocks = old(self).pieces_view()[old(self).piece_position(piece)->0].blocks@;
                (generation != st.generation_view() || st.outcome_view() != PieceStorageOutcome::Failed
                    || !every_block_received(blocks)) ==> *final(self) == *old(self)
            }),
            final(self).high_water_view() >= old(self).high_water_view(),
    {
        let p = match self.find_piece(piece) {
            Some(p) => p,
            None => {
                return Err(SwarmError::UnknownPiece(piece));
            },
        };
        proof {
            lemma_found_piece(self, p as int, piece);
        }
        let ghost blocks0 = self.pieces@[p as int].blocks@;
        self.pieces[p].storage.validate_generation(generation)?;
        if !matches!(self.pieces[p].storage.outcome(), PieceStorageOutcome::Failed) {
            return Err(SwarmError::InvalidTransition(ERR_FAIL_EARLY));
        }
        if !all_blocks_received(&self.pieces[p]) {
            proof {
                lemma_backed_all_received(blocks0);
            }
            return Err(SwarmError::InvalidTransition(ERR_FAIL_UNSTORED));
        }
        let sources = self.piece_contributor_sources(p)?;
        let contributors = distinct_sorted(&sources);
        proof {
            lemma_contributors_exact(blocks0, sources@, contributors@);
        }
        let mut failed_bytes: usize = 0;
        let mut b: usize = 0;
        while b < self.pieces[p].blocks.len()
            invariant
                self.outstanding_request_high_water >= old(self).outstanding_request_high_water,
                self.wf(),
                self.pending_dials@ == old(self).pending_dials@,
                old(self).has_piece(piece),
                p < self.pieces@.len(),
                self.pieces@ == old(self).pieces@,
                b <= self.pieces@[p as int].blocks@.len(),
                failed_bytes == block_bytes(self.pieces@[p as int].blocks@.take(b as int)),
                old(self).piece_position(piece) == Some(p as int),
                generation == old(self).pieces@[p as int].storage.generation_view(),
                old(self).pieces@[p as int].storage.outcome_view() == PieceStorageOutcome::Failed,
                every_block_received(old(self).pieces@[p as int].blocks@),
            decreases self.pieces@[p as int].blocks@.len() - b,
        {
            proof {
                let blocks = self.pieces@[p as int].blocks@;
                assert(blocks.take(b + 1).drop_last() =~= blocks.take(b as int));
            }
            failed_bytes = match failed_bytes.checked_add(self.pieces[p].blocks[b].key.length as usize) {
                Some(v) => v,
                None => {
                    proof {
                        lemma_block_bytes_prefix(self.pieces@[p as int].blocks@, b + 1);
                    }
                    return Err(SwarmError::ArithmeticOverflow(OWNER_FAILED_BYTES));
                },
            };
            b += 1;
        }
        let count = self.pieces[p].blocks.len();
        let received = match self.received_blocks.checked_sub(count) {
            Some(v) => v,
            None => {
                return Err(SwarmError::Invariant(ERR_RECEIVED_UNDERFLOW));
            },
        };
        let missing = match self.missing_blocks.checked_add(count) {
            Some(v) => v,
            None => {
                return Err(SwarmError::ArithmeticOverflow(OWNER_MISSING));
            },
        };
        self.set_all_phases(p, BlockPhase::Missing);
        self.received_blocks = received;
        self.missing_blocks = missing;
        self.deactivate_at(p)?;
        let ghost before = self.pieces@;
        let reset = self.pieces[p].storage.reset();
        proof {
            lemma_pieces_update(before, self.pieces@, p as int, self.piece_count);
        }
        reset?;
        self.piece_hash_failures = self.piece_hash_failures.saturating_add(1);
        self.failed_piece_bytes = self.failed_piece_bytes.saturating_add(failed_bytes);
        self.last_hash_failure_contributors = contributors.len();
        proof {
            lemma_found_piece(old(self), p as int, piece);
            assert(old(self).pieces@[p as int].blocks@.take(old(self).pieces@[p as int].blocks@.len() as int)
                =~= old(self).pieces@[p as int].blocks@);
            assert forall|k: int|
                0 <= k < self.pieces_view().len() && (#[trigger] self.pieces_view()[k]).index == piece implies k == p by {
                if k < p {
                    assert(self.pieces@[k].index < self.pieces@[p as int].index);
                } else if k > p {
                    assert(self.pieces@[p as int].index < self.pieces@[k].index);
                }
            }
        }
        Ok(PieceHashFailure { piece, contributors, failed_bytes })
    }

    /// The active request attempts, in attempt order.
    pub closed spec fn active_view(&self) -> Seq<RequestAttempt> {
        self.active_attempts@
    }

    /// Oldest issue time among the active attempts of `connection`.
    fn oldest_issued_for(&self, connection: ConnectionId) -> (r: Option<u64>)
        ensures
            r == oldest_issue_of(self.active_view(), connection),
    {
        let mut oldest: Option<u64> = None;
        let mut i: usize = 0;
        while i < self.active_attempts.len()
            invariant
                i <= self.active_attempts@.len(),
                oldest == oldest_issue_of(self.active_attempts@.take(i as int), connection),
            decreases self.active_attempts@.len() - i,
        {
            proof {
                assert(self.active_attempts@.take(i + 1).drop_last() =~= self.active_attempts@.take(i as int));
            }
            let a = self.active_attempts[i];
            if a.connection.same(connection) {
                oldest = match oldest {
                    None => Some(a.issued_at),
                    Some(o) => Some(if a.issued_at < o {
                        a.issued_at
                    } else {
                        o
                    }),
                };
            }
            i += 1;
        }
        proof {
            assert(self.active_attempts@.take(self.active_attempts@.len() as int) =~= self.active_attempts@);
        }
        oldest
    }

    /// Expires every active attempt whose own timeout passed, and every active
    /// attempt of a connection that stalled (no payload within its adaptive
    /// timeout); stalled connections shrink their window to one probe.
    pub fn expire_requests(&mut self, now: u64) -> (r: Result<Vec<ExpiredRequest>, SwarmError>)
        requires
            old(self).wf(),
        ensures
            final(self).wf(),
            final(self).pending_dials_view() == old(self).pending_dials_view(),
            final(self).config_view() == old(self).config_view(),
            r matches Ok(v) ==> forall|i: int| 0 <= i < v@.len() ==> was_active(old(self).active_view(), #[trigger] v@[i]),
            r matches Ok(v) ==> forall|a: RequestAttempt|
                #[trigger] final(self).active_view().contains(a) <==> old(self).active_view().contains(a)
                    && !expired_names(v@, a.id),
            r matches Ok(v) ==> forall|a: RequestAttempt|
                old(self).active_view().contains(a) && now - a.issued_at >= old(self).config_view().request_timeout
                    ==> #[trigger] expired_names(v@, a.id),
            old(self).expiry_quiet(now) ==> (r matches Ok(v) && v@.len() == 0) && *final(self) == *old(self),
            final(self).high_water_view() >= old(self).high_water_view(),
    {
        let active = copy_attempts(&self.active_attempts);
        let config = self.config;
        let mut stalled: Vec<ConnectionId> = Vec::new();
        let ghost quiet = old(self).expiry_quiet(now);
        let mut c: usize = 0;
        while c < self.connections.len()
            invariant
                self.outstanding_request_high_water >= old(self).outstanding_request_high_water,
                self.wf(),
                c <= self.connections@.len(),
                *self == *old(self),
                config == self.config,
                quiet == old(self).expiry_quiet(now),
                quiet ==> stalled@.len() == 0,
            decreases self.connections@.len() - c,
        {
            proof {
                assert(self.connections@[c as int].wf(self.piece_count));
                assert(self.connections_view()[c as int] == self.connections@[c as int]);
            }
            let id = self.connections[c].id;
            if let Some(oldest) = self.oldest_issued_for(id) {
                if now >= self.connections[c].request_window.stall_deadline(oldest, config) {
                    stalled.push(id);
                }
            }
            c += 1;
        }
        let mut expired: Vec<ExpiredRequest> = Vec::new();
        let mut k: usize = 0;
        while k < active.len()
            invariant
                self.outstanding_request_high_water >= old(self).outstanding_request_high_water,
                self.wf(),
                self.pending_dials@ == old(self).pending_dials@,
                self.config == old(self).config,
                config == old(self).config,
                active@ == old(self).active_attempts@,
                k <= active@.len(),
                forall|i: int| 0 <= i < expired@.len() ==> was_active(active@, #[trigger] expired@[i]),
                attempt_ids_distinct(active@),
                forall|a: RequestAttempt|
                    #[trigger] self.active_attempts@.contains(a) <==> active@.contains(a) && !expired_names(expired@, a.id),
                forall|i: int|
                    0 <= i < k && now - active@[i].issued_at >= config.request_timeout ==> expired_names(
                        expired@,
                        #[trigger] active@[i].id,
                    ),
                forall|i: int|
                    0 <= i < expired@.len() ==> exists|x: int|
                        0 <= x < k && #[trigger] active@[x].id == (#[trigger] expired@[i]).attempt,
                quiet == old(self).expiry_quiet(now),
                quiet ==> stalled@.len() == 0 && expired@.len() == 0 && *self == *old(self),
            decreases active@.len() - k,
        {
            proof {
                assert(old(self).active_view() == active@);
                if quiet {
                    assert(!stalled@.contains(active@[k as int].connection));
                }
            }
            let attempt = active[k];
            let ghost current = self.active_attempts@;
            let by_connection = contains_connection(&stalled, attempt.connection);
            let by_request = now.saturating_sub(attempt.issued_at) >= config.request_timeout;
            if by_connection || by_request {
                if by_request && !by_connection {
                    stalled.push(attempt.connection);
                }
                self.terminate_requested(attempt.block, attempt.id, RequestDisposition::Expired)?;
                let ghost before = expired@;
                expired.push(ExpiredRequest { attempt: attempt.id, connection: attempt.connection, block: attempt.block });
                proof {
                    let j = choose|j: int|
                        0 <= j < current.len() && current[j].id == attempt.id
                            && #[trigger] self.active_attempts@ == current.remove(j);
                    assert(current.contains(current[j]));
                    let x = choose|x: int| 0 <= x < active@.len() && active@[x] == current[j];
                    assert(active@[k as int] == attempt);
                    assert(x == k);
                    lemma_remove_distinct(current, j);
                    assert forall|a: RequestAttempt|
                        #[trigger] self.active_attempts@.contains(a) <==> active@.contains(a) && !expired_names(expired@, a.id) by {
                        assert(expired@[before.len() as int].attempt == attempt.id);
                        if expired_names(expired@, a.id) && a.id != attempt.id {
                            let i = choose|i: int| 0 <= i < expired@.len() && #[trigger] expired@[i].attempt == a.id;
                            assert(i < before.len());
                            assert(before[i].attempt == a.id);
                        }
                        if expired_names(before, a.id) {
                            let i = choose|i: int| 0 <= i < before.len() && #[trigger] before[i].attempt == a.id;
                            assert(expired@[i].attempt == a.id);
                        }
                        if active@.contains(a) && a.id == attempt.id {
                            let y = choose|y: int| 0 <= y < active@.len() && active@[y] == a;
                            assert(y == k);
                        }
                    }
                    assert forall|i: int|
                        0 <= i < k + 1 && now - active@[i].issued_at >= config.request_timeout implies expired_names(
                        expired@,
                        #[trigger] active@[i].id,
                    ) by {
                        if i < k {
                            let e = choose|e: int| 0 <= e < before.len() && #[trigger] before[e].attempt == active@[i].id;
                            assert(expired@[e].attempt == active@[i].id);
                        } else {
                            assert(expired@[before.len() as int].attempt == active@[i].id);
                        }
                    }
                    assert forall|i: int| 0 <= i < expired@.len() implies exists|x: int|
                        0 <= x < k + 1 && #[trigger] active@[x].id == (#[trigger] expired@[i]).attempt by {
                        if i < before.len() {
                            assert(expired@[i] == before[i]);
                        } else {
                            assert(active@[k as int].id == expired@[i].attempt);
                        }
                    }
                    assert forall|i: int| 0 <= i < expired@.len() implies was_active(active@, #[trigger] expired@[i]) by {
                        if i < before.len() {
                            assert(expired@[i] == before[i]);
                        } else {
                            assert(active@[k as int].id == expired@[i].attempt);
                        }
                    }
                }
            }
            k += 1;
        }
        proof {
            assert forall|a: RequestAttempt|
                old(self).active_attempts@.contains(a) && now - a.issued_at >= config.request_timeout implies
                #[trigger] expired_names(expired@, a.id) by {
                let i = choose|i: int| 0 <= i < active@.len() && active@[i] == a;
                assert(now - active@[i].issued_at >= config.request_timeout);
            }
        }
        let ghost settled = self.active_attempts@;
        let mut s: usize = 0;
        while s < stalled.len()
            invariant
                self.outstanding_request_high_water >= old(self).outstanding_request_high_water,
                self.wf(),
                self.pending_dials@ == old(self).pending_dials@,
                self.config == old(self).config,
                self.active_attempts@ == settled,
                s <= stalled@.len(),
                quiet == old(self).expiry_quiet(now),
                quiet ==> stalled@.len() == 0 && expired@.len() == 0 && *self == *old(self),
            decreases stalled@.len() - s,
        {
            if let Some(c) = self.find_connection(stalled[s]) {
                let ghost before = self.connections@;
                self.connections[c].request_window.stalled(now);
                proof {
                    lemma_connections_update(before, self.connections@, c as int, self.piece_count);
                }
            }
            s += 1;
        }
        Ok(expired)
    }

    /// Postpones every peer deadline by `delay`: request issue times,
    /// connection ages and rate samples.
    pub fn defer_peer_deadlines(&mut self, delay: u64)
        requires
            old(self).wf(),
        ensures
            final(self).wf(),
            final(self).pending_dials_view() == old(self).pending_dials_view(),
            final(self).active_view().len() == old(self).active_view().len(),
            forall|i: int|
                0 <= i < final(self).active_view().len() ==> (#[trigger] final(self).active_view()[i]) == (RequestAttempt {
                    issued_at: old(self).active_view()[i].issued_at.saturating_add(delay),
                    ..old(self).active_view()[i]
                }),
            final(self).high_water_view() >= old(self).high_water_view(),
    {
        if delay == 0 {
            assert forall|i: int| 0 <= i < self.active_attempts@.len() implies (#[trigger] self.active_attempts@[i]) == (RequestAttempt {
                issued_at: old(self).active_attempts@[i].issued_at.saturating_add(delay),
                ..old(self).active_attempts@[i]
            }) by {}
            return ;
        }
        let n = self.active_attempts.len();
        let mut i: usize = 0;
        while i < n
            invariant
                self.outstanding_request_high_water >= old(self).outstanding_request_high_water,
                self.wf(),
                self.pending_dials@ == old(self).pending_dials@,
                n == self.active_attempts@.len(),
                n == old(self).active_attempts@.len(),
                i <= n,
                forall|k: int| 0 <= k < i ==> (#[trigger] self.active_attempts@[k]) == (RequestAttempt {
                    issued_at: old(self).active_attempts@[k].issued_at.saturating_add(delay),
                    ..old(self).active_attempts@[k]
                }),
                forall|k: int| i <= k < n ==> (#[trigger] self.active_attempts@[k]) == old(self).active_attempts@[k],
            decreases n - i,
        {
            let a = self.active_attempts[i];
            let moved = RequestAttempt { issued_at: a.issued_at.saturating_add(delay), ..a };
            self.active_attempts.set(i, moved);
            if let Some((p, b)) = self.find_block(a.block) {
                if let Some(x) = find_attempt(&self.pieces[p].blocks[b].attempts, a.id) {
                    let retained = self.pieces[p].blocks[b].attempts[x];
                    let ghost before = self.pieces@;
                    self.pieces[p].blocks[b].attempts.set(x, RequestAttempt { issued_at: moved.issued_at, ..retained });
                    proof {
                        lemma_pieces_update(before, self.pieces@, p as int, self.piece_count);
                    }
                }
            }
            i += 1;
        }
        let mut c: usize = 0;
        while c < self.connections.len()
            invariant
                self.outstanding_request_high_water >= old(self).outstanding_request_high_water,
                self.wf(),
                self.pending_dials@ == old(self).pending_dials@,
                self.active_attempts@.len() == old(self).active_attempts@.len(),
                forall|k: int| 0 <= k < self.active_attempts@.len() ==> (#[trigger] self.active_attempts@[k]) == (RequestAttempt {
                    issued_at: old(self).active_attempts@[k].issued_at.saturating_add(delay),
                    ..old(self).active_attempts@[k]
                }),
                c <= self.connections@.len(),
            decreases self.connections@.len() - c,
        {
            let ghost before = self.connections@;
            let connected = self.connections[c].connected_at.saturating_add(delay);
            self.connections[c].connected_at = connected;
            let useful = match self.connections[c].last_useful_at {
                Some(t) => Some(t.saturating_add(delay)),
                None => None,
            };
            self.connections[c].last_useful_at = useful;
            let started = self.connections[c].request_window.sample_started_at.saturating_add(delay);
            self.connections[c].request_window.sample_started_at = started;
            let payload = match self.connections[c].request_window.last_payload_at {
                Some(t) => Some(t.saturating_add(delay)),
                None => None,
            };
            self.connections[c].request_window.last_payload_at = payload;
            proof {
                lemma_connections_update(before, self.connections@, c as int, self.piece_count);
            }
            c += 1;
        }
    }

    /// A Fast peer rejected its request for `block`: its active attempt ends
    /// as rejected and the piece leaves its advisories.
    pub fn reject_request(&mut self, connection: ConnectionId, block: BlockKey) -> (r: Result<RejectDisposition, SwarmError>)
        requires
            old(self).wf(),
        ensures
            final(self).wf(),
            final(self).pending_dials_view() == old(self).pending_dials_view(),
            !old(self).has_connection(connection) ==> r == Err::<RejectDisposition, SwarmError>(SwarmError::UnknownConnection(connection)),
            old(self).connection_index(connection) matches Some(i) ==> (!old(self).connections_view()[i].fast_extension
                ==> r == Ok::<RejectDisposition, SwarmError>(RejectDisposition::NeverRequested)),
            old(self).has_connection(connection) && old(self).entry_of(block) is None ==> r == Ok::<RejectDisposition, SwarmError>(RejectDisposition::NeverRequested),
            old(self).connection_index(connection) matches Some(i) ==> (old(self).connections_view()[i].fast_extension
                ==> (old(self).entry_of(block) matches Some(e) ==> ({
                &&& first_active_by(e.attempts@, connection) is None ==> r == Ok::<RejectDisposition, SwarmError>(
                    if last_attempt_of(e.attempts@, connection) is Some {
                        RejectDisposition::Stale
                    } else {
                        RejectDisposition::NeverRequested
                    },
                )
                &&& first_active_by(e.attempts@, connection) matches Some(a) ==> (r is Ok
                    <==> old(self).terminate_succeeds(block, a, RequestDisposition::Rejected)) && (r is Ok ==> r
                    == Ok::<RejectDisposition, SwarmError>(RejectDisposition::Accepted { attempt: a }))
            }))),
            final(self).high_water_view() >= old(self).high_water_view(),
    {
        let c = match self.find_connection(connection) {
            Some(c) => c,
            None => {
                return Err(SwarmError::UnknownConnection(connection));
            },
        };
        proof {
            lemma_connection_index(self, connection, c as int);
        }
        if !self.connections[c].fast_extension {
            return Ok(RejectDisposition::NeverRequested);
        }
        let (p, b) = match self.find_block(block) {
            Some(pair) => pair,
            None => {
                return Ok(RejectDisposition::NeverRequested);
            },
        };
        proof {
            self.lemma_block_piece(block);
        }
        let (any, active) = attempt_standing(&self.pieces[p].blocks[b].attempts, connection);
        let attempt = match active {
            Some(id) => id,
            None => {
                return Ok(if any {
                    RejectDisposition::Stale
                } else {
                    RejectDisposition::NeverRequested
                });
            },
        };
        self.terminate_requested(block, attempt, RequestDisposition::Rejected)?;
        if let Some(c) = self.find_connection(connection) {
            let ghost before = self.connections@;
            remove_u32(&mut self.connections[c].allowed_fast, block.piece);
            remove_u32(&mut self.connections[c].suggestions, block.piece);
            proof {
                lemma_connections_update(before, self.connections@, c as int, self.piece_count);
            }
        }
        Ok(RejectDisposition::Accepted { attempt })
    }

    /// Abandons all request ownership and unfinished writes, empties the
    /// working set and forgets pending dials.
    pub fn cancel_all(&mut self) -> (r: Result<(), SwarmError>)
        requires
            old(self).wf(),
        ensures
            final(self).wf(),
            r is Ok ==> final(self).pending_dials_view().len() == 0,
            r is Ok ==> final(self).active_view().len() == 0,
            r is Ok ==> forall|i: int| 0 <= i < final(self).pieces_view().len() ==> !(#[trigger] final(self).pieces_view()[i]).active,
            old(self).nothing_in_flight() ==> r is Ok,
            final(self).high_water_view() >= old(self).high_water_view(),
    {
        let ghost quiet = old(self).nothing_in_flight();
        proof {
            assert(old(self).active_view() == old(self).active_attempts@);
            assert(old(self).pieces_view() == old(self).pieces@);
        }
        let requested = copy_attempts(&self.active_attempts);
        let mut k: usize = 0;
        while k < requested.len()
            invariant
                self.outstanding_request_high_water >= old(self).outstanding_request_high_water,
                self.wf(),
                k <= requested@.len(),
                self.active_attempts@.len() + k == requested@.len(),
                quiet == old(self).nothing_in_flight(),
                quiet ==> requested@.len() == 0 && *self == *old(self),
            decreases requested@.len() - k,
        {
            let a = requested[k];
            self.terminate_requested(a.block, a.id, RequestDisposition::Cancelled)?;
            k += 1;
        }
        let mut p: usize = 0;
        let pieces_len = self.pieces.len();
        while p < pieces_len
            invariant
                self.outstanding_request_high_water >= old(self).outstanding_request_high_water,
                self.wf(),
                self.active_attempts@.len() == 0,
                pieces_len == self.pieces@.len(),
                p <= self.pieces@.len(),
                forall|x: int| 0 <= x < p ==> !(#[trigger] self.pieces@[x]).active,
                quiet == old(self).nothing_in_flight(),
                quiet ==> self.pieces@.len() == old(self).pieces@.len() && forall|x: int|
                    0 <= x < self.pieces@.len() ==> (#[trigger] self.pieces@[x]).blocks@ == old(self).pieces@[x].blocks@,
            decreases self.pieces@.len() - p,
        {
            let n = self.pieces[p].blocks.len();
            let mut b: usize = 0;
            while b < n
                invariant
                    self.outstanding_request_high_water >= old(self).outstanding_request_high_water,
                    self.wf(),
                    self.active_attempts@.len() == 0,
                    pieces_len == self.pieces@.len(),
                    p < self.pieces@.len(),
                    n == self.pieces@[p as int].blocks@.len(),
                    b <= n,
                    forall|x: int| 0 <= x < p ==> !(#[trigger] self.pieces@[x]).active,
                    quiet == old(self).nothing_in_flight(),
                    quiet ==> self.pieces@.len() == old(self).pieces@.len() && forall|x: int|
                        0 <= x < self.pieces@.len() ==> (#[trigger] self.pieces@[x]).blocks@ == old(self).pieces@[x].blocks@,
                decreases n - b,
            {
                proof {
                    if quiet {
                        assert(!(old(self).pieces_view()[p as int].blocks@[b as int].phase is Writing));
                    }
                }
                if matches!(self.pieces[p].blocks[b].phase, BlockPhase::Writing { .. }) {
                    let writing = match self.writing_blocks.checked_sub(1) {
                        Some(v) => v,
                        None => {
                            return Err(SwarmError::Invariant(ERR_WRITING_UNDERFLOW));
                        },
                    };
                    let missing = match self.missing_blocks.checked_add(1) {
                        Some(v) => v,
                        None => {
                            return Err(SwarmError::ArithmeticOverflow(OWNER_MISSING));
                        },
                    };
                    self.set_phase(p, b, BlockPhase::Missing);
                    self.writing_blocks = writing;
                    self.missing_blocks = missing;
                }
                b += 1;
            }
            let ghost before = self.pieces@;
            self.pieces[p].active = false;
            proof {
                lemma_pieces_update(before, self.pieces@, p as int, self.piece_count);
            }
            p += 1;
        }
        self.active_piece_bytes = 0;
        self.pending_dials.clear();
        proof {
            assert(self.pieces_view() == self.pieces@);
            assert(self.active_view() == self.active_attempts@);
            assert(self.pending_dials@.no_duplicates());
        }
        Ok(())
    }

    pub fn block_status(&self, block: BlockKey) -> (r: Result<BlockStatus, SwarmError>)
        ensures
            self.entry_of(block) is None ==> r == Err::<BlockStatus, SwarmError>(SwarmError::UnknownBlock(block)),
            self.entry_of(block) matches Some(e) ==> r == Ok::<BlockStatus, SwarmError>(e.phase.status_spec()),
    {
        match self.find_block(block) {
            Some((p, b)) => {
                proof {
                    assert(self.pieces_view() == self.pieces@);
                }
                Ok(self.pieces[p].blocks[b].phase.status())
            },
            None => Err(SwarmError::UnknownBlock(block)),
        }
    }

    pub fn attempts_for(&self, block: BlockKey) -> (r: Result<Vec<RequestAttempt>, SwarmError>)
        ensures
            self.entry_of(block) is None ==> r == Err::<Vec<RequestAttempt>, SwarmError>(SwarmError::UnknownBlock(block)),
            self.entry_of(block) matches Some(e) ==> (r matches Ok(v) && v@ == e.attempts@),
    {
        match self.find_block(block) {
            Some((p, b)) => {
                proof {
                    assert(self.pieces_view() == self.pieces@);
                }
                Ok(copy_attempts(&self.pieces[p].blocks[b].attempts))
            },
            None => Err(SwarmError::UnknownBlock(block)),
        }
    }

    /// The connection is the only peer that announced some wanted piece.
    fn has_unique_wanted_piece(&self, c: usize) -> (r: bool)
        requires
            self.wf(),
            c < self.connections@.len(),
        ensures
            r == self.holds_unique_wanted(c as int),
    {
        let mut p: usize = 0;
        while p < self.piece_count
            invariant
                self.wf(),
                c < self.connections@.len(),
                p <= self.piece_count,
                forall|q: int| 0 <= q < p ==> !self.unique_wanted_at(c as int, q),
            decreases self.piece_count - p,
        {
            proof {
                assert(self.connections@[c as int].wf(self.piece_count));
            }
            if self.connections[c].availability[p] && self.picker.is_wanted(p) {
                match self.picker.availability(p) {
                    Some(a) => {
                        if a == 1 {
                            proof {
                                assert(self.unique_wanted_at(c as int, p as int));
                            }
                            return true;
                        }
                    },
                    None => {},
                }
            }
            p += 1;
        }
        false
    }

    /// Whether the connection at `c` holds piece `p`, which is wanted and
    /// held by no other connection.
    pub open spec fn unique_wanted_at(&self, c: int, p: int) -> bool {
        &&& 0 <= p < self.piece_count_view()
        &&& self.connections_view()[c].availability@[p]
        &&& self.picker_view().wanted@[p]
        &&& self.picker_view().avail(p) == 1
    }

    /// Whether the connection at `c` alone holds some wanted piece.
    pub open spec fn holds_unique_wanted(&self, c: int) -> bool {
        exists|p: int| #[trigger] self.unique_wanted_at(c, p)
    }

    /// The replacement key of the connection at `c` at `now`: its priority
    /// (no wanted piece, choking, idle), when it was last useful, when it
    /// connected and its position; none when it is still in its grace
    /// period, alone holds a wanted piece or is busy.
    pub open spec fn replacement_key(&self, c: int, now: u64) -> Option<(u8, Option<u64>, u64, usize)> {
        let state = self.connections_view()[c];
        let since = match state.last_useful_at {
            Some(t) => t,
            None => state.connected_at,
        };
        let idle_for: int = if now >= since {
            now - since
        } else {
            0
        };
        if idle_for < self.config_view().unproductive_grace || self.holds_unique_wanted(c) {
            None
        } else if state.wanted_piece_count == 0 {
            Some((0u8, state.last_useful_at, state.connected_at, c as usize))
        } else if state.choking {
            Some((1u8, state.last_useful_at, state.connected_at, c as usize))
        } else if state.active_request_count == 0 {
            Some((2u8, state.last_useful_at, state.connected_at, c as usize))
        } else {
            None
        }
    }

    /// Of two replaceable connections, the one replaced first (as the
    /// candidate is against every other) never has the higher priority; at
    /// equal priority it was never useful or last useful no later than the
    /// other, which must not be never useful while it was; with equal
    /// last-useful times it connected no later, and with equal connect times
    /// it comes first.
    pub proof fn lemma_replacement_prefers_least_recently_useful(&self, i: int, j: int, now: u64)
        requires
            0 <= i < self.connections_view().len(),
            0 <= j < self.connections_view().len(),
            i != j,
            self.replacement_key(i, now) is Some,
            self.replacement_key(j, now) is Some,
            replaces_before(self.replacement_key(i, now)->0, self.replacement_key(j, now)->0),
        ensures
            ({
                let a = self.connections_view()[i];
                let b = self.connections_view()[j];
                let pa = (self.replacement_key(i, now)->0).0;
                let pb = (self.replacement_key(j, now)->0).0;
                &&& pa <= pb
                &&& pa == pb ==> match (a.last_useful_at, b.last_useful_at) {
                    (Some(x), Some(y)) => x <= y,
                    (Some(_), None) => false,
                    (None, _) => true,
                }
                &&& pa == pb && a.last_useful_at == b.last_useful_at ==> a.connected_at <= b.connected_at
                &&& pa == pb && a.last_useful_at == b.last_useful_at && a.connected_at == b.connected_at
                    ==> i < j
            }),
    {
        let a = self.connections_view()[i];
        let b = self.connections_view()[j];
        let ka = self.replacement_key(i, now)->0;
        let kb = self.replacement_key(j, now)->0;
        assert(ka.1 == a.last_useful_at && ka.2 == a.connected_at && ka.3 == i as usize);
        assert(kb.1 == b.last_useful_at && kb.2 == b.connected_at && kb.3 == j as usize);
        assert(self.connections@.len() == self.connections.len());
    }

    /// Of two replaceable connections, one that wants no piece is replaced
    /// before one that does, and, among connections that want pieces, a
    /// choking one before one that is not choking.
    pub proof fn lemma_replacement_prefers_least_promising(&self, i: int, j: int, now: u64)
        requires
            0 <= i < self.connections_view().len(),
            0 <= j < self.connections_view().len(),
            self.replacement_key(i, now) is Some,
            self.replacement_key(j, now) is Some,
        ensures
            ({
                let a = self.connections_view()[i];
                let b = self.connections_view()[j];
                let ka = self.replacement_key(i, now)->0;
                let kb = self.replacement_key(j, now)->0;
                &&& a.wanted_piece_count == 0 && b.wanted_piece_count > 0 ==> replaces_before(ka, kb)
                &&& a.wanted_piece_count > 0 && b.wanted_piece_count > 0 && a.choking && !b.choking
                    ==> replaces_before(ka, kb)
            }),
    {
    }

    /// With every connection slot taken, the least useful connection whose
    /// grace period passed and that holds no unique wanted piece: one without
    /// wanted pieces first, then a choking one, then an idle one; ties go to
    /// the least recently useful, then the oldest, then the lowest identifier.
    pub fn replacement_candidate(&self, now: u64) -> (r: Option<ConnectionId>)
        requires
            self.wf(),
        ensures
            self.connections_view().len() < self.config_view().max_established_connections ==> r is None,
            self.connections_view().len() >= self.config_view().max_established_connections ==> (r is None
                <==> forall|c: int| 0 <= c < self.connections_view().len() ==> #[trigger] self.replacement_key(c, now) is None),
            r matches Some(id) ==> self.has_connection(id),
            r matches Some(id) ==> exists|i: int|
                0 <= i < self.connections_view().len() && #[trigger] self.connections_view()[i].id == id
                    && self.replacement_key(i, now) is Some && forall|j: int|
                    0 <= j < self.connections_view().len() && j != i && #[trigger] self.replacement_key(j, now) is Some
                        ==> replaces_before(self.replacement_key(i, now)->0, self.replacement_key(j, now)->0),
    {
        if self.connections.len() < self.config.max_established_connections {
            return None;
        }
        let mut best: Option<(u8, Option<u64>, u64, usize)> = None;
        let mut c: usize = 0;
        while c < self.connections.len()
            invariant
                self.wf(),
                c <= self.connections@.len(),
                best matches Some((_, _, _, i)) ==> i < c && self.replacement_key(i as int, now) == best,
                best is None ==> forall|j: int| 0 <= j < c ==> #[trigger] self.replacement_key(j, now) is None,
                best matches Some(k) ==> forall|j: int|
                    0 <= j < c && j != k.3 && #[trigger] self.replacement_key(j, now) is Some ==> replaces_before(
                        k,
                        self.replacement_key(j, now)->0,
                    ),
            decreases self.connections@.len() - c,
        {
            proof {
                assert(self.connections_view() == self.connections@);
            }
            let state = &self.connections[c];
            let since = match state.last_useful_at {
                Some(t) => t,
                None => state.connected_at,
            };
            if now.saturating_sub(since) >= self.config.unproductive_grace && !self.has_unique_wanted_piece(c) {
                let priority: Option<u8> = if state.wanted_piece_count == 0 {
                    Some(0)
                } else if state.choking {
                    Some(1)
                } else if state.active_request_count == 0 {
                    Some(2)
                } else {
                    None
                };
                if let Some(priority) = priority {
                    let key = (priority, state.last_useful_at, state.connected_at, c);
                    assert(self.replacement_key(c as int, now) == Some(key));
                    let ghost previous = best;
                    best = match best {
                        None => Some(key),
                        Some(current) => if replacement_before(key, current) {
                            Some(key)
                        } else {
                            Some(current)
                        },
                    };
                    proof {
                        if let Some(current) = previous {
                            if replaces_before(key, current) {
                                assert forall|j: int|
                                    0 <= j < c + 1 && j != key.3 && #[trigger] self.replacement_key(j, now) is Some
                                        implies replaces_before(key, self.replacement_key(j, now)->0) by {
                                    if j != current.3 {
                                        lemma_replaces_before_transitive(key, current, self.replacement_key(j, now)->0);
                                    }
                                }
                            } else {
                                lemma_replaces_before_total(key, current);
                            }
                        }
                    }
                } else {
                    assert(self.replacement_key(c as int, now) is None);
                }
            } else {
                assert(self.replacement_key(c as int, now) is None);
            }
            c += 1;
        }
        match best {
            Some((_, _, _, i)) => {
                proof {
                    assert(self.connections_view() == self.connections@);
                    assert(self.connections_view()[i as int].id == self.connections@[i as int].id);
                }
                Some(self.connections[i].id)
            },
            None => None,
        }
    }

    /// The earliest time a connection becomes a replacement candidate.
    fn next_replacement_at(&self) -> (r: Option<u64>)
        requires
            self.wf(),
        ensures
            self.connections_view().len() < self.config_view().max_established_connections ==> r is None,
            self.connections_view().len() >= self.config_view().max_established_connections ==> r
                == self.earliest_replacement(self.connections_view().len() as int),
    {
        if self.connections.len() < self.config.max_established_connections {
            return None;
        }
        let mut best: Option<u64> = None;
        let mut c: usize = 0;
        while c < self.connections.len()
            invariant
                self.wf(),
                c <= self.connections@.len(),
                self.connections_view() == self.connections@,
                best == self.earliest_replacement(c as int),
            decreases self.connections@.len() - c,
        {
            let state = &self.connections[c];
            if !self.has_unique_wanted_piece(c) && (state.wanted_piece_count == 0 || state.choking
                || state.active_request_count == 0) {
                let since = match state.last_useful_at {
                    Some(t) => t,
                    None => state.connected_at,
                };
                if let Some(at) = since.checked_add(self.config.unproductive_grace) {
                    best = match best {
                        None => Some(at),
                        Some(b) => Some(if at < b {
                            at
                        } else {
                            b
                        }),
                    };
                }
            }
            c += 1;
        }
        best
    }

    /// Why no request can be issued now, if a reason applies.
    fn no_request_reason(&self) -> (r: Option<NoRequestReason>)
        requires
            self.wf(),
        ensures
            r == self.request_block_reason(),
    {
        if self.is_complete() {
            return Some(NoRequestReason::Complete);
        }
        if self.connections.len() == 0 {
            return Some(NoRequestReason::NoConnections);
        }
        let mut useful: usize = 0;
        let mut all_choked = true;
        let mut windows_full = true;
        let mut c: usize = 0;
        while c < self.connections.len()
            invariant
                self.wf(),
                c <= self.connections@.len(),
                useful <= c,
                self.connections_view() == self.connections@,
                (useful == 0) == forall|j: int| 0 <= j < c ==> (#[trigger] self.connections@[j]).wanted_piece_count == 0,
                all_choked == forall|j: int|
                    0 <= j < c ==> (#[trigger] self.connections@[j]).wanted_piece_count != 0 ==> self.connections@[j].choking,
                windows_full == forall|j: int|
                    0 <= j < c ==> (#[trigger] self.connections@[j]).active_request_count
                        >= self.connections@[j].request_window.target,
            decreases self.connections@.len() - c,
        {
            let state = &self.connections[c];
            if state.wanted_piece_count != 0 {
                useful += 1;
                if !state.choking {
                    all_choked = false;
                }
            }
            if state.active_request_count < state.request_window.target {
                windows_full = false;
            }
            c += 1;
        }
        if useful == 0 {
            return Some(NoRequestReason::NoPeerHasWantedPiece);
        }
        if all_choked {
            return Some(NoRequestReason::AllUsefulPeersChoked);
        }
        if self.outstanding_request_bytes >= self.config.max_outstanding_request_bytes {
            return Some(NoRequestReason::OutstandingRequestLimit);
        }
        if windows_full {
            return Some(NoRequestReason::RequestWindowsFull);
        }
        let mut any_incomplete = false;
        let mut blocked = true;
        let mut p: usize = 0;
        while p < self.pieces.len()
            invariant
                self.wf(),
                p <= self.pieces@.len(),
                self.pieces_view() == self.pieces@,
                any_incomplete == exists|j: int| 0 <= j < p && !(#[trigger] self.pieces@[j]).verified,
                blocked == forall|j: int|
                    0 <= j < p && !(#[trigger] self.pieces@[j]).verified ==> self.pieces@[j].active
                        || !self.may_activate(self.pieces@[j].index as usize),
            decreases self.pieces@.len() - p,
        {
            if !self.pieces[p].verified {
                any_incomplete = true;
                if !self.pieces[p].active && self.can_activate_piece(self.pieces[p].index as usize) {
                    blocked = false;
                }
            }
            p += 1;
        }
        if any_incomplete && blocked {
            return Some(NoRequestReason::ActivePieceLimit);
        }
        None
    }

    /// When the connection at `c` may become a replacement candidate: its
    /// grace period after it was last useful (or connected) ends, provided it
    /// alone holds no wanted piece and wants nothing, chokes us or is idle.
    pub open spec fn replacement_time(&self, c: int) -> Option<u64> {
        let state = self.connections_view()[c];
        let since = match state.last_useful_at {
            Some(t) => t,
            None => state.connected_at,
        };
        if !self.holds_unique_wanted(c) && (state.wanted_piece_count == 0 || state.choking
            || state.active_request_count == 0) && since + self.config_view().unproductive_grace <= u64::MAX {
            Some((since + self.config_view().unproductive_grace) as u64)
        } else {
            None
        }
    }

    /// The earliest replacement time among the first `n` connections.
    pub open spec fn earliest_replacement(&self, n: int) -> Option<u64>
        decreases n,
    {
        if n <= 0 {
            None
        } else {
            let earlier = self.earliest_replacement(n - 1);
            match self.replacement_time(n - 1) {
                None => earlier,
                Some(at) => match earlier {
                    None => Some(at),
                    Some(b) => Some(if at < b {
                        at
                    } else {
                        b
                    }),
                },
            }
        }
    }

    /// Why no request can be issued: the download is complete, there is no
    /// connection, no connection has a wanted piece, every useful connection
    /// chokes us, the outstanding bytes are at their limit, every request
    /// window is full, or every incomplete planned piece is inactive and may
    /// not be activated; checked in that order.
    pub open spec fn request_block_reason(&self) -> Option<NoRequestReason> {
        let conns = self.connections_view();
        let pieces = self.pieces_view();
        if self.picker_view().wanted_remaining_spec() == 0 {
            Some(NoRequestReason::Complete)
        } else if conns.len() == 0 {
            Some(NoRequestReason::NoConnections)
        } else if forall|j: int| 0 <= j < conns.len() ==> (#[trigger] conns[j]).wanted_piece_count == 0 {
            Some(NoRequestReason::NoPeerHasWantedPiece)
        } else if forall|j: int|
            0 <= j < conns.len() ==> (#[trigger] conns[j]).wanted_piece_count != 0 ==> conns[j].choking {
            Some(NoRequestReason::AllUsefulPeersChoked)
        } else if self.outstanding_view() >= self.config_view().max_outstanding_request_bytes {
            Some(NoRequestReason::OutstandingRequestLimit)
        } else if forall|j: int|
            0 <= j < conns.len() ==> (#[trigger] conns[j]).active_request_count >= conns[j].request_window.target {
            Some(NoRequestReason::RequestWindowsFull)
        } else if (exists|j: int| 0 <= j < pieces.len() && !(#[trigger] pieces[j]).verified) && forall|j: int|
            0 <= j < pieces.len() && !(#[trigger] pieces[j]).verified ==> pieces[j].active || !self.may_activate(
                pieces[j].index as usize,
            ) {
            Some(NoRequestReason::ActivePieceLimit)
        } else {
            None
        }
    }

    /// Reserves the next wanted piece to plan: the best-ranked candidate that
    /// some connection may be asked for, within a bounded sweep that resumes
    /// where the previous sweep stopped; a Fast suggestion of equal rarity
    /// takes its place.
    pub fn reserve_piece_for_planning(&mut self, maximum_planned_pieces: usize) -> (r: Option<u32>)
        requires
            old(self).wf(),
        ensures
            final(self).wf(),
            final(self).pending_dials_view() == old(self).pending_dials_view(),
            final(self).pieces_view() == old(self).pieces_view(),
            final(self).connections_view() == old(self).connections_view(),
            old(self).pieces_view().len() >= maximum_planned_pieces ==> r is None,
            r matches Some(p) ==> p < final(self).piece_count_view() && final(self).picker_view().reserved@[p as int]
                && !old(self).picker_view().reserved@[p as int] && old(self).picker_view().wanted@[p as int]
                && !old(self).picker_view().planned@[p as int] && !old(self).picker_view().completed@[p as int],
            r is None <==> old(self).pieces_view().len() >= maximum_planned_pieces || old(self).planning_sweep(
                old(self).planning_start(),
                MAX_PICKER_SWEEP as nat,
            ) is None,
            old(self).pieces_view().len() < maximum_planned_pieces ==> (old(self).planning_sweep(
                old(self).planning_start(),
                MAX_PICKER_SWEEP as nat,
            ) matches Some(o) ==> ((forall|c: int|
                0 <= c < old(self).connections_view().len() ==> (#[trigger] old(self).connections_view()[c]).suggestions@.len()
                    == 0) ==> r == Some(o))),
            final(self).high_water_view() >= old(self).high_water_view(),
    {
        if self.pieces.len() >= maximum_planned_pieces {
            return None;
        }
        let mut cursor = self.picker.cursor;
        if let Some(c) = cursor {
            if c as usize >= self.piece_count {
                cursor = None;
            }
        }
        let mut inspected: usize = 0;
        let mut found: Option<u32> = None;
        proof {
            assert(cursor == old(self).planning_start());
        }
        while inspected < MAX_PICKER_SWEEP
            invariant_except_break
                found is None,
            invariant
                self.outstanding_request_high_water >= old(self).outstanding_request_high_water,
                self.wf(),
                self.pending_dials@ == old(self).pending_dials@,
                self.pieces@ == old(self).pieces@,
                self.connections@ == old(self).connections@,
                self.picker.reserved@ == old(self).picker.reserved@,
                self.picker.wanted@ == old(self).picker.wanted@,
                self.picker.planned@ == old(self).picker.planned@,
                self.picker.completed@ == old(self).picker.completed@,
                self.picker.counts@ == old(self).picker.counts@,
                self.picker.seed_count == old(self).picker.seed_count,
                self.picker.policy == old(self).picker.policy,
                cursor matches Some(c) ==> c < self.piece_count,
                found matches Some(p) ==> self.picker.candidate(p as int),
                inspected <= MAX_PICKER_SWEEP,
                self.pieces@.len() < maximum_planned_pieces,
                found is None ==> old(self).planning_sweep(old(self).planning_start(), MAX_PICKER_SWEEP as nat)
                    == old(self).planning_sweep(cursor, (MAX_PICKER_SWEEP - inspected) as nat),
                found matches Some(p) ==> old(self).planning_sweep(old(self).planning_start(), MAX_PICKER_SWEEP as nat)
                    == Some(p),
            ensures
                found is None ==> inspected >= MAX_PICKER_SWEEP,
            decreases MAX_PICKER_SWEEP - inspected,
        {
            proof {
                old(self).picker.lemma_same_ranking(&self.picker, cursor);
            }
            let ghost budget = (MAX_PICKER_SWEEP - inspected) as nat;
            let candidate = match self.picker.next_candidate(cursor) {
                Some(p) => p,
                None => {
                    proof {
                        assert(old(self).planning_sweep(cursor, budget) is None);
                    }
                    self.picker.cursor = None;
                    return None;
                },
            };
            proof {
                assert(old(self).planning_sweep(cursor, budget) == if old(self).servable(candidate) {
                    Some(candidate)
                } else {
                    old(self).planning_sweep(Some(candidate), (budget - 1) as nat)
                });
            }
            inspected += 1;
            self.picker.counters.candidate_inspections = self.picker.counters.candidate_inspections.saturating_add(1);
            proof {
                assert(self.connections_view() == old(self).connections_view());
            }
            if self.any_connection_may_request(candidate as usize) {
                found = Some(candidate);
                break ;
            }
            cursor = Some(candidate);
        }
        let ordinary = match found {
            Some(p) => p,
            None => {
                self.picker.cursor = cursor;
                return None;
            },
        };
        self.picker.reserve(ordinary);
        let ordinary_availability = self.picker.availability(ordinary as usize);
        let suggested = self.suggested_piece(ordinary_availability);
        match suggested {
            None => Some(ordinary),
            Some(s) => {
                proof {
                    let (c, k) = choose|c: int, k: int| #[trigger] self.suggestion_matches(c, k, ordinary_availability);
                    assert(self.connections_view() == old(self).connections_view());
                    assert(old(self).connections_view()[c].suggestions@.len() > 0);
                }
                let restored = self.picker.cancel_reserved(ordinary as usize);
                if restored.is_err() {
                    return Some(ordinary);
                }
                if self.picker.reserve_specific(s as usize) {
                    Some(s)
                } else {
                    self.picker.reserve_specific(ordinary as usize);
                    Some(ordinary)
                }
            },
        }
    }

    /// Some connection may be asked for `piece`.
    pub open spec fn servable(&self, piece: u32) -> bool {
        exists|c: int|
            0 <= c < self.connections_view().len() && (#[trigger] self.connections_view()[c]).may_request(piece as int)
    }

    /// Where a planning sweep starts: after the picker's cursor when it
    /// names a piece, else from the first candidate.
    pub closed spec fn planning_start(&self) -> Option<u32> {
        match self.picker.cursor {
            Some(c) => if (c as int) < self.piece_count {
                Some(c)
            } else {
                None
            },
            None => None,
        }
    }

    /// The first of at most `budget` candidates, taken in the picker's order
    /// after `after`, that some connection may be asked for.
    pub closed spec fn planning_sweep(&self, after: Option<u32>, budget: nat) -> Option<u32>
        decreases budget,
    {
        if budget == 0 {
            None
        } else {
            match self.picker.next_candidate_spec(after) {
                None => None,
                Some(p) => if self.servable(p) {
                    Some(p)
                } else {
                    self.planning_sweep(Some(p), (budget - 1) as nat)
                },
            }
        }
    }

    /// Some connection may be asked for `piece`.
    fn any_connection_may_request(&self, piece: usize) -> (r: bool)
        ensures
            r == exists|c: int|
                0 <= c < self.connections_view().len() && (#[trigger] self.connections_view()[c]).may_request(piece as int),
    {
        let mut c: usize = 0;
        while c < self.connections.len()
            invariant
                c <= self.connections@.len(),
                self.connections_view() == self.connections@,
                forall|j: int| 0 <= j < c ==> !(#[trigger] self.connections@[j]).may_request(piece as int),
            decreases self.connections@.len() - c,
        {
            if self.connections[c].can_request_piece(piece) {
                return true;
            }
            c += 1;
        }
        false
    }

    /// The first Fast suggestion, by connection then by recency, that its
    /// connection may be asked for and whose availability equals `availability`.
    fn suggested_piece(&self, availability: Option<u32>) -> (r: Option<u32>)
        requires
            self.wf(),
        ensures
            r is None ==> forall|c: int, k: int| !#[trigger] self.suggestion_matches(c, k, availability),
            r matches Some(p) ==> exists|c: int, k: int|
                #[trigger] self.suggestion_matches(c, k, availability) && self.connections_view()[c].suggestions@[k] == p
                    && forall|c2: int, k2: int|
                    (c2 < c || (c2 == c && k2 < k)) ==> !#[trigger] self.suggestion_matches(c2, k2, availability),
    {
        let mut c: usize = 0;
        while c < self.connections.len()
            invariant
                self.wf(),
                c <= self.connections@.len(),
                self.connections_view() == self.connections@,
                forall|c2: int, k2: int| c2 < c ==> !#[trigger] self.suggestion_matches(c2, k2, availability),
            decreases self.connections@.len() - c,
        {
            let state = &self.connections[c];
            let mut k: usize = 0;
            while k < state.suggestions.len()
                invariant
                    self.wf(),
                    c < self.connections@.len(),
                    state == &self.connections@[c as int],
                    k <= state.suggestions@.len(),
                    self.connections_view() == self.connections@,
                    forall|c2: int, k2: int| c2 < c ==> !#[trigger] self.suggestion_matches(c2, k2, availability),
                    forall|k2: int| k2 < k ==> !#[trigger] self.suggestion_matches(c as int, k2, availability),
                decreases state.suggestions@.len() - k,
            {
                let piece = state.suggestions[k];
                if (piece as usize) < self.piece_count && state.can_request_piece(piece as usize) {
                    let a = self.picker.availability(piece as usize);
                    let same = match (a, availability) {
                        (Some(x), Some(y)) => x == y,
                        (None, None) => true,
                        _ => false,
                    };
                    if same {
                        assert(self.suggestion_matches(c as int, k as int, availability));
                        return Some(piece);
                    }
                }
                assert(!self.suggestion_matches(c as int, k as int, availability));
                k += 1;
            }
            assert forall|k2: int| !#[trigger] self.suggestion_matches(c as int, k2, availability) by {
                if 0 <= k2 < state.suggestions@.len() {
                    assert(k2 < k);
                }
            }
            c += 1;
        }
        None
    }

    /// Whether suggestion `k` of connection `c` is a piece the connection may
    /// be asked for, with the availability `availability`.
    pub open spec fn suggestion_matches(&self, c: int, k: int, availability: Option<u32>) -> bool {
        let state = self.connections_view()[c];
        let piece = state.suggestions@[k];
        &&& 0 <= c < self.connections_view().len()
        &&& 0 <= k < state.suggestions@.len()
        &&& piece < self.piece_count_view()
        &&& state.may_request(piece as int)
        &&& availability == Some(capped_availability(self.picker_view().avail(piece as int)))
    }

    /// Connections that sent payload still awaiting verification, in
    /// identifier order.
    pub fn unverified_contributors(&self) -> (r: Vec<ConnectionId>)
        ensures
            ids_increasing(r@),
            forall|id: ConnectionId|
                #[trigger] r@.contains(id) <==> exists|p: int, b: int|
                    0 <= p < self.pieces_view().len() && 0 <= b < self.pieces_view()[p].blocks@.len()
                        && #[trigger] unverified_from(self.pieces_view()[p].blocks@[b], id),
    {
        let mut sources: Vec<ConnectionId> = Vec::new();
        let mut p: usize = 0;
        while p < self.pieces.len()
            invariant
                p <= self.pieces@.len(),
                self.pieces_view() == self.pieces@,
                forall|id: ConnectionId|
                    #[trigger] sources@.contains(id) <==> exists|p2: int, b: int|
                        0 <= p2 < p && 0 <= b < self.pieces@[p2].blocks@.len()
                            && #[trigger] unverified_from(self.pieces@[p2].blocks@[b], id),
            decreases self.pieces@.len() - p,
        {
            let mut b: usize = 0;
            while b < self.pieces[p].blocks.len()
                invariant
                    p < self.pieces@.len(),
                    b <= self.pieces@[p as int].blocks@.len(),
                    self.pieces_view() == self.pieces@,
                    forall|id: ConnectionId|
                        #[trigger] sources@.contains(id) <==> exists|p2: int, b2: int|
                            ((0 <= p2 < p && 0 <= b2 < self.pieces@[p2].blocks@.len()) || (p2 == p && 0 <= b2 < b))
                                && #[trigger] unverified_from(self.pieces@[p2].blocks@[b2], id),
                decreases self.pieces@[p as int].blocks@.len() - b,
            {
                let ghost before = sources@;
                let ghost e = self.pieces@[p as int].blocks@[b as int];
                match self.pieces[p].blocks[b].phase {
                    BlockPhase::Writing { source, .. } | BlockPhase::Received { source, .. } => {
                        sources.push(source);
                        proof {
                            assert(unverified_from(e, source));
                            assert forall|id: ConnectionId|
                                #[trigger] sources@.contains(id) <==> exists|p2: int, b2: int|
                                    ((0 <= p2 < p && 0 <= b2 < self.pieces@[p2].blocks@.len()) || (p2 == p && 0 <= b2
                                        < b + 1)) && #[trigger] unverified_from(self.pieces@[p2].blocks@[b2], id) by {
                                if sources@.contains(id) {
                                    let i = choose|i: int| 0 <= i < sources@.len() && sources@[i] == id;
                                    if i < before.len() {
                                        assert(before[i] == id);
                                        assert(before.contains(id));
                                    } else {
                                        assert(id == source);
                                        assert(unverified_from(self.pieces@[p as int].blocks@[b as int], id));
                                    }
                                }
                                if exists|p2: int, b2: int|
                                    ((0 <= p2 < p && 0 <= b2 < self.pieces@[p2].blocks@.len()) || (p2 == p && 0 <= b2
                                        < b + 1)) && #[trigger] unverified_from(self.pieces@[p2].blocks@[b2], id) {
                                    let (p2, b2) = choose|p2: int, b2: int|
                                        ((0 <= p2 < p && 0 <= b2 < self.pieces@[p2].blocks@.len()) || (p2 == p && 0
                                            <= b2 < b + 1)) && #[trigger] unverified_from(self.pieces@[p2].blocks@[b2], id);
                                    if p2 == p && b2 == b {
                                        assert(id == source);
                                        assert(sources@[sources@.len() - 1] == id);
                                    } else {
                                        assert(before.contains(id));
                                        let i = choose|i: int| 0 <= i < before.len() && before[i] == id;
                                        assert(sources@[i] == id);
                                    }
                                }
                            }
                        }
                    },
                    _ => {
                        proof {
                            assert forall|id: ConnectionId|
                                #[trigger] sources@.contains(id) <==> exists|p2: int, b2: int|
                                    ((0 <= p2 < p && 0 <= b2 < self.pieces@[p2].blocks@.len()) || (p2 == p && 0 <= b2
                                        < b + 1)) && #[trigger] unverified_from(self.pieces@[p2].blocks@[b2], id) by {
                                if exists|p2: int, b2: int|
                                    ((0 <= p2 < p && 0 <= b2 < self.pieces@[p2].blocks@.len()) || (p2 == p && 0 <= b2
                                        < b + 1)) && #[trigger] unverified_from(self.pieces@[p2].blocks@[b2], id) {
                                    let (p2, b2) = choose|p2: int, b2: int|
                                        ((0 <= p2 < p && 0 <= b2 < self.pieces@[p2].blocks@.len()) || (p2 == p && 0
                                            <= b2 < b + 1)) && #[trigger] unverified_from(self.pieces@[p2].blocks@[b2], id);
                                    assert(!(p2 == p && b2 == b));
                                }
                            }
                        }
                    },
                }
                b += 1;
            }
            proof {
                assert forall|id: ConnectionId|
                    #[trigger] sources@.contains(id) <==> exists|p2: int, b2: int|
                        0 <= p2 < p + 1 && 0 <= b2 < self.pieces@[p2].blocks@.len()
                            && #[trigger] unverified_from(self.pieces@[p2].blocks@[b2], id) by {
                    if sources@.contains(id) {
                        let (p2, b2) = choose|p2: int, b2: int|
                            ((0 <= p2 < p && 0 <= b2 < self.pieces@[p2].blocks@.len()) || (p2 == p && 0 <= b2 < b))
                                && #[trigger] unverified_from(self.pieces@[p2].blocks@[b2], id);
                        assert(0 <= p2 < p + 1 && 0 <= b2 < self.pieces@[p2].blocks@.len());
                    }
                    if exists|p2: int, b2: int|
                        0 <= p2 < p + 1 && 0 <= b2 < self.pieces@[p2].blocks@.len()
                            && #[trigger] unverified_from(self.pieces@[p2].blocks@[b2], id) {
                        let (p2, b2) = choose|p2: int, b2: int|
                            0 <= p2 < p + 1 && 0 <= b2 < self.pieces@[p2].blocks@.len()
                                && #[trigger] unverified_from(self.pieces@[p2].blocks@[b2], id);
                        assert((0 <= p2 < p && 0 <= b2 < self.pieces@[p2].blocks@.len()) || (p2 == p && 0 <= b2 < b));
                    }
                }
            }
            p += 1;
        }
        let r = distinct_sorted(&sources);
        proof {
            assert forall|id: ConnectionId| #[trigger] r@.contains(id) <==> sources@.contains(id) by {
                if r@.contains(id) {
                    let i = choose|i: int| 0 <= i < r@.len() && r@[i] == id;
                    assert(sources@.contains(r@[i]));
                }
                if sources@.contains(id) {
                    let i = choose|i: int| 0 <= i < sources@.len() && sources@[i] == id;
                    assert(r@.contains(sources@[i]));
                }
            }
        }
        r
    }

    /// Counters and deadlines of the whole swarm at `now`.
    pub fn snapshot(&self, now: u64) -> (r: SwarmSnapshot)
        requires
            self.wf(),
        ensures
            r.pending_dials == self.pending_dials_view().len(),
            r.connected_peers == self.connections_view().len(),
            r.missing_blocks == self.missing_count(),
            r.active_request_attempts == self.active_view().len(),
            r.outstanding_request_bytes == self.outstanding_view(),
            r.outstanding_request_high_water == self.high_water_view(),
            r.outstanding_request_bytes <= r.outstanding_request_high_water,
            r.max_active_pieces == self.config_view().max_active_pieces,
            r.piece_activation_policy == self.picker_view().policy,
            r.availability_seed_count == self.picker_view().seed_count,
            r.unchoked_peers == unchoked_count(self.connections_view()),
            r.requested_blocks == self.tallies().requested_blocks,
            r.writing_blocks == self.tallies().writing_blocks,
            r.received_blocks == self.tallies().received_blocks,
            r.verified_blocks == self.tallies().verified_blocks,
            r.active_duplicate_attempts == if self.active_view().len() >= self.tallies().requested_blocks {
                (self.active_view().len() - self.tallies().requested_blocks) as usize
            } else {
                0
            },
            r.active_piece_bytes == self.tallies().active_piece_bytes,
            r.last_activated_piece == self.tallies().last_activated_piece,
            r.last_activated_availability == self.tallies().last_activated_availability,
            r.active_piece_visits == self.tallies().active_piece_visits,
            r.inactive_planned_piece_visits == self.tallies().inactive_planned_piece_visits,
            r.endgame_assignments == self.tallies().endgame_assignments,
            r.cancelled_request_attempts == self.tallies().cancelled_request_attempts,
            r.redundant_payload_bytes == self.tallies().redundant_payload_bytes,
            r.piece_hash_failures == self.tallies().piece_hash_failures,
            r.failed_piece_bytes == self.tallies().failed_piece_bytes,
            r.last_hash_failure_contributors == self.tallies().last_hash_failure_contributors,
            r.no_request_reason == self.request_block_reason(),
            r.next_replacement_at == if self.connections_view().len() < self.config_view().max_established_connections {
                None
            } else {
                self.earliest_replacement(self.connections_view().len() as int)
            },
            r.oldest_request_age == match oldest_issue_all(self.active_view()) {
                Some(t) => Some(if now >= t { (now - t) as u64 } else { 0u64 }),
                None => None,
            },
            r.next_request_expiry == stall_expiry(
                self.connections_view(),
                self.active_view(),
                self.config_view(),
                attempt_expiry(self.active_view(), self.config_view().request_timeout),
            ),
            r.request_timeout_min == timeout_min_of(self.connections_view(), self.config_view()),
            r.request_timeout_max == timeout_max_of(self.connections_view(), self.config_view()),
            r.request_target_max == target_max_of(self.connections_view()),
            r.slow_start_peers == phase_count(self.connections_view(), RequestWindowPhase::SlowStart),
            r.stalled_peers == phase_count(self.connections_view(), RequestWindowPhase::Stalled),
            r.request_target_total == target_total_of(self.connections_view()),
            r.useful_payload_bytes == useful_total_of(self.connections_view()),
            r.observed_payload_rate == observed_total_of(self.connections_view()),
            r.active_piece_count == active_count(self.pieces_view()),
            r.picker_rank_comparisons == self.picker_view().counters.rank_comparisons,
            r.picker_bulk_rebuilds == self.picker_view().counters.bulk_rebuilds,
            r.picker_candidate_inspections == self.picker_view().counters.candidate_inspections,
    {
        let config = self.config;
        let mut oldest_issued: Option<u64> = None;
        let mut next_expiry: Option<u64> = None;
        let mut i: usize = 0;
        proof {
            assert(self.active_attempts@.take(0) =~= Seq::<RequestAttempt>::empty());
        }
        while i < self.active_attempts.len()
            invariant
                i <= self.active_attempts@.len(),
                config == self.config,
                oldest_issued == oldest_issue_all(self.active_attempts@.take(i as int)),
                next_expiry == attempt_expiry(self.active_attempts@.take(i as int), config.request_timeout),
            decreases self.active_attempts@.len() - i,
        {
            proof {
                assert(self.active_attempts@.take(i + 1).drop_last() =~= self.active_attempts@.take(i as int));
            }
            let a = self.active_attempts[i];
            oldest_issued = Some(min_opt(oldest_issued, a.issued_at));
            let deadline = a.issued_at.saturating_add(config.request_timeout);
            next_expiry = Some(min_opt(next_expiry, deadline));
            i += 1;
        }
        proof {
            assert(self.active_attempts@.take(i as int) =~= self.active_attempts@);
            assert(self.connections@.take(0) =~= Seq::<ConnectionState>::empty());
        }
        let ghost expiry0 = next_expiry;
        let mut timeout_min: Option<u64> = None;
        let mut timeout_max: Option<u64> = None;
        let mut unchoked: usize = 0;
        let mut target_total: usize = 0;
        let mut target_max: usize = 0;
        let mut slow_start: usize = 0;
        let mut stalled: usize = 0;
        let mut useful: usize = 0;
        let mut observed: usize = 0;
        let mut c: usize = 0;
        while c < self.connections.len()
            invariant
                self.wf(),
                c <= self.connections@.len(),
                unchoked == unchoked_count(self.connections@.take(c as int)),
                slow_start <= c,
                stalled <= c,
                config == self.config,
                timeout_min == timeout_min_of(self.connections@.take(c as int), config),
                timeout_max == timeout_max_of(self.connections@.take(c as int), config),
                target_max == target_max_of(self.connections@.take(c as int)),
                slow_start == phase_count(self.connections@.take(c as int), RequestWindowPhase::SlowStart),
                stalled == phase_count(self.connections@.take(c as int), RequestWindowPhase::Stalled),
                target_total == target_total_of(self.connections@.take(c as int)),
                useful == useful_total_of(self.connections@.take(c as int)),
                observed == observed_total_of(self.connections@.take(c as int)),
                next_expiry == stall_expiry(self.connections@.take(c as int), self.active_attempts@, config, expiry0),
            decreases self.connections@.len() - c,
        {
            proof {
                assert(self.connections@.take(c + 1).drop_last() =~= self.connections@.take(c as int));
                assert(self.connections@.take(c + 1).last() == self.connections@[c as int]);
                assert(self.connections@[c as int].wf(self.piece_count));
                lemma_phase_count_at_most(self.connections@.take(c as int), RequestWindowPhase::SlowStart);
                lemma_phase_count_at_most(self.connections@.take(c as int), RequestWindowPhase::Stalled);
                lemma_unchoked_at_most(self.connections@.take(c as int));
            }
            let state = &self.connections[c];
            let timeout = state.request_window.request_timeout(config);
            timeout_min = Some(min_opt(timeout_min, timeout));
            timeout_max = Some(match timeout_max {
                None => timeout,
                Some(t) => if timeout > t {
                    timeout
                } else {
                    t
                },
            });
            if let Some(oldest) = self.oldest_issued_for(state.id) {
                let deadline = state.request_window.stall_deadline(oldest, config);
                next_expiry = Some(min_opt(next_expiry, deadline));
            }
            if !state.choking {
                unchoked += 1;
            }
            let target = state.request_window.target;
            target_total = target_total.saturating_add(target);
            if target > target_max {
                target_max = target;
            }
            match state.request_window.phase {
                RequestWindowPhase::SlowStart => {
                    slow_start += 1;
                },
                RequestWindowPhase::Stalled => {
                    stalled += 1;
                },
                RequestWindowPhase::Steady => {},
            }
            useful = useful.saturating_add(state.request_window.useful_payload_bytes);
            observed = observed.saturating_add(state.request_window.observed_payload_rate);
            c += 1;
        }
        proof {
            assert(self.connections@.take(self.connections@.len() as int) =~= self.connections@);
        }
        let counters = self.picker.counters();
        SwarmSnapshot {
            pending_dials: self.pending_dials.len(),
            connected_peers: self.connections.len(),
            unchoked_peers: unchoked,
            missing_blocks: self.missing_blocks,
            requested_blocks: self.requested_blocks,
            active_request_attempts: self.active_attempts.len(),
            active_duplicate_attempts: self.active_attempts.len().saturating_sub(self.requested_blocks),
            writing_blocks: self.writing_blocks,
            received_blocks: self.received_blocks,
            verified_blocks: self.verified_blocks,
            active_piece_count: self.active_piece_count(),
            active_piece_bytes: self.active_piece_bytes,
            max_active_pieces: config.max_active_pieces,
            piece_activation_policy: self.picker.policy(),
            availability_seed_count: self.picker.seed_count() as usize,
            picker_retained_bytes: self.picker.retained_bytes(),
            picker_rank_comparisons: counters.rank_comparisons,
            picker_bulk_rebuilds: counters.bulk_rebuilds,
            picker_candidate_inspections: counters.candidate_inspections,
            active_piece_visits: self.active_piece_visits,
            inactive_planned_piece_visits: self.inactive_planned_piece_visits,
            last_activated_piece: self.last_activated_piece,
            last_activated_availability: self.last_activated_availability,
            outstanding_request_bytes: self.outstanding_request_bytes,
            outstanding_request_high_water: self.outstanding_request_high_water,
            request_target_total: target_total,
            request_target_max: target_max,
            slow_start_peers: slow_start,
            stalled_peers: stalled,
            useful_payload_bytes: useful,
            observed_payload_rate: observed,
            endgame_assignments: self.endgame_assignments,
            cancelled_request_attempts: self.cancelled_request_attempts,
            redundant_payload_bytes: self.redundant_payload_bytes,
            piece_hash_failures: self.piece_hash_failures,
            failed_piece_bytes: self.failed_piece_bytes,
            last_hash_failure_contributors: self.last_hash_failure_contributors,
            request_timeout_min: timeout_min,
            request_timeout_max: timeout_max,
            oldest_request_age: match oldest_issued {
                Some(t) => Some(now.saturating_sub(t)),
                None => None,
            },
            next_request_expiry: next_expiry,
            next_replacement_at: self.next_replacement_at(),
            no_request_reason: self.no_request_reason(),
        }
    }

    /// Per-connection request queue and utility state at `now`, in
    /// identifier order.
    pub fn connection_activity(&self, now: u64) -> (r: Vec<ConnectionActivitySnapshot>)
        requires
            self.wf(),
        ensures
            r@.len() == self.connections_view().len(),
            forall|i: int| 0 <= i < r@.len() ==> (#[trigger] r@[i]).id == self.connections_view()[i].id
                && r@[i].choking == self.connections_view()[i].choking
                && r@[i].wanted_piece_count == self.connections_view()[i].wanted_piece_count
                && r@[i].target_requests == self.connections_view()[i].request_window.target,
    {
        let config = self.config;
        let mut r: Vec<ConnectionActivitySnapshot> = Vec::new();
        let mut c: usize = 0;
        while c < self.connections.len()
            invariant
                self.wf(),
                c <= self.connections@.len(),
                r@.len() == c,
                forall|i: int| 0 <= i < c ==> (#[trigger] r@[i]).id == self.connections@[i].id
                    && r@[i].choking == self.connections@[i].choking
                    && r@[i].wanted_piece_count == self.connections@[i].wanted_piece_count
                    && r@[i].target_requests == self.connections@[i].request_window.target,
            decreases self.connections@.len() - c,
        {
            let state = &self.connections[c];
            let mut pending: usize = 0;
            let mut queued: usize = 0;
            let mut oldest: Option<u64> = None;
            let mut k: usize = 0;
            while k < self.active_attempts.len()
                invariant
                    k <= self.active_attempts@.len(),
                    pending <= k,
                decreases self.active_attempts@.len() - k,
            {
                let a = self.active_attempts[k];
                if a.connection.same(state.id) {
                    pending += 1;
                    queued = queued.saturating_add(a.block.length as usize);
                    oldest = Some(min_opt(oldest, a.issued_at));
                }
                k += 1;
            }
            let window_phase = match state.request_window.phase {
                RequestWindowPhase::SlowStart => ConnectionWindowPhaseSnapshot::SlowStart,
                RequestWindowPhase::Steady => ConnectionWindowPhaseSnapshot::Steady,
                RequestWindowPhase::Stalled => ConnectionWindowPhaseSnapshot::Stalled,
            };
            r.push(ConnectionActivitySnapshot {
                id: state.id,
                choking: state.choking,
                wanted_piece_count: state.wanted_piece_count,
                pending_requests: pending,
                target_requests: state.request_window.target,
                queued_payload_bytes: queued,
                window_phase,
                useful_payload_bytes: state.request_window.useful_payload_bytes,
                observed_payload_rate: state.request_window.observed_payload_rate,
                connected_age: now.saturating_sub(state.connected_at),
                last_useful_age: match state.last_useful_at {
                    Some(t) => Some(now.saturating_sub(t)),
                    None => None,
                },
                last_payload_age: match state.request_window.last_payload_at {
                    Some(t) => Some(now.saturating_sub(t)),
                    None => None,
                },
                request_timeout: state.request_window.request_timeout(config),
                oldest_request_age: match oldest {
                    Some(t) => Some(now.saturating_sub(t)),
                    None => None,
                },
            });
            c += 1;
        }
        proof {
            assert(self.connections_view() == self.connections@);
        }
        r
    }

    pub fn retire_verified_piece(&mut self, piece: u32) -> (r: Result<(), SwarmError>)
        requires
            old(self).wf(),
        ensures
            final(self).wf(),
            !old(self).has_piece(piece) ==> r == Err::<(), SwarmError>(SwarmError::UnknownPiece(piece))
                && final(self).pieces_view() == old(self).pieces_view(),
            r is Ok ==> !final(self).has_piece(piece) && final(self).pieces_view().len() == old(self).pieces_view().len() - 1,
            r is Err ==> final(self).pieces_view() == old(self).pieces_view(),
            old(self).has_piece(piece) ==> ({
                let p = old(self).piece_position(piece)->0;
                let pc = old(self).pieces_view()[p];
                let done = forall|b: int| 0 <= b < pc.blocks@.len() ==> (#[trigger] pc.blocks@[b]).phase == BlockPhase::Verified;
                &&& (!pc.verified || pc.active) ==> r == Err::<(), SwarmError>(SwarmError::InvalidTransition(ERR_RETIRE_EARLY))
                &&& pc.verified && !pc.active && !done ==> r == Err::<(), SwarmError>(
                    SwarmError::InvalidTransition(ERR_RETIRE_UNVERIFIED),
                )
                &&& pc.verified && !pc.active && done ==> r is Ok && final(self).pieces_view() == old(self).pieces_view().remove(p)
            }),
            final(self).tallies() == old(self).tallies(),
            final(self).missing_count() == old(self).missing_count(),
            final(self).connections_view() == old(self).connections_view(),
            final(self).pending_dials_view() == old(self).pending_dials_view(),
            r is Ok ==> forall|blk: BlockKey| blk.piece == piece ==> #[trigger] final(self).entry_of(blk) is None,
            r is Err ==> *final(self) == *old(self),
            final(self).high_water_view() >= old(self).high_water_view(),
    {
        let (position, found) = self.locate_piece(piece);
        if !found {
            return Err(SwarmError::UnknownPiece(piece));
        }
        proof {
            lemma_found_piece(self, position as int, piece);
        }
        if !self.pieces[position].verified || self.pieces[position].active {
            return Err(SwarmError::InvalidTransition(ERR_RETIRE_EARLY));
        }
        if !all_blocks_verified(&self.pieces[position]) {
            return Err(SwarmError::InvalidTransition(ERR_RETIRE_UNVERIFIED));
        }
        let ghost before = self.pieces@;
        self.pieces.remove(position);
        proof {
            assert(self.pieces@ == before.remove(position as int));
            assert forall|i: int, j: int|
                #![trigger self.pieces@[i], self.pieces@[j]]
                0 <= i < j < self.pieces@.len() implies self.pieces@[i].index < self.pieces@[j].index by {
                if j < position {
                    assert(before[i].index < before[j].index);
                } else if i < position {
                    assert(before[i].index < before[j + 1].index);
                } else {
                    assert(before[i + 1].index < before[j + 1].index);
                }
            }
            assert forall|k: int| 0 <= k < self.pieces@.len() implies (#[trigger] self.pieces@[k]).wf(
                self.piece_count,
            ) by {
                if k < position {
                    assert(self.pieces@[k] == before[k]);
                } else {
                    assert(self.pieces@[k] == before[k + 1]);
                }
            }
            if self.has_piece(piece) {
                let m = choose|m: int| 0 <= m < self.pieces@.len() && self.pieces@[m].index == piece;
                if m < position {
                    assert(before[m].index < before[position as int].index);
                } else {
                    assert(before[position as int].index < before[m + 1].index);
                }
            }
        }
        proof {
            assert forall|blk: BlockKey| blk.piece == piece implies #[trigger] self.entry_of(blk) is None by {
                self.lemma_block_piece(blk);
            }
        }
        Ok(())
    }

    pub fn config(&self) -> (r: SwarmConfig)
        ensures
            r == self.config_view(),
    {
        self.config
    }

    /// How many pieces the torrent has.
    pub fn piece_count(&self) -> (r: usize)
        ensures
            r == self.piece_count_view(),
    {
        self.piece_count
    }

    pub fn is_complete(&self) -> (r: bool)
        requires
            self.wf(),
        ensures
            r == (self.picker_view().wanted_remaining_spec() == 0),
    {
        self.picker.wanted_remaining() == 0
    }

    pub fn cancel_piece_planning(&mut self, piece: u32) -> (r: Result<(), SwarmError>)
        requires
            old(self).wf(),
        ensures
            final(self).wf(),
            r is Ok <==> piece < old(self).piece_count_view() && old(self).picker_view().reserved@[piece as int],
            r is Ok ==> final(self).picker_view().reserved@ == old(self).picker_view().reserved@.update(
                piece as int,
                false,
            ),
            final(self).high_water_view() >= old(self).high_water_view(),
    {
        match self.picker.cancel_reserved(piece as usize) {
            Ok(()) => Ok(()),
            Err(m) => Err(SwarmError::Invariant(m)),
        }
    }

    pub fn piece_availability(&self, piece: u32) -> (r: Result<u32, SwarmError>)
        requires
            self.wf(),
        ensures
            piece >= self.piece_count_view() ==> r == Err::<u32, SwarmError>(
                SwarmError::PieceOutOfRange { piece, piece_count: self.piece_count_view() },
            ),
            piece < self.piece_count_view() ==> r == Ok::<u32, SwarmError>(
                if self.picker_view().avail(piece as int) <= u32::MAX {
                    self.picker_view().avail(piece as int) as u32
                } else {
                    u32::MAX
                },
            ),
    {
        match self.picker.availability(piece as usize) {
            Some(a) => Ok(a),
            None => Err(SwarmError::PieceOutOfRange { piece, piece_count: self.piece_count }),
        }
    }

    pub fn planned_piece_count(&self) -> (r: usize)
        ensures
            r == self.pieces_view().len(),
    {
        self.pieces.len()
    }

    /// Bytes of every planned piece, saturating at `usize::MAX`.
    pub fn planned_piece_bytes(&self) -> (r: usize)
        ensures
            r == if sum_working_set(self.pieces_view(), self.pieces_view().len() as int) <= usize::MAX {
                sum_working_set(self.pieces_view(), self.pieces_view().len() as int)
            } else {
                usize::MAX as nat
            },
    {
        let mut total: usize = 0;
        let mut overflow = false;
        let mut i: usize = 0;
        while i < self.pieces.len()
            invariant
                i <= self.pieces@.len(),
                overflow <==> sum_working_set(self.pieces@, i as int) > usize::MAX,
                !overflow ==> total == sum_working_set(self.pieces@, i as int),
            decreases self.pieces@.len() - i,
        {
            if !overflow {
                match total.checked_add(self.pieces[i].working_set_bytes) {
                    Some(v) => total = v,
                    None => overflow = true,
                }
            }
            i += 1;
        }
        if overflow {
            usize::MAX
        } else {
            total
        }
    }

    pub fn outstanding_request_bytes(&self) -> (r: usize)
        ensures
            r == self.outstanding_view(),
    {
        self.outstanding_request_bytes
    }

    pub fn outstanding_request_high_water(&self) -> (r: usize)
        ensures
            r == self.high_water_view(),
    {
        self.outstanding_request_high_water
    }
}

pub const ERR_INITIAL_REPEATED: &'static str = "Fast initial availability was repeated";

pub const ERR_FAST_UNNEGOTIATED: &'static str = "Fast message arrived without bilateral negotiation";

pub const ERR_INITIAL_MISSING: &'static str = "Fast initial availability is missing";

pub const ERR_FAST_AFTER_REQUESTS: &'static str = "Fast capability cannot change after requests begin";

pub const OWNER_WANTED_COUNT: &'static str = "connection wanted piece count";

/// Changing one connection in place, keeping its identifier and its
/// availability length, keeps the connections sorted and well formed.
proof fn lemma_connections_update(before: Seq<ConnectionState>, after: Seq<ConnectionState>, i: int, piece_count: usize)
    requires
        0 <= i < before.len(),
        after.len() == before.len(),
        forall|k: int| 0 <= k < before.len() && k != i ==> #[trigger] after[k] == before[k],
        after[i].id == before[i].id,
        after[i].availability@.len() == piece_count,
        after[i].request_window.wf(),
        connections_sorted(before),
    ensures
        connections_sorted(after),
        forall|k: int| 0 <= k < after.len() ==> (#[trigger] after[k]).id == before[k].id,
        (forall|k: int| 0 <= k < before.len() ==> (#[trigger] before[k]).wf(piece_count)) ==> forall|k: int|
            0 <= k < after.len() ==> (#[trigger] after[k]).wf(piece_count),
{
    assert forall|a: int, b: int|
        #![trigger after[a], after[b]]
        0 <= a < b < after.len() implies after[a].id.value() < after[b].id.value() by {
        assert(before[a].id.value() < before[b].id.value());
    }
}

/// Distinct identifiers have distinct values.
proof fn lemma_id_value_injective(a: ConnectionId, b: ConnectionId)
    requires
        a != b,
    ensures
        a.value() != b.value(),
{
    crate::swarm_types::lemma_connection_id_value(a, b);
}

/// The connection at position `i` is the one `connection_index` names.
proof fn lemma_connection_index(s: &SwarmState, id: ConnectionId, i: int)
    requires
        connections_sorted(s.connections@),
        0 <= i < s.connections@.len(),
        s.connections@[i].id == id,
    ensures
        s.connection_index(id) == Some(i),
{
    assert(s.connections_view() == s.connections@);
    assert(s.connections_view()[i].id == id);
    let j = choose|j: int| 0 <= j < s.connections_view().len() && #[trigger] s.connections_view()[j].id == id;
    if j != i {
        if j < i {
            assert(s.connections@[j].id.value() < s.connections@[i].id.value());
        } else {
            assert(s.connections@[i].id.value() < s.connections@[j].id.value());
        }
    }
}

proof fn lemma_piece_position(s: &SwarmState, index: u32, p: int)
    requires
        pieces_sorted(s.pieces@),
        0 <= p < s.pieces@.len(),
        s.pieces@[p].index == index,
    ensures
        s.piece_position(index) == Some(p),
{
    assert(s.pieces_view() == s.pieces@);
    assert(s.pieces_view()[p].index == index);
    assert(s.has_piece(index));
    let q = choose|q: int| 0 <= q < s.pieces_view().len() && #[trigger] s.pieces_view()[q].index == index;
    if q != p {
        if q < p {
            assert(s.pieces@[q].index < s.pieces@[p].index);
        } else {
            assert(s.pieces@[p].index < s.pieces@[q].index);
        }
    }
}

fn contains_dial(v: &Vec<PendingDialId>, id: PendingDialId) -> (r: bool)
    ensures
        r == v@.contains(id),
{
    let mut i: usize = 0;
    while i < v.len()
        invariant
            i <= v@.len(),
            forall|k: int| 0 <= k < i ==> v@[k] != id,
        decreases v@.len() - i,
    {
        if v[i].same(id) {
            return true;
        }
        i += 1;
    }
    false
}

fn trues(n: usize) -> (r: Vec<bool>)
    ensures
        r@.len() == n,
        forall|i: int| 0 <= i < n ==> #[trigger] r@[i],
{
    let mut r: Vec<bool> = Vec::new();
    let mut i: usize = 0;
    while i < n
        invariant
            i <= n,
            r@.len() == i,
            forall|k: int| 0 <= k < i ==> #[trigger] r@[k],
        decreases n - i,
    {
        r.push(true);
        i += 1;
    }
    r
}

/// Set flags among the first `n`.
pub open spec fn count_flags(flags: Seq<bool>, n: int) -> nat
    decreases n,
{
    if n <= 0 {
        0
    } else {
        count_flags(flags, n - 1) + if flags[n - 1] {
            1nat
        } else {
            0nat
        }
    }
}

fn count_true(flags: &Vec<bool>) -> (r: usize)
    ensures
        r == count_flags(flags@, flags@.len() as int),
{
    let mut r: usize = 0;
    let mut i: usize = 0;
    while i < flags.len()
        invariant
            i <= flags@.len(),
            r <= i,
            r == count_flags(flags@, i as int),
        decreases flags@.len() - i,
    {
        if flags[i] {
            r += 1;
        }
        i += 1;
    }
    r
}

/// A compact bitfield has one byte per eight pieces and no spare bit set.
pub open spec fn compact_fits(bytes: Seq<u8>, piece_count: usize) -> bool {
    let remainder = piece_count % 8;
    &&& bytes.len() == (piece_count + 7) / 8
    &&& (remainder != 0 ==> bytes.len() > 0 && bytes.last() & (0xffu8 >> (remainder as u8)) == 0)
}

/// Whether a compact bitfield announces `piece`: bits run from the high bit of
/// the first byte.
pub open spec fn compact_bit(bytes: Seq<u8>, piece: int) -> bool {
    (bytes[piece / 8] >> (7 - piece % 8) as u8) & 1u8 == 1u8
}

/// The first `piece_count` flags packed in `bytes`, high bit first.
pub open spec fn compact_flags(bytes: Seq<u8>, piece_count: int) -> Seq<bool> {
    Seq::new(piece_count as nat, |p: int| compact_bit(bytes, p))
}

fn flags_from_bytes(bytes: &Vec<u8>, piece_count: usize) -> (r: Option<Vec<bool>>)
    ensures
        r is Some <==> compact_fits(bytes@, piece_count),
        r matches Some(f) ==> f@.len() == piece_count && forall|p: int|
            0 <= p < piece_count ==> #[trigger] f@[p] == compact_bit(bytes@, p),
{
    let expected = piece_count / 8 + if piece_count % 8 == 0 { 0 } else { 1 };
    if bytes.len() != expected {
        return None;
    }
    let remainder = piece_count % 8;
    if remainder != 0 {
        let mask: u8 = 0xffu8 >> (remainder as u8);
        let last = bytes[bytes.len() - 1];
        assert(bytes@.last() == last);
        if last & mask != 0 {
            return None;
        }
    }
    let mut flags: Vec<bool> = Vec::new();
    let mut p: usize = 0;
    while p < piece_count
        invariant
            p <= piece_count,
            bytes@.len() == (piece_count + 7) / 8,
            flags@.len() == p,
            forall|q: int| 0 <= q < p ==> #[trigger] flags@[q] == compact_bit(bytes@, q),
        decreases piece_count - p,
    {
        let byte = bytes[p / 8];
        let shift = (7 - p % 8) as u8;
        flags.push((byte >> shift) & 1u8 == 1u8);
        p += 1;
    }
    Some(flags)
}

pub const OWNER_ACTIVE_BYTES: &'static str = "active piece bytes";

pub const ERR_ACTIVE_BYTES_UNDERFLOW: &'static str = "active piece byte count underflow";

pub const ERR_ABSENT_CONNECTION: &'static str = "active request refers to an absent connection";

pub const ERR_CONNECTION_COUNT_UNDERFLOW: &'static str = "connection active request count underflow";

pub const ERR_RESERVATION_UNDERFLOW: &'static str = "request reservation underflow";

pub const OWNER_ATTEMPT: &'static str = "request attempt";

pub const ERR_ENDGAME_BLOCK: &'static str = "block cannot accept this endgame request";

pub const ERR_NOT_MISSING: &'static str = "block is not missing";

pub const OWNER_RESERVATION: &'static str = "request reservation";

pub const OWNER_CONNECTION_COUNT: &'static str = "connection active request count";

pub const ERR_MISSING_UNDERFLOW: &'static str = "missing block count underflow";

pub const OWNER_REQUESTED: &'static str = "requested block count";

pub const ERR_NOT_OWNER: &'static str = "request attempt no longer owns the block";

pub const ERR_ATTEMPT_MISSING: &'static str = "active request attempt is missing";

pub const ERR_ATTEMPT_TERMINAL: &'static str = "active request has a terminal disposition";

pub const ERR_ACTIVE_INDEX: &'static str = "terminated request is absent from the active index";

pub const ERR_REQUESTED_UNDERFLOW: &'static str = "requested block count underflow";

pub const ERR_TRIM: &'static str = "terminal attempt count cannot be reduced";

/// Attempts whose request is over.
pub open spec fn terminal_count(attempts: Seq<RequestAttempt>) -> nat
    decreases attempts.len(),
{
    if attempts.len() == 0 {
        0
    } else {
        terminal_count(attempts.drop_last()) + if attempts.last().active() {
            0nat
        } else {
            1nat
        }
    }
}

/// `after` keeps, in order, a subset of `before` that includes every active
/// attempt and the protected one.
pub open spec fn kept_attempts(before: Seq<RequestAttempt>, after: Seq<RequestAttempt>, protected: Option<RequestAttemptId>) -> bool {
    &&& forall|i: int| 0 <= i < after.len() ==> before.contains(#[trigger] after[i])
    &&& forall|i: int|
        0 <= i < before.len() && ((#[trigger] before[i]).active() || Some(before[i].id) == protected)
            ==> after.contains(before[i])
}

fn count_terminal(attempts: &Vec<RequestAttempt>) -> (r: usize)
    ensures
        r == terminal_count(attempts@),
{
    let mut r: usize = 0;
    let mut i: usize = 0;
    while i < attempts.len()
        invariant
            i <= attempts@.len(),
            r <= i,
            r == terminal_count(attempts@.subrange(0, i as int)),
        decreases attempts@.len() - i,
    {
        proof {
            assert(attempts@.subrange(0, i as int + 1).drop_last() =~= attempts@.subrange(0, i as int));
        }
        if !matches!(attempts[i].disposition, RequestDisposition::Requested) {
            r += 1;
        }
        i += 1;
    }
    assert(attempts@.subrange(0, i as int) =~= attempts@);
    r
}

/// The finished attempts that are the protected one.
pub open spec fn protected_terminal_count(attempts: Seq<RequestAttempt>, protected: Option<RequestAttemptId>) -> nat
    decreases attempts.len(),
{
    if attempts.len() == 0 {
        0
    } else {
        protected_terminal_count(attempts.drop_last(), protected) + if !attempts.last().active() && Some(
            attempts.last().id,
        ) == protected {
            1nat
        } else {
            0nat
        }
    }
}

/// Removing a finished attempt that is not the protected one lowers the
/// finished count by one and keeps the protected count.
proof fn lemma_remove_terminal(s: Seq<RequestAttempt>, x: int, protected: Option<RequestAttemptId>)
    requires
        0 <= x < s.len(),
        !s[x].active(),
        Some(s[x].id) != protected,
    ensures
        terminal_count(s.remove(x)) + 1 == terminal_count(s),
        protected_terminal_count(s.remove(x), protected) == protected_terminal_count(s, protected),
    decreases s.len(),
{
    if x == s.len() - 1 {
        assert(s.remove(x) =~= s.drop_last());
    } else {
        lemma_remove_terminal(s.drop_last(), x, protected);
        assert(s.remove(x).drop_last() =~= s.drop_last().remove(x));
        assert(s.remove(x).last() == s.last());
    }
}

/// When every finished attempt is the protected one, the counts agree.
proof fn lemma_all_terminal_protected(s: Seq<RequestAttempt>, protected: Option<RequestAttemptId>)
    requires
        forall|i: int| 0 <= i < s.len() && !(#[trigger] s[i]).active() ==> Some(s[i].id) == protected,
    ensures
        terminal_count(s) == protected_terminal_count(s, protected),
    decreases s.len(),
{
    if s.len() > 0 {
        assert forall|i: int| 0 <= i < s.drop_last().len() && !(#[trigger] s.drop_last()[i]).active() implies Some(
            s.drop_last()[i].id,
        ) == protected by {
            assert(s.drop_last()[i] == s[i]);
        }
        lemma_all_terminal_protected(s.drop_last(), protected);
    }
}

proof fn lemma_protected_at_most_terminal(s: Seq<RequestAttempt>, protected: Option<RequestAttemptId>)
    ensures
        protected_terminal_count(s, protected) <= terminal_count(s),
    decreases s.len(),
{
    if s.len() > 0 {
        lemma_protected_at_most_terminal(s.drop_last(), protected);
    }
}

fn trim_attempts(attempts: &mut Vec<RequestAttempt>, maximum: usize, protected: Option<RequestAttemptId>) -> (r: Result<(), SwarmError>)
    ensures
        r is Ok ==> terminal_count(final(attempts)@) <= maximum,
        kept_attempts(old(attempts)@, final(attempts)@, protected),
        r is Ok <==> protected_terminal_count(old(attempts)@, protected) <= maximum,
        r is Err ==> r == Err::<(), SwarmError>(SwarmError::Invariant(ERR_TRIM)),
        terminal_count(old(attempts)@) <= maximum ==> final(attempts)@ == old(attempts)@,
        terminal_count(old(attempts)@) > maximum && r is Ok ==> terminal_count(final(attempts)@) == maximum,
        r is Err ==> terminal_count(final(attempts)@) == protected_terminal_count(old(attempts)@, protected),
{
    loop
        invariant
            kept_attempts(old(attempts)@, attempts@, protected),
            protected_terminal_count(attempts@, protected) == protected_terminal_count(old(attempts)@, protected),
            terminal_count(old(attempts)@) <= maximum ==> attempts@ == old(attempts)@,
            terminal_count(old(attempts)@) > maximum ==> terminal_count(attempts@) >= maximum,
        decreases attempts@.len(),
    {
        if count_terminal(attempts) <= maximum {
            proof {
                lemma_protected_at_most_terminal(attempts@, protected);
            }
            return Ok(());
        }
        let mut index: Option<usize> = None;
        let mut i: usize = 0;
        while i < attempts.len()
            invariant
                i <= attempts@.len(),
                index matches Some(x) ==> x < attempts@.len() && !attempts@[x as int].active() && Some(attempts@[x as int].id) != protected,
                index is None ==> forall|k: int|
                    0 <= k < i && !(#[trigger] attempts@[k]).active() ==> Some(attempts@[k].id) == protected,
            decreases attempts@.len() - i,
        {
            let a = attempts[i];
            let is_protected = match protected {
                Some(id) => a.id.same(id),
                None => false,
            };
            if index.is_none() && !matches!(a.disposition, RequestDisposition::Requested) && !is_protected {
                index = Some(i);
            }
            i += 1;
        }
        match index {
            None => {
                proof {
                    lemma_all_terminal_protected(attempts@, protected);
                }
                return Err(SwarmError::Invariant(ERR_TRIM));
            },
            Some(x) => {
                let ghost before = attempts@;
                attempts.remove(x);
                proof {
                    lemma_remove_terminal(before, x as int, protected);
                    assert(attempts@ == before.remove(x as int));
                    assert forall|i: int| 0 <= i < attempts@.len() implies old(attempts)@.contains(#[trigger] attempts@[i]) by {
                        if i < x {
                            assert(attempts@[i] == before[i]);
                            assert(before.contains(before[i]));
                        } else {
                            assert(attempts@[i] == before[i + 1]);
                            assert(before.contains(before[i + 1]));
                        }
                    }
                    assert forall|i: int|
                        0 <= i < old(attempts)@.len() && ((#[trigger] old(attempts)@[i]).active() || Some(old(attempts)@[i].id) == protected)
                            implies attempts@.contains(old(attempts)@[i]) by {
                        let j = choose|j: int| 0 <= j < before.len() && before[j] == old(attempts)@[i];
                        assert(j != x);
                        if j < x {
                            assert(attempts@[j] == old(attempts)@[i]);
                        } else {
                            assert(attempts@[j - 1] == old(attempts)@[i]);
                        }
                    }
                }
            },
        }
    }
}

fn find_attempt(attempts: &Vec<RequestAttempt>, id: RequestAttemptId) -> (r: Option<usize>)
    ensures
        r matches Some(i) ==> i < attempts@.len() && attempts@[i as int].id == id,
        r matches Some(i) ==> forall|k: int| 0 <= k < i ==> #[trigger] attempts@[k].id != id,
        r is None ==> forall|k: int| 0 <= k < attempts@.len() ==> #[trigger] attempts@[k].id != id,
{
    let mut i: usize = 0;
    while i < attempts.len()
        invariant
            i <= attempts@.len(),
            forall|k: int| 0 <= k < i ==> #[trigger] attempts@[k].id != id,
        decreases attempts@.len() - i,
    {
        if attempts[i].id.same(id) {
            return Some(i);
        }
        i += 1;
    }
    None
}

fn has_active_attempt(attempts: &Vec<RequestAttempt>) -> (r: bool)
    ensures
        r == exists|k: int| 0 <= k < attempts@.len() && (#[trigger] attempts@[k]).active(),
{
    let mut i: usize = 0;
    while i < attempts.len()
        invariant
            i <= attempts@.len(),
            forall|k: int| 0 <= k < i ==> !(#[trigger] attempts@[k]).active(),
        decreases attempts@.len() - i,
    {
        if matches!(attempts[i].disposition, RequestDisposition::Requested) {
            return true;
        }
        i += 1;
    }
    false
}

fn has_active_attempt_of(attempts: &Vec<RequestAttempt>, connection: ConnectionId) -> (r: bool)
    ensures
        r == exists|k: int| 0 <= k < attempts@.len() && (#[trigger] attempts@[k]).active() && attempts@[k].connection == connection,
{
    let mut i: usize = 0;
    while i < attempts.len()
        invariant
            i <= attempts@.len(),
            forall|k: int| 0 <= k < i ==> !((#[trigger] attempts@[k]).active() && attempts@[k].connection == connection),
        decreases attempts@.len() - i,
    {
        if matches!(attempts[i].disposition, RequestDisposition::Requested) && attempts[i].connection.same(connection) {
            return true;
        }
        i += 1;
    }
    false
}

/// Whether the block is requested, being written or awaiting verification.
pub open spec fn block_in_flight(e: BlockEntry) -> bool {
    e.phase is Requested || e.phase is Writing || e.phase is Received
}

/// The number of blocks in flight.
pub open spec fn in_flight_count(blocks: Seq<BlockEntry>) -> nat
    decreases blocks.len(),
{
    if blocks.len() == 0 {
        0
    } else {
        in_flight_count(blocks.drop_last()) + if block_in_flight(blocks.last()) {
            1nat
        } else {
            0nat
        }
    }
}

/// Blocks of the piece that are requested, being written or awaiting verification.
fn active_block_count(piece: &PieceState) -> (r: usize)
    ensures
        r <= piece.blocks@.len(),
        r == in_flight_count(piece.blocks@),
{
    let mut r: usize = 0;
    let mut b: usize = 0;
    while b < piece.blocks.len()
        invariant
            b <= piece.blocks@.len(),
            r <= b,
            r == in_flight_count(piece.blocks@.take(b as int)),
        decreases piece.blocks@.len() - b,
    {
        proof {
            assert(piece.blocks@.take(b + 1).drop_last() =~= piece.blocks@.take(b as int));
        }
        match piece.blocks[b].phase {
            BlockPhase::Requested | BlockPhase::Writing { .. } | BlockPhase::Received { .. } => {
                r += 1;
            },
            _ => {},
        }
        b += 1;
    }
    proof {
        assert(piece.blocks@.take(piece.blocks@.len() as int) =~= piece.blocks@);
    }
    r
}

pub const ERR_RETAINED_REQUESTS: &'static str = "removed connection retained active requests";

/// Position `k` of a rotation of `n` items that starts at `start`.
pub open spec fn rotated(start: int, k: int, n: int) -> int {
    if k < n - start {
        start + k
    } else {
        k - (n - start)
    }
}

/// Whether a connection may be given requests: it is unchoked, or has Fast
/// allowed pieces while choked, and its window has room.
pub open spec fn may_be_scheduled(state: ConnectionState) -> bool {
    (!state.choking || (state.fast_extension && state.choking && state.allowed_fast@.len() > 0))
        && state.active_request_count < state.request_window.target
}

/// Whether the block is stored and the attempt it names delivered its
/// payload from the source it names.
pub open spec fn backed_contribution(e: BlockEntry) -> bool {
    e.phase matches BlockPhase::Received { source, evidence } && payload_evidence(e.attempts@, evidence, source)
}

/// Whether some block of `blocks` is stored from `source`.
pub open spec fn contributed(blocks: Seq<BlockEntry>, source: ConnectionId) -> bool {
    exists|b: int| 0 <= b < blocks.len() && #[trigger] received_from(blocks[b], source)
}

/// Whether the block is stored from `source`.
pub open spec fn received_from(e: BlockEntry, source: ConnectionId) -> bool {
    e.phase matches BlockPhase::Received { source: s, .. } && s == source
}

/// Whether the block is being written or stored from `source`.
pub open spec fn unverified_from(e: BlockEntry, source: ConnectionId) -> bool {
    ||| e.phase matches BlockPhase::Writing { source: s, .. } && s == source
    ||| e.phase matches BlockPhase::Received { source: s, .. } && s == source
}

/// Whether `b` is the first missing block.
pub open spec fn is_first_missing(blocks: Seq<BlockEntry>, b: int) -> bool {
    &&& 0 <= b < blocks.len()
    &&& blocks[b].phase == BlockPhase::Missing
    &&& forall|x: int| 0 <= x < b ==> (#[trigger] blocks[x]).phase != BlockPhase::Missing
}

/// Whether some block is missing.
pub open spec fn has_missing(blocks: Seq<BlockEntry>) -> bool {
    exists|b: int| 0 <= b < blocks.len() && (#[trigger] blocks[b]).phase == BlockPhase::Missing
}

/// Position of the piece's first missing block.
fn first_missing_in(piece: &PieceState) -> (r: Option<usize>)
    ensures
        r matches Some(b) ==> b < piece.blocks@.len() && piece.blocks@[b as int].phase == BlockPhase::Missing,
        r matches Some(b) ==> is_first_missing(piece.blocks@, b as int),
        r is None ==> forall|b: int| 0 <= b < piece.blocks@.len() ==> (#[trigger] piece.blocks@[b]).phase != BlockPhase::Missing,
{
    let mut b: usize = 0;
    while b < piece.blocks.len()
        invariant
            b <= piece.blocks@.len(),
            forall|x: int| 0 <= x < b ==> (#[trigger] piece.blocks@[x]).phase != BlockPhase::Missing,
        decreases piece.blocks@.len() - b,
    {
        if matches!(piece.blocks[b].phase, BlockPhase::Missing) {
            return Some(b);
        }
        b += 1;
    }
    None
}

/// The first block of `blocks`, at `b` or later, whose key is `block`.
pub open spec fn entry_search(blocks: Seq<BlockEntry>, block: BlockKey, b: int) -> Option<int>
    decreases blocks.len() - b,
{
    if b < 0 || b >= blocks.len() {
        None
    } else if blocks[b].key == block {
        Some(b)
    } else {
        entry_search(blocks, block, b + 1)
    }
}

/// The first planned block, from piece position `p` on, whose key is `block`.
pub open spec fn block_search(pieces: Seq<PieceState>, block: BlockKey, p: int) -> Option<(int, int)>
    decreases pieces.len() - p,
{
    if p < 0 || p >= pieces.len() {
        None
    } else {
        match entry_search(pieces[p].blocks@, block, 0) {
            Some(b) => Some((p, b)),
            None => block_search(pieces, block, p + 1),
        }
    }
}

/// A block found by `entry_search` has the key searched for.
proof fn lemma_entry_search(blocks: Seq<BlockEntry>, block: BlockKey, b: int)
    ensures
        entry_search(blocks, block, b) matches Some(x) ==> b <= x < blocks.len() && blocks[x].key == block,
    decreases blocks.len() - b,
{
    if 0 <= b < blocks.len() && blocks[b].key != block {
        lemma_entry_search(blocks, block, b + 1);
    }
}

/// A block found by `block_search` has the key searched for.
proof fn lemma_block_search(pieces: Seq<PieceState>, block: BlockKey, p: int)
    ensures
        block_search(pieces, block, p) matches Some((x, y)) ==> p <= x < pieces.len() && 0 <= y
            < pieces[x].blocks@.len() && pieces[x].blocks@[y].key == block,
    decreases pieces.len() - p,
{
    if 0 <= p < pieces.len() {
        lemma_entry_search(pieces[p].blocks@, block, 0);
        lemma_block_search(pieces, block, p + 1);
    }
}

/// Pieces with the same block keys find a block at the same place.
pub open spec fn same_keys(a: Seq<PieceState>, b: Seq<PieceState>) -> bool {
    &&& a.len() == b.len()
    &&& forall|x: int|
        0 <= x < a.len() ==> (#[trigger] a[x]).blocks@.len() == b[x].blocks@.len() && forall|y: int|
            0 <= y < a[x].blocks@.len() ==> (#[trigger] a[x].blocks@[y]).key == b[x].blocks@[y].key
}

proof fn lemma_entry_search_same_keys(a: Seq<BlockEntry>, b: Seq<BlockEntry>, block: BlockKey, i: int)
    requires
        a.len() == b.len(),
        forall|y: int| 0 <= y < a.len() ==> (#[trigger] a[y]).key == b[y].key,
    ensures
        entry_search(a, block, i) == entry_search(b, block, i),
    decreases a.len() - i,
{
    if 0 <= i < a.len() {
        lemma_entry_search_same_keys(a, b, block, i + 1);
    }
}

proof fn lemma_block_search_same_keys(a: Seq<PieceState>, b: Seq<PieceState>, block: BlockKey, p: int)
    requires
        same_keys(a, b),
    ensures
        block_search(a, block, p) == block_search(b, block, p),
    decreases a.len() - p,
{
    if 0 <= p < a.len() {
        assert(a[p].blocks@.len() == b[p].blocks@.len());
        lemma_entry_search_same_keys(a[p].blocks@, b[p].blocks@, block, 0);
        lemma_block_search_same_keys(a, b, block, p + 1);
    }
}

/// The most recent attempt of `connection` among `attempts`.
pub open spec fn last_attempt_of(attempts: Seq<RequestAttempt>, connection: ConnectionId) -> Option<RequestAttempt>
    decreases attempts.len(),
{
    if attempts.len() == 0 {
        None
    } else if attempts.last().connection == connection {
        Some(attempts.last())
    } else {
        last_attempt_of(attempts.drop_last(), connection)
    }
}

/// Cancellations for every active attempt other than `evidence`, in order.
pub open spec fn cancellations_of(attempts: Seq<RequestAttempt>, evidence: RequestAttemptId, block: BlockKey) -> Seq<RequestCancellation>
    decreases attempts.len(),
{
    if attempts.len() == 0 {
        Seq::empty()
    } else {
        let prev = cancellations_of(attempts.drop_last(), evidence, block);
        let a = attempts.last();
        if a.active() && a.id != evidence {
            prev.push(RequestCancellation { attempt: a.id, connection: a.connection, block })
        } else {
            prev
        }
    }
}

pub const ERR_NO_ACTIVE_ATTEMPT: &'static str = "requested block has no active request attempt";

pub const ERR_RECEIVED_ACTIVE_INDEX: &'static str = "received block attempt is absent from the active index";

pub const OWNER_WRITING: &'static str = "writing block count";

fn last_attempt_by(attempts: &Vec<RequestAttempt>, connection: ConnectionId) -> (r: Option<RequestAttempt>)
    ensures
        r == last_attempt_of(attempts@, connection),
{
    let mut i: usize = attempts.len();
    assert(attempts@.subrange(0, attempts@.len() as int) =~= attempts@);
    while i > 0
        invariant
            i <= attempts@.len(),
            last_attempt_of(attempts@, connection) == last_attempt_of(attempts@.subrange(0, i as int), connection),
        decreases i,
    {
        let a = attempts[i - 1];
        proof {
            assert(attempts@.subrange(0, i as int).drop_last() =~= attempts@.subrange(0, i - 1));
        }
        if a.connection.same(connection) {
            return Some(a);
        }
        i -= 1;
    }
    None
}

/// Availability as the picker reports it, capped at `u32::MAX`.
pub open spec fn capped_availability(avail: int) -> u32 {
    if avail <= u32::MAX {
        avail as u32
    } else {
        u32::MAX
    }
}

/// The earliest issue time among the attempts of `connection`.
pub open spec fn oldest_issue_of(attempts: Seq<RequestAttempt>, connection: ConnectionId) -> Option<u64>
    decreases attempts.len(),
{
    if attempts.len() == 0 {
        None
    } else {
        let earlier = oldest_issue_of(attempts.drop_last(), connection);
        let a = attempts.last();
        if a.connection != connection {
            earlier
        } else {
            match earlier {
                None => Some(a.issued_at),
                Some(o) => Some(if a.issued_at < o {
                    a.issued_at
                } else {
                    o
                }),
            }
        }
    }
}

/// The number of pieces below `limit` that `flags` marks and `wanted` wants.
pub open spec fn wanted_flag_count(flags: Seq<bool>, wanted: Seq<bool>, limit: int) -> nat
    decreases flags.len(),
{
    if flags.len() == 0 {
        0
    } else {
        let p = flags.len() - 1;
        wanted_flag_count(flags.drop_last(), wanted, limit) + if flags.last() && p < limit && wanted[p] {
            1nat
        } else {
            0nat
        }
    }
}

/// The attempts still awaiting payload, in order.
pub open spec fn active_of(attempts: Seq<RequestAttempt>) -> Seq<RequestAttempt>
    decreases attempts.len(),
{
    if attempts.len() == 0 {
        Seq::empty()
    } else if attempts.last().active() {
        active_of(attempts.drop_last()).push(attempts.last())
    } else {
        active_of(attempts.drop_last())
    }
}

fn active_attempts_in(attempts: &Vec<RequestAttempt>) -> (r: Vec<RequestAttempt>)
    ensures
        r@ == active_of(attempts@),
{
    let mut r: Vec<RequestAttempt> = Vec::new();
    let mut i: usize = 0;
    while i < attempts.len()
        invariant
            i <= attempts@.len(),
            r@ == active_of(attempts@.take(i as int)),
        decreases attempts@.len() - i,
    {
        proof {
            assert(attempts@.take(i + 1).drop_last() =~= attempts@.take(i as int));
        }
        if matches!(attempts[i].disposition, RequestDisposition::Requested) {
            r.push(attempts[i]);
        }
        i += 1;
    }
    proof {
        assert(attempts@.take(attempts@.len() as int) =~= attempts@);
    }
    r
}

fn cancellations_for(attempts: &Vec<RequestAttempt>, evidence: RequestAttemptId, block: BlockKey) -> (r: Vec<RequestCancellation>)
    ensures
        r@ == cancellations_of(attempts@, evidence, block),
{
    let mut r: Vec<RequestCancellation> = Vec::new();
    let mut i: usize = 0;
    while i < attempts.len()
        invariant
            i <= attempts@.len(),
            r@ == cancellations_of(attempts@.subrange(0, i as int), evidence, block),
        decreases attempts@.len() - i,
    {
        proof {
            assert(attempts@.subrange(0, i as int + 1).drop_last() =~= attempts@.subrange(0, i as int));
        }
        let a = attempts[i];
        if matches!(a.disposition, RequestDisposition::Requested) && !a.id.same(evidence) {
            r.push(RequestCancellation { attempt: a.id, connection: a.connection, block });
        }
        i += 1;
    }
    assert(attempts@.subrange(0, i as int) =~= attempts@);
    r
}

/// The evidence attempt received the payload; every other active attempt is
/// superseded.
/// An attempt once the payload of attempt `evidence` arrived: that one
/// delivered it, and every other still active one is superseded.
pub open spec fn settled(a: RequestAttempt, evidence: RequestAttemptId) -> RequestAttempt {
    if a.id == evidence {
        RequestAttempt { disposition: RequestDisposition::PayloadReceived, ..a }
    } else if a.active() {
        RequestAttempt { disposition: RequestDisposition::Superseded, ..a }
    } else {
        a
    }
}

fn settle_attempts(attempts: &mut Vec<RequestAttempt>, evidence: RequestAttemptId)
    ensures
        final(attempts)@.len() == old(attempts)@.len(),
        forall|i: int| 0 <= i < old(attempts)@.len() ==> (#[trigger] final(attempts)@[i]).id == old(attempts)@[i].id,
        forall|i: int| 0 <= i < old(attempts)@.len() ==> #[trigger] final(attempts)@[i] == settled(old(attempts)@[i], evidence),
{
    let mut i: usize = 0;
    while i < attempts.len()
        invariant
            i <= attempts@.len(),
            attempts@.len() == old(attempts)@.len(),
            forall|k: int| 0 <= k < old(attempts)@.len() ==> (#[trigger] attempts@[k]).id == old(attempts)@[k].id,
            forall|k: int| 0 <= k < i ==> #[trigger] attempts@[k] == settled(old(attempts)@[k], evidence),
            forall|k: int| i <= k < attempts@.len() ==> #[trigger] attempts@[k] == old(attempts)@[k],
        decreases attempts@.len() - i,
    {
        let a = attempts[i];
        if a.id.same(evidence) {
            attempts.set(i, RequestAttempt { disposition: RequestDisposition::PayloadReceived, ..a });
        } else if matches!(a.disposition, RequestDisposition::Requested) {
            attempts.set(i, RequestAttempt { disposition: RequestDisposition::Superseded, ..a });
        }
        i += 1;
    }
}

pub const ERR_NOT_WRITING: &'static str = "block is not being written";

pub const ERR_WRITE_EVIDENCE: &'static str = "write evidence attempt is missing";

pub const ERR_WRITING_UNDERFLOW: &'static str = "writing block count underflow";

pub const OWNER_RECEIVED: &'static str = "received block count";

pub const ERR_HASH_EARLY: &'static str = "piece cannot hash before every write succeeds";

pub const ERR_CONTRIBUTOR_EVIDENCE: &'static str = "stored block contributor evidence is missing";

pub const ERR_CONTRIBUTOR_EARLY: &'static str = "piece contributor requested before storage completion";

pub const ERR_VERIFY_EARLY: &'static str = "piece cannot verify before its write/hash join passes";

pub const ERR_VERIFY_UNSTORED: &'static str = "piece cannot verify before every block is newly stored";

pub const ERR_RECEIVED_UNDERFLOW: &'static str = "received block count underflow";

pub const OWNER_VERIFIED: &'static str = "verified block count";

pub const ERR_NOT_INCOMPLETE: &'static str = "verified piece is absent from the incomplete index";

pub const ERR_WANTED_UNDERFLOW: &'static str = "connection wanted piece count underflow";

pub const ERR_FAIL_EARLY: &'static str = "piece cannot reset before its write/hash join fails";

pub const ERR_FAIL_UNSTORED: &'static str = "piece cannot fail its hash before every block is stored";

pub const OWNER_FAILED_BYTES: &'static str = "failed piece bytes";

/// Identifiers strictly increase along `ids`.
pub open spec fn ids_increasing(ids: Seq<ConnectionId>) -> bool {
    forall|i: int, j: int| #![trigger ids[i], ids[j]] 0 <= i < j < ids.len() ==> ids[i].value() < ids[j].value()
}

/// The distinct identifiers of `ids`, in increasing order.
fn distinct_sorted(ids: &Vec<ConnectionId>) -> (r: Vec<ConnectionId>)
    ensures
        ids_increasing(r@),
        forall|i: int| 0 <= i < ids@.len() ==> r@.contains(#[trigger] ids@[i]),
        forall|i: int| 0 <= i < r@.len() ==> ids@.contains(#[trigger] r@[i]),
{
    let mut r: Vec<ConnectionId> = Vec::new();
    let mut i: usize = 0;
    while i < ids.len()
        invariant
            i <= ids@.len(),
            ids_increasing(r@),
            forall|k: int| 0 <= k < i ==> r@.contains(#[trigger] ids@[k]),
            forall|k: int| 0 <= k < r@.len() ==> ids@.contains(#[trigger] r@[k]),
        decreases ids@.len() - i,
    {
        let id = ids[i];
        let mut j: usize = 0;
        while j < r.len() && r[j].precedes(id)
            invariant
                j <= r@.len(),
                forall|k: int| 0 <= k < j ==> (#[trigger] r@[k]).value() < id.value(),
            decreases r@.len() - j,
        {
            j += 1;
        }
        if j < r.len() && r[j].same(id) {
            assert(r@.contains(ids@[i as int]));
        } else {
            let ghost before = r@;
            r.insert(j, id);
            proof {
                assert(r@ == before.insert(j as int, id));
                assert forall|a: int, b: int| #![trigger r@[a], r@[b]] 0 <= a < b < r@.len() implies r@[a].value() < r@[b].value() by {
                    if b < j {
                        assert(before[a].value() < before[b].value());
                    } else if b == j {
                        assert(before[a].value() < id.value());
                    } else if a < j {
                        assert(before[a].value() < before[b - 1].value());
                        if a < j as int {
                            assert(before[a].value() < id.value());
                        }
                        assert(!(before[b - 1].value() < id.value()) || b - 1 < j);
                    } else if a == j {
                        assert(before[b - 1].value() >= id.value());
                        if before[b - 1].value() == id.value() {
                            lemma_value_eq(before[b - 1], id);
                            assert(before[j as int] == id || b - 1 != j);
                            if b - 1 > j {
                                assert(before[j as int].value() < before[b - 1].value());
                                assert(before[j as int].value() >= id.value());
                            }
                        }
                    } else {
                        assert(before[a - 1].value() < before[b - 1].value());
                    }
                }
                assert forall|k: int| 0 <= k < i + 1 implies r@.contains(#[trigger] ids@[k]) by {
                    if k < i {
                        let m = choose|m: int| 0 <= m < before.len() && before[m] == ids@[k];
                        if m < j {
                            assert(r@[m] == ids@[k]);
                        } else {
                            assert(r@[m + 1] == ids@[k]);
                        }
                    } else {
                        assert(r@[j as int] == id);
                    }
                }
                assert forall|k: int| 0 <= k < r@.len() implies ids@.contains(#[trigger] r@[k]) by {
                    if k < j {
                        assert(r@[k] == before[k]);
                    } else if k == j {
                        assert(ids@[i as int] == id);
                    } else {
                        assert(r@[k] == before[k - 1]);
                    }
                }
            }
        }
        i += 1;
    }
    r
}

/// Equal identifier values mean equal identifiers.
proof fn lemma_value_eq(a: ConnectionId, b: ConnectionId)
    requires
        a.value() == b.value(),
    ensures
        a == b,
{
    if a != b {
        lemma_id_value_injective(a, b);
    }
}

/// Whether every block of the piece is stored and awaits verification.
pub open spec fn every_block_received(blocks: Seq<BlockEntry>) -> bool {
    forall|b: int| 0 <= b < blocks.len() ==> (#[trigger] blocks[b]).phase is Received
}

fn all_blocks_received(piece: &PieceState) -> (r: bool)
    ensures
        r == every_block_received(piece.blocks@),
{
    let mut b: usize = 0;
    while b < piece.blocks.len()
        invariant
            b <= piece.blocks@.len(),
            forall|j: int| 0 <= j < b ==> (#[trigger] piece.blocks@[j]).phase is Received,
        decreases piece.blocks@.len() - b,
    {
        if !matches!(piece.blocks[b].phase, BlockPhase::Received { .. }) {
            return false;
        }
        b += 1;
    }
    true
}

/// Whether attempt `evidence` of `source` delivered its payload.
pub open spec fn payload_evidence(attempts: Seq<RequestAttempt>, evidence: RequestAttemptId, source: ConnectionId) -> bool {
    exists|i: int|
        0 <= i < attempts.len() && (#[trigger] attempts[i]).id == evidence && attempts[i].connection == source
            && attempts[i].disposition == RequestDisposition::PayloadReceived
}

fn has_payload_evidence(attempts: &Vec<RequestAttempt>, evidence: RequestAttemptId, source: ConnectionId) -> (r: bool)
    ensures
        r == payload_evidence(attempts@, evidence, source),
{
    let mut i: usize = 0;
    while i < attempts.len()
        invariant
            i <= attempts@.len(),
            forall|j: int|
                0 <= j < i ==> !((#[trigger] attempts@[j]).id == evidence && attempts@[j].connection == source
                    && attempts@[j].disposition == RequestDisposition::PayloadReceived),
        decreases attempts@.len() - i,
    {
        let a = attempts[i];
        if a.id.same(evidence) && a.connection.same(source) && matches!(a.disposition, RequestDisposition::PayloadReceived) {
            return true;
        }
        i += 1;
    }
    false
}

/// The expiry names an attempt of `active`, with its connection and block.
/// Some expiry in the list names attempt `id`.
pub open spec fn expired_names(expired: Seq<ExpiredRequest>, id: RequestAttemptId) -> bool {
    exists|i: int| 0 <= i < expired.len() && #[trigger] expired[i].attempt == id
}

pub open spec fn was_active(active: Seq<RequestAttempt>, e: ExpiredRequest) -> bool {
    exists|k: int|
        0 <= k < active.len() && #[trigger] active[k].id == e.attempt && active[k].connection == e.connection
            && active[k].block == e.block
}

fn copy_attempts(v: &Vec<RequestAttempt>) -> (r: Vec<RequestAttempt>)
    ensures
        r@ == v@,
{
    let mut r: Vec<RequestAttempt> = Vec::new();
    let mut i: usize = 0;
    while i < v.len()
        invariant
            i <= v@.len(),
            r@ == v@.subrange(0, i as int),
        decreases v@.len() - i,
    {
        r.push(v[i]);
        i += 1;
        assert(r@ =~= v@.subrange(0, i as int));
    }
    assert(r@ =~= v@);
    r
}

fn contains_connection(v: &Vec<ConnectionId>, id: ConnectionId) -> (r: bool)
    ensures
        r == v@.contains(id),
{
    let mut i: usize = 0;
    while i < v.len()
        invariant
            i <= v@.len(),
            forall|k: int| 0 <= k < i ==> v@[k] != id,
        decreases v@.len() - i,
    {
        if v[i].same(id) {
            return true;
        }
        i += 1;
    }
    false
}

/// Removes every occurrence of `x`.
fn remove_u32(v: &mut Vec<u32>, x: u32)
    ensures
        !final(v)@.contains(x),
        forall|k: int| 0 <= k < final(v)@.len() ==> old(v)@.contains(#[trigger] final(v)@[k]),
{
    let mut r: Vec<u32> = Vec::new();
    let mut i: usize = 0;
    while i < v.len()
        invariant
            i <= v@.len(),
            v@ == old(v)@,
            forall|k: int| 0 <= k < r@.len() ==> r@[k] != x && v@.contains(#[trigger] r@[k]),
        decreases v@.len() - i,
    {
        if v[i] != x {
            let ghost before = r@;
            r.push(v[i]);
            proof {
                assert forall|k: int| 0 <= k < r@.len() implies r@[k] != x && v@.contains(#[trigger] r@[k]) by {
                    if k < before.len() {
                        assert(r@[k] == before[k]);
                    } else {
                        assert(r@[k] == v@[i as int]);
                    }
                }
            }
        }
        i += 1;
    }
    *v = r;
}

proof fn lemma_unchoked_at_most(connections: Seq<ConnectionState>)
    ensures
        unchoked_count(connections) <= connections.len(),
    decreases connections.len(),
{
    if connections.len() > 0 {
        lemma_unchoked_at_most(connections.drop_last());
    }
}

/// With nothing protected, no finished attempt is protected.
proof fn lemma_nothing_protected(s: Seq<RequestAttempt>)
    ensures
        protected_terminal_count(s, None) == 0,
    decreases s.len(),
{
    if s.len() > 0 {
        lemma_nothing_protected(s.drop_last());
    }
}

/// `counts` with one more wherever `flags` is set.
pub open spec fn added_counts(counts: Seq<u32>, flags: Seq<bool>) -> Seq<u32> {
    Seq::new(
        counts.len(),
        |q: int|
            if q < flags.len() && flags[q] {
                (counts[q] + 1) as u32
            } else {
                counts[q]
            },
    )
}

/// The error appending `plans` from position `i` on reports, for a swarm of
/// `piece_count` pieces that already plans the pieces in `planned` and
/// counts `missing` missing blocks, after `added` more blocks were planned:
/// the first plan out of range, naming a planned piece (or one named
/// earlier), whose bytes overflow, or whose blocks overflow the missing
/// count; none when every plan goes in.
pub open spec fn plans_error(
    piece_count: usize,
    planned: Set<u32>,
    missing: nat,
    plans: Seq<PiecePlan>,
    i: int,
    added: nat,
) -> Option<SwarmError>
    decreases plans.len() - i,
{
    if i < 0 || i >= plans.len() {
        None
    } else {
        let x = plans[i].index_view();
        if x >= piece_count {
            Some(SwarmError::PieceOutOfRange { piece: x, piece_count })
        } else if planned.contains(x) || exists|j: int| 0 <= j < i && (#[trigger] plans[j]).index_view() == x {
            Some(SwarmError::DuplicatePiecePlan(x))
        } else if total_length(plans[i].blocks_view()) > usize::MAX {
            Some(SwarmError::ArithmeticOverflow(OWNER_WORKING_SET))
        } else if missing + added + plans[i].blocks_view().len() > usize::MAX {
            Some(SwarmError::ArithmeticOverflow(OWNER_MISSING))
        } else {
            plans_error(piece_count, planned, missing, plans, i + 1, added + plans[i].blocks_view().len())
        }
    }
}

/// The error appending one plan reports, for a swarm of `piece_count`
/// pieces that plans the pieces in `planned` and counts `missing` missing
/// blocks.
pub open spec fn plan_check(piece_count: usize, planned: Set<u32>, missing: nat, plan: PiecePlan) -> Option<SwarmError> {
    let x = plan.index_view();
    if x >= piece_count {
        Some(SwarmError::PieceOutOfRange { piece: x, piece_count })
    } else if planned.contains(x) {
        Some(SwarmError::DuplicatePiecePlan(x))
    } else if total_length(plan.blocks_view()) > usize::MAX {
        Some(SwarmError::ArithmeticOverflow(OWNER_WORKING_SET))
    } else if missing + plan.blocks_view().len() > usize::MAX {
        Some(SwarmError::ArithmeticOverflow(OWNER_MISSING))
    } else {
        None
    }
}

/// Whether `q` is the fresh piece of `plan`: its index, its blocks in
/// order and all missing, its bytes, inactive and unverified.
pub open spec fn plan_piece(q: PieceState, plan: PiecePlan) -> bool {
    &&& q.index == plan.index_view()
    &&& q.blocks@.len() == plan.blocks_view().len()
    &&& forall|b: int|
        0 <= b < q.blocks@.len() ==> (#[trigger] q.blocks@[b]).key == plan.blocks_view()[b] && q.blocks@[b].phase
            == BlockPhase::Missing
    &&& q.working_set_bytes == total_length(plan.blocks_view())
    &&& !q.active
    &&& !q.verified
}

/// When no plan errs, every plan names a piece in range.
proof fn lemma_plans_in_range(
    piece_count: usize,
    planned: Set<u32>,
    missing: nat,
    plans: Seq<PiecePlan>,
    i: int,
    added: nat,
)
    requires
        0 <= i,
        plans_error(piece_count, planned, missing, plans, i, added) is None,
    ensures
        forall|j: int| i <= j < plans.len() ==> (#[trigger] plans[j]).index_view() < piece_count,
    decreases plans.len() - i,
{
    if i < plans.len() {
        lemma_plans_in_range(piece_count, planned, missing, plans, i + 1, added + plans[i].blocks_view().len());
    }
}

/// Every write of the storage's generation succeeded and no hash check
/// started.
pub open spec fn storage_ready(st: PieceStorageJoin) -> bool {
    st.completed_view() == st.expected_view() && !st.write_failed_view() && st.hash_view()
        == PieceHashJoinState::NotStarted
}

/// The phase a written block takes: stored from the same source and
/// evidence when the write was accepted, missing when not.
pub open spec fn written_phase(before: BlockPhase, after: BlockPhase, accepted: bool) -> bool {
    match before {
        BlockPhase::Writing { source, evidence } => after == if accepted {
            BlockPhase::Received { source, evidence }
        } else {
            BlockPhase::Missing
        },
        _ => false,
    }
}

/// `Ok` when there is no error, else that error.
pub open spec fn as_result(e: Option<SwarmError>) -> Result<(), SwarmError> {
    match e {
        None => Ok(()),
        Some(e) => Err(e),
    }
}

/// The block count of a prefix grows by the next plan's blocks.
proof fn lemma_count_blocks_take(s: Seq<PiecePlan>, k: int)
    requires
        0 <= k < s.len(),
    ensures
        count_blocks(s.take(k + 1)) == count_blocks(s.take(k)) + s[k].blocks_view().len(),
{
    assert(s.take(k + 1).drop_last() =~= s.take(k));
}

/// A prefix has no more blocks than the whole.
proof fn lemma_count_blocks_prefix(s: Seq<PiecePlan>, k: int)
    requires
        0 <= k <= s.len(),
    ensures
        count_blocks(s.take(k)) <= count_blocks(s),
    decreases s.len(),
{
    if k == s.len() {
        assert(s.take(k) =~= s);
    } else {
        lemma_count_blocks_prefix(s.drop_last(), k);
        assert(s.drop_last().take(k) =~= s.take(k));
    }
}

/// Blocks in the same phases have the same number in flight.
proof fn lemma_in_flight_same_phases(a: Seq<BlockEntry>, b: Seq<BlockEntry>)
    requires
        a.len() == b.len(),
        forall|i: int| 0 <= i < a.len() ==> (#[trigger] a[i]).phase == b[i].phase,
    ensures
        in_flight_count(a) == in_flight_count(b),
    decreases a.len(),
{
    if a.len() > 0 {
        lemma_in_flight_same_phases(a.drop_last(), b.drop_last());
    }
}

/// The picker's rank order is transitive.
proof fn lemma_ranks_before_transitive(picker: AvailabilityPicker, a: int, b: int, c: int)
    requires
        picker.precedes_spec(a, b),
        picker.precedes_spec(b, c),
    ensures
        picker.precedes_spec(a, c),
{
}

/// Distinct pieces are ranked one way or the other.
proof fn lemma_ranks_before_total(picker: AvailabilityPicker, a: int, b: int)
    requires
        a != b,
    ensures
        picker.precedes_spec(a, b) || picker.precedes_spec(b, a),
{
}

/// The replacement order is transitive.
proof fn lemma_replaces_before_transitive(
    a: (u8, Option<u64>, u64, usize),
    b: (u8, Option<u64>, u64, usize),
    c: (u8, Option<u64>, u64, usize),
)
    requires
        replaces_before(a, b),
        replaces_before(b, c),
    ensures
        replaces_before(a, c),
{
}

/// Keys of different positions are always ordered one way or the other.
proof fn lemma_replaces_before_total(a: (u8, Option<u64>, u64, usize), b: (u8, Option<u64>, u64, usize))
    requires
        a.3 != b.3,
    ensures
        replaces_before(a, b) || replaces_before(b, a),
{
}

/// Replacement order: lower priority, less recently useful (never useful
/// first), older, then earlier position.
pub open spec fn replaces_before(a: (u8, Option<u64>, u64, usize), b: (u8, Option<u64>, u64, usize)) -> bool {
    if a.0 != b.0 {
        a.0 < b.0
    } else if a.1 != b.1 {
        match (a.1, b.1) {
            (None, _) => true,
            (Some(_), None) => false,
            (Some(x), Some(y)) => x < y,
        }
    } else if a.2 != b.2 {
        a.2 < b.2
    } else {
        a.3 < b.3
    }
}

/// Whether key `a` is replaced before key `b`.
fn replacement_before(a: (u8, Option<u64>, u64, usize), b: (u8, Option<u64>, u64, usize)) -> (r: bool)
    ensures
        r == replaces_before(a, b),
{
    if a.0 != b.0 {
        return a.0 < b.0;
    }
    match (a.1, b.1) {
        (None, Some(_)) => {
            return true;
        },
        (Some(_), None) => {
            return false;
        },
        (Some(x), Some(y)) => {
            if x != y {
                return x < y;
            }
        },
        (None, None) => {},
    }
    if a.2 != b.2 {
        return a.2 < b.2;
    }
    a.3 < b.3
}

/// The smaller of `x` and the current minimum, if any.
fn min_opt(current: Option<u64>, x: u64) -> (r: u64)
    ensures
        r == match current {
            Some(c) => if x < c {
                x
            } else {
                c
            },
            None => x,
        },
{
    match current {
        Some(c) => if x < c {
            x
        } else {
            c
        },
        None => x,
    }
}

/// Two records of one piece agree on everything but their blocks' phases and
/// attempts.
pub open spec fn same_piece_shape(a: PieceState, b: PieceState) -> bool {
    &&& a.index == b.index
    &&& a.working_set_bytes == b.working_set_bytes
    &&& a.storage == b.storage
    &&& a.active == b.active
    &&& a.verified == b.verified
    &&& a.blocks@.len() == b.blocks@.len()
    &&& forall|k: int| 0 <= k < a.blocks@.len() ==> (#[trigger] a.blocks@[k]).key == b.blocks@[k].key
}

/// Changing one piece in place, keeping its index, block count and block keys
/// and its storage well formed, keeps the pieces sorted and well formed.
proof fn lemma_pieces_update(before: Seq<PieceState>, after: Seq<PieceState>, i: int, piece_count: usize)
    requires
        0 <= i < before.len(),
        after.len() == before.len(),
        forall|k: int| 0 <= k < before.len() && k != i ==> #[trigger] after[k] == before[k],
        after[i].index == before[i].index,
        after[i].blocks@.len() == before[i].blocks@.len(),
        forall|k: int| 0 <= k < before[i].blocks@.len() ==> (#[trigger] after[i].blocks@[k]).key == before[i].blocks@[k].key,
        after[i].storage.wf(),
        after[i].storage.expected_view() == before[i].storage.expected_view(),
        pieces_sorted(before),
        forall|k: int| 0 <= k < before.len() ==> (#[trigger] before[k]).wf(piece_count),
    ensures
        pieces_sorted(after),
        forall|k: int| 0 <= k < after.len() ==> (#[trigger] after[k]).wf(piece_count),
        forall|k: int| 0 <= k < after.len() ==> (#[trigger] after[k]).index == before[k].index,
{
    assert forall|a: int, b: int|
        #![trigger after[a], after[b]]
        0 <= a < b < after.len() implies after[a].index < after[b].index by {
        assert(before[a].index < before[b].index);
    }
    assert forall|k: int| 0 <= k < after.len() implies (#[trigger] after[k]).wf(piece_count) by {
        if k == i {
            assert(before[i].wf(piece_count));
            assert forall|x: int| 0 <= x < after[i].blocks@.len() implies (#[trigger] after[i].blocks@[x]).key.piece
                == after[i].index by {
                assert(before[i].blocks@[x].key.piece == before[i].index);
            }
        }
    }
}

/// Working-set bytes of the first `n` pieces.
pub open spec fn sum_working_set(pieces: Seq<PieceState>, n: int) -> nat
    decreases n,
{
    if n <= 0 {
        0
    } else {
        sum_working_set(pieces, n - 1) + pieces[n - 1].working_set_bytes as nat
    }
}

/// Total length of the blocks.
/// The bytes of the blocks of a piece.
pub open spec fn block_bytes(blocks: Seq<BlockEntry>) -> nat
    decreases blocks.len(),
{
    if blocks.len() == 0 {
        0
    } else {
        block_bytes(blocks.drop_last()) + blocks.last().key.length as nat
    }
}

/// The piece found at `p` is the one `piece_position` names.
proof fn lemma_found_piece(s: &SwarmState, p: int, piece: u32)
    requires
        s.wf(),
        0 <= p < s.pieces_view().len(),
        s.pieces_view()[p].index == piece,
    ensures
        s.has_piece(piece),
        s.piece_position(piece) == Some(p),
{
    assert(s.pieces_view()[p].index == piece);
    let c = choose|q: int| 0 <= q < s.pieces_view().len() && #[trigger] s.pieces_view()[q].index == piece;
    if c < p {
        assert(s.pieces@[c].index < s.pieces@[p].index);
    } else if c > p {
        assert(s.pieces@[p].index < s.pieces@[c].index);
    }
}

pub open spec fn total_length(blocks: Seq<BlockKey>) -> nat
    decreases blocks.len(),
{
    if blocks.len() == 0 {
        0
    } else {
        total_length(blocks.drop_last()) + blocks.last().length as nat
    }
}

/// Number of blocks over all plans.
pub open spec fn count_blocks(plans: Seq<PiecePlan>) -> nat
    decreases plans.len(),
{
    if plans.len() == 0 {
        0
    } else {
        count_blocks(plans.drop_last()) + plans.last().blocks_view().len()
    }
}

/// The configuration error, as the constructor reports it.
pub open spec fn config_problem_err(config: SwarmConfig) -> Option<SwarmError> {
    match crate::swarm_types::config_problem(config) {
        Some(m) => Some(SwarmError::InvalidConfig(m)),
        None => None,
    }
}

/// Fresh entries for a plan's blocks: all missing, no attempts; with the
/// plan's total bytes, unless they overflow.
fn fresh_entries(keys: &Vec<BlockKey>) -> (r: Option<(Vec<BlockEntry>, usize)>)
    ensures
        r matches Some((entries, bytes)) ==> {
            &&& entries@.len() == keys@.len()
            &&& forall|b: int| 0 <= b < keys@.len() ==> (#[trigger] entries@[b]).key == keys@[b]
                && entries@[b].phase == BlockPhase::Missing && entries@[b].attempts@.len() == 0
            &&& bytes == total_length(keys@)
        },
        r is None ==> total_length(keys@) > usize::MAX,
{
    let mut bytes: usize = 0;
    let mut entries: Vec<BlockEntry> = Vec::new();
    let mut i: usize = 0;
    while i < keys.len()
        invariant
            i <= keys@.len(),
            entries@.len() == i,
            bytes == total_length(keys@.subrange(0, i as int)),
            forall|b: int|
                0 <= b < i ==> (#[trigger] entries@[b]).key == keys@[b] && entries@[b].phase
                    == BlockPhase::Missing && entries@[b].attempts@.len() == 0,
        decreases keys@.len() - i,
    {
        proof {
            assert(keys@.subrange(0, i as int + 1).drop_last() =~= keys@.subrange(0, i as int));
        }
        bytes = match bytes.checked_add(keys[i].length as usize) {
            Some(v) => v,
            None => {
                proof {
                    lemma_total_length_prefix(keys@, i as int + 1);
                }
                return None;
            },
        };
        entries.push(BlockEntry { key: keys[i], phase: BlockPhase::Missing, attempts: Vec::new() });
        i += 1;
    }
    assert(keys@.subrange(0, i as int) =~= keys@);
    Some((entries, bytes))
}

/// A prefix's total length never exceeds the whole.
proof fn lemma_total_length_prefix(s: Seq<BlockKey>, n: int)
    requires
        0 <= n <= s.len(),
    ensures
        total_length(s.subrange(0, n)) <= total_length(s),
    decreases s.len(),
{
    if n < s.len() {
        lemma_total_length_prefix(s.drop_last(), n);
        assert(s.drop_last().subrange(0, n) =~= s.subrange(0, n));
    } else {
        assert(s.subrange(0, n) =~= s);
    }
}

/// Every block of the piece is verified.
fn all_blocks_verified(piece: &PieceState) -> (r: bool)
    ensures
        r == forall|b: int| 0 <= b < piece.blocks@.len() ==> (#[trigger] piece.blocks@[b]).phase == BlockPhase::Verified,
{
    let mut b: usize = 0;
    while b < piece.blocks.len()
        invariant
            b <= piece.blocks@.len(),
            forall|x: int| 0 <= x < b ==> (#[trigger] piece.blocks@[x]).phase == BlockPhase::Verified,
        decreases piece.blocks@.len() - b,
    {
        if !matches!(piece.blocks[b].phase, BlockPhase::Verified) {
            return false;
        }
        b += 1;
    }
    true
}

/// Some piece of `pieces` has `index`.
pub open spec fn holds_index(pieces: Seq<PieceState>, index: u32) -> bool {
    exists|m: int| 0 <= m < pieces.len() && #[trigger] pieces[m].index == index
}


/// A piece whose blocks are all backed contributions has every block stored.
proof fn lemma_backed_all_received(blocks: Seq<BlockEntry>)
    ensures
        (forall|b: int| 0 <= b < blocks.len() ==> #[trigger] backed_contribution(blocks[b]))
            ==> every_block_received(blocks),
{
    if forall|b: int| 0 <= b < blocks.len() ==> #[trigger] backed_contribution(blocks[b]) {
        assert forall|b: int| 0 <= b < blocks.len() implies (#[trigger] blocks[b]).phase is Received by {
            assert(backed_contribution(blocks[b]));
        }
    }
}

/// The distinct sources drawn block by block are exactly the contributors.
proof fn lemma_contributors_exact(blocks: Seq<BlockEntry>, sources: Seq<ConnectionId>, distinct: Seq<ConnectionId>)
    requires
        sources.len() == blocks.len(),
        forall|b: int| 0 <= b < sources.len() ==> received_from(blocks[b], #[trigger] sources[b]),
        forall|i: int| 0 <= i < sources.len() ==> distinct.contains(#[trigger] sources[i]),
        forall|i: int| 0 <= i < distinct.len() ==> sources.contains(#[trigger] distinct[i]),
    ensures
        forall|x: ConnectionId| #[trigger] distinct.contains(x) <==> contributed(blocks, x),
{
    assert forall|x: ConnectionId| #[trigger] distinct.contains(x) <==> contributed(blocks, x) by {
        if distinct.contains(x) {
            let i = choose|i: int| 0 <= i < distinct.len() && distinct[i] == x;
            assert(sources.contains(distinct[i]));
            let j = choose|j: int| 0 <= j < sources.len() && sources[j] == x;
            assert(received_from(blocks[j], sources[j]));
        }
        if contributed(blocks, x) {
            let b = choose|b: int| 0 <= b < blocks.len() && #[trigger] received_from(blocks[b], x);
            assert(received_from(blocks[b], sources[b]));
            assert(distinct.contains(sources[b]));
        }
    }
}


/// The bytes of a prefix of the blocks are at most those of all of them.
proof fn lemma_block_bytes_prefix(blocks: Seq<BlockEntry>, n: int)
    requires
        0 <= n <= blocks.len(),
    ensures
        block_bytes(blocks.take(n)) <= block_bytes(blocks),
    decreases blocks.len() - n,
{
    if n < blocks.len() {
        lemma_block_bytes_prefix(blocks, n + 1);
        assert(blocks.take(n + 1).drop_last() =~= blocks.take(n));
    } else {
        assert(blocks.take(n) =~= blocks);
    }
}


/// A connection that chokes us adds nothing to the unchoked count.
proof fn lemma_unchoked_insert(s: Seq<ConnectionState>, pos: int, c: ConnectionState)
    requires
        0 <= pos <= s.len(),
        c.choking,
    ensures
        unchoked_count(s.insert(pos, c)) == unchoked_count(s),
    decreases s.len(),
{
    if pos == s.len() {
        assert(s.insert(pos, c).drop_last() =~= s);
    } else {
        lemma_unchoked_insert(s.drop_last(), pos, c);
        assert(s.insert(pos, c).drop_last() =~= s.drop_last().insert(pos, c));
        assert(s.insert(pos, c).last() == s.last());
    }
}


/// Every attempt settled around the evidence `evidence`.
pub open spec fn settled_all(attempts: Seq<RequestAttempt>, evidence: RequestAttemptId) -> Seq<RequestAttempt> {
    Seq::new(attempts.len(), |i: int| settled(attempts[i], evidence))
}

/// Position of the attempt named `id` in `attempts`, if any.
pub open spec fn attempt_position(attempts: Seq<RequestAttempt>, id: RequestAttemptId) -> Option<int> {
    if exists|j: int| 0 <= j < attempts.len() && (#[trigger] attempts[j]).id == id {
        Some(choose|j: int| 0 <= j < attempts.len() && (#[trigger] attempts[j]).id == id)
    } else {
        None
    }
}

/// Position of the connection named `id` in `connections`, if any.
pub open spec fn connection_position(connections: Seq<ConnectionState>, id: ConnectionId) -> Option<int> {
    if exists|i: int| 0 <= i < connections.len() && #[trigger] connections[i].id == id {
        Some(choose|i: int| 0 <= i < connections.len() && #[trigger] connections[i].id == id)
    } else {
        None
    }
}

/// Whether the attempts `pending` can be released one after another: each
/// is in the active index, its connection holds a request, and `length`
/// outstanding bytes remain to release for it.
pub open spec fn releases_fit(
    active: Seq<RequestAttempt>,
    connections: Seq<ConnectionState>,
    outstanding: int,
    length: int,
    pending: Seq<RequestAttempt>,
) -> bool
    decreases pending.len(),
{
    if pending.len() == 0 {
        true
    } else {
        let a = pending[0];
        match (attempt_position(active, a.id), connection_position(connections, a.connection)) {
            (Some(j), Some(i)) => {
                &&& connections[i].active_request_count > 0
                &&& length <= outstanding
                &&& releases_fit(
                    active.remove(j),
                    connections.update(
                        i,
                        ConnectionState {
                            active_request_count: (connections[i].active_request_count - 1) as usize,
                            ..connections[i]
                        },
                    ),
                    outstanding - length,
                    length,
                    pending.drop_first(),
                )
            },
            _ => false,
        }
    }
}

/// With distinct identifiers, the position found for `id` is the one named.
proof fn lemma_attempt_position(attempts: Seq<RequestAttempt>, id: RequestAttemptId, i: int)
    requires
        attempt_ids_distinct(attempts),
        0 <= i < attempts.len(),
        attempts[i].id == id,
    ensures
        attempt_position(attempts, id) == Some(i),
{
    assert(attempts[i].id == id);
    let j = choose|j: int| 0 <= j < attempts.len() && (#[trigger] attempts[j]).id == id;
    if j < i {
        assert(attempts[j].id != attempts[i].id);
    } else if j > i {
        assert(attempts[i].id != attempts[j].id);
    }
}

/// The connection index of a state is the position among its connections.
proof fn lemma_connection_position(s: &SwarmState, id: ConnectionId)
    ensures
        s.connection_index(id) == connection_position(s.connections@, id),
{
    assert(s.connections_view() == s.connections@);
}


/// Storage changes at one piece compose.
proof fn lemma_same_but_storage_trans(c: &SwarmState, b: &SwarmState, a: &SwarmState, p: int)
    requires
        c.same_but_storage(b, p),
        b.same_but_storage(a, p),
    ensures
        c.same_but_storage(a, p),
{
}

/// What remains to accept or reset a piece does not depend on its storage,
/// but for the generation that a reset advances.
proof fn lemma_same_but_storage_rest(a: &SwarmState, b: &SwarmState, p: int, piece: u32)
    requires
        a.wf(),
        b.wf(),
        a.same_but_storage(b, p),
        b.pieces@[p].index == piece,
    ensures
        a.verify_rest(piece) == b.verify_rest(piece),
        a.pieces@[p].storage.generation_view() == b.pieces@[p].storage.generation_view() ==> a.fail_rest(piece)
            == b.fail_rest(piece),
        a.piece_position(piece) == Some(p),
        b.piece_position(piece) == Some(p),
{
    lemma_found_piece(b, p, piece);
    lemma_found_piece(a, p, piece);
}


/// The first active attempt of `connection` in `attempts`, by identifier.
pub open spec fn first_active_by(attempts: Seq<RequestAttempt>, connection: ConnectionId) -> Option<RequestAttemptId>
    decreases attempts.len(),
{
    if attempts.len() == 0 {
        None
    } else {
        match first_active_by(attempts.drop_last(), connection) {
            Some(id) => Some(id),
            None => if attempts.last().connection == connection && attempts.last().active() {
                Some(attempts.last().id)
            } else {
                None
            },
        }
    }
}


/// Whether `connection` holds some attempt in `attempts`, and its first
/// active one.
fn attempt_standing(attempts: &Vec<RequestAttempt>, connection: ConnectionId) -> (r: (bool, Option<RequestAttemptId>))
    ensures
        r.0 == (last_attempt_of(attempts@, connection) is Some),
        r.1 == first_active_by(attempts@, connection),
{
    let mut any = false;
    let mut active: Option<RequestAttemptId> = None;
    let mut i: usize = 0;
    proof {
        assert(attempts@.take(0) =~= Seq::<RequestAttempt>::empty());
    }
    while i < attempts.len()
        invariant
            i <= attempts@.len(),
            active == first_active_by(attempts@.take(i as int), connection),
            any == last_attempt_of(attempts@.take(i as int), connection) is Some,
        decreases attempts@.len() - i,
    {
        proof {
            assert(attempts@.take(i + 1).drop_last() =~= attempts@.take(i as int));
            assert(attempts@.take(i + 1).last() == attempts@[i as int]);
        }
        let a = attempts[i];
        if a.connection.same(connection) {
            any = true;
            if active.is_none() && matches!(a.disposition, RequestDisposition::Requested) {
                active = Some(a.id);
            }
        }
        i += 1;
    }
    proof {
        assert(attempts@.take(i as int) =~= attempts@);
    }
    (any, active)
}


/// The smaller of `x` and the value held, if any.
pub open spec fn min_with(current: Option<u64>, x: u64) -> u64 {
    match current {
        Some(c) => if x < c {
            x
        } else {
            c
        },
        None => x,
    }
}

/// The larger of `x` and the value held, if any.
pub open spec fn max_with(current: Option<u64>, x: u64) -> u64 {
    match current {
        Some(c) => if x > c {
            x
        } else {
            c
        },
        None => x,
    }
}

/// The earliest issue time among `attempts`.
pub open spec fn oldest_issue_all(attempts: Seq<RequestAttempt>) -> Option<u64>
    decreases attempts.len(),
{
    if attempts.len() == 0 {
        None
    } else {
        Some(min_with(oldest_issue_all(attempts.drop_last()), attempts.last().issued_at))
    }
}

/// The earliest time at which one of `attempts` times out after `timeout`.
pub open spec fn attempt_expiry(attempts: Seq<RequestAttempt>, timeout: u64) -> Option<u64>
    decreases attempts.len(),
{
    if attempts.len() == 0 {
        None
    } else {
        let deadline = if attempts.last().issued_at + timeout > u64::MAX {
            u64::MAX
        } else {
            (attempts.last().issued_at + timeout) as u64
        };
        Some(min_with(attempt_expiry(attempts.drop_last(), timeout), deadline))
    }
}

/// When a connection whose window is `w` and whose oldest request was
/// issued at `oldest` counts as stalled.
pub open spec fn stall_deadline_at(w: RequestWindow, oldest: u64, config: SwarmConfig) -> u64 {
    let start = match w.last_payload_at {
        Some(t) => t,
        None => oldest,
    };
    let d = start + timeout_spec(w.request_time_samples@, config.request_timeout);
    if d > u64::MAX {
        u64::MAX
    } else {
        d as u64
    }
}

/// The earliest of `start` and the stall deadlines of the `connections`
/// that hold an active attempt.
pub open spec fn stall_expiry(
    connections: Seq<ConnectionState>,
    active: Seq<RequestAttempt>,
    config: SwarmConfig,
    start: Option<u64>,
) -> Option<u64>
    decreases connections.len(),
{
    if connections.len() == 0 {
        start
    } else {
        let before = stall_expiry(connections.drop_last(), active, config, start);
        let c = connections.last();
        match oldest_issue_of(active, c.id) {
            Some(o) => Some(min_with(before, stall_deadline_at(c.request_window, o, config))),
            None => before,
        }
    }
}

/// The shortest request timeout of the `connections`.
pub open spec fn timeout_min_of(connections: Seq<ConnectionState>, config: SwarmConfig) -> Option<u64>
    decreases connections.len(),
{
    if connections.len() == 0 {
        None
    } else {
        Some(min_with(
            timeout_min_of(connections.drop_last(), config),
            timeout_spec(connections.last().request_window.request_time_samples@, config.request_timeout) as u64,
        ))
    }
}

/// The longest request timeout of the `connections`.
pub open spec fn timeout_max_of(connections: Seq<ConnectionState>, config: SwarmConfig) -> Option<u64>
    decreases connections.len(),
{
    if connections.len() == 0 {
        None
    } else {
        Some(max_with(
            timeout_max_of(connections.drop_last(), config),
            timeout_spec(connections.last().request_window.request_time_samples@, config.request_timeout) as u64,
        ))
    }
}

/// The largest request target of the `connections`, 0 for none.
pub open spec fn target_max_of(connections: Seq<ConnectionState>) -> usize
    decreases connections.len(),
{
    if connections.len() == 0 {
        0
    } else {
        let before = target_max_of(connections.drop_last());
        let t = connections.last().request_window.target;
        if t > before {
            t
        } else {
            before
        }
    }
}

/// How many of the `connections` have a request window in `phase`.
pub open spec fn phase_count(connections: Seq<ConnectionState>, phase: RequestWindowPhase) -> nat
    decreases connections.len(),
{
    if connections.len() == 0 {
        0
    } else {
        phase_count(connections.drop_last(), phase) + if connections.last().request_window.phase == phase {
            1nat
        } else {
            0nat
        }
    }
}

proof fn lemma_phase_count_at_most(connections: Seq<ConnectionState>, phase: RequestWindowPhase)
    ensures
        phase_count(connections, phase) <= connections.len(),
    decreases connections.len(),
{
    if connections.len() > 0 {
        lemma_phase_count_at_most(connections.drop_last(), phase);
    }
}


/// `a + b`, or the largest `usize` when that overflows.
pub open spec fn saturating_plus(a: usize, b: usize) -> usize {
    if a + b > usize::MAX {
        usize::MAX
    } else {
        (a + b) as usize
    }
}

/// The saturating sum of the request targets of the `connections`.
pub open spec fn target_total_of(connections: Seq<ConnectionState>) -> usize
    decreases connections.len(),
{
    if connections.len() == 0 {
        0
    } else {
        saturating_plus(target_total_of(connections.drop_last()), connections.last().request_window.target)
    }
}

/// The saturating sum of the useful payload bytes of the `connections`.
pub open spec fn useful_total_of(connections: Seq<ConnectionState>) -> usize
    decreases connections.len(),
{
    if connections.len() == 0 {
        0
    } else {
        saturating_plus(
            useful_total_of(connections.drop_last()),
            connections.last().request_window.useful_payload_bytes,
        )
    }
}

/// The saturating sum of the observed payload rates of the `connections`.
pub open spec fn observed_total_of(connections: Seq<ConnectionState>) -> usize
    decreases connections.len(),
{
    if connections.len() == 0 {
        0
    } else {
        saturating_plus(
            observed_total_of(connections.drop_last()),
            connections.last().request_window.observed_payload_rate,
        )
    }
}


/// The attempts of `assigned` are numbered from `low` upward in order, all
/// below `high`.
pub open spec fn fresh_ids(assigned: Seq<RequestAssignment>, low: u64, high: u64) -> bool {
    &&& low <= high
    &&& forall|i: int| 0 <= i < assigned.len() ==> low <= (#[trigger] assigned[i]).attempt.value() < high
    &&& forall|i: int, j: int|
        0 <= i < j < assigned.len() ==> (#[trigger] assigned[i]).attempt.value() < (#[trigger] assigned[j]).attempt.value()
}


/// Some connection of `connections` named `id` may be asked for `piece`.
pub open spec fn peer_may_request(connections: Seq<ConnectionState>, id: ConnectionId, piece: u32) -> bool {
    exists|c: int| 0 <= c < connections.len() && (#[trigger] connections[c]).id == id && connections[c].may_request(piece as int)
}

/// The connections agree in identity and in what each may be asked for.
pub open spec fn same_permissions(a: Seq<ConnectionState>, b: Seq<ConnectionState>) -> bool {
    &&& a.len() == b.len()
    &&& forall|k: int|
        0 <= k < a.len() ==> (#[trigger] a[k]).id == b[k].id && a[k].availability@ == b[k].availability@
            && a[k].choking == b[k].choking && a[k].fast_extension == b[k].fast_extension && a[k].allowed_fast@
            == b[k].allowed_fast@
}

proof fn lemma_permission_kept(a: Seq<ConnectionState>, b: Seq<ConnectionState>, id: ConnectionId, piece: u32)
    requires
        same_permissions(a, b),
        peer_may_request(a, id, piece),
    ensures
        peer_may_request(b, id, piece),
{
    let c = choose|c: int| 0 <= c < a.len() && (#[trigger] a[c]).id == id && a[c].may_request(piece as int);
    assert(b[c].may_request(piece as int));
}


/// Some assignment of `assigned` names the block `blk`.
pub open spec fn blocks_named(assigned: Seq<RequestAssignment>, blk: BlockKey) -> bool {
    exists|y: int| 0 <= y < assigned.len() && (#[trigger] assigned[y]).block == blk
}

/// The assignment at `x` is an endgame duplicate: its block was not missing
/// in `start`, or an earlier assignment already named it.
pub open spec fn duplicate_at(start: &SwarmState, assigned: Seq<RequestAssignment>, x: int) -> bool {
    ||| !(start.entry_of(assigned[x].block) matches Some(e) && e.phase == BlockPhase::Missing)
    ||| exists|y: int| 0 <= y < x && (#[trigger] assigned[y]).block == assigned[x].block
}

/// A block taken as missing is named by no earlier assignment and was
/// missing at the start.
proof fn lemma_fresh_block(pre: SwarmState, start: &SwarmState, assigned: Seq<RequestAssignment>, block: BlockKey)
    requires
        pre.entry_of(block) matches Some(e) && e.phase == BlockPhase::Missing,
        forall|x: int|
            0 <= x < assigned.len() ==> (pre.entry_of((#[trigger] assigned[x]).block) matches Some(f) && f.phase
                == BlockPhase::Requested),
        forall|blk: BlockKey| !blocks_named(assigned, blk) ==> #[trigger] pre.entry_of(blk) == start.entry_of(blk),
    ensures
        !blocks_named(assigned, block),
        start.entry_of(block) matches Some(e) && e.phase == BlockPhase::Missing,
{
    if blocks_named(assigned, block) {
        let y = choose|y: int| 0 <= y < assigned.len() && (#[trigger] assigned[y]).block == block;
        assert(pre.entry_of(assigned[y].block) matches Some(f) && f.phase == BlockPhase::Requested);
    }
    assert(pre.entry_of(block) == start.entry_of(block));
}

/// Pushing a fresh block keeps the assignments free of duplicates and the
/// other blocks as they started.
proof fn lemma_push_fresh(
    pre: SwarmState,
    start: &SwarmState,
    post: SwarmState,
    before: Seq<RequestAssignment>,
    after: Seq<RequestAssignment>,
    a: RequestAssignment,
)
    requires
        after == before.push(a),
        !blocks_named(before, a.block),
        start.entry_of(a.block) matches Some(e) && e.phase == BlockPhase::Missing,
        forall|x: int| 0 <= x < before.len() ==> !#[trigger] duplicate_at(start, before, x),
        forall|blk: BlockKey| !blocks_named(before, blk) ==> #[trigger] pre.entry_of(blk) == start.entry_of(blk),
        forall|other: BlockKey| other != a.block ==> #[trigger] post.entry_of(other) == pre.entry_of(other),
    ensures
        forall|x: int| 0 <= x < after.len() ==> !#[trigger] duplicate_at(start, after, x),
        forall|blk: BlockKey| !blocks_named(after, blk) ==> #[trigger] post.entry_of(blk) == start.entry_of(blk),
{
    assert forall|x: int| 0 <= x < after.len() implies !#[trigger] duplicate_at(start, after, x) by {
        if x < before.len() {
            assert(after[x] == before[x]);
            assert(!duplicate_at(start, before, x));
            assert forall|y: int| 0 <= y < x implies (#[trigger] after[y]).block != after[x].block by {
                assert(after[y] == before[y]);
            }
        } else {
            assert forall|y: int| 0 <= y < x implies (#[trigger] after[y]).block != after[x].block by {
                assert(after[y] == before[y]);
            }
        }
    }
    assert forall|blk: BlockKey| !blocks_named(after, blk) implies #[trigger] post.entry_of(blk) == start.entry_of(blk) by {
        assert(after[before.len() as int] == a);
        if blocks_named(before, blk) {
            let y = choose|y: int| 0 <= y < before.len() && (#[trigger] before[y]).block == blk;
            assert(after[y] == before[y]);
        }
    }
}


/// States with the same pieces hold the same block entries.
proof fn lemma_same_entries(a: &SwarmState, b: &SwarmState)
    requires
        a.pieces@ == b.pieces@,
    ensures
        forall|blk: BlockKey| #[trigger] b.entry_of(blk) == a.entry_of(blk),
{
    assert(a.pieces_view() == b.pieces_view());
}


/// The piece at `p` is active, has a missing block, and the connection at
/// `c` may be asked for it.
pub open spec fn offer_at(pieces: Seq<PieceState>, connections: Seq<ConnectionState>, c: int, p: int) -> bool {
    &&& 0 <= p < pieces.len()
    &&& pieces[p].active
    &&& has_missing(pieces[p].blocks@)
    &&& connections[c].may_request(pieces[p].index as int)
}

/// The first active piece offered to the connection named `id` has its
/// first missing block over the outstanding-byte budget, or none is offered.
pub open spec fn first_offer_blocked(
    pieces: Seq<PieceState>,
    connections: Seq<ConnectionState>,
    outstanding: int,
    limit: int,
    id: ConnectionId,
) -> bool {
    forall|c: int, p: int, b: int|
        #![trigger offer_at(pieces, connections, c, p), is_first_missing(pieces[p].blocks@, b)]
        0 <= c < connections.len() && connections[c].id == id && offer_at(pieces, connections, c, p)
            && is_first_missing(pieces[p].blocks@, b) && (forall|q: int|
            q < p ==> !#[trigger] offer_at(pieces, connections, c, q)) ==> outstanding + pieces[p].blocks@[b].key.length
            > limit
}


/// Some attempt of `attempts` has the identifier `id`.
pub open spec fn names_attempt(attempts: Seq<RequestAttempt>, id: RequestAttemptId) -> bool {
    exists|j: int| 0 <= j < attempts.len() && (#[trigger] attempts[j]).id == id
}

} // verus!

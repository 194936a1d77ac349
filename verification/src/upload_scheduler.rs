//! Complete-seed upload-slot scheduling.
//!
//! Times are milliseconds since an origin the caller chooses; every time the
//! scheduler is given must use the same origin.
use vstd::prelude::*;

verus! {

pub const DEFAULT_UNCHOKE_SLOTS: usize = 8;

/// Fifteen seconds, in milliseconds.
pub const DEFAULT_UNCHOKE_INTERVAL: u64 = 15_000;

/// Thirty seconds, in milliseconds.
pub const DEFAULT_OPTIMISTIC_UNCHOKE_INTERVAL: u64 = 30_000;

pub const DEFAULT_SEEDING_PIECE_QUOTA: u64 = 20;

/// A seed grant lasts more than a minute before its quota can end it.
pub const MIN_SEED_GRANT: u64 = 60_000;

#[derive(Clone, Copy, Debug, PartialEq, Eq, Hash, PartialOrd, Ord)]
pub struct UploadPeerId(u64);

impl UploadPeerId {
    pub closed spec fn value(self) -> u64 {
        self.0
    }

    pub fn new(value: u64) -> (r: Option<Self>)
        ensures
            value == 0 <==> r is None,
            r matches Some(id) ==> id.value() == value,
    {
        if value == 0 {
            None
        } else {
            Some(UploadPeerId(value))
        }
    }

    pub fn get(self) -> (r: u64)
        ensures
            r == self.value(),
    {
        self.0
    }
}

/// The error when an unchoke or optimistic interval is zero.
pub const ERR_ZERO_INTERVAL: &'static str = "upload scheduler intervals must be nonzero";

/// The error when the seeding piece quota is zero.
pub const ERR_ZERO_QUOTA: &'static str = "seeding piece quota must be nonzero";

#[derive(Clone, Copy, Debug, PartialEq, Eq)]
pub struct UploadSchedulerConfig {
    pub slots: usize,
    /// Milliseconds between ordinary unchoke rounds.
    pub unchoke_interval: u64,
    /// Milliseconds between optimistic rotations.
    pub optimistic_interval: u64,
    pub seeding_piece_quota: u64,
}

impl Default for UploadSchedulerConfig {
    fn default() -> (r: Self)
        ensures
            r.slots == DEFAULT_UNCHOKE_SLOTS,
            r.unchoke_interval == DEFAULT_UNCHOKE_INTERVAL,
            r.optimistic_interval == DEFAULT_OPTIMISTIC_UNCHOKE_INTERVAL,
            r.seeding_piece_quota == DEFAULT_SEEDING_PIECE_QUOTA,
    {
        UploadSchedulerConfig {
            slots: DEFAULT_UNCHOKE_SLOTS,
            unchoke_interval: DEFAULT_UNCHOKE_INTERVAL,
            optimistic_interval: DEFAULT_OPTIMISTIC_UNCHOKE_INTERVAL,
            seeding_piece_quota: DEFAULT_SEEDING_PIECE_QUOTA,
        }
    }
}

#[derive(Clone, Copy, Debug, PartialEq, Eq)]
pub struct UploadSchedulerPeer {
    pub id: UploadPeerId,
    pub torrent: [u8; 20],
    pub piece_length: u32,
    pub interested: bool,
    pub payload_uploaded: u64,
}

#[derive(Clone, Copy, Debug, PartialEq, Eq, Structural)]
pub enum UploadGrant {
    Choked,
    Regular,
    Optimistic,
}

#[derive(Clone, Copy, Debug, PartialEq, Eq)]
pub struct UploadDecision {
    pub peer: UploadPeerId,
    pub grant: UploadGrant,
}

#[derive(Clone, Copy, Debug, PartialEq, Eq)]
pub struct UploadSchedulerSnapshot {
    pub peers: usize,
    pub interested: usize,
    pub regular: usize,
    pub optimistic: usize,
    pub evaluations: u64,
    pub optimistic_rotations: u64,
}

impl Default for UploadSchedulerSnapshot {
    fn default() -> (r: Self)
        ensures
            r.peers == 0 && r.interested == 0 && r.regular == 0 && r.optimistic == 0,
            r.evaluations == 0 && r.optimistic_rotations == 0,
    {
        UploadSchedulerSnapshot {
            peers: 0,
            interested: 0,
            regular: 0,
            optimistic: 0,
            evaluations: 0,
            optimistic_rotations: 0,
        }
    }
}

/// The scheduler's record of one peer.
#[derive(Clone, Copy, Debug)]
pub struct PeerState {
    pub input: UploadSchedulerPeer,
    pub grant: UploadGrant,
    pub uploaded_at_last_round: u64,
    pub uploaded_at_unchoke: u64,
    pub last_unchoke: u64,
    pub last_optimistic: Option<u64>,
}

/// `a * b`, saturating at `u64::MAX`.
pub open spec fn sat_mul(a: u64, b: u64) -> u64 {
    if a * b <= u64::MAX {
        (a * b) as u64
    } else {
        u64::MAX
    }
}

/// `x + 1`, saturating at `u64::MAX`.
pub open spec fn sat_inc(x: u64) -> u64 {
    if x == u64::MAX {
        x
    } else {
        (x + 1) as u64
    }
}

impl PeerState {
    /// A newly seen peer: choked, with its counters taken at `now`.
    pub open spec fn fresh(input: UploadSchedulerPeer, now: u64) -> PeerState {
        PeerState {
            input,
            grant: UploadGrant::Choked,
            uploaded_at_last_round: input.payload_uploaded,
            uploaded_at_unchoke: input.payload_uploaded,
            last_unchoke: now,
            last_optimistic: None,
        }
    }

    /// Payload uploaded since the last ordinary round; zero while choked.
    pub open spec fn recent_rate(self) -> u64 {
        if self.grant == UploadGrant::Choked {
            0
        } else {
            self.input.payload_uploaded.saturating_sub(self.uploaded_at_last_round)
        }
    }

    /// An unchoked peer has received more than its quota of pieces since its
    /// unchoke, and more than the minimum seed grant has passed.
    pub open spec fn quota_done(self, now: u64, pieces: u64) -> bool {
        &&& self.grant != UploadGrant::Choked
        &&& self.input.payload_uploaded.saturating_sub(self.uploaded_at_unchoke) > sat_mul(
            self.input.piece_length as u64,
            pieces,
        )
        &&& now.saturating_sub(self.last_unchoke) > MIN_SEED_GRANT
    }

    fn new(input: UploadSchedulerPeer, now: u64) -> (r: Self)
        ensures
            r == PeerState::fresh(input, now),
    {
        PeerState {
            input,
            grant: UploadGrant::Choked,
            uploaded_at_last_round: input.payload_uploaded,
            uploaded_at_unchoke: input.payload_uploaded,
            last_unchoke: now,
            last_optimistic: None,
        }
    }

    fn uploaded_in_last_round(&self) -> (r: u64)
        ensures
            r == self.input.payload_uploaded.saturating_sub(self.uploaded_at_last_round),
    {
        self.input.payload_uploaded.saturating_sub(self.uploaded_at_last_round)
    }

    fn quota_complete(&self, now: u64, pieces: u64) -> (r: bool)
        ensures
            r == self.quota_done(now, pieces),
    {
        let allowance = match (self.input.piece_length as u64).checked_mul(pieces) {
            Some(v) => v,
            None => u64::MAX,
        };
        !matches!(self.grant, UploadGrant::Choked) && self.input.payload_uploaded.saturating_sub(
            self.uploaded_at_unchoke,
        ) > allowance && now.saturating_sub(self.last_unchoke) > MIN_SEED_GRANT
    }
}

/// `a` takes a regular slot before `b`: an unfinished quota first, then the
/// higher recent upload, the earlier unchoke and the lower identifier.
pub open spec fn ranks_before(a: PeerState, b: PeerState, now: u64, quota: u64) -> bool {
    let qa = a.quota_done(now, quota);
    let qb = b.quota_done(now, quota);
    if qa != qb {
        !qa
    } else if a.recent_rate() != b.recent_rate() {
        a.recent_rate() > b.recent_rate()
    } else if a.last_unchoke != b.last_unchoke {
        a.last_unchoke < b.last_unchoke
    } else {
        a.input.id.value() < b.input.id.value()
    }
}

/// In the regular ranking, of two peers in the same quota state, the one that
/// was sent more payload since the last ordinary round (nothing counts while
/// choked) takes a regular slot first, and never the other way round.
pub proof fn lemma_busier_peer_ranks_first(a: PeerState, b: PeerState, now: u64, quota: u64)
    requires
        a.quota_done(now, quota) == b.quota_done(now, quota),
        ({
            let sent_a = if a.grant == UploadGrant::Choked {
                0
            } else {
                a.input.payload_uploaded.saturating_sub(a.uploaded_at_last_round)
            };
            let sent_b = if b.grant == UploadGrant::Choked {
                0
            } else {
                b.input.payload_uploaded.saturating_sub(b.uploaded_at_last_round)
            };
            sent_a > sent_b
        }),
    ensures
        precedes(Ranking::Regular, a, b, now, quota),
        !precedes(Ranking::Regular, b, a, now, quota),
{
}

/// The rest of the regular ranking: a peer that has not yet received its
/// quota goes before one that has; among peers alike in quota and recent
/// upload, the one unchoked earlier goes first, and with equal unchoke times
/// the lower identifier. The optimistic rotation takes a peer never granted
/// the optimistic slot before one that was, else the one granted it longer
/// ago, else the lower identifier.
pub proof fn lemma_ranking_tie_breaks(a: PeerState, b: PeerState, now: u64, quota: u64)
    ensures
        !a.quota_done(now, quota) && b.quota_done(now, quota) ==> precedes(Ranking::Regular, a, b, now, quota),
        a.quota_done(now, quota) == b.quota_done(now, quota) && a.recent_rate() == b.recent_rate()
            && a.last_unchoke < b.last_unchoke ==> precedes(Ranking::Regular, a, b, now, quota),
        a.quota_done(now, quota) == b.quota_done(now, quota) && a.recent_rate() == b.recent_rate()
            && a.last_unchoke == b.last_unchoke ==> (precedes(Ranking::Regular, a, b, now, quota)
            <==> a.input.id.value() < b.input.id.value()),
        a.last_optimistic is None && b.last_optimistic is Some ==> precedes(Ranking::Optimistic, a, b, now, quota),
        (a.last_optimistic matches Some(x) && b.last_optimistic matches Some(y) && x < y) ==> precedes(
            Ranking::Optimistic,
            a,
            b,
            now,
            quota,
        ),
        a.last_optimistic == b.last_optimistic ==> (precedes(Ranking::Optimistic, a, b, now, quota)
            <==> a.input.id.value() < b.input.id.value()),
{
}

/// `a` is rotated in before `b`: never optimistic before optimistic, then the
/// earlier last optimistic grant, then the lower identifier.
pub open spec fn rotates_before(a: PeerState, b: PeerState) -> bool {
    match (a.last_optimistic, b.last_optimistic) {
        (None, Some(_)) => true,
        (Some(_), None) => false,
        (Some(x), Some(y)) => x < y || (x == y && a.input.id.value() < b.input.id.value()),
        (None, None) => a.input.id.value() < b.input.id.value(),
    }
}

/// The two orders in which peers compete for slots.
#[derive(Clone, Copy, Debug, PartialEq, Eq, Structural)]
pub enum Ranking {
    Regular,
    Optimistic,
}

pub open spec fn precedes(kind: Ranking, a: PeerState, b: PeerState, now: u64, quota: u64) -> bool {
    match kind {
        Ranking::Regular => ranks_before(a, b, now, quota),
        Ranking::Optimistic => rotates_before(a, b),
    }
}

/// Among the first `n` peers, how many marked in `member` precede `x`.
pub open spec fn rank_upto(
    peers: Seq<PeerState>,
    member: Seq<bool>,
    x: PeerState,
    kind: Ranking,
    now: u64,
    quota: u64,
    n: int,
) -> nat
    decreases n,
{
    if n <= 0 {
        0
    } else {
        rank_upto(peers, member, x, kind, now, quota, n - 1) + if member[n - 1] && precedes(
            kind,
            peers[n - 1],
            x,
            now,
            quota,
        ) {
            1nat
        } else {
            0nat
        }
    }
}

/// The peers marked in `member` that fewer than `k` marked peers precede.
pub open spec fn top(peers: Seq<PeerState>, member: Seq<bool>, k: int, kind: Ranking, now: u64, quota: u64) -> Seq<
    bool,
> {
    Seq::new(
        peers.len(),
        |i: int|
            member[i] && rank_upto(peers, member, peers[i], kind, now, quota, peers.len() as int)
                < k,
    )
}

/// How many of the first `n` marks are set.
pub open spec fn count_upto(marks: Seq<bool>, n: int) -> nat
    decreases n,
{
    if n <= 0 {
        0
    } else {
        count_upto(marks, n - 1) + if marks[n - 1] {
            1nat
        } else {
            0nat
        }
    }
}

pub open spec fn count(marks: Seq<bool>) -> nat {
    count_upto(marks, marks.len() as int)
}

/// The first set mark at `k` or later.
pub open spec fn first_from(marks: Seq<bool>, k: int) -> Option<int>
    decreases marks.len() - k,
{
    if k < 0 || k >= marks.len() {
        None
    } else if marks[k] {
        Some(k)
    } else {
        first_from(marks, k + 1)
    }
}

/// How many slots `slots` reserves for optimistic unchokes.
pub open spec fn optimistic_slot_count(slots: usize) -> usize {
    if slots == 0 {
        0
    } else if slots / 5 == 0 {
        1
    } else {
        slots / 5
    }
}

/// A round is due when none ran yet or `interval` has passed since the last.
pub open spec fn round_due(last: Option<u64>, now: u64, interval: u64) -> bool {
    match last {
        None => true,
        Some(l) => now.saturating_sub(l) >= interval,
    }
}

/// Peers that keep their regular slot without competing: interested, already
/// regular, and either no round is due or their quota is not complete.
pub open spec fn retained_marks(peers: Seq<PeerState>, due: bool, now: u64, quota: u64) -> Seq<bool> {
    Seq::new(
        peers.len(),
        |i: int|
            peers[i].input.interested && peers[i].grant == UploadGrant::Regular && (!due
                || !peers[i].quota_done(now, quota)),
    )
}

/// Interested peers not marked in `taken`.
pub open spec fn open_marks(peers: Seq<PeerState>, taken: Seq<bool>) -> Seq<bool> {
    Seq::new(peers.len(), |i: int| peers[i].input.interested && !taken[i])
}

/// The peers that receive a regular slot.
pub open spec fn regular_choice(peers: Seq<PeerState>, config: UploadSchedulerConfig, due: bool, now: u64) -> Seq<bool> {
    let quota = config.seeding_piece_quota;
    let slots = config.slots.saturating_sub(optimistic_slot_count(config.slots)) as int;
    let kept = top(peers, retained_marks(peers, due, now, quota), slots, Ranking::Regular, now, quota);
    let n = count(kept) as int;
    if due || n < slots {
        let fill = top(peers, open_marks(peers, kept), if n < slots { slots - n } else { 0 }, Ranking::Regular, now, quota);
        Seq::new(peers.len(), |i: int| kept[i] || fill[i])
    } else {
        kept
    }
}

/// The peer that receives the optimistic slot, if any.
pub open spec fn optimistic_choice(peers: Seq<PeerState>, regular: Seq<bool>, slots: usize, due: bool) -> Option<int> {
    if optimistic_slot_count(slots) == 0 {
        None
    } else {
        let current = first_from(
            Seq::new(
                peers.len(),
                |i: int|
                    peers[i].grant == UploadGrant::Optimistic && peers[i].input.interested
                        && !regular[i],
            ),
            0,
        );
        if !due && current is Some {
            current
        } else {
            let open = open_marks(peers, regular);
            first_from(
                Seq::new(
                    peers.len(),
                    |i: int|
                        open[i] && rank_upto(peers, open, peers[i], Ranking::Optimistic, 0, 0, peers.len() as int) == 0,
                ),
                0,
            )
        }
    }
}

/// The grant of peer `i` for the chosen regular and optimistic peers.
pub open spec fn next_grant(regular: Seq<bool>, optimistic: Option<int>, i: int) -> UploadGrant {
    if regular[i] {
        UploadGrant::Regular
    } else if optimistic == Some(i) {
        UploadGrant::Optimistic
    } else {
        UploadGrant::Choked
    }
}

/// A peer's record after an evaluation at `now` gives it `next`.
pub open spec fn evolved(s: PeerState, next: UploadGrant, now: u64, due: bool) -> PeerState {
    let unchoked = next != UploadGrant::Choked && s.grant == UploadGrant::Choked;
    PeerState {
        input: s.input,
        grant: next,
        uploaded_at_last_round: if due {
            s.input.payload_uploaded
        } else {
            s.uploaded_at_last_round
        },
        uploaded_at_unchoke: if unchoked {
            s.input.payload_uploaded
        } else {
            s.uploaded_at_unchoke
        },
        last_unchoke: if unchoked {
            now
        } else {
            s.last_unchoke
        },
        last_optimistic: if next == UploadGrant::Optimistic && s.grant != UploadGrant::Optimistic {
            Some(now)
        } else {
            s.last_optimistic
        },
    }
}

/// The decisions that report every changed grant, in peer order.
pub open spec fn changes(before: Seq<PeerState>, after: Seq<PeerState>) -> Seq<UploadDecision>
    decreases after.len(),
{
    if after.len() == 0 {
        Seq::empty()
    } else {
        let prev = changes(before.drop_last(), after.drop_last());
        let s = after.last();
        if before.last().grant != s.grant {
            prev.push(UploadDecision { peer: s.input.id, grant: s.grant })
        } else {
            prev
        }
    }
}

/// Identifiers strictly increase along `peers`.
pub open spec fn sorted_by_id(peers: Seq<PeerState>) -> bool {
    forall|i: int, j: int|
        #![trigger peers[i], peers[j]]
        0 <= i < j < peers.len() ==> peers[i].input.id.value() < peers[j].input.id.value()
}

/// Where a peer with `id` belongs among `peers`: the number of lower identifiers.
pub open spec fn insertion_point(peers: Seq<PeerState>, id: UploadPeerId) -> int {
    peers.filter(|s: PeerState| s.input.id.value() < id.value()).len() as int
}

#[derive(Debug)]
pub struct UploadScheduler {
    pub config: UploadSchedulerConfig,
    peers: Vec<PeerState>,
    last_ordinary: Option<u64>,
    last_optimistic: Option<u64>,
    evaluations: u64,
    optimistic_rotations: u64,
}

impl UploadScheduler {
    /// The peers, in identifier order.
    pub closed spec fn peers_view(&self) -> Seq<PeerState> {
        self.peers@
    }

    pub closed spec fn config_view(&self) -> UploadSchedulerConfig {
        self.config
    }

    pub closed spec fn last_ordinary_view(&self) -> Option<u64> {
        self.last_ordinary
    }

    pub closed spec fn last_optimistic_view(&self) -> Option<u64> {
        self.last_optimistic
    }

    pub closed spec fn evaluations_view(&self) -> u64 {
        self.evaluations
    }

    pub closed spec fn rotations_view(&self) -> u64 {
        self.optimistic_rotations
    }

    pub open spec fn wf(&self) -> bool {
        sorted_by_id(self.peers_view())
    }

    /// Index of the peer named `id`, if it is known.
    pub open spec fn index_of(&self, id: UploadPeerId) -> Option<int> {
        first_from(Seq::new(self.peers_view().len(), |i: int| self.peers_view()[i].input.id == id), 0)
    }

    pub fn new(config: UploadSchedulerConfig) -> (r: Result<Self, &'static str>)
        ensures
            r is Ok <==> config.unchoke_interval != 0 && config.optimistic_interval != 0
                && config.seeding_piece_quota != 0,
            config.unchoke_interval == 0 || config.optimistic_interval == 0 ==> r == Err::<Self, &'static str>(
                ERR_ZERO_INTERVAL,
            ),
            config.unchoke_interval != 0 && config.optimistic_interval != 0 && config.seeding_piece_quota == 0
                ==> r == Err::<Self, &'static str>(ERR_ZERO_QUOTA),
            r matches Ok(s) ==> {
                &&& s.wf()
                &&& s.config_view() == config
                &&& s.peers_view().len() == 0
                &&& s.last_ordinary_view() is None
                &&& s.last_optimistic_view() is None
                &&& s.evaluations_view() == 0
                &&& s.rotations_view() == 0
            },
    {
        if config.unchoke_interval == 0 || config.optimistic_interval == 0 {
            return Err(ERR_ZERO_INTERVAL);
        }
        if config.seeding_piece_quota == 0 {
            return Err(ERR_ZERO_QUOTA);
        }
        Ok(
            UploadScheduler {
                config,
                peers: Vec::new(),
                last_ordinary: None,
                last_optimistic: None,
                evaluations: 0,
                optimistic_rotations: 0,
            },
        )
    }

    pub fn libtorrent_default() -> (r: Self)
        ensures
            r.wf(),
            r.config_view().slots == DEFAULT_UNCHOKE_SLOTS,
            r.config_view().unchoke_interval == DEFAULT_UNCHOKE_INTERVAL,
            r.config_view().optimistic_interval == DEFAULT_OPTIMISTIC_UNCHOKE_INTERVAL,
            r.config_view().seeding_piece_quota == DEFAULT_SEEDING_PIECE_QUOTA,
            r.peers_view().len() == 0,
            r.last_ordinary_view() is None,
            r.last_optimistic_view() is None,
            r.evaluations_view() == 0,
            r.rotations_view() == 0,
    {
        match UploadScheduler::new(UploadSchedulerConfig::default()) {
            Ok(s) => s,
            Err(_) => {
                proof {
                    assert(false);
                }
                UploadScheduler {
                    config: UploadSchedulerConfig::default(),
                    peers: Vec::new(),
                    last_ordinary: None,
                    last_optimistic: None,
                    evaluations: 0,
                    optimistic_rotations: 0,
                }
            },
        }
    }

    /// Index of the peer named `id`, or where it would be inserted.
    fn locate(&self, id: UploadPeerId) -> (r: (usize, bool))
        requires
            self.wf(),
        ensures
            r.0 <= self.peers@.len(),
            r.1 ==> r.0 < self.peers@.len() && self.peers@[r.0 as int].input.id == id,
            r.1 ==> self.index_of(id) == Some(r.0 as int),
            !r.1 ==> self.index_of(id) is None,
            !r.1 ==> r.0 == insertion_point(self.peers@, id),
            forall|k: int| 0 <= k < r.0 ==> (#[trigger] self.peers@[k]).input.id.value() < id.value(),
            forall|k: int| r.0 <= k < self.peers@.len() ==> (#[trigger] self.peers@[k]).input.id.value() >= id.value(),
    {
        let ghost marks = Seq::new(self.peers@.len(), |i: int| self.peers@[i].input.id == id);
        let mut i: usize = 0;
        while i < self.peers.len()
            invariant
                i <= self.peers@.len(),
                self.wf(),
                marks == Seq::new(self.peers@.len(), |i: int| self.peers@[i].input.id == id),
                forall|k: int| 0 <= k < i ==> (#[trigger] self.peers@[k]).input.id.value() < id.value(),
                first_from(marks, 0) == first_from(marks, i as int),
            decreases self.peers@.len() - i,
        {
            let here = self.peers[i].input.id.0;
            if here >= id.0 {
                proof {
                    assert forall|k: int| i <= k < self.peers@.len() implies (#[trigger] self.peers@[k]).input.id.value() >= id.value() by {
                        if k > i {
                            assert(self.peers@[i as int].input.id.value() < self.peers@[k].input.id.value());
                        }
                    }
                }
                if here == id.0 {
                    return (i, true);
                }
                proof {
                    lemma_first_none_after(marks, i as int);
                    lemma_filter_prefix(self.peers@, id, i as int);
                }
                return (i, false);
            }
            i += 1;
        }
        proof {
            lemma_filter_prefix(self.peers@, id, i as int);
        }
        (i, false)
    }

    pub fn update_peer(&mut self, peer: UploadSchedulerPeer, now: u64)
        requires
            old(self).wf(),
        ensures
            final(self).wf(),
            final(self).config_view() == old(self).config_view(),
            final(self).last_ordinary_view() == old(self).last_ordinary_view(),
            final(self).last_optimistic_view() == old(self).last_optimistic_view(),
            final(self).evaluations_view() == old(self).evaluations_view(),
            final(self).rotations_view() == old(self).rotations_view(),
            old(self).index_of(peer.id) matches Some(i) ==> final(self).peers_view() == old(self).peers_view().update(i, PeerState { input: peer, ..old(self).peers_view()[i] }),
            old(self).index_of(peer.id) is None ==> final(self).peers_view() == old(self).peers_view().insert(insertion_point(old(self).peers_view(), peer.id), PeerState::fresh(peer, now)),
    {
        let (index, found) = self.locate(peer.id);
        if found {
            let state = self.peers[index];
            self.peers.set(index, PeerState { input: peer, ..state });
            proof {
                assert forall|i: int, j: int|
                    #![trigger self.peers@[i], self.peers@[j]]
                    0 <= i < j < self.peers@.len() implies self.peers@[i].input.id.value()
                        < self.peers@[j].input.id.value() by {
                    assert(old(self).peers@[i].input.id.value() < old(self).peers@[j].input.id.value());
                }
            }
        } else {
            self.peers.insert(index, PeerState::new(peer, now));
            proof {
                assert forall|i: int, j: int|
                    #![trigger self.peers@[i], self.peers@[j]]
                    0 <= i < j < self.peers@.len() implies self.peers@[i].input.id.value()
                        < self.peers@[j].input.id.value() by {
                    if j < index {
                        assert(old(self).peers@[i].input.id.value() < old(self).peers@[j].input.id.value());
                    } else if j == index {
                        assert(old(self).peers@[i].input.id.value() < peer.id.value());
                    } else if i < index {
                        assert(old(self).peers@[j - 1].input.id.value() >= peer.id.value());
                    } else if i == index {
                        assert(old(self).peers@[j - 1].input.id.value() >= peer.id.value());
                        assert(old(self).index_of(peer.id) is None);
                        lemma_first_none(Seq::new(old(self).peers@.len(), |k: int| old(self).peers@[k].input.id == peer.id), j - 1);
                        assert(old(self).peers@[j - 1].input.id != peer.id);
                        assert(old(self).peers@[j - 1].input.id.value() != peer.id.value());
                    } else {
                        assert(old(self).peers@[i - 1].input.id.value() < old(self).peers@[j - 1].input.id.value());
                    }
                }
            }
        }
    }

    pub fn remove_peer(&mut self, peer: UploadPeerId)
        requires
            old(self).wf(),
        ensures
            final(self).wf(),
            final(self).config_view() == old(self).config_view(),
            final(self).last_ordinary_view() == old(self).last_ordinary_view(),
            final(self).last_optimistic_view() == old(self).last_optimistic_view(),
            final(self).evaluations_view() == old(self).evaluations_view(),
            final(self).rotations_view() == old(self).rotations_view(),
            old(self).index_of(peer) matches Some(i) ==> final(self).peers_view() == old(self).peers_view().remove(i),
            old(self).index_of(peer) is None ==> final(self).peers_view() == old(self).peers_view(),
    {
        let (index, found) = self.locate(peer);
        if found {
            self.peers.remove(index);
            proof {
                assert forall|i: int, j: int|
                    #![trigger self.peers@[i], self.peers@[j]]
                    0 <= i < j < self.peers@.len() implies self.peers@[i].input.id.value()
                        < self.peers@[j].input.id.value() by {
                    if i < index && j >= index {
                        assert(old(self).peers@[i].input.id.value() < old(self).peers@[j + 1].input.id.value());
                    } else if j < index {
                        assert(old(self).peers@[i].input.id.value() < old(self).peers@[j].input.id.value());
                    } else {
                        assert(old(self).peers@[i + 1].input.id.value() < old(self).peers@[j + 1].input.id.value());
                    }
                }
            }
        }
    }

    /// One scheduling round at `now`: fills regular and optimistic slots and
    /// reports every peer whose grant changed, in identifier order.
    pub fn evaluate(&mut self, now: u64) -> (r: Vec<UploadDecision>)
        requires
            old(self).wf(),
        ensures
            final(self).wf(),
            final(self).config_view() == old(self).config_view(),
            final(self).evaluations_view() == sat_inc(old(self).evaluations_view()),
            old(self).config_view().slots == 0 ==> {
                &&& final(self).peers_view() == old(self).peers_view().map_values(
                    |s: PeerState| PeerState { grant: UploadGrant::Choked, ..s },
                )
                &&& final(self).last_ordinary_view() == old(self).last_ordinary_view()
                &&& final(self).last_optimistic_view() == old(self).last_optimistic_view()
                &&& final(self).rotations_view() == old(self).rotations_view()
            },
            old(self).config_view().slots > 0 ==> {
                let config = old(self).config_view();
                let peers = old(self).peers_view();
                let due = round_due(old(self).last_ordinary_view(), now, config.unchoke_interval);
                let optimistic_due = round_due(
                    old(self).last_optimistic_view(),
                    now,
                    config.optimistic_interval,
                );
                let regular = regular_choice(peers, config, due, now);
                let optimistic = optimistic_choice(peers, regular, config.slots, optimistic_due);
                &&& final(self).peers_view() == Seq::new(
                    peers.len(),
                    |i: int| evolved(peers[i], next_grant(regular, optimistic, i), now, due),
                )
                &&& final(self).last_ordinary_view() == if due {
                    Some(now)
                } else {
                    old(self).last_ordinary_view()
                }
                &&& final(self).last_optimistic_view() == if optimistic_due {
                    Some(now)
                } else {
                    old(self).last_optimistic_view()
                }
                &&& final(self).rotations_view() == if optimistic_due && optimistic is Some {
                    sat_inc(old(self).rotations_view())
                } else {
                    old(self).rotations_view()
                }
            },
            r@ == changes(old(self).peers_view(), final(self).peers_view()),
            final(self).peers_view().len() == old(self).peers_view().len(),
            forall|i: int|
                0 <= i < final(self).peers_view().len() ==> (#[trigger] final(self).peers_view()[i]).input
                    == old(self).peers_view()[i].input,
            forall|i: int|
                0 <= i < final(self).peers_view().len() && (#[trigger] final(self).peers_view()[i]).grant != UploadGrant::Choked ==> final(self).peers_view()[i].input.interested,
            forall|i: int, j: int|
                0 <= i < final(self).peers_view().len() && 0 <= j < final(self).peers_view().len()
                    && (#[trigger] final(self).peers_view()[i]).grant == UploadGrant::Optimistic
                    && (#[trigger] final(self).peers_view()[j]).grant == UploadGrant::Optimistic
                    ==> i == j,
            old(self).config_view().slots == 0 ==> forall|i: int|
                0 <= i < final(self).peers_view().len() ==> (#[trigger] final(self).peers_view()[i]).grant == UploadGrant::Choked,
    {
        self.evaluations = self.evaluations.saturating_add(1);
        let before = copy_states(&self.peers);
        if self.config.slots == 0 {
            let mut i: usize = 0;
            while i < self.peers.len()
                invariant
                    i <= self.peers@.len(),
                    before@ == old(self).peers@,
                    self.config == old(self).config,
                    self.evaluations == sat_inc(old(self).evaluations),
                    self.last_ordinary == old(self).last_ordinary,
                    self.last_optimistic == old(self).last_optimistic,
                    self.optimistic_rotations == old(self).optimistic_rotations,
                    self.peers@.len() == before@.len(),
                    forall|k: int|
                        0 <= k < i ==> #[trigger] self.peers@[k] == (PeerState {
                            grant: UploadGrant::Choked,
                            ..before@[k]
                        }),
                    forall|k: int| i <= k < self.peers@.len() ==> #[trigger] self.peers@[k] == before@[k],
                decreases self.peers@.len() - i,
            {
                let s = self.peers[i];
                self.peers.set(i, PeerState { grant: UploadGrant::Choked, ..s });
                i += 1;
            }
            proof {
                assert(self.peers@ =~= old(self).peers@.map_values(
                    |s: PeerState| PeerState { grant: UploadGrant::Choked, ..s },
                ));
                lemma_same_ids_sorted(old(self).peers@, self.peers@);
            }
            return decisions(&before, &self.peers);
        }
        let config = self.config;
        let quota = config.seeding_piece_quota;
        let due = match self.last_ordinary {
            None => true,
            Some(last) => now.saturating_sub(last) >= config.unchoke_interval,
        };
        let optimistic_due = match self.last_optimistic {
            None => true,
            Some(last) => now.saturating_sub(last) >= config.optimistic_interval,
        };
        let optimistic_slots = automatic_optimistic_slots(config.slots);
        let regular_slots = config.slots.saturating_sub(optimistic_slots);
        let retained = retained_flags(&self.peers, due, now, quota);
        let kept = top_marks(&self.peers, &retained, regular_slots, Ranking::Regular, now, quota);
        let n_kept = count_marks(&kept);
        let regular = if due || n_kept < regular_slots {
            let open = open_flags(&self.peers, &kept);
            let vacancies = if n_kept < regular_slots {
                regular_slots - n_kept
            } else {
                0
            };
            let fill = top_marks(&self.peers, &open, vacancies, Ranking::Regular, now, quota);
            union_marks(&kept, &fill)
        } else {
            kept
        };
        assert(regular@ == regular_choice(before@, config, due, now));
        let optimistic = self.choose_optimistic(&regular, optimistic_slots, optimistic_due);
        let ghost chosen = optimistic_choice(before@, regular@, config.slots, optimistic_due);
        if due {
            self.last_ordinary = Some(now);
        }
        if optimistic_due {
            self.last_optimistic = Some(now);
            if optimistic.is_some() {
                self.optimistic_rotations = self.optimistic_rotations.saturating_add(1);
            }
        }
        let ghost last_ordinary = self.last_ordinary;
        let ghost last_optimistic = self.last_optimistic;
        let ghost rotations = self.optimistic_rotations;
        let mut i: usize = 0;
        while i < self.peers.len()
            invariant
                i <= self.peers@.len(),
                before@ == old(self).peers@,
                self.config == old(self).config,
                self.evaluations == sat_inc(old(self).evaluations),
                self.last_ordinary == last_ordinary,
                self.last_optimistic == last_optimistic,
                self.optimistic_rotations == rotations,
                self.peers@.len() == before@.len(),
                regular@.len() == before@.len(),
                chosen == match optimistic {
                    Some(o) => Some(o as int),
                    None => None::<int>,
                },
                forall|k: int|
                    0 <= k < i ==> #[trigger] self.peers@[k] == evolved(
                        before@[k],
                        next_grant(regular@, chosen, k),
                        now,
                        due,
                    ),
                forall|k: int| i <= k < self.peers@.len() ==> #[trigger] self.peers@[k] == before@[k],
            decreases self.peers@.len() - i,
        {
            let s = self.peers[i];
            let is_optimistic = match optimistic {
                Some(o) => o == i,
                None => false,
            };
            let next = if regular[i] {
                UploadGrant::Regular
            } else if is_optimistic {
                UploadGrant::Optimistic
            } else {
                UploadGrant::Choked
            };
            let unchoked = next != UploadGrant::Choked && s.grant == UploadGrant::Choked;
            let updated = PeerState {
                input: s.input,
                grant: next,
                uploaded_at_last_round: if due {
                    s.input.payload_uploaded
                } else {
                    s.uploaded_at_last_round
                },
                uploaded_at_unchoke: if unchoked {
                    s.input.payload_uploaded
                } else {
                    s.uploaded_at_unchoke
                },
                last_unchoke: if unchoked {
                    now
                } else {
                    s.last_unchoke
                },
                last_optimistic: if next == UploadGrant::Optimistic && s.grant
                    != UploadGrant::Optimistic {
                    Some(now)
                } else {
                    s.last_optimistic
                },
            };
            self.peers.set(i, updated);
            i += 1;
        }
        proof {
            assert(self.peers@ =~= Seq::new(
                before@.len(),
                |i: int| evolved(before@[i], next_grant(regular@, chosen, i), now, due),
            ));
            lemma_same_ids_sorted(old(self).peers@, self.peers@);
            lemma_choice_interested(before@, config, due, optimistic_due, now);
        }
        decisions(&before, &self.peers)
    }

    fn choose_optimistic(&self, regular: &Vec<bool>, optimistic_slots: usize, due: bool) -> (r:
        Option<usize>)
        requires
            regular@.len() == self.peers@.len(),
            optimistic_slots == optimistic_slot_count(self.config.slots),
        ensures
            (match r {
                Some(i) => Some(i as int),
                None => None::<int>,
            }) == optimistic_choice(self.peers@, regular@, self.config.slots, due),
    {
        if optimistic_slots == 0 {
            return None;
        }
        let mut current_marks: Vec<bool> = Vec::new();
        let mut i: usize = 0;
        while i < self.peers.len()
            invariant
                i <= self.peers@.len(),
                regular@.len() == self.peers@.len(),
                current_marks@ == Seq::new(
                    i as nat,
                    |k: int|
                        self.peers@[k].grant == UploadGrant::Optimistic
                            && self.peers@[k].input.interested && !regular@[k],
                ),
            decreases self.peers@.len() - i,
        {
            let s = &self.peers[i];
            current_marks.push(s.grant == UploadGrant::Optimistic && s.input.interested && !regular[i]);
            i += 1;
            proof {
                assert(current_marks@ =~= Seq::new(
                    i as nat,
                    |k: int|
                        self.peers@[k].grant == UploadGrant::Optimistic
                            && self.peers@[k].input.interested && !regular@[k],
                ));
            }
        }
        let current = first_mark(&current_marks);
        if !due && current.is_some() {
            return current;
        }
        let open = open_flags(&self.peers, regular);
        let mut zero: Vec<bool> = Vec::new();
        let mut i: usize = 0;
        while i < self.peers.len()
            invariant
                i <= self.peers@.len(),
                open@ == open_marks(self.peers@, regular@),
                zero@ == Seq::new(
                    i as nat,
                    |k: int|
                        open@[k] && rank_upto(
                            self.peers@,
                            open@,
                            self.peers@[k],
                            Ranking::Optimistic,
                            0,
                            0,
                            self.peers@.len() as int,
                        ) == 0,
                ),
            decreases self.peers@.len() - i,
        {
            let ahead = rank_of(&self.peers, &open, &self.peers[i], Ranking::Optimistic, 0, 0);
            zero.push(open[i] && ahead == 0);
            i += 1;
            proof {
                assert(zero@ =~= Seq::new(
                    i as nat,
                    |k: int|
                        open@[k] && rank_upto(
                            self.peers@,
                            open@,
                            self.peers@[k],
                            Ranking::Optimistic,
                            0,
                            0,
                            self.peers@.len() as int,
                        ) == 0,
                ));
            }
        }
        first_mark(&zero)
    }

    pub fn grant(&self, peer: UploadPeerId) -> (r: Option<UploadGrant>)
        requires
            self.wf(),
        ensures
            r == match self.index_of(peer) {
                Some(i) => Some(self.peers_view()[i].grant),
                None => None,
            },
    {
        let (index, found) = self.locate(peer);
        if found {
            Some(self.peers[index].grant)
        } else {
            None
        }
    }

    pub fn snapshot(&self) -> (r: UploadSchedulerSnapshot)
        ensures
            r.peers == self.peers_view().len(),
            r.interested == count(Seq::new(self.peers_view().len(), |i: int| self.peers_view()[i].input.interested)),
            r.regular == count(Seq::new(self.peers_view().len(), |i: int| self.peers_view()[i].grant == UploadGrant::Regular)),
            r.optimistic == count(Seq::new(self.peers_view().len(), |i: int| self.peers_view()[i].grant == UploadGrant::Optimistic)),
            r.evaluations == self.evaluations_view(),
            r.optimistic_rotations == self.rotations_view(),
    {
        let ghost n = self.peers@.len();
        let ghost want_interested = Seq::new(n, |i: int| self.peers@[i].input.interested);
        let ghost want_regular = Seq::new(n, |i: int| self.peers@[i].grant == UploadGrant::Regular);
        let ghost want_optimistic = Seq::new(n, |i: int| self.peers@[i].grant == UploadGrant::Optimistic);
        let mut interested: usize = 0;
        let mut regular: usize = 0;
        let mut optimistic: usize = 0;
        let mut i: usize = 0;
        while i < self.peers.len()
            invariant
                i <= self.peers@.len(),
                n == self.peers@.len(),
                want_interested == Seq::new(n, |i: int| self.peers@[i].input.interested),
                want_regular == Seq::new(n, |i: int| self.peers@[i].grant == UploadGrant::Regular),
                want_optimistic == Seq::new(n, |i: int| self.peers@[i].grant == UploadGrant::Optimistic),
                interested == count_upto(want_interested, i as int),
                regular == count_upto(want_regular, i as int),
                optimistic == count_upto(want_optimistic, i as int),
                interested <= i && regular <= i && optimistic <= i,
            decreases self.peers@.len() - i,
        {
            if self.peers[i].input.interested {
                interested += 1;
            }
            if matches!(self.peers[i].grant, UploadGrant::Regular) {
                regular += 1;
            }
            if matches!(self.peers[i].grant, UploadGrant::Optimistic) {
                optimistic += 1;
            }
            i += 1;
        }
        UploadSchedulerSnapshot {
            peers: self.peers.len(),
            interested,
            regular,
            optimistic,
            evaluations: self.evaluations,
            optimistic_rotations: self.optimistic_rotations,
        }
    }
}

impl Default for UploadScheduler {
    fn default() -> (r: Self)
        ensures
            r.wf(),
            r.config_view() == (UploadSchedulerConfig {
                slots: DEFAULT_UNCHOKE_SLOTS,
                unchoke_interval: DEFAULT_UNCHOKE_INTERVAL,
                optimistic_interval: DEFAULT_OPTIMISTIC_UNCHOKE_INTERVAL,
                seeding_piece_quota: DEFAULT_SEEDING_PIECE_QUOTA,
            }),
            r.peers_view().len() == 0,
            r.last_ordinary_view() is None,
            r.last_optimistic_view() is None,
            r.evaluations_view() == 0,
            r.rotations_view() == 0,
    {
        UploadScheduler::libtorrent_default()
    }
}

pub fn automatic_optimistic_slots(slots: usize) -> (r: usize)
    ensures
        r == optimistic_slot_count(slots),
{
    if slots == 0 {
        0
    } else if slots / 5 == 0 {
        1
    } else {
        slots / 5
    }
}

/// Records of identical peers in identical order stay sorted.
proof fn lemma_same_ids_sorted(a: Seq<PeerState>, b: Seq<PeerState>)
    requires
        sorted_by_id(a),
        a.len() == b.len(),
        forall|k: int| 0 <= k < a.len() ==> (#[trigger] b[k]).input == a[k].input,
    ensures
        sorted_by_id(b),
{
    assert forall|i: int, j: int|
        #![trigger b[i], b[j]]
        0 <= i < j < b.len() implies b[i].input.id.value() < b[j].input.id.value() by {
        assert(a[i].input.id.value() < a[j].input.id.value());
    }
}

fn copy_states(peers: &Vec<PeerState>) -> (r: Vec<PeerState>)
    ensures
        r@ == peers@,
{
    let mut r: Vec<PeerState> = Vec::new();
    let mut i: usize = 0;
    while i < peers.len()
        invariant
            i <= peers@.len(),
            r@ == peers@.subrange(0, i as int),
        decreases peers@.len() - i,
    {
        r.push(peers[i]);
        i += 1;
        assert(r@ =~= peers@.subrange(0, i as int));
    }
    assert(r@ =~= peers@);
    r
}

fn precedes_exec(kind: Ranking, a: &PeerState, b: &PeerState, now: u64, quota: u64) -> (r: bool)
    ensures
        r == precedes(kind, *a, *b, now, quota),
{
    match kind {
        Ranking::Regular => {
            let qa = a.quota_complete(now, quota);
            let qb = b.quota_complete(now, quota);
            let rate_a = if a.grant == UploadGrant::Choked {
                0
            } else {
                a.uploaded_in_last_round()
            };
            let rate_b = if b.grant == UploadGrant::Choked {
                0
            } else {
                b.uploaded_in_last_round()
            };
            if qa != qb {
                !qa
            } else if rate_a != rate_b {
                rate_a > rate_b
            } else if a.last_unchoke != b.last_unchoke {
                a.last_unchoke < b.last_unchoke
            } else {
                a.input.id.0 < b.input.id.0
            }
        },
        Ranking::Optimistic => match (a.last_optimistic, b.last_optimistic) {
            (None, Some(_)) => true,
            (Some(_), None) => false,
            (Some(x), Some(y)) => x < y || (x == y && a.input.id.0 < b.input.id.0),
            (None, None) => a.input.id.0 < b.input.id.0,
        },
    }
}

fn rank_of(
    peers: &Vec<PeerState>,
    member: &Vec<bool>,
    x: &PeerState,
    kind: Ranking,
    now: u64,
    quota: u64,
) -> (r: usize)
    requires
        member@.len() == peers@.len(),
    ensures
        r == rank_upto(peers@, member@, *x, kind, now, quota, peers@.len() as int),
{
    let mut r: usize = 0;
    let mut j: usize = 0;
    while j < peers.len()
        invariant
            j <= peers@.len(),
            member@.len() == peers@.len(),
            r <= j,
            r == rank_upto(peers@, member@, *x, kind, now, quota, j as int),
        decreases peers@.len() - j,
    {
        if member[j] && precedes_exec(kind, &peers[j], x, now, quota) {
            r += 1;
        }
        j += 1;
    }
    r
}

fn top_marks(
    peers: &Vec<PeerState>,
    member: &Vec<bool>,
    k: usize,
    kind: Ranking,
    now: u64,
    quota: u64,
) -> (r: Vec<bool>)
    requires
        member@.len() == peers@.len(),
    ensures
        r@ == top(peers@, member@, k as int, kind, now, quota),
{
    let mut r: Vec<bool> = Vec::new();
    let mut i: usize = 0;
    while i < peers.len()
        invariant
            i <= peers@.len(),
            member@.len() == peers@.len(),
            r@ == top(peers@, member@, k as int, kind, now, quota).subrange(0, i as int),
        decreases peers@.len() - i,
    {
        let ahead = rank_of(peers, member, &peers[i], kind, now, quota);
        r.push(member[i] && ahead < k);
        i += 1;
        assert(r@ =~= top(peers@, member@, k as int, kind, now, quota).subrange(0, i as int));
    }
    assert(r@ =~= top(peers@, member@, k as int, kind, now, quota));
    r
}

fn count_marks(marks: &Vec<bool>) -> (r: usize)
    ensures
        r == count(marks@),
{
    let mut r: usize = 0;
    let mut i: usize = 0;
    while i < marks.len()
        invariant
            i <= marks@.len(),
            r <= i,
            r == count_upto(marks@, i as int),
        decreases marks@.len() - i,
    {
        if marks[i] {
            r += 1;
        }
        i += 1;
    }
    r
}

fn first_mark(marks: &Vec<bool>) -> (r: Option<usize>)
    ensures
        (match r {
            Some(i) => Some(i as int),
            None => None::<int>,
        }) == first_from(marks@, 0),
{
    let mut i: usize = 0;
    while i < marks.len()
        invariant
            i <= marks@.len(),
            first_from(marks@, 0) == first_from(marks@, i as int),
        decreases marks@.len() - i,
    {
        if marks[i] {
            return Some(i);
        }
        i += 1;
    }
    None
}

fn retained_flags(peers: &Vec<PeerState>, due: bool, now: u64, quota: u64) -> (r: Vec<bool>)
    ensures
        r@ == retained_marks(peers@, due, now, quota),
{
    let mut r: Vec<bool> = Vec::new();
    let mut i: usize = 0;
    while i < peers.len()
        invariant
            i <= peers@.len(),
            r@ == retained_marks(peers@, due, now, quota).subrange(0, i as int),
        decreases peers@.len() - i,
    {
        let s = &peers[i];
        r.push(
            s.input.interested && s.grant == UploadGrant::Regular && (!due || !s.quota_complete(
                now,
                quota,
            )),
        );
        i += 1;
        assert(r@ =~= retained_marks(peers@, due, now, quota).subrange(0, i as int));
    }
    assert(r@ =~= retained_marks(peers@, due, now, quota));
    r
}

fn open_flags(peers: &Vec<PeerState>, taken: &Vec<bool>) -> (r: Vec<bool>)
    requires
        taken@.len() == peers@.len(),
    ensures
        r@ == open_marks(peers@, taken@),
{
    let mut r: Vec<bool> = Vec::new();
    let mut i: usize = 0;
    while i < peers.len()
        invariant
            i <= peers@.len(),
            taken@.len() == peers@.len(),
            r@ == open_marks(peers@, taken@).subrange(0, i as int),
        decreases peers@.len() - i,
    {
        r.push(peers[i].input.interested && !taken[i]);
        i += 1;
        assert(r@ =~= open_marks(peers@, taken@).subrange(0, i as int));
    }
    assert(r@ =~= open_marks(peers@, taken@));
    r
}

fn union_marks(a: &Vec<bool>, b: &Vec<bool>) -> (r: Vec<bool>)
    requires
        a@.len() == b@.len(),
    ensures
        r@ == Seq::new(a@.len(), |i: int| a@[i] || b@[i]),
{
    let mut r: Vec<bool> = Vec::new();
    let mut i: usize = 0;
    while i < a.len()
        invariant
            i <= a@.len(),
            a@.len() == b@.len(),
            r@ == Seq::new(i as nat, |k: int| a@[k] || b@[k]),
        decreases a@.len() - i,
    {
        r.push(a[i] || b[i]);
        i += 1;
        assert(r@ =~= Seq::new(i as nat, |k: int| a@[k] || b@[k]));
    }
    r
}

fn decisions(before: &Vec<PeerState>, after: &Vec<PeerState>) -> (r: Vec<UploadDecision>)
    requires
        before@.len() == after@.len(),
    ensures
        r@ == changes(before@, after@),
{
    let mut r: Vec<UploadDecision> = Vec::new();
    let mut i: usize = 0;
    while i < after.len()
        invariant
            i <= after@.len(),
            before@.len() == after@.len(),
            r@ == changes(before@.subrange(0, i as int), after@.subrange(0, i as int)),
        decreases after@.len() - i,
    {
        let ghost b = before@.subrange(0, i as int + 1);
        let ghost a = after@.subrange(0, i as int + 1);
        assert(b.drop_last() =~= before@.subrange(0, i as int));
        assert(a.drop_last() =~= after@.subrange(0, i as int));
        if before[i].grant != after[i].grant {
            r.push(UploadDecision { peer: after[i].input.id, grant: after[i].grant });
        }
        i += 1;
    }
    assert(before@.subrange(0, i as int) =~= before@);
    assert(after@.subrange(0, i as int) =~= after@);
    r
}

/// The chosen regular and optimistic peers are interested, and the optimistic
/// peer is a known peer.
proof fn lemma_choice_interested(
    peers: Seq<PeerState>,
    config: UploadSchedulerConfig,
    due: bool,
    optimistic_due: bool,
    now: u64,
)
    ensures
        ({
            let regular = regular_choice(peers, config, due, now);
            let optimistic = optimistic_choice(peers, regular, config.slots, optimistic_due);
            &&& regular.len() == peers.len()
            &&& forall|i: int| 0 <= i < peers.len() && #[trigger] regular[i] ==> peers[i].input.interested
            &&& optimistic matches Some(o) ==> 0 <= o < peers.len() && peers[o].input.interested
                && !regular[o]
        }),
{
    let regular = regular_choice(peers, config, due, now);
    if optimistic_slot_count(config.slots) != 0 {
        let cur = Seq::new(
            peers.len(),
            |i: int| peers[i].grant == UploadGrant::Optimistic && peers[i].input.interested && !regular[i],
        );
        lemma_first_some(cur, 0);
        let open = open_marks(peers, regular);
        let zero = Seq::new(
            peers.len(),
            |i: int| open[i] && rank_upto(peers, open, peers[i], Ranking::Optimistic, 0, 0, peers.len() as int) == 0,
        );
        lemma_first_some(zero, 0);
    }
}

/// A search that finds a mark finds a set one, inside the sequence.
proof fn lemma_first_some(marks: Seq<bool>, k: int)
    ensures
        first_from(marks, k) matches Some(i) ==> k <= i < marks.len() && marks[i],
    decreases marks.len() - k,
{
    if 0 <= k < marks.len() {
        lemma_first_some(marks, k + 1);
    }
}

/// No set mark at `k` or later when the search from `k` finds none.
proof fn lemma_first_none(marks: Seq<bool>, j: int)
    requires
        first_from(marks, 0) is None,
        0 <= j < marks.len(),
    ensures
        !marks[j],
{
    lemma_first_none_from(marks, 0, j);
}

proof fn lemma_first_none_from(marks: Seq<bool>, k: int, j: int)
    requires
        first_from(marks, k) is None,
        0 <= k <= j < marks.len(),
    ensures
        !marks[j],
    decreases j - k,
{
    if k < j {
        lemma_first_none_from(marks, k + 1, j);
    }
}

/// Once every later position is known to be unmarked, the search from `k` finds none.
proof fn lemma_first_none_after(marks: Seq<bool>, k: int)
    requires
        0 <= k <= marks.len(),
        forall|j: int| k <= j < marks.len() ==> !#[trigger] marks[j],
    ensures
        first_from(marks, k) is None,
    decreases marks.len() - k,
{
    if k < marks.len() {
        lemma_first_none_after(marks, k + 1);
    }
}

/// In identifier order, the peers below `id` are exactly a prefix.
proof fn lemma_filter_prefix(peers: Seq<PeerState>, id: UploadPeerId, n: int)
    requires
        0 <= n <= peers.len(),
        forall|k: int| 0 <= k < n ==> (#[trigger] peers[k]).input.id.value() < id.value(),
        forall|k: int| n <= k < peers.len() ==> (#[trigger] peers[k]).input.id.value() >= id.value(),
    ensures
        insertion_point(peers, id) == n,
    decreases peers.len(),
{
    let f = |s: PeerState| s.input.id.value() < id.value();
    if peers.len() > 0 {
        let last = peers.len() - 1;
        if n == peers.len() {
            lemma_filter_prefix(peers.drop_last(), id, n - 1);
            assert(peers.drop_last().filter(f).push(peers.last()) == peers.filter(f)) by {
                reveal(Seq::filter);
                assert(peers.drop_last() =~= peers.subrange(0, last));
            }
        } else {
            lemma_filter_prefix(peers.drop_last(), id, n);
            assert(peers.drop_last().filter(f) == peers.filter(f)) by {
                reveal(Seq::filter);
                assert(peers.drop_last() =~= peers.subrange(0, last));
            }
        }
    } else {
        assert(peers.filter(f) =~= Seq::<PeerState>::empty()) by {
            reveal(Seq::filter);
        }
    }
}

/// Each competition order is transitive.
proof fn lemma_precedes_transitive(kind: Ranking, a: PeerState, b: PeerState, c: PeerState, now: u64, quota: u64)
    requires
        precedes(kind, a, b, now, quota),
        precedes(kind, b, c, now, quota),
    ensures
        precedes(kind, a, c, now, quota),
{
}

/// Each competition order is total on peers with distinct identifiers and
/// never puts a peer before itself.
proof fn lemma_precedes_total(kind: Ranking, a: PeerState, b: PeerState, now: u64, quota: u64)
    ensures
        !precedes(kind, a, a, now, quota),
        a.input.id.value() != b.input.id.value() ==> precedes(kind, a, b, now, quota) || precedes(
            kind,
            b,
            a,
            now,
            quota,
        ),
        !(precedes(kind, a, b, now, quota) && precedes(kind, b, a, now, quota)),
{
}

/// A member that precedes `y` lifts `y`'s rank above its own.
proof fn lemma_rank_step(
    peers: Seq<PeerState>,
    member: Seq<bool>,
    kind: Ranking,
    now: u64,
    quota: u64,
    x: int,
    y: int,
    n: int,
)
    requires
        0 <= x < peers.len(),
        0 <= y < peers.len(),
        member.len() == peers.len(),
        member[x],
        precedes(kind, peers[x], peers[y], now, quota),
        0 <= n <= peers.len(),
    ensures
        rank_upto(peers, member, peers[y], kind, now, quota, n) >= rank_upto(
            peers,
            member,
            peers[x],
            kind,
            now,
            quota,
            n,
        ) + if x < n {
            1int
        } else {
            0int
        },
    decreases n,
{
    if n > 0 {
        lemma_rank_step(peers, member, kind, now, quota, x, y, n - 1);
        let e = peers[n - 1];
        lemma_precedes_total(kind, e, e, now, quota);
        if member[n - 1] && precedes(kind, e, peers[x], now, quota) {
            lemma_precedes_transitive(kind, e, peers[x], peers[y], now, quota);
        }
    }
}

/// The set marks select among the first `n`.
pub open spec fn marked_set(marks: Seq<bool>, n: int) -> Set<int> {
    Set::new(|i: int| 0 <= i < n && marks[i])
}

proof fn lemma_count_is_size(marks: Seq<bool>, n: int)
    requires
        0 <= n <= marks.len(),
    ensures
        marked_set(marks, n).finite(),
        marked_set(marks, n).len() == count_upto(marks, n),
    decreases n,
{
    if n == 0 {
        assert(marked_set(marks, 0) =~= Set::<int>::empty());
    } else {
        lemma_count_is_size(marks, n - 1);
        if marks[n - 1] {
            assert(marked_set(marks, n) =~= marked_set(marks, n - 1).insert(n - 1));
        } else {
            assert(marked_set(marks, n) =~= marked_set(marks, n - 1));
        }
    }
}

/// Law: the top `k` of any marked peers are at most `k` peers.
pub proof fn lemma_top_bounded(
    peers: Seq<PeerState>,
    member: Seq<bool>,
    k: int,
    kind: Ranking,
    now: u64,
    quota: u64,
)
    requires
        sorted_by_id(peers),
        member.len() == peers.len(),
        k >= 0,
    ensures
        count(top(peers, member, k, kind, now, quota)) <= k,
{
    let n = peers.len() as int;
    let chosen = top(peers, member, k, kind, now, quota);
    let selected = marked_set(chosen, n);
    lemma_count_is_size(chosen, n);
    let rank = |i: int| rank_upto(peers, member, peers[i], kind, now, quota, n) as int;
    assert forall|a: int, b: int|
        selected.contains(a) && selected.contains(b) && #[trigger] rank(a) == #[trigger] rank(b) implies a == b by {
        if a != b {
            assert(peers[a].input.id.value() != peers[b].input.id.value()) by {
                if a < b {
                    assert(peers[a].input.id.value() < peers[b].input.id.value());
                } else {
                    assert(peers[b].input.id.value() < peers[a].input.id.value());
                }
            }
            lemma_precedes_total(kind, peers[a], peers[b], now, quota);
            if precedes(kind, peers[a], peers[b], now, quota) {
                lemma_rank_step(peers, member, kind, now, quota, a, b, n);
            } else {
                lemma_rank_step(peers, member, kind, now, quota, b, a, n);
            }
        }
    }
    assert(vstd::relations::injective_on(rank, selected));
    let ranks = selected.map(rank);
    vstd::set_lib::lemma_map_size(selected, ranks, rank);
    vstd::set_lib::lemma_int_range(0, k);
    assert(ranks.subset_of(vstd::set_lib::set_int_range(0, k)));
    vstd::set_lib::lemma_len_subset(ranks, vstd::set_lib::set_int_range(0, k));
}

/// Counting two marks that never overlap adds their counts.
proof fn lemma_count_disjoint_union(a: Seq<bool>, b: Seq<bool>, n: int)
    requires
        a.len() == b.len(),
        0 <= n <= a.len(),
        forall|i: int| 0 <= i < a.len() ==> !(#[trigger] a[i] && b[i]),
    ensures
        count_upto(Seq::new(a.len(), |i: int| a[i] || b[i]), n) == count_upto(a, n) + count_upto(b, n),
    decreases n,
{
    if n > 0 {
        lemma_count_disjoint_union(a, b, n - 1);
    }
}

/// Law: an evaluation grants at most the regular slots (the slots less
/// the optimistic ones) as regular slots.
pub proof fn lemma_regular_choice_bounded(
    peers: Seq<PeerState>,
    config: UploadSchedulerConfig,
    due: bool,
    now: u64,
)
    requires
        sorted_by_id(peers),
    ensures
        count(regular_choice(peers, config, due, now)) <= config.slots.saturating_sub(
            optimistic_slot_count(config.slots),
        ),
{
    let quota = config.seeding_piece_quota;
    let slots = config.slots.saturating_sub(optimistic_slot_count(config.slots)) as int;
    let retained = retained_marks(peers, due, now, quota);
    let kept = top(peers, retained, slots, Ranking::Regular, now, quota);
    lemma_top_bounded(peers, retained, slots, Ranking::Regular, now, quota);
    let n = count(kept) as int;
    if due || n < slots {
        let open = open_marks(peers, kept);
        let room = if n < slots { slots - n } else { 0 };
        let fill = top(peers, open, room, Ranking::Regular, now, quota);
        lemma_top_bounded(peers, open, room, Ranking::Regular, now, quota);
        lemma_count_disjoint_union(kept, fill, peers.len() as int);
        assert(Seq::new(peers.len(), |i: int| kept[i] || fill[i]) == regular_choice(peers, config, due, now));
    }
}

} // verus!

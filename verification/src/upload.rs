//! Payload upload admission and cancellation for one peer.
//!
//! Requests are admitted only while the peer is interested and unchoked (or,
//! with the Fast extension, for an allowed-fast piece); the queue is bounded
//! in requests and bytes; one read is in flight at a time, and a read that
//! came back late, cancelled or short never becomes payload. With the Fast
//! extension every admitted request gets exactly one terminal response.
use vstd::prelude::*;
use crate::swarm_types::{BlockRequest, PeerMessage, MAX_REQUEST_BLOCK_LENGTH};
use sha1::{Digest, Sha1};

verus! {

/// Most requests queued or in flight for one peer.
pub const MAX_QUEUED_UPLOAD_REQUESTS: usize = 2_000;

/// Most request bytes queued or in flight for one peer.
pub const MAX_QUEUED_UPLOAD_BYTES: usize = 32_768_000;

/// Most pieces an allowed-fast set is generated with.
pub const MAX_GENERATED_ALLOWED_FAST_PIECES: usize = 10;

pub const ERR_GEOMETRY: &'static str = "piece lengths and availability must have equal lengths";

pub const ERR_ZERO_PIECE: &'static str = "piece lengths must be nonzero";

pub const ERR_FAST_AFTER_REQUESTS: &'static str =
    "Fast capability cannot change after upload requests begin";

pub const ERR_ALLOWED_OUTSIDE: &'static str = "allowed-fast piece is outside torrent geometry";

pub const ERR_ALLOWED_FAST_GEOMETRY: &'static str =
    "allowed-fast piece count is outside supported geometry";

/// A block read the caller performs for the peer.
#[derive(Clone, Copy, Debug, PartialEq, Eq, Structural)]
pub struct UploadRead {
    pub generation: u64,
    pub request: BlockRequest,
}

/// Why the upload side closes the connection.
#[derive(Clone, Copy, Debug, PartialEq, Eq, Structural)]
pub enum UploadCloseReason {
    InvalidRequest,
    RequestLimit,
    ReadFailed,
    ShortRead,
}

/// What the caller does next for the peer.
#[derive(Clone, Debug, PartialEq, Eq)]
pub enum UploadAction {
    Send(PeerMessage),
    Read(UploadRead),
    Close(UploadCloseReason),
}

/// A point-in-time view of one peer's upload state.
#[derive(Clone, Copy, Debug, PartialEq, Eq, Structural)]
pub struct UploadPeerSnapshot {
    pub interested: bool,
    pub choking: bool,
    pub queued_requests: usize,
    pub queued_bytes: usize,
    pub queued_requests_high_water: usize,
    pub queued_bytes_high_water: usize,
    pub read_in_flight: bool,
    pub read_enabled: bool,
}

/// An admitted request and the generation it was admitted in.
#[derive(Clone, Copy, Debug, PartialEq, Eq, Structural)]
pub struct PendingRequest {
    pub generation: u64,
    pub request: BlockRequest,
}

/// The request being read, and whether it was cancelled or already answered.
#[derive(Clone, Copy, Debug, PartialEq, Eq, Structural)]
pub struct InFlightRequest {
    pub pending: PendingRequest,
    pub cancelled: bool,
    pub terminal_sent: bool,
}

/// The abstract upload state of one peer.
pub struct UploadView {
    pub piece_lengths: Seq<u32>,
    pub available: Seq<bool>,
    pub interested: bool,
    pub choking: bool,
    pub fast_extension: bool,
    pub allowed_fast: Seq<u32>,
    pub queued: Seq<PendingRequest>,
    pub in_flight: Option<InFlightRequest>,
    pub read_enabled: bool,
    pub pending_bytes: usize,
    pub next_generation: u64,
    pub queued_requests_high_water: usize,
    pub queued_bytes_high_water: usize,
}

/// One peer's upload admission state.
#[derive(Debug)]
pub struct UploadPeerState {
    piece_lengths: Vec<u32>,
    available: Vec<bool>,
    interested: bool,
    choking: bool,
    fast_extension: bool,
    allowed_fast: Vec<u32>,
    queued: Vec<PendingRequest>,
    in_flight: Option<InFlightRequest>,
    read_enabled: bool,
    pending_bytes: usize,
    next_generation: u64,
    queued_requests_high_water: usize,
    queued_bytes_high_water: usize,
}

impl View for UploadPeerState {
    type V = UploadView;

    closed spec fn view(&self) -> UploadView {
        UploadView {
            piece_lengths: self.piece_lengths@,
            available: self.available@,
            interested: self.interested,
            choking: self.choking,
            fast_extension: self.fast_extension,
            allowed_fast: self.allowed_fast@,
            queued: self.queued@,
            in_flight: self.in_flight,
            read_enabled: self.read_enabled,
            pending_bytes: self.pending_bytes,
            next_generation: self.next_generation,
            queued_requests_high_water: self.queued_requests_high_water,
            queued_bytes_high_water: self.queued_bytes_high_water,
        }
    }
}

/// The first index from `from` on whose request may be read now.
pub open spec fn first_readable(v: UploadView, from: int) -> Option<int>
    decreases v.queued.len() - from,
{
    if from < 0 || from >= v.queued.len() {
        None
    } else if v.readable(v.queued[from]) {
        Some(from)
    } else {
        first_readable(v, from + 1)
    }
}

/// `a - b`, or zero.
pub open spec fn sat_sub(a: int, b: int) -> usize {
    if a > b {
        (a - b) as usize
    } else {
        0
    }
}

impl UploadView {
    /// Requests queued or in flight.
    pub open spec fn pending_count(&self) -> int {
        self.queued.len() + if self.in_flight is Some {
            1int
        } else {
            0int
        }
    }

    /// Bytes of the request being read.
    pub open spec fn in_flight_bytes(&self) -> nat {
        match self.in_flight {
            Some(f) => f.pending.request.length as nat,
            None => 0,
        }
    }

    /// The state's invariant: the geometry is consistent, every pending
    /// request is valid, the queue stays within its limits and the queued
    /// byte count is exactly the total length of the pending requests.
    pub open spec fn wf(&self) -> bool {
        &&& self.piece_lengths.len() == self.available.len()
        &&& forall|i: int| 0 <= i < self.piece_lengths.len() ==> #[trigger] self.piece_lengths[i] > 0
        &&& self.pending_count() <= MAX_QUEUED_UPLOAD_REQUESTS
        &&& self.pending_bytes == sum_lengths(self.queued) + self.in_flight_bytes()
        &&& self.pending_bytes <= MAX_QUEUED_UPLOAD_BYTES
        &&& self.next_generation >= 1
        &&& forall|j: int| 0 <= j < self.queued.len() ==> self.valid_request(#[trigger] self.queued[j].request)
        &&& (self.in_flight matches Some(f) ==> self.valid_request(f.pending.request))
        &&& self.allowed_fast.no_duplicates()
    }

    /// The request may be read now: the peer is unchoked or the piece is
    /// allowed fast.
    pub open spec fn readable(&self, p: PendingRequest) -> bool {
        !self.choking || self.allowed_fast.contains(p.request.index)
    }

    /// A request inside the torrent's geometry for a piece the peer may get.
    pub open spec fn valid_request(&self, r: BlockRequest) -> bool {
        &&& 0 < r.length <= MAX_REQUEST_BLOCK_LENGTH
        &&& r.index < self.piece_lengths.len()
        &&& self.available[r.index as int]
        &&& r.begin < self.piece_lengths[r.index as int]
        &&& r.begin + r.length <= self.piece_lengths[r.index as int]
    }

    /// Starts reading the first readable queued request, when nothing is in
    /// flight and reading is wanted.
    pub open spec fn next_read(&self) -> (UploadView, Seq<UploadAction>) {
        if self.in_flight is Some || !self.interested || !self.read_enabled {
            (*self, Seq::empty())
        } else {
            match first_readable(*self, 0) {
                None => (*self, Seq::empty()),
                Some(p) => {
                    let pending = self.queued[p];
                    (
                        UploadView {
                            queued: self.queued.remove(p),
                            in_flight: Some(
                                InFlightRequest { pending, cancelled: false, terminal_sent: false },
                            ),
                            ..*self
                        },
                        seq![
                            UploadAction::Read(
                                UploadRead { generation: pending.generation, request: pending.request },
                            ),
                        ],
                    )
                },
            }
        }
    }
}

/// The total length of the requests.
pub open spec fn sum_lengths(s: Seq<PendingRequest>) -> nat
    decreases s.len(),
{
    if s.len() == 0 {
        0
    } else {
        (sum_lengths(s.drop_last()) + s.last().request.length) as nat
    }
}

/// The byte with bit 7 for piece `start`, bit 6 for `start + 1`, and so
/// on: the first `k` of the eight pieces from `start`, most significant
/// first, shifted into the low bits.
pub open spec fn packed_bits(available: Seq<bool>, start: int, k: int) -> nat
    decreases k,
{
    if k <= 0 {
        0
    } else {
        2 * packed_bits(available, start, k - 1) + if start + k - 1 < available.len() && available[start
            + k - 1] {
            1nat
        } else {
            0nat
        }
    }
}

/// The wire bitfield of `available`: eight pieces per byte, the first in
/// the most significant bit, spare bits zero.
pub open spec fn bitfield_of(available: Seq<bool>) -> Seq<u8> {
    Seq::new(
        ((available.len() + 7) / 8) as nat,
        |b: int| packed_bits(available, 8 * b, 8) as u8,
    )
}

/// A reject of the request.
pub open spec fn reject(r: BlockRequest) -> UploadAction {
    UploadAction::Send(PeerMessage::RejectRequest(r))
}

/// A reject of a pending request.
pub open spec fn reject_pending() -> spec_fn(PendingRequest) -> UploadAction {
    |p: PendingRequest| reject(p.request)
}

/// Whether the pending request is `r`.
pub open spec fn same_request(r: BlockRequest) -> spec_fn(PendingRequest) -> bool {
    |p: PendingRequest| p.request == r
}

/// Whether the pending request is for an allowed-fast piece.
pub open spec fn allowed_pending(allowed: Seq<u32>) -> spec_fn(PendingRequest) -> bool {
    |p: PendingRequest| allowed.contains(p.request.index)
}

/// Whether the pending request is not for an allowed-fast piece.
pub open spec fn disallowed_pending(allowed: Seq<u32>) -> spec_fn(PendingRequest) -> bool {
    |p: PendingRequest| !allowed.contains(p.request.index)
}

/// Whether the pending request is other than `r`.
pub open spec fn other_than(r: BlockRequest) -> spec_fn(PendingRequest) -> bool {
    |p: PendingRequest| p.request != r
}

/// `n`, held at `usize::MAX`.
pub open spec fn saturate_usize(n: int) -> usize {
    if n > usize::MAX {
        usize::MAX
    } else if n < 0 {
        0
    } else {
        n as usize
    }
}

impl UploadView {
    /// A non-Fast choke: every queued request is dropped and the read in
    /// flight is marked cancelled; only its bytes stay accounted.
    pub open spec fn cleared(&self) -> UploadView {
        UploadView {
            pending_bytes: match self.in_flight {
                Some(f) => f.pending.request.length as usize,
                None => 0,
            },
            queued: Seq::empty(),
            in_flight: match self.in_flight {
                Some(f) => Some(InFlightRequest { cancelled: true, ..f }),
                None => None,
            },
            ..*self
        }
    }

    /// A Fast choke: queued requests outside the allowed-fast set are
    /// rejected in order, and so is the read in flight unless it is allowed
    /// or already answered.
    pub open spec fn rejected_disallowed(&self) -> (UploadView, Seq<UploadAction>) {
        let dropped = self.queued.filter(disallowed_pending(self.allowed_fast));
        let rejects = dropped.map_values(reject_pending());
        let (in_flight, tail) = match self.in_flight {
            Some(f) => if !self.allowed_fast.contains(f.pending.request.index) && !f.terminal_sent {
                (
                    Some(InFlightRequest { cancelled: true, terminal_sent: true, ..f }),
                    seq![reject(f.pending.request)],
                )
            } else {
                (self.in_flight, Seq::empty())
            },
            None => (None, Seq::empty()),
        };
        (
            UploadView {
                queued: self.queued.filter(allowed_pending(self.allowed_fast)),
                pending_bytes: sat_sub(self.pending_bytes as int, sum_lengths(dropped) as int),
                in_flight,
                ..*self
            },
            rejects + tail,
        )
    }

    /// Grants or withdraws the peer's upload slot.
    pub open spec fn granted(&self, granted: bool) -> (UploadView, Seq<UploadAction>) {
        if granted {
            if !self.interested || !self.choking {
                (*self, Seq::empty())
            } else {
                let (v, reads) = UploadView { choking: false, ..*self }.next_read();
                (v, seq![UploadAction::Send(PeerMessage::Unchoke)] + reads)
            }
        } else if self.choking {
            (*self, Seq::empty())
        } else {
            let choked = UploadView { choking: true, ..*self };
            if self.fast_extension {
                let (v, rejects) = choked.rejected_disallowed();
                let (w, reads) = v.next_read();
                (w, seq![UploadAction::Send(PeerMessage::Choke)] + rejects + reads)
            } else {
                (choked.cleared(), seq![UploadAction::Send(PeerMessage::Choke)])
            }
        }
    }

    /// A request from the peer.
    pub open spec fn requested(&self, r: BlockRequest) -> (UploadView, Seq<UploadAction>) {
        if !self.valid_request(r) {
            (*self, seq![UploadAction::Close(UploadCloseReason::InvalidRequest)])
        } else if (self.choking && (!self.fast_extension || !self.allowed_fast.contains(r.index)))
            || !self.interested {
            (*self, if self.fast_extension { seq![reject(r)] } else { Seq::empty() })
        } else if self.pending_count() == MAX_QUEUED_UPLOAD_REQUESTS || self.pending_bytes + r.length
            > MAX_QUEUED_UPLOAD_BYTES {
            (
                *self,
                seq![
                    if self.fast_extension {
                        reject(r)
                    } else {
                        UploadAction::Close(UploadCloseReason::RequestLimit)
                    },
                ],
            )
        } else {
            let generation = self.next_generation;
            let count = (self.pending_count() + 1) as usize;
            let bytes = (self.pending_bytes + r.length) as usize;
            UploadView {
                next_generation: if generation == u64::MAX {
                    1
                } else {
                    (generation + 1) as u64
                },
                queued: self.queued.push(PendingRequest { generation, request: r }),
                pending_bytes: bytes,
                queued_requests_high_water: if self.queued_requests_high_water < count {
                    count
                } else {
                    self.queued_requests_high_water
                },
                queued_bytes_high_water: if self.queued_bytes_high_water < bytes {
                    bytes
                } else {
                    self.queued_bytes_high_water
                },
                ..*self
            }.next_read()
        }
    }

    /// A cancel from the peer: every queued copy of the request goes (each
    /// rejected under Fast), and a matching read in flight is cancelled
    /// (rejected once under Fast).
    pub open spec fn cancelled(&self, r: BlockRequest) -> (UploadView, Seq<UploadAction>) {
        let kept = self.queued.filter(other_than(r));
        let removed = self.queued.len() - kept.len();
        let rejects = if self.fast_extension {
            Seq::new(removed as nat, |i: int| reject(r))
        } else {
            Seq::empty()
        };
        let (in_flight, tail) = match self.in_flight {
            Some(f) => if f.pending.request == r {
                (
                    Some(
                        InFlightRequest {
                            cancelled: true,
                            terminal_sent: f.terminal_sent || self.fast_extension,
                            ..f
                        },
                    ),
                    if self.fast_extension && !f.terminal_sent {
                        seq![reject(r)]
                    } else {
                        Seq::empty()
                    },
                )
            } else {
                (self.in_flight, Seq::empty())
            },
            None => (None, Seq::empty()),
        };
        (
            UploadView {
                queued: kept,
                pending_bytes: sat_sub(self.pending_bytes as int, saturate_usize(removed * r.length) as int),
                in_flight,
                ..*self
            },
            rejects + tail,
        )
    }

    /// A message from the peer.
    pub open spec fn on_message(&self, message: PeerMessage) -> (UploadView, Seq<UploadAction>) {
        match message {
            PeerMessage::Interested => (UploadView { interested: true, ..*self }, Seq::empty()),
            PeerMessage::NotInterested => {
                let v = UploadView { interested: false, ..*self };
                if v.choking {
                    (v, Seq::empty())
                } else {
                    v.granted(false)
                }
            },
            PeerMessage::Request(r) => self.requested(r),
            PeerMessage::Cancel(r) => self.cancelled(r),
            _ => (*self, Seq::empty()),
        }
    }

    /// A read the caller finished: stale reads change nothing; a failed or
    /// short read closes the connection; a good read becomes payload only if
    /// it is still wanted and allowed, else a reject under Fast.
    pub open spec fn read_completed(&self, read: UploadRead, result: Result<Vec<u8>, ()>) -> (
        UploadView,
        Seq<UploadAction>,
    ) {
        match self.in_flight {
            None => (*self, Seq::empty()),
            Some(f) => if f.pending.generation != read.generation || f.pending.request != read.request {
                (*self, Seq::empty())
            } else {
                let v = UploadView {
                    in_flight: None,
                    pending_bytes: sat_sub(self.pending_bytes as int, read.request.length as int),
                    ..*self
                };
                let answer = if self.fast_extension && !f.terminal_sent {
                    seq![reject(read.request)]
                } else {
                    Seq::empty()
                };
                match result {
                    Err(_) => (v, answer + seq![UploadAction::Close(UploadCloseReason::ReadFailed)]),
                    Ok(block) => if block@.len() != read.request.length {
                        (v, answer + seq![UploadAction::Close(UploadCloseReason::ShortRead)])
                    } else {
                        let sent = if !f.cancelled && !f.terminal_sent && self.interested && (
                        !self.choking || self.allowed_fast.contains(read.request.index)) {
                            seq![
                                UploadAction::Send(
                                    PeerMessage::Piece {
                                        index: read.request.index,
                                        begin: read.request.begin,
                                        block,
                                    },
                                ),
                            ]
                        } else {
                            answer
                        };
                        let (w, reads) = v.next_read();
                        (w, sent + reads)
                    },
                }
            },
        }
    }
}


/// `2^k`.
pub open spec fn two_to(k: int) -> nat
    decreases k,
{
    if k <= 0 {
        1
    } else {
        2 * two_to(k - 1)
    }
}

proof fn lemma_two_to_byte(k: int)
    requires
        0 <= k <= 8,
    ensures
        two_to(k) <= two_to(8),
        two_to(8) == 256,
    decreases 8 - k,
{
    reveal_with_fuel(two_to, 9);
    if k < 8 {
        lemma_two_to_byte(k + 1);
    }
}

proof fn lemma_packed_bits_bound(available: Seq<bool>, start: int, k: int)
    requires
        0 <= k,
    ensures
        packed_bits(available, start, k) < two_to(k),
    decreases k,
{
    if k > 0 {
        lemma_packed_bits_bound(available, start, k - 1);
    }
}

/// The state of a peer that has just connected.
pub open spec fn fresh_view(piece_lengths: Seq<u32>, available: Seq<bool>) -> UploadView {
    UploadView {
        piece_lengths,
        available,
        interested: false,
        choking: true,
        fast_extension: false,
        allowed_fast: Seq::empty(),
        queued: Seq::empty(),
        in_flight: None,
        read_enabled: true,
        pending_bytes: 0,
        next_generation: 1,
        queued_requests_high_water: 0,
        queued_bytes_high_water: 0,
    }
}

/// Every piece is available.
pub open spec fn all_available(available: Seq<bool>) -> bool {
    forall|i: int| 0 <= i < available.len() ==> #[trigger] available[i]
}

/// No piece is available.
pub open spec fn none_available(available: Seq<bool>) -> bool {
    forall|i: int| 0 <= i < available.len() ==> !#[trigger] available[i]
}

impl UploadView {
    /// The snapshot the state reports.
    pub open spec fn snapshot(&self) -> UploadPeerSnapshot {
        UploadPeerSnapshot {
            interested: self.interested,
            choking: self.choking,
            queued_requests: self.pending_count() as usize,
            queued_bytes: self.pending_bytes,
            queued_requests_high_water: self.queued_requests_high_water,
            queued_bytes_high_water: self.queued_bytes_high_water,
            read_in_flight: self.in_flight is Some,
            read_enabled: self.read_enabled,
        }
    }
}

/// Whether `x` is among `v`.
fn contains_u32(v: &Vec<u32>, x: u32) -> (r: bool)
    ensures
        r == v@.contains(x),
{
    let mut i: usize = 0;
    while i < v.len()
        invariant
            i <= v@.len(),
            forall|j: int| 0 <= j < i ==> v@[j] != x,
        decreases v@.len() - i,
    {
        if v[i] == x {
            assert(v@[i as int] == x);
            return true;
        }
        i += 1;
    }
    false
}

impl UploadPeerState {
    /// A peer's upload state over the torrent's piece lengths and the
    /// pieces this side has. The two lists must be equally long and no
    /// piece may be empty.
    pub fn new(piece_lengths: Vec<u32>, available: Vec<bool>) -> (r: Result<Self, &'static str>)
        ensures
            r is Ok <==> piece_lengths@.len() == available@.len() && !piece_lengths@.contains(0u32),
            r matches Ok(s) ==> s@ == fresh_view(piece_lengths@, available@) && s@.wf(),
            r matches Err(e) ==> e == if piece_lengths@.len() != available@.len() {
                ERR_GEOMETRY
            } else {
                ERR_ZERO_PIECE
            },
    {
        if piece_lengths.len() != available.len() {
            return Err(ERR_GEOMETRY);
        }
        if contains_u32(&piece_lengths, 0) {
            return Err(ERR_ZERO_PIECE);
        }
        let state = UploadPeerState {
            piece_lengths,
            available,
            interested: false,
            choking: true,
            fast_extension: false,
            allowed_fast: Vec::new(),
            queued: Vec::new(),
            in_flight: None,
            read_enabled: true,
            pending_bytes: 0,
            next_generation: 1,
            queued_requests_high_water: 0,
            queued_bytes_high_water: 0,
        };
        proof {
            assert(state@.queued =~= Seq::<PendingRequest>::empty());
            assert(state@.allowed_fast =~= Seq::<u32>::empty());
            assert forall|i: int| 0 <= i < state@.piece_lengths.len() implies #[trigger] state@.piece_lengths[i] > 0 by {
                if state@.piece_lengths[i] == 0 {
                    assert(state@.piece_lengths.contains(0u32));
                }
            }
        }
        Ok(state)
    }

    /// Requests queued or in flight.
    fn pending_count(&self) -> (n: usize)
        requires
            self@.wf(),
        ensures
            n == self@.pending_count(),
    {
        self.queued.len() + if self.in_flight.is_some() {
            1
        } else {
            0
        }
    }

    /// Whether the request lies inside an available piece.
    fn valid_request(&self, request: BlockRequest) -> (r: bool)
        requires
            self@.wf(),
        ensures
            r == self@.valid_request(request),
    {
        if request.length == 0 || request.length > MAX_REQUEST_BLOCK_LENGTH {
            return false;
        }
        let index = request.index as usize;
        if index >= self.piece_lengths.len() {
            return false;
        }
        let piece_length = self.piece_lengths[index];
        if !self.available[index] || request.begin >= piece_length {
            return false;
        }
        match request.begin.checked_add(request.length) {
            Some(end) => end <= piece_length,
            None => false,
        }
    }

    /// The peer's current upload counters and flags.
    pub fn snapshot(&self) -> (s: UploadPeerSnapshot)
        requires
            self@.wf(),
        ensures
            s == self@.snapshot(),
    {
        UploadPeerSnapshot {
            interested: self.interested,
            choking: self.choking,
            queued_requests: self.pending_count(),
            queued_bytes: self.pending_bytes,
            queued_requests_high_water: self.queued_requests_high_water,
            queued_bytes_high_water: self.queued_bytes_high_water,
            read_in_flight: self.in_flight.is_some(),
            read_enabled: self.read_enabled,
        }
    }

    /// The wire bitfield of the pieces this side has.
    pub fn bitfield(&self) -> (b: Vec<u8>)
        ensures
            b@ == bitfield_of(self@.available),
    {
        let n = self.available.len();
        let nbytes = n / 8 + if n % 8 == 0 {
            0
        } else {
            1
        };
        assert(nbytes == (n + 7) / 8);
        let mut out: Vec<u8> = Vec::new();
        let mut b: usize = 0;
        while b < nbytes
            invariant
                n == self.available@.len(),
                nbytes == (n + 7) / 8,
                b <= nbytes,
                out@.len() == b,
                forall|x: int| 0 <= x < b ==> out@[x] == packed_bits(self.available@, 8 * x, 8) as u8,
            decreases nbytes - b,
        {
            let base = 8 * b;
            let mut acc: u32 = 0;
            let mut k: usize = 0;
            while k < 8
                invariant
                    n == self.available@.len(),
                    base == 8 * b,
                    base < n,
                    k <= 8,
                    acc == packed_bits(self.available@, base as int, k as int),
                    acc < two_to(k as int),
                decreases 8 - k,
            {
                let bit: u32 = if k < n - base && self.available[base + k] {
                    1
                } else {
                    0
                };
                proof {
                    lemma_packed_bits_bound(self.available@, base as int, k as int);
                    lemma_two_to_byte(k + 1);
                    assert(two_to(k + 1) == 2 * two_to(k as int));
                }
                acc = 2 * acc + bit;
                k += 1;
            }
            proof {
                lemma_two_to_byte(8);
            }
            out.push(acc as u8);
            b += 1;
        }
        proof {
            assert(out@ =~= bitfield_of(self.available@));
        }
        out
    }

    /// The first availability message: under Fast, `HaveAll` or `HaveNone`
    /// where one fits, else the bitfield.
    pub fn initial_availability_message(&self, fast_extension: bool) -> (m: PeerMessage)
        ensures
            fast_extension && all_available(self@.available) ==> m is HaveAll,
            fast_extension && !all_available(self@.available) && none_available(self@.available)
                ==> m is HaveNone,
            !(fast_extension && (all_available(self@.available) || none_available(self@.available)))
                ==> (m matches PeerMessage::Bitfield(b) && b@ == bitfield_of(self@.available)),
    {
        if fast_extension {
            let mut all = true;
            let mut none = true;
            let mut i: usize = 0;
            while i < self.available.len()
                invariant
                    i <= self.available@.len(),
                    all == (forall|j: int| 0 <= j < i ==> #[trigger] self.available@[j]),
                    none == (forall|j: int| 0 <= j < i ==> !#[trigger] self.available@[j]),
                decreases self.available@.len() - i,
            {
                if self.available[i] {
                    none = false;
                } else {
                    all = false;
                }
                i += 1;
            }
            if all {
                return PeerMessage::HaveAll;
            }
            if none {
                return PeerMessage::HaveNone;
            }
        }
        PeerMessage::Bitfield(self.bitfield())
    }
}


proof fn lemma_sum_push(s: Seq<PendingRequest>, p: PendingRequest)
    ensures
        sum_lengths(s.push(p)) == sum_lengths(s) + p.request.length,
{
    assert(s.push(p).drop_last() =~= s);
}

proof fn lemma_sum_remove(s: Seq<PendingRequest>, i: int)
    requires
        0 <= i < s.len(),
    ensures
        sum_lengths(s) == sum_lengths(s.remove(i)) + s[i].request.length,
    decreases s.len(),
{
    if i == s.len() - 1 {
        assert(s.remove(i) =~= s.drop_last());
    } else {
        lemma_sum_remove(s.drop_last(), i);
        assert(s.remove(i).drop_last() =~= s.drop_last().remove(i));
        assert(s.remove(i).last() == s.last());
    }
}

proof fn lemma_first_readable_skip(v: UploadView, from: int, upto: int)
    requires
        0 <= from <= upto <= v.queued.len(),
        forall|j: int| from <= j < upto ==> !v.readable(#[trigger] v.queued[j]),
    ensures
        first_readable(v, from) == first_readable(v, upto),
    decreases upto - from,
{
    if from < upto {
        lemma_first_readable_skip(v, from + 1, upto);
    }
}

/// A one-action list.
fn single(a: UploadAction) -> (v: Vec<UploadAction>)
    ensures
        v@ == seq![a],
{
    let mut v: Vec<UploadAction> = Vec::new();
    v.push(a);
    assert(v@ =~= seq![a]);
    v
}

impl UploadPeerState {
    /// Whether the pending request may be read now.
    fn is_readable(&self, p: &PendingRequest) -> (r: bool)
        ensures
            r == self@.readable(*p),
    {
        !self.choking || contains_u32(&self.allowed_fast, p.request.index)
    }

    /// Starts reading the first readable queued request, if nothing is in
    /// flight and reading is wanted.
    fn start_next_read(&mut self, actions: &mut Vec<UploadAction>)
        requires
            old(self)@.wf(),
        ensures
            final(self)@ == old(self)@.next_read().0,
            final(actions)@ == old(actions)@ + old(self)@.next_read().1,
            final(self)@.wf(),
    {
        if self.in_flight.is_some() || !self.interested || !self.read_enabled {
            assert(actions@ + Seq::<UploadAction>::empty() =~= actions@);
            return;
        }
        let ghost start = self@;
        let mut i: usize = 0;
        while i < self.queued.len() && !self.is_readable(&self.queued[i])
            invariant
                self@ == start,
                i <= start.queued.len(),
                forall|j: int| 0 <= j < i ==> !start.readable(#[trigger] start.queued[j]),
            decreases start.queued.len() - i,
        {
            i += 1;
        }
        proof {
            lemma_first_readable_skip(start, 0, i as int);
        }
        if i == self.queued.len() {
            assert(actions@ + Seq::<UploadAction>::empty() =~= actions@);
            return;
        }
        let pending = self.queued.remove(i);
        self.in_flight = Some(InFlightRequest { pending, cancelled: false, terminal_sent: false });
        let ghost before = actions@;
        actions.push(UploadAction::Read(UploadRead { generation: pending.generation, request: pending.request }));
        proof {
            lemma_sum_remove(start.queued, i as int);
            assert(actions@ =~= before + start.next_read().1);
            assert forall|j: int| 0 <= j < self@.queued.len() implies self@.valid_request(
                #[trigger] self@.queued[j].request,
            ) by {
                if j < i {
                    assert(self@.queued[j] == start.queued[j]);
                } else {
                    assert(self@.queued[j] == start.queued[j + 1]);
                }
            }
        }
    }

    /// A request from the peer: invalid ones close the connection; ones the
    /// peer may not make now are ignored (rejected under Fast); past the
    /// queue limits they are rejected under Fast and close the connection
    /// otherwise; the rest are queued and reading starts if it can.
    fn on_request(&mut self, request: BlockRequest) -> (actions: Vec<UploadAction>)
        requires
            old(self)@.wf(),
        ensures
            final(self)@ == old(self)@.requested(request).0,
            actions@ == old(self)@.requested(request).1,
            final(self)@.wf(),
    {
        if !self.valid_request(request) {
            return single(UploadAction::Close(UploadCloseReason::InvalidRequest));
        }
        let allowed = contains_u32(&self.allowed_fast, request.index);
        if (self.choking && (!self.fast_extension || !allowed)) || !self.interested {
            if self.fast_extension {
                return single(UploadAction::Send(PeerMessage::RejectRequest(request)));
            } else {
                return Vec::new();
            }
        }
        let requested_bytes = request.length as usize;
        if self.pending_count() == MAX_QUEUED_UPLOAD_REQUESTS || self.pending_bytes + requested_bytes
            > MAX_QUEUED_UPLOAD_BYTES {
            if self.fast_extension {
                return single(UploadAction::Send(PeerMessage::RejectRequest(request)));
            } else {
                return single(UploadAction::Close(UploadCloseReason::RequestLimit));
            }
        }
        let ghost start = self@;
        let generation = self.next_generation;
        self.next_generation = if self.next_generation == u64::MAX {
            1
        } else {
            self.next_generation + 1
        };
        self.queued.push(PendingRequest { generation, request });
        self.pending_bytes = self.pending_bytes + requested_bytes;
        let count = self.queued.len() + if self.in_flight.is_some() {
            1
        } else {
            0
        };
        if self.queued_requests_high_water < count {
            self.queued_requests_high_water = count;
        }
        if self.queued_bytes_high_water < self.pending_bytes {
            self.queued_bytes_high_water = self.pending_bytes;
        }
        proof {
            lemma_sum_push(start.queued, PendingRequest { generation, request });
        }
        let mut actions: Vec<UploadAction> = Vec::new();
        self.start_next_read(&mut actions);
        assert(actions@ =~= Seq::<UploadAction>::empty() + start.requested(request).1);
        actions
    }
}


proof fn lemma_sum_split(
    s: Seq<PendingRequest>,
    f: spec_fn(PendingRequest) -> bool,
    g: spec_fn(PendingRequest) -> bool,
)
    requires
        forall|p: PendingRequest| #[trigger] g(p) == !f(p),
    ensures
        sum_lengths(s) == sum_lengths(s.filter(f)) + sum_lengths(s.filter(g)),
        s.len() == s.filter(f).len() + s.filter(g).len(),
    decreases s.len(),
{
    reveal(Seq::filter);
    if s.len() > 0 {
        lemma_sum_split(s.drop_last(), f, g);
        lemma_sum_push(s.drop_last().filter(f), s.last());
        lemma_sum_push(s.drop_last().filter(g), s.last());
    }
}

proof fn lemma_sum_all_same(s: Seq<PendingRequest>, r: BlockRequest)
    requires
        forall|j: int| 0 <= j < s.len() ==> (#[trigger] s[j]).request == r,
    ensures
        sum_lengths(s) == s.len() * r.length,
    decreases s.len(),
{
    if s.len() > 0 {
        lemma_sum_all_same(s.drop_last(), r);
        assert((s.len() - 1) * r.length + r.length == s.len() * r.length) by (nonlinear_arith);
    }
}

proof fn lemma_kept_valid(v: UploadView, f: spec_fn(PendingRequest) -> bool)
    requires
        v.wf(),
    ensures
        forall|j: int|
            0 <= j < v.queued.filter(f).len() ==> v.valid_request(#[trigger] v.queued.filter(f)[j].request),
{
    let t = v.queued.filter(f);
    assert forall|j: int| 0 <= j < t.len() implies v.valid_request(#[trigger] t[j].request) by {
        assert(t.contains(t[j]));
        v.queued.lemma_filter_contains_rev(f, t[j]);
        let k = choose|k: int| 0 <= k < v.queued.len() && v.queued[k] == t[j];
        assert(v.valid_request(v.queued[k].request));
    }
}

impl UploadPeerState {
    /// A cancel from the peer.
    fn on_cancel(&mut self, request: BlockRequest) -> (actions: Vec<UploadAction>)
        requires
            old(self)@.wf(),
        ensures
            final(self)@ == old(self)@.cancelled(request).0,
            actions@ == old(self)@.cancelled(request).1,
            final(self)@.wf(),
    {
        let ghost start = self@;
        let mut kept: Vec<PendingRequest> = Vec::new();
        let mut removed: usize = 0;
        let mut removed_bytes: usize = 0;
        let mut i: usize = 0;
        assert(start.queued.take(0) =~= Seq::<PendingRequest>::empty());
        while i < self.queued.len()
            invariant
                self@ == start,
                i <= start.queued.len(),
                kept@ == start.queued.take(i as int).filter(other_than(request)),
                kept@.len() <= i,
                removed == i - kept@.len(),
                removed_bytes == saturate_usize(removed * request.length),
            decreases start.queued.len() - i,
        {
            let pending = self.queued[i];
            proof {
                reveal(Seq::filter);
                assert(start.queued.take(i + 1).drop_last() =~= start.queued.take(i as int));
                assert(start.queued.take(i + 1).last() == pending);
                assert((removed + 1) * request.length == removed * request.length + request.length)
                    by (nonlinear_arith);
            }
            if pending.request == request {
                removed_bytes = removed_bytes.saturating_add(pending.request.length as usize);
                removed = removed + 1;
            } else {
                kept.push(pending);
            }
            i += 1;
        }
        proof {
            assert(start.queued.take(i as int) =~= start.queued);
            lemma_sum_split(start.queued, other_than(request), same_request(request));
            let same = start.queued.filter(same_request(request));
            assert forall|j: int| 0 <= j < same.len() implies (#[trigger] same[j]).request == request by {
                start.queued.lemma_filter_pred(same_request(request), j);
            }
            lemma_sum_all_same(same, request);
            lemma_kept_valid(start, other_than(request));
        }
        self.queued = kept;
        self.pending_bytes = self.pending_bytes.saturating_sub(removed_bytes);
        let mut actions: Vec<UploadAction> = Vec::new();
        if self.fast_extension {
            let mut k: usize = 0;
            while k < removed
                invariant
                    k <= removed,
                    actions@ =~= Seq::new(k as nat, |x: int| reject(request)),
                decreases removed - k,
            {
                actions.push(UploadAction::Send(PeerMessage::RejectRequest(request)));
                k += 1;
            }
        }
        let ghost rejects = actions@;
        if let Some(f) = self.in_flight {
            if f.pending.request == request {
                let mut updated = f;
                updated.cancelled = true;
                if self.fast_extension && !f.terminal_sent {
                    updated.terminal_sent = true;
                    actions.push(UploadAction::Send(PeerMessage::RejectRequest(request)));
                }
                self.in_flight = Some(updated);
            }
        }
        assert(actions@ =~= start.cancelled(request).1);
        actions
    }

    /// Under Fast, on choke: rejects queued requests outside the
    /// allowed-fast set, and the read in flight unless it is allowed or
    /// already answered.
    fn reject_disallowed_requests(&mut self, actions: &mut Vec<UploadAction>)
        requires
            old(self)@.wf(),
        ensures
            final(self)@ == old(self)@.rejected_disallowed().0,
            final(actions)@ == old(actions)@ + old(self)@.rejected_disallowed().1,
            final(self)@.wf(),
    {
        let ghost start = self@;
        let ghost acts0 = actions@;
        let ghost dis = disallowed_pending(start.allowed_fast);
        let ghost allow = allowed_pending(start.allowed_fast);
        let mut retained: Vec<PendingRequest> = Vec::new();
        let mut bytes: usize = self.pending_bytes;
        let mut i: usize = 0;
        assert(start.queued.take(0) =~= Seq::<PendingRequest>::empty());
        while i < self.queued.len()
            invariant
                self@ == start,
                i <= start.queued.len(),
                retained@ == start.queued.take(i as int).filter(allow),
                bytes == sat_sub(start.pending_bytes as int, sum_lengths(start.queued.take(i as int).filter(dis)) as int),
                actions@ == acts0 + start.queued.take(i as int).filter(dis).map_values(reject_pending()),
                allow == allowed_pending(start.allowed_fast),
                dis == disallowed_pending(start.allowed_fast),
            decreases start.queued.len() - i,
        {
            let pending = self.queued[i];
            let ghost prev_dis = start.queued.take(i as int).filter(dis);
            proof {
                reveal(Seq::filter);
                assert(start.queued.take(i + 1).drop_last() =~= start.queued.take(i as int));
                assert(start.queued.take(i + 1).last() == pending);
            }
            if contains_u32(&self.allowed_fast, pending.request.index) {
                retained.push(pending);
            } else {
                bytes = bytes.saturating_sub(pending.request.length as usize);
                actions.push(UploadAction::Send(PeerMessage::RejectRequest(pending.request)));
                proof {
                    lemma_sum_push(prev_dis, pending);
                    assert(prev_dis.push(pending).map_values(reject_pending()) =~= prev_dis.map_values(
                        reject_pending(),
                    ).push(reject(pending.request)));
                }
            }
            i += 1;
        }
        proof {
            assert(start.queued.take(i as int) =~= start.queued);
            lemma_sum_split(start.queued, allow, dis);
            lemma_kept_valid(start, allow);
        }
        self.queued = retained;
        self.pending_bytes = bytes;
        let ghost before_tail = actions@;
        if let Some(f) = self.in_flight {
            if !contains_u32(&self.allowed_fast, f.pending.request.index) && !f.terminal_sent {
                let mut updated = f;
                updated.cancelled = true;
                updated.terminal_sent = true;
                actions.push(UploadAction::Send(PeerMessage::RejectRequest(f.pending.request)));
                self.in_flight = Some(updated);
            }
        }
        assert(actions@ =~= acts0 + start.rejected_disallowed().1);
    }

    /// Without Fast, on choke: drops every queued request and marks the read
    /// in flight cancelled.
    fn clear_pending_requests(&mut self)
        requires
            old(self)@.wf(),
        ensures
            final(self)@ == old(self)@.cleared(),
            final(self)@.wf(),
    {
        self.pending_bytes = match &self.in_flight {
            Some(f) => f.pending.request.length as usize,
            None => 0,
        };
        self.queued = Vec::new();
        if let Some(f) = self.in_flight {
            let mut updated = f;
            updated.cancelled = true;
            self.in_flight = Some(updated);
        }
        assert(self@.queued =~= Seq::<PendingRequest>::empty());
    }
}


impl UploadPeerState {
    /// Grants (`true`) or withdraws the peer's upload slot. A grant to an
    /// interested, choked peer unchokes it and starts a read; a withdrawal
    /// chokes it, and then, under Fast, rejects what is no longer allowed,
    /// else drops the whole queue.
    pub fn set_granted(&mut self, granted: bool) -> (actions: Vec<UploadAction>)
        requires
            old(self)@.wf(),
        ensures
            final(self)@ == old(self)@.granted(granted).0,
            actions@ == old(self)@.granted(granted).1,
            final(self)@.wf(),
    {
        if granted {
            if !self.interested || !self.choking {
                return Vec::new();
            }
            self.choking = false;
            let mut actions = single(UploadAction::Send(PeerMessage::Unchoke));
            self.start_next_read(&mut actions);
            actions
        } else if self.choking {
            Vec::new()
        } else {
            self.choking = true;
            let mut actions = single(UploadAction::Send(PeerMessage::Choke));
            if self.fast_extension {
                self.reject_disallowed_requests(&mut actions);
                self.start_next_read(&mut actions);
            } else {
                self.clear_pending_requests();
            }
            actions
        }
    }

    /// Allows or pauses payload reads; enabling starts one if it can.
    pub fn set_read_enabled(&mut self, enabled: bool) -> (actions: Vec<UploadAction>)
        requires
            old(self)@.wf(),
        ensures
            final(self)@ == (UploadView { read_enabled: enabled, ..old(self)@ }).next_read().0,
            actions@ == (UploadView { read_enabled: enabled, ..old(self)@ }).next_read().1,
            final(self)@.wf(),
    {
        self.read_enabled = enabled;
        let mut actions: Vec<UploadAction> = Vec::new();
        self.start_next_read(&mut actions);
        assert(actions@ =~= (UploadView { read_enabled: enabled, ..old(self)@ }).next_read().1);
        actions
    }

    /// A message from the peer; only interest, requests and cancels concern
    /// the upload side.
    pub fn on_message(&mut self, message: &PeerMessage) -> (actions: Vec<UploadAction>)
        requires
            old(self)@.wf(),
        ensures
            final(self)@ == old(self)@.on_message(*message).0,
            actions@ == old(self)@.on_message(*message).1,
            final(self)@.wf(),
    {
        match message {
            PeerMessage::Interested => {
                self.interested = true;
                Vec::new()
            },
            PeerMessage::NotInterested => {
                self.interested = false;
                if self.choking {
                    return Vec::new();
                }
                self.set_granted(false)
            },
            PeerMessage::Request(request) => self.on_request(*request),
            PeerMessage::Cancel(request) => self.on_cancel(*request),
            _ => Vec::new(),
        }
    }

    /// The caller finished the read `read` with `result`: a stale read
    /// changes nothing; a failed or short read closes the connection; a good
    /// read is sent as payload only while it is still wanted and allowed.
    pub fn on_read_complete(&mut self, read: UploadRead, result: Result<Vec<u8>, ()>) -> (actions: Vec<
        UploadAction,
    >)
        requires
            old(self)@.wf(),
        ensures
            final(self)@ == old(self)@.read_completed(read, result).0,
            actions@ == old(self)@.read_completed(read, result).1,
            final(self)@.wf(),
    {
        let f = match self.in_flight {
            None => {
                return Vec::new();
            },
            Some(f) => f,
        };
        if f.pending.generation != read.generation || f.pending.request != read.request {
            return Vec::new();
        }
        let ghost start = self@;
        self.in_flight = None;
        self.pending_bytes = self.pending_bytes.saturating_sub(read.request.length as usize);
        let mut actions: Vec<UploadAction> = Vec::new();
        match result {
            Err(_) => {
                if self.fast_extension && !f.terminal_sent {
                    actions.push(UploadAction::Send(PeerMessage::RejectRequest(read.request)));
                }
                actions.push(UploadAction::Close(UploadCloseReason::ReadFailed));
                assert(actions@ =~= start.read_completed(read, result).1);
                actions
            },
            Ok(block) => {
                if block.len() != read.request.length as usize {
                    if self.fast_extension && !f.terminal_sent {
                        actions.push(UploadAction::Send(PeerMessage::RejectRequest(read.request)));
                    }
                    actions.push(UploadAction::Close(UploadCloseReason::ShortRead));
                    assert(actions@ =~= start.read_completed(read, result).1);
                    return actions;
                }
                if !f.cancelled && !f.terminal_sent && self.interested && (!self.choking
                    || contains_u32(&self.allowed_fast, read.request.index)) {
                    actions.push(
                        UploadAction::Send(
                            PeerMessage::Piece { index: read.request.index, begin: read.request.begin, block },
                        ),
                    );
                } else if self.fast_extension && !f.terminal_sent {
                    actions.push(UploadAction::Send(PeerMessage::RejectRequest(read.request)));
                }
                let ghost sent = actions@;
                self.start_next_read(&mut actions);
                assert(actions@ =~= start.read_completed(read, result).1);
                actions
            },
        }
    }

    /// Turns on the Fast extension with the pieces the peer may request
    /// while choked. Refused once requests are pending, or when a piece lies
    /// outside the torrent.
    pub fn enable_fast_extension(&mut self, allowed_fast: Vec<u32>) -> (r: Result<(), &'static str>)
        requires
            old(self)@.wf(),
        ensures
            final(self)@.wf(),
            r is Ok <==> old(self)@.pending_count() == 0 && forall|j: int|
                0 <= j < allowed_fast@.len() ==> #[trigger] allowed_fast@[j] < old(self)@.piece_lengths.len(),
            r matches Err(e) ==> final(self)@ == old(self)@ && e == if old(self)@.pending_count() != 0 {
                ERR_FAST_AFTER_REQUESTS
            } else {
                ERR_ALLOWED_OUTSIDE
            },
            r is Ok ==> final(self)@ == (UploadView {
                fast_extension: true,
                allowed_fast: final(self)@.allowed_fast,
                ..old(self)@
            }),
            r is Ok ==> final(self)@.allowed_fast.to_set() == allowed_fast@.to_set(),
    {
        if self.pending_count() != 0 {
            return Err(ERR_FAST_AFTER_REQUESTS);
        }
        let mut retained: Vec<u32> = Vec::new();
        let mut i: usize = 0;
        while i < allowed_fast.len()
            invariant
                i <= allowed_fast@.len(),
                self@ == old(self)@,
                old(self)@.wf(),
                old(self)@.pending_count() == 0,
                self.piece_lengths@.len() == old(self)@.piece_lengths.len(),
                forall|j: int| 0 <= j < i ==> #[trigger] allowed_fast@[j] < self.piece_lengths@.len(),
                retained@.no_duplicates(),
                forall|x: u32| retained@.contains(x) <==> allowed_fast@.take(i as int).contains(x),
            decreases allowed_fast@.len() - i,
        {
            let piece = allowed_fast[i];
            proof {
                assert(allowed_fast@.take(i + 1) =~= allowed_fast@.take(i as int).push(piece));
            }
            if piece as usize >= self.piece_lengths.len() {
                return Err(ERR_ALLOWED_OUTSIDE);
            }
            let ghost before = retained@;
            if !contains_u32(&retained, piece) {
                retained.push(piece);
            }
            proof {
                assert forall|x: u32| retained@.contains(x) <==> allowed_fast@.take(i + 1).contains(x) by {
                    vstd::seq_lib::lemma_seq_contains_after_push(allowed_fast@.take(i as int), piece, x);
                    vstd::seq_lib::lemma_seq_contains_after_push(before, piece, x);
                }
            }
            i += 1;
        }
        proof {
            assert(allowed_fast@.take(i as int) =~= allowed_fast@);
            assert(retained@.to_set() =~= allowed_fast@.to_set());
        }
        self.fast_extension = true;
        self.allowed_fast = retained;
        Ok(())
    }
}


/// The SHA-1 digest of `data`.
pub uninterp spec fn sha1_of(data: Seq<u8>) -> Seq<u8>;

/// `sha1::Sha1::digest` (through the `Digest` trait): the SHA-1 digest of
/// `data`, named by `sha1_of`; SHA-1 digests are 20 bytes long.
#[verifier::external_body]
pub(crate) fn sha1_digest(data: &Vec<u8>) -> (r: Vec<u8>)
    ensures
        r@ == sha1_of(data@),
        r@.len() == 20,
{
    Sha1::digest(data.as_slice()).to_vec()
}

/// The big-endian 32-bit word at word position `j` of `d`.
pub open spec fn be_word(d: Seq<u8>, j: int) -> nat {
    (d[4 * j] * 16777216 + d[4 * j + 1] * 65536 + d[4 * j + 2] * 256 + d[4 * j + 3]) as nat
}

/// The five candidate pieces a 20-byte digest yields.
pub open spec fn digest_pieces(d: Seq<u8>, piece_count: nat) -> Seq<u32> {
    Seq::new(5, |j: int| (be_word(d, j) % piece_count) as u32)
}

/// `ordered` extended, in order, with each candidate it does not hold yet,
/// until it holds `target` pieces.
pub open spec fn absorb(ordered: Seq<u32>, candidates: Seq<u32>, target: nat) -> Seq<u32>
    decreases candidates.len(),
{
    if candidates.len() == 0 || ordered.len() >= target {
        ordered
    } else {
        absorb(
            if ordered.contains(candidates[0]) {
                ordered
            } else {
                ordered.push(candidates[0])
            },
            candidates.drop_first(),
            target,
        )
    }
}

/// The first hashing input: the peer's address with its last octet zeroed,
/// then the info hash.
pub open spec fn allowed_fast_seed(info_hash: Seq<u8>, ip: Seq<u8>) -> Seq<u8> {
    seq![ip[0], ip[1], ip[2], 0u8] + info_hash
}

/// The `k`-th link of the hash chain from `seed` (the seed itself at 0).
pub open spec fn digest_chain(seed: Seq<u8>, k: nat) -> Seq<u8>
    decreases k,
{
    if k == 0 {
        seed
    } else {
        sha1_of(digest_chain(seed, (k - 1) as nat))
    }
}

/// The allowed-fast pieces collected from the first `k` digests.
pub open spec fn allowed_after(seed: Seq<u8>, piece_count: nat, target: nat, k: nat) -> Seq<u32>
    decreases k,
{
    if k == 0 {
        Seq::empty()
    } else {
        absorb(
            allowed_after(seed, piece_count, target, (k - 1) as nat),
            digest_pieces(digest_chain(seed, k), piece_count),
            target,
        )
    }
}

/// The number of allowed-fast pieces generated: the request, capped by the
/// generation limit and the piece count.
pub open spec fn allowed_fast_target(piece_count: nat, requested: nat) -> nat {
    let capped = if requested < MAX_GENERATED_ALLOWED_FAST_PIECES {
        requested
    } else {
        MAX_GENERATED_ALLOWED_FAST_PIECES as nat
    };
    if capped < piece_count {
        capped
    } else {
        piece_count
    }
}

/// Adds the pieces one digest yields to `ordered`: each word of the digest,
/// taken modulo `piece_count`, in order, skipping pieces already held and
/// stopping at `target` pieces.
pub fn absorb_digest(ordered: &mut Vec<u32>, digest: &Vec<u8>, piece_count: u32, target: usize)
    requires
        digest@.len() == 20,
        piece_count > 0,
    ensures
        final(ordered)@ == absorb(old(ordered)@, digest_pieces(digest@, piece_count as nat), target as nat),
        old(ordered)@.no_duplicates() ==> final(ordered)@.no_duplicates(),
        (forall|i: int| 0 <= i < old(ordered)@.len() ==> #[trigger] old(ordered)@[i] < piece_count) ==> (
        forall|i: int| 0 <= i < final(ordered)@.len() ==> #[trigger] final(ordered)@[i] < piece_count),
        old(ordered)@.len() <= target ==> final(ordered)@.len() <= target,
{
    let ghost candidates = digest_pieces(digest@, piece_count as nat);
    let ghost start = ordered@;
    let mut j: usize = 0;
    assert(candidates.skip(0) =~= candidates);
    while j < 5 && ordered.len() < target
        invariant
            j <= 5,
            digest@.len() == 20,
            piece_count > 0,
            candidates == digest_pieces(digest@, piece_count as nat),
            absorb(start, candidates, target as nat) == absorb(ordered@, candidates.skip(j as int), target as nat),
            start.no_duplicates() ==> ordered@.no_duplicates(),
            (forall|i: int| 0 <= i < start.len() ==> #[trigger] start[i] < piece_count) ==> (forall|i: int|
                0 <= i < ordered@.len() ==> #[trigger] ordered@[i] < piece_count),
            start.len() <= target ==> ordered@.len() <= target,
        decreases 5 - j,
    {
        let word: u32 = (digest[4 * j] as u32) * 16777216 + (digest[4 * j + 1] as u32) * 65536
            + (digest[4 * j + 2] as u32) * 256 + (digest[4 * j + 3] as u32);
        let piece = word % piece_count;
        let ghost before = ordered@;
        proof {
            assert(word == be_word(digest@, j as int));
            assert(candidates.skip(j as int)[0] == piece);
            assert(candidates.skip(j as int).drop_first() =~= candidates.skip(j + 1));
        }
        if !contains_u32(ordered, piece) {
            ordered.push(piece);
            proof {
                assert forall|a: int, b: int| 0 <= a < b < ordered@.len() && before.no_duplicates() implies ordered@[a] != ordered@[b] by {
                    if b == before.len() {
                        assert(before.contains(before[a]));
                    }
                }
            }
        }
        j += 1;
    }
    proof {
        if j == 5 {
            assert(candidates.skip(5).len() == 0);
        }
    }
}

/// The BEP 6 allowed-fast set for a peer at `remote_ip`: up to
/// `requested_size` distinct pieces (at most ten, at most every piece)
/// drawn from the SHA-1 chain over the masked address and the info hash.
pub fn generate_allowed_fast_set(
    info_hash: [u8; 20],
    remote_ip: [u8; 4],
    piece_count: usize,
    requested_size: usize,
) -> (r: Result<Vec<u32>, &'static str>)
    ensures
        r is Err <==> piece_count == 0 || piece_count > u32::MAX,
        r matches Err(e) ==> e == ERR_ALLOWED_FAST_GEOMETRY,
        r matches Ok(v) ==> exists|k: nat|
            #[trigger] allowed_after(
                allowed_fast_seed(info_hash@, remote_ip@),
                piece_count as nat,
                allowed_fast_target(piece_count as nat, requested_size as nat),
                k,
            ) == v@ && (v@.len() == allowed_fast_target(piece_count as nat, requested_size as nat) || k
                == u64::MAX),
        r matches Ok(v) ==> v@.no_duplicates() && v@.len() <= allowed_fast_target(
            piece_count as nat,
            requested_size as nat,
        ) && forall|i: int| 0 <= i < v@.len() ==> #[trigger] v@[i] < piece_count,
{
    if piece_count == 0 || piece_count > u32::MAX as usize {
        return Err(ERR_ALLOWED_FAST_GEOMETRY);
    }
    let mut target = requested_size;
    if MAX_GENERATED_ALLOWED_FAST_PIECES < target {
        target = MAX_GENERATED_ALLOWED_FAST_PIECES;
    }
    if piece_count < target {
        target = piece_count;
    }
    let count = piece_count as u32;
    let mut seed: Vec<u8> = Vec::new();
    seed.push(remote_ip[0]);
    seed.push(remote_ip[1]);
    seed.push(remote_ip[2]);
    seed.push(0);
    let mut b: usize = 0;
    while b < 20
        invariant
            b <= 20,
            seed@ == seq![remote_ip@[0], remote_ip@[1], remote_ip@[2], 0u8] + info_hash@.take(b as int),
        decreases 20 - b,
    {
        seed.push(info_hash[b]);
        proof {
            assert(info_hash@.take(b + 1) =~= info_hash@.take(b as int).push(info_hash@[b as int]));
        }
        b += 1;
    }
    let ghost seed0 = allowed_fast_seed(info_hash@, remote_ip@);
    assert(info_hash@.take(20) =~= info_hash@);
    assert(seed@ =~= seed0);
    let ghost tgt = allowed_fast_target(piece_count as nat, requested_size as nat);
    let mut ordered: Vec<u32> = Vec::new();
    let mut rounds: u64 = 0;
    while ordered.len() < target && rounds < u64::MAX
        invariant
            target == tgt,
            count == piece_count,
            count > 0,
            seed@ == digest_chain(seed0, rounds as nat),
            ordered@ == allowed_after(seed0, piece_count as nat, tgt, rounds as nat),
            ordered@.no_duplicates(),
            ordered@.len() <= tgt,
            forall|i: int| 0 <= i < ordered@.len() ==> #[trigger] ordered@[i] < count,
        decreases u64::MAX - rounds,
    {
        let digest = sha1_digest(&seed);
        absorb_digest(&mut ordered, &digest, count, target);
        seed = digest;
        rounds = rounds + 1;
    }
    Ok(ordered)
}


proof fn lemma_next_read_shape(v: UploadView)
    ensures
        v.next_read().0.pending_count() == v.pending_count(),
        v.next_read().0.interested == v.interested,
        v.next_read().0.choking == v.choking,
        forall|i: int| 0 <= i < v.next_read().1.len() ==> #[trigger] v.next_read().1[i] is Read,
        v.wf() ==> forall|i: int|
            0 <= i < v.next_read().1.len() ==> (#[trigger] v.next_read().1[i] matches UploadAction::Read(rd)
                && v.valid_request(rd.request)),
{
    if !(v.in_flight is Some || !v.interested || !v.read_enabled) {
        if let Some(p) = first_readable(v, 0) {
            lemma_first_readable_in_range(v, 0);
            assert(v.queued.remove(p).len() == v.queued.len() - 1);
        }
    }
}

proof fn lemma_first_readable_in_range(v: UploadView, from: int)
    requires
        0 <= from,
    ensures
        first_readable(v, from) matches Some(p) ==> from <= p < v.queued.len(),
    decreases v.queued.len() - from,
{
    if from < v.queued.len() && !v.readable(v.queued[from]) {
        lemma_first_readable_in_range(v, from + 1);
    }
}

/// Every read the state asks for is of a valid request: inside the
/// geometry of an available piece, and at most one block long.
pub proof fn lemma_reads_are_valid(v: UploadView)
    requires
        v.wf(),
    ensures
        forall|i: int|
            0 <= i < v.next_read().1.len() ==> (#[trigger] v.next_read().1[i] matches UploadAction::Read(rd)
                && v.valid_request(rd.request)),
{
    lemma_next_read_shape(v);
}

/// A request is queued only if it is valid, the peer is interested, and
/// the peer is unchoked or, under Fast, the piece is allowed fast; and
/// then only within the queue limits.
pub proof fn lemma_admission_needs_permission(v: UploadView, r: BlockRequest)
    requires
        v.wf(),
    ensures
        v.requested(r).0.pending_count() > v.pending_count() ==> {
            &&& v.valid_request(r)
            &&& v.interested
            &&& (!v.choking || (v.fast_extension && v.allowed_fast.contains(r.index)))
            &&& v.pending_count() < MAX_QUEUED_UPLOAD_REQUESTS
            &&& v.pending_bytes + r.length <= MAX_QUEUED_UPLOAD_BYTES
        },
{
    if v.valid_request(r) && !((v.choking && (!v.fast_extension || !v.allowed_fast.contains(r.index)))
        || !v.interested) && !(v.pending_count() == MAX_QUEUED_UPLOAD_REQUESTS || v.pending_bytes
        + r.length > MAX_QUEUED_UPLOAD_BYTES) {
        let generation = v.next_generation;
        let count = (v.pending_count() + 1) as usize;
        let bytes = (v.pending_bytes + r.length) as usize;
        let w = UploadView {
            next_generation: if generation == u64::MAX {
                1
            } else {
                (generation + 1) as u64
            },
            queued: v.queued.push(PendingRequest { generation, request: r }),
            pending_bytes: bytes,
            queued_requests_high_water: if v.queued_requests_high_water < count {
                count
            } else {
                v.queued_requests_high_water
            },
            queued_bytes_high_water: if v.queued_bytes_high_water < bytes {
                bytes
            } else {
                v.queued_bytes_high_water
            },
            ..v
        };
        lemma_next_read_shape(w);
    }
}

/// A completed read becomes payload only if it is the read in flight,
/// neither cancelled nor already answered, read in full, for an interested
/// peer that may have the piece now.
pub proof fn lemma_payload_only_for_live_read(
    v: UploadView,
    read: UploadRead,
    result: Result<Vec<u8>, ()>,
    i: int,
)
    requires
        0 <= i < v.read_completed(read, result).1.len(),
        v.read_completed(read, result).1[i] matches UploadAction::Send(PeerMessage::Piece { .. }),
    ensures
        v.in_flight matches Some(f) && f.pending.request == read.request && f.pending.generation
            == read.generation && !f.cancelled && !f.terminal_sent && v.readable(f.pending),
        v.interested,
        result matches Ok(block) && block@.len() == read.request.length,
{
    if let Some(f) = v.in_flight {
        if f.pending.generation == read.generation && f.pending.request == read.request {
            let w = UploadView {
                in_flight: None,
                pending_bytes: sat_sub(v.pending_bytes as int, read.request.length as int),
                ..v
            };
            lemma_next_read_shape(w);
        }
    }
}

/// Once the read in flight has been answered, its completion sends
/// nothing more to the peer.
pub proof fn lemma_answered_read_stays_silent(v: UploadView, read: UploadRead, result: Result<Vec<u8>, ()>)
    requires
        v.in_flight matches Some(f) && f.terminal_sent,
    ensures
        forall|i: int|
            0 <= i < v.read_completed(read, result).1.len() ==> !(#[trigger] v.read_completed(
                read,
                result,
            ).1[i] is Send),
{
    let f = v.in_flight->Some_0;
    if f.pending.generation == read.generation && f.pending.request == read.request {
        let w = UploadView {
            in_flight: None,
            pending_bytes: sat_sub(v.pending_bytes as int, read.request.length as int),
            ..v
        };
        lemma_next_read_shape(w);
    }
}


/// How many of the pending requests are `r`.
pub open spec fn count_requests(s: Seq<PendingRequest>, r: BlockRequest) -> nat
    decreases s.len(),
{
    if s.len() == 0 {
        0
    } else {
        count_requests(s.drop_last(), r) + if s.last().request == r {
            1nat
        } else {
            0nat
        }
    }
}

/// Whether the action is a terminal response to `r`: a reject of it, or its
/// payload.
pub open spec fn answers(a: UploadAction, r: BlockRequest) -> bool {
    ||| a == reject(r)
    ||| (a matches UploadAction::Send(PeerMessage::Piece { index, begin, block }) && index == r.index
        && begin == r.begin && block@.len() == r.length)
}

/// How many of the actions answer `r`.
pub open spec fn count_answers(actions: Seq<UploadAction>, r: BlockRequest) -> nat
    decreases actions.len(),
{
    if actions.len() == 0 {
        0
    } else {
        count_answers(actions.drop_last(), r) + if answers(actions.last(), r) {
            1nat
        } else {
            0nat
        }
    }
}

/// Whether the actions close the connection.
pub open spec fn closes(actions: Seq<UploadAction>) -> bool {
    exists|i: int| 0 <= i < actions.len() && #[trigger] actions[i] is Close
}

impl UploadView {
    /// The answers still owed for `r`: its queued copies, and the read in
    /// flight unless it was answered already.
    pub open spec fn owed(&self, r: BlockRequest) -> nat {
        count_requests(self.queued, r) + match self.in_flight {
            Some(f) => if f.pending.request == r && !f.terminal_sent {
                1nat
            } else {
                0nat
            },
            None => 0nat,
        }
    }
}

proof fn lemma_count_answers_concat(a: Seq<UploadAction>, b: Seq<UploadAction>, r: BlockRequest)
    ensures
        count_answers(a + b, r) == count_answers(a, r) + count_answers(b, r),
    decreases b.len(),
{
    if b.len() == 0 {
        assert(a + b =~= a);
    } else {
        lemma_count_answers_concat(a, b.drop_last(), r);
        assert((a + b).drop_last() =~= a + b.drop_last());
        assert((a + b).last() == b.last());
    }
}

proof fn lemma_count_answers_single(a: UploadAction, r: BlockRequest)
    ensures
        count_answers(seq![a], r) == if answers(a, r) {
            1nat
        } else {
            0nat
        },
{
    assert(seq![a].drop_last() =~= Seq::<UploadAction>::empty());
    assert(count_answers(Seq::<UploadAction>::empty(), r) == 0);
}

proof fn lemma_count_answers_reads(actions: Seq<UploadAction>, r: BlockRequest)
    requires
        forall|i: int| 0 <= i < actions.len() ==> #[trigger] actions[i] is Read,
    ensures
        count_answers(actions, r) == 0,
    decreases actions.len(),
{
    if actions.len() > 0 {
        assert(actions.last() == actions[actions.len() - 1]);
        lemma_count_answers_reads(actions.drop_last(), r);
    }
}

proof fn lemma_count_answers_rejects(dropped: Seq<PendingRequest>, r: BlockRequest)
    ensures
        count_answers(dropped.map_values(reject_pending()), r) == count_requests(dropped, r),
    decreases dropped.len(),
{
    if dropped.len() > 0 {
        lemma_count_answers_rejects(dropped.drop_last(), r);
        assert(dropped.map_values(reject_pending()).drop_last() =~= dropped.drop_last().map_values(
            reject_pending(),
        ));
        let last = dropped.last();
        assert(dropped.map_values(reject_pending()).last() == reject(last.request));
        if last.request != r {
            assert(reject(last.request) != reject(r));
        }
    }
}

proof fn lemma_count_answers_repeated(n: nat, r0: BlockRequest, r: BlockRequest)
    ensures
        count_answers(Seq::new(n, |i: int| reject(r0)), r) == if r == r0 {
            n
        } else {
            0
        },
    decreases n,
{
    if n > 0 {
        lemma_count_answers_repeated((n - 1) as nat, r0, r);
        assert(Seq::new(n, |i: int| reject(r0)).drop_last() =~= Seq::new((n - 1) as nat, |i: int| reject(r0)));
        if r != r0 {
            assert(reject(r0) != reject(r));
        }
    }
}

proof fn lemma_count_requests_push(s: Seq<PendingRequest>, p: PendingRequest, r: BlockRequest)
    ensures
        count_requests(s.push(p), r) == count_requests(s, r) + if p.request == r {
            1nat
        } else {
            0nat
        },
{
    assert(s.push(p).drop_last() =~= s);
}

proof fn lemma_count_requests_remove(s: Seq<PendingRequest>, i: int, r: BlockRequest)
    requires
        0 <= i < s.len(),
    ensures
        count_requests(s, r) == count_requests(s.remove(i), r) + if s[i].request == r {
            1nat
        } else {
            0nat
        },
    decreases s.len(),
{
    if i == s.len() - 1 {
        assert(s.remove(i) =~= s.drop_last());
    } else {
        lemma_count_requests_remove(s.drop_last(), i, r);
        assert(s.remove(i).drop_last() =~= s.drop_last().remove(i));
        assert(s.remove(i).last() == s.last());
    }
}

proof fn lemma_count_requests_split(
    s: Seq<PendingRequest>,
    f: spec_fn(PendingRequest) -> bool,
    g: spec_fn(PendingRequest) -> bool,
    r: BlockRequest,
)
    requires
        forall|p: PendingRequest| #[trigger] g(p) == !f(p),
    ensures
        count_requests(s, r) == count_requests(s.filter(f), r) + count_requests(s.filter(g), r),
    decreases s.len(),
{
    reveal(Seq::filter);
    if s.len() > 0 {
        lemma_count_requests_split(s.drop_last(), f, g, r);
        lemma_count_requests_push(s.drop_last().filter(f), s.last(), r);
        lemma_count_requests_push(s.drop_last().filter(g), s.last(), r);
    }
}

proof fn lemma_count_requests_none(s: Seq<PendingRequest>, r: BlockRequest)
    requires
        forall|j: int| 0 <= j < s.len() ==> (#[trigger] s[j]).request != r,
    ensures
        count_requests(s, r) == 0,
    decreases s.len(),
{
    if s.len() > 0 {
        lemma_count_requests_none(s.drop_last(), r);
    }
}

proof fn lemma_count_requests_all(s: Seq<PendingRequest>, r: BlockRequest)
    requires
        forall|j: int| 0 <= j < s.len() ==> (#[trigger] s[j]).request == r,
    ensures
        count_requests(s, r) == s.len(),
    decreases s.len(),
{
    if s.len() > 0 {
        lemma_count_requests_all(s.drop_last(), r);
    }
}

/// Starting a read neither answers nor settles anything.
proof fn lemma_next_read_neutral(v: UploadView, r: BlockRequest)
    ensures
        v.next_read().0.owed(r) == v.owed(r),
        count_answers(v.next_read().1, r) == 0,
{
    lemma_next_read_shape(v);
    lemma_count_answers_reads(v.next_read().1, r);
    if !(v.in_flight is Some || !v.interested || !v.read_enabled) {
        if let Some(p) = first_readable(v, 0) {
            lemma_first_readable_in_range(v, 0);
            lemma_count_requests_remove(v.queued, p, r);
        }
    }
}

/// Under Fast, a choke answers exactly what it stops owing.
proof fn lemma_rejected_disallowed_conserves(v: UploadView, r: BlockRequest)
    ensures
        v.owed(r) == v.rejected_disallowed().0.owed(r) + count_answers(v.rejected_disallowed().1, r),
{
    let dropped = v.queued.filter(disallowed_pending(v.allowed_fast));
    let kept = v.queued.filter(allowed_pending(v.allowed_fast));
    lemma_count_requests_split(v.queued, allowed_pending(v.allowed_fast), disallowed_pending(v.allowed_fast), r);
    lemma_count_answers_rejects(dropped, r);
    let w = v.rejected_disallowed().0;
    let acts = v.rejected_disallowed().1;
    let rejects = dropped.map_values(reject_pending());
    assert(w.queued == kept);
    let tail: Seq<UploadAction> = match v.in_flight {
        Some(f) => if !v.allowed_fast.contains(f.pending.request.index) && !f.terminal_sent {
            seq![reject(f.pending.request)]
        } else {
            Seq::empty()
        },
        None => Seq::empty(),
    };
    assert(acts == rejects + tail);
    lemma_count_answers_concat(rejects, tail, r);
    if tail.len() == 1 {
        assert(tail.drop_last() =~= Seq::<UploadAction>::empty());
        assert(count_answers(tail.drop_last(), r) == 0);
        let f = v.in_flight->Some_0;
        assert(tail.last() == reject(f.pending.request));
        if f.pending.request != r {
            assert(reject(f.pending.request) != reject(r));
            assert(!answers(tail.last(), r));
        } else {
            assert(answers(tail.last(), r));
        }
        assert(w.in_flight == Some(InFlightRequest { cancelled: true, terminal_sent: true, ..f }));
    } else {
        assert(tail =~= Seq::<UploadAction>::empty());
        assert(count_answers(tail, r) == 0);
        assert(w.in_flight == v.in_flight);
    }
}

/// Under Fast, every request the peer makes is answered exactly once:
/// whatever a message does, the answers still owed for any request plus
/// those it emits equal the answers owed before plus the request it brings,
/// unless the connection closes.
pub proof fn lemma_fast_message_answers_once(v: UploadView, m: PeerMessage, r: BlockRequest)
    requires
        v.wf(),
        v.fast_extension,
        !closes(v.on_message(m).1),
    ensures
        v.owed(r) + (if m == PeerMessage::Request(r) {
            1nat
        } else {
            0nat
        }) == v.on_message(m).0.owed(r) + count_answers(v.on_message(m).1, r),
{
    match m {
        PeerMessage::NotInterested => {
            let u = UploadView { interested: false, ..v };
            assert(u.owed(r) == v.owed(r));
            if !u.choking {
                lemma_fast_grant_answers_once(u, false, r);
                assert(v.on_message(m) == u.granted(false));
            } else {
                assert(v.on_message(m).1 == Seq::<UploadAction>::empty());
                assert(count_answers(Seq::<UploadAction>::empty(), r) == 0);
            }
        },
        PeerMessage::Request(r0) => {
            if !v.valid_request(r0) {
                assert(v.on_message(m).1[0] is Close);
            } else if (v.choking && (!v.fast_extension || !v.allowed_fast.contains(r0.index))) || !v.interested {
                assert(v.on_message(m).1 =~= seq![reject(r0)]);
                lemma_count_answers_single(reject(r0), r);
                if r0 != r {
                    assert(reject(r0) != reject(r));
                }
            } else if v.pending_count() == MAX_QUEUED_UPLOAD_REQUESTS || v.pending_bytes + r0.length > MAX_QUEUED_UPLOAD_BYTES {
                assert(v.on_message(m).1 =~= seq![reject(r0)]);
                lemma_count_answers_single(reject(r0), r);
                if r0 != r {
                    assert(reject(r0) != reject(r));
                }
            } else {
                let generation = v.next_generation;
                let count = (v.pending_count() + 1) as usize;
                let bytes = (v.pending_bytes + r0.length) as usize;
                let w = UploadView {
                    next_generation: if generation == u64::MAX {
                        1
                    } else {
                        (generation + 1) as u64
                    },
                    queued: v.queued.push(PendingRequest { generation, request: r0 }),
                    pending_bytes: bytes,
                    queued_requests_high_water: if v.queued_requests_high_water < count {
                        count
                    } else {
                        v.queued_requests_high_water
                    },
                    queued_bytes_high_water: if v.queued_bytes_high_water < bytes {
                        bytes
                    } else {
                        v.queued_bytes_high_water
                    },
                    ..v
                };
                lemma_count_requests_push(v.queued, PendingRequest { generation, request: r0 }, r);
                lemma_next_read_neutral(w, r);
            }
        },
        PeerMessage::Cancel(r0) => {
            let kept = v.queued.filter(other_than(r0));
            let gone = v.queued.filter(same_request(r0));
            lemma_count_requests_split(v.queued, other_than(r0), same_request(r0), r);
            lemma_sum_split(v.queued, other_than(r0), same_request(r0));
            assert forall|j: int| 0 <= j < gone.len() implies (#[trigger] gone[j]).request == r0 by {
                v.queued.lemma_filter_pred(same_request(r0), j);
            }
            assert forall|j: int| 0 <= j < kept.len() implies (#[trigger] kept[j]).request != r0 by {
                v.queued.lemma_filter_pred(other_than(r0), j);
            }
            lemma_count_requests_all(gone, r0);
            if r != r0 {
                lemma_count_requests_none(gone, r);
            } else {
                lemma_count_requests_none(kept, r);
            }
            let removed = v.queued.len() - kept.len();
            let rejects = Seq::new(removed as nat, |i: int| reject(r0));
            lemma_count_answers_repeated(removed as nat, r0, r);
            let acts = v.on_message(m).1;
            let tail = acts.subrange(rejects.len() as int, acts.len() as int);
            assert(acts =~= rejects + tail);
            lemma_count_answers_concat(rejects, tail, r);
            lemma_count_answers_single(reject(r0), r);
            if r0 != r {
                assert(reject(r0) != reject(r));
            }
            assert(count_answers(Seq::<UploadAction>::empty(), r) == 0);
            let w = v.on_message(m).0;
            assert(w.queued == kept);
            if let Some(f) = v.in_flight {
                if f.pending.request == r0 && !f.terminal_sent {
                    assert(tail =~= seq![reject(r0)]);
                    assert(w.in_flight == Some(InFlightRequest { cancelled: true, terminal_sent: true, ..f }));
                } else {
                    assert(tail =~= Seq::<UploadAction>::empty());
                    if f.pending.request == r0 {
                        assert(w.in_flight == Some(InFlightRequest { cancelled: true, terminal_sent: true, ..f }));
                    } else {
                        assert(w.in_flight == v.in_flight);
                    }
                }
            } else {
                assert(tail =~= Seq::<UploadAction>::empty());
            }
        },
        _ => {
            assert(v.on_message(m).1 == Seq::<UploadAction>::empty());
            assert(count_answers(Seq::<UploadAction>::empty(), r) == 0);
        },
    }
}

/// Under Fast, granting or withdrawing the upload slot answers exactly what
/// it stops owing.
pub proof fn lemma_fast_grant_answers_once(v: UploadView, granted: bool, r: BlockRequest)
    requires
        v.fast_extension,
    ensures
        v.owed(r) == v.granted(granted).0.owed(r) + count_answers(v.granted(granted).1, r),
{
    if granted {
        if v.interested && v.choking {
            let u = UploadView { choking: false, ..v };
            lemma_next_read_neutral(u, r);
            let head = seq![UploadAction::Send(PeerMessage::Unchoke)];
            lemma_count_answers_concat(head, u.next_read().1, r);
            lemma_count_answers_single(UploadAction::Send(PeerMessage::Unchoke), r);
            assert(v.granted(granted).1 == head + u.next_read().1);
        }
    } else if !v.choking {
        let choked = UploadView { choking: true, ..v };
        lemma_rejected_disallowed_conserves(choked, r);
        let x = choked.rejected_disallowed().0;
        let rejects = choked.rejected_disallowed().1;
        lemma_next_read_neutral(x, r);
        let head = seq![UploadAction::Send(PeerMessage::Choke)];
        lemma_count_answers_single(UploadAction::Send(PeerMessage::Choke), r);
        lemma_count_answers_concat(head, rejects, r);
        lemma_count_answers_concat(head + rejects, x.next_read().1, r);
        assert(v.granted(granted).1 == head + rejects + x.next_read().1);
        assert(v.granted(granted).0 == x.next_read().0);
        assert(v.owed(r) == choked.owed(r));
    }
}

/// Under Fast, a completed read that does not close the connection answers
/// the read in flight exactly once if it was still owed, and nothing else.
pub proof fn lemma_read_completion_answers_once(
    v: UploadView,
    read: UploadRead,
    result: Result<Vec<u8>, ()>,
    r: BlockRequest,
)
    requires
        v.fast_extension,
        !closes(v.read_completed(read, result).1),
    ensures
        v.owed(r) == v.read_completed(read, result).0.owed(r) + count_answers(
            v.read_completed(read, result).1,
            r,
        ),
{
    if let Some(f) = v.in_flight {
        if f.pending.generation == read.generation && f.pending.request == read.request {
            let w = UploadView {
                in_flight: None,
                pending_bytes: sat_sub(v.pending_bytes as int, read.request.length as int),
                ..v
            };
            lemma_next_read_neutral(w, r);
            match result {
                Err(_) => {
                    let acts = v.read_completed(read, result).1;
                    assert(acts[acts.len() - 1] is Close);
                },
                Ok(block) => {
                    if block@.len() != read.request.length {
                        let acts = v.read_completed(read, result).1;
                        assert(acts[acts.len() - 1] is Close);
                    } else {
                        let answer = if v.fast_extension && !f.terminal_sent {
                            seq![reject(read.request)]
                        } else {
                            Seq::empty()
                        };
                        let sent = if !f.cancelled && !f.terminal_sent && v.interested && (!v.choking
                            || v.allowed_fast.contains(read.request.index)) {
                            seq![
                                UploadAction::Send(
                                    PeerMessage::Piece {
                                        index: read.request.index,
                                        begin: read.request.begin,
                                        block,
                                    },
                                ),
                            ]
                        } else {
                            answer
                        };
                        lemma_count_answers_concat(sent, w.next_read().1, r);
                        assert(seq![reject(read.request)].drop_last() =~= Seq::<UploadAction>::empty());
                        if read.request != r {
                            assert(reject(read.request) != reject(r));
                            if r.index == read.request.index && r.begin == read.request.begin && r.length
                                == read.request.length {
                                assert(r == read.request);
                            }
                        }
                        assert(v.read_completed(read, result).1 == sent + w.next_read().1);
                        assert(v.read_completed(read, result).0 == w.next_read().0);
                        assert(w.owed(r) == count_requests(v.queued, r));
                        if sent.len() == 1 {
                            lemma_count_answers_single(sent[0], r);
                            assert(sent =~= seq![sent[0]]);
                        } else {
                            assert(sent =~= Seq::<UploadAction>::empty());
                        }
                    }
                },
            }
        }
    }
}


/// Pausing or resuming reads answers nothing and leaves every answer owed.
pub proof fn lemma_read_toggle_answers_nothing(v: UploadView, enabled: bool, r: BlockRequest)
    ensures
        (UploadView { read_enabled: enabled, ..v }).next_read().0.owed(r) == v.owed(r),
        count_answers((UploadView { read_enabled: enabled, ..v }).next_read().1, r) == 0,
{
    lemma_next_read_neutral(UploadView { read_enabled: enabled, ..v }, r);
}

} // verus!

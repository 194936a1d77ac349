//! Identifiers, block geometry, configuration and errors of the request
//! scheduler.
//!
//! Times are milliseconds since an origin the caller chooses.
use vstd::prelude::*;

verus! {

/// Largest block one request may ask for.
pub const MAX_REQUEST_BLOCK_LENGTH: u32 = 16_384;

/// Smallest payload allowance that still admits one request block.
pub const MIN_PAYLOAD_ALLOWANCE: usize = 16_384;

pub const DEFAULT_MAX_ESTABLISHED_CONNECTIONS: usize = 30;

pub const DEFAULT_MAX_PENDING_DIALS: usize = 30;

pub const DEFAULT_INITIAL_REQUESTS_PER_CONNECTION: usize = 4;

pub const DEFAULT_MAX_REQUESTS_PER_CONNECTION: usize = 500;

pub const DEFAULT_MAX_ACTIVE_PIECE_BYTES: usize = 268_435_456;

pub const DEFAULT_MAX_ACTIVE_PIECES: usize = 2_048;

pub const DEFAULT_MAX_TERMINAL_ATTEMPTS_PER_BLOCK: usize = 30;

/// Sixty seconds.
pub const DEFAULT_REQUEST_TIMEOUT: u64 = 60_000;

/// Sixty seconds.
pub const DEFAULT_UNPRODUCTIVE_GRACE: u64 = 60_000;

/// Three seconds.
pub const DEFAULT_REQUEST_QUEUE_TIME: u64 = 3_000;

pub const MAX_FAST_ADVISORY_PIECES: usize = 32;

pub const MIN_HEALTHY_REQUESTS_PER_CONNECTION: usize = 2;

/// One second.
pub const REQUEST_RATE_SAMPLE_INTERVAL: u64 = 1_000;

pub const SLOW_START_RATE_SLACK_BYTES: usize = 5_000;

pub const MAX_REQUEST_TIME_SAMPLES: usize = 20;

/// Two seconds.
pub const MIN_ADAPTIVE_REQUEST_TIMEOUT: u64 = 2_000;

#[derive(Clone, Copy, Debug, PartialEq, Eq, Hash, PartialOrd, Ord, Structural)]
pub struct ConnectionId(u64);

impl ConnectionId {
    pub closed spec fn value(self) -> u64 {
        self.0
    }

    pub(crate) fn same(self, other: Self) -> (r: bool)
        ensures
            r == (self == other),
    {
        self.0 == other.0
    }

    pub(crate) fn precedes(self, other: Self) -> (r: bool)
        ensures
            r == (self.value() < other.value()),
    {
        self.0 < other.0
    }

    pub fn new(value: u64) -> (r: Option<Self>)
        ensures
            value == 0 <==> r is None,
            r matches Some(id) ==> id.value() == value,
    {
        if value == 0 {
            None
        } else {
            Some(ConnectionId(value))
        }
    }

    pub fn get(self) -> (r: u64)
        ensures
            r == self.value(),
    {
        self.0
    }
}

/// Distinct connection identifiers carry distinct values.
pub proof fn lemma_connection_id_value(a: ConnectionId, b: ConnectionId)
    requires
        a != b,
    ensures
        a.value() != b.value(),
{
}

#[derive(Clone, Copy, Debug, PartialEq, Eq, Hash, PartialOrd, Ord, Structural)]
pub struct PendingDialId(u64);

impl PendingDialId {
    pub closed spec fn value(self) -> u64 {
        self.0
    }

    pub(crate) fn same(self, other: Self) -> (r: bool)
        ensures
            r == (self == other),
    {
        self.0 == other.0
    }

    pub fn new(value: u64) -> (r: Option<Self>)
        ensures
            value == 0 <==> r is None,
            r matches Some(id) ==> id.value() == value,
    {
        if value == 0 {
            None
        } else {
            Some(PendingDialId(value))
        }
    }

    pub fn get(self) -> (r: u64)
        ensures
            r == self.value(),
    {
        self.0
    }
}

#[derive(Clone, Copy, Debug, PartialEq, Eq, Hash, PartialOrd, Ord, Structural)]
pub struct RequestAttemptId(pub(crate) u64);

impl RequestAttemptId {
    pub closed spec fn value(self) -> u64 {
        self.0
    }

    pub(crate) fn of(value: u64) -> (r: Self)
        ensures
            r.value() == value,
    {
        RequestAttemptId(value)
    }

    pub(crate) fn same(self, other: Self) -> (r: bool)
        ensures
            r == (self == other),
    {
        self.0 == other.0
    }

    pub fn get(self) -> (r: u64)
        ensures
            r == self.value(),
    {
        self.0
    }
}

#[derive(Clone, Copy, Debug, PartialEq, Eq, Hash, PartialOrd, Ord, Structural)]
pub struct PieceGeneration(pub(crate) u64);

impl PieceGeneration {
    pub closed spec fn value(self) -> u64 {
        self.0
    }

    pub(crate) fn first() -> (r: Self)
        ensures
            r.value() == 1,
    {
        PieceGeneration(1)
    }

    /// The generation after this one, unless the counter is exhausted.
    pub(crate) fn next(self) -> (r: Option<Self>)
        ensures
            self.value() == u64::MAX <==> r is None,
            r matches Some(g) ==> g.value() == self.value() + 1,
    {
        match self.0.checked_add(1) {
            Some(v) => Some(PieceGeneration(v)),
            None => None,
        }
    }

    pub(crate) fn same(self, other: Self) -> (r: bool)
        ensures
            r == (self == other),
    {
        self.0 == other.0
    }

    pub fn new(value: u64) -> (r: Option<Self>)
        ensures
            value == 0 <==> r is None,
            r matches Some(g) ==> g.value() == value,
    {
        if value == 0 {
            None
        } else {
            Some(PieceGeneration(value))
        }
    }

    pub fn get(self) -> (r: u64)
        ensures
            r == self.value(),
    {
        self.0
    }
}

/// A wire request: the piece, the offset inside it and the length.
#[derive(Clone, Copy, Debug, PartialEq, Eq, Structural)]
pub struct BlockRequest {
    pub index: u32,
    pub begin: u32,
    pub length: u32,
}

#[derive(Clone, Copy, Debug, PartialEq, Eq, Hash, PartialOrd, Ord, Structural)]
pub struct BlockKey {
    pub piece: u32,
    pub begin: u32,
    pub length: u32,
}

/// A block is non-empty, at most one request long, and ends inside `u32`.
pub open spec fn valid_block(begin: u32, length: u32) -> bool {
    0 < length <= MAX_REQUEST_BLOCK_LENGTH && begin + length <= u32::MAX
}

impl BlockKey {
    pub open spec fn end(self) -> int {
        self.begin + self.length
    }

    pub fn new(piece: u32, begin: u32, length: u32) -> (r: Result<Self, SwarmError>)
        ensures
            valid_block(begin, length) ==> r == Ok::<Self, SwarmError>(BlockKey { piece, begin, length }),
            !valid_block(begin, length) ==> r == Err::<Self, SwarmError>(
                SwarmError::InvalidBlock { piece, begin, length },
            ),
    {
        if length == 0 || length > MAX_REQUEST_BLOCK_LENGTH || begin.checked_add(length).is_none() {
            return Err(SwarmError::InvalidBlock { piece, begin, length });
        }
        Ok(BlockKey { piece, begin, length })
    }

    pub fn request(self) -> (r: BlockRequest)
        ensures
            r == (BlockRequest { index: self.piece, begin: self.begin, length: self.length }),
    {
        BlockRequest { index: self.piece, begin: self.begin, length: self.length }
    }

    pub fn same(&self, other: &BlockKey) -> (r: bool)
        ensures
            r == (*self == *other),
    {
        self.piece == other.piece && self.begin == other.begin && self.length == other.length
    }
}

/// Blocks of one piece, each valid, in strictly increasing and
/// non-overlapping order of offset.
pub open spec fn well_planned(index: u32, blocks: Seq<BlockKey>) -> bool {
    &&& blocks.len() > 0
    &&& forall|i: int|
        0 <= i < blocks.len() ==> (#[trigger] blocks[i]).piece == index && valid_block(
            blocks[i].begin,
            blocks[i].length,
        )
    &&& forall|i: int, j: int|
        #![trigger blocks[i], blocks[j]]
        0 <= i < j < blocks.len() ==> blocks[i].end() <= blocks[j].begin
}

/// The wanted blocks of one piece.
#[derive(Clone, Debug, PartialEq, Eq)]
pub struct PiecePlan {
    index: u32,
    blocks: Vec<BlockKey>,
}

/// Some two of the ranges overlap.
pub open spec fn ranges_overlap(ranges: Seq<(u32, u32)>) -> bool {
    exists|i: int, j: int|
        #![trigger ranges[i], ranges[j]]
        0 <= i < ranges.len() && 0 <= j < ranges.len() && i != j && ranges[i].0 <= ranges[j].0
            && ranges[j].0 < ranges[i].0 + ranges[i].1
}

/// The first range, in the given order, that is not a valid block.
pub open spec fn first_invalid(ranges: Seq<(u32, u32)>, k: int) -> Option<int>
    decreases ranges.len() - k,
{
    if k < 0 || k >= ranges.len() {
        None
    } else if !valid_block(ranges[k].0, ranges[k].1) {
        Some(k)
    } else {
        first_invalid(ranges, k + 1)
    }
}

impl PiecePlan {
    pub closed spec fn index_view(&self) -> u32 {
        self.index
    }

    pub closed spec fn blocks_view(&self) -> Seq<BlockKey> {
        self.blocks@
    }

    pub open spec fn wf(&self) -> bool {
        well_planned(self.index_view(), self.blocks_view())
    }

    pub fn new(index: u32, ranges: &[(u32, u32)]) -> (r: Result<Self, SwarmError>)
        ensures
            ranges@.len() == 0 ==> r == Err::<Self, SwarmError>(SwarmError::EmptyPiecePlan(index)),
            ranges@.len() > 0 ==> (first_invalid(ranges@, 0) matches Some(k) ==> r == Err::<
                Self,
                SwarmError,
            >(SwarmError::InvalidBlock { piece: index, begin: ranges@[k].0, length: ranges@[k].1 })),
            ranges@.len() > 0 && first_invalid(ranges@, 0) is None && ranges_overlap(ranges@) ==> r
                == Err::<Self, SwarmError>(SwarmError::OverlappingBlocks(index)),
            ranges@.len() > 0 && first_invalid(ranges@, 0) is None && !ranges_overlap(ranges@) ==> (
            r matches Ok(plan) && plan.wf() && plan.index_view() == index && plan.blocks_view().len()
                == ranges@.len() && (forall|i: int|
                0 <= i < ranges@.len() ==> plan.blocks_view().contains(
                    #[trigger] range_block(index, ranges@[i]),
                )) && (forall|j: int|
                0 <= j < plan.blocks_view().len() ==> exists|i: int|
                    0 <= i < ranges@.len() && #[trigger] plan.blocks_view()[j] == range_block(
                        index,
                        ranges@[i],
                    ))),
    {
        if ranges.len() == 0 {
            return Err(SwarmError::EmptyPiecePlan(index));
        }
        let n = ranges.len();
        let mut i: usize = 0;
        while i < n
            invariant
                n == ranges@.len(),
                i <= n,
                first_invalid(ranges@, 0) == first_invalid(ranges@, i as int),
            decreases n - i,
        {
            let (begin, length) = ranges[i];
            match BlockKey::new(index, begin, length) {
                Ok(_) => {},
                Err(e) => {
                    return Err(e);
                },
            }
            i += 1;
        }
        proof {
            lemma_first_invalid_all(ranges@, 0);
        }
        let mut a: usize = 0;
        while a < n
            invariant
                n == ranges@.len(),
                a <= n,
                first_invalid(ranges@, 0) is None,
                forall|x: int, y: int|
                    #![trigger ranges@[x], ranges@[y]]
                    0 <= x < a && 0 <= y < n && x != y ==> !(ranges@[x].0 <= ranges@[y].0
                        && ranges@[y].0 < ranges@[x].0 + ranges@[x].1),
            decreases n - a,
        {
            let mut b: usize = 0;
            while b < n
                invariant
                    n == ranges@.len(),
                    a < n,
                    b <= n,
                    first_invalid(ranges@, 0) is None,
                    forall|x: int, y: int|
                        #![trigger ranges@[x], ranges@[y]]
                        0 <= x < a && 0 <= y < n && x != y ==> !(ranges@[x].0 <= ranges@[y].0
                            && ranges@[y].0 < ranges@[x].0 + ranges@[x].1),
                    forall|y: int|
                        #![trigger ranges@[y]]
                        0 <= y < b && a != y ==> !(ranges@[a as int].0 <= ranges@[y].0
                            && ranges@[y].0 < ranges@[a as int].0 + ranges@[a as int].1),
                decreases n - b,
            {
                let (begin_a, length_a) = ranges[a];
                let (begin_b, _) = ranges[b];
                if a != b && begin_a <= begin_b && (begin_b as u64) < begin_a as u64
                    + length_a as u64 {
                    return Err(SwarmError::OverlappingBlocks(index));
                }
                b += 1;
            }
            a += 1;
        }
        assert(!ranges_overlap(ranges@));
        let mut blocks: Vec<BlockKey> = Vec::new();
        let mut last: i64 = -1;
        proof {
            lemma_count_below_all(ranges@);
        }
        loop
            invariant
                n == ranges@.len(),
                !ranges_overlap(ranges@),
                forall|k: int| 0 <= k < n ==> valid_block((#[trigger] ranges@[k]).0, ranges@[k].1),
                -1 <= last <= u32::MAX,
                blocks@.len() == 0 ==> last == -1,
                blocks@.len() > 0 ==> last == blocks@.last().begin,
                forall|x: int|
                    0 <= x < blocks@.len() ==> exists|k: int|
                        0 <= k < n && #[trigger] blocks@[x] == range_block(index, ranges@[k]),
                forall|k: int|
                    0 <= k < n ==> (ranges@[k].0 <= last <==> blocks@.contains(
                        #[trigger] range_block(index, ranges@[k]),
                    )),
                forall|x: int, y: int|
                    #![trigger blocks@[x], blocks@[y]]
                    0 <= x < y < blocks@.len() ==> blocks@[x].end() <= blocks@[y].begin,
                forall|x: int| 0 <= x < blocks@.len() ==> (#[trigger] blocks@[x]).begin <= last,
                blocks@.len() == count_at_most(ranges@, last as int),
            ensures
                forall|x: int| 0 <= x < n ==> #[trigger] ranges@[x].0 <= last,
            decreases u32::MAX - last,
        {
            let mut best: Option<usize> = None;
            let mut k: usize = 0;
            while k < n
                invariant
                    n == ranges@.len(),
                    k <= n,
                    best matches Some(j) ==> j < n && ranges@[j as int].0 > last && forall|x: int|
                        0 <= x < k && #[trigger] ranges@[x].0 > last ==> ranges@[j as int].0
                            <= ranges@[x].0,
                    best is None ==> forall|x: int| 0 <= x < k ==> #[trigger] ranges@[x].0 <= last,
                decreases n - k,
            {
                let (begin, _) = ranges[k];
                if begin as i64 > last {
                    match best {
                        None => {
                            best = Some(k);
                        },
                        Some(j) => {
                            let (best_begin, _) = ranges[j];
                            if begin < best_begin {
                                best = Some(k);
                            }
                        },
                    }
                }
                k += 1;
            }
            match best {
                None => {
                    break ;
                },
                Some(j) => {
                    let (begin, length) = ranges[j];
                    let ghost before = blocks@;
                    let block = BlockKey { piece: index, begin, length };
                    blocks.push(block);
                    proof {
                        lemma_begins_distinct(ranges@);
                        assert forall|k: int|
                            0 <= k < n implies (ranges@[k].0 <= begin <==> blocks@.contains(
                            #[trigger] range_block(index, ranges@[k]),
                        )) by {
                            if ranges@[k].0 == begin {
                                assert(ranges@[k] == ranges@[j as int]);
                                assert(blocks@[before.len() as int] == range_block(index, ranges@[k]));
                            } else if ranges@[k].0 <= last {
                                assert(before.contains(range_block(index, ranges@[k])));
                                let w = choose|w: int| 0 <= w < before.len() && before[w] == range_block(index, ranges@[k]);
                                assert(blocks@[w] == before[w]);
                            } else {
                                if blocks@.contains(range_block(index, ranges@[k])) {
                                    let w = choose|w: int| 0 <= w < blocks@.len() && blocks@[w] == range_block(index, ranges@[k]);
                                    if w < before.len() {
                                        assert(before[w].begin <= last);
                                    }
                                }
                            }
                        }
                        assert forall|x: int, y: int|
                            #![trigger blocks@[x], blocks@[y]]
                            0 <= x < y < blocks@.len() implies blocks@[x].end() <= blocks@[y].begin by {
                            if y == before.len() {
                                let kx = choose|kx: int| 0 <= kx < n && before[x] == range_block(index, ranges@[kx]);
                                assert(ranges@[kx].0 <= last);
                                assert(kx != j);
                                assert(!(ranges@[kx].0 <= ranges@[j as int].0 && ranges@[j as int].0 < ranges@[kx].0 + ranges@[kx].1));
                            } else {
                                assert(blocks@[x] == before[x] && blocks@[y] == before[y]);
                            }
                        }
                        assert forall|x: int|
                            0 <= x < blocks@.len() implies exists|k: int|
                                0 <= k < n && #[trigger] blocks@[x] == range_block(index, ranges@[k]) by {
                            if x < before.len() {
                                assert(blocks@[x] == before[x]);
                            } else {
                                assert(blocks@[x] == range_block(index, ranges@[j as int]));
                            }
                        }
                    }
                    proof {
                        assert forall|x: int| 0 <= x < n && x != j implies !(last < #[trigger] ranges@[x].0 <= begin) by {
                            if last < ranges@[x].0 && ranges@[x].0 <= begin {
                                assert(ranges@[j as int].0 <= ranges@[x].0);
                            }
                        }
                        lemma_count_step(ranges@, last as int, begin as int, j as int);
                    }
                    last = begin as i64;
                },
            }
        }
        let plan = PiecePlan { index, blocks };
        proof {
            lemma_count_all(ranges@, last as int);
            assert(blocks@.len() > 0) by {
                assert(ranges@[0].0 <= last);
                assert(blocks@.contains(range_block(index, ranges@[0])));
            }
            assert forall|x: int|
                0 <= x < blocks@.len() implies (#[trigger] blocks@[x]).piece == index && valid_block(
                blocks@[x].begin,
                blocks@[x].length,
            ) by {
                let k = choose|k: int| 0 <= k < n && blocks@[x] == range_block(index, ranges@[k]);
                assert(valid_block(ranges@[k].0, ranges@[k].1));
            }
        }
        Ok(plan)
    }

    pub fn index(&self) -> (r: u32)
        ensures
            r == self.index_view(),
    {
        self.index
    }

    pub fn blocks(&self) -> (r: &[BlockKey])
        ensures
            r@ == self.blocks_view(),
    {
        self.blocks.as_slice()
    }

    pub(crate) fn into_blocks(self) -> (r: Vec<BlockKey>)
        ensures
            r@ == self.blocks_view(),
    {
        self.blocks
    }
}

/// The block a range of piece `index` names.
pub open spec fn range_block(index: u32, range: (u32, u32)) -> BlockKey {
    BlockKey { piece: index, begin: range.0, length: range.1 }
}

/// Once the search for an invalid range found none, every range is valid.
proof fn lemma_first_invalid_all(ranges: Seq<(u32, u32)>, k: int)
    requires
        0 <= k <= ranges.len(),
        first_invalid(ranges, k) is None,
    ensures
        forall|j: int| k <= j < ranges.len() ==> valid_block((#[trigger] ranges[j]).0, ranges[j].1),
    decreases ranges.len() - k,
{
    if k < ranges.len() {
        lemma_first_invalid_all(ranges, k + 1);
    }
}

/// Valid ranges that do not overlap start at distinct offsets.
proof fn lemma_begins_distinct(ranges: Seq<(u32, u32)>)
    requires
        !ranges_overlap(ranges),
        forall|k: int| 0 <= k < ranges.len() ==> valid_block((#[trigger] ranges[k]).0, ranges[k].1),
    ensures
        forall|x: int, y: int|
            #![trigger ranges[x], ranges[y]]
            0 <= x < ranges.len() && 0 <= y < ranges.len() && ranges[x].0 == ranges[y].0 ==> x == y,
{
    assert forall|x: int, y: int|
        #![trigger ranges[x], ranges[y]]
        0 <= x < ranges.len() && 0 <= y < ranges.len() && ranges[x].0 == ranges[y].0 implies x == y by {
        if x != y {
            assert(valid_block(ranges[x].0, ranges[x].1));
            assert(ranges[x].0 <= ranges[y].0 && ranges[y].0 < ranges[x].0 + ranges[x].1);
        }
    }
}

#[derive(Clone, Copy, Debug, PartialEq, Eq, Structural)]
pub enum PieceActivationPolicy {
    RarestFirst,
    InOrder,
}

#[derive(Clone, Copy, Debug, PartialEq, Eq)]
pub struct SwarmConfig {
    pub max_established_connections: usize,
    pub max_pending_dials: usize,
    pub initial_requests_per_connection: usize,
    pub max_requests_per_connection: usize,
    pub max_active_piece_bytes: usize,
    pub max_active_pieces: usize,
    pub piece_activation_policy: PieceActivationPolicy,
    pub max_terminal_attempts_per_block: usize,
    pub max_outstanding_request_bytes: usize,
    /// Milliseconds.
    pub request_timeout: u64,
    /// Milliseconds.
    pub request_queue_time: u64,
    /// Milliseconds.
    pub unproductive_grace: u64,
}

/// The configuration error `validate` reports, if any, in the order it checks.
pub open spec fn config_problem(c: SwarmConfig) -> Option<&'static str> {
    if c.max_established_connections == 0 {
        Some(ERR_ESTABLISHED_LIMIT)
    } else if c.max_pending_dials == 0 {
        Some(ERR_DIAL_LIMIT)
    } else if c.max_requests_per_connection < MIN_HEALTHY_REQUESTS_PER_CONNECTION {
        Some(ERR_CONNECTION_REQUEST_LIMIT)
    } else if c.initial_requests_per_connection < MIN_HEALTHY_REQUESTS_PER_CONNECTION
        || c.initial_requests_per_connection > c.max_requests_per_connection {
        Some(ERR_INITIAL_WINDOW)
    } else if c.max_active_piece_bytes < MIN_PAYLOAD_ALLOWANCE {
        Some(ERR_WORKING_SET)
    } else if c.max_active_pieces == 0 {
        Some(ERR_ACTIVE_PIECES)
    } else if c.max_established_connections > u16::MAX as usize {
        Some(ERR_COUNTER_WIDTH)
    } else if c.max_terminal_attempts_per_block == 0 {
        Some(ERR_TERMINAL_ATTEMPTS)
    } else if c.max_outstanding_request_bytes < MIN_PAYLOAD_ALLOWANCE {
        Some(ERR_OUTSTANDING_LIMIT)
    } else if c.request_timeout == 0 || c.request_queue_time == 0 || c.unproductive_grace == 0 {
        Some(ERR_TIMES)
    } else {
        None
    }
}

pub const ERR_ESTABLISHED_LIMIT: &'static str = "established connection limit must be nonzero";

pub const ERR_DIAL_LIMIT: &'static str = "pending dial limit must be nonzero";

pub const ERR_CONNECTION_REQUEST_LIMIT: &'static str =
    "per-connection request limit must permit a healthy window";

pub const ERR_INITIAL_WINDOW: &'static str =
    "initial request window must be healthy and within the connection limit";

pub const ERR_WORKING_SET: &'static str =
    "active piece working set is smaller than one request block";

pub const ERR_ACTIVE_PIECES: &'static str = "active piece count limit must be nonzero";

pub const ERR_COUNTER_WIDTH: &'static str =
    "established connection limit exceeds availability counter width";

pub const ERR_TERMINAL_ATTEMPTS: &'static str = "terminal attempt retention must be nonzero";

pub const ERR_OUTSTANDING_LIMIT: &'static str =
    "outstanding request limit is smaller than one request block";

pub const ERR_TIMES: &'static str =
    "request queue, request, and unproductive times must be nonzero";

impl SwarmConfig {
    /// A configuration that validation accepts.
    pub open spec fn valid(self) -> bool {
        config_problem(self) is None
    }

    pub fn for_request_limit(max_outstanding_request_bytes: usize) -> (r: Self)
        ensures
            r == (SwarmConfig {
                max_established_connections: DEFAULT_MAX_ESTABLISHED_CONNECTIONS,
                max_pending_dials: DEFAULT_MAX_PENDING_DIALS,
                initial_requests_per_connection: DEFAULT_INITIAL_REQUESTS_PER_CONNECTION,
                max_requests_per_connection: DEFAULT_MAX_REQUESTS_PER_CONNECTION,
                max_active_piece_bytes: DEFAULT_MAX_ACTIVE_PIECE_BYTES,
                max_active_pieces: DEFAULT_MAX_ACTIVE_PIECES,
                piece_activation_policy: PieceActivationPolicy::RarestFirst,
                max_terminal_attempts_per_block: DEFAULT_MAX_TERMINAL_ATTEMPTS_PER_BLOCK,
                max_outstanding_request_bytes,
                request_timeout: DEFAULT_REQUEST_TIMEOUT,
                request_queue_time: DEFAULT_REQUEST_QUEUE_TIME,
                unproductive_grace: DEFAULT_UNPRODUCTIVE_GRACE,
            }),
    {
        SwarmConfig {
            max_established_connections: DEFAULT_MAX_ESTABLISHED_CONNECTIONS,
            max_pending_dials: DEFAULT_MAX_PENDING_DIALS,
            initial_requests_per_connection: DEFAULT_INITIAL_REQUESTS_PER_CONNECTION,
            max_requests_per_connection: DEFAULT_MAX_REQUESTS_PER_CONNECTION,
            max_active_piece_bytes: DEFAULT_MAX_ACTIVE_PIECE_BYTES,
            max_active_pieces: DEFAULT_MAX_ACTIVE_PIECES,
            piece_activation_policy: PieceActivationPolicy::RarestFirst,
            max_terminal_attempts_per_block: DEFAULT_MAX_TERMINAL_ATTEMPTS_PER_BLOCK,
            max_outstanding_request_bytes,
            request_timeout: DEFAULT_REQUEST_TIMEOUT,
            request_queue_time: DEFAULT_REQUEST_QUEUE_TIME,
            unproductive_grace: DEFAULT_UNPRODUCTIVE_GRACE,
        }
    }

    pub fn validate(self) -> (r: Result<Self, SwarmError>)
        ensures
            config_problem(self) matches Some(m) ==> r == Err::<Self, SwarmError>(
                SwarmError::InvalidConfig(m),
            ),
            config_problem(self) is None ==> r == Ok::<Self, SwarmError>(self),
    {
        if self.max_established_connections == 0 {
            return Err(SwarmError::InvalidConfig(ERR_ESTABLISHED_LIMIT));
        }
        if self.max_pending_dials == 0 {
            return Err(SwarmError::InvalidConfig(ERR_DIAL_LIMIT));
        }
        if self.max_requests_per_connection < MIN_HEALTHY_REQUESTS_PER_CONNECTION {
            return Err(SwarmError::InvalidConfig(ERR_CONNECTION_REQUEST_LIMIT));
        }
        if self.initial_requests_per_connection < MIN_HEALTHY_REQUESTS_PER_CONNECTION
            || self.initial_requests_per_connection > self.max_requests_per_connection {
            return Err(SwarmError::InvalidConfig(ERR_INITIAL_WINDOW));
        }
        if self.max_active_piece_bytes < MIN_PAYLOAD_ALLOWANCE {
            return Err(SwarmError::InvalidConfig(ERR_WORKING_SET));
        }
        if self.max_active_pieces == 0 {
            return Err(SwarmError::InvalidConfig(ERR_ACTIVE_PIECES));
        }
        if self.max_established_connections > 65_535 {
            return Err(SwarmError::InvalidConfig(ERR_COUNTER_WIDTH));
        }
        if self.max_terminal_attempts_per_block == 0 {
            return Err(SwarmError::InvalidConfig(ERR_TERMINAL_ATTEMPTS));
        }
        if self.max_outstanding_request_bytes < MIN_PAYLOAD_ALLOWANCE {
            return Err(SwarmError::InvalidConfig(ERR_OUTSTANDING_LIMIT));
        }
        if self.request_timeout == 0 || self.request_queue_time == 0 || self.unproductive_grace
            == 0 {
            return Err(SwarmError::InvalidConfig(ERR_TIMES));
        }
        Ok(self)
    }
}

#[derive(Clone, Copy, Debug, PartialEq, Eq, Structural)]
pub enum RequestDisposition {
    Requested,
    PayloadReceived,
    Expired,
    Choked,
    Rejected,
    Disconnected,
    Superseded,
    Cancelled,
}

#[derive(Clone, Copy, Debug, PartialEq, Eq, Structural)]
pub struct RequestAttempt {
    pub id: RequestAttemptId,
    pub block: BlockKey,
    pub connection: ConnectionId,
    /// Milliseconds.
    pub issued_at: u64,
    pub disposition: RequestDisposition,
}

impl RequestAttempt {
    /// The attempt still owns its request.
    pub open spec fn active(self) -> bool {
        self.disposition == RequestDisposition::Requested
    }
}

#[derive(Clone, Copy, Debug, PartialEq, Eq, Structural)]
pub struct RequestAssignment {
    pub attempt: RequestAttemptId,
    pub connection: ConnectionId,
    pub block: BlockKey,
}

#[derive(Clone, Copy, Debug, PartialEq, Eq, Structural)]
pub struct ExpiredRequest {
    pub attempt: RequestAttemptId,
    pub connection: ConnectionId,
    pub block: BlockKey,
}

#[derive(Clone, Copy, Debug, PartialEq, Eq, Structural)]
pub struct RequestCancellation {
    pub attempt: RequestAttemptId,
    pub connection: ConnectionId,
    pub block: BlockKey,
}

#[derive(Clone, Copy, Debug, PartialEq, Eq, Structural)]
pub enum RejectDisposition {
    Accepted { attempt: RequestAttemptId },
    NeverRequested,
    Stale,
}

#[derive(Clone, Copy, Debug, PartialEq, Eq, Structural)]
pub struct FastPeerSnapshot {
    pub negotiated: bool,
    pub initial_availability_received: bool,
    pub suggestions: usize,
    pub allowed_fast: usize,
}

#[derive(Clone, Debug, PartialEq, Eq)]
pub struct PieceHashFailure {
    pub piece: u32,
    pub contributors: Vec<ConnectionId>,
    pub failed_bytes: usize,
}

#[derive(Clone, Debug, PartialEq, Eq)]
pub enum ReceiveDisposition {
    Accept { evidence: RequestAttemptId, cancellations: Vec<RequestCancellation>, late: bool },
    Redundant,
    Unsolicited,
}

#[derive(Clone, Copy, Debug, PartialEq, Eq, Structural)]
pub enum BlockStatus {
    Missing,
    Requested,
    Writing,
    Received,
    Verified,
}

/// A peer wire message, as far as the swarm's Fast-extension bookkeeping
/// reads it.
#[derive(Clone, Debug, PartialEq, Eq)]
pub enum PeerMessage {
    KeepAlive,
    Choke,
    Unchoke,
    Interested,
    NotInterested,
    Have(u32),
    Bitfield(Vec<u8>),
    Request(BlockRequest),
    Piece { index: u32, begin: u32, block: Vec<u8> },
    Cancel(BlockRequest),
    SuggestPiece(u32),
    HaveAll,
    HaveNone,
    RejectRequest(BlockRequest),
    AllowedFast(u32),
}

impl PeerMessage {
    /// A message that only the Fast extension defines.
    pub open spec fn is_fast(&self) -> bool {
        ||| self is SuggestPiece
        ||| self is HaveAll
        ||| self is HaveNone
        ||| self is RejectRequest
        ||| self is AllowedFast
    }

    /// A message that announces the peer's initial availability.
    pub open spec fn is_initial_availability(&self) -> bool {
        ||| self is Bitfield
        ||| self is HaveAll
        ||| self is HaveNone
    }

    /// A message that only makes sense once availability is known.
    pub open spec fn needs_availability(&self) -> bool {
        ||| self.is_fast()
        ||| self is Have
        ||| self is Request
        ||| self is Cancel
        ||| self is Piece
    }
}

#[derive(Clone, Copy, Debug, PartialEq, Eq, Structural)]
pub enum NoRequestReason {
    Complete,
    NoConnections,
    AllUsefulPeersChoked,
    NoPeerHasWantedPiece,
    OutstandingRequestLimit,
    RequestWindowsFull,
    ActivePieceLimit,
}

#[derive(Clone, Copy, Debug, PartialEq, Eq, Structural)]
pub enum ConnectionRemoval {
    Disconnected,
    Replaced,
    Cancelled,
}

#[derive(Clone, Copy, Debug, PartialEq, Eq)]
pub enum SwarmError {
    InvalidConfig(&'static str),
    InvalidBlock { piece: u32, begin: u32, length: u32 },
    EmptyPiecePlan(u32),
    OverlappingBlocks(u32),
    PieceOutOfRange { piece: u32, piece_count: usize },
    DuplicatePiecePlan(u32),
    DuplicateBlock(BlockKey),
    UnknownPiece(u32),
    UnknownBlock(BlockKey),
    StalePieceGeneration { expected: PieceGeneration, actual: PieceGeneration },
    DuplicatePendingDial(PendingDialId),
    UnknownPendingDial(PendingDialId),
    PendingDialCapacity,
    DuplicateConnection(ConnectionId),
    UnknownConnection(ConnectionId),
    ConnectionCapacity,
    InvalidAvailability { actual: usize, expected: usize },
    InvalidTransition(&'static str),
    IdentifierOverflow(&'static str),
    ArithmeticOverflow(&'static str),
    Invariant(&'static str),
}


/// How many of the ranges begin at or before `bound`.
pub open spec fn count_at_most(ranges: Seq<(u32, u32)>, bound: int) -> nat
    decreases ranges.len(),
{
    if ranges.len() == 0 {
        0
    } else {
        count_at_most(ranges.drop_last(), bound) + if ranges.last().0 <= bound {
            1nat
        } else {
            0nat
        }
    }
}

proof fn lemma_count_below_all(ranges: Seq<(u32, u32)>)
    ensures
        count_at_most(ranges, -1) == 0,
    decreases ranges.len(),
{
    if ranges.len() > 0 {
        lemma_count_below_all(ranges.drop_last());
    }
}

proof fn lemma_count_all(ranges: Seq<(u32, u32)>, bound: int)
    requires
        forall|x: int| 0 <= x < ranges.len() ==> #[trigger] ranges[x].0 <= bound,
    ensures
        count_at_most(ranges, bound) == ranges.len(),
    decreases ranges.len(),
{
    if ranges.len() > 0 {
        assert forall|x: int| 0 <= x < ranges.drop_last().len() implies #[trigger] ranges.drop_last()[x].0 <= bound by {
            assert(ranges.drop_last()[x] == ranges[x]);
        }
        lemma_count_all(ranges.drop_last(), bound);
    }
}

proof fn lemma_count_same(ranges: Seq<(u32, u32)>, lo: int, hi: int)
    requires
        lo <= hi,
        forall|x: int| 0 <= x < ranges.len() ==> !(lo < #[trigger] ranges[x].0 <= hi),
    ensures
        count_at_most(ranges, hi) == count_at_most(ranges, lo),
    decreases ranges.len(),
{
    if ranges.len() > 0 {
        assert forall|x: int| 0 <= x < ranges.drop_last().len() implies !(lo < #[trigger] ranges.drop_last()[x].0 <= hi) by {
            assert(ranges.drop_last()[x] == ranges[x]);
        }
        lemma_count_same(ranges.drop_last(), lo, hi);
        assert(!(lo < ranges[ranges.len() - 1].0 <= hi));
    }
}

/// Moving the bound past exactly one more range begin counts it.
proof fn lemma_count_step(ranges: Seq<(u32, u32)>, lo: int, hi: int, j: int)
    requires
        lo < hi,
        0 <= j < ranges.len(),
        ranges[j].0 == hi,
        forall|x: int| 0 <= x < ranges.len() && x != j ==> !(lo < #[trigger] ranges[x].0 <= hi),
    ensures
        count_at_most(ranges, hi) == count_at_most(ranges, lo) + 1,
    decreases ranges.len(),
{
    let d = ranges.drop_last();
    if j == ranges.len() - 1 {
        assert forall|x: int| 0 <= x < d.len() implies !(lo < #[trigger] d[x].0 <= hi) by {
            assert(d[x] == ranges[x]);
        }
        lemma_count_same(d, lo, hi);
    } else {
        assert(d[j] == ranges[j]);
        assert forall|x: int| 0 <= x < d.len() && x != j implies !(lo < #[trigger] d[x].0 <= hi) by {
            assert(d[x] == ranges[x]);
        }
        lemma_count_step(d, lo, hi, j);
        assert(!(lo < ranges[ranges.len() - 1].0 <= hi));
    }
}

} // verus!

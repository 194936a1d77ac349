//! Per-piece availability and the order in which wanted pieces are planned.
//!
//! Availability of a piece is the number of connected peers that announced it
//! individually plus the number of seeds. Rarest-first ranks pieces by
//! availability and then by index; in-order ranks them by index alone.
use vstd::prelude::*;
use crate::swarm_types::PieceActivationPolicy;

verus! {

/// Most candidates one planning sweep inspects.
pub const MAX_PICKER_SWEEP: usize = 256;

pub const ERR_PIECE_RANGE: &'static str = "picker piece is outside the torrent";

pub const ERR_NOT_RESERVED: &'static str = "piece is not reserved for planning";

pub const ERR_COUNTER: &'static str = "availability counter is out of range";

#[derive(Clone, Copy, Debug, PartialEq, Eq, Structural)]
pub struct PickerCounters {
    pub rank_comparisons: u64,
    pub single_piece_updates: u64,
    pub bulk_rebuilds: u64,
    pub candidate_inspections: u64,
}

#[derive(Debug)]
pub struct AvailabilityPicker {
    pub counts: Vec<u32>,
    pub seed_count: u32,
    pub wanted: Vec<bool>,
    pub planned: Vec<bool>,
    pub reserved: Vec<bool>,
    pub completed: Vec<bool>,
    pub policy: PieceActivationPolicy,
    /// The last candidate a sweep inspected without finding work, if the
    /// next sweep resumes after it.
    pub cursor: Option<u32>,
    pub counters: PickerCounters,
}

/// `a` ranks before `b`: rarer first (then lower index), or lower index in order.
pub open spec fn ranks_before(policy: PieceActivationPolicy, avail_a: int, a: int, avail_b: int, b: int) -> bool {
    match policy {
        PieceActivationPolicy::RarestFirst => avail_a < avail_b || (avail_a == avail_b && a < b),
        PieceActivationPolicy::InOrder => a < b,
    }
}

impl AvailabilityPicker {
    pub open spec fn piece_count(&self) -> int {
        self.counts@.len() as int
    }

    pub open spec fn wf(&self) -> bool {
        &&& self.wanted@.len() == self.counts@.len()
        &&& self.planned@.len() == self.counts@.len()
        &&& self.reserved@.len() == self.counts@.len()
        &&& self.completed@.len() == self.counts@.len()
        &&& self.counts@.len() <= u32::MAX
    }

    /// Peers that have `piece`, seeds included.
    pub open spec fn avail(&self, piece: int) -> int {
        self.counts@[piece] + self.seed_count
    }

    pub open spec fn precedes_spec(&self, a: int, b: int) -> bool {
        ranks_before(self.policy, self.avail(a), a, self.avail(b), b)
    }

    /// A wanted piece that nobody planned, reserved or completed and that some
    /// peer has.
    pub open spec fn candidate(&self, piece: int) -> bool {
        &&& 0 <= piece < self.piece_count()
        &&& self.wanted@[piece]
        &&& !self.planned@[piece]
        &&& !self.reserved@[piece]
        &&& !self.completed@[piece]
        &&& self.avail(piece) > 0
    }

    pub open spec fn wanted_remaining_spec(&self) -> nat {
        count_wanted(self.wanted@, self.completed@, self.piece_count())
    }

    pub fn new(piece_count: usize, wanted: Vec<u32>, policy: PieceActivationPolicy, seed: u64) -> (r:
        Result<Self, &'static str>)
        requires
            piece_count <= u32::MAX,
        ensures
            (forall|i: int| 0 <= i < wanted@.len() ==> #[trigger] wanted@[i] < piece_count) <==> r is Ok,
            r matches Ok(p) ==> {
                &&& p.wf()
                &&& p.piece_count() == piece_count
                &&& p.seed_count == 0
                &&& p.policy == policy
                &&& p.cursor is None
                &&& forall|i: int| 0 <= i < piece_count ==> #[trigger] p.counts@[i] == 0 && !p.planned@[i]
                    && !p.reserved@[i] && !p.completed@[i]
                &&& forall|i: int|
                    0 <= i < piece_count ==> (#[trigger] p.wanted@[i] <==> wanted@.contains(i as u32))
            },
    {
        let mut flags: Vec<bool> = Vec::new();
        let mut i: usize = 0;
        while i < piece_count
            invariant
                i <= piece_count,
                flags@.len() == i,
                forall|k: int| 0 <= k < i ==> !#[trigger] flags@[k],
            decreases piece_count - i,
        {
            flags.push(false);
            i += 1;
        }
        let mut j: usize = 0;
        while j < wanted.len()
            invariant
                j <= wanted@.len(),
                piece_count <= u32::MAX,
                flags@.len() == piece_count,
                forall|k: int| 0 <= k < j ==> #[trigger] wanted@[k] < piece_count,
                forall|p: int|
                    0 <= p < piece_count ==> (#[trigger] flags@[p] <==> exists|k: int|
                        0 <= k < j && wanted@[k] == p as u32),
            decreases wanted@.len() - j,
        {
            let piece = wanted[j];
            if piece as usize >= piece_count {
                return Err(ERR_PIECE_RANGE);
            }
            flags.set(piece as usize, true);
            proof {
                assert forall|p: int| 0 <= p < piece_count implies (#[trigger] flags@[p] <==> exists|k: int|
                    0 <= k < j + 1 && wanted@[k] == p as u32) by {
                    if p == piece as int {
                        assert(wanted@[j as int] == p as u32);
                    }
                }
            }
            j += 1;
        }
        let counts = zeros(piece_count);
        let planned = falses(piece_count);
        let reserved = falses(piece_count);
        let completed = falses(piece_count);
        let r = AvailabilityPicker {
            counts,
            seed_count: 0,
            wanted: flags,
            planned,
            reserved,
            completed,
            policy,
            cursor: None,
            counters: PickerCounters {
                rank_comparisons: 0,
                single_piece_updates: 0,
                bulk_rebuilds: 0,
                candidate_inspections: 0,
            },
        };
        proof {
            assert forall|p: int| 0 <= p < piece_count implies (#[trigger] r.wanted@[p] <==> wanted@.contains(
                p as u32,
            )) by {
                if r.wanted@[p] {
                    let k = choose|k: int| 0 <= k < wanted@.len() && wanted@[k] == p as u32;
                    assert(wanted@[k] == p as u32);
                }
                if wanted@.contains(p as u32) {
                    let k = choose|k: int| 0 <= k < wanted@.len() && wanted@[k] == p as u32;
                    assert(wanted@[k] < piece_count);
                }
            }
        }
        Ok(r)
    }

    pub fn policy(&self) -> (r: PieceActivationPolicy)
        ensures
            r == self.policy,
    {
        self.policy
    }

    pub fn seed_count(&self) -> (r: u32)
        ensures
            r == self.seed_count,
    {
        self.seed_count
    }

    pub fn counters(&self) -> (r: PickerCounters)
        ensures
            r == self.counters,
    {
        self.counters
    }

    /// Bytes of per-piece state the picker holds.
    pub fn retained_bytes(&self) -> (r: usize)
        requires
            self.wf(),
        ensures
            r == if self.piece_count() * 8 <= usize::MAX {
                self.piece_count() * 8
            } else {
                usize::MAX as int
            },
    {
        match self.counts.len().checked_mul(8) {
            Some(v) => v,
            None => usize::MAX,
        }
    }

    pub fn is_wanted(&self, piece: usize) -> (r: bool)
        requires
            self.wf(),
        ensures
            r == (piece < self.piece_count() && self.wanted@[piece as int]),
    {
        piece < self.wanted.len() && self.wanted[piece]
    }

    pub fn availability(&self, piece: usize) -> (r: Option<u32>)
        requires
            self.wf(),
        ensures
            piece >= self.piece_count() ==> r is None,
            piece < self.piece_count() && self.avail(piece as int) <= u32::MAX ==> r == Some(
                self.avail(piece as int) as u32,
            ),
            piece < self.piece_count() && self.avail(piece as int) > u32::MAX ==> r == Some(u32::MAX),
    {
        if piece >= self.counts.len() {
            return None;
        }
        Some(self.counts[piece].saturating_add(self.seed_count))
    }

    /// Availability of `piece` as a 64-bit value, for ranking.
    fn avail64(&self, piece: usize) -> (r: u64)
        requires
            self.wf(),
            piece < self.piece_count(),
        ensures
            r == self.avail(piece as int),
    {
        self.counts[piece] as u64 + self.seed_count as u64
    }

    pub fn precedes(&mut self, a: usize, b: usize) -> (r: bool)
        requires
            old(self).wf(),
            a < old(self).piece_count(),
            b < old(self).piece_count(),
        ensures
            final(self).wf(),
            r == old(self).precedes_spec(a as int, b as int),
            final(self).counts@ == old(self).counts@,
            final(self).seed_count == old(self).seed_count,
            final(self).wanted@ == old(self).wanted@,
            final(self).planned@ == old(self).planned@,
            final(self).reserved@ == old(self).reserved@,
            final(self).completed@ == old(self).completed@,
            final(self).policy == old(self).policy,
            final(self).cursor == old(self).cursor,
    {
        self.counters.rank_comparisons = self.counters.rank_comparisons.saturating_add(1);
        self.precedes_pure(a, b)
    }

    pub fn precedes_pure(&self, a: usize, b: usize) -> (r: bool)
        requires
            self.wf(),
            a < self.piece_count(),
            b < self.piece_count(),
        ensures
            r == self.precedes_spec(a as int, b as int),
    {
        match self.policy {
            PieceActivationPolicy::RarestFirst => {
                let x = self.avail64(a);
                let y = self.avail64(b);
                x < y || (x == y && a < b)
            },
            PieceActivationPolicy::InOrder => a < b,
        }
    }

    /// `q` ranks after `after`; every piece follows no piece.
    pub open spec fn follows(&self, after: Option<u32>, q: int) -> bool {
        match after {
            None => true,
            Some(a) => self.precedes_spec(a as int, q),
        }
    }

    /// `p` is a candidate ranking after `after` and before every other such candidate.
    pub open spec fn best_after(&self, after: Option<u32>, p: u32) -> bool {
        &&& self.candidate(p as int)
        &&& self.follows(after, p as int)
        &&& forall|q: int|
            #[trigger] self.candidate(q) && self.follows(after, q) && q != p ==> self.precedes_spec(p as int, q)
    }

    /// The candidate that ranks first after `after`, if any.
    pub open spec fn next_candidate_spec(&self, after: Option<u32>) -> Option<u32> {
        if exists|p: u32| #[trigger] self.best_after(after, p) {
            Some(choose|p: u32| #[trigger] self.best_after(after, p))
        } else {
            None
        }
    }

    /// Pickers that agree on everything that ranks candidates name the same
    /// next candidate.
    pub proof fn lemma_same_ranking(&self, other: &Self, after: Option<u32>)
        requires
            self.counts@ == other.counts@,
            self.seed_count == other.seed_count,
            self.wanted@ == other.wanted@,
            self.planned@ == other.planned@,
            self.reserved@ == other.reserved@,
            self.completed@ == other.completed@,
            self.policy == other.policy,
        ensures
            self.next_candidate_spec(after) == other.next_candidate_spec(after),
    {
        assert forall|q: int| #[trigger] self.candidate(q) == other.candidate(q) by {}
        assert forall|x: int, y: int| #[trigger] self.precedes_spec(x, y) == other.precedes_spec(x, y) by {}
        assert forall|q: int| #[trigger] self.follows(after, q) == other.follows(after, q) by {}
        assert forall|p: u32| #[trigger] self.best_after(after, p) == other.best_after(after, p) by {
            if self.best_after(after, p) {
                assert forall|q: int|
                    #[trigger] other.candidate(q) && other.follows(after, q) && q != p implies other.precedes_spec(
                    p as int,
                    q,
                ) by {
                    assert(self.candidate(q));
                    assert(self.follows(after, q));
                }
            }
            if other.best_after(after, p) {
                assert forall|q: int|
                    #[trigger] self.candidate(q) && self.follows(after, q) && q != p implies self.precedes_spec(
                    p as int,
                    q,
                ) by {
                    assert(other.candidate(q));
                    assert(other.follows(after, q));
                }
            }
        }
        if exists|p: u32| #[trigger] self.best_after(after, p) {
            let p = choose|p: u32| #[trigger] self.best_after(after, p);
            assert(other.best_after(after, p));
            let q = choose|q: u32| #[trigger] other.best_after(after, q);
            other.lemma_best_unique(after, p, q);
        } else {
            if exists|q: u32| #[trigger] other.best_after(after, q) {
                let q = choose|q: u32| #[trigger] other.best_after(after, q);
                assert(self.best_after(after, q));
            }
        }
    }
    /// At most one candidate ranks first.
    pub proof fn lemma_best_unique(&self, after: Option<u32>, p: u32, q: u32)
        requires
            self.best_after(after, p),
            self.best_after(after, q),
        ensures
            p == q,
    {
        if p != q {
            assert(self.precedes_spec(p as int, q as int));
            assert(self.precedes_spec(q as int, p as int));
        }
    }

    /// The first candidate that ranks after `after` (or the first candidate).
    pub fn next_candidate(&self, after: Option<u32>) -> (r: Option<u32>)
        requires
            self.wf(),
            after matches Some(a) ==> a < self.piece_count(),
        ensures
            r matches Some(p) ==> {
                &&& self.candidate(p as int)
                &&& self.follows(after, p as int)
                &&& forall|q: int|
                    #[trigger] self.candidate(q) && self.follows(after, q) && q != p
                        ==> self.precedes_spec(p as int, q)
            },
            r is None ==> forall|q: int| #[trigger] self.candidate(q) ==> !self.follows(after, q),
            r == self.next_candidate_spec(after),
    {
        let n = self.counts.len();
        let mut best: Option<usize> = None;
        let mut i: usize = 0;
        while i < n
            invariant
                self.wf(),
                n == self.piece_count(),
                i <= n,
                after matches Some(a) ==> a < n,
                best matches Some(b) ==> {
                    &&& b < i
                    &&& self.candidate(b as int)
                    &&& self.follows(after, b as int)
                    &&& forall|q: int|
                        0 <= q < i && #[trigger] self.candidate(q) && self.follows(after, q) && q
                            != b ==> self.precedes_spec(b as int, q)
                },
                best is None ==> forall|q: int|
                    0 <= q < i && #[trigger] self.candidate(q) ==> !self.follows(after, q),
            decreases n - i,
        {
            let eligible = self.wanted[i] && !self.planned[i] && !self.reserved[i] && !self.completed[i]
                && self.avail64(i) > 0;
            let follows = match after {
                None => true,
                Some(a) => self.precedes_pure(a as usize, i),
            };
            if eligible && follows {
                match best {
                    None => {
                        best = Some(i);
                    },
                    Some(b) => {
                        if self.precedes_pure(i, b) {
                            best = Some(i);
                        }
                    },
                }
            }
            i += 1;
        }
        proof {
            match best {
                Some(b) => {
                    assert(self.best_after(after, b as u32));
                    let c = choose|p: u32| #[trigger] self.best_after(after, p);
                    self.lemma_best_unique(after, b as u32, c);
                },
                None => {
                    assert forall|p: u32| !#[trigger] self.best_after(after, p) by {
                        if self.best_after(after, p) {
                            assert(self.candidate(p as int));
                        }
                    }
                },
            }
        }
        match best {
            Some(b) => Some(b as u32),
            None => None,
        }
    }

    pub fn reserve(&mut self, piece: u32)
        requires
            old(self).wf(),
            piece < old(self).piece_count(),
        ensures
            final(self).wf(),
            final(self).reserved@ == old(self).reserved@.update(piece as int, true),
            final(self).cursor is None,
            final(self).counts@ == old(self).counts@,
            final(self).seed_count == old(self).seed_count,
            final(self).wanted@ == old(self).wanted@,
            final(self).planned@ == old(self).planned@,
            final(self).completed@ == old(self).completed@,
            final(self).policy == old(self).policy,
    {
        self.reserved.set(piece as usize, true);
        self.cursor = None;
    }

    /// Reserves `piece` if it is a wanted piece nobody planned, reserved or
    /// completed.
    pub fn reserve_specific(&mut self, piece: usize) -> (r: bool)
        requires
            old(self).wf(),
        ensures
            final(self).wf(),
            r == (piece < old(self).piece_count() && old(self).wanted@[piece as int] && !old(
                self,
            ).planned@[piece as int] && !old(self).reserved@[piece as int] && !old(
                self,
            ).completed@[piece as int]),
            r ==> final(self).reserved@ == old(self).reserved@.update(piece as int, true),
            !r ==> final(self).reserved@ == old(self).reserved@,
            final(self).counts@ == old(self).counts@,
            final(self).seed_count == old(self).seed_count,
            final(self).wanted@ == old(self).wanted@,
            final(self).planned@ == old(self).planned@,
            final(self).completed@ == old(self).completed@,
            final(self).policy == old(self).policy,
    {
        if piece >= self.counts.len() || !self.wanted[piece] || self.planned[piece]
            || self.reserved[piece] || self.completed[piece] {
            return false;
        }
        self.reserved.set(piece, true);
        self.cursor = None;
        true
    }

    pub fn cancel_reserved(&mut self, piece: usize) -> (r: Result<(), &'static str>)
        requires
            old(self).wf(),
        ensures
            final(self).wf(),
            r is Ok <==> piece < old(self).piece_count() && old(self).reserved@[piece as int],
            r is Ok ==> final(self).reserved@ == old(self).reserved@.update(piece as int, false),
            r is Err ==> final(self).reserved@ == old(self).reserved@,
            final(self).counts@ == old(self).counts@,
            final(self).seed_count == old(self).seed_count,
            final(self).wanted@ == old(self).wanted@,
            final(self).planned@ == old(self).planned@,
            final(self).completed@ == old(self).completed@,
            final(self).policy == old(self).policy,
    {
        if piece >= self.counts.len() || !self.reserved[piece] {
            return Err(ERR_NOT_RESERVED);
        }
        self.reserved.set(piece, false);
        self.cursor = None;
        Ok(())
    }

    /// A plan now exists for `piece`; any reservation of it ends.
    pub fn mark_planned(&mut self, piece: usize) -> (r: Result<(), &'static str>)
        requires
            old(self).wf(),
        ensures
            final(self).wf(),
            r is Ok <==> piece < old(self).piece_count(),
            r is Ok ==> final(self).planned@ == old(self).planned@.update(piece as int, true)
                && final(self).reserved@ == old(self).reserved@.update(piece as int, false),
            r is Err ==> final(self).planned@ == old(self).planned@ && final(self).reserved@ == old(
                self,
            ).reserved@,
            final(self).counts@ == old(self).counts@,
            final(self).seed_count == old(self).seed_count,
            final(self).wanted@ == old(self).wanted@,
            final(self).completed@ == old(self).completed@,
            final(self).policy == old(self).policy,
    {
        if piece >= self.counts.len() {
            return Err(ERR_PIECE_RANGE);
        }
        self.planned.set(piece, true);
        self.reserved.set(piece, false);
        Ok(())
    }

    pub fn mark_completed(&mut self, piece: usize) -> (r: Result<(), &'static str>)
        requires
            old(self).wf(),
        ensures
            final(self).wf(),
            r is Ok <==> piece < old(self).piece_count(),
            r is Ok ==> final(self).completed@ == old(self).completed@.update(piece as int, true),
            r is Err ==> final(self).completed@ == old(self).completed@,
            final(self).counts@ == old(self).counts@,
            final(self).seed_count == old(self).seed_count,
            final(self).wanted@ == old(self).wanted@,
            final(self).planned@ == old(self).planned@,
            final(self).reserved@ == old(self).reserved@,
            final(self).policy == old(self).policy,
    {
        if piece >= self.counts.len() {
            return Err(ERR_PIECE_RANGE);
        }
        self.completed.set(piece, true);
        self.cursor = None;
        Ok(())
    }

    pub fn wanted_remaining(&self) -> (r: usize)
        requires
            self.wf(),
        ensures
            r == self.wanted_remaining_spec(),
    {
        let mut r: usize = 0;
        let mut i: usize = 0;
        while i < self.counts.len()
            invariant
                self.wf(),
                i <= self.piece_count(),
                r <= i,
                r == count_wanted(self.wanted@, self.completed@, i as int),
            decreases self.piece_count() - i,
        {
            if self.wanted[i] && !self.completed[i] {
                r += 1;
            }
            i += 1;
        }
        r
    }

    /// One more peer announced `piece`.
    pub fn increment_piece(&mut self, piece: usize) -> (r: Result<(), &'static str>)
        requires
            old(self).wf(),
        ensures
            final(self).wf(),
            r is Ok <==> piece < old(self).piece_count() && old(self).counts@[piece as int] < u32::MAX,
            r is Ok ==> final(self).counts@ == old(self).counts@.update(
                piece as int,
                (old(self).counts@[piece as int] + 1) as u32,
            ),
            r is Err ==> final(self).counts@ == old(self).counts@,
            final(self).seed_count == old(self).seed_count,
            final(self).wanted@ == old(self).wanted@,
            final(self).planned@ == old(self).planned@,
            final(self).reserved@ == old(self).reserved@,
            final(self).completed@ == old(self).completed@,
            final(self).policy == old(self).policy,
    {
        if piece >= self.counts.len() || self.counts[piece] == u32::MAX {
            return Err(ERR_COUNTER);
        }
        let c = self.counts[piece];
        self.counts.set(piece, c + 1);
        self.counters.single_piece_updates = self.counters.single_piece_updates.saturating_add(1);
        self.cursor = None;
        Ok(())
    }

    /// One peer that had announced `piece` is gone or became a seed.
    pub fn decrement_piece(&mut self, piece: usize) -> (r: Result<(), &'static str>)
        requires
            old(self).wf(),
        ensures
            final(self).wf(),
            r is Ok <==> piece < old(self).piece_count() && old(self).counts@[piece as int] > 0,
            r is Ok ==> final(self).counts@ == old(self).counts@.update(
                piece as int,
                (old(self).counts@[piece as int] - 1) as u32,
            ),
            r is Err ==> final(self).counts@ == old(self).counts@,
            final(self).seed_count == old(self).seed_count,
            final(self).wanted@ == old(self).wanted@,
            final(self).planned@ == old(self).planned@,
            final(self).reserved@ == old(self).reserved@,
            final(self).completed@ == old(self).completed@,
            final(self).policy == old(self).policy,
    {
        if piece >= self.counts.len() || self.counts[piece] == 0 {
            return Err(ERR_COUNTER);
        }
        let c = self.counts[piece];
        self.counts.set(piece, c - 1);
        self.cursor = None;
        Ok(())
    }

    pub fn increment_seed(&mut self) -> (r: Result<(), &'static str>)
        requires
            old(self).wf(),
        ensures
            final(self).wf(),
            r is Ok <==> old(self).seed_count < u32::MAX,
            r is Ok ==> final(self).seed_count == old(self).seed_count + 1,
            r is Err ==> final(self).seed_count == old(self).seed_count,
            final(self).counts@ == old(self).counts@,
            final(self).wanted@ == old(self).wanted@,
            final(self).planned@ == old(self).planned@,
            final(self).reserved@ == old(self).reserved@,
            final(self).completed@ == old(self).completed@,
            final(self).policy == old(self).policy,
    {
        if self.seed_count == u32::MAX {
            return Err(ERR_COUNTER);
        }
        self.seed_count = self.seed_count + 1;
        self.cursor = None;
        Ok(())
    }

    pub fn decrement_seed(&mut self) -> (r: Result<(), &'static str>)
        requires
            old(self).wf(),
        ensures
            final(self).wf(),
            r is Ok <==> old(self).seed_count > 0,
            r is Ok ==> final(self).seed_count == old(self).seed_count - 1,
            r is Err ==> final(self).seed_count == old(self).seed_count,
            final(self).counts@ == old(self).counts@,
            final(self).wanted@ == old(self).wanted@,
            final(self).planned@ == old(self).planned@,
            final(self).reserved@ == old(self).reserved@,
            final(self).completed@ == old(self).completed@,
            final(self).policy == old(self).policy,
    {
        if self.seed_count == 0 {
            return Err(ERR_COUNTER);
        }
        self.seed_count = self.seed_count - 1;
        self.cursor = None;
        Ok(())
    }

    /// Availability changed in bulk; the next sweep starts over.
    pub fn rebuild_after_bulk_update(&mut self)
        requires
            old(self).wf(),
        ensures
            final(self).wf(),
            final(self).cursor is None,
            final(self).counts@ == old(self).counts@,
            final(self).seed_count == old(self).seed_count,
            final(self).wanted@ == old(self).wanted@,
            final(self).planned@ == old(self).planned@,
            final(self).reserved@ == old(self).reserved@,
            final(self).completed@ == old(self).completed@,
            final(self).policy == old(self).policy,
    {
        self.counters.bulk_rebuilds = self.counters.bulk_rebuilds.saturating_add(1);
        self.cursor = None;
    }

    /// Which peers can serve which pieces changed; the next sweep starts over.
    pub fn note_eligibility_change(&mut self)
        requires
            old(self).wf(),
        ensures
            final(self).wf(),
            final(self).cursor is None,
            final(self).counts@ == old(self).counts@,
            final(self).seed_count == old(self).seed_count,
            final(self).wanted@ == old(self).wanted@,
            final(self).planned@ == old(self).planned@,
            final(self).reserved@ == old(self).reserved@,
            final(self).completed@ == old(self).completed@,
            final(self).policy == old(self).policy,
    {
        self.cursor = None;
    }

    pub fn reset_counters(&mut self)
        ensures
            final(self).counters == (PickerCounters {
                rank_comparisons: 0,
                single_piece_updates: 0,
                bulk_rebuilds: 0,
                candidate_inspections: 0,
            }),
            final(self).counts@ == old(self).counts@,
            final(self).seed_count == old(self).seed_count,
            final(self).wanted@ == old(self).wanted@,
            final(self).planned@ == old(self).planned@,
            final(self).reserved@ == old(self).reserved@,
            final(self).completed@ == old(self).completed@,
            final(self).policy == old(self).policy,
            final(self).cursor == old(self).cursor,
    {
        self.counters = PickerCounters {
            rank_comparisons: 0,
            single_piece_updates: 0,
            bulk_rebuilds: 0,
            candidate_inspections: 0,
        };
    }
}

/// Wanted pieces among the first `n` that are not completed.
pub open spec fn count_wanted(wanted: Seq<bool>, completed: Seq<bool>, n: int) -> nat
    decreases n,
{
    if n <= 0 {
        0
    } else {
        count_wanted(wanted, completed, n - 1) + if wanted[n - 1] && !completed[n - 1] {
            1nat
        } else {
            0nat
        }
    }
}

/// A piece wanted and not completed below `n` makes the count positive.
pub proof fn lemma_count_wanted_positive(wanted: Seq<bool>, completed: Seq<bool>, n: int, i: int)
    requires
        0 <= i < n,
        wanted[i],
        !completed[i],
    ensures
        count_wanted(wanted, completed, n) > 0,
    decreases n,
{
    if i < n - 1 {
        lemma_count_wanted_positive(wanted, completed, n - 1, i);
    }
}

fn zeros(n: usize) -> (r: Vec<u32>)
    ensures
        r@.len() == n,
        forall|i: int| 0 <= i < n ==> #[trigger] r@[i] == 0,
{
    let mut r: Vec<u32> = Vec::new();
    let mut i: usize = 0;
    while i < n
        invariant
            i <= n,
            r@.len() == i,
            forall|k: int| 0 <= k < i ==> #[trigger] r@[k] == 0,
        decreases n - i,
    {
        r.push(0);
        i += 1;
    }
    r
}

pub fn falses(n: usize) -> (r: Vec<bool>)
    ensures
        r@.len() == n,
        forall|i: int| 0 <= i < n ==> !#[trigger] r@[i],
{
    let mut r: Vec<bool> = Vec::new();
    let mut i: usize = 0;
    while i < n
        invariant
            i <= n,
            r@.len() == i,
            forall|k: int| 0 <= k < i ==> !#[trigger] r@[k],
        decreases n - i,
    {
        r.push(false);
        i += 1;
    }
    r
}

} // verus!

//! Compact state for incomplete-file streaming demand.
//!
//! Application surfaces express a small number of piece intervals. The engine
//! walks those intervals with bounded cursors rather than expanding them into
//! sets proportional to the number of pieces.
use vstd::prelude::*;

verus! {

/// Maximum simultaneous incomplete-file streaming demands for one torrent.
pub const MAX_STREAMING_DEMANDS: usize = 8;

/// Maximum pieces inspected while producing one urgent scheduler batch.
pub const MAX_STREAMING_CANDIDATE_INSPECTIONS: usize = 256;

#[derive(Clone, Copy, Debug, PartialEq, Eq, PartialOrd, Ord)]
pub struct StreamingDemandId(u64);

impl StreamingDemandId {
    /// The raw identifier value.
    pub closed spec fn value(self) -> u64 {
        self.0
    }

    pub fn get(self) -> (r: u64)
        ensures
            r == self.value(),
    {
        self.0
    }
}

#[derive(Clone, Copy, Debug, PartialEq, Eq)]
pub struct StreamingPieceInterval {
    first: u32,
    last: u32,
}

impl StreamingPieceInterval {
    pub closed spec fn first_piece(self) -> u32 {
        self.first
    }

    pub closed spec fn last_piece(self) -> u32 {
        self.last
    }

    /// Every interval that can be constructed is non-empty.
    pub closed spec fn wf(self) -> bool {
        self.first <= self.last
    }

    /// The interval covers `piece`.
    pub open spec fn covers(self, piece: u32) -> bool {
        self.first_piece() <= piece <= self.last_piece()
    }

    pub open spec fn same(self, other: Self) -> bool {
        self.first_piece() == other.first_piece() && self.last_piece() == other.last_piece()
    }

    pub fn new(first: u32, last: u32) -> (r: Result<Self, StreamingDemandError>)
        ensures
            first > last ==> r == Err::<Self, StreamingDemandError>(
                StreamingDemandError::InvalidInterval { first, last },
            ),
            first <= last ==> (r matches Ok(i) && i.first_piece() == first && i.last_piece() == last
                && i.wf()),
    {
        if first > last {
            return Err(StreamingDemandError::InvalidInterval { first, last });
        }
        Ok(Self { first, last })
    }

    pub fn first(self) -> (r: u32)
        ensures
            r == self.first_piece(),
    {
        self.first
    }

    pub fn last(self) -> (r: u32)
        ensures
            r == self.last_piece(),
    {
        self.last
    }

    pub fn contains(self, piece: u32) -> (r: bool)
        ensures
            r == self.covers(piece),
    {
        self.first <= piece && piece <= self.last
    }

    pub fn piece_count(self) -> (r: u64)
        requires
            self.wf(),
        ensures
            r == self.last_piece() - self.first_piece() + 1,
    {
        self.last as u64 - self.first as u64 + 1
    }

    fn same_as(self, other: Self) -> (r: bool)
        ensures
            r == self.same(other),
    {
        self.first == other.first && self.last == other.last
    }
}

pub open spec fn same_ahead(a: Option<StreamingPieceInterval>, b: Option<StreamingPieceInterval>) -> bool {
    match (a, b) {
        (None, None) => true,
        (Some(x), Some(y)) => x.same(y),
        _ => false,
    }
}

fn same_ahead_exec(a: Option<StreamingPieceInterval>, b: Option<StreamingPieceInterval>) -> (r: bool)
    ensures
        r == same_ahead(a, b),
{
    match (a, b) {
        (None, None) => true,
        (Some(x), Some(y)) => x.same_as(y),
        _ => false,
    }
}

#[derive(Clone, Copy, Debug, PartialEq, Eq)]
pub enum StreamingUrgency {
    Current,
    Ahead,
}

#[derive(Clone, Debug, PartialEq, Eq)]
pub struct StreamingDemand {
    id: StreamingDemandId,
    current: StreamingPieceInterval,
    ahead: Option<StreamingPieceInterval>,
    admission_order: u64,
    update_generation: u64,
    progress_revision: u64,
}

impl StreamingDemand {
    pub closed spec fn id_view(self) -> StreamingDemandId {
        self.id
    }

    pub closed spec fn current_view(self) -> StreamingPieceInterval {
        self.current
    }

    pub closed spec fn ahead_view(self) -> Option<StreamingPieceInterval> {
        self.ahead
    }

    pub closed spec fn order_view(self) -> u64 {
        self.admission_order
    }

    pub closed spec fn generation_view(self) -> u64 {
        self.update_generation
    }

    pub closed spec fn progress_view(self) -> u64 {
        self.progress_revision
    }

    /// The demand's current or ahead interval covers `piece`.
    pub open spec fn covers(self, piece: u32) -> bool {
        self.current_view().covers(piece) || (self.ahead_view() matches Some(a) && a.covers(piece))
    }

    /// Both intervals were built by their checked constructor.
    pub open spec fn wf(self) -> bool {
        self.current_view().wf() && (self.ahead_view() matches Some(a) ==> a.wf())
    }

    pub fn id(&self) -> (r: StreamingDemandId)
        ensures
            r == self.id_view(),
    {
        self.id
    }

    pub fn current(&self) -> (r: StreamingPieceInterval)
        ensures
            r == self.current_view(),
    {
        self.current
    }

    pub fn ahead(&self) -> (r: Option<StreamingPieceInterval>)
        ensures
            r == self.ahead_view(),
    {
        self.ahead
    }

    pub fn admission_order(&self) -> (r: u64)
        ensures
            r == self.order_view(),
    {
        self.admission_order
    }

    pub fn update_generation(&self) -> (r: u64)
        ensures
            r == self.generation_view(),
    {
        self.update_generation
    }

    pub fn progress_revision(&self) -> (r: u64)
        ensures
            r == self.progress_view(),
    {
        self.progress_revision
    }

    fn contains(&self, piece: u32) -> (r: bool)
        ensures
            r == self.covers(piece),
    {
        self.current.contains(piece) || match self.ahead {
            Some(interval) => interval.contains(piece),
            None => false,
        }
    }

    /// The demand after its intervals are replaced: one more update generation.
    pub closed spec fn with_intervals(
        self,
        current: StreamingPieceInterval,
        ahead: Option<StreamingPieceInterval>,
    ) -> Self {
        StreamingDemand {
            current,
            ahead,
            update_generation: sat_inc(self.update_generation),
            ..self
        }
    }

    /// The demand after useful progress on one of its pieces.
    pub closed spec fn with_progress(self) -> Self {
        StreamingDemand { progress_revision: sat_inc(self.progress_revision), ..self }
    }

    /// Replacing a demand's intervals sets them and advances its update
    /// generation, keeping everything else.
    pub proof fn lemma_with_intervals(
        self,
        current: StreamingPieceInterval,
        ahead: Option<StreamingPieceInterval>,
    )
        ensures
            self.with_intervals(current, ahead).current_view() == current,
            self.with_intervals(current, ahead).ahead_view() == ahead,
            self.with_intervals(current, ahead).generation_view() == sat_inc(self.generation_view()),
            self.with_intervals(current, ahead).progress_view() == self.progress_view(),
            self.with_intervals(current, ahead).id_view() == self.id_view(),
            self.with_intervals(current, ahead).order_view() == self.order_view(),
    {
    }

    /// Progress advances a demand's progress revision, keeping everything
    /// else.
    pub proof fn lemma_with_progress(self)
        ensures
            self.with_progress().progress_view() == sat_inc(self.progress_view()),
            self.with_progress().current_view() == self.current_view(),
            self.with_progress().ahead_view() == self.ahead_view(),
            self.with_progress().generation_view() == self.generation_view(),
            self.with_progress().id_view() == self.id_view(),
            self.with_progress().order_view() == self.order_view(),
    {
    }

    /// The demand that `record_progress(piece)` leaves behind.
    pub open spec fn after_progress(self, piece: u32) -> Self {
        if self.covers(piece) {
            self.with_progress()
        } else {
            self
        }
    }

    fn duplicate(&self) -> (r: Self)
        ensures
            r == *self,
    {
        StreamingDemand {
            id: self.id,
            current: self.current,
            ahead: self.ahead,
            admission_order: self.admission_order,
            update_generation: self.update_generation,
            progress_revision: self.progress_revision,
        }
    }
}

#[derive(Clone, Debug, PartialEq, Eq)]
pub struct StreamingDemandSnapshot {
    revision: u64,
    demands: Vec<StreamingDemand>,
}

impl StreamingDemandSnapshot {
    pub closed spec fn revision_view(&self) -> u64 {
        self.revision
    }

    pub closed spec fn demands_view(&self) -> Seq<StreamingDemand> {
        self.demands@
    }

    pub fn revision(&self) -> (r: u64)
        ensures
            r == self.revision_view(),
    {
        self.revision
    }

    pub fn demands(&self) -> (r: &[StreamingDemand])
        ensures
            r@ == self.demands_view(),
    {
        self.demands.as_slice()
    }

    pub fn is_empty(&self) -> (r: bool)
        ensures
            r == (self.demands_view().len() == 0),
    {
        self.demands.len() == 0
    }
}

impl Default for StreamingDemandSnapshot {
    fn default() -> (r: Self)
        ensures
            r.revision_view() == 0,
            r.demands_view().len() == 0,
    {
        StreamingDemandSnapshot { revision: 0, demands: Vec::new() }
    }
}

#[derive(Clone, Copy, Debug, PartialEq, Eq)]
pub enum StreamingDemandError {
    InvalidInterval { first: u32, last: u32 },
    Capacity,
    UnknownDemand(StreamingDemandId),
    IdentifierExhausted,
}

/// Identifiers and admission orders strictly increase along `s`.
pub open spec fn admitted_in_order(s: Seq<StreamingDemand>) -> bool {
    forall|i: int, j: int|
        #![trigger s[i], s[j]]
        0 <= i < j < s.len() ==> s[i].id_view().value() < s[j].id_view().value() && s[i].order_view()
            < s[j].order_view()
}

/// Identifiers are unique along an admitted sequence.
proof fn lemma_unique_position(s: Seq<StreamingDemand>, i: int, j: int)
    requires
        admitted_in_order(s),
        0 <= i < s.len(),
        0 <= j < s.len(),
        s[i].id_view() == s[j].id_view(),
    ensures
        i == j,
{
    if i < j {
        assert(s[i].id_view().value() < s[j].id_view().value());
    } else if j < i {
        assert(s[j].id_view().value() < s[i].id_view().value());
    }
}

/// `x + 1`, saturating at `u64::MAX`.
pub open spec fn sat_inc(x: u64) -> u64 {
    if x == u64::MAX {
        x
    } else {
        (x + 1) as u64
    }
}

/// Mutable compact demand state. Async notification belongs to its owner.
#[derive(Debug)]
pub struct StreamingDemandSet {
    next_id: u64,
    next_order: u64,
    revision: u64,
    demands: Vec<StreamingDemand>,
}

impl StreamingDemandSet {
    pub closed spec fn demands_view(&self) -> Seq<StreamingDemand> {
        self.demands@
    }

    pub closed spec fn revision_view(&self) -> u64 {
        self.revision
    }

    pub closed spec fn next_id_view(&self) -> u64 {
        self.next_id
    }

    pub closed spec fn next_order_view(&self) -> u64 {
        self.next_order
    }

    /// At most eight demands, admitted in increasing identifier and order, and
    /// every identifier and order already issued.
    pub closed spec fn wf(&self) -> bool {
        &&& self.demands@.len() <= MAX_STREAMING_DEMANDS
        &&& admitted_in_order(self.demands@)
        &&& forall|i: int|
            0 <= i < self.demands@.len() ==> {
                &&& 1 <= #[trigger] self.demands@[i].id_view().value() <= self.next_id
                &&& self.demands@[i].order_view() <= self.next_order
                &&& self.demands@[i].wf()
            }
    }

    /// Index of the demand named `id`, if one is admitted.
    pub open spec fn holds(&self, id: StreamingDemandId) -> bool {
        exists|i: int|
            0 <= i < self.demands_view().len() && #[trigger] self.demands_view()[i].id_view() == id
    }

    pub fn snapshot(&self) -> (r: StreamingDemandSnapshot)
        requires
            self.wf(),
        ensures
            r.revision_view() == self.revision_view(),
            r.demands_view() == self.demands_view(),
            forall|i: int, j: int|
                0 <= i < j < r.demands_view().len() ==> #[trigger] r.demands_view()[i].order_view()
                    < #[trigger] r.demands_view()[j].order_view(),
            forall|i: int, j: int|
                0 <= i < j < r.demands_view().len() ==> #[trigger] r.demands_view()[i].id_view().value()
                    < #[trigger] r.demands_view()[j].id_view().value(),
            r.demands_view().len() <= MAX_STREAMING_DEMANDS,
    {
        let mut demands: Vec<StreamingDemand> = Vec::new();
        let mut i: usize = 0;
        while i < self.demands.len()
            invariant
                i <= self.demands@.len(),
                demands@ == self.demands@.subrange(0, i as int),
            decreases self.demands@.len() - i,
        {
            demands.push(self.demands[i].duplicate());
            i += 1;
            assert(demands@ =~= self.demands@.subrange(0, i as int));
        }
        assert(demands@ =~= self.demands@);
        assert forall|i: int, j: int|
            0 <= i < j < demands@.len() implies #[trigger] demands@[i].order_view()
                < #[trigger] demands@[j].order_view() by {
            assert(self.demands@[i].id_view().value() < self.demands@[j].id_view().value());
        }
        StreamingDemandSnapshot { revision: self.revision, demands }
    }

    pub fn insert(
        &mut self,
        current: StreamingPieceInterval,
        ahead: Option<StreamingPieceInterval>,
    ) -> (r: Result<StreamingDemandId, StreamingDemandError>)
        requires
            old(self).wf(),
            current.wf(),
            ahead matches Some(a) ==> a.wf(),
        ensures
            final(self).wf(),
            old(self).demands_view().len() == MAX_STREAMING_DEMANDS ==> r
                == Err::<StreamingDemandId, StreamingDemandError>(StreamingDemandError::Capacity),
            old(self).demands_view().len() < MAX_STREAMING_DEMANDS && (old(self).next_id_view()
                == u64::MAX || old(self).next_order_view() == u64::MAX) ==> r == Err::<
                StreamingDemandId,
                StreamingDemandError,
            >(StreamingDemandError::IdentifierExhausted),
            r is Err ==> *final(self) == *old(self),
            old(self).demands_view().len() < MAX_STREAMING_DEMANDS && old(self).next_id_view()
                < u64::MAX && old(self).next_order_view() < u64::MAX ==> r is Ok,
            r matches Ok(id) ==> {
                &&& id.value() == old(self).next_id_view() + 1
                &&& !old(self).holds(id)
                &&& final(self).demands_view().len() == old(self).demands_view().len() + 1
                &&& final(self).demands_view().drop_last() == old(self).demands_view()
                &&& final(self).demands_view().last().id_view() == id
                &&& final(self).demands_view().last().current_view() == current
                &&& final(self).demands_view().last().ahead_view() == ahead
                &&& final(self).demands_view().last().generation_view() == 0
                &&& final(self).demands_view().last().progress_view() == 0
                &&& final(self).demands_view().last().order_view() == old(self).next_order_view()
                    + 1
                &&& final(self).revision_view() == sat_inc(old(self).revision_view())
                &&& final(self).next_id_view() == old(self).next_id_view() + 1
                &&& final(self).next_order_view() == old(self).next_order_view() + 1
            },
    {
        if self.demands.len() == MAX_STREAMING_DEMANDS {
            return Err(StreamingDemandError::Capacity);
        }
        let id_value = match self.next_id.checked_add(1) {
            Some(v) => v,
            None => return Err(StreamingDemandError::IdentifierExhausted),
        };
        let order = match self.next_order.checked_add(1) {
            Some(v) => v,
            None => return Err(StreamingDemandError::IdentifierExhausted),
        };
        self.next_id = id_value;
        self.next_order = order;
        let id = StreamingDemandId(id_value);
        self.demands.push(
            StreamingDemand {
                id,
                current,
                ahead,
                admission_order: order,
                update_generation: 0,
                progress_revision: 0,
            },
        );
        self.advance_revision();
        assert(self.demands@.drop_last() =~= old(self).demands@);
        Ok(id)
    }

    pub fn update(
        &mut self,
        id: StreamingDemandId,
        current: StreamingPieceInterval,
        ahead: Option<StreamingPieceInterval>,
    ) -> (r: Result<(), StreamingDemandError>)
        requires
            old(self).wf(),
            current.wf(),
            ahead matches Some(a) ==> a.wf(),
        ensures
            final(self).wf(),
            !old(self).holds(id) ==> r == Err::<(), StreamingDemandError>(
                StreamingDemandError::UnknownDemand(id),
            ) && *final(self) == *old(self),
            old(self).holds(id) ==> r is Ok,
            forall|i: int|
                0 <= i < old(self).demands_view().len() && #[trigger] old(self).demands_view()[i].id_view()
                    == id ==> {
                    let d = old(self).demands_view()[i];
                    if d.current_view().same(current) && same_ahead(d.ahead_view(), ahead) {
                        *final(self) == *old(self)
                    } else {
                        &&& final(self).demands_view() == old(self).demands_view().update(
                            i,
                            d.with_intervals(current, ahead),
                        )
                        &&& final(self).revision_view() == sat_inc(old(self).revision_view())
                        &&& final(self).next_id_view() == old(self).next_id_view()
                        &&& final(self).next_order_view() == old(self).next_order_view()
                    }
                },
    {
        let index = match self.position(id) {
            Some(index) => index,
            None => return Err(StreamingDemandError::UnknownDemand(id)),
        };
        proof {
            assert forall|i: int|
                0 <= i < old(self).demands_view().len() && #[trigger] old(self).demands_view()[i].id_view()
                    == id implies i == index by {
                lemma_unique_position(old(self).demands@, i, index as int);
            }
        }
        let same = self.demands[index].current.same_as(current) && same_ahead_exec(
            self.demands[index].ahead,
            ahead,
        );
        if same {
            proof {
                assert(self.demands@[index as int].current == current);
                assert(self.demands@[index as int].ahead == ahead) by {
                    match (self.demands@[index as int].ahead, ahead) {
                        (Some(x), Some(y)) => {
                            assert(x.first == y.first && x.last == y.last);
                        },
                        _ => {},
                    }
                }
            }
            return Ok(());
        }
        let old_demand = self.demands[index].duplicate();
        let generation = old_demand.update_generation.saturating_add(1);
        let replaced = StreamingDemand {
            id: old_demand.id,
            current,
            ahead,
            admission_order: old_demand.admission_order,
            update_generation: generation,
            progress_revision: old_demand.progress_revision,
        };
        self.demands.set(index, replaced);
        self.advance_revision();
        proof {
            assert forall|i: int, j: int|
                #![trigger self.demands@[i], self.demands@[j]]
                0 <= i < j < self.demands@.len() implies self.demands@[i].id_view().value()
                    < self.demands@[j].id_view().value() && self.demands@[i].order_view()
                    < self.demands@[j].order_view() by {
                assert(old(self).demands@[i].id_view().value() < old(self).demands@[j].id_view().value());
            }
            assert forall|i: int| 0 <= i < self.demands@.len() implies {
                &&& 1 <= #[trigger] self.demands@[i].id_view().value() <= self.next_id
                &&& self.demands@[i].order_view() <= self.next_order
                &&& self.demands@[i].wf()
            } by {
                assert(old(self).demands@[i].wf());
            }
        }
        Ok(())
    }

    pub fn remove(&mut self, id: StreamingDemandId) -> (r: bool)
        requires
            old(self).wf(),
        ensures
            final(self).wf(),
            r == old(self).holds(id),
            !r ==> *final(self) == *old(self),
            final(self).next_id_view() == old(self).next_id_view(),
            final(self).next_order_view() == old(self).next_order_view(),
            r ==> {
                &&& final(self).revision_view() == sat_inc(old(self).revision_view())
                &&& exists|i: int|
                    0 <= i < old(self).demands_view().len() && #[trigger] old(self).demands_view()[i].id_view() == id && final(self).demands_view() == old(self).demands_view().remove(i)
            },
    {
        match self.position(id) {
            None => false,
            Some(index) => {
                let ghost before = self.demands@;
                self.demands.remove(index);
                self.advance_revision();
                assert(self.demands@ == before.remove(index as int));
                assert(old(self).demands_view()[index as int].id_view() == id);
                true
            },
        }
    }

    /// Record useful storage or verification progress for interested demands.
    ///
    /// The work is bounded by [`MAX_STREAMING_DEMANDS`].
    pub fn record_progress(&mut self, piece: u32) -> (r: bool)
        requires
            old(self).wf(),
        ensures
            final(self).wf(),
            r == exists|i: int|
                0 <= i < old(self).demands_view().len() && #[trigger] old(self).demands_view()[i].covers(piece),
            final(self).demands_view() == old(self).demands_view().map_values(
                |d: StreamingDemand| d.after_progress(piece),
            ),
            final(self).revision_view() == if r {
                sat_inc(old(self).revision_view())
            } else {
                old(self).revision_view()
            },
            final(self).next_id_view() == old(self).next_id_view(),
            final(self).next_order_view() == old(self).next_order_view(),
    {
        let mut changed = false;
        let mut i: usize = 0;
        while i < self.demands.len()
            invariant
                i <= self.demands@.len(),
                self.demands@.len() == old(self).demands@.len(),
                self.revision == old(self).revision,
                self.next_id == old(self).next_id,
                self.next_order == old(self).next_order,
                forall|k: int|
                    0 <= k < i ==> #[trigger] self.demands@[k] == old(self).demands@[k].after_progress(
                        piece,
                    ),
                forall|k: int| i <= k < self.demands@.len() ==> #[trigger] self.demands@[k] == old(self).demands@[k],
                changed == exists|k: int| 0 <= k < i && #[trigger] old(self).demands@[k].covers(piece),
            decreases self.demands@.len() - i,
        {
            if self.demands[i].contains(piece) {
                let d = self.demands[i].duplicate();
                let progressed = StreamingDemand {
                    progress_revision: d.progress_revision.saturating_add(1),
                    ..d
                };
                self.demands.set(i, progressed);
                changed = true;
            }
            i += 1;
        }
        if changed {
            self.advance_revision();
        }
        assert(old(self).demands_view() == old(self).demands@);
        assert(changed == exists|k: int|
            0 <= k < old(self).demands_view().len() && #[trigger] old(self).demands_view()[k].covers(piece));
        assert(self.demands@ =~= old(self).demands@.map_values(
            |d: StreamingDemand| d.after_progress(piece),
        ));
        changed
    }

    fn advance_revision(&mut self)
        ensures
            final(self).revision == sat_inc(old(self).revision),
            final(self).demands == old(self).demands,
            final(self).next_id == old(self).next_id,
            final(self).next_order == old(self).next_order,
    {
        self.revision = self.revision.saturating_add(1);
    }

    fn position(&self, id: StreamingDemandId) -> (r: Option<usize>)
        ensures
            r matches Some(i) ==> i < self.demands@.len() && self.demands@[i as int].id_view() == id,
            r is None ==> !self.holds(id),
    {
        let mut i: usize = 0;
        while i < self.demands.len()
            invariant
                i <= self.demands@.len(),
                forall|k: int| 0 <= k < i ==> #[trigger] self.demands@[k].id_view() != id,
            decreases self.demands@.len() - i,
        {
            if self.demands[i].id.0 == id.0 {
                return Some(i);
            }
            i += 1;
        }
        None
    }
}

impl Default for StreamingDemandSet {
    fn default() -> (r: Self)
        ensures
            r.wf(),
            r.demands_view().len() == 0,
            r.revision_view() == 0,
            r.next_id_view() == 0,
            r.next_order_view() == 0,
    {
        StreamingDemandSet { next_id: 0, next_order: 0, revision: 0, demands: Vec::new() }
    }
}

#[derive(Clone, Copy, Debug, PartialEq, Eq)]
pub struct StreamingCandidate {
    pub piece: u32,
    pub urgency: StreamingUrgency,
}

#[derive(Clone, Debug, PartialEq, Eq)]
pub struct StreamingCandidateBatch {
    pub candidates: Vec<StreamingCandidate>,
    pub inspected: usize,
    pub finished: bool,
}

impl Default for StreamingCandidateBatch {
    fn default() -> (r: Self)
        ensures
            r.candidates@.len() == 0,
            r.inspected == 0,
            !r.finished,
    {
        StreamingCandidateBatch { candidates: Vec::new(), inspected: 0, finished: false }
    }
}

#[derive(Debug)]
struct DemandCursor {
    current: Option<u32>,
    ahead: Option<u32>,
    demand: StreamingDemand,
}

/// `turn + k`, wrapped once into `0..len`.
pub open spec fn rotate(turn: int, k: int, len: int) -> int {
    if turn + k < len {
        turn + k
    } else {
        turn + k - len
    }
}

/// A walk over demand intervals as mathematical values: the demands, the next
/// pending piece of each current and each ahead interval, and the two
/// round-robin turns.
pub struct WalkPosition {
    pub demands: Seq<StreamingDemand>,
    pub current: Seq<Option<u32>>,
    pub ahead: Seq<Option<u32>>,
    pub current_turn: int,
    pub ahead_turn: int,
}

impl WalkPosition {
    pub open spec fn len(self) -> int {
        self.demands.len() as int
    }

    /// One pending slot per demand and interval kind, and turns in range.
    pub open spec fn wf(self) -> bool {
        &&& self.current.len() == self.demands.len()
        &&& self.ahead.len() == self.demands.len()
        &&& (self.len() == 0 || 0 <= self.current_turn < self.len())
        &&& (self.len() == 0 || 0 <= self.ahead_turn < self.len())
    }

    pub open spec fn slot(self, urgency: StreamingUrgency, i: int) -> Option<u32> {
        match urgency {
            StreamingUrgency::Current => self.current[i],
            StreamingUrgency::Ahead => self.ahead[i],
        }
    }

    pub open spec fn turn(self, urgency: StreamingUrgency) -> int {
        match urgency {
            StreamingUrgency::Current => self.current_turn,
            StreamingUrgency::Ahead => self.ahead_turn,
        }
    }

    /// Some current interval still has pieces to inspect.
    pub open spec fn current_pending(self) -> bool {
        exists|i: int| 0 <= i < self.current.len() && #[trigger] self.current[i] is Some
    }

    /// Every interval has been walked to its end.
    pub open spec fn exhausted(self) -> bool {
        &&& forall|i: int| 0 <= i < self.current.len() ==> #[trigger] self.current[i] is None
        &&& forall|i: int| 0 <= i < self.ahead.len() ==> #[trigger] self.ahead[i] is None
    }

    /// Current intervals are walked completely before any ahead interval.
    pub open spec fn urgency(self) -> StreamingUrgency {
        if self.current_pending() {
            StreamingUrgency::Current
        } else {
            StreamingUrgency::Ahead
        }
    }

    /// The first demand, at rotation offset `k` or later from `turn`, whose
    /// interval with `urgency` has a pending piece.
    pub open spec fn scan(self, urgency: StreamingUrgency, turn: int, k: int) -> Option<int>
        decreases self.len() - k,
    {
        if k < 0 || k >= self.len() {
            None
        } else {
            let i = rotate(turn, k, self.len());
            if self.slot(urgency, i) is Some {
                Some(i)
            } else {
                self.scan(urgency, turn, k + 1)
            }
        }
    }

    /// The demand whose interval with `urgency` is inspected next.
    pub open spec fn chosen(self, urgency: StreamingUrgency) -> Option<int> {
        self.scan(urgency, self.turn(urgency), 0)
    }

    /// The pending piece that follows the pending piece of demand `i`.
    pub open spec fn following(self, urgency: StreamingUrgency, i: int) -> Option<u32> {
        match self.slot(urgency, i) {
            Some(p) => {
                let last = match urgency {
                    StreamingUrgency::Current => self.demands[i].current_view().last_piece(),
                    StreamingUrgency::Ahead => match self.demands[i].ahead_view() {
                        Some(a) => a.last_piece(),
                        None => p,
                    },
                };
                if p < last {
                    Some((p + 1) as u32)
                } else {
                    None
                }
            },
            None => None,
        }
    }

    /// The next piece inspected among intervals with `urgency`.
    pub open spec fn next_with(self, urgency: StreamingUrgency) -> Option<u32> {
        match self.chosen(urgency) {
            Some(i) => self.slot(urgency, i),
            None => None,
        }
    }

    /// The position after inspecting `next_with(urgency)`.
    pub open spec fn step_with(self, urgency: StreamingUrgency) -> WalkPosition {
        match self.chosen(urgency) {
            None => self,
            Some(i) => match urgency {
                StreamingUrgency::Current => WalkPosition {
                    current: self.current.update(i, self.following(urgency, i)),
                    current_turn: rotate(i, 1, self.len()),
                    ..self
                },
                StreamingUrgency::Ahead => WalkPosition {
                    ahead: self.ahead.update(i, self.following(urgency, i)),
                    ahead_turn: rotate(i, 1, self.len()),
                    ..self
                },
            },
        }
    }

    /// The next piece the walk inspects, with the urgency of its interval.
    pub open spec fn next(self) -> Option<(u32, StreamingUrgency)> {
        match self.next_with(self.urgency()) {
            Some(p) => Some((p, self.urgency())),
            None => None,
        }
    }

    pub open spec fn step(self) -> WalkPosition {
        self.step_with(self.urgency())
    }

    /// The position after `n` inspections.
    pub open spec fn after(self, n: nat) -> WalkPosition
        decreases n,
    {
        if n == 0 {
            self
        } else {
            self.after((n - 1) as nat).step()
        }
    }

    /// The pieces that `n` inspections visit, in order.
    pub open spec fn walk(self, n: nat) -> Seq<(u32, StreamingUrgency)>
        decreases n,
    {
        if n == 0 {
            Seq::empty()
        } else {
            let w = self.walk((n - 1) as nat);
            match self.after((n - 1) as nat).next() {
                Some(x) => w.push(x),
                None => w,
            }
        }
    }
}

/// Some candidate of `cs` is `piece`.
pub open spec fn has_piece(cs: Seq<StreamingCandidate>, piece: u32) -> bool {
    exists|i: int| 0 <= i < cs.len() && #[trigger] cs[i].piece == piece
}

/// The candidates a batch keeps from `walk` when `verdicts` are the
/// eligibility answers: each eligible piece, at its first occurrence.
pub open spec fn kept(walk: Seq<(u32, StreamingUrgency)>, verdicts: Seq<bool>) -> Seq<
    StreamingCandidate,
>
    decreases walk.len(),
{
    if walk.len() == 0 {
        Seq::empty()
    } else {
        let prev = kept(walk.drop_last(), verdicts.drop_last());
        let (piece, urgency) = walk.last();
        if verdicts.last() && !has_piece(prev, piece) {
            prev.push(StreamingCandidate { piece, urgency })
        } else {
            prev
        }
    }
}

/// The number of pieces one batch may inspect.
pub open spec fn inspection_limit(maximum_inspections: usize) -> int {
    if maximum_inspections < MAX_STREAMING_CANDIDATE_INSPECTIONS {
        maximum_inspections as int
    } else {
        MAX_STREAMING_CANDIDATE_INSPECTIONS as int
    }
}

/// A scan that finds nothing saw no pending slot at any later offset.
proof fn lemma_scan_none(pos: WalkPosition, urgency: StreamingUrgency, turn: int, k: int)
    requires
        0 <= turn < pos.len(),
        0 <= k <= pos.len(),
        pos.scan(urgency, turn, k) is None,
    ensures
        forall|off: int|
            k <= off < pos.len() ==> #[trigger] pos.slot(urgency, rotate(turn, off, pos.len())) is None,
    decreases pos.len() - k,
{
    if k < pos.len() {
        lemma_scan_none(pos, urgency, turn, k + 1);
    }
}

/// A scan that finds nothing means no slot of that urgency is pending.
proof fn lemma_chosen_none(pos: WalkPosition, urgency: StreamingUrgency)
    requires
        pos.wf(),
        pos.chosen(urgency) is None,
    ensures
        forall|i: int| 0 <= i < pos.len() ==> #[trigger] pos.slot(urgency, i) is None,
{
    if pos.len() > 0 {
        let turn = pos.turn(urgency);
        lemma_scan_none(pos, urgency, turn, 0);
        assert forall|i: int| 0 <= i < pos.len() implies #[trigger] pos.slot(urgency, i) is None by {
            let off = if i >= turn {
                i - turn
            } else {
                i + pos.len() - turn
            };
            assert(rotate(turn, off, pos.len()) == i);
            assert(pos.slot(urgency, rotate(turn, off, pos.len())) is None);
        }
    }
}

/// When the walk has nothing left to inspect, every interval is exhausted.
proof fn lemma_next_none_exhausted(pos: WalkPosition)
    requires
        pos.wf(),
        pos.next() is None,
    ensures
        pos.exhausted(),
{
    let u = pos.urgency();
    lemma_scan_in_range(pos, u, pos.turn(u), 0);
    lemma_chosen_none(pos, u);
    if pos.current_pending() {
        let i = choose|i: int| 0 <= i < pos.current.len() && #[trigger] pos.current[i] is Some;
        assert(pos.slot(StreamingUrgency::Current, i) is None);
    }
    assert forall|i: int| 0 <= i < pos.ahead.len() implies #[trigger] pos.ahead[i] is None by {
        assert(pos.slot(StreamingUrgency::Ahead, i) is None);
    }
}

/// Stepping keeps a position well formed.
proof fn lemma_step_wf(pos: WalkPosition, urgency: StreamingUrgency)
    requires
        pos.wf(),
    ensures
        pos.step_with(urgency).wf(),
        pos.step_with(urgency).demands == pos.demands,
{
    match pos.chosen(urgency) {
        None => {},
        Some(i) => {
            lemma_scan_in_range(pos, urgency, pos.turn(urgency), 0);
        },
    }
}

/// A scan only ever finds an index inside the position.
proof fn lemma_scan_in_range(pos: WalkPosition, urgency: StreamingUrgency, turn: int, k: int)
    requires
        pos.wf(),
        0 <= turn < pos.len() || pos.len() == 0,
    ensures
        pos.scan(urgency, turn, k) matches Some(i) ==> 0 <= i < pos.len() && pos.slot(urgency, i) is Some,
    decreases pos.len() - k,
{
    if 0 <= k < pos.len() {
        lemma_scan_in_range(pos, urgency, turn, k + 1);
    }
}

/// A walk with nothing left to inspect stands still.
proof fn lemma_stuck_step(pos: WalkPosition)
    requires
        pos.wf(),
        pos.next() is None,
    ensures
        pos.step() == pos,
{
    lemma_scan_in_range(pos, pos.urgency(), pos.turn(pos.urgency()), 0);
}

/// Every position a walk reaches is well formed and walks the same demands.
proof fn lemma_after_wf(pos: WalkPosition, n: nat)
    requires
        pos.wf(),
    ensures
        pos.after(n).wf(),
        pos.after(n).demands == pos.demands,
    decreases n,
{
    if n > 0 {
        lemma_after_wf(pos, (n - 1) as nat);
        lemma_step_wf(pos.after((n - 1) as nat), pos.after((n - 1) as nat).urgency());
    }
}

/// Once nothing is left, further steps change nothing.
proof fn lemma_after_stuck(pos: WalkPosition, k: nat, m: nat)
    requires
        pos.wf(),
        k <= m,
        pos.after(k).next() is None,
    ensures
        pos.after(m) == pos.after(k),
    decreases m - k,
{
    if k < m {
        lemma_after_stuck(pos, k, (m - 1) as nat);
        lemma_after_wf(pos, k);
        lemma_stuck_step(pos.after(k));
    }
}

/// The `k`-th piece of a walk is what the position after `k` inspections offers next.
pub proof fn lemma_walk_entries(pos: WalkPosition, n: nat)
    requires
        pos.wf(),
    ensures
        pos.walk(n).len() <= n,
        forall|k: int|
            0 <= k < pos.walk(n).len() ==> pos.after(k as nat).next() == Some(
                #[trigger] pos.walk(n)[k],
            ),
        pos.walk(n).len() < n ==> pos.after(pos.walk(n).len()).next() is None,
    decreases n,
{
    if n > 0 {
        let m = (n - 1) as nat;
        lemma_walk_entries(pos, m);
        let w = pos.walk(m);
        if w.len() < m {
            lemma_after_stuck(pos, w.len(), m);
        }
        assert forall|k: int| 0 <= k < pos.walk(n).len() implies pos.after(k as nat).next() == Some(
            #[trigger] pos.walk(n)[k],
        ) by {
            if k < w.len() {
                assert(pos.walk(n)[k] == w[k]);
            }
        }
    }
}

/// An ahead step leaves every current slot as it was.
proof fn lemma_ahead_step_keeps_current(pos: WalkPosition)
    requires
        pos.urgency() == StreamingUrgency::Ahead,
    ensures
        pos.step().current == pos.current,
        pos.step().urgency() == StreamingUrgency::Ahead,
{
}

/// Once the walk reaches ahead intervals it never returns to current ones.
proof fn lemma_ahead_persists(pos: WalkPosition, k: nat, m: nat)
    requires
        k <= m,
        pos.after(k).urgency() == StreamingUrgency::Ahead,
    ensures
        pos.after(m).urgency() == StreamingUrgency::Ahead,
    decreases m - k,
{
    if k < m {
        lemma_ahead_persists(pos, k, (m - 1) as nat);
        lemma_ahead_step_keeps_current(pos.after((m - 1) as nat));
    }
}

/// Current intervals are completely considered before any ahead interval:
/// after the first ahead piece of a walk, every later piece is an ahead piece.
pub proof fn lemma_current_before_ahead(pos: WalkPosition, n: nat, i: int, j: int)
    requires
        pos.wf(),
        0 <= i < j < pos.walk(n).len(),
        pos.walk(n)[i].1 == StreamingUrgency::Ahead,
    ensures
        pos.walk(n)[j].1 == StreamingUrgency::Ahead,
{
    lemma_walk_entries(pos, n);
    assert(pos.after(i as nat).next() == Some(pos.walk(n)[i]));
    assert(pos.after(j as nat).next() == Some(pos.walk(n)[j]));
    lemma_ahead_persists(pos, i as nat, j as nat);
}

/// A compact, fair cursor over a demand snapshot.
///
/// At most one cursor per admitted demand is retained. Current intervals are
/// completely considered before any ahead interval, and the inspection budget
/// bounds work even when a 64 KiB chunk spans 65,536 one-byte pieces.
#[derive(Debug)]
pub struct StreamingCandidateCursor {
    revision: u64,
    demands: Vec<DemandCursor>,
    current_turn: usize,
    ahead_turn: usize,
    finished: bool,
}

impl StreamingCandidateCursor {
    pub closed spec fn revision_view(&self) -> u64 {
        self.revision
    }

    pub closed spec fn finished_view(&self) -> bool {
        self.finished
    }

    /// Where the cursor's walk stands.
    pub closed spec fn position(&self) -> WalkPosition {
        WalkPosition {
            demands: self.demands@.map_values(|c: DemandCursor| c.demand),
            current: self.demands@.map_values(|c: DemandCursor| c.current),
            ahead: self.demands@.map_values(|c: DemandCursor| c.ahead),
            current_turn: self.current_turn as int,
            ahead_turn: self.ahead_turn as int,
        }
    }

    /// The demands the cursor walks, in admission order.
    pub open spec fn demands_view(&self) -> Seq<StreamingDemand> {
        self.position().demands
    }

    pub closed spec fn wf(&self) -> bool {
        &&& self.position().wf()
        &&& self.finished ==> self.position().exhausted()
    }

    pub fn new(snapshot: &StreamingDemandSnapshot) -> (r: Self)
        ensures
            r.wf(),
            r.revision_view() == snapshot.revision_view(),
            r.demands_view() == snapshot.demands_view(),
            r.finished_view() == (snapshot.demands_view().len() == 0),
            r.position().current_turn == 0,
            r.position().ahead_turn == 0,
            forall|i: int|
                0 <= i < snapshot.demands_view().len() ==> {
                    &&& #[trigger] r.position().current[i] == Some(
                        snapshot.demands_view()[i].current_view().first_piece(),
                    )
                    &&& r.position().ahead[i] == match snapshot.demands_view()[i].ahead_view() {
                        Some(a) => Some(a.first_piece()),
                        None => None,
                    }
                },
    {
        let mut demands: Vec<DemandCursor> = Vec::new();
        let mut i: usize = 0;
        while i < snapshot.demands.len()
            invariant
                i <= snapshot.demands@.len(),
                demands@.len() == i,
                forall|k: int|
                    0 <= k < i ==> {
                        &&& (#[trigger] demands@[k]).demand == snapshot.demands@[k]
                        &&& demands@[k].current == Some(snapshot.demands@[k].current.first)
                        &&& demands@[k].ahead == match snapshot.demands@[k].ahead {
                            Some(a) => Some(a.first),
                            None => None,
                        }
                    },
            decreases snapshot.demands@.len() - i,
        {
            let demand = snapshot.demands[i].duplicate();
            let ahead = match demand.ahead {
                Some(interval) => Some(interval.first),
                None => None,
            };
            demands.push(DemandCursor { current: Some(demand.current.first), ahead, demand });
            i += 1;
        }
        let r = StreamingCandidateCursor {
            revision: snapshot.revision,
            demands,
            current_turn: 0,
            ahead_turn: 0,
            finished: snapshot.demands.len() == 0,
        };
        assert(r.demands_view() =~= snapshot.demands_view());
        r
    }

    pub fn revision(&self) -> (r: u64)
        ensures
            r == self.revision_view(),
    {
        self.revision
    }

    /// How many demands the cursor walks.
    pub fn demand_count(&self) -> (count: usize)
        ensures
            count == self.demands_view().len(),
    {
        self.demands.len()
    }

    /// Inspects at most `min(maximum_inspections, 256)` pieces of the walk and
    /// returns the eligible ones, each at its first occurrence.
    pub fn take<F: Fn(u32) -> bool>(&mut self, maximum_inspections: usize, eligible: F) -> (r:
        StreamingCandidateBatch)
        requires
            old(self).wf(),
            forall|p: u32| eligible.requires((p,)),
        ensures
            final(self).wf(),
            final(self).revision_view() == old(self).revision_view(),
            final(self).demands_view() == old(self).demands_view(),
            r.finished == final(self).finished_view(),
            (maximum_inspections == 0 || old(self).finished_view()) ==> {
                &&& *final(self) == *old(self)
                &&& r.candidates@.len() == 0
                &&& r.inspected == 0
            },
            !(maximum_inspections == 0 || old(self).finished_view()) ==> {
                let walk = old(self).position().walk(r.inspected as nat);
                &&& r.inspected <= inspection_limit(maximum_inspections)
                &&& walk.len() == r.inspected
                &&& r.inspected < inspection_limit(maximum_inspections) ==> old(self).position().after(r.inspected as nat).next() is None
                &&& final(self).position() == old(self).position().after(r.inspected as nat)
                &&& r.finished == final(self).position().exhausted()
                &&& exists|verdicts: Seq<bool>|
                    {
                        &&& verdicts.len() == r.inspected
                        &&& forall|k: int|
                            0 <= k < r.inspected ==> eligible.ensures(
                                (#[trigger] walk[k].0,),
                                verdicts[k],
                            )
                        &&& r.candidates@ == kept(walk, verdicts)
                    }
            },
    {
        let limit = if maximum_inspections < MAX_STREAMING_CANDIDATE_INSPECTIONS {
            maximum_inspections
        } else {
            MAX_STREAMING_CANDIDATE_INSPECTIONS
        };
        if limit == 0 || self.finished {
            return StreamingCandidateBatch {
                candidates: Vec::new(),
                inspected: 0,
                finished: self.finished,
            };
        }
        let ghost start = self.position();
        let ghost mut verdicts: Seq<bool> = Seq::empty();
        let mut candidates: Vec<StreamingCandidate> = Vec::new();
        let mut inspected: usize = 0;
        while inspected < limit
            invariant
                self.wf(),
                !self.finished,
                start == old(self).position(),
                self.revision == old(self).revision,
                limit == inspection_limit(maximum_inspections),
                inspected <= limit,
                self.position() == start.after(inspected as nat),
                start.walk(inspected as nat).len() == inspected,
                forall|p: u32| eligible.requires((p,)),
                verdicts.len() == inspected,
                forall|k: int|
                    0 <= k < inspected ==> eligible.ensures(
                        (#[trigger] start.walk(inspected as nat)[k].0,),
                        verdicts[k],
                    ),
                candidates@ == kept(start.walk(inspected as nat), verdicts),
            ensures
                inspected < limit ==> start.after(inspected as nat).next() is None,
            decreases limit - inspected,
        {
            let ghost before = start.walk(inspected as nat);
            let next = self.next_piece();
            let (piece, urgency) = match next {
                None => {
                    proof {
                        lemma_stuck_step(start.after(inspected as nat));
                    }
                    break ;
                },
                Some(pair) => pair,
            };
            let ghost walked = before.push((piece, urgency));
            assert(start.walk((inspected + 1) as nat) == walked);
            let ok = eligible(piece);
            let fresh = !contains_piece(&candidates, piece);
            if ok && fresh {
                candidates.push(StreamingCandidate { piece, urgency });
            }
            proof {
                let new_verdicts = verdicts.push(ok);
                assert(walked.drop_last() =~= before);
                assert(new_verdicts.drop_last() =~= verdicts);
                assert forall|k: int| 0 <= k < inspected + 1 implies eligible.ensures(
                    (#[trigger] walked[k].0,),
                    new_verdicts[k],
                ) by {
                    if k < inspected {
                        assert(walked[k] == before[k]);
                    }
                }
                verdicts = new_verdicts;
            }
            inspected += 1;
        }
        let ended = self.all_exhausted();
        proof {
            if inspected < limit {
                lemma_next_none_exhausted(self.position());
            }
        }
        if ended {
            self.finished = true;
        }
        proof {
            lemma_after_wf(start, inspected as nat);
        }
        StreamingCandidateBatch { candidates, inspected, finished: self.finished }
    }

    fn all_exhausted(&self) -> (r: bool)
        ensures
            r == self.position().exhausted(),
    {
        let ghost pos = self.position();
        let mut i: usize = 0;
        while i < self.demands.len()
            invariant
                i <= self.demands@.len(),
                pos == self.position(),
                forall|k: int| 0 <= k < i ==> #[trigger] pos.current[k] is None && pos.ahead[k] is None,
            decreases self.demands@.len() - i,
        {
            assert(pos.current[i as int] == self.demands@[i as int].current);
            assert(pos.ahead[i as int] == self.demands@[i as int].ahead);
            if self.demands[i].current.is_some() || self.demands[i].ahead.is_some() {
                return false;
            }
            i += 1;
        }
        assert forall|k: int| 0 <= k < pos.ahead.len() implies #[trigger] pos.ahead[k] is None by {
            assert(pos.current[k] is None);
        }
        true
    }

    fn any_current(&self) -> (r: bool)
        ensures
            r == self.position().current_pending(),
    {
        let ghost pos = self.position();
        let mut i: usize = 0;
        while i < self.demands.len()
            invariant
                i <= self.demands@.len(),
                pos == self.position(),
                forall|k: int| 0 <= k < i ==> #[trigger] pos.current[k] is None,
            decreases self.demands@.len() - i,
        {
            assert(pos.current[i as int] == self.demands@[i as int].current);
            if self.demands[i].current.is_some() {
                return true;
            }
            i += 1;
        }
        false
    }

    fn next_piece(&mut self) -> (r: Option<(u32, StreamingUrgency)>)
        requires
            old(self).wf(),
            !old(self).finished,
        ensures
            final(self).wf(),
            !final(self).finished,
            final(self).revision == old(self).revision,
            r == old(self).position().next(),
            final(self).position() == old(self).position().step(),
    {
        if self.demands.len() == 0 {
            return None;
        }
        if self.any_current() {
            match self.next_for_urgency(StreamingUrgency::Current) {
                Some(piece) => Some((piece, StreamingUrgency::Current)),
                None => None,
            }
        } else {
            match self.next_for_urgency(StreamingUrgency::Ahead) {
                Some(piece) => Some((piece, StreamingUrgency::Ahead)),
                None => None,
            }
        }
    }

    fn next_for_urgency(&mut self, urgency: StreamingUrgency) -> (r: Option<u32>)
        requires
            old(self).wf(),
            !old(self).finished,
            old(self).demands@.len() > 0,
        ensures
            final(self).wf(),
            !final(self).finished,
            final(self).revision == old(self).revision,
            r == old(self).position().next_with(urgency),
            final(self).position() == old(self).position().step_with(urgency),
    {
        let len = self.demands.len();
        let ghost pos = old(self).position();
        let ghost start = pos.turn(urgency);
        let mut k: usize = 0;
        while k < len
            invariant
                len == self.demands@.len(),
                len == pos.len(),
                pos.wf(),
                pos == old(self).position(),
                0 <= start < len,
                start == pos.turn(urgency),
                k <= len,
                !self.finished,
                self.revision == old(self).revision,
                self.demands@ == old(self).demands@,
                self.position() == (match urgency {
                    StreamingUrgency::Current => WalkPosition {
                        current_turn: rotate(start, k as int, len as int),
                        ..pos
                    },
                    StreamingUrgency::Ahead => WalkPosition {
                        ahead_turn: rotate(start, k as int, len as int),
                        ..pos
                    },
                }),
                pos.scan(urgency, start, 0) == pos.scan(urgency, start, k as int),
            decreases len - k,
        {
            let index = match urgency {
                StreamingUrgency::Current => self.current_turn,
                StreamingUrgency::Ahead => self.ahead_turn,
            };
            assert(index as int == rotate(start, k as int, len as int));
            let next_turn = if index + 1 < len {
                index + 1
            } else {
                0
            };
            match urgency {
                StreamingUrgency::Current => self.current_turn = next_turn,
                StreamingUrgency::Ahead => self.ahead_turn = next_turn,
            }
            let slot = match urgency {
                StreamingUrgency::Current => self.demands[index].current,
                StreamingUrgency::Ahead => self.demands[index].ahead,
            };
            assert(slot == pos.slot(urgency, index as int));
            match slot {
                None => {
                    k += 1;
                    assert(rotate(start, k as int, len as int) == next_turn);
                },
                Some(piece) => {
                    let last = match urgency {
                        StreamingUrgency::Current => self.demands[index].demand.current.last,
                        StreamingUrgency::Ahead => match self.demands[index].demand.ahead {
                            Some(interval) => interval.last,
                            None => piece,
                        },
                    };
                    let following = if piece < last {
                        Some(piece + 1)
                    } else {
                        None
                    };
                    assert(pos.demands[index as int] == self.demands@[index as int].demand);
                    assert(following == pos.following(urgency, index as int));
                    let old_cursor = &self.demands[index];
                    let demand = old_cursor.demand.duplicate();
                    let updated = match urgency {
                        StreamingUrgency::Current => DemandCursor {
                            current: following,
                            ahead: old_cursor.ahead,
                            demand,
                        },
                        StreamingUrgency::Ahead => DemandCursor {
                            current: old_cursor.current,
                            ahead: following,
                            demand,
                        },
                    };
                    self.demands.set(index, updated);
                    proof {
                        let stepped = pos.step_with(urgency);
                        assert(pos.chosen(urgency) == Some(index as int));
                        let here = self.position();
                        assert(here.demands =~= stepped.demands);
                        assert(here.current =~= stepped.current);
                        assert(here.ahead =~= stepped.ahead);
                        assert(rotate(index as int, 1, len as int) == next_turn);
                    }
                    return Some(piece);
                },
            }
        }
        proof {
            assert(pos.scan(urgency, start, len as int) is None);
            assert(rotate(start, len as int, len as int) == start);
            assert(self.position() =~= pos);
        }
        None
    }
}

fn contains_piece(candidates: &Vec<StreamingCandidate>, piece: u32) -> (r: bool)
    ensures
        r == has_piece(candidates@, piece),
{
    let mut i: usize = 0;
    while i < candidates.len()
        invariant
            i <= candidates@.len(),
            forall|k: int| 0 <= k < i ==> #[trigger] candidates@[k].piece != piece,
        decreases candidates@.len() - i,
    {
        if candidates[i].piece == piece {
            return true;
        }
        i += 1;
    }
    false
}

} // verus!

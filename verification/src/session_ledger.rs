//! The session-wide ledger of download resources.
//!
//! Every torrent generation registered with the session draws request
//! bytes, buffered payload bytes and active pieces from ceilings shared by
//! the whole session, so the ceilings do not multiply with the number of
//! torrents. The session totals are always the sums of what the
//! registrations hold, never above their ceilings, and a registration that
//! goes away gives back everything it still held.
use vstd::prelude::*;
use crate::session_resources::{
    checked_release, lists_root, load, reports_counters, roots_ordered, storage_root_snapshots,
    try_reserve, FairExecutionState, SessionDownloadResourceSnapshot,
};

verus! {

/// The ceilings shared by every torrent of a session.
#[derive(Clone, Copy, Debug, PartialEq, Eq, Structural)]
pub struct DownloadResourceLimits {
    pub max_outstanding_request_bytes: usize,
    pub max_buffered_payload_bytes: usize,
    pub max_active_piece_bytes: usize,
    pub max_active_pieces: usize,
}

/// How many storage writes, storage hashes and tracker operations run,
/// each with its high-water mark.
#[derive(Clone, Copy, Debug, Default, PartialEq, Eq)]
pub struct ExecutionActivity {
    pub active_storage_writes: usize,
    pub active_storage_writes_high_water: usize,
    pub active_storage_hashes: usize,
    pub active_storage_hashes_high_water: usize,
    pub active_tracker_operations: usize,
    pub active_tracker_operations_high_water: usize,
}

/// What one registered torrent generation holds.
#[derive(Debug)]
pub struct TorrentResourceUsage {
    pub id: u64,
    pub torrent_id: String,
    pub generation: u64,
    pub storage_root: String,
    pub request_bytes: usize,
    pub payload_bytes: usize,
    pub active_piece_bytes: usize,
    pub active_pieces: usize,
}

/// The handle of one registered torrent generation.
#[derive(Clone, Copy, Debug, PartialEq, Eq, Structural)]
pub struct SessionTorrentResources {
    pub id: u64,
}

/// The session-wide authority over download resources: the totals, their
/// high-water marks, the registrations and the turn of outbound dials.
pub struct SessionDownloadResources {
    limits: DownloadResourceLimits,
    storage_write_concurrency: usize,
    storage_hash_concurrency: usize,
    request_bytes: usize,
    request_high_water: usize,
    payload_bytes: usize,
    payload_high_water: usize,
    active_piece_bytes: usize,
    active_piece_bytes_high_water: usize,
    active_pieces: usize,
    active_pieces_high_water: usize,
    registrations: Vec<TorrentResourceUsage>,
    keys: Vec<(String, u64)>,
    next_registration: u64,
    last_outbound: Option<(String, u64)>,
    outbound_turns_granted: usize,
}

/// The abstract session resources.
pub struct ResourcesView {
    pub limits: DownloadResourceLimits,
    pub storage_write_concurrency: usize,
    pub storage_hash_concurrency: usize,
    pub request_bytes: usize,
    pub request_high_water: usize,
    pub payload_bytes: usize,
    pub payload_high_water: usize,
    pub active_piece_bytes: usize,
    pub active_piece_bytes_high_water: usize,
    pub active_pieces: usize,
    pub active_pieces_high_water: usize,
    pub registrations: Seq<TorrentResourceUsage>,
    pub keys: Seq<(Seq<char>, u64)>,
    pub next_registration: u64,
    pub last_outbound: Option<(Seq<char>, u64)>,
    pub outbound_turns_granted: usize,
}

/// A registration key as text and generation.
pub open spec fn key_view(key: (String, u64)) -> (Seq<char>, u64) {
    (key.0@, key.1)
}

/// Registration keys as text and generation.
pub open spec fn keys_view(keys: Seq<(String, u64)>) -> Seq<(Seq<char>, u64)> {
    keys.map_values(|k: (String, u64)| key_view(k))
}

/// The key of a registration.
pub open spec fn key_of(u: TorrentResourceUsage) -> (Seq<char>, u64) {
    (u.torrent_id@, u.generation)
}

impl View for SessionDownloadResources {
    type V = ResourcesView;

    closed spec fn view(&self) -> ResourcesView {
        ResourcesView {
            limits: self.limits,
            storage_write_concurrency: self.storage_write_concurrency,
            storage_hash_concurrency: self.storage_hash_concurrency,
            request_bytes: self.request_bytes,
            request_high_water: self.request_high_water,
            payload_bytes: self.payload_bytes,
            payload_high_water: self.payload_high_water,
            active_piece_bytes: self.active_piece_bytes,
            active_piece_bytes_high_water: self.active_piece_bytes_high_water,
            active_pieces: self.active_pieces,
            active_pieces_high_water: self.active_pieces_high_water,
            registrations: self.registrations@,
            keys: keys_view(self.keys@),
            next_registration: self.next_registration,
            last_outbound: match self.last_outbound {
                Some(k) => Some(key_view(k)),
                None => None,
            },
            outbound_turns_granted: self.outbound_turns_granted,
        }
    }
}

/// The sum of `f` over the registrations.
pub open spec fn total(s: Seq<TorrentResourceUsage>, f: spec_fn(TorrentResourceUsage) -> nat) -> nat
    decreases s.len(),
{
    if s.len() == 0 {
        0
    } else {
        total(s.drop_last(), f) + f(s.last())
    }
}

/// Request bytes held.
pub open spec fn requests_held() -> spec_fn(TorrentResourceUsage) -> nat {
    |u: TorrentResourceUsage| u.request_bytes as nat
}

/// Payload bytes held.
pub open spec fn payloads_held() -> spec_fn(TorrentResourceUsage) -> nat {
    |u: TorrentResourceUsage| u.payload_bytes as nat
}

/// Active piece bytes held.
pub open spec fn piece_bytes_held() -> spec_fn(TorrentResourceUsage) -> nat {
    |u: TorrentResourceUsage| u.active_piece_bytes as nat
}

/// Active pieces held.
pub open spec fn pieces_held() -> spec_fn(TorrentResourceUsage) -> nat {
    |u: TorrentResourceUsage| u.active_pieces as nat
}

/// `value`, raised to at least `floor`.
pub open spec fn at_least(value: usize, floor: usize) -> usize {
    if value < floor {
        floor
    } else {
        value
    }
}

/// The wrapped successor used by the turn counter.
pub open spec fn bump(value: usize) -> usize {
    if value == usize::MAX {
        0
    } else {
        (value + 1) as usize
    }
}

/// `u` holding the given amounts.
pub open spec fn holding(u: TorrentResourceUsage, request: int, payload: int, piece_bytes: int, pieces: int) -> TorrentResourceUsage {
    TorrentResourceUsage {
        request_bytes: request as usize,
        payload_bytes: payload as usize,
        active_piece_bytes: piece_bytes as usize,
        active_pieces: pieces as usize,
        ..u
    }
}

/// The position of `key` among `keys`, if present.
pub open spec fn key_index(keys: Seq<(Seq<char>, u64)>, key: (Seq<char>, u64)) -> Option<int> {
    if exists|i: int| 0 <= i < keys.len() && #[trigger] keys[i] == key {
        Some(choose|i: int| 0 <= i < keys.len() && #[trigger] keys[i] == key)
    } else {
        None
    }
}

impl ResourcesView {
    /// The invariant: each total is the sum of what the registrations hold,
    /// within its ceiling and under its high-water mark; registration ids
    /// increase along the list and stay below the next id; no key is listed
    /// twice.
    pub open spec fn wf(&self) -> bool {
        &&& self.request_bytes == total(self.registrations, requests_held())
        &&& self.payload_bytes == total(self.registrations, payloads_held())
        &&& self.active_piece_bytes == total(self.registrations, piece_bytes_held())
        &&& self.active_pieces == total(self.registrations, pieces_held())
        &&& self.request_bytes <= self.limits.max_outstanding_request_bytes
        &&& self.payload_bytes <= self.limits.max_buffered_payload_bytes
        &&& self.active_piece_bytes <= self.limits.max_active_piece_bytes
        &&& self.active_pieces <= self.limits.max_active_pieces
        &&& self.request_bytes <= self.request_high_water
        &&& self.payload_bytes <= self.payload_high_water
        &&& self.active_piece_bytes <= self.active_piece_bytes_high_water
        &&& self.active_pieces <= self.active_pieces_high_water
        &&& forall|i: int, j: int|
            0 <= i < j < self.registrations.len() ==> #[trigger] self.registrations[i].id
                < #[trigger] self.registrations[j].id
        &&& forall|i: int| 0 <= i < self.registrations.len() ==> #[trigger] self.registrations[i].id
            < self.next_registration
        &&& self.keys.no_duplicates()
    }

    /// The position of registration `id`, if present.
    pub open spec fn position(&self, id: u64) -> Option<int> {
        if exists|i: int| 0 <= i < self.registrations.len() && #[trigger] self.registrations[i].id == id {
            Some(choose|i: int| 0 <= i < self.registrations.len() && #[trigger] self.registrations[i].id == id)
        } else {
            None
        }
    }

    /// Whether `torrent` is registered.
    pub open spec fn registered(&self, torrent: u64) -> bool {
        self.position(torrent) is Some
    }

    /// The position of `torrent` among the registrations.
    pub open spec fn index_of(&self, torrent: u64) -> int {
        match self.position(torrent) {
            Some(k) => k,
            None => 0,
        }
    }

    /// What `torrent` holds.
    pub open spec fn usage(&self, torrent: u64) -> TorrentResourceUsage {
        self.registrations[self.index_of(torrent)]
    }

    /// The resources with the holdings of `torrent`, and the session
    /// totals, moved by the given amounts.
    pub open spec fn moved(&self, torrent: u64, request: int, payload: int, piece_bytes: int, pieces: int) -> ResourcesView {
        let u = self.usage(torrent);
        ResourcesView {
            request_bytes: (self.request_bytes + request) as usize,
            payload_bytes: (self.payload_bytes + payload) as usize,
            active_piece_bytes: (self.active_piece_bytes + piece_bytes) as usize,
            active_pieces: (self.active_pieces + pieces) as usize,
            registrations: self.registrations.update(
                self.index_of(torrent),
                holding(
                    u,
                    u.request_bytes + request,
                    u.payload_bytes + payload,
                    u.active_piece_bytes + piece_bytes,
                    u.active_pieces + pieces,
                ),
            ),
            ..*self
        }
    }

    /// The resources with every high-water mark raised to its total.
    pub open spec fn marked(&self) -> ResourcesView {
        ResourcesView {
            request_high_water: at_least(self.request_high_water, self.request_bytes),
            payload_high_water: at_least(self.payload_high_water, self.payload_bytes),
            active_piece_bytes_high_water: at_least(self.active_piece_bytes_high_water, self.active_piece_bytes),
            active_pieces_high_water: at_least(self.active_pieces_high_water, self.active_pieces),
            ..*self
        }
    }

    /// What asking for an outbound turn does for `torrent`: a torrent that
    /// had the last turn is refused once and yields it; any other is granted.
    pub open spec fn turn(&self, torrent: u64) -> (ResourcesView, bool) {
        let key = key_of(self.usage(torrent));
        if self.last_outbound == Some(key) {
            (ResourcesView { last_outbound: None, ..*self }, false)
        } else {
            (
                ResourcesView {
                    last_outbound: Some(key),
                    outbound_turns_granted: bump(self.outbound_turns_granted),
                    ..*self
                },
                true,
            )
        }
    }

    /// The resources once `torrent` is gone: everything it held is given
    /// back and its key is forgotten.
    pub open spec fn unregistered(&self, torrent: u64) -> ResourcesView {
        let u = self.usage(torrent);
        ResourcesView {
            request_bytes: (self.request_bytes - u.request_bytes) as usize,
            payload_bytes: (self.payload_bytes - u.payload_bytes) as usize,
            active_piece_bytes: (self.active_piece_bytes - u.active_piece_bytes) as usize,
            active_pieces: (self.active_pieces - u.active_pieces) as usize,
            registrations: self.registrations.remove(self.index_of(torrent)),
            keys: match key_index(self.keys, key_of(u)) {
                Some(i) => self.keys.remove(i),
                None => self.keys,
            },
            ..*self
        }
    }
}

proof fn lemma_total_update(s: Seq<TorrentResourceUsage>, i: int, u: TorrentResourceUsage, f: spec_fn(TorrentResourceUsage) -> nat)
    requires
        0 <= i < s.len(),
    ensures
        total(s.update(i, u), f) + f(s[i]) == total(s, f) + f(u),
    decreases s.len(),
{
    if i < s.len() - 1 {
        lemma_total_update(s.drop_last(), i, u, f);
        assert(s.update(i, u).drop_last() =~= s.drop_last().update(i, u));
        assert(s.update(i, u).last() == s.last());
    } else {
        assert(s.update(i, u).drop_last() =~= s.drop_last());
    }
}

proof fn lemma_total_push(s: Seq<TorrentResourceUsage>, u: TorrentResourceUsage, f: spec_fn(TorrentResourceUsage) -> nat)
    ensures
        total(s.push(u), f) == total(s, f) + f(u),
{
    assert(s.push(u).drop_last() =~= s);
}

proof fn lemma_total_remove(s: Seq<TorrentResourceUsage>, i: int, f: spec_fn(TorrentResourceUsage) -> nat)
    requires
        0 <= i < s.len(),
    ensures
        total(s.remove(i), f) + f(s[i]) == total(s, f),
    decreases s.len(),
{
    if i == s.len() - 1 {
        assert(s.remove(i) =~= s.drop_last());
    } else {
        lemma_total_remove(s.drop_last(), i, f);
        assert(s.remove(i).drop_last() =~= s.drop_last().remove(i));
        assert(s.remove(i).last() == s.last());
    }
}

proof fn lemma_total_at_least(s: Seq<TorrentResourceUsage>, i: int, f: spec_fn(TorrentResourceUsage) -> nat)
    requires
        0 <= i < s.len(),
    ensures
        f(s[i]) <= total(s, f),
{
    lemma_total_remove(s, i, f);
}

proof fn lemma_position_at(v: ResourcesView, k: int)
    requires
        v.wf(),
        0 <= k < v.registrations.len(),
    ensures
        v.position(v.registrations[k].id) == Some(k),
{
    let id = v.registrations[k].id;
    let c = choose|i: int| 0 <= i < v.registrations.len() && #[trigger] v.registrations[i].id == id;
    if c < k {
        assert(v.registrations[c].id < v.registrations[k].id);
    } else if c > k {
        assert(v.registrations[k].id < v.registrations[c].id);
    }
}

proof fn lemma_moved(v: ResourcesView, torrent: u64, request: int, payload: int, piece_bytes: int, pieces: int)
    requires
        v.wf(),
        v.registered(torrent),
        v.usage(torrent).request_bytes + request >= 0,
        v.usage(torrent).payload_bytes + payload >= 0,
        v.usage(torrent).active_piece_bytes + piece_bytes >= 0,
        v.usage(torrent).active_pieces + pieces >= 0,
        v.request_bytes + request <= v.limits.max_outstanding_request_bytes,
        v.payload_bytes + payload <= v.limits.max_buffered_payload_bytes,
        v.active_piece_bytes + piece_bytes <= v.limits.max_active_piece_bytes,
        v.active_pieces + pieces <= v.limits.max_active_pieces,
    ensures
        v.moved(torrent, request, payload, piece_bytes, pieces).marked().wf(),
        v.moved(torrent, request, payload, piece_bytes, pieces).marked().position(torrent) == v.position(torrent),
        v.moved(torrent, request, payload, piece_bytes, pieces).position(torrent) == v.position(torrent),
        request <= 0 && payload <= 0 && piece_bytes <= 0 && pieces <= 0 ==> v.moved(
            torrent,
            request,
            payload,
            piece_bytes,
            pieces,
        ).marked() == v.moved(torrent, request, payload, piece_bytes, pieces),
{
    let k = v.index_of(torrent);
    let u = v.registrations[k];
    let w = holding(u, u.request_bytes + request, u.payload_bytes + payload, u.active_piece_bytes + piece_bytes, u.active_pieces + pieces);
    let m = v.moved(torrent, request, payload, piece_bytes, pieces);
    lemma_total_update(v.registrations, k, w, requests_held());
    lemma_total_update(v.registrations, k, w, payloads_held());
    lemma_total_update(v.registrations, k, w, piece_bytes_held());
    lemma_total_update(v.registrations, k, w, pieces_held());
    lemma_total_at_least(v.registrations, k, requests_held());
    lemma_total_at_least(v.registrations, k, payloads_held());
    lemma_total_at_least(v.registrations, k, piece_bytes_held());
    lemma_total_at_least(v.registrations, k, pieces_held());
    assert(m.marked().wf());
    lemma_position_at(m.marked(), k);
    assert(m.marked().registrations == m.registrations);
}


/// Giving back what a reservation took leaves the totals and every
/// registration's holdings as they were before it; only the high-water marks
/// remember it.
pub proof fn lemma_release_undoes_reservation(
    v: ResourcesView,
    torrent: u64,
    request: usize,
    payload: usize,
    piece_bytes: usize,
    pieces: usize,
)
    requires
        v.wf(),
        v.registered(torrent),
        v.request_bytes + request <= v.limits.max_outstanding_request_bytes,
        v.payload_bytes + payload <= v.limits.max_buffered_payload_bytes,
        v.active_piece_bytes + piece_bytes <= v.limits.max_active_piece_bytes,
        v.active_pieces + pieces <= v.limits.max_active_pieces,
    ensures
        ({
            let reserved = v.moved(torrent, request as int, payload as int, piece_bytes as int, pieces as int).marked();
            let released = reserved.moved(torrent, -request, -payload, -piece_bytes, -pieces);
            released == ResourcesView {
                request_high_water: reserved.request_high_water,
                payload_high_water: reserved.payload_high_water,
                active_piece_bytes_high_water: reserved.active_piece_bytes_high_water,
                active_pieces_high_water: reserved.active_pieces_high_water,
                ..v
            }
        }),
{
    lemma_moved(v, torrent, request as int, payload as int, piece_bytes as int, pieces as int);
    let k = v.index_of(torrent);
    let reserved = v.moved(torrent, request as int, payload as int, piece_bytes as int, pieces as int).marked();
    let released = reserved.moved(torrent, -request, -payload, -piece_bytes, -pieces);
    lemma_total_at_least(v.registrations, k, requests_held());
    lemma_total_at_least(v.registrations, k, payloads_held());
    lemma_total_at_least(v.registrations, k, piece_bytes_held());
    lemma_total_at_least(v.registrations, k, pieces_held());
    assert(reserved.index_of(torrent) == k);
    assert(released.registrations[k] == v.registrations[k]);
    assert(released.registrations =~= v.registrations);
}

/// A session with no registration holds nothing.
pub proof fn lemma_no_registration_holds_nothing(v: ResourcesView)
    requires
        v.wf(),
        v.registrations.len() == 0,
    ensures
        v.request_bytes == 0,
        v.payload_bytes == 0,
        v.active_piece_bytes == 0,
        v.active_pieces == 0,
{
}

/// Outbound turns yield between repeated requests: of two asks in a row by
/// one torrent, one is refused; after a refusal the torrent's next ask is
/// granted; and after a torrent is granted a turn, a torrent under another
/// key is granted the next.
pub proof fn lemma_outbound_turns_alternate(v: ResourcesView, torrent: u64, other: u64)
    requires
        v.wf(),
        v.registered(torrent),
        v.registered(other),
    ensures
        !(v.turn(torrent).1 && v.turn(torrent).0.turn(torrent).1),
        !v.turn(torrent).1 ==> v.turn(torrent).0.turn(torrent).1,
        v.turn(torrent).1 && key_of(v.usage(other)) != key_of(v.usage(torrent)) ==> v.turn(torrent).0.turn(other).1,
{
    assert(v.turn(torrent).0.registrations == v.registrations);
}

proof fn lemma_key_index_at(keys: Seq<(Seq<char>, u64)>, k: int)
    requires
        keys.no_duplicates(),
        0 <= k < keys.len(),
    ensures
        key_index(keys, keys[k]) == Some(k),
{
    let c = choose|i: int| 0 <= i < keys.len() && #[trigger] keys[i] == keys[k];
    assert(keys[c] == keys[k]);
}

/// The key of `torrent_id` at `generation`, if listed.
fn find_key(keys: &Vec<(String, u64)>, torrent_id: &String, generation: u64) -> (found: Option<usize>)
    requires
        keys_view(keys@).no_duplicates(),
    ensures
        found matches Some(i) ==> key_index(keys_view(keys@), (torrent_id@, generation)) == Some(i as int),
        found is None ==> key_index(keys_view(keys@), (torrent_id@, generation)) is None,
{
    let ghost view = keys_view(keys@);
    let mut k: usize = 0;
    while k < keys.len()
        invariant
            k <= keys@.len(),
            view == keys_view(keys@),
            view.no_duplicates(),
            forall|i: int| 0 <= i < k ==> #[trigger] view[i] != (torrent_id@, generation),
        decreases keys@.len() - k,
    {
        if keys[k].1 == generation && keys[k].0 == *torrent_id {
            proof {
                assert(view[k as int] == (torrent_id@, generation));
                lemma_key_index_at(view, k as int);
            }
            return Some(k);
        }
        assert(view[k as int] != (torrent_id@, generation));
        k += 1;
    }
    None
}

impl SessionDownloadResources {
    /// Empty session resources under `limits`, with the given storage write
    /// and hash concurrency.
    pub fn new(limits: DownloadResourceLimits, storage_write_concurrency: usize, storage_hash_concurrency: usize) -> (resources: Self)
        requires
            storage_write_concurrency > 0,
            storage_hash_concurrency > 0,
        ensures
            resources@.wf(),
            resources@ == (ResourcesView {
                limits,
                storage_write_concurrency,
                storage_hash_concurrency,
                request_bytes: 0,
                request_high_water: 0,
                payload_bytes: 0,
                payload_high_water: 0,
                active_piece_bytes: 0,
                active_piece_bytes_high_water: 0,
                active_pieces: 0,
                active_pieces_high_water: 0,
                registrations: Seq::empty(),
                keys: Seq::empty(),
                next_registration: 0,
                last_outbound: None,
                outbound_turns_granted: 0,
            }),
    {
        let resources = SessionDownloadResources {
            limits,
            storage_write_concurrency,
            storage_hash_concurrency,
            request_bytes: 0,
            request_high_water: 0,
            payload_bytes: 0,
            payload_high_water: 0,
            active_piece_bytes: 0,
            active_piece_bytes_high_water: 0,
            active_pieces: 0,
            active_pieces_high_water: 0,
            registrations: Vec::new(),
            keys: Vec::new(),
            next_registration: 0,
            last_outbound: None,
            outbound_turns_granted: 0,
        };
        assert(resources@.registrations =~= Seq::<TorrentResourceUsage>::empty());
        assert(resources@.keys =~= Seq::<(Seq<char>, u64)>::empty());
        resources
    }

    /// The ceilings.
    pub fn limits(&self) -> (limits: DownloadResourceLimits)
        ensures
            limits == self@.limits,
    {
        self.limits
    }

    /// How many storage writes run at once.
    pub fn storage_write_concurrency(&self) -> (concurrency: usize)
        ensures
            concurrency == self@.storage_write_concurrency,
    {
        self.storage_write_concurrency
    }

    /// How many storage hashes run at once.
    pub fn storage_hash_concurrency(&self) -> (concurrency: usize)
        ensures
            concurrency == self@.storage_hash_concurrency,
    {
        self.storage_hash_concurrency
    }

    /// The id the next registration receives.
    pub fn next_registration(&self) -> (id: u64)
        ensures
            id == self@.next_registration,
    {
        self.next_registration
    }

    /// The position of registration `id`.
    fn find(&self, id: u64) -> (found: Option<usize>)
        requires
            self@.wf(),
        ensures
            found matches Some(k) ==> self@.position(id) == Some(k as int),
            found is None ==> self@.position(id) is None,
    {
        let mut k: usize = 0;
        while k < self.registrations.len()
            invariant
                k <= self.registrations@.len(),
                self@.wf(),
                forall|i: int| 0 <= i < k ==> (#[trigger] self.registrations@[i]).id != id,
            decreases self.registrations@.len() - k,
        {
            if self.registrations[k].id == id {
                proof {
                    lemma_position_at(self@, k as int);
                }
                return Some(k);
            }
            k += 1;
        }
        None
    }

    /// The position of a registered torrent.
    fn index(&self, torrent: &SessionTorrentResources) -> (k: usize)
        requires
            self@.wf(),
            self@.registered(torrent.id),
        ensures
            k == self@.index_of(torrent.id),
            0 <= k < self@.registrations.len(),
            self@.registrations[k as int].id == torrent.id,
    {
        match self.find(torrent.id) {
            Some(k) => k,
            None => 0,
        }
    }

    /// Registers generation `generation` of `torrent_id`, whose storage
    /// lives on `storage_root`.
    pub fn register(&mut self, torrent_id: &str, generation: u64, storage_root: &str) -> (torrent: SessionTorrentResources)
        requires
            old(self)@.wf(),
            old(self)@.next_registration < u64::MAX,
        ensures
            final(self)@.wf(),
            torrent.id == old(self)@.next_registration,
            final(self)@.registered(torrent.id),
            final(self)@ == (ResourcesView {
                registrations: old(self)@.registrations.push(
                    TorrentResourceUsage {
                        id: torrent.id,
                        torrent_id: final(self)@.usage(torrent.id).torrent_id,
                        generation,
                        storage_root: final(self)@.usage(torrent.id).storage_root,
                        request_bytes: 0,
                        payload_bytes: 0,
                        active_piece_bytes: 0,
                        active_pieces: 0,
                    },
                ),
                keys: if key_index(old(self)@.keys, (torrent_id@, generation)) is Some {
                    old(self)@.keys
                } else {
                    old(self)@.keys.push((torrent_id@, generation))
                },
                next_registration: (torrent.id + 1) as u64,
                ..old(self)@
            }),
            final(self)@.usage(torrent.id).torrent_id@ == torrent_id@,
            final(self)@.usage(torrent.id).storage_root@ == storage_root@,
    {
        let id = self.next_registration;
        let name = torrent_id.to_owned();
        let usage = TorrentResourceUsage {
            id,
            torrent_id: name.clone(),
            generation,
            storage_root: storage_root.to_owned(),
            request_bytes: 0,
            payload_bytes: 0,
            active_piece_bytes: 0,
            active_pieces: 0,
        };
        let ghost before = self.registrations@;
        let ghost keys_before = self@.keys;
        let listed = find_key(&self.keys, &name, generation);
        if listed.is_none() {
            self.keys.push((name, generation));
            proof {
                assert(self@.keys =~= keys_before.push((torrent_id@, generation)));
                assert forall|i: int, j: int| 0 <= i < j < self@.keys.len() implies self@.keys[i] != self@.keys[j] by {
                    if j == self@.keys.len() - 1 {
                        assert(keys_before[i] != (torrent_id@, generation));
                    }
                }
            }
        }
        self.registrations.push(usage);
        self.next_registration = id + 1;
        proof {
            lemma_total_push(before, usage, requests_held());
            lemma_total_push(before, usage, payloads_held());
            lemma_total_push(before, usage, piece_bytes_held());
            lemma_total_push(before, usage, pieces_held());
            lemma_position_at(self@, before.len() as int);
        }
        SessionTorrentResources { id }
    }

    /// Sets what registration `k` holds.
    fn set_holdings(&mut self, k: usize, request: usize, payload: usize, piece_bytes: usize, pieces: usize)
        requires
            k < old(self)@.registrations.len(),
        ensures
            final(self)@ == (ResourcesView {
                registrations: old(self)@.registrations.update(
                    k as int,
                    holding(old(self)@.registrations[k as int], request as int, payload as int, piece_bytes as int, pieces as int),
                ),
                ..old(self)@
            }),
    {
        let ghost before = self.registrations@;
        let mut u = self.registrations.remove(k);
        u.request_bytes = request;
        u.payload_bytes = payload;
        u.active_piece_bytes = piece_bytes;
        u.active_pieces = pieces;
        self.registrations.insert(k, u);
        assert(self.registrations@ =~= before.update(
            k as int,
            holding(before[k as int], request as int, payload as int, piece_bytes as int, pieces as int),
        ));
    }

    /// Reserves `bytes` of outstanding requests for `torrent`, unless the
    /// session ceiling would be passed.
    pub fn try_reserve_request_bytes(&mut self, torrent: &SessionTorrentResources, bytes: usize) -> (reserved: bool)
        requires
            old(self)@.wf(),
            old(self)@.registered(torrent.id),
        ensures
            final(self)@.wf(),
            reserved == (old(self)@.request_bytes + bytes <= old(self)@.limits.max_outstanding_request_bytes),
            reserved ==> final(self)@ == old(self)@.moved(torrent.id, bytes as int, 0, 0, 0).marked(),
            !reserved ==> final(self)@ == old(self)@,
    {
        let k = self.index(torrent);
        let limit = self.limits.max_outstanding_request_bytes;
        if try_reserve(&mut self.request_bytes, &mut self.request_high_water, limit, bytes).is_none() {
            return false;
        }
        proof {
            lemma_total_at_least(self.registrations@, k as int, requests_held());
        }
        let u = &self.registrations[k];
        let (request, payload, piece_bytes, pieces) = (u.request_bytes + bytes, u.payload_bytes, u.active_piece_bytes, u.active_pieces);
        self.set_holdings(k, request, payload, piece_bytes, pieces);
        proof {
            lemma_moved(old(self)@, torrent.id, bytes as int, 0, 0, 0);
        }
        true
    }

    /// Whether `bytes` more of outstanding requests would fit the ceiling.
    pub fn can_reserve_request_bytes(&self, bytes: usize) -> (fits: bool)
        ensures
            fits == (self@.request_bytes + bytes <= self@.limits.max_outstanding_request_bytes),
    {
        match load(&self.request_bytes).checked_add(bytes) {
            Some(next) => next <= self.limits.max_outstanding_request_bytes,
            None => false,
        }
    }

    /// Gives back `bytes` of outstanding requests held by `torrent`.
    pub fn release_request_bytes(&mut self, torrent: &SessionTorrentResources, bytes: usize)
        requires
            old(self)@.wf(),
            old(self)@.registered(torrent.id),
            bytes <= old(self)@.usage(torrent.id).request_bytes,
        ensures
            final(self)@.wf(),
            final(self)@ == old(self)@.moved(torrent.id, -bytes, 0, 0, 0),
    {
        let k = self.index(torrent);
        proof {
            lemma_total_at_least(self.registrations@, k as int, requests_held());
            lemma_moved(self@, torrent.id, -bytes, 0, 0, 0);
        }
        let u = &self.registrations[k];
        let (request, payload, piece_bytes, pieces) = (u.request_bytes - bytes, u.payload_bytes, u.active_piece_bytes, u.active_pieces);
        checked_release(&mut self.request_bytes, bytes);
        self.set_holdings(k, request, payload, piece_bytes, pieces);
    }

    /// Reserves `bytes` of buffered payload for `torrent`, unless the
    /// session ceiling would be passed.
    pub fn try_reserve_payload_bytes(&mut self, torrent: &SessionTorrentResources, bytes: usize) -> (reserved: bool)
        requires
            old(self)@.wf(),
            old(self)@.registered(torrent.id),
        ensures
            final(self)@.wf(),
            reserved == (old(self)@.payload_bytes + bytes <= old(self)@.limits.max_buffered_payload_bytes),
            reserved ==> final(self)@ == old(self)@.moved(torrent.id, 0, bytes as int, 0, 0).marked(),
            !reserved ==> final(self)@ == old(self)@,
    {
        let k = self.index(torrent);
        let limit = self.limits.max_buffered_payload_bytes;
        if try_reserve(&mut self.payload_bytes, &mut self.payload_high_water, limit, bytes).is_none() {
            return false;
        }
        proof {
            lemma_total_at_least(self.registrations@, k as int, payloads_held());
        }
        let u = &self.registrations[k];
        let (request, payload, piece_bytes, pieces) = (u.request_bytes, u.payload_bytes + bytes, u.active_piece_bytes, u.active_pieces);
        self.set_holdings(k, request, payload, piece_bytes, pieces);
        proof {
            lemma_moved(old(self)@, torrent.id, 0, bytes as int, 0, 0);
        }
        true
    }

    /// Gives back `bytes` of buffered payload held by `torrent`.
    pub fn release_payload_bytes(&mut self, torrent: &SessionTorrentResources, bytes: usize)
        requires
            old(self)@.wf(),
            old(self)@.registered(torrent.id),
            bytes <= old(self)@.usage(torrent.id).payload_bytes,
        ensures
            final(self)@.wf(),
            final(self)@ == old(self)@.moved(torrent.id, 0, -bytes, 0, 0),
    {
        let k = self.index(torrent);
        proof {
            lemma_total_at_least(self.registrations@, k as int, payloads_held());
            lemma_moved(self@, torrent.id, 0, -bytes, 0, 0);
        }
        let u = &self.registrations[k];
        let (request, payload, piece_bytes, pieces) = (u.request_bytes, u.payload_bytes - bytes, u.active_piece_bytes, u.active_pieces);
        checked_release(&mut self.payload_bytes, bytes);
        self.set_holdings(k, request, payload, piece_bytes, pieces);
    }

    /// Whether one more active piece of `bytes` would fit both ceilings.
    pub fn can_reserve_active_piece(&self, bytes: usize) -> (fits: bool)
        ensures
            fits == (self@.active_piece_bytes + bytes <= self@.limits.max_active_piece_bytes
                && self@.active_pieces < self@.limits.max_active_pieces),
    {
        let bytes_fit = match load(&self.active_piece_bytes).checked_add(bytes) {
            Some(next) => next <= self.limits.max_active_piece_bytes,
            None => false,
        };
        bytes_fit && load(&self.active_pieces) < self.limits.max_active_pieces
    }

    /// Reserves one active piece of `bytes` for `torrent`, unless either
    /// session ceiling would be passed. The bytes are reserved first: when
    /// they fit and the piece does not, they are given back, and only their
    /// high-water mark keeps the attempt.
    pub fn try_reserve_active_piece(&mut self, torrent: &SessionTorrentResources, bytes: usize) -> (reserved: bool)
        requires
            old(self)@.wf(),
            old(self)@.registered(torrent.id),
        ensures
            final(self)@.wf(),
            reserved == (old(self)@.active_piece_bytes + bytes <= old(self)@.limits.max_active_piece_bytes
                && old(self)@.active_pieces < old(self)@.limits.max_active_pieces),
            reserved ==> final(self)@ == old(self)@.moved(torrent.id, 0, 0, bytes as int, 1).marked(),
            !reserved && old(self)@.active_piece_bytes + bytes <= old(self)@.limits.max_active_piece_bytes
                ==> final(self)@ == (ResourcesView {
                    active_piece_bytes_high_water: at_least(
                        old(self)@.active_piece_bytes_high_water,
                        (old(self)@.active_piece_bytes + bytes) as usize,
                    ),
                    ..old(self)@
                }),
            old(self)@.active_piece_bytes + bytes > old(self)@.limits.max_active_piece_bytes ==> final(self)@
                == old(self)@,
    {
        let k = self.index(torrent);
        let byte_limit = self.limits.max_active_piece_bytes;
        if try_reserve(&mut self.active_piece_bytes, &mut self.active_piece_bytes_high_water, byte_limit, bytes).is_none() {
            return false;
        }
        let piece_limit = self.limits.max_active_pieces;
        if try_reserve(&mut self.active_pieces, &mut self.active_pieces_high_water, piece_limit, 1).is_none() {
            checked_release(&mut self.active_piece_bytes, bytes);
            return false;
        }
        proof {
            lemma_total_at_least(self.registrations@, k as int, piece_bytes_held());
            lemma_total_at_least(self.registrations@, k as int, pieces_held());
        }
        let u = &self.registrations[k];
        let (request, payload, piece_bytes, pieces) = (u.request_bytes, u.payload_bytes, u.active_piece_bytes + bytes, u.active_pieces + 1);
        self.set_holdings(k, request, payload, piece_bytes, pieces);
        proof {
            lemma_moved(old(self)@, torrent.id, 0, 0, bytes as int, 1);
        }
        true
    }

    /// Gives back one active piece of `bytes` held by `torrent`.
    pub fn release_active_piece(&mut self, torrent: &SessionTorrentResources, bytes: usize)
        requires
            old(self)@.wf(),
            old(self)@.registered(torrent.id),
            bytes <= old(self)@.usage(torrent.id).active_piece_bytes,
            1 <= old(self)@.usage(torrent.id).active_pieces,
        ensures
            final(self)@.wf(),
            final(self)@ == old(self)@.moved(torrent.id, 0, 0, -bytes, -1),
    {
        let k = self.index(torrent);
        proof {
            lemma_total_at_least(self.registrations@, k as int, piece_bytes_held());
            lemma_total_at_least(self.registrations@, k as int, pieces_held());
            lemma_moved(self@, torrent.id, 0, 0, -bytes, -1);
        }
        let u = &self.registrations[k];
        let (request, payload, piece_bytes, pieces) = (u.request_bytes, u.payload_bytes, u.active_piece_bytes - bytes, u.active_pieces - 1);
        checked_release(&mut self.active_piece_bytes, bytes);
        checked_release(&mut self.active_pieces, 1);
        self.set_holdings(k, request, payload, piece_bytes, pieces);
    }

    /// Asks for an outbound dial turn for `torrent`. A torrent that had the
    /// last turn is refused once, so that another torrent can go; any other
    /// torrent is granted the turn.
    pub fn try_acquire_outbound_turn(&mut self, torrent: &SessionTorrentResources) -> (granted: bool)
        requires
            old(self)@.wf(),
            old(self)@.registered(torrent.id),
        ensures
            final(self)@.wf(),
            (final(self)@, granted) == old(self)@.turn(torrent.id),
    {
        let k = self.index(torrent);
        let u = &self.registrations[k];
        let same = match &self.last_outbound {
            Some(last) => last.1 == u.generation && last.0 == u.torrent_id,
            None => false,
        };
        if same {
            self.last_outbound = None;
            return false;
        }
        self.last_outbound = Some((u.torrent_id.clone(), u.generation));
        self.outbound_turns_granted = if self.outbound_turns_granted == usize::MAX {
            0
        } else {
            self.outbound_turns_granted + 1
        };
        true
    }

    /// Forgets `torrent`, giving back everything it still held.
    pub fn unregister(&mut self, torrent: SessionTorrentResources)
        requires
            old(self)@.wf(),
            old(self)@.registered(torrent.id),
        ensures
            final(self)@.wf(),
            final(self)@ == old(self)@.unregistered(torrent.id),
    {
        let k = self.index(&torrent);
        let ghost before = self.registrations@;
        let ghost keys_before = self@.keys;
        proof {
            lemma_total_remove(before, k as int, requests_held());
            lemma_total_remove(before, k as int, payloads_held());
            lemma_total_remove(before, k as int, piece_bytes_held());
            lemma_total_remove(before, k as int, pieces_held());
        }
        let u = self.registrations.remove(k);
        checked_release(&mut self.request_bytes, u.request_bytes);
        checked_release(&mut self.payload_bytes, u.payload_bytes);
        checked_release(&mut self.active_piece_bytes, u.active_piece_bytes);
        checked_release(&mut self.active_pieces, u.active_pieces);
        match find_key(&self.keys, &u.torrent_id, u.generation) {
            Some(i) => {
                self.keys.remove(i);
                proof {
                    assert(self@.keys =~= keys_before.remove(i as int));
                    assert forall|a: int, b: int| 0 <= a < b < self@.keys.len() implies self@.keys[a] != self@.keys[b] by {
                        let a0 = if a < i { a } else { a + 1 };
                        let b0 = if b < i { b } else { b + 1 };
                        assert(keys_before[a0] != keys_before[b0]);
                    }
                }
            },
            None => {},
        }
        proof {
            assert forall|a: int, b: int| 0 <= a < b < self@.registrations.len() implies #[trigger] self@.registrations[a].id < #[trigger] self@.registrations[b].id by {
                let a0 = if a < k { a } else { a + 1 };
                let b0 = if b < k { b } else { b + 1 };
                assert(before[a0].id < before[b0].id);
            }
            assert forall|a: int| 0 <= a < self@.registrations.len() implies #[trigger] self@.registrations[a].id < self@.next_registration by {
                let a0 = if a < k { a } else { a + 1 };
                assert(before[a0].id < self@.next_registration);
            }
            assert(self@.registrations =~= old(self)@.registrations.remove(k as int));
        }
    }

    /// The session's counters, with the storage execution state of `writes`
    /// and `hashes` and the execution counts of `activity`.
    pub fn snapshot(
        &self,
        writes: &FairExecutionState,
        hashes: &FairExecutionState,
        activity: ExecutionActivity,
    ) -> (snapshot: SessionDownloadResourceSnapshot)
        requires
            writes.wf(),
            hashes.wf(),
        ensures
            snapshot.outstanding_request_bytes == self@.request_bytes,
            snapshot.outstanding_request_high_water == self@.request_high_water,
            snapshot.buffered_payload_bytes == self@.payload_bytes,
            snapshot.buffered_payload_high_water == self@.payload_high_water,
            snapshot.active_piece_bytes == self@.active_piece_bytes,
            snapshot.active_piece_bytes_high_water == self@.active_piece_bytes_high_water,
            snapshot.active_pieces == self@.active_pieces,
            snapshot.active_pieces_high_water == self@.active_pieces_high_water,
            snapshot.active_storage_writes == activity.active_storage_writes,
            snapshot.active_storage_writes_high_water == activity.active_storage_writes_high_water,
            snapshot.active_storage_hashes == activity.active_storage_hashes,
            snapshot.active_storage_hashes_high_water == activity.active_storage_hashes_high_water,
            snapshot.active_tracker_operations == activity.active_tracker_operations,
            snapshot.active_tracker_operations_high_water == activity.active_tracker_operations_high_water,
            snapshot.registered_generations == self@.keys.len(),
            snapshot.outbound_turns_granted == self@.outbound_turns_granted,
            roots_ordered(snapshot.storage_roots@),
            forall|r: Seq<char>|
                #[trigger] lists_root(snapshot.storage_roots@, r) <==> writes.root_counters(r) is Some
                    || hashes.root_counters(r) is Some,
            forall|i: int|
                0 <= i < snapshot.storage_roots@.len() ==> reports_counters(
                    #[trigger] snapshot.storage_roots@[i],
                    writes.root_counters(snapshot.storage_roots@[i].root_id@),
                    hashes.root_counters(snapshot.storage_roots@[i].root_id@),
                ),
    {
        SessionDownloadResourceSnapshot {
            outstanding_request_bytes: load(&self.request_bytes),
            outstanding_request_high_water: load(&self.request_high_water),
            buffered_payload_bytes: load(&self.payload_bytes),
            buffered_payload_high_water: load(&self.payload_high_water),
            active_piece_bytes: load(&self.active_piece_bytes),
            active_piece_bytes_high_water: load(&self.active_piece_bytes_high_water),
            active_pieces: load(&self.active_pieces),
            active_pieces_high_water: load(&self.active_pieces_high_water),
            active_storage_writes: activity.active_storage_writes,
            active_storage_writes_high_water: activity.active_storage_writes_high_water,
            active_storage_hashes: activity.active_storage_hashes,
            active_storage_hashes_high_water: activity.active_storage_hashes_high_water,
            active_tracker_operations: activity.active_tracker_operations,
            active_tracker_operations_high_water: activity.active_tracker_operations_high_water,
            registered_generations: self.keys.len(),
            outbound_turns_granted: load(&self.outbound_turns_granted),
            storage_roots: storage_root_snapshots(writes, hashes),
        }
    }
}

} // verus!

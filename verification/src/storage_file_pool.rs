//! Backend-neutral descriptions of pooled storage files: how a file is
//! opened, what an observation of it may claim, and how platform storage
//! failures are classified.
use vstd::prelude::*;
use vstd::utf8::{encode_utf8, is_char_boundary};
use vstd::string::StringSliceAdditionalSpecFns;

verus! {

pub const DEFAULT_STORAGE_FILE_LIMIT: usize = 40;

pub const PLATFORM_STORAGE_REQUEST_CAPACITY: usize = 16;

pub const PLATFORM_STORAGE_RELEASE_CAPACITY: usize = 64;

/// The platform storage request timeout, in milliseconds.
pub const PLATFORM_STORAGE_REQUEST_TIMEOUT_MILLIS: u64 = 30_000;

/// The longest opaque observation token, in bytes.
pub const MAX_STORAGE_OBSERVATION_TOKEN_BYTES: usize = 256;

/// The longest platform failure detail kept, in bytes.
pub const MAX_PLATFORM_FAILURE_DETAIL_BYTES: usize = 1024;

pub const ERR_KIND_DISAGREES: &'static str = "existence and object kind disagree";

pub const ERR_MISSING_HAS_FIELDS: &'static str = "missing artifact contains present-only fields";

pub const ERR_NON_FILE_LENGTH: &'static str = "non-file artifact contains a file length";

pub const ERR_TOKEN_TOO_LONG: &'static str = "opaque storage observation token exceeds 256 bytes";

/// The part of a torrent's storage a pooled file plays.
#[derive(Clone, Copy, Debug, PartialEq, Eq, Structural)]
pub enum StorageFileRole {
    ContentRoot,
    Payload(usize),
    Part,
}

/// How a pooled file is opened.
#[derive(Clone, Copy, Debug, PartialEq, Eq, Structural)]
pub enum StorageFileAccess {
    ReadExisting,
    ReadWriteExisting,
    ReadWriteCreate,
}

impl StorageFileAccess {
    /// Whether this access may write.
    pub fn writable(self) -> (writable: bool)
        ensures
            writable <==> self != StorageFileAccess::ReadExisting,
    {
        !matches!(self, StorageFileAccess::ReadExisting)
    }

    /// Whether this access creates a missing file.
    pub fn creates(self) -> (creates: bool)
        ensures
            creates <==> self == StorageFileAccess::ReadWriteCreate,
    {
        matches!(self, StorageFileAccess::ReadWriteCreate)
    }

    /// Whether a file opened with this access can serve `requested`: a
    /// writable handle serves anything, a read-only one serves reads.
    pub fn satisfies(self, requested: Self) -> (satisfies: bool)
        ensures
            satisfies <==> (self != StorageFileAccess::ReadExisting || requested
                == StorageFileAccess::ReadExisting),
    {
        self.writable() || !requested.writable()
    }
}

/// What kind of object stands at a storage path.
#[derive(Clone, Copy, Debug, PartialEq, Eq, Structural)]
pub enum StorageObjectKind {
    File,
    Directory,
    Other,
}

/// What a platform storage request asks for.
#[derive(Clone, Copy, Debug, PartialEq, Eq, Structural)]
pub enum PlatformStorageOperation {
    Open,
    Observe,
    Delete,
}

/// Why a platform storage request failed.
#[derive(Clone, Copy, Debug, PartialEq, Eq, Structural)]
pub enum PlatformStorageFailureKind {
    Missing,
    GrantUnavailable,
    PermissionDenied,
    WrongKind,
    NameCollision,
    StaleGeneration,
    ProviderRefused,
    NonSeekable,
    Cancelled,
    DeadlineExceeded,
    Internal,
}

/// The byte length of a text, as `str::len` reports it.
pub open spec fn byte_len(text: Seq<char>) -> nat {
    (encode_utf8(text).len() as usize) as nat
}

/// A platform storage failure with a bounded detail message.
#[derive(Debug)]
pub struct PlatformStorageFailure {
    pub kind: PlatformStorageFailureKind,
    pub detail: String,
}

impl PlatformStorageFailure {
    /// Keeps at most the first 1024 bytes of `detail`.
    pub fn new(kind: PlatformStorageFailureKind, detail: String) -> (failure: Self)
        requires
            byte_len(detail@) > MAX_PLATFORM_FAILURE_DETAIL_BYTES ==> is_char_boundary(
                encode_utf8(detail@),
                MAX_PLATFORM_FAILURE_DETAIL_BYTES as int,
            ),
        ensures
            failure.kind == kind,
            byte_len(detail@) <= MAX_PLATFORM_FAILURE_DETAIL_BYTES ==> failure.detail@ == detail@,
            byte_len(detail@) > MAX_PLATFORM_FAILURE_DETAIL_BYTES ==> encode_utf8(
                failure.detail@,
            ) == encode_utf8(detail@).subrange(0, MAX_PLATFORM_FAILURE_DETAIL_BYTES as int),
    {
        let text: &str = detail.as_str();
        if text.len() <= MAX_PLATFORM_FAILURE_DETAIL_BYTES {
            PlatformStorageFailure { kind, detail }
        } else {
            let (head, _) = text.split_at(MAX_PLATFORM_FAILURE_DETAIL_BYTES);
            let kept: String = head.to_owned();
            assert(encode_utf8(kept@) == head.spec_bytes());
            assert(text.spec_bytes() == encode_utf8(detail@));
            PlatformStorageFailure { kind, detail: kept }
        }
    }
}

/// Errors of the storage file pool.
#[derive(Debug)]
pub enum StorageFilePoolError {
    Closed,
    Invalidated,
    InvalidPath,
    PlatformUnavailable,
    PlatformFailure(PlatformStorageFailure),
    InvalidObservation(&'static str),
    /// An operating-system error, with the raw error code where one was given.
    Io { operation: &'static str, raw_os_error: Option<i32> },
}

impl StorageFilePoolError {
    /// The platform failure this error stands for, if any: an unavailable
    /// broker counts as a cancelled request.
    pub fn platform_failure_kind(&self) -> (kind: Option<PlatformStorageFailureKind>)
        ensures
            kind == match self {
                StorageFilePoolError::PlatformUnavailable => Some(
                    PlatformStorageFailureKind::Cancelled,
                ),
                StorageFilePoolError::PlatformFailure(failure) => Some(failure.kind),
                _ => None::<PlatformStorageFailureKind>,
            },
    {
        match self {
            StorageFilePoolError::PlatformUnavailable => Some(PlatformStorageFailureKind::Cancelled),
            StorageFilePoolError::PlatformFailure(failure) => Some(failure.kind),
            _ => None,
        }
    }
}

/// Whether `error` says the process or the system ran out of file
/// descriptors (`ENFILE` or `EMFILE`).
pub fn is_descriptor_exhaustion(error: &StorageFilePoolError) -> (exhausted: bool)
    ensures
        exhausted <==> (error matches StorageFilePoolError::Io { raw_os_error: Some(code), .. }
            && (code == 23 || code == 24)),
{
    match error {
        StorageFilePoolError::Io { raw_os_error: Some(code), .. } => *code == 23 || *code == 24,
        _ => false,
    }
}

/// Raises `high_water` to `value` where `value` is larger.
pub fn update_high_water(high_water: &mut usize, value: usize)
    ensures
        *final(high_water) == if value > *old(high_water) {
            value
        } else {
            *old(high_water)
        },
{
    if value > *high_water {
        *high_water = value;
    }
}

/// Evidence about one storage artifact. It can disqualify a later
/// trusting decision but never establishes payload validity by itself.
#[derive(Debug)]
pub struct StorageObservation {
    pub exists: bool,
    pub kind: Option<StorageObjectKind>,
    pub length: Option<u64>,
    pub opaque_token: Option<String>,
}

/// The first rule an observation breaks, if any.
pub open spec fn observation_problem(
    exists: bool,
    kind: Option<StorageObjectKind>,
    length: Option<u64>,
    token_bytes: Option<nat>,
) -> Option<&'static str> {
    if exists != kind.is_some() {
        Some(ERR_KIND_DISAGREES)
    } else if !exists && (length.is_some() || token_bytes.is_some()) {
        Some(ERR_MISSING_HAS_FIELDS)
    } else if kind.is_some() && kind.unwrap() != StorageObjectKind::File && length.is_some() {
        Some(ERR_NON_FILE_LENGTH)
    } else if token_bytes.is_some() && token_bytes.unwrap() > MAX_STORAGE_OBSERVATION_TOKEN_BYTES {
        Some(ERR_TOKEN_TOO_LONG)
    } else {
        None
    }
}

/// The byte length of an optional token, as `str::len` reports it.
pub open spec fn token_bytes(token: Option<String>) -> Option<nat> {
    match token {
        Some(text) => Some(byte_len(text@)),
        None => None,
    }
}

impl StorageObservation {
    /// The rule this observation breaks, if any.
    pub open spec fn problem(&self) -> Option<&'static str> {
        observation_problem(self.exists, self.kind, self.length, token_bytes(self.opaque_token))
    }

    /// An artifact that is not there.
    pub fn missing() -> (observation: Self)
        ensures
            !observation.exists,
            observation.kind is None,
            observation.length is None,
            observation.opaque_token is None,
            observation.problem() is None,
    {
        StorageObservation { exists: false, kind: None, length: None, opaque_token: None }
    }

    /// An artifact that is there, checked against the observation rules.
    pub fn present(
        kind: StorageObjectKind,
        length: Option<u64>,
        opaque_token: Option<String>,
    ) -> (result: Result<Self, StorageFilePoolError>)
        ensures
            observation_problem(true, Some(kind), length, token_bytes(opaque_token)) matches Some(
                detail,
            ) ==> result matches Err(StorageFilePoolError::InvalidObservation(d)) && d == detail,
            observation_problem(true, Some(kind), length, token_bytes(opaque_token)) is None ==> (
            result matches Ok(observation) && observation.exists && observation.kind == Some(kind)
                && observation.length == length && observation.opaque_token == opaque_token),
    {
        let observation = StorageObservation { exists: true, kind: Some(kind), length, opaque_token };
        match observation.validate() {
            Ok(()) => Ok(observation),
            Err(error) => Err(error),
        }
    }

    /// Checks the observation rules: existence and kind agree, a missing
    /// artifact carries nothing else, only a file has a length, and the
    /// token is at most 256 bytes.
    pub fn validate(&self) -> (result: Result<(), StorageFilePoolError>)
        ensures
            self.problem() matches Some(detail) ==> result matches Err(
                StorageFilePoolError::InvalidObservation(d),
            ) && d == detail,
            self.problem() is None ==> result is Ok,
    {
        if self.exists != self.kind.is_some() {
            return Err(StorageFilePoolError::InvalidObservation(ERR_KIND_DISAGREES));
        }
        if !self.exists && (self.length.is_some() || self.opaque_token.is_some()) {
            return Err(StorageFilePoolError::InvalidObservation(ERR_MISSING_HAS_FIELDS));
        }
        let non_file = match self.kind {
            Some(kind) => kind != StorageObjectKind::File,
            None => false,
        };
        if non_file && self.length.is_some() {
            return Err(StorageFilePoolError::InvalidObservation(ERR_NON_FILE_LENGTH));
        }
        let too_long = match &self.opaque_token {
            Some(token) => token.as_str().len() > MAX_STORAGE_OBSERVATION_TOKEN_BYTES,
            None => false,
        };
        if too_long {
            return Err(StorageFilePoolError::InvalidObservation(ERR_TOKEN_TOO_LONG));
        }
        Ok(())
    }
}


/// The key a pooled file is cached under: the storage it belongs to, that
/// storage's generation, and the part the file plays.
#[derive(Debug)]
pub struct StorageFileKey {
    pub storage_id: String,
    pub storage_generation: u64,
    pub role: StorageFileRole,
}

impl StorageFileKey {
    /// The two keys name the same file.
    pub open spec fn same(&self, other: &StorageFileKey) -> bool {
        &&& self.storage_id@ == other.storage_id@
        &&& self.storage_generation == other.storage_generation
        &&& self.role == other.role
    }

    /// Whether the two keys name the same file.
    pub fn matches(&self, other: &StorageFileKey) -> (same: bool)
        ensures
            same == self.same(other),
    {
        self.storage_id == other.storage_id && self.storage_generation == other.storage_generation
            && self.role == other.role
    }
}

impl Clone for StorageFileKey {
    fn clone(&self) -> (copy: Self)
        ensures
            copy == *self,
    {
        StorageFileKey {
            storage_id: self.storage_id.clone(),
            storage_generation: self.storage_generation,
            role: self.role,
        }
    }
}

/// Whether a file opened with `have` serves a request for `requested`.
pub open spec fn serves(have: StorageFileAccess, requested: StorageFileAccess) -> bool {
    have != StorageFileAccess::ReadExisting || requested == StorageFileAccess::ReadExisting
}

/// A cached open file: its key, the access it was opened with, when it was
/// last used, and the handle.
#[derive(Debug)]
pub struct PoolEntry<H> {
    pub key: StorageFileKey,
    pub access: StorageFileAccess,
    pub last_used: u64,
    pub handle: H,
}

/// The invalidation counter of one storage.
#[derive(Debug)]
pub struct StorageVersion {
    pub storage_id: String,
    pub version: u64,
}

/// The cache state of the storage file pool: cached files, per-storage
/// invalidation versions, a use clock, and whether the pool is closed.
/// Opening files, the permits that bound them and per-key locks are the
/// caller's; these are the decisions taken around them.
#[derive(Debug)]
pub struct PoolState<H> {
    entries: Vec<PoolEntry<H>>,
    storage_versions: Vec<StorageVersion>,
    clock: u64,
    closed: bool,
}

/// The position of the entry cached under `key`, if any.
pub open spec fn entry_position<H>(entries: Seq<PoolEntry<H>>, key: StorageFileKey) -> Option<int> {
    if exists|i: int| 0 <= i < entries.len() && #[trigger] entries[i].key.same(&key) {
        Some(choose|i: int| 0 <= i < entries.len() && #[trigger] entries[i].key.same(&key))
    } else {
        None
    }
}

/// The invalidation version of a storage: zero until first invalidated.
pub open spec fn version_of(versions: Seq<StorageVersion>, storage_id: Seq<char>) -> u64 {
    if exists|i: int| 0 <= i < versions.len() && #[trigger] versions[i].storage_id@ == storage_id {
        versions[choose|i: int| 0 <= i < versions.len() && #[trigger] versions[i].storage_id@ == storage_id].version
    } else {
        0
    }
}

/// `value + 1`, wrapping.
pub open spec fn next_wrapping(value: u64) -> u64 {
    if value == u64::MAX {
        0
    } else {
        (value + 1) as u64
    }
}

/// Whether the entry belongs to another storage than `storage_id`.
pub open spec fn other_storage<H>(storage_id: Seq<char>) -> spec_fn(PoolEntry<H>) -> bool {
    |e: PoolEntry<H>| e.key.storage_id@ != storage_id
}

/// Whether the entry belongs to `storage_id`.
pub open spec fn of_storage<H>(storage_id: Seq<char>) -> spec_fn(PoolEntry<H>) -> bool {
    |e: PoolEntry<H>| e.key.storage_id@ == storage_id
}

impl<H> PoolState<H> {
    pub closed spec fn entries_view(&self) -> Seq<PoolEntry<H>> {
        self.entries@
    }

    pub closed spec fn versions_view(&self) -> Seq<StorageVersion> {
        self.storage_versions@
    }

    pub closed spec fn clock_view(&self) -> u64 {
        self.clock
    }

    pub closed spec fn is_closed(&self) -> bool {
        self.closed
    }

    /// The invariant: one entry per key and one version per storage.
    pub closed spec fn wf(&self) -> bool {
        &&& forall|i: int, j: int|
            0 <= i < j < self.entries@.len() ==> !(#[trigger] self.entries@[i]).key.same(
                &(#[trigger] self.entries@[j]).key,
            )
        &&& forall|i: int, j: int|
            0 <= i < j < self.storage_versions@.len() ==> (#[trigger] self.storage_versions@[i]).storage_id@
                != (#[trigger] self.storage_versions@[j]).storage_id@
    }

    /// The version of a storage.
    pub open spec fn version(&self, storage_id: Seq<char>) -> u64 {
        version_of(self.versions_view(), storage_id)
    }
}

proof fn lemma_entry_position_at<H>(entries: Seq<PoolEntry<H>>, key: StorageFileKey, k: int)
    requires
        0 <= k < entries.len(),
        entries[k].key.same(&key),
        forall|i: int, j: int|
            0 <= i < j < entries.len() ==> !(#[trigger] entries[i]).key.same(&(#[trigger] entries[j]).key),
    ensures
        entry_position(entries, key) == Some(k),
{
    let c = choose|i: int| 0 <= i < entries.len() && #[trigger] entries[i].key.same(&key);
    if c < k {
        assert(!entries[c].key.same(&entries[k].key));
    } else if c > k {
        assert(!entries[k].key.same(&entries[c].key));
    }
}

proof fn lemma_version_at(versions: Seq<StorageVersion>, storage_id: Seq<char>, k: int)
    requires
        0 <= k < versions.len(),
        versions[k].storage_id@ == storage_id,
        forall|i: int, j: int|
            0 <= i < j < versions.len() ==> (#[trigger] versions[i]).storage_id@ != (#[trigger] versions[j]).storage_id@,
    ensures
        version_of(versions, storage_id) == versions[k].version,
{
    let c = choose|i: int| 0 <= i < versions.len() && #[trigger] versions[i].storage_id@ == storage_id;
    if c < k {
        assert(versions[c].storage_id@ != versions[k].storage_id@);
    } else if c > k {
        assert(versions[k].storage_id@ != versions[c].storage_id@);
    }
}

/// The position of the entry cached under `key`.
fn find_entry<H>(entries: &Vec<PoolEntry<H>>, key: &StorageFileKey) -> (found: Option<usize>)
    ensures
        found matches Some(k) ==> k < entries@.len() && entries@[k as int].key.same(key),
        found is None ==> forall|i: int| 0 <= i < entries@.len() ==> !(#[trigger] entries@[i]).key.same(key),
{
    let mut i: usize = 0;
    while i < entries.len()
        invariant
            i <= entries@.len(),
            forall|j: int| 0 <= j < i ==> !(#[trigger] entries@[j]).key.same(key),
        decreases entries@.len() - i,
    {
        if entries[i].key.matches(key) {
            return Some(i);
        }
        i += 1;
    }
    None
}

/// The position of the version kept for `storage_id`.
fn find_version(versions: &Vec<StorageVersion>, storage_id: &String) -> (found: Option<usize>)
    ensures
        found matches Some(k) ==> k < versions@.len() && versions@[k as int].storage_id@ == storage_id@,
        found is None ==> forall|i: int| 0 <= i < versions@.len() ==> (#[trigger] versions@[i]).storage_id@ != storage_id@,
{
    let mut i: usize = 0;
    while i < versions.len()
        invariant
            i <= versions@.len(),
            forall|j: int| 0 <= j < i ==> (#[trigger] versions@[j]).storage_id@ != storage_id@,
        decreases versions@.len() - i,
    {
        if versions[i].storage_id == *storage_id {
            return Some(i);
        }
        i += 1;
    }
    None
}

impl<H> PoolState<H> {
    /// An open, empty pool.
    pub fn new() -> (state: Self)
        ensures
            state.wf(),
            state.entries_view().len() == 0,
            state.versions_view().len() == 0,
            state.clock_view() == 0,
            !state.is_closed(),
    {
        PoolState { entries: Vec::new(), storage_versions: Vec::new(), clock: 0, closed: false }
    }

    /// The number of cached files.
    pub fn cached_entries(&self) -> (count: usize)
        ensures
            count == self.entries_view().len(),
    {
        self.entries.len()
    }

    /// Whether the pool is closed.
    pub fn closed(&self) -> (closed: bool)
        ensures
            closed == self.is_closed(),
    {
        self.closed
    }

    /// The version of `storage_id`, recorded from now on; a closed pool
    /// refuses.
    pub fn storage_version(&mut self, storage_id: &String) -> (r: Result<u64, StorageFilePoolError>)
        requires
            old(self).wf(),
        ensures
            final(self).wf(),
            final(self).entries_view() == old(self).entries_view(),
            final(self).clock_view() == old(self).clock_view(),
            final(self).is_closed() == old(self).is_closed(),
            forall|id: Seq<char>| #[trigger] final(self).version(id) == old(self).version(id),
            old(self).is_closed() ==> r matches Err(StorageFilePoolError::Closed),
            !old(self).is_closed() ==> r == Ok::<u64, StorageFilePoolError>(old(self).version(storage_id@)),
    {
        if self.closed {
            return Err(StorageFilePoolError::Closed);
        }
        let ghost start = self.storage_versions@;
        match find_version(&self.storage_versions, storage_id) {
            Some(k) => {
                proof {
                    lemma_version_at(start, storage_id@, k as int);
                }
                Ok(self.storage_versions[k].version)
            },
            None => {
                self.storage_versions.push(StorageVersion { storage_id: storage_id.clone(), version: 0 });
                proof {
                    let now = self.storage_versions@;
                    assert forall|id: Seq<char>| #[trigger] version_of(now, id) == version_of(start, id) by {
                        if id == storage_id@ {
                            lemma_version_at(now, id, start.len() as int);
                        } else if exists|i: int| 0 <= i < start.len() && #[trigger] start[i].storage_id@ == id {
                            let i = choose|i: int| 0 <= i < start.len() && #[trigger] start[i].storage_id@ == id;
                            lemma_version_at(start, id, i);
                            assert(now[i] == start[i]);
                            lemma_version_at(now, id, i);
                        } else {
                            assert forall|i: int| 0 <= i < now.len() implies (#[trigger] now[i]).storage_id@ != id by {
                                if i < start.len() {
                                    assert(now[i] == start[i]);
                                }
                            }
                        }
                    }
                }
                Ok(0)
            },
        }
    }

    /// A cached file for `key` that serves `access`, marked as just used;
    /// every lookup advances the use clock. A closed pool refuses.
    pub fn cached(&mut self, key: &StorageFileKey, access: StorageFileAccess) -> (r: Result<
        Option<H>,
        StorageFilePoolError,
    >) where H: Clone
        requires
            old(self).wf(),
        ensures
            final(self).wf(),
            final(self).versions_view() == old(self).versions_view(),
            final(self).is_closed() == old(self).is_closed(),
            old(self).is_closed() ==> (r matches Err(StorageFilePoolError::Closed)) && final(self).entries_view()
                == old(self).entries_view() && final(self).clock_view() == old(self).clock_view(),
            !old(self).is_closed() ==> r is Ok && final(self).clock_view() == next_wrapping(old(self).clock_view()),
            !old(self).is_closed() ==> match entry_position(old(self).entries_view(), *key) {
                Some(i) => if serves(old(self).entries_view()[i].access, access) {
                    &&& (r matches Ok(Some(h)) && cloned(old(self).entries_view()[i].handle, h))
                    &&& final(self).entries_view().len() == old(self).entries_view().len()
                    &&& final(self).entries_view()[i].last_used == final(self).clock_view()
                    &&& final(self).entries_view()[i].key == old(self).entries_view()[i].key
                    &&& final(self).entries_view()[i].access == old(self).entries_view()[i].access
                    &&& final(self).entries_view()[i].handle == old(self).entries_view()[i].handle
                    &&& forall|j: int| 0 <= j < final(self).entries_view().len() && j != i ==> #[trigger] final(self).entries_view()[j] == old(self).entries_view()[j]
                } else {
                    (r matches Ok(None)) && final(self).entries_view() == old(self).entries_view()
                },
                None => (r matches Ok(None)) && final(self).entries_view() == old(self).entries_view(),
            },
    {
        if self.closed {
            return Err(StorageFilePoolError::Closed);
        }
        self.clock = self.clock.wrapping_add(1);
        let ghost start = self.entries@;
        match find_entry(&self.entries, key) {
            Some(k) => {
                proof {
                    lemma_entry_position_at(start, *key, k as int);
                }
                if self.entries[k].access.satisfies(access) {
                    let handle = self.entries[k].handle.clone();
                    let mut entry = self.entries.remove(k);
                    entry.last_used = self.clock;
                    self.entries.insert(k, entry);
                    proof {
                        let now = self.entries@;
                        assert forall|a: int, b: int| 0 <= a < b < now.len() implies !(#[trigger] now[a]).key.same(
                            &(#[trigger] now[b]).key,
                        ) by {
                            assert(now[a].key == start[a].key && now[b].key == start[b].key);
                        }
                    }
                    Ok(Some(handle))
                } else {
                    Ok(None)
                }
            },
            None => {
                proof {
                    assert(!exists|i: int| 0 <= i < start.len() && #[trigger] start[i].key.same(key));
                }
                Ok(None)
            },
        }
    }
}


proof fn lemma_filter_keys_distinct<H>(entries: Seq<PoolEntry<H>>, f: spec_fn(PoolEntry<H>) -> bool)
    requires
        forall|i: int, j: int|
            0 <= i < j < entries.len() ==> !(#[trigger] entries[i]).key.same(&(#[trigger] entries[j]).key),
    ensures
        forall|i: int, j: int|
            0 <= i < j < entries.filter(f).len() ==> !(#[trigger] entries.filter(f)[i]).key.same(
                &(#[trigger] entries.filter(f)[j]).key,
            ),
    decreases entries.len(),
{
    reveal(Seq::filter);
    if entries.len() > 0 {
        let rest = entries.drop_last();
        lemma_filter_keys_distinct(rest, f);
        let t = rest.filter(f);
        let last = entries.last();
        assert forall|i: int| 0 <= i < t.len() implies !(#[trigger] t[i]).key.same(&last.key) by {
            assert(t.contains(t[i]));
            rest.lemma_filter_contains_rev(f, t[i]);
            let k = choose|k: int| 0 <= k < rest.len() && rest[k] == t[i];
            assert(entries[k] == rest[k]);
            assert(!entries[k].key.same(&entries[entries.len() - 1].key));
        }
    }
}

/// Advances the version of `storage_id`.
fn bump_version(versions: &mut Vec<StorageVersion>, storage_id: &String)
    requires
        forall|i: int, j: int|
            0 <= i < j < old(versions)@.len() ==> (#[trigger] old(versions)@[i]).storage_id@
                != (#[trigger] old(versions)@[j]).storage_id@,
    ensures
        forall|i: int, j: int|
            0 <= i < j < final(versions)@.len() ==> (#[trigger] final(versions)@[i]).storage_id@
                != (#[trigger] final(versions)@[j]).storage_id@,
        forall|id: Seq<char>| #[trigger] version_of(final(versions)@, id) == if id == storage_id@ {
            next_wrapping(version_of(old(versions)@, id))
        } else {
            version_of(old(versions)@, id)
        },
{
    let ghost start = versions@;
    match find_version(versions, storage_id) {
        Some(k) => {
            proof {
                lemma_version_at(start, storage_id@, k as int);
            }
            let next = versions[k].version.wrapping_add(1);
            let name = versions[k].storage_id.clone();
            versions.set(k, StorageVersion { storage_id: name, version: next });
            proof {
                let now = versions@;
                assert forall|i: int, j: int| 0 <= i < j < now.len() implies (#[trigger] now[i]).storage_id@
                    != (#[trigger] now[j]).storage_id@ by {
                    assert(now[i].storage_id@ == start[i].storage_id@);
                    assert(now[j].storage_id@ == start[j].storage_id@);
                }
                assert forall|id: Seq<char>| #[trigger] version_of(now, id) == if id == storage_id@ {
                    next_wrapping(version_of(start, id))
                } else {
                    version_of(start, id)
                } by {
                    if id == storage_id@ {
                        lemma_version_at(now, id, k as int);
                    } else if exists|i: int| 0 <= i < start.len() && #[trigger] start[i].storage_id@ == id {
                        let i = choose|i: int| 0 <= i < start.len() && #[trigger] start[i].storage_id@ == id;
                        lemma_version_at(start, id, i);
                        assert(now[i] == start[i]);
                        lemma_version_at(now, id, i);
                    } else {
                        assert forall|i: int| 0 <= i < now.len() implies (#[trigger] now[i]).storage_id@ != id by {
                            assert(now[i].storage_id@ == start[i].storage_id@);
                        }
                    }
                }
            }
        },
        None => {
            versions.push(StorageVersion { storage_id: storage_id.clone(), version: 1 });
            proof {
                let now = versions@;
                assert forall|id: Seq<char>| #[trigger] version_of(now, id) == if id == storage_id@ {
                    next_wrapping(version_of(start, id))
                } else {
                    version_of(start, id)
                } by {
                    if id == storage_id@ {
                        lemma_version_at(now, id, start.len() as int);
                    } else if exists|i: int| 0 <= i < start.len() && #[trigger] start[i].storage_id@ == id {
                        let i = choose|i: int| 0 <= i < start.len() && #[trigger] start[i].storage_id@ == id;
                        lemma_version_at(start, id, i);
                        assert(now[i] == start[i]);
                        lemma_version_at(now, id, i);
                    } else {
                        assert forall|i: int| 0 <= i < now.len() implies (#[trigger] now[i]).storage_id@ != id by {
                            if i < start.len() {
                                assert(now[i] == start[i]);
                            }
                        }
                    }
                }
            }
        },
    }
}

impl<H> PoolState<H> {
    /// Before reopening `key` for `access`: a cached file that cannot serve
    /// `access` is taken out, to be replaced by a file opened with the wider
    /// access. A closed pool refuses.
    pub fn take_unsatisfying(&mut self, key: &StorageFileKey, access: StorageFileAccess) -> (r: Result<
        Option<PoolEntry<H>>,
        StorageFilePoolError,
    >)
        requires
            old(self).wf(),
        ensures
            final(self).wf(),
            final(self).versions_view() == old(self).versions_view(),
            final(self).clock_view() == old(self).clock_view(),
            final(self).is_closed() == old(self).is_closed(),
            old(self).is_closed() ==> (r matches Err(StorageFilePoolError::Closed)) && final(self).entries_view()
                == old(self).entries_view(),
            !old(self).is_closed() ==> match entry_position(old(self).entries_view(), *key) {
                Some(i) => if !serves(old(self).entries_view()[i].access, access) {
                    r == Ok::<Option<PoolEntry<H>>, StorageFilePoolError>(Some(old(self).entries_view()[i]))
                        && final(self).entries_view() == old(self).entries_view().remove(i)
                } else {
                    (r matches Ok(None)) && final(self).entries_view() == old(self).entries_view()
                },
                None => (r matches Ok(None)) && final(self).entries_view() == old(self).entries_view(),
            },
    {
        if self.closed {
            return Err(StorageFilePoolError::Closed);
        }
        let ghost start = self.entries@;
        match find_entry(&self.entries, key) {
            Some(k) => {
                proof {
                    lemma_entry_position_at(start, *key, k as int);
                }
                if !self.entries[k].access.satisfies(access) {
                    let entry = self.entries.remove(k);
                    proof {
                        let now = self.entries@;
                        assert forall|a: int, b: int| 0 <= a < b < now.len() implies !(#[trigger] now[a]).key.same(
                            &(#[trigger] now[b]).key,
                        ) by {
                            let x = if a < k { a } else { a + 1 };
                            let y = if b < k { b } else { b + 1 };
                            assert(now[a] == start[x] && now[b] == start[y]);
                        }
                    }
                    Ok(Some(entry))
                } else {
                    Ok(None)
                }
            },
            None => {
                proof {
                    assert(!exists|i: int| 0 <= i < start.len() && #[trigger] start[i].key.same(key));
                }
                Ok(None)
            },
        }
    }

    /// Caches a freshly opened file under `key`, unless the pool closed or
    /// the storage was invalidated since `version` was read; the use clock
    /// advances and the file replaces any entry for the key, which is
    /// handed back.
    pub fn insert_opened(
        &mut self,
        key: StorageFileKey,
        access: StorageFileAccess,
        handle: H,
        version: u64,
    ) -> (r: Result<Option<PoolEntry<H>>, StorageFilePoolError>)
        requires
            old(self).wf(),
        ensures
            final(self).wf(),
            final(self).versions_view() == old(self).versions_view(),
            final(self).is_closed() == old(self).is_closed(),
            old(self).is_closed() ==> (r matches Err(StorageFilePoolError::Closed)) && final(self).entries_view()
                == old(self).entries_view() && final(self).clock_view() == old(self).clock_view(),
            !old(self).is_closed() && old(self).version(key.storage_id@) != version ==> (r matches Err(
                StorageFilePoolError::Invalidated,
            )) && final(self).entries_view() == old(self).entries_view() && final(self).clock_view()
                == old(self).clock_view(),
            !old(self).is_closed() && old(self).version(key.storage_id@) == version ==> {
                let entry = PoolEntry { key, access, last_used: next_wrapping(old(self).clock_view()), handle };
                &&& final(self).clock_view() == next_wrapping(old(self).clock_view())
                &&& match entry_position(old(self).entries_view(), key) {
                    Some(i) => r == Ok::<Option<PoolEntry<H>>, StorageFilePoolError>(Some(old(self).entries_view()[i]))
                        && final(self).entries_view() == old(self).entries_view().update(i, entry),
                    None => (r matches Ok(None)) && final(self).entries_view() == old(self).entries_view().push(entry),
                }
            },
    {
        if self.closed {
            return Err(StorageFilePoolError::Closed);
        }
        let ghost versions = self.storage_versions@;
        let current = match find_version(&self.storage_versions, &key.storage_id) {
            Some(k) => {
                proof {
                    lemma_version_at(versions, key.storage_id@, k as int);
                }
                self.storage_versions[k].version
            },
            None => 0,
        };
        if current != version {
            return Err(StorageFilePoolError::Invalidated);
        }
        self.clock = self.clock.wrapping_add(1);
        let ghost start = self.entries@;
        let found = find_entry(&self.entries, &key);
        let entry = PoolEntry { key, access, last_used: self.clock, handle };
        match found {
            Some(k) => {
                proof {
                    lemma_entry_position_at(start, entry.key, k as int);
                }
                let mut replaced = entry;
                core::mem::swap(&mut replaced, &mut self.entries[k]);
                proof {
                    let now = self.entries@;
                    assert(now =~= start.update(k as int, entry));
                    assert forall|a: int, b: int| 0 <= a < b < now.len() implies !(#[trigger] now[a]).key.same(
                        &(#[trigger] now[b]).key,
                    ) by {
                        assert(now[a].key.same(&start[a].key) && now[b].key.same(&start[b].key));
                    }
                }
                Ok(Some(replaced))
            },
            None => {
                self.entries.push(entry);
                proof {
                    assert(!exists|i: int| 0 <= i < start.len() && #[trigger] start[i].key.same(&entry.key));
                }
                Ok(None)
            },
        }
    }

    /// Takes out the least recently used cached file, if any.
    pub fn evict_one(&mut self) -> (r: Option<PoolEntry<H>>)
        requires
            old(self).wf(),
        ensures
            final(self).wf(),
            final(self).versions_view() == old(self).versions_view(),
            final(self).clock_view() == old(self).clock_view(),
            final(self).is_closed() == old(self).is_closed(),
            r is None <==> old(self).entries_view().len() == 0,
            r is None ==> final(self).entries_view() == old(self).entries_view(),
            r matches Some(e) ==> exists|i: int|
                0 <= i < old(self).entries_view().len() && e == #[trigger] old(self).entries_view()[i]
                    && final(self).entries_view() == old(self).entries_view().remove(i) && forall|j: int|
                    0 <= j < old(self).entries_view().len() ==> e.last_used
                        <= #[trigger] old(self).entries_view()[j].last_used,
    {
        if self.entries.len() == 0 {
            return None;
        }
        let ghost start = self.entries@;
        let mut best: usize = 0;
        let mut i: usize = 1;
        while i < self.entries.len()
            invariant
                self.entries@ == start,
                1 <= i <= start.len(),
                best < i,
                forall|j: int| 0 <= j < i ==> start[best as int].last_used <= #[trigger] start[j].last_used,
            decreases start.len() - i,
        {
            if self.entries[i].last_used < self.entries[best].last_used {
                best = i;
            }
            i += 1;
        }
        let entry = self.entries.remove(best);
        proof {
            let now = self.entries@;
            assert forall|a: int, b: int| 0 <= a < b < now.len() implies !(#[trigger] now[a]).key.same(
                &(#[trigger] now[b]).key,
            ) by {
                let x = if a < best { a } else { a + 1 };
                let y = if b < best { b } else { b + 1 };
                assert(now[a] == start[x] && now[b] == start[y]);
            }
            assert(entry == start[best as int]);
        }
        Some(entry)
    }

    /// Invalidates one storage: its version advances, so opens begun before
    /// are refused, and its cached files are taken out and handed back.
    pub fn invalidate_storage(&mut self, storage_id: &String) -> (removed: Vec<PoolEntry<H>>)
        requires
            old(self).wf(),
        ensures
            final(self).wf(),
            final(self).clock_view() == old(self).clock_view(),
            final(self).is_closed() == old(self).is_closed(),
            forall|id: Seq<char>| #[trigger] final(self).version(id) == if id == storage_id@ {
                next_wrapping(old(self).version(id))
            } else {
                old(self).version(id)
            },
            final(self).entries_view() == old(self).entries_view().filter(other_storage(storage_id@)),
            removed@ == old(self).entries_view().filter(of_storage(storage_id@)),
    {
        bump_version(&mut self.storage_versions, storage_id);
        let mut all: Vec<PoolEntry<H>> = Vec::new();
        core::mem::swap(&mut all, &mut self.entries);
        let ghost start = all@;
        let mut kept: Vec<PoolEntry<H>> = Vec::new();
        let mut removed: Vec<PoolEntry<H>> = Vec::new();
        proof {
            assert(start.take(0) =~= Seq::<PoolEntry<H>>::empty());
            assert(start.skip(0) =~= start);
        }
        while all.len() > 0
            invariant
                all@.len() <= start.len(),
                all@ == start.skip(start.len() - all@.len()),
                kept@ == start.take(start.len() - all@.len()).filter(other_storage(storage_id@)),
                removed@ == start.take(start.len() - all@.len()).filter(of_storage(storage_id@)),
            decreases all@.len(),
        {
            let ghost n = start.len() - all@.len();
            let entry = all.remove(0);
            proof {
                reveal(Seq::filter);
                assert(entry == start[n]);
                assert(all@ =~= start.skip(n + 1));
                assert(start.take(n + 1).drop_last() =~= start.take(n));
                assert(start.take(n + 1).last() == entry);
            }
            if entry.key.storage_id == *storage_id {
                removed.push(entry);
            } else {
                kept.push(entry);
            }
        }
        proof {
            assert(start.take(start.len() as int) =~= start);
            lemma_filter_keys_distinct(start, other_storage(storage_id@));
        }
        self.entries = kept;
        removed
    }

    /// Invalidates one file: its storage's version advances and the file is
    /// taken out of the cache and handed back.
    pub fn invalidate_key(&mut self, key: &StorageFileKey) -> (removed: Option<PoolEntry<H>>)
        requires
            old(self).wf(),
        ensures
            final(self).wf(),
            final(self).clock_view() == old(self).clock_view(),
            final(self).is_closed() == old(self).is_closed(),
            forall|id: Seq<char>| #[trigger] final(self).version(id) == if id == key.storage_id@ {
                next_wrapping(old(self).version(id))
            } else {
                old(self).version(id)
            },
            match entry_position(old(self).entries_view(), *key) {
                Some(i) => removed == Some(old(self).entries_view()[i]) && final(self).entries_view()
                    == old(self).entries_view().remove(i),
                None => removed is None && final(self).entries_view() == old(self).entries_view(),
            },
    {
        bump_version(&mut self.storage_versions, &key.storage_id);
        let ghost start = self.entries@;
        match find_entry(&self.entries, key) {
            Some(k) => {
                proof {
                    lemma_entry_position_at(start, *key, k as int);
                }
                let entry = self.entries.remove(k);
                proof {
                    let now = self.entries@;
                    assert forall|a: int, b: int| 0 <= a < b < now.len() implies !(#[trigger] now[a]).key.same(
                        &(#[trigger] now[b]).key,
                    ) by {
                        let x = if a < k { a } else { a + 1 };
                        let y = if b < k { b } else { b + 1 };
                        assert(now[a] == start[x] && now[b] == start[y]);
                    }
                }
                Some(entry)
            },
            None => {
                proof {
                    assert(!exists|i: int| 0 <= i < start.len() && #[trigger] start[i].key.same(key));
                }
                None
            },
        }
    }

    /// Invalidates every storage seen so far and hands back every cached
    /// file.
    pub fn invalidate_all(&mut self) -> (removed: Vec<PoolEntry<H>>)
        requires
            old(self).wf(),
        ensures
            final(self).wf(),
            final(self).clock_view() == old(self).clock_view(),
            final(self).is_closed() == old(self).is_closed(),
            final(self).versions_view().len() == old(self).versions_view().len(),
            forall|i: int| 0 <= i < final(self).versions_view().len() ==> {
                &&& (#[trigger] final(self).versions_view()[i]).storage_id == old(self).versions_view()[i].storage_id
                &&& final(self).versions_view()[i].version == next_wrapping(old(self).versions_view()[i].version)
            },
            final(self).entries_view().len() == 0,
            removed@ == old(self).entries_view(),
    {
        let mut i: usize = 0;
        while i < self.storage_versions.len()
            invariant
                i <= self.storage_versions@.len(),
                self.storage_versions@.len() == old(self).storage_versions@.len(),
                self.entries@ == old(self).entries@,
                self.clock == old(self).clock,
                self.closed == old(self).closed,
                forall|j: int| 0 <= j < self.storage_versions@.len() ==> (#[trigger] self.storage_versions@[j]).storage_id
                    == old(self).storage_versions@[j].storage_id,
                forall|j: int| 0 <= j < i ==> (#[trigger] self.storage_versions@[j]).version == next_wrapping(
                    old(self).storage_versions@[j].version,
                ),
                forall|j: int| i <= j < self.storage_versions@.len() ==> (#[trigger] self.storage_versions@[j]).version
                    == old(self).storage_versions@[j].version,
            decreases self.storage_versions@.len() - i,
        {
            let next = self.storage_versions[i].version.wrapping_add(1);
            let name = self.storage_versions[i].storage_id.clone();
            self.storage_versions.set(i, StorageVersion { storage_id: name, version: next });
            i += 1;
        }
        let mut removed: Vec<PoolEntry<H>> = Vec::new();
        core::mem::swap(&mut removed, &mut self.entries);
        proof {
            let v = self.storage_versions@;
            assert forall|a: int, b: int| 0 <= a < b < v.len() implies (#[trigger] v[a]).storage_id@
                != (#[trigger] v[b]).storage_id@ by {
                assert(v[a].storage_id == old(self).storage_versions@[a].storage_id);
                assert(v[b].storage_id == old(self).storage_versions@[b].storage_id);
            }
        }
        removed
    }

    /// Closes the pool: later lookups, opens and version reads are refused,
    /// and every cached file is handed back.
    pub fn close(&mut self) -> (removed: Vec<PoolEntry<H>>)
        requires
            old(self).wf(),
        ensures
            final(self).wf(),
            final(self).is_closed(),
            final(self).clock_view() == old(self).clock_view(),
            final(self).versions_view() == old(self).versions_view(),
            final(self).entries_view().len() == 0,
            removed@ == old(self).entries_view(),
    {
        self.closed = true;
        let mut removed: Vec<PoolEntry<H>> = Vec::new();
        core::mem::swap(&mut removed, &mut self.entries);
        removed
    }
}


/// An open that read a storage's version before the storage was
/// invalidated is refused: invalidation always changes the version.
pub proof fn lemma_stale_open_refused<H>(before: PoolState<H>, after: PoolState<H>, storage_id: Seq<char>)
    requires
        after.version(storage_id) == next_wrapping(before.version(storage_id)),
    ensures
        after.version(storage_id) != before.version(storage_id),
{
}


pub const MSG_OPEN_GOT_DELETION: &'static str = "platform returned deletion for an open request";

pub const MSG_OPEN_GOT_OBSERVATION: &'static str = "platform returned an observation for an open request";

pub const MSG_OBSERVE_GOT_FILE: &'static str = "platform returned a file for an observation request";

pub const MSG_OBSERVE_GOT_DELETION: &'static str = "platform returned deletion for an observation request";

pub const MSG_DELETE_GOT_FILE: &'static str = "platform returned a file for a deletion request";

pub const MSG_DELETE_GOT_OBSERVATION: &'static str = "platform returned an observation for a deletion request";

pub const MSG_REQUEST_DEADLINE: &'static str = "platform storage request exceeded its deadline";

pub const MSG_DELETION_DEADLINE: &'static str = "platform storage deletion exceeded its deadline";

/// A storage object that the platform names instead of a path.
#[derive(Debug)]
pub struct PlatformStorageTarget {
    pub root_id: String,
    pub storage_id: String,
    pub storage_generation: u64,
    pub role: StorageFileRole,
    pub path: Vec<String>,
}

/// One request to the platform storage broker.
#[derive(Debug)]
pub struct PlatformStorageRequest {
    pub request_id: u64,
    pub root_id: String,
    pub storage_id: String,
    pub storage_generation: u64,
    pub role: StorageFileRole,
    pub path: Vec<String>,
    pub operation: PlatformStorageOperation,
    pub access: StorageFileAccess,
    pub timeout_millis: u64,
}

/// The counters of the storage file pool.
#[derive(Clone, Copy, Debug, Default, PartialEq, Eq)]
pub struct StorageFilePoolSnapshot {
    pub limit: usize,
    pub current_owned: usize,
    pub owned_high_water: usize,
    pub cached_entries: usize,
    pub hits: u64,
    pub misses: u64,
    pub evictions: u64,
    pub singleflight_waits: u64,
    pub mode_upgrades: u64,
    pub open_failures: u64,
    pub resource_retries: u64,
    pub platform_pending: usize,
    pub platform_pending_high_water: usize,
}

/// The access a platform request carries: what opening asks for, a read
/// for an observation, a write for a deletion.
pub open spec fn request_access(operation: PlatformStorageOperation, open_access: StorageFileAccess) -> StorageFileAccess {
    match operation {
        PlatformStorageOperation::Open => open_access,
        PlatformStorageOperation::Observe => StorageFileAccess::ReadExisting,
        PlatformStorageOperation::Delete => StorageFileAccess::ReadWriteExisting,
    }
}

/// A copy of the path components.
fn copy_path(path: &Vec<String>) -> (copy: Vec<String>)
    ensures
        copy@ == path@,
{
    let mut copy: Vec<String> = Vec::new();
    let mut i: usize = 0;
    while i < path.len()
        invariant
            i <= path@.len(),
            copy@ == path@.take(i as int),
        decreases path@.len() - i,
    {
        copy.push(path[i].clone());
        assert(path@.take(i + 1) =~= path@.take(i as int).push(path@[i as int]));
        i += 1;
    }
    assert(path@.take(i as int) =~= path@);
    copy
}

/// The request for `operation` on `target`, numbered `request_id`, with the
/// platform deadline.
pub fn platform_request(
    request_id: u64,
    target: &PlatformStorageTarget,
    operation: PlatformStorageOperation,
    open_access: StorageFileAccess,
) -> (request: PlatformStorageRequest)
    ensures
        request.request_id == request_id,
        request.root_id == target.root_id,
        request.storage_id == target.storage_id,
        request.storage_generation == target.storage_generation,
        request.role == target.role,
        request.path@ == target.path@,
        request.operation == operation,
        request.access == request_access(operation, open_access),
        request.timeout_millis == PLATFORM_STORAGE_REQUEST_TIMEOUT_MILLIS,
{
    let access = match operation {
        PlatformStorageOperation::Open => open_access,
        PlatformStorageOperation::Observe => StorageFileAccess::ReadExisting,
        PlatformStorageOperation::Delete => StorageFileAccess::ReadWriteExisting,
    };
    PlatformStorageRequest {
        request_id,
        root_id: target.root_id.clone(),
        storage_id: target.storage_id.clone(),
        storage_generation: target.storage_generation,
        role: target.role,
        path: copy_path(&target.path),
        operation,
        access,
        timeout_millis: PLATFORM_STORAGE_REQUEST_TIMEOUT_MILLIS,
    }
}

/// What came back for a platform request.
#[derive(Debug)]
pub enum PlatformReply<F> {
    File(F),
    Observation(StorageObservation),
    Deleted,
    /// The broker reported a failure.
    Failed(PlatformStorageFailure),
    /// The broker dropped the request unanswered.
    Dropped,
    /// No answer came before the deadline.
    TimedOut,
}

/// The answer a platform request was made for.
#[derive(Debug)]
pub enum PlatformAnswer<F> {
    File(F),
    Observation(StorageObservation),
    Deleted,
}

/// The failure kinds that describe the storage root rather than one
/// request, and are kept until the root is repaired.
pub open spec fn root_failure_kind(kind: PlatformStorageFailureKind) -> bool {
    ||| kind == PlatformStorageFailureKind::GrantUnavailable
    ||| kind == PlatformStorageFailureKind::PermissionDenied
    ||| kind == PlatformStorageFailureKind::ProviderRefused
    ||| kind == PlatformStorageFailureKind::NonSeekable
}

/// Whether a failure of this kind is kept as the root's failure.
pub fn is_root_failure(kind: PlatformStorageFailureKind) -> (root: bool)
    ensures
        root == root_failure_kind(kind),
{
    match kind {
        PlatformStorageFailureKind::GrantUnavailable | PlatformStorageFailureKind::PermissionDenied
        | PlatformStorageFailureKind::ProviderRefused | PlatformStorageFailureKind::NonSeekable => true,
        _ => false,
    }
}

/// An internal failure with a fixed message.
fn internal_failure(message: &'static str) -> (failure: PlatformStorageFailure)
    ensures
        failure.kind == PlatformStorageFailureKind::Internal,
        failure.detail@ == message@,
{
    PlatformStorageFailure { kind: PlatformStorageFailureKind::Internal, detail: message.to_owned() }
}

/// The message for an answer of the wrong kind, if it is one.
pub open spec fn mismatch_message<F>(operation: PlatformStorageOperation, reply: PlatformReply<F>) -> Option<&'static str> {
    match (operation, reply) {
        (PlatformStorageOperation::Open, PlatformReply::Deleted) => Some(MSG_OPEN_GOT_DELETION),
        (PlatformStorageOperation::Open, PlatformReply::Observation(_)) => Some(MSG_OPEN_GOT_OBSERVATION),
        (PlatformStorageOperation::Observe, PlatformReply::File(_)) => Some(MSG_OBSERVE_GOT_FILE),
        (PlatformStorageOperation::Observe, PlatformReply::Deleted) => Some(MSG_OBSERVE_GOT_DELETION),
        (PlatformStorageOperation::Delete, PlatformReply::File(_)) => Some(MSG_DELETE_GOT_FILE),
        (PlatformStorageOperation::Delete, PlatformReply::Observation(_)) => Some(MSG_DELETE_GOT_OBSERVATION),
        _ => None,
    }
}

/// What a platform request comes to: the answer it asked for; the
/// broker's failure; an unavailable broker when the request was dropped; a
/// deadline failure when none came in time; an internal failure for an
/// answer of the wrong kind.
pub fn platform_outcome<F>(operation: PlatformStorageOperation, reply: PlatformReply<F>) -> (r: Result<
    PlatformAnswer<F>,
    StorageFilePoolError,
>)
    ensures
        match reply {
            PlatformReply::Failed(f) => r == Err::<PlatformAnswer<F>, StorageFilePoolError>(
                StorageFilePoolError::PlatformFailure(f),
            ),
            PlatformReply::Dropped => r matches Err(StorageFilePoolError::PlatformUnavailable),
            PlatformReply::TimedOut => r matches Err(StorageFilePoolError::PlatformFailure(g)) && g.kind
                == PlatformStorageFailureKind::DeadlineExceeded && g.detail@ == (
            if operation == PlatformStorageOperation::Delete {
                MSG_DELETION_DEADLINE
            } else {
                MSG_REQUEST_DEADLINE
            })@,
            PlatformReply::File(file) => match mismatch_message(operation, reply) {
                Some(m) => r matches Err(StorageFilePoolError::PlatformFailure(g)) && g.kind
                    == PlatformStorageFailureKind::Internal && g.detail@ == m@,
                None => r == Ok::<PlatformAnswer<F>, StorageFilePoolError>(PlatformAnswer::File(file)),
            },
            PlatformReply::Observation(o) => match mismatch_message(operation, reply) {
                Some(m) => r matches Err(StorageFilePoolError::PlatformFailure(g)) && g.kind
                    == PlatformStorageFailureKind::Internal && g.detail@ == m@,
                None => r == Ok::<PlatformAnswer<F>, StorageFilePoolError>(PlatformAnswer::Observation(o)),
            },
            PlatformReply::Deleted => match mismatch_message(operation, reply) {
                Some(m) => r matches Err(StorageFilePoolError::PlatformFailure(g)) && g.kind
                    == PlatformStorageFailureKind::Internal && g.detail@ == m@,
                None => r == Ok::<PlatformAnswer<F>, StorageFilePoolError>(PlatformAnswer::Deleted),
            },
        },
{
    match reply {
        PlatformReply::Failed(failure) => Err(StorageFilePoolError::PlatformFailure(failure)),
        PlatformReply::Dropped => Err(StorageFilePoolError::PlatformUnavailable),
        PlatformReply::TimedOut => {
            let message = match operation {
                PlatformStorageOperation::Delete => MSG_DELETION_DEADLINE,
                _ => MSG_REQUEST_DEADLINE,
            };
            Err(
                StorageFilePoolError::PlatformFailure(
                    PlatformStorageFailure {
                        kind: PlatformStorageFailureKind::DeadlineExceeded,
                        detail: message.to_owned(),
                    },
                ),
            )
        },
        PlatformReply::File(file) => match operation {
            PlatformStorageOperation::Open => Ok(PlatformAnswer::File(file)),
            PlatformStorageOperation::Observe => Err(
                StorageFilePoolError::PlatformFailure(internal_failure(MSG_OBSERVE_GOT_FILE)),
            ),
            PlatformStorageOperation::Delete => Err(
                StorageFilePoolError::PlatformFailure(internal_failure(MSG_DELETE_GOT_FILE)),
            ),
        },
        PlatformReply::Observation(observation) => match operation {
            PlatformStorageOperation::Observe => Ok(PlatformAnswer::Observation(observation)),
            PlatformStorageOperation::Open => Err(
                StorageFilePoolError::PlatformFailure(internal_failure(MSG_OPEN_GOT_OBSERVATION)),
            ),
            PlatformStorageOperation::Delete => Err(
                StorageFilePoolError::PlatformFailure(internal_failure(MSG_DELETE_GOT_OBSERVATION)),
            ),
        },
        PlatformReply::Deleted => match operation {
            PlatformStorageOperation::Delete => Ok(PlatformAnswer::Deleted),
            PlatformStorageOperation::Open => Err(
                StorageFilePoolError::PlatformFailure(internal_failure(MSG_OPEN_GOT_DELETION)),
            ),
            PlatformStorageOperation::Observe => Err(
                StorageFilePoolError::PlatformFailure(internal_failure(MSG_OBSERVE_GOT_DELETION)),
            ),
        },
    }
}

} // verus!

//! Session-wide download resource accounting.
//!
//! Reservations against a ceiling are all-or-nothing and raise the
//! high-water mark; releases never underflow. Queued storage executions are
//! granted fairly: a storage root other than the last one granted goes
//! first, and within a root another torrent than the last one granted.
use vstd::prelude::*;
use vstd::utf8::encode_utf8;

verus! {

/// Reserves `amount` against `limit`: the counter grows by `amount` and the
/// high-water mark follows, or nothing changes when the sum would overflow
/// or pass `limit`.
pub fn try_reserve(
    counter: &mut usize,
    high_water: &mut usize,
    limit: usize,
    amount: usize,
) -> (reserved: Option<()>)
    ensures
        *old(counter) + amount <= limit ==> reserved is Some && *final(counter) == *old(counter)
            + amount && *final(high_water) == if *old(high_water) < *old(counter) + amount {
            (*old(counter) + amount) as usize
        } else {
            *old(high_water)
        },
        *old(counter) + amount > limit ==> reserved is None && *final(counter) == *old(counter)
            && *final(high_water) == *old(high_water),
{
    let next = match counter.checked_add(amount) {
        Some(next) => next,
        None => return None,
    };
    if next > limit {
        return None;
    }
    *counter = next;
    if *high_water < next {
        *high_water = next;
    }
    Some(())
}

/// Gives `amount` back; releasing more than is held is an accounting bug.
pub fn checked_release(counter: &mut usize, amount: usize)
    requires
        amount <= *old(counter),
    ensures
        *final(counter) == *old(counter) - amount,
{
    if amount == 0 {
        return;
    }
    *counter = *counter - amount;
}

/// The counter's current value.
pub fn load(counter: &usize) -> (value: usize)
    ensures
        value == *counter,
{
    *counter
}

/// One queued storage execution.
#[derive(Debug)]
pub struct ExecutionWaiter {
    pub ticket: u64,
    pub torrent_key: String,
    pub storage_root: String,
}

/// The torrent last granted an execution on a storage root.
#[derive(Debug)]
pub struct RootGrant {
    pub storage_root: String,
    pub torrent_key: String,
}

/// Execution counters of one storage root.
#[derive(Clone, Copy, Debug, PartialEq, Eq, Structural)]
pub struct RootExecutionState {
    pub active: usize,
    pub active_high_water: usize,
    pub queued: usize,
    pub queued_high_water: usize,
}

/// The counters of one storage root, by the root's text.
#[derive(Debug)]
pub struct RootExecution {
    pub storage_root: String,
    pub counters: RootExecutionState,
}

/// The fairness state of queued storage executions, waiters in arrival order.
#[derive(Debug)]
pub struct FairExecutionState {
    pub next_ticket: u64,
    pub active: usize,
    pub waiters: Vec<ExecutionWaiter>,
    pub roots: Vec<RootExecution>,
    pub last_granted_root: Option<String>,
    pub last_granted_torrent_by_root: Vec<RootGrant>,
}

/// The first index at or after `from` of a waiter on another root than `last`.
pub open spec fn first_other_root(waiters: Seq<ExecutionWaiter>, last: Option<Seq<char>>, from: int) -> Option<int>
    decreases waiters.len() - from,
{
    if from < 0 || from >= waiters.len() {
        None
    } else if last != Some(waiters[from].storage_root@) {
        Some(from)
    } else {
        first_other_root(waiters, last, from + 1)
    }
}

/// The first index at or after `from` of a waiter on `root` whose torrent is
/// not `skip` (any torrent when `skip` is `None` and `avoid` is false).
pub open spec fn first_on_root(
    waiters: Seq<ExecutionWaiter>,
    root: Seq<char>,
    avoid: Option<Seq<char>>,
    from: int,
) -> Option<int>
    decreases waiters.len() - from,
{
    if from < 0 || from >= waiters.len() {
        None
    } else if waiters[from].storage_root@ == root && avoid != Some(waiters[from].torrent_key@) {
        Some(from)
    } else {
        first_on_root(waiters, root, avoid, from + 1)
    }
}

/// The torrent last granted on `root`, by the first record for it.
pub open spec fn last_torrent_on(grants: Seq<RootGrant>, root: Seq<char>, from: int) -> Option<Seq<char>>
    decreases grants.len() - from,
{
    if from < 0 || from >= grants.len() {
        None
    } else if grants[from].storage_root@ == root {
        Some(grants[from].torrent_key@)
    } else {
        last_torrent_on(grants, root, from + 1)
    }
}

impl FairExecutionState {
    /// The last granted root, by its text.
    pub open spec fn last_root(&self) -> Option<Seq<char>> {
        match self.last_granted_root {
            Some(root) => Some(root@),
            None => None,
        }
    }

    /// The root the next grant goes to: the first queued root other than
    /// the last one granted, else the first queued root.
    pub open spec fn selected_root(&self) -> Seq<char> {
        match first_other_root(self.waiters@, self.last_root(), 0) {
            Some(index) => self.waiters@[index].storage_root@,
            None => self.waiters@[0].storage_root@,
        }
    }

    /// The index of the waiter granted next, if any waits.
    pub open spec fn selected_index(&self) -> Option<int> {
        if self.waiters@.len() == 0 {
            None
        } else {
            let root = self.selected_root();
            let avoid = last_torrent_on(self.last_granted_torrent_by_root@, root, 0);
            match first_on_root(self.waiters@, root, avoid, 0) {
                Some(index) => Some(index),
                None => first_on_root(self.waiters@, root, None, 0),
            }
        }
    }
}

/// Every index from `from` on fails to be another root than `last`.
proof fn lemma_first_other_root_none(waiters: Seq<ExecutionWaiter>, last: Option<Seq<char>>, from: int)
    requires
        0 <= from <= waiters.len(),
        forall|i: int| from <= i < waiters.len() ==> last == Some(#[trigger] waiters[i].storage_root@),
    ensures
        first_other_root(waiters, last, from) is None,
    decreases waiters.len() - from,
{
    if from < waiters.len() {
        lemma_first_other_root_none(waiters, last, from + 1);
    }
}

/// A match at `found` with none between `from` and `found` is the first one.
proof fn lemma_first_other_root_at(
    waiters: Seq<ExecutionWaiter>,
    last: Option<Seq<char>>,
    from: int,
    found: int,
)
    requires
        0 <= from <= found < waiters.len(),
        last != Some(waiters[found].storage_root@),
        forall|i: int| from <= i < found ==> last == Some(#[trigger] waiters[i].storage_root@),
    ensures
        first_other_root(waiters, last, from) == Some(found),
    decreases found - from,
{
    if from < found {
        lemma_first_other_root_at(waiters, last, from + 1, found);
    }
}

proof fn lemma_first_on_root_none(
    waiters: Seq<ExecutionWaiter>,
    root: Seq<char>,
    avoid: Option<Seq<char>>,
    from: int,
)
    requires
        0 <= from <= waiters.len(),
        forall|i: int|
            from <= i < waiters.len() ==> !(#[trigger] waiters[i].storage_root@ == root && avoid
                != Some(waiters[i].torrent_key@)),
    ensures
        first_on_root(waiters, root, avoid, from) is None,
    decreases waiters.len() - from,
{
    if from < waiters.len() {
        lemma_first_on_root_none(waiters, root, avoid, from + 1);
    }
}

proof fn lemma_first_on_root_at(
    waiters: Seq<ExecutionWaiter>,
    root: Seq<char>,
    avoid: Option<Seq<char>>,
    from: int,
    found: int,
)
    requires
        0 <= from <= found < waiters.len(),
        waiters[found].storage_root@ == root && avoid != Some(waiters[found].torrent_key@),
        forall|i: int|
            from <= i < found ==> !(#[trigger] waiters[i].storage_root@ == root && avoid != Some(
                waiters[i].torrent_key@,
            )),
    ensures
        first_on_root(waiters, root, avoid, from) == Some(found),
    decreases found - from,
{
    if from < found {
        lemma_first_on_root_at(waiters, root, avoid, from + 1, found);
    }
}

proof fn lemma_last_torrent_none(grants: Seq<RootGrant>, root: Seq<char>, from: int)
    requires
        0 <= from <= grants.len(),
        forall|i: int| from <= i < grants.len() ==> #[trigger] grants[i].storage_root@ != root,
    ensures
        last_torrent_on(grants, root, from) is None,
    decreases grants.len() - from,
{
    if from < grants.len() {
        lemma_last_torrent_none(grants, root, from + 1);
    }
}

proof fn lemma_last_torrent_at(grants: Seq<RootGrant>, root: Seq<char>, from: int, found: int)
    requires
        0 <= from <= found < grants.len(),
        grants[found].storage_root@ == root,
        forall|i: int| from <= i < found ==> #[trigger] grants[i].storage_root@ != root,
    ensures
        last_torrent_on(grants, root, from) == Some(grants[found].torrent_key@),
    decreases found - from,
{
    if from < found {
        lemma_last_torrent_at(grants, root, from + 1, found);
    }
}

/// A waiter that `first_other_root` names is in range.
proof fn lemma_first_other_root_range(waiters: Seq<ExecutionWaiter>, last: Option<Seq<char>>, from: int)
    ensures
        first_other_root(waiters, last, from) matches Some(i) ==> from <= i < waiters.len(),
    decreases waiters.len() - from,
{
    if 0 <= from < waiters.len() {
        lemma_first_other_root_range(waiters, last, from + 1);
    }
}

/// A waiter that `first_on_root` names is in range and on `root`.
proof fn lemma_first_on_root_range(
    waiters: Seq<ExecutionWaiter>,
    root: Seq<char>,
    avoid: Option<Seq<char>>,
    from: int,
)
    ensures
        first_on_root(waiters, root, avoid, from) matches Some(i) ==> from <= i < waiters.len()
            && waiters[i].storage_root@ == root,
    decreases waiters.len() - from,
{
    if 0 <= from < waiters.len() {
        lemma_first_on_root_range(waiters, root, avoid, from + 1);
    }
}

/// A matching waiter at or after `from` means a first match exists.
proof fn lemma_first_on_root_some(
    waiters: Seq<ExecutionWaiter>,
    root: Seq<char>,
    avoid: Option<Seq<char>>,
    from: int,
    witness: int,
)
    requires
        0 <= from <= witness < waiters.len(),
        waiters[witness].storage_root@ == root && avoid != Some(waiters[witness].torrent_key@),
    ensures
        first_on_root(waiters, root, avoid, from) is Some,
    decreases witness - from,
{
    if from < witness {
        lemma_first_on_root_some(waiters, root, avoid, from + 1, witness);
    }
}

/// Whether two optional texts are equal.
fn same_text(left: &Option<String>, right: &String) -> (same: bool)
    ensures
        same <==> match left {
            Some(text) => text@ == right@,
            None => false,
        },
{
    match left {
        Some(text) => *text == *right,
        None => false,
    }
}

/// The index of the first waiter on `root` whose torrent is not `avoid`
/// (when `avoid` is given).
fn find_on_root(
    waiters: &Vec<ExecutionWaiter>,
    root: &String,
    avoid: &Option<String>,
) -> (found: Option<usize>)
    ensures
        match found {
            Some(index) => first_on_root(
                waiters@,
                root@,
                match avoid {
                    Some(text) => Some(text@),
                    None => None,
                },
                0,
            ) == Some(index as int),
            None => first_on_root(
                waiters@,
                root@,
                match avoid {
                    Some(text) => Some(text@),
                    None => None,
                },
                0,
            ) is None,
        },
{
    let ghost skip: Option<Seq<char>> = match avoid {
        Some(text) => Some(text@),
        None => None,
    };
    let mut index: usize = 0;
    while index < waiters.len()
        invariant
            index <= waiters@.len(),
            skip == match avoid {
                Some(text) => Some(text@),
                None => None::<Seq<char>>,
            },
            forall|i: int|
                0 <= i < index ==> !(#[trigger] waiters@[i].storage_root@ == root@ && skip != Some(
                    waiters@[i].torrent_key@,
                )),
        decreases waiters@.len() - index,
    {
        let waiter = &waiters[index];
        if waiter.storage_root == *root && !same_text(avoid, &waiter.torrent_key) {
            proof {
                lemma_first_on_root_at(waiters@, root@, skip, 0, index as int);
            }
            return Some(index);
        }
        index += 1;
    }
    proof {
        lemma_first_on_root_none(waiters@, root@, skip, 0);
    }
    None
}

/// The index of the first waiter on another root than the last granted.
fn find_other_root(state: &FairExecutionState) -> (found: Option<usize>)
    ensures
        match found {
            Some(index) => first_other_root(state.waiters@, state.last_root(), 0) == Some(
                index as int,
            ),
            None => first_other_root(state.waiters@, state.last_root(), 0) is None,
        },
{
    let ghost last = state.last_root();
    let mut index: usize = 0;
    while index < state.waiters.len()
        invariant
            index <= state.waiters@.len(),
            last == state.last_root(),
            forall|i: int|
                0 <= i < index ==> last == Some(#[trigger] state.waiters@[i].storage_root@),
        decreases state.waiters@.len() - index,
    {
        if !same_text(&state.last_granted_root, &state.waiters[index].storage_root) {
            proof {
                lemma_first_other_root_at(state.waiters@, last, 0, index as int);
            }
            return Some(index);
        }
        index += 1;
    }
    proof {
        lemma_first_other_root_none(state.waiters@, last, 0);
    }
    None
}

/// The torrent last granted on `root`.
fn find_last_torrent(grants: &Vec<RootGrant>, root: &String) -> (torrent: Option<String>)
    ensures
        match torrent {
            Some(text) => last_torrent_on(grants@, root@, 0) == Some(text@),
            None => last_torrent_on(grants@, root@, 0) is None,
        },
{
    let mut index: usize = 0;
    while index < grants.len()
        invariant
            index <= grants@.len(),
            forall|i: int| 0 <= i < index ==> #[trigger] grants@[i].storage_root@ != root@,
        decreases grants@.len() - index,
    {
        if grants[index].storage_root == *root {
            proof {
                lemma_last_torrent_at(grants@, root@, 0, index as int);
            }
            return Some(grants[index].torrent_key.clone());
        }
        index += 1;
    }
    proof {
        lemma_last_torrent_none(grants@, root@, 0);
    }
    None
}

/// The index of the waiter granted next, if any waits.
fn selected_position(state: &FairExecutionState) -> (position: Option<usize>)
    ensures
        match state.selected_index() {
            Some(index) => 0 <= index < state.waiters@.len() && (position matches Some(p) && p == index),
            None => position is None,
        },
{
    if state.waiters.len() == 0 {
        return None;
    }
    proof {
        lemma_first_other_root_range(state.waiters@, state.last_root(), 0);
    }
    let root_index = match find_other_root(state) {
        Some(index) => index,
        None => 0,
    };
    let root = &state.waiters[root_index].storage_root;
    assert(root@ == state.selected_root());
    let last_torrent = find_last_torrent(&state.last_granted_torrent_by_root, root);
    proof {
        lemma_first_on_root_range(
            state.waiters@,
            root@,
            last_torrent_on(state.last_granted_torrent_by_root@, root@, 0),
            0,
        );
        lemma_first_on_root_range(state.waiters@, root@, None, 0);
    }
    let preferred = find_on_root(&state.waiters, root, &last_torrent);
    match preferred {
        Some(index) => Some(index),
        None => {
            let any: Option<String> = None;
            match find_on_root(&state.waiters, root, &any) {
                Some(index) => Some(index),
                None => {
                    proof {
                        lemma_first_on_root_some(state.waiters@, root@, None, 0, root_index as int);
                    }
                    None
                },
            }
        },
    }
}

/// The ticket of the waiter granted next, if any waits.
pub fn selected_waiter(state: &FairExecutionState) -> (ticket: Option<u64>)
    ensures
        match state.selected_index() {
            Some(index) => 0 <= index < state.waiters@.len() && ticket == Some(
                state.waiters@[index].ticket,
            ),
            None => ticket is None,
        },
{
    match selected_position(state) {
        Some(index) => Some(state.waiters[index].ticket),
        None => None,
    }
}


/// The counters kept for `root`, by the first entry for it.
pub open spec fn counters_of(roots: Seq<RootExecution>, root: Seq<char>, from: int) -> Option<
    RootExecutionState,
>
    decreases roots.len() - from,
{
    if from < 0 || from >= roots.len() {
        None
    } else if roots[from].storage_root@ == root {
        Some(roots[from].counters)
    } else {
        counters_of(roots, root, from + 1)
    }
}

/// The number of waiters queued on `root`.
pub open spec fn queued_on(waiters: Seq<ExecutionWaiter>, root: Seq<char>) -> nat
    decreases waiters.len(),
{
    if waiters.len() == 0 {
        0
    } else {
        queued_on(waiters.drop_last(), root) + if waiters.last().storage_root@ == root {
            1nat
        } else {
            0nat
        }
    }
}

/// `value + 1`, held at `usize::MAX`.
pub open spec fn bump(value: usize) -> usize {
    if value == usize::MAX {
        value
    } else {
        (value + 1) as usize
    }
}

/// `value`, raised to at least `floor`.
pub open spec fn raised(value: usize, floor: usize) -> usize {
    if value < floor {
        floor
    } else {
        value
    }
}

/// The counters of a root before its first waiter.
pub open spec fn fresh_counters() -> RootExecutionState {
    RootExecutionState { active: 0, active_high_water: 0, queued: 0, queued_high_water: 0 }
}

/// The counters after one more waiter queues.
pub open spec fn queued_one(c: RootExecutionState) -> RootExecutionState {
    RootExecutionState {
        queued: bump(c.queued),
        queued_high_water: raised(c.queued_high_water, bump(c.queued)),
        ..c
    }
}

/// The counters after a queued waiter is granted.
pub open spec fn granted_one(c: RootExecutionState) -> RootExecutionState {
    RootExecutionState {
        queued: (c.queued - 1) as usize,
        active: bump(c.active),
        active_high_water: raised(c.active_high_water, bump(c.active)),
        ..c
    }
}

impl FairExecutionState {
    /// The state's invariant: tickets increase along the queue and none is
    /// past the last issued; roots are kept once each; every waiter's root
    /// has counters, and each root's queued count is its number of waiters.
    pub open spec fn wf(&self) -> bool {
        &&& forall|i: int, j: int|
            0 <= i < j < self.waiters@.len() ==> #[trigger] self.waiters@[i].ticket
                < #[trigger] self.waiters@[j].ticket
        &&& forall|i: int| 0 <= i < self.waiters@.len() ==> #[trigger] self.waiters@[i].ticket <= self.next_ticket
        &&& forall|i: int, j: int|
            0 <= i < j < self.roots@.len() ==> #[trigger] self.roots@[i].storage_root@
                != #[trigger] self.roots@[j].storage_root@
        &&& forall|i: int|
            0 <= i < self.waiters@.len() ==> counters_of(self.roots@, #[trigger] self.waiters@[i].storage_root@, 0) is Some
        &&& forall|i: int|
            0 <= i < self.roots@.len() ==> (#[trigger] self.roots@[i]).counters.queued == queued_on(
                self.waiters@,
                self.roots@[i].storage_root@,
            )
    }

    /// The counters of `root`, if it was ever queued on.
    pub open spec fn root_counters(&self, root: Seq<char>) -> Option<RootExecutionState> {
        counters_of(self.roots@, root, 0)
    }

    /// The torrent last granted on `root`.
    pub open spec fn last_torrent(&self, root: Seq<char>) -> Option<Seq<char>> {
        last_torrent_on(self.last_granted_torrent_by_root@, root, 0)
    }
}

proof fn lemma_counters_at(roots: Seq<RootExecution>, root: Seq<char>, from: int, k: int)
    requires
        0 <= from <= k < roots.len(),
        roots[k].storage_root@ == root,
        forall|i: int| from <= i < k ==> (#[trigger] roots[i]).storage_root@ != root,
    ensures
        counters_of(roots, root, from) == Some(roots[k].counters),
    decreases k - from,
{
    if from < k {
        lemma_counters_at(roots, root, from + 1, k);
    }
}

proof fn lemma_counters_none(roots: Seq<RootExecution>, root: Seq<char>, from: int)
    requires
        0 <= from,
        forall|i: int| from <= i < roots.len() ==> (#[trigger] roots[i]).storage_root@ != root,
    ensures
        counters_of(roots, root, from) is None,
    decreases roots.len() - from,
{
    if from < roots.len() {
        lemma_counters_none(roots, root, from + 1);
    }
}

/// With roots kept once each, the counters of a root are those of its one
/// entry, or none.
proof fn lemma_counters_exact(roots: Seq<RootExecution>, root: Seq<char>)
    requires
        forall|i: int, j: int|
            0 <= i < j < roots.len() ==> #[trigger] roots[i].storage_root@ != #[trigger] roots[j].storage_root@,
    ensures
        forall|k: int|
            0 <= k < roots.len() && #[trigger] roots[k].storage_root@ == root ==> counters_of(roots, root, 0)
                == Some(roots[k].counters),
        (forall|k: int| 0 <= k < roots.len() ==> #[trigger] roots[k].storage_root@ != root) ==> counters_of(
            roots,
            root,
            0,
        ) is None,
{
    assert forall|k: int| 0 <= k < roots.len() && #[trigger] roots[k].storage_root@ == root implies counters_of(
        roots,
        root,
        0,
    ) == Some(roots[k].counters) by {
        assert forall|i: int| 0 <= i < k implies (#[trigger] roots[i]).storage_root@ != root by {
            assert(roots[i].storage_root@ != roots[k].storage_root@);
        }
        lemma_counters_at(roots, root, 0, k);
    }
    if forall|k: int| 0 <= k < roots.len() ==> #[trigger] roots[k].storage_root@ != root {
        lemma_counters_none(roots, root, 0);
    }
}

proof fn lemma_counters_some_index(roots: Seq<RootExecution>, root: Seq<char>, from: int)
    requires
        0 <= from,
        counters_of(roots, root, from) is Some,
    ensures
        exists|k: int| from <= k < roots.len() && #[trigger] roots[k].storage_root@ == root,
    decreases roots.len() - from,
{
    if from < roots.len() && roots[from].storage_root@ != root {
        lemma_counters_some_index(roots, root, from + 1);
    }
}

proof fn lemma_queued_push(waiters: Seq<ExecutionWaiter>, w: ExecutionWaiter, root: Seq<char>)
    ensures
        queued_on(waiters.push(w), root) == queued_on(waiters, root) + if w.storage_root@ == root {
            1nat
        } else {
            0nat
        },
{
    assert(waiters.push(w).drop_last() =~= waiters);
}

proof fn lemma_queued_remove(waiters: Seq<ExecutionWaiter>, i: int, root: Seq<char>)
    requires
        0 <= i < waiters.len(),
    ensures
        queued_on(waiters, root) == queued_on(waiters.remove(i), root) + if waiters[i].storage_root@ == root {
            1nat
        } else {
            0nat
        },
    decreases waiters.len(),
{
    if i == waiters.len() - 1 {
        assert(waiters.remove(i) =~= waiters.drop_last());
    } else {
        lemma_queued_remove(waiters.drop_last(), i, root);
        assert(waiters.remove(i).drop_last() =~= waiters.drop_last().remove(i));
        assert(waiters.remove(i).last() == waiters.last());
    }
}

proof fn lemma_queued_bound(waiters: Seq<ExecutionWaiter>, root: Seq<char>)
    ensures
        queued_on(waiters, root) <= waiters.len(),
    decreases waiters.len(),
{
    if waiters.len() > 0 {
        lemma_queued_bound(waiters.drop_last(), root);
    }
}

proof fn lemma_queued_none(waiters: Seq<ExecutionWaiter>, root: Seq<char>)
    requires
        forall|i: int| 0 <= i < waiters.len() ==> (#[trigger] waiters[i]).storage_root@ != root,
    ensures
        queued_on(waiters, root) == 0,
    decreases waiters.len(),
{
    if waiters.len() > 0 {
        lemma_queued_none(waiters.drop_last(), root);
    }
}

proof fn lemma_last_torrent_update(grants: Seq<RootGrant>, k: int, e: RootGrant, root: Seq<char>, from: int)
    requires
        0 <= k < grants.len(),
        0 <= from,
        e.storage_root@ == grants[k].storage_root@,
        root != e.storage_root@,
    ensures
        last_torrent_on(grants.update(k, e), root, from) == last_torrent_on(grants, root, from),
    decreases grants.len() - from,
{
    if from < grants.len() {
        lemma_last_torrent_update(grants, k, e, root, from + 1);
    }
}

proof fn lemma_last_torrent_push(grants: Seq<RootGrant>, e: RootGrant, root: Seq<char>, from: int)
    requires
        0 <= from,
        root == e.storage_root@ ==> forall|i: int| from <= i < grants.len() ==> (#[trigger] grants[i]).storage_root@ != root,
    ensures
        last_torrent_on(grants.push(e), root, from) == if root == e.storage_root@ && from <= grants.len() {
            Some(e.torrent_key@)
        } else {
            last_torrent_on(grants, root, from)
        },
    decreases grants.len() + 1 - from,
{
    let pushed = grants.push(e);
    if from < grants.len() {
        assert(pushed[from] == grants[from]);
        lemma_last_torrent_push(grants, e, root, from + 1);
        if grants[from].storage_root@ == root {
            assert(last_torrent_on(pushed, root, from) == Some(grants[from].torrent_key@));
        } else {
            assert(last_torrent_on(pushed, root, from) == last_torrent_on(pushed, root, from + 1));
            assert(last_torrent_on(grants, root, from) == last_torrent_on(grants, root, from + 1));
        }
    } else if from == grants.len() {
        assert(pushed[from] == e);
        assert(last_torrent_on(pushed, root, from + 1) is None);
        assert(last_torrent_on(grants, root, from) is None);
    }
}

/// The index of the entry kept for `root`.
fn find_root(roots: &Vec<RootExecution>, root: &String) -> (found: Option<usize>)
    ensures
        found matches Some(k) ==> k < roots@.len() && roots@[k as int].storage_root@ == root@,
        found is None ==> forall|k: int| 0 <= k < roots@.len() ==> #[trigger] roots@[k].storage_root@ != root@,
{
    let mut index: usize = 0;
    while index < roots.len()
        invariant
            index <= roots@.len(),
            forall|k: int| 0 <= k < index ==> #[trigger] roots@[k].storage_root@ != root@,
        decreases roots@.len() - index,
    {
        if roots[index].storage_root == *root {
            return Some(index);
        }
        index += 1;
    }
    None
}

/// Records `torrent` as the last one granted on `root`.
fn record_grant(grants: &mut Vec<RootGrant>, root: String, torrent: String)
    ensures
        forall|r: Seq<char>|
            #[trigger] last_torrent_on(final(grants)@, r, 0) == if r == root@ {
                Some(torrent@)
            } else {
                last_torrent_on(old(grants)@, r, 0)
            },
{
    let mut index: usize = 0;
    while index < grants.len()
        invariant
            index <= grants@.len(),
            grants@ == old(grants)@,
            forall|k: int| 0 <= k < index ==> #[trigger] grants@[k].storage_root@ != root@,
        decreases grants@.len() - index,
    {
        if grants[index].storage_root == root {
            let ghost before = grants@;
            let ghost entry = RootGrant { storage_root: root, torrent_key: torrent };
            proof {
                assert forall|r: Seq<char>| #[trigger] last_torrent_on(before.update(index as int, entry), r, 0)
                    == if r == root@ {
                    Some(torrent@)
                } else {
                    last_torrent_on(before, r, 0)
                } by {
                    if r == root@ {
                        lemma_last_torrent_at(before.update(index as int, entry), r, 0, index as int);
                    } else {
                        lemma_last_torrent_update(before, index as int, entry, r, 0);
                    }
                }
            }
            grants.set(index, RootGrant { storage_root: root, torrent_key: torrent });
            return;
        }
        index += 1;
    }
    let ghost before = grants@;
    let ghost entry = RootGrant { storage_root: root, torrent_key: torrent };
    proof {
        assert forall|r: Seq<char>| #[trigger] last_torrent_on(before.push(entry), r, 0) == if r == root@ {
            Some(torrent@)
        } else {
            last_torrent_on(before, r, 0)
        } by {
            lemma_last_torrent_push(before, entry, r, 0);
        }
    }
    grants.push(RootGrant { storage_root: root, torrent_key: torrent });
}

impl FairExecutionState {
    /// No waiter, no execution, no grant yet.
    pub fn new() -> (state: Self)
        ensures
            state.wf(),
            state.next_ticket == 0,
            state.active == 0,
            state.waiters@.len() == 0,
            state.roots@.len() == 0,
            state.last_granted_root is None,
            state.last_granted_torrent_by_root@.len() == 0,
    {
        FairExecutionState {
            next_ticket: 0,
            active: 0,
            waiters: Vec::new(),
            roots: Vec::new(),
            last_granted_root: None,
            last_granted_torrent_by_root: Vec::new(),
        }
    }

    /// Queues a storage execution for `torrent_key` on `storage_root` and
    /// returns its ticket, the next one in issue order.
    pub fn enqueue(&mut self, torrent_key: String, storage_root: String) -> (ticket: u64)
        requires
            old(self).wf(),
            old(self).next_ticket < u64::MAX,
        ensures
            final(self).wf(),
            ticket == old(self).next_ticket + 1,
            final(self).next_ticket == ticket,
            final(self).waiters@ == old(self).waiters@.push(
                ExecutionWaiter { ticket, torrent_key, storage_root },
            ),
            final(self).active == old(self).active,
            final(self).last_granted_root == old(self).last_granted_root,
            final(self).last_granted_torrent_by_root@ == old(self).last_granted_torrent_by_root@,
            forall|r: Seq<char>| #[trigger] final(self).root_counters(r) == if r == storage_root@ {
                Some(queued_one(
                    match old(self).root_counters(r) {
                        Some(c) => c,
                        None => fresh_counters(),
                    },
                ))
            } else {
                old(self).root_counters(r)
            },
    {
        let ghost start_roots = self.roots@;
        let ghost start_waiters = self.waiters@;
        let ticket = self.next_ticket + 1;
        self.next_ticket = ticket;
        let found = find_root(&self.roots, &storage_root);
        let ghost k: int;
        match found {
            Some(index) => {
                let c = self.roots[index].counters;
                let queued = c.queued.saturating_add(1);
                let updated = RootExecutionState {
                    queued,
                    queued_high_water: if c.queued_high_water < queued {
                        queued
                    } else {
                        c.queued_high_water
                    },
                    ..c
                };
                let name = self.roots[index].storage_root.clone();
                self.roots.set(index, RootExecution { storage_root: name, counters: updated });
                proof {
                    k = index as int;
                }
            },
            None => {
                let name = storage_root.clone();
                self.roots.push(
                    RootExecution {
                        storage_root: name,
                        counters: RootExecutionState {
                            active: 0,
                            active_high_water: 0,
                            queued: 1,
                            queued_high_water: 1,
                        },
                    },
                );
                proof {
                    k = start_roots.len() as int;
                    lemma_counters_exact(start_roots, storage_root@);
                    assert forall|i: int| 0 <= i < start_waiters.len() implies (
                    #[trigger] start_waiters[i]).storage_root@ != storage_root@ by {
                        if start_waiters[i].storage_root@ == storage_root@ {
                            let j = choose|j: int| 0 <= j < start_roots.len() && #[trigger] start_roots[j].storage_root@ == storage_root@;
                            lemma_counters_some_index(start_roots, storage_root@, 0);
                        }
                    }
                    lemma_queued_none(start_waiters, storage_root@);
                }
            },
        }
        let ghost waiter = ExecutionWaiter { ticket, torrent_key, storage_root };
        self.waiters.push(ExecutionWaiter { ticket, torrent_key, storage_root });
        proof {
            let roots = self.roots@;
            assert(roots[k].storage_root@ == waiter.storage_root@);
            assert forall|i: int, j: int| 0 <= i < j < roots.len() implies #[trigger] roots[i].storage_root@
                != #[trigger] roots[j].storage_root@ by {
                if j == k && k == start_roots.len() {
                    lemma_counters_exact(start_roots, waiter.storage_root@);
                }
                if i != k && j != k {
                    assert(roots[i] == start_roots[i] && roots[j] == start_roots[j]);
                }
            }
            lemma_counters_exact(roots, waiter.storage_root@);
            lemma_counters_exact(start_roots, waiter.storage_root@);
            assert forall|r: Seq<char>| #[trigger] counters_of(roots, r, 0) == if r == waiter.storage_root@ {
                Some(queued_one(
                    match counters_of(start_roots, r, 0) {
                        Some(c) => c,
                        None => fresh_counters(),
                    },
                ))
            } else {
                counters_of(start_roots, r, 0)
            } by {
                lemma_counters_exact(roots, r);
                lemma_counters_exact(start_roots, r);
                if r != waiter.storage_root@ {
                    if exists|m: int| 0 <= m < start_roots.len() && #[trigger] start_roots[m].storage_root@ == r {
                        let m = choose|m: int| 0 <= m < start_roots.len() && #[trigger] start_roots[m].storage_root@ == r;
                        assert(roots[m] == start_roots[m]);
                    } else {
                        assert forall|m: int| 0 <= m < roots.len() implies #[trigger] roots[m].storage_root@ != r by {
                            if m != k {
                                assert(roots[m] == start_roots[m]);
                            }
                        }
                    }
                }
            }
            assert forall|i: int| 0 <= i < self.waiters@.len() implies counters_of(
                roots,
                #[trigger] self.waiters@[i].storage_root@,
                0,
            ) is Some by {
                let r = self.waiters@[i].storage_root@;
                if i < start_waiters.len() {
                    assert(self.waiters@[i] == start_waiters[i]);
                    if r != waiter.storage_root@ {
                        assert(counters_of(roots, r, 0) == counters_of(start_roots, r, 0));
                    }
                }
            }
            assert(self.waiters@.len() == self.waiters.len());
            lemma_queued_bound(start_waiters, waiter.storage_root@);
            assert forall|i: int| 0 <= i < roots.len() implies (#[trigger] roots[i]).counters.queued == queued_on(
                self.waiters@,
                roots[i].storage_root@,
            ) by {
                lemma_queued_push(start_waiters, waiter, roots[i].storage_root@);
                if i != k {
                    assert(roots[i] == start_roots[i]);
                } else if k < start_roots.len() {
                    assert(start_roots[k].counters.queued == queued_on(start_waiters, waiter.storage_root@));
                }
            }
        }
        ticket
    }
}


/// Whether root names are kept once each.
pub open spec fn distinct_roots(roots: Seq<RootExecution>) -> bool {
    forall|i: int, j: int|
        0 <= i < j < roots.len() ==> #[trigger] roots[i].storage_root@ != #[trigger] roots[j].storage_root@
}

/// Replaces the counters of entry `k`.
fn set_counters(roots: &mut Vec<RootExecution>, k: usize, counters: RootExecutionState)
    requires
        k < old(roots)@.len(),
        distinct_roots(old(roots)@),
    ensures
        final(roots)@.len() == old(roots)@.len(),
        distinct_roots(final(roots)@),
        final(roots)@[k as int].counters == counters,
        forall|i: int| 0 <= i < final(roots)@.len() ==> #[trigger] final(roots)@[i].storage_root@ == old(roots)@[i].storage_root@,
        forall|i: int| 0 <= i < final(roots)@.len() && i != k ==> #[trigger] final(roots)@[i] == old(roots)@[i],
        forall|r: Seq<char>| #[trigger] counters_of(final(roots)@, r, 0) == if r == old(roots)@[k as int].storage_root@ {
            Some(counters)
        } else {
            counters_of(old(roots)@, r, 0)
        },
{
    let ghost start = roots@;
    let name = roots[k].storage_root.clone();
    roots.set(k, RootExecution { storage_root: name, counters });
    proof {
        let now = roots@;
        assert forall|i: int, j: int| 0 <= i < j < now.len() implies #[trigger] now[i].storage_root@
            != #[trigger] now[j].storage_root@ by {
            assert(now[i].storage_root@ == start[i].storage_root@);
            assert(now[j].storage_root@ == start[j].storage_root@);
        }
        assert forall|r: Seq<char>| #[trigger] counters_of(now, r, 0) == if r == start[k as int].storage_root@ {
            Some(counters)
        } else {
            counters_of(start, r, 0)
        } by {
            lemma_counters_exact(now, r);
            lemma_counters_exact(start, r);
            if r != start[k as int].storage_root@ {
                if exists|m: int| 0 <= m < start.len() && #[trigger] start[m].storage_root@ == r {
                    let m = choose|m: int| 0 <= m < start.len() && #[trigger] start[m].storage_root@ == r;
                    assert(now[m] == start[m]);
                } else {
                    assert forall|m: int| 0 <= m < now.len() implies #[trigger] now[m].storage_root@ != r by {
                        assert(now[m].storage_root@ == start[m].storage_root@);
                    }
                }
            } else {
                assert(now[k as int].storage_root@ == r);
            }
        }
    }
}

impl FairExecutionState {
    /// Grants an execution to the waiter holding `ticket` when fewer than
    /// `limit` run and it is the waiter fairness selects; nothing changes
    /// otherwise.
    pub fn try_grant(&mut self, ticket: u64, limit: usize) -> (granted: bool)
        requires
            old(self).wf(),
        ensures
            final(self).wf(),
            granted <==> old(self).active < limit && (old(self).selected_index() matches Some(i)
                && old(self).waiters@[i].ticket == ticket),
            !granted ==> *final(self) == *old(self),
            granted ==> ({
                let i = old(self).selected_index()->Some_0;
                let w = old(self).waiters@[i];
                &&& final(self).waiters@ == old(self).waiters@.remove(i)
                &&& final(self).active == bump(old(self).active)
                &&& final(self).next_ticket == old(self).next_ticket
                &&& final(self).last_root() == Some(w.storage_root@)
                &&& forall|r: Seq<char>| #[trigger] final(self).last_torrent(r) == if r == w.storage_root@ {
                    Some(w.torrent_key@)
                } else {
                    old(self).last_torrent(r)
                }
                &&& forall|r: Seq<char>| #[trigger] final(self).root_counters(r) == if r == w.storage_root@ {
                    Some(granted_one(old(self).root_counters(r)->Some_0))
                } else {
                    old(self).root_counters(r)
                }
            }),
    {
        if self.active >= limit {
            return false;
        }
        let position = match selected_position(self) {
            Some(p) => p,
            None => {
                return false;
            },
        };
        if self.waiters[position].ticket != ticket {
            return false;
        }
        let ghost start_waiters = self.waiters@;
        let ghost start_roots = self.roots@;
        let ghost w = start_waiters[position as int];
        proof {
            assert(counters_of(start_roots, start_waiters[position as int].storage_root@, 0) is Some);
            lemma_queued_remove(start_waiters, position as int, w.storage_root@);
            lemma_counters_exact(start_roots, w.storage_root@);
        }
        let k = match find_root(&self.roots, &self.waiters[position].storage_root) {
            Some(k) => k,
            None => {
                proof {
                    lemma_counters_none(start_roots, w.storage_root@, 0);
                }
                return false;
            },
        };
        let waiter = self.waiters.remove(position);
        let c = self.roots[k].counters;
        assert(c.queued == queued_on(start_waiters, w.storage_root@));
        let active = c.active.saturating_add(1);
        let updated = RootExecutionState {
            queued: c.queued - 1,
            active,
            active_high_water: if c.active_high_water < active {
                active
            } else {
                c.active_high_water
            },
            ..c
        };
        set_counters(&mut self.roots, k, updated);
        self.active = self.active.saturating_add(1);
        self.last_granted_root = Some(waiter.storage_root.clone());
        record_grant(&mut self.last_granted_torrent_by_root, waiter.storage_root, waiter.torrent_key);
        proof {
            let waiters = self.waiters@;
            let roots = self.roots@;
            assert forall|i: int, j: int| 0 <= i < j < waiters.len() implies #[trigger] waiters[i].ticket
                < #[trigger] waiters[j].ticket by {
                let a = if i < position { i } else { i + 1 };
                let b = if j < position { j } else { j + 1 };
                assert(waiters[i] == start_waiters[a] && waiters[j] == start_waiters[b]);
            }
            assert forall|i: int| 0 <= i < waiters.len() implies #[trigger] waiters[i].ticket <= self.next_ticket by {
                let a = if i < position { i } else { i + 1 };
                assert(waiters[i] == start_waiters[a]);
            }
            assert forall|i: int| 0 <= i < waiters.len() implies counters_of(
                roots,
                #[trigger] waiters[i].storage_root@,
                0,
            ) is Some by {
                let a = if i < position { i } else { i + 1 };
                assert(waiters[i] == start_waiters[a]);
                assert(counters_of(start_roots, start_waiters[a].storage_root@, 0) is Some);
            }
            assert forall|i: int| 0 <= i < roots.len() implies (#[trigger] roots[i]).counters.queued == queued_on(
                waiters,
                roots[i].storage_root@,
            ) by {
                lemma_queued_remove(start_waiters, position as int, roots[i].storage_root@);
                assert(start_roots[i].counters.queued == queued_on(start_waiters, start_roots[i].storage_root@));
            }
        }
        true
    }

    /// Drops the waiter holding `ticket`, if one is queued.
    pub fn cancel_waiter(&mut self, ticket: u64)
        requires
            old(self).wf(),
        ensures
            final(self).wf(),
            (forall|i: int| 0 <= i < old(self).waiters@.len() ==> #[trigger] old(self).waiters@[i].ticket != ticket)
                ==> *final(self) == *old(self),
            forall|i: int| 0 <= i < old(self).waiters@.len() && #[trigger] old(self).waiters@[i].ticket == ticket ==> {
                let w = old(self).waiters@[i];
                &&& final(self).waiters@ == old(self).waiters@.remove(i)
                &&& final(self).active == old(self).active
                &&& final(self).next_ticket == old(self).next_ticket
                &&& final(self).last_granted_root == old(self).last_granted_root
                &&& final(self).last_granted_torrent_by_root@ == old(self).last_granted_torrent_by_root@
                &&& forall|r: Seq<char>| #[trigger] final(self).root_counters(r) == if r == w.storage_root@ {
                    Some(
                        RootExecutionState {
                            queued: (old(self).root_counters(r)->Some_0.queued - 1) as usize,
                            ..old(self).root_counters(r)->Some_0
                        },
                    )
                } else {
                    old(self).root_counters(r)
                }
            },
    {
        let mut position: usize = 0;
        while position < self.waiters.len() && self.waiters[position].ticket != ticket
            invariant
                *self == *old(self),
                position <= self.waiters@.len(),
                forall|i: int| 0 <= i < position ==> #[trigger] self.waiters@[i].ticket != ticket,
            decreases self.waiters@.len() - position,
        {
            position += 1;
        }
        if position == self.waiters.len() {
            return;
        }
        let ghost start_waiters = self.waiters@;
        let ghost start_roots = self.roots@;
        let ghost w = start_waiters[position as int];
        proof {
            assert(counters_of(start_roots, w.storage_root@, 0) is Some);
            lemma_queued_remove(start_waiters, position as int, w.storage_root@);
            lemma_counters_exact(start_roots, w.storage_root@);
        }
        let k = match find_root(&self.roots, &self.waiters[position].storage_root) {
            Some(k) => k,
            None => {
                proof {
                    lemma_counters_none(start_roots, w.storage_root@, 0);
                }
                return;
            },
        };
        let _waiter = self.waiters.remove(position);
        let c = self.roots[k].counters;
        assert(c.queued == queued_on(start_waiters, w.storage_root@));
        set_counters(&mut self.roots, k, RootExecutionState { queued: c.queued - 1, ..c });
        proof {
            let waiters = self.waiters@;
            let roots = self.roots@;
            assert forall|i: int| 0 <= i < start_waiters.len() && #[trigger] start_waiters[i].ticket == ticket implies i
                == position by {
                if i < position {
                } else if i > position {
                    assert(start_waiters[position as int].ticket < start_waiters[i].ticket);
                }
            }
            assert forall|i: int, j: int| 0 <= i < j < waiters.len() implies #[trigger] waiters[i].ticket
                < #[trigger] waiters[j].ticket by {
                let a = if i < position { i } else { i + 1 };
                let b = if j < position { j } else { j + 1 };
                assert(waiters[i] == start_waiters[a] && waiters[j] == start_waiters[b]);
            }
            assert forall|i: int| 0 <= i < waiters.len() implies #[trigger] waiters[i].ticket <= self.next_ticket by {
                let a = if i < position { i } else { i + 1 };
                assert(waiters[i] == start_waiters[a]);
            }
            assert forall|i: int| 0 <= i < waiters.len() implies counters_of(
                roots,
                #[trigger] waiters[i].storage_root@,
                0,
            ) is Some by {
                let a = if i < position { i } else { i + 1 };
                assert(waiters[i] == start_waiters[a]);
                assert(counters_of(start_roots, start_waiters[a].storage_root@, 0) is Some);
            }
            assert forall|i: int| 0 <= i < roots.len() implies (#[trigger] roots[i]).counters.queued == queued_on(
                waiters,
                roots[i].storage_root@,
            ) by {
                lemma_queued_remove(start_waiters, position as int, roots[i].storage_root@);
                assert(start_roots[i].counters.queued == queued_on(start_waiters, start_roots[i].storage_root@));
            }
        }
    }

    /// Ends one running execution on `storage_root`.
    pub fn release(&mut self, storage_root: &String)
        requires
            old(self).wf(),
            old(self).active > 0,
            old(self).root_counters(storage_root@) matches Some(c) && c.active > 0,
        ensures
            final(self).wf(),
            final(self).active == old(self).active - 1,
            final(self).waiters@ == old(self).waiters@,
            final(self).next_ticket == old(self).next_ticket,
            final(self).last_granted_root == old(self).last_granted_root,
            final(self).last_granted_torrent_by_root@ == old(self).last_granted_torrent_by_root@,
            forall|r: Seq<char>| #[trigger] final(self).root_counters(r) == if r == storage_root@ {
                Some(
                    RootExecutionState {
                        active: (old(self).root_counters(r)->Some_0.active - 1) as usize,
                        ..old(self).root_counters(r)->Some_0
                    },
                )
            } else {
                old(self).root_counters(r)
            },
    {
        let ghost start_roots = self.roots@;
        proof {
            lemma_counters_exact(start_roots, storage_root@);
        }
        let k = match find_root(&self.roots, storage_root) {
            Some(k) => k,
            None => {
                proof {
                    lemma_counters_none(start_roots, storage_root@, 0);
                }
                return;
            },
        };
        self.active = self.active - 1;
        let c = self.roots[k].counters;
        set_counters(&mut self.roots, k, RootExecutionState { active: c.active - 1, ..c });
        proof {
            let roots = self.roots@;
            assert forall|i: int| 0 <= i < self.waiters@.len() implies counters_of(
                roots,
                #[trigger] self.waiters@[i].storage_root@,
                0,
            ) is Some by {
                assert(counters_of(start_roots, self.waiters@[i].storage_root@, 0) is Some);
            }
            assert forall|i: int| 0 <= i < roots.len() implies (#[trigger] roots[i]).counters.queued == queued_on(
                self.waiters@,
                roots[i].storage_root@,
            ) by {
                assert(start_roots[i].counters.queued == queued_on(self.waiters@, start_roots[i].storage_root@));
            }
        }
    }
}


proof fn lemma_first_other_root_found(waiters: Seq<ExecutionWaiter>, last: Option<Seq<char>>, from: int)
    requires
        0 <= from,
    ensures
        first_other_root(waiters, last, from) matches Some(i) ==> from <= i < waiters.len() && last != Some(
            waiters[i].storage_root@,
        ),
        (exists|j: int| from <= j < waiters.len() && last != Some(#[trigger] waiters[j].storage_root@))
            ==> first_other_root(waiters, last, from) is Some,
    decreases waiters.len() - from,
{
    if from < waiters.len() {
        lemma_first_other_root_found(waiters, last, from + 1);
        if exists|j: int| from <= j < waiters.len() && last != Some(#[trigger] waiters[j].storage_root@) {
            let j = choose|j: int| from <= j < waiters.len() && last != Some(#[trigger] waiters[j].storage_root@);
            if j > from && last == Some(waiters[from].storage_root@) {
                assert(from + 1 <= j < waiters.len() && last != Some(waiters[j].storage_root@));
            }
        }
    }
}

proof fn lemma_first_on_root_found(
    waiters: Seq<ExecutionWaiter>,
    root: Seq<char>,
    avoid: Option<Seq<char>>,
    from: int,
)
    requires
        0 <= from,
    ensures
        first_on_root(waiters, root, avoid, from) matches Some(i) ==> from <= i < waiters.len()
            && waiters[i].storage_root@ == root && avoid != Some(waiters[i].torrent_key@),
    decreases waiters.len() - from,
{
    if from < waiters.len() {
        lemma_first_on_root_found(waiters, root, avoid, from + 1);
    }
}

/// Grants are work-conserving and fair: whenever someone waits, a waiter
/// is selected; it is on another storage root than the one last granted
/// whenever such a waiter exists; and among the waiters on its root it
/// belongs to another torrent than the one last granted there whenever
/// such a waiter exists.
pub proof fn lemma_fair_selection(state: &FairExecutionState)
    ensures
        state.waiters@.len() > 0 ==> state.selected_index() is Some,
        state.selected_index() matches Some(i) ==> {
            let w = state.waiters@[i];
            &&& 0 <= i < state.waiters@.len()
            &&& (exists|j: int|
                0 <= j < state.waiters@.len() && state.last_root() != Some(
                    #[trigger] state.waiters@[j].storage_root@,
                )) ==> state.last_root() != Some(w.storage_root@)
            &&& (exists|j: int|
                0 <= j < state.waiters@.len() && #[trigger] state.waiters@[j].storage_root@ == w.storage_root@
                    && state.last_torrent(w.storage_root@) != Some(state.waiters@[j].torrent_key@))
                ==> state.last_torrent(w.storage_root@) != Some(w.torrent_key@)
        },
{
    let waiters = state.waiters@;
    if waiters.len() > 0 {
        let last = state.last_root();
        lemma_first_other_root_found(waiters, last, 0);
        let root_index = match first_other_root(waiters, last, 0) {
            Some(k) => k,
            None => 0,
        };
        let root = state.selected_root();
        assert(waiters[root_index].storage_root@ == root);
        let avoid = last_torrent_on(state.last_granted_torrent_by_root@, root, 0);
        lemma_first_on_root_found(waiters, root, avoid, 0);
        lemma_first_on_root_found(waiters, root, None, 0);
        lemma_first_on_root_some(waiters, root, None, 0, root_index);
        if exists|j: int| 0 <= j < waiters.len() && #[trigger] waiters[j].storage_root@ == root && avoid != Some(
            waiters[j].torrent_key@,
        ) {
            let j = choose|j: int| 0 <= j < waiters.len() && #[trigger] waiters[j].storage_root@ == root
                && avoid != Some(waiters[j].torrent_key@);
            lemma_first_on_root_some(waiters, root, avoid, 0, j);
        }
    }
}


/// Execution counters of one storage root, for writes and for hashes.
#[derive(Clone, Debug, Default, PartialEq, Eq)]
pub struct SessionStorageRootResourceSnapshot {
    pub root_id: String,
    pub active_writes: usize,
    pub active_writes_high_water: usize,
    pub queued_writes: usize,
    pub queued_writes_high_water: usize,
    pub active_hashes: usize,
    pub active_hashes_high_water: usize,
    pub queued_hashes: usize,
    pub queued_hashes_high_water: usize,
}

/// The session's resource counters and high-water marks, with the storage
/// roots in the order of their names.
#[derive(Clone, Debug, Default, PartialEq, Eq)]
pub struct SessionDownloadResourceSnapshot {
    pub outstanding_request_bytes: usize,
    pub outstanding_request_high_water: usize,
    pub buffered_payload_bytes: usize,
    pub buffered_payload_high_water: usize,
    pub active_piece_bytes: usize,
    pub active_piece_bytes_high_water: usize,
    pub active_pieces: usize,
    pub active_pieces_high_water: usize,
    pub active_storage_writes: usize,
    pub active_storage_writes_high_water: usize,
    pub active_storage_hashes: usize,
    pub active_storage_hashes_high_water: usize,
    pub active_tracker_operations: usize,
    pub active_tracker_operations_high_water: usize,
    pub registered_generations: usize,
    pub outbound_turns_granted: usize,
    pub storage_roots: Vec<SessionStorageRootResourceSnapshot>,
}

/// Byte-wise lexicographic order, as strings compare.
pub open spec fn bytes_le(a: Seq<u8>, b: Seq<u8>) -> bool
    decreases a.len(),
{
    if a.len() == 0 {
        true
    } else if b.len() == 0 {
        false
    } else if a[0] < b[0] {
        true
    } else if a[0] > b[0] {
        false
    } else {
        bytes_le(a.drop_first(), b.drop_first())
    }
}

/// The bytes a root name is ordered by.
pub open spec fn name_bytes(name: String) -> Seq<u8> {
    encode_utf8(name@)
}

proof fn lemma_bytes_le_total(a: Seq<u8>, b: Seq<u8>)
    ensures
        bytes_le(a, b) || bytes_le(b, a),
    decreases a.len(),
{
    if a.len() > 0 && b.len() > 0 && a[0] == b[0] {
        lemma_bytes_le_total(a.drop_first(), b.drop_first());
    }
}

proof fn lemma_bytes_le_trans(a: Seq<u8>, b: Seq<u8>, c: Seq<u8>)
    requires
        bytes_le(a, b),
        bytes_le(b, c),
    ensures
        bytes_le(a, c),
    decreases a.len(),
{
    if a.len() > 0 && b.len() > 0 && c.len() > 0 && a[0] == b[0] && b[0] == c[0] {
        lemma_bytes_le_trans(a.drop_first(), b.drop_first(), c.drop_first());
    }
}

/// Whether `a` orders no later than `b`.
fn text_le(a: &String, b: &String) -> (le: bool)
    ensures
        le == bytes_le(name_bytes(*a), name_bytes(*b)),
{
    let x = a.as_str().as_bytes();
    let y = b.as_str().as_bytes();
    let mut i: usize = 0;
    assert(x@.skip(0) =~= x@ && y@.skip(0) =~= y@);
    while i < x.len() && i < y.len() && x[i] == y[i]
        invariant
            i <= x@.len(),
            i <= y@.len(),
            bytes_le(x@, y@) == bytes_le(x@.skip(i as int), y@.skip(i as int)),
        decreases x@.len() - i,
    {
        assert(x@.skip(i as int).drop_first() =~= x@.skip(i + 1));
        assert(y@.skip(i as int).drop_first() =~= y@.skip(i + 1));
        i += 1;
    }
    if i == x.len() {
        true
    } else if i == y.len() {
        false
    } else {
        x[i] < y[i]
    }
}

/// Root snapshots in name order, each name once.
pub open spec fn roots_ordered(roots: Seq<SessionStorageRootResourceSnapshot>) -> bool {
    forall|i: int, j: int|
        0 <= i < j < roots.len() ==> bytes_le(name_bytes(#[trigger] roots[i].root_id), name_bytes(
            #[trigger] roots[j].root_id,
        )) && roots[i].root_id@ != roots[j].root_id@
}

/// Whether some snapshot is for `root`.
pub open spec fn lists_root(roots: Seq<SessionStorageRootResourceSnapshot>, root: Seq<char>) -> bool {
    exists|i: int| 0 <= i < roots.len() && #[trigger] roots[i].root_id@ == root
}

/// Whether the snapshot carries these write and hash counters, zero where
/// the root has none.
pub open spec fn reports_counters(
    e: SessionStorageRootResourceSnapshot,
    writes: Option<RootExecutionState>,
    hashes: Option<RootExecutionState>,
) -> bool {
    let w = match writes {
        Some(c) => c,
        None => fresh_counters(),
    };
    let h = match hashes {
        Some(c) => c,
        None => fresh_counters(),
    };
    &&& e.active_writes == w.active
    &&& e.active_writes_high_water == w.active_high_water
    &&& e.queued_writes == w.queued
    &&& e.queued_writes_high_water == w.queued_high_water
    &&& e.active_hashes == h.active
    &&& e.active_hashes_high_water == h.active_high_water
    &&& e.queued_hashes == h.queued
    &&& e.queued_hashes_high_water == h.queued_high_water
}

/// Inserts a snapshot for a root not listed yet at its place in name order;
/// returns where.
fn insert_ordered(roots: &mut Vec<SessionStorageRootResourceSnapshot>, entry: SessionStorageRootResourceSnapshot) -> (at: usize)
    requires
        roots_ordered(old(roots)@),
        !lists_root(old(roots)@, entry.root_id@),
    ensures
        at <= old(roots)@.len(),
        final(roots)@ == old(roots)@.insert(at as int, entry),
        roots_ordered(final(roots)@),
{
    let ghost start = roots@;
    let mut at: usize = 0;
    while at < roots.len() && text_le(&roots[at].root_id, &entry.root_id)
        invariant
            roots@ == start,
            at <= start.len(),
            forall|i: int| 0 <= i < at ==> bytes_le(name_bytes(#[trigger] start[i].root_id), name_bytes(entry.root_id)),
        decreases start.len() - at,
    {
        at += 1;
    }
    let ghost key = name_bytes(entry.root_id);
    roots.insert(at, entry);
    proof {
        let now = roots@;
        if at < start.len() {
            lemma_bytes_le_total(name_bytes(start[at as int].root_id), key);
        }
        assert forall|i: int, j: int| 0 <= i < j < now.len() implies bytes_le(
            name_bytes(#[trigger] now[i].root_id),
            name_bytes(#[trigger] now[j].root_id),
        ) && now[i].root_id@ != now[j].root_id@ by {
            if j < at {
                assert(now[i] == start[i] && now[j] == start[j]);
            } else if j == at {
                assert(now[i] == start[i]);
                assert(start[i].root_id@ != entry.root_id@);
            } else if i < at {
                assert(now[i] == start[i] && now[j] == start[j - 1]);
            } else if i == at {
                assert(now[j] == start[j - 1]);
                assert(start[j - 1].root_id@ != entry.root_id@);
                if j - 1 > at {
                    lemma_bytes_le_trans(key, name_bytes(start[at as int].root_id), name_bytes(start[j - 1].root_id));
                }
            } else {
                assert(now[i] == start[i - 1] && now[j] == start[j - 1]);
            }
        }
    }
    at
}

proof fn lemma_counters_take(roots: Seq<RootExecution>, k: int, root: Seq<char>)
    requires
        0 <= k < roots.len(),
        distinct_roots(roots),
    ensures
        distinct_roots(roots.take(k + 1)),
        counters_of(roots.take(k + 1), root, 0) == if root == roots[k].storage_root@ {
            Some(roots[k].counters)
        } else {
            counters_of(roots.take(k), root, 0)
        },
{
    let before = roots.take(k);
    let after = roots.take(k + 1);
    assert(distinct_roots(after));
    assert(distinct_roots(before));
    lemma_counters_exact(after, root);
    lemma_counters_exact(before, root);
    if root == roots[k].storage_root@ {
        assert(after[k] == roots[k]);
    } else if exists|m: int| 0 <= m < before.len() && #[trigger] before[m].storage_root@ == root {
        let m = choose|m: int| 0 <= m < before.len() && #[trigger] before[m].storage_root@ == root;
        assert(after[m] == before[m]);
    } else {
        assert forall|m: int| 0 <= m < after.len() implies #[trigger] after[m].storage_root@ != root by {
            if m < k {
                assert(after[m] == before[m]);
            }
        }
    }
}

/// The position of the snapshot for `root`.
fn find_snapshot(roots: &Vec<SessionStorageRootResourceSnapshot>, root: &String) -> (found: Option<usize>)
    ensures
        found matches Some(p) ==> p < roots@.len() && roots@[p as int].root_id@ == root@,
        found is None ==> !lists_root(roots@, root@),
{
    let mut p: usize = 0;
    while p < roots.len()
        invariant
            p <= roots@.len(),
            forall|i: int| 0 <= i < p ==> (#[trigger] roots@[i]).root_id@ != root@,
        decreases roots@.len() - p,
    {
        if roots[p].root_id == *root {
            return Some(p);
        }
        p += 1;
    }
    None
}

/// The execution counters of every storage root known to the write or the
/// hash authority, one snapshot per root, in name order.
pub fn storage_root_snapshots(writes: &FairExecutionState, hashes: &FairExecutionState) -> (roots: Vec<
    SessionStorageRootResourceSnapshot,
>)
    requires
        writes.wf(),
        hashes.wf(),
    ensures
        roots_ordered(roots@),
        forall|r: Seq<char>|
            #[trigger] lists_root(roots@, r) <==> writes.root_counters(r) is Some || hashes.root_counters(r) is Some,
        forall|i: int|
            0 <= i < roots@.len() ==> reports_counters(
                #[trigger] roots@[i],
                writes.root_counters(roots@[i].root_id@),
                hashes.root_counters(roots@[i].root_id@),
            ),
{
    let mut roots: Vec<SessionStorageRootResourceSnapshot> = Vec::new();
    let ghost w = writes.roots@;
    let ghost h = hashes.roots@;
    let mut k: usize = 0;
    assert(w.take(0) =~= Seq::<RootExecution>::empty());
    while k < writes.roots.len()
        invariant
            w == writes.roots@,
            distinct_roots(w),
            k <= w.len(),
            roots_ordered(roots@),
            forall|r: Seq<char>| #[trigger] lists_root(roots@, r) <==> counters_of(w.take(k as int), r, 0) is Some,
            forall|i: int|
                0 <= i < roots@.len() ==> reports_counters(
                    #[trigger] roots@[i],
                    counters_of(w.take(k as int), roots@[i].root_id@, 0),
                    None,
                ),
        decreases w.len() - k,
    {
        let entry = &writes.roots[k];
        let c = entry.counters;
        let snapshot = SessionStorageRootResourceSnapshot {
            root_id: entry.storage_root.clone(),
            active_writes: c.active,
            active_writes_high_water: c.active_high_water,
            queued_writes: c.queued,
            queued_writes_high_water: c.queued_high_water,
            active_hashes: 0,
            active_hashes_high_water: 0,
            queued_hashes: 0,
            queued_hashes_high_water: 0,
        };
        let ghost before = roots@;
        proof {
            lemma_counters_exact(w.take(k as int), entry.storage_root@);
            assert forall|m: int| 0 <= m < w.take(k as int).len() implies #[trigger] w.take(k as int)[m].storage_root@
                != entry.storage_root@ by {
                assert(w[m].storage_root@ != w[k as int].storage_root@);
            }
            if lists_root(before, entry.storage_root@) {
                let i = choose|i: int| 0 <= i < before.len() && #[trigger] before[i].root_id@ == entry.storage_root@;
                assert(lists_root(before, before[i].root_id@));
            }
        }
        let at = insert_ordered(&mut roots, snapshot);
        proof {
            let now = roots@;
            assert forall|r: Seq<char>| #[trigger] lists_root(now, r) <==> counters_of(w.take(k + 1), r, 0) is Some by {
                lemma_counters_take(w, k as int, r);
                if lists_root(now, r) {
                    let i = choose|i: int| 0 <= i < now.len() && #[trigger] now[i].root_id@ == r;
                    if i < at {
                        assert(now[i] == before[i]);
                        assert(lists_root(before, r));
                    } else if i > at {
                        assert(now[i] == before[i - 1]);
                        assert(lists_root(before, r));
                    }
                }
                if counters_of(w.take(k + 1), r, 0) is Some {
                    if r == entry.storage_root@ {
                        assert(now[at as int].root_id@ == r);
                    } else {
                        assert(lists_root(before, r));
                        let i = choose|i: int| 0 <= i < before.len() && #[trigger] before[i].root_id@ == r;
                        if i < at {
                            assert(now[i] == before[i]);
                        } else {
                            assert(now[i + 1] == before[i]);
                        }
                    }
                }
            }
            assert forall|i: int| 0 <= i < now.len() implies reports_counters(
                #[trigger] now[i],
                counters_of(w.take(k + 1), now[i].root_id@, 0),
                None,
            ) by {
                lemma_counters_take(w, k as int, now[i].root_id@);
                if i < at {
                    assert(now[i] == before[i]);
                    assert(lists_root(before, before[i].root_id@));
                } else if i > at {
                    assert(now[i] == before[i - 1]);
                    assert(lists_root(before, before[i - 1].root_id@));
                }
            }
        }
        k += 1;
    }
    proof {
        assert(w.take(k as int) =~= w);
    }
    let mut k: usize = 0;
    assert(h.take(0) =~= Seq::<RootExecution>::empty());
    while k < hashes.roots.len()
        invariant
            w == writes.roots@,
            h == hashes.roots@,
            distinct_roots(h),
            k <= h.len(),
            roots_ordered(roots@),
            forall|r: Seq<char>|
                #[trigger] lists_root(roots@, r) <==> counters_of(w, r, 0) is Some || counters_of(
                    h.take(k as int),
                    r,
                    0,
                ) is Some,
            forall|i: int|
                0 <= i < roots@.len() ==> reports_counters(
                    #[trigger] roots@[i],
                    counters_of(w, roots@[i].root_id@, 0),
                    counters_of(h.take(k as int), roots@[i].root_id@, 0),
                ),
        decreases h.len() - k,
    {
        let entry = &hashes.roots[k];
        let c = entry.counters;
        let ghost before = roots@;
        proof {
            lemma_counters_exact(h.take(k as int), entry.storage_root@);
            assert forall|m: int| 0 <= m < h.take(k as int).len() implies #[trigger] h.take(k as int)[m].storage_root@
                != entry.storage_root@ by {
                assert(h[m].storage_root@ != h[k as int].storage_root@);
            }
        }
        match find_snapshot(&roots, &entry.storage_root) {
            Some(p) => {
                let old_entry = &roots[p];
                let updated = SessionStorageRootResourceSnapshot {
                    root_id: old_entry.root_id.clone(),
                    active_writes: old_entry.active_writes,
                    active_writes_high_water: old_entry.active_writes_high_water,
                    queued_writes: old_entry.queued_writes,
                    queued_writes_high_water: old_entry.queued_writes_high_water,
                    active_hashes: c.active,
                    active_hashes_high_water: c.active_high_water,
                    queued_hashes: c.queued,
                    queued_hashes_high_water: c.queued_high_water,
                };
                roots.set(p, updated);
                proof {
                    let now = roots@;
                    assert forall|i: int, j: int| 0 <= i < j < now.len() implies bytes_le(
                        name_bytes(#[trigger] now[i].root_id),
                        name_bytes(#[trigger] now[j].root_id),
                    ) && now[i].root_id@ != now[j].root_id@ by {
                        assert(now[i].root_id == before[i].root_id && now[j].root_id == before[j].root_id);
                    }
                    assert forall|r: Seq<char>| #[trigger] lists_root(now, r) <==> counters_of(w, r, 0) is Some
                        || counters_of(h.take(k + 1), r, 0) is Some by {
                        lemma_counters_take(h, k as int, r);
                        if lists_root(now, r) {
                            let i = choose|i: int| 0 <= i < now.len() && #[trigger] now[i].root_id@ == r;
                            assert(before[i].root_id@ == r);
                            assert(lists_root(before, r));
                        }
                        if lists_root(before, r) {
                            let i = choose|i: int| 0 <= i < before.len() && #[trigger] before[i].root_id@ == r;
                            assert(now[i].root_id@ == r);
                        }
                        if r == entry.storage_root@ {
                            assert(now[p as int].root_id@ == r);
                        }
                    }
                    assert forall|i: int| 0 <= i < now.len() implies reports_counters(
                        #[trigger] now[i],
                        counters_of(w, now[i].root_id@, 0),
                        counters_of(h.take(k + 1), now[i].root_id@, 0),
                    ) by {
                        lemma_counters_take(h, k as int, now[i].root_id@);
                        assert(reports_counters(
                            before[i],
                            counters_of(w, before[i].root_id@, 0),
                            counters_of(h.take(k as int), before[i].root_id@, 0),
                        ));
                        if i != p {
                            assert(now[i] == before[i]);
                            assert(before[i].root_id@ != before[p as int].root_id@);
                        }
                    }
                }
            },
            None => {
                let snapshot = SessionStorageRootResourceSnapshot {
                    root_id: entry.storage_root.clone(),
                    active_writes: 0,
                    active_writes_high_water: 0,
                    queued_writes: 0,
                    queued_writes_high_water: 0,
                    active_hashes: c.active,
                    active_hashes_high_water: c.active_high_water,
                    queued_hashes: c.queued,
                    queued_hashes_high_water: c.queued_high_water,
                };
                let at = insert_ordered(&mut roots, snapshot);
                proof {
                    let now = roots@;
                    assert(counters_of(w, entry.storage_root@, 0) is None);
                    assert forall|r: Seq<char>| #[trigger] lists_root(now, r) <==> counters_of(w, r, 0) is Some
                        || counters_of(h.take(k + 1), r, 0) is Some by {
                        lemma_counters_take(h, k as int, r);
                        if lists_root(now, r) {
                            let i = choose|i: int| 0 <= i < now.len() && #[trigger] now[i].root_id@ == r;
                            if i < at {
                                assert(now[i] == before[i]);
                                assert(lists_root(before, r));
                            } else if i > at {
                                assert(now[i] == before[i - 1]);
                                assert(lists_root(before, r));
                            }
                        }
                        if r == entry.storage_root@ {
                            assert(now[at as int].root_id@ == r);
                        } else if lists_root(before, r) {
                            let i = choose|i: int| 0 <= i < before.len() && #[trigger] before[i].root_id@ == r;
                            if i < at {
                                assert(now[i] == before[i]);
                            } else {
                                assert(now[i + 1] == before[i]);
                            }
                        }
                    }
                    assert forall|i: int| 0 <= i < now.len() implies reports_counters(
                        #[trigger] now[i],
                        counters_of(w, now[i].root_id@, 0),
                        counters_of(h.take(k + 1), now[i].root_id@, 0),
                    ) by {
                        lemma_counters_take(h, k as int, now[i].root_id@);
                        if i < at {
                            assert(now[i] == before[i]);
                            assert(lists_root(before, before[i].root_id@));
                        } else if i > at {
                            assert(now[i] == before[i - 1]);
                            assert(lists_root(before, before[i - 1].root_id@));
                        }
                    }
                }
            },
        }
        k += 1;
    }
    proof {
        assert(h.take(k as int) =~= h);
    }
    roots
}

} // verus!

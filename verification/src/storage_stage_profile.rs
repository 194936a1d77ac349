//! Chunk orders and payloads for the storage stage profile.
//!
//! The permuted write order sends chunk `s` to `(s * m + count / 3) % count`
//! for a multiplier `m` coprime with `count`, so every chunk is written
//! exactly once.
use vstd::prelude::*;
use vstd::set_lib::{set_int_range, lemma_int_range, lemma_len_subset, lemma_subset_equality};
use vstd::arithmetic::div_mod::{
    lemma_fundamental_div_mod,
    lemma_mod_multiples_basic,
    lemma_small_mod,
    lemma_sub_mod_noop,
};

verus! {

/// The order in which the profile writes a file's chunks.
#[derive(Clone, Copy, Debug, PartialEq, Eq, Structural)]
pub enum WriteOrder {
    Sequential,
    Permuted,
}

impl WriteOrder {
    /// The order's name on the command line and in reports.
    pub fn as_str(self) -> (name: &'static str)
        ensures
            self == WriteOrder::Sequential ==> name@ == "sequential"@,
            self == WriteOrder::Permuted ==> name@ == "permuted"@,
    {
        match self {
            WriteOrder::Sequential => "sequential",
            WriteOrder::Permuted => "permuted",
        }
    }
}

/// The profile's payload byte at `offset`.
pub open spec fn payload_byte(offset: usize) -> u8 {
    (offset.wrapping_mul(73) ^ (offset >> 3usize) ^ (offset.wrapping_mul(offset) >> 11usize)
        ^ 0xa5usize) as u8
}

/// `length` bytes of deterministic, non-repeating-looking payload.
pub fn deterministic_payload(length: usize) -> (payload: Vec<u8>)
    ensures
        payload@.len() == length,
        forall|offset: int| 0 <= offset < length ==> #[trigger] payload@[offset] == payload_byte(
            offset as usize,
        ),
{
    let mut payload: Vec<u8> = Vec::new();
    let mut offset: usize = 0;
    while offset < length
        invariant
            offset <= length,
            payload@.len() == offset,
            forall|o: int| 0 <= o < offset ==> #[trigger] payload@[o] == payload_byte(o as usize),
        decreases length - offset,
    {
        let byte = (offset.wrapping_mul(73) ^ (offset >> 3usize) ^ (offset.wrapping_mul(offset)
            >> 11usize) ^ 0xa5usize) as u8;
        payload.push(byte);
        offset += 1;
    }
    payload
}

/// Whole copies of `chunk` laid end to end until at least `piece_size`
/// bytes are there.
pub fn repeated_piece(chunk: &[u8], piece_size: usize) -> (piece: Vec<u8>)
    requires
        piece_size > 0 ==> chunk@.len() > 0,
        piece_size + chunk@.len() <= usize::MAX,
    ensures
        chunk@.len() > 0 ==> piece@.len() % chunk@.len() == 0,
        piece_size <= piece@.len(),
        piece_size == 0 ==> piece@.len() == 0,
        piece_size > 0 ==> piece@.len() < piece_size + chunk@.len(),
        forall|i: int| 0 <= i < piece@.len() ==> #[trigger] piece@[i] == chunk@[i % (chunk@.len() as int)],
{
    let mut piece: Vec<u8> = Vec::new();
    let ghost width: int = chunk@.len() as int;
    let ghost mut copies: int = 0;
    while piece.len() < piece_size
        invariant
            width == chunk@.len(),
            piece_size > 0 ==> width > 0,
            piece_size + width <= usize::MAX,
            copies >= 0,
            piece@.len() == copies * width,
            piece_size > 0 ==> piece@.len() < piece_size + width,
            piece_size == 0 ==> piece@.len() == 0,
            forall|i: int| 0 <= i < piece@.len() ==> #[trigger] piece@[i] == chunk@[i % width],
        decreases piece_size + width - piece@.len(),
    {
        let mut index: usize = 0;
        let ghost start: int = piece@.len() as int;
        while index < chunk.len()
            invariant
                width == chunk@.len(),
                width > 0,
                start == copies * width,
                start < piece_size,
                piece_size + width <= usize::MAX,
                index <= width,
                piece@.len() == start + index,
                forall|i: int| 0 <= i < piece@.len() ==> #[trigger] piece@[i] == chunk@[i % width],
            decreases width - index,
        {
            proof {
                let i: int = start + index;
                assert(i == copies * width + index);
                vstd::arithmetic::div_mod::lemma_fundamental_div_mod_converse(
                    i,
                    width,
                    copies,
                    index as int,
                );
            }
            piece.push(chunk[index]);
            index += 1;
        }
        assert(piece@.len() == start + width);
        proof {
            copies = copies + 1;
            assert(piece@.len() == copies * width) by (nonlinear_arith)
                requires
                    piece@.len() == start + width,
                    start == (copies - 1) * width,
            ;
        }
    }
    proof {
        if width > 0 {
            lemma_mod_multiples_basic(copies, width);
        }
    }
    piece
}

/// The greatest common divisor, by Euclid's recurrence.
pub open spec fn gcd(a: nat, b: nat) -> nat
    decreases b,
{
    if b == 0 {
        a
    } else {
        gcd(b, a % b)
    }
}

/// The chunk the permuted order writes at position `sequence`.
pub open spec fn permuted_chunk(sequence: int, count: int, multiplier: int) -> int {
    (sequence * multiplier + count / 3) % count
}

/// The chunk written at position `sequence` of the order.
pub open spec fn ordered_chunk(sequence: u64, count: u64, order: WriteOrder, multiplier: u64) -> int {
    match order {
        WriteOrder::Sequential => sequence as int,
        WriteOrder::Permuted => permuted_chunk(sequence as int, count as int, multiplier as int),
    }
}

/// The chunk written at position `sequence`.
pub fn ordered_index(sequence: u64, count: u64, order: WriteOrder, multiplier: u64) -> (chunk: u64)
    requires
        order == WriteOrder::Permuted ==> count > 0 && sequence * multiplier + count / 3
            <= u64::MAX,
    ensures
        chunk == ordered_chunk(sequence, count, order, multiplier),
{
    match order {
        WriteOrder::Sequential => sequence,
        WriteOrder::Permuted => (sequence * multiplier + count / 3) % count,
    }
}

/// The greatest common divisor of `left` and `right`.
pub fn greatest_common_divisor(left: u64, right: u64) -> (divisor: u64)
    ensures
        divisor == gcd(left as nat, right as nat),
{
    let ghost initial = gcd(left as nat, right as nat);
    let mut left = left;
    let mut right = right;
    while right != 0
        invariant
            gcd(left as nat, right as nat) == initial,
        decreases right,
    {
        let remainder = left % right;
        left = right;
        right = remainder;
    }
    left
}

/// `count + 1` is coprime with `count`.
proof fn lemma_successor_coprime(count: nat)
    ensures
        gcd(count + 1, count) == 1,
{
    if count == 0 {
        assert(gcd(1, 0) == 1);
    } else if count == 1 {
        assert(gcd(1, 0) == 1);
        assert(gcd(2, 1) == gcd(1, 0));
    } else {
        lemma_small_mod(1, count);
        assert((count + 1) % count == 1) by {
            lemma_fundamental_div_mod((count + 1) as int, count as int);
            vstd::arithmetic::div_mod::lemma_fundamental_div_mod_converse(
                (count + 1) as int,
                count as int,
                1,
                1,
            );
        }
        assert(gcd(1, 0) == 1);
        assert(count % 1 == 0);
        assert(gcd(count, 1) == gcd(1, 0));
        assert(gcd(count + 1, count) == gcd(count, 1));
    }
}

/// At the top of the range the first candidate is already coprime.
proof fn lemma_top_multiplier_coprime()
    ensures
        gcd(0x8000_0000_0000_0000, 0xffff_ffff_ffff_ffff) == 1,
{
    let half: nat = 0x8000_0000_0000_0000;
    let top: nat = 0xffff_ffff_ffff_ffff;
    lemma_small_mod(half, top);
    vstd::arithmetic::div_mod::lemma_fundamental_div_mod_converse(
        top as int,
        half as int,
        1,
        (half - 1) as int,
    );
    vstd::arithmetic::div_mod::lemma_fundamental_div_mod_converse(
        half as int,
        (half - 1) as int,
        1,
        1,
    );
    assert(((half - 1) as nat) % 1 == 0);
    assert(gcd(1, 0) == 1);
    assert(gcd((half - 1) as nat, 1) == gcd(1, 0));
    assert(gcd(half, (half - 1) as nat) == gcd((half - 1) as nat, 1));
    assert(gcd(top, half) == gcd(half, (half - 1) as nat));
    assert(gcd(half, top) == gcd(top, half));
}

/// The smallest multiplier above `count / 2` that is coprime with `count`.
pub fn permutation_multiplier(count: u64) -> (multiplier: u64)
    ensures
        count / 2 < multiplier <= count + 1,
        gcd(multiplier as nat, count as nat) == 1,
        forall|candidate: nat|
            count / 2 < candidate < multiplier ==> #[trigger] gcd(candidate, count as nat) != 1,
{
    let mut candidate = count / 2 + 1;
    proof {
        lemma_successor_coprime(count as nat);
        if count == u64::MAX {
            lemma_top_multiplier_coprime();
        }
    }
    while greatest_common_divisor(candidate, count) != 1
        invariant
            count / 2 < candidate <= count + 1,
            count == u64::MAX ==> candidate == count / 2 + 1,
            count == u64::MAX ==> gcd(0x8000_0000_0000_0000, 0xffff_ffff_ffff_ffff) == 1,
            gcd((count + 1) as nat, count as nat) == 1,
            forall|c: nat| count / 2 < c < candidate ==> #[trigger] gcd(c, count as nat) != 1,
        decreases count + 1 - candidate,
    {
        assert(candidate < count + 1);
        candidate += 1;
    }
    candidate
}

/// Coefficients `x`, `y` with `a * x + b * y == gcd(a, b)`.
proof fn lemma_bezout(a: nat, b: nat) -> (coefficients: (int, int))
    ensures
        a * coefficients.0 + b * coefficients.1 == gcd(a, b),
    decreases b,
{
    if b == 0 {
        (1, 0)
    } else {
        let (x, y) = lemma_bezout(b, a % b);
        let q: int = (a / b) as int;
        let r: int = (a % b) as int;
        lemma_fundamental_div_mod(a as int, b as int);
        assert(a * y + b * (x - q * y) == b * x + r * y) by (nonlinear_arith)
            requires
                a == b * q + r,
        ;
        (y, x - q * y)
    }
}

/// A factor coprime with `n` can be dropped from a multiple of `n`.
proof fn lemma_coprime_factor(n: nat, m: nat, a: int)
    requires
        n > 0,
        gcd(m, n) == 1,
        (a * m) % (n as int) == 0,
    ensures
        a % (n as int) == 0,
{
    let (x, y) = lemma_bezout(m, n);
    let k: int = (a * m) / (n as int);
    lemma_fundamental_div_mod(a * m, n as int);
    let c: int = k * x + a * y;
    assert(a == c * n) by (nonlinear_arith)
        requires
            m * x + n * y == 1,
            a * m == n * k,
            c == k * x + a * y,
    ;
    lemma_mod_multiples_basic(c, n as int);
}

/// Law: with a multiplier coprime with `count`, the permuted order sends
/// distinct positions below `count` to distinct chunks below `count`.
pub proof fn lemma_permuted_order_is_injective(count: nat, multiplier: nat, first: int, second: int)
    requires
        count > 0,
        gcd(multiplier, count) == 1,
        0 <= first < count,
        0 <= second < count,
        first != second,
    ensures
        0 <= permuted_chunk(first, count as int, multiplier as int) < count,
        permuted_chunk(first, count as int, multiplier as int) != permuted_chunk(
            second,
            count as int,
            multiplier as int,
        ),
{
    let n: int = count as int;
    let m: int = multiplier as int;
    let x: int = first * m + n / 3;
    let y: int = second * m + n / 3;
    if x % n == y % n {
        let (high, low) = if first > second {
            (first, second)
        } else {
            (second, first)
        };
        let hx: int = high * m + n / 3;
        let lx: int = low * m + n / 3;
        lemma_sub_mod_noop(hx, lx, n);
        assert(0int % n == 0);
        let d: int = high - low;
        assert(hx - lx == d * m) by (nonlinear_arith)
            requires
                hx == high * m + n / 3,
                lx == low * m + n / 3,
                d == high - low,
        ;
        lemma_coprime_factor(count, multiplier, d);
        lemma_small_mod(d as nat, count);
        assert(false);
    }
}

/// Law: with a multiplier coprime with `count`, the permuted order visits
/// every chunk below `count` within its first `count` positions.
pub proof fn lemma_permuted_order_visits_every_chunk(count: nat, multiplier: nat, chunk: int)
    requires
        count > 0,
        gcd(multiplier, count) == 1,
        0 <= chunk < count,
    ensures
        exists|sequence: int|
            0 <= sequence < count && #[trigger] permuted_chunk(
                sequence,
                count as int,
                multiplier as int,
            ) == chunk,
{
    let n: int = count as int;
    let m: int = multiplier as int;
    let positions = vstd::set_lib::set_int_range(0, n);
    let visit = |sequence: int| permuted_chunk(sequence, n, m);
    vstd::set_lib::lemma_int_range(0, n);
    assert forall|a: int, b: int|
        positions.contains(a) && positions.contains(b) && #[trigger] visit(a) == #[trigger] visit(
            b,
        ) implies a == b by {
        if a != b {
            lemma_permuted_order_is_injective(count, multiplier, a, b);
        }
    }
    assert(vstd::relations::injective_on(visit, positions));
    let visited = positions.map(visit);
    vstd::set_lib::lemma_map_size(positions, visited, visit);
    assert forall|c: int| visited.contains(c) implies positions.contains(c) by {
        let s = choose|s: int| positions.contains(s) && visit(s) == c;
        assert(c == (s * m + n / 3) % n);
    }
    vstd::set_lib::lemma_subset_equality(visited, positions);
    assert(visited.contains(chunk));
    let s = choose|s: int| positions.contains(s) && visit(s) == chunk;
    assert(permuted_chunk(s, n, m) == chunk);
}


/// Which pieces of a combined write-and-hash run are fully written: each
/// piece counts down its unwritten chunks, and is ready for hashing when its
/// last chunk lands.
pub struct PieceCompletion {
    remaining: Vec<usize>,
    chunks_per_piece: usize,
}

impl PieceCompletion {
    /// The unwritten chunks of each piece.
    pub closed spec fn remaining_view(&self) -> Seq<usize> {
        self.remaining@
    }

    /// The chunks each piece is written in.
    pub closed spec fn chunks_per_piece_view(&self) -> usize {
        self.chunks_per_piece
    }

    /// `piece_count` pieces of `chunks_per_piece` chunks each, none written.
    pub fn new(piece_count: usize, chunks_per_piece: usize) -> (completion: Self)
        requires
            chunks_per_piece > 0,
        ensures
            completion.remaining_view() == Seq::new(piece_count as nat, |i: int| chunks_per_piece),
            completion.chunks_per_piece_view() == chunks_per_piece,
    {
        let mut remaining: Vec<usize> = Vec::new();
        let mut i: usize = 0;
        while i < piece_count
            invariant
                i <= piece_count,
                remaining@ == Seq::new(i as nat, |j: int| chunks_per_piece),
            decreases piece_count - i,
        {
            remaining.push(chunks_per_piece);
            i += 1;
            assert(remaining@ =~= Seq::new(i as nat, |j: int| chunks_per_piece));
        }
        PieceCompletion { remaining, chunks_per_piece }
    }

    /// The piece a chunk belongs to.
    pub fn piece_of(&self, chunk: u64) -> (piece: u64)
        requires
            self.chunks_per_piece_view() > 0,
        ensures
            piece == chunk / (self.chunks_per_piece_view() as u64),
    {
        chunk / self.chunks_per_piece as u64
    }

    /// Whether `chunk` lies in a piece that still has an unwritten chunk.
    pub fn expects(&self, chunk: u64) -> (expected: bool)
        requires
            self.chunks_per_piece_view() > 0,
        ensures
            expected == (chunk / (self.chunks_per_piece_view() as u64) < self.remaining_view().len()
                && self.remaining_view()[(chunk / (self.chunks_per_piece_view() as u64)) as int] > 0),
    {
        let piece = chunk / self.chunks_per_piece as u64;
        if piece >= self.remaining.len() as u64 {
            return false;
        }
        self.remaining[piece as usize] > 0
    }

    /// Records that `chunk` was written; returns its piece when that was the
    /// piece's last unwritten chunk.
    pub fn chunk_written(&mut self, chunk: u64) -> (ready: Option<u64>)
        requires
            old(self).chunks_per_piece_view() > 0,
            chunk / (old(self).chunks_per_piece_view() as u64) < old(self).remaining_view().len(),
            old(self).remaining_view()[(chunk / (old(self).chunks_per_piece_view() as u64)) as int] > 0,
        ensures
            ({
                let piece = chunk / (old(self).chunks_per_piece_view() as u64);
                let left = old(self).remaining_view()[piece as int];
                &&& final(self).remaining_view() == old(self).remaining_view().update(piece as int, (left - 1) as usize)
                &&& final(self).chunks_per_piece_view() == old(self).chunks_per_piece_view()
                &&& ready == if left == 1 { Some(piece) } else { None::<u64> }
            }),
    {
        let piece = self.piece_of(chunk);
        assert(piece < self.remaining@.len());
        assert(self.remaining@.len() == self.remaining.len());
        let index = piece as usize;
        assert(index as int == piece as int);
        let left = self.remaining[index];
        self.remaining.set(index, left - 1);
        if left == 1 {
            Some(piece)
        } else {
            None
        }
    }
}


/// The chunks of piece `p`.
pub open spec fn piece_chunks(p: int, chunks_per_piece: int) -> Set<int> {
    set_int_range(p * chunks_per_piece, p * chunks_per_piece + chunks_per_piece)
}

/// Whether the counters agree with the chunks written so far: each piece's
/// count is its chunks less those of them written.
pub open spec fn tracks_written(remaining: Seq<usize>, chunks_per_piece: int, written: Set<int>) -> bool {
    &&& written.finite()
    &&& forall|p: int|
        0 <= p < remaining.len() ==> remaining[p] + (#[trigger] written.intersect(
            piece_chunks(p, chunks_per_piece),
        )).len() == chunks_per_piece
}

proof fn lemma_chunk_in_own_piece(chunk: int, cpp: int, q: int)
    requires
        cpp > 0,
        chunk >= 0,
    ensures
        piece_chunks(chunk / cpp, cpp).contains(chunk),
        q != chunk / cpp ==> !piece_chunks(q, cpp).contains(chunk),
{
    let p = chunk / cpp;
    lemma_fundamental_div_mod(chunk, cpp);
    assert(0 <= chunk % cpp < cpp);
    assert(p * cpp == cpp * p) by (nonlinear_arith);
    if q != p && piece_chunks(q, cpp).contains(chunk) {
        assert(false) by (nonlinear_arith)
            requires
                q * cpp <= chunk < q * cpp + cpp,
                chunk == cpp * p + chunk % cpp,
                0 <= chunk % cpp < cpp,
                q != p,
                cpp > 0,
        ;
    }
}

/// Writing each chunk once reports each piece exactly when its last chunk
/// lands: a chunk not written before finds its piece with chunks left, the
/// counters agree with the written chunks after it, and its piece is ready
/// exactly when every chunk of the piece has been written.
pub proof fn lemma_ready_exactly_when_complete(remaining: Seq<usize>, cpp: int, written: Set<int>, chunk: int)
    requires
        cpp > 0,
        chunk >= 0,
        chunk / cpp < remaining.len(),
        tracks_written(remaining, cpp, written),
        !written.contains(chunk),
    ensures
        remaining[chunk / cpp] > 0,
        tracks_written(
            remaining.update(chunk / cpp, (remaining[chunk / cpp] - 1) as usize),
            cpp,
            written.insert(chunk),
        ),
        (remaining[chunk / cpp] == 1) <==> piece_chunks(chunk / cpp, cpp).subset_of(written.insert(chunk)),
{
    let p = chunk / cpp;
    let after = written.insert(chunk);
    let own = piece_chunks(p, cpp);
    lemma_chunk_in_own_piece(chunk, cpp, p);
    lemma_int_range(p * cpp, p * cpp + cpp);
    let before_p = written.intersect(own);
    let after_p = after.intersect(own);
    assert(after_p =~= before_p.insert(chunk));
    lemma_len_subset(after_p, own);
    lemma_len_subset(before_p, own);
    assert(!before_p.contains(chunk));
    assert(after_p.len() == before_p.len() + 1);
    let updated = remaining.update(p, (remaining[p] - 1) as usize);
    assert forall|q: int| 0 <= q < updated.len() implies updated[q] + (#[trigger] after.intersect(
        piece_chunks(q, cpp),
    )).len() == cpp by {
        if q != p {
            lemma_chunk_in_own_piece(chunk, cpp, q);
            assert(after.intersect(piece_chunks(q, cpp)) =~= written.intersect(piece_chunks(q, cpp)));
        }
    }
    if remaining[p] == 1 {
        lemma_subset_equality(after_p, own);
    }
    if own.subset_of(after) {
        assert(after_p =~= own);
    }
}


/// Before any write, the counters of a fresh completion agree with no chunk
/// written.
pub proof fn lemma_fresh_completion_tracks_nothing(piece_count: nat, chunks_per_piece: usize)
    ensures
        tracks_written(Seq::new(piece_count, |i: int| chunks_per_piece), chunks_per_piece as int, Set::empty()),
{
    assert forall|p: int| 0 <= p < piece_count implies Seq::new(piece_count, |i: int| chunks_per_piece)[p] + (
    #[trigger] Set::<int>::empty().intersect(piece_chunks(p, chunks_per_piece as int))).len()
        == chunks_per_piece by {
        assert(Set::<int>::empty().intersect(piece_chunks(p, chunks_per_piece as int)) =~= Set::<int>::empty());
    }
}

} // verus!

//! Range checks and read plans for a torrent's staging output file.
//!
//! A block or piece may be written or hashed only inside the file; a piece
//! is hashed by reading it in consecutive chunks of at most
//! `VERIFICATION_CHUNK_LENGTH` bytes.
use vstd::prelude::*;
use crate::upload::{sha1_digest, sha1_of};

verus! {

/// Bytes read at a time when hashing a piece.
pub const VERIFICATION_CHUNK_LENGTH: usize = 16 * 1024;

/// Errors of the staging output.
#[derive(Debug)]
pub enum StorageError {
    InvalidOutputPath,
    /// The output exists already, named by its path's text.
    ExistingOutput(String),
    /// The staging file exists already, named by its path's text.
    ExistingStaging(String),
    BlockOutOfRange { begin: u64, length: usize, file_length: u64 },
    StaleWritePlan,
    /// An operating-system error, with the raw error code where one was given.
    Io { operation: &'static str, raw_os_error: Option<i32> },
}

/// The end of the range `[begin, begin + length)` when it lies inside a
/// file of `file_length` bytes; else the out-of-range error.
pub fn block_end(begin: u64, length: usize, file_length: u64) -> (end: Result<u64, StorageError>)
    ensures
        begin + length <= file_length ==> end == Ok::<u64, StorageError>((begin + length) as u64),
        begin + length > file_length ==> end == Err::<u64, StorageError>(
            StorageError::BlockOutOfRange { begin, length, file_length },
        ),
{
    if length as u64 > file_length || begin > file_length - length as u64 {
        return Err(StorageError::BlockOutOfRange { begin, length, file_length });
    }
    Ok(begin + length as u64)
}

/// The `k`-th read of a piece at `begin` of `length` bytes: its offset and
/// length.
pub open spec fn verification_chunk(begin: u64, length: nat, k: int) -> (u64, usize) {
    let done = VERIFICATION_CHUNK_LENGTH * k;
    (
        (begin + done) as u64,
        if length - done < VERIFICATION_CHUNK_LENGTH {
            (length - done) as usize
        } else {
            VERIFICATION_CHUNK_LENGTH
        },
    )
}

/// The reads that hash a piece at `begin` of `length` bytes, in order: every
/// chunk full but the last.
pub fn verification_chunks(begin: u64, length: u32) -> (chunks: Vec<(u64, usize)>)
    requires
        begin + length <= u64::MAX,
    ensures
        chunks@.len() == (length + VERIFICATION_CHUNK_LENGTH - 1) / (VERIFICATION_CHUNK_LENGTH as int),
        forall|k: int| 0 <= k < chunks@.len() ==> #[trigger] chunks@[k] == verification_chunk(begin, length as nat, k),
{
    let mut chunks: Vec<(u64, usize)> = Vec::new();
    let mut remaining = length as usize;
    let mut offset = begin;
    while remaining > 0
        invariant
            remaining <= length,
            offset == begin + (length - remaining),
            remaining > 0 ==> (length - remaining) == VERIFICATION_CHUNK_LENGTH * chunks@.len(),
            remaining == 0 ==> chunks@.len() == (length + VERIFICATION_CHUNK_LENGTH - 1) / (VERIFICATION_CHUNK_LENGTH as int),
            length == 0 ==> chunks@.len() == 0,
            begin + length <= u64::MAX,
            forall|k: int| 0 <= k < chunks@.len() ==> #[trigger] chunks@[k] == verification_chunk(begin, length as nat, k),
        decreases remaining,
    {
        let chunk_length = if remaining < VERIFICATION_CHUNK_LENGTH {
            remaining
        } else {
            VERIFICATION_CHUNK_LENGTH
        };
        let ghost n = chunks@.len() as int;
        chunks.push((offset, chunk_length));
        proof {
            assert(chunks@[n] == verification_chunk(begin, length as nat, n));
        }
        remaining = remaining - chunk_length;
        offset = offset + chunk_length as u64;
        proof {
            let c = VERIFICATION_CHUNK_LENGTH as int;
            if remaining > 0 {
                assert(length - remaining == c * n + c);
                assert(c * n + c == c * (n + 1)) by (nonlinear_arith);
            } else {
                assert(length == c * n + chunk_length);
                assert((length + c - 1) / c == n + 1) by (nonlinear_arith)
                    requires
                        length == c * n + chunk_length,
                        0 < chunk_length <= c,
                        c == 16384,
                        n >= 0,
                ;
            }
        }
    }
    chunks
}

/// The SHA-1 digest of a piece whose bytes, read chunk by chunk, are `data`.
pub fn piece_digest(data: &Vec<u8>) -> (digest: Vec<u8>)
    ensures
        digest@ == sha1_of(data@),
        digest@.len() == 20,
{
    sha1_digest(data)
}

} // verus!

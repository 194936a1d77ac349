//! Command-line arguments of the storage stage profile.
//!
//! Arguments come as `--flag value` pairs, each flag at most once; `--help`
//! or `-h` asks for usage. Sizes are given in MiB or KiB and checked against
//! their bounds in bytes; piece and write-chunk sizes are powers of two that
//! divide the file and each other.
use vstd::prelude::*;
use vstd::string::StrSliceExecFns;
use crate::storage_stage_profile::WriteOrder;

verus! {

pub const KIB: u64 = 1024;

pub const MIB: u64 = 1024 * KIB;

pub const GIB: u64 = 1024 * MIB;

pub const MIN_SIZE: u64 = 16 * KIB;

pub const MAX_SIZE: u64 = 10 * GIB;

pub const MIN_PIECE_SIZE: u64 = 16 * KIB;

pub const MAX_PIECE_SIZE: u64 = 256 * MIB;

pub const MIN_WRITE_CHUNK_SIZE: u64 = 16 * KIB;

pub const MAX_WRITE_CHUNK_SIZE: u64 = 256 * KIB;

/// Bytes read at a time when hashing a piece from the file.
pub const HASH_READ_SIZE: usize = 16 * 1024;

pub const MAX_CONCURRENCY: usize = 8;

pub const FLAG_PATH: &'static str = "--path";

pub const FLAG_SIZE: &'static str = "--size-mib";

pub const FLAG_PIECE_SIZE: &'static str = "--piece-size-kib";

pub const FLAG_WRITE_CHUNK: &'static str = "--write-chunk-kib";

pub const FLAG_WRITE_CONCURRENCY: &'static str = "--write-concurrency";

pub const FLAG_HASH_CONCURRENCY: &'static str = "--hash-concurrency";

pub const FLAG_WRITE_ORDER: &'static str = "--write-order";

/// Why the arguments were refused.
#[derive(Debug)]
pub enum ProfileArgError {
    /// A flag is not valid Unicode.
    FlagNotUnicode,
    /// An argument stands where a flag should.
    Positional(String),
    /// The last flag has no value.
    MissingValue(String),
    /// A flag is given twice.
    Duplicate(String),
    /// A required flag is absent.
    MissingRequired(&'static str),
    /// The flag's value is not valid Unicode.
    NotUnicode(&'static str),
    /// The flag's value is not a decimal number.
    NotInteger(&'static str),
    /// The flag's value overflows a byte count.
    Overflow(&'static str),
    /// The flag's value in bytes lies outside its bounds.
    OutOfRange { name: &'static str, minimum: u64, maximum: u64 },
    /// A concurrency outside `1..=MAX_CONCURRENCY`.
    ConcurrencyRange(&'static str),
    /// The write order is neither `sequential` nor `permuted`.
    BadWriteOrder,
    /// Flags that are not the profile's, in the order given.
    Unknown(Vec<String>),
    /// The piece or write-chunk size is not a power of two.
    NotPowerOfTwo,
    /// The size is not a multiple of the piece size.
    SizeNotPieceMultiple,
    /// The piece size is not a multiple of the write-chunk size.
    PieceNotChunkMultiple,
    /// The size is not a multiple of the write-chunk size.
    SizeNotChunkMultiple,
}

/// A validated profile configuration; the path is the argument at
/// `path_argument`, passed through untouched.
#[derive(Clone, Copy, Debug, PartialEq, Eq, Structural)]
pub struct ProfileConfig {
    pub path_argument: usize,
    pub size_bytes: u64,
    pub piece_size: usize,
    pub write_chunk_size: usize,
    pub write_concurrency: usize,
    pub hash_concurrency: usize,
    pub write_order: WriteOrder,
}

/// What the arguments ask for.
#[derive(Debug)]
pub enum ProfileCommand {
    Help,
    Run(ProfileConfig),
}

/// A flag given on the command line and the position of its value.
#[derive(Debug)]
pub struct ProfileFlag {
    pub flag: String,
    pub value_index: usize,
}

/// An ASCII decimal digit.
pub open spec fn is_digit(c: char) -> bool {
    '0' <= c <= '9'
}

/// The value of a string of decimal digits.
pub open spec fn digits_value(digits: Seq<char>) -> nat
    decreases digits.len(),
{
    if digits.len() == 0 {
        0
    } else {
        digits_value(digits.drop_last()) * 10 + (digits.last() as nat - '0' as nat) as nat
    }
}

/// The digits of an unsigned numeral: the text after an optional `+`.
pub open spec fn unsigned_digits(text: Seq<char>) -> Seq<char> {
    if text.len() > 0 && text[0] == '+' {
        text.drop_first()
    } else {
        text
    }
}

/// The value of an unsigned decimal numeral, as std reads unsigned
/// integers: an optional `+`, then one or more ASCII digits.
pub open spec fn decimal_value(text: Seq<char>) -> Option<nat> {
    let digits = unsigned_digits(text);
    if digits.len() > 0 && forall|i: int| 0 <= i < digits.len() ==> #[trigger] is_digit(digits[i]) {
        Some(digits_value(digits))
    } else {
        None
    }
}

/// The numeral's value when it is at most `max`.
pub open spec fn bounded_decimal(text: Seq<char>, max: u64) -> Option<u64> {
    match decimal_value(text) {
        Some(v) => if v <= max {
            Some(v as u64)
        } else {
            None
        },
        None => None,
    }
}

/// Reads an unsigned decimal numeral no larger than `max`.
pub fn parse_decimal(text: &str, max: u64) -> (value: Option<u64>)
    ensures
        value == bounded_decimal(text@, max),
{
    let length = text.unicode_len();
    let mut start: usize = 0;
    if length > 0 && text.get_char(0) == '+' {
        start = 1;
    }
    let ghost digits = unsigned_digits(text@);
    assert(digits =~= text@.subrange(start as int, length as int));
    if start >= length {
        return None;
    }
    let mut value: u64 = 0;
    let mut overflow = false;
    let mut i: usize = start;
    assert(digits.subrange(0, 0) =~= Seq::<char>::empty());
    while i < length
        invariant
            length == text@.len(),
            start <= i <= length,
            digits == text@.subrange(start as int, length as int),
            digits == unsigned_digits(text@),
            forall|j: int| 0 <= j < i - start ==> #[trigger] is_digit(digits[j]),
            !overflow ==> value == digits_value(digits.subrange(0, i - start)) && value <= max,
            overflow ==> digits_value(digits.subrange(0, i - start)) > max,
        decreases length - i,
    {
        let c = text.get_char(i);
        if c < '0' || c > '9' {
            assert(!is_digit(digits[i - start]));
            return None;
        }
        let digit = (c as u32 - 48) as u64;
        proof {
            assert(digits.subrange(0, i + 1 - start).drop_last() =~= digits.subrange(0, i - start));
            assert(digits.subrange(0, i + 1 - start).last() == c);
        }
        if !overflow {
            match value.checked_mul(10) {
                Some(tens) => match tens.checked_add(digit) {
                    Some(next) => {
                        if next <= max {
                            value = next;
                        } else {
                            overflow = true;
                        }
                    },
                    None => {
                        overflow = true;
                    },
                },
                None => {
                    overflow = true;
                },
            }
        }
        i += 1;
    }
    assert(digits.subrange(0, length - start) =~= digits);
    if overflow {
        None
    } else {
        Some(value)
    }
}

/// Whether `x` is a power of two.
pub open spec fn power_of_two(x: nat) -> bool
    decreases x,
{
    if x == 0 {
        false
    } else if x == 1 {
        true
    } else if x % 2 != 0 {
        false
    } else {
        power_of_two(x / 2)
    }
}

/// Whether `x` is a power of two.
pub fn is_power_of_two(x: u64) -> (r: bool)
    ensures
        r == power_of_two(x as nat),
{
    let mut v = x;
    while v > 1 && v % 2 == 0
        invariant
            power_of_two(v as nat) == power_of_two(x as nat),
        decreases v,
    {
        v = v / 2;
    }
    v == 1
}

/// The help flags.
pub open spec fn is_help(flag: Seq<char>) -> bool {
    flag == "--help"@ || flag == "-h"@
}

/// A flag begins with two dashes.
pub open spec fn dashed(flag: Seq<char>) -> bool {
    flag.len() >= 2 && flag[0] == '-' && flag[1] == '-'
}

/// Whether `flag` was given already.
pub open spec fn flag_given(flags: Seq<ProfileFlag>, flag: Seq<char>) -> bool {
    exists|k: int| 0 <= k < flags.len() && #[trigger] flags[k].flag@ == flag
}

/// Reads `args` from `i` on as flag and value pairs after `flags`: stops at
/// a help flag, and refuses a non-Unicode flag, an argument that is not a
/// flag, a flag without a value and a repeated flag, in the order met.
pub open spec fn scan_flags(args: Seq<Option<String>>, i: int, flags: Seq<ProfileFlag>) -> Result<
    Option<Seq<ProfileFlag>>,
    ProfileArgError,
>
    decreases args.len() - i,
{
    if i < 0 || i >= args.len() {
        Ok(Some(flags))
    } else {
        match args[i] {
            None => Err(ProfileArgError::FlagNotUnicode),
            Some(flag) => if is_help(flag@) {
                Ok(None)
            } else if !dashed(flag@) {
                Err(ProfileArgError::Positional(flag))
            } else if i + 1 >= args.len() {
                Err(ProfileArgError::MissingValue(flag))
            } else if flag_given(flags, flag@) {
                Err(ProfileArgError::Duplicate(flag))
            } else {
                scan_flags(args, i + 2, flags.push(ProfileFlag { flag, value_index: (i + 1) as usize }))
            },
        }
    }
}

/// The position of `name` among the flags, if given.
pub open spec fn flag_position(flags: Seq<ProfileFlag>, name: Seq<char>, from: int) -> Option<int>
    decreases flags.len() - from,
{
    if from < 0 || from >= flags.len() {
        None
    } else if flags[from].flag@ == name {
        Some(from)
    } else {
        flag_position(flags, name, from + 1)
    }
}

/// A size flag's value in bytes: the number times `scale`, within bounds.
pub open spec fn scaled_value(
    value: Option<String>,
    name: &'static str,
    scale: u64,
    minimum: u64,
    maximum: u64,
) -> Result<u64, ProfileArgError> {
    match value {
        None => Err(ProfileArgError::NotUnicode(name)),
        Some(text) => match bounded_decimal(text@, u64::MAX) {
            None => Err(ProfileArgError::NotInteger(name)),
            Some(n) => if n * scale > u64::MAX {
                Err(ProfileArgError::Overflow(name))
            } else if n * scale < minimum || n * scale > maximum {
                Err(ProfileArgError::OutOfRange { name, minimum, maximum })
            } else {
                Ok((n * scale) as u64)
            },
        },
    }
}

/// A concurrency flag's value, from one to `MAX_CONCURRENCY`.
pub open spec fn concurrency_value(value: Option<String>, name: &'static str) -> Result<usize, ProfileArgError> {
    match value {
        None => Err(ProfileArgError::NotUnicode(name)),
        Some(text) => match bounded_decimal(text@, usize::MAX as u64) {
            None => Err(ProfileArgError::NotInteger(name)),
            Some(n) => if 1 <= n <= MAX_CONCURRENCY {
                Ok(n as usize)
            } else {
                Err(ProfileArgError::ConcurrencyRange(name))
            },
        },
    }
}

/// The write order's value.
pub open spec fn write_order_value(value: Option<String>) -> Result<WriteOrder, ProfileArgError> {
    match value {
        Some(text) => if text@ == "sequential"@ {
            Ok(WriteOrder::Sequential)
        } else if text@ == "permuted"@ {
            Ok(WriteOrder::Permuted)
        } else {
            Err(ProfileArgError::BadWriteOrder)
        },
        None => Err(ProfileArgError::BadWriteOrder),
    }
}

/// Checks that the sizes divide as the profile needs.
pub open spec fn geometry_problem(size: u64, piece: u64, chunk: u64) -> Option<ProfileArgError> {
    if !power_of_two(piece as nat) || !power_of_two(chunk as nat) {
        Some(ProfileArgError::NotPowerOfTwo)
    } else if size % piece != 0 {
        Some(ProfileArgError::SizeNotPieceMultiple)
    } else if piece % chunk != 0 {
        Some(ProfileArgError::PieceNotChunkMultiple)
    } else if size % chunk != 0 {
        Some(ProfileArgError::SizeNotChunkMultiple)
    } else {
        None
    }
}


/// What a command line comes to.
pub enum ProfileOutcome {
    Help,
    Run(ProfileConfig),
    Refused(ProfileArgError),
    /// Refused for flags that are not the profile's, in the order given.
    Unknown(Seq<String>),
}

/// The outcome of the arguments after the flags are read and the path and
/// size are taken: the rest of the flags in turn, then the leftovers, then
/// the geometry.
pub open spec fn outcome_after_size(
    args: Seq<Option<String>>,
    flags: Seq<ProfileFlag>,
    path: usize,
    size: u64,
) -> ProfileOutcome {
    match flag_position(flags, FLAG_PIECE_SIZE@, 0) {
        None => ProfileOutcome::Refused(ProfileArgError::MissingRequired(FLAG_PIECE_SIZE)),
        Some(p) => match scaled_value(args[flags[p].value_index as int], FLAG_PIECE_SIZE, KIB, MIN_PIECE_SIZE, MAX_PIECE_SIZE) {
            Err(e) => ProfileOutcome::Refused(e),
            Ok(piece) => {
                let f = flags.remove(p);
                match flag_position(f, FLAG_WRITE_CHUNK@, 0) {
                    None => ProfileOutcome::Refused(ProfileArgError::MissingRequired(FLAG_WRITE_CHUNK)),
                    Some(q) => match scaled_value(args[f[q].value_index as int], FLAG_WRITE_CHUNK, KIB, MIN_WRITE_CHUNK_SIZE, MAX_WRITE_CHUNK_SIZE) {
                        Err(e) => ProfileOutcome::Refused(e),
                        Ok(chunk) => outcome_after_sizes(args, f.remove(q), path, size, piece, chunk),
                    },
                }
            },
        },
    }
}

/// The outcome once all three sizes are read.
pub open spec fn outcome_after_sizes(
    args: Seq<Option<String>>,
    flags: Seq<ProfileFlag>,
    path: usize,
    size: u64,
    piece: u64,
    chunk: u64,
) -> ProfileOutcome {
    match flag_position(flags, FLAG_WRITE_CONCURRENCY@, 0) {
        None => ProfileOutcome::Refused(ProfileArgError::MissingRequired(FLAG_WRITE_CONCURRENCY)),
        Some(p) => match concurrency_value(args[flags[p].value_index as int], FLAG_WRITE_CONCURRENCY) {
            Err(e) => ProfileOutcome::Refused(e),
            Ok(writes) => {
                let f = flags.remove(p);
                match flag_position(f, FLAG_HASH_CONCURRENCY@, 0) {
                    None => ProfileOutcome::Refused(ProfileArgError::MissingRequired(FLAG_HASH_CONCURRENCY)),
                    Some(q) => match concurrency_value(args[f[q].value_index as int], FLAG_HASH_CONCURRENCY) {
                        Err(e) => ProfileOutcome::Refused(e),
                        Ok(hashes) => {
                            let g = f.remove(q);
                            match flag_position(g, FLAG_WRITE_ORDER@, 0) {
                                None => ProfileOutcome::Refused(ProfileArgError::MissingRequired(FLAG_WRITE_ORDER)),
                                Some(r) => match write_order_value(args[g[r].value_index as int]) {
                                    Err(e) => ProfileOutcome::Refused(e),
                                    Ok(order) => {
                                        let rest = g.remove(r);
                                        if rest.len() > 0 {
                                            ProfileOutcome::Unknown(rest.map_values(|x: ProfileFlag| x.flag))
                                        } else {
                                            match geometry_problem(size, piece, chunk) {
                                                Some(e) => ProfileOutcome::Refused(e),
                                                None => ProfileOutcome::Run(
                                                    ProfileConfig {
                                                        path_argument: path,
                                                        size_bytes: size,
                                                        piece_size: piece as usize,
                                                        write_chunk_size: chunk as usize,
                                                        write_concurrency: writes,
                                                        hash_concurrency: hashes,
                                                        write_order: order,
                                                    },
                                                ),
                                            }
                                        }
                                    },
                                },
                            }
                        },
                    },
                }
            },
        },
    }
}

/// What the arguments after the program name come to.
pub open spec fn profile_outcome(args: Seq<Option<String>>) -> ProfileOutcome {
    match scan_flags(args, 0, Seq::empty()) {
        Err(e) => ProfileOutcome::Refused(e),
        Ok(None) => ProfileOutcome::Help,
        Ok(Some(flags)) => match flag_position(flags, FLAG_PATH@, 0) {
            None => ProfileOutcome::Refused(ProfileArgError::MissingRequired(FLAG_PATH)),
            Some(p) => {
                let path = flags[p].value_index;
                let f = flags.remove(p);
                match flag_position(f, FLAG_SIZE@, 0) {
                    None => ProfileOutcome::Refused(ProfileArgError::MissingRequired(FLAG_SIZE)),
                    Some(q) => match scaled_value(args[f[q].value_index as int], FLAG_SIZE, MIB, MIN_SIZE, MAX_SIZE) {
                        Err(e) => ProfileOutcome::Refused(e),
                        Ok(size) => outcome_after_size(args, f.remove(q), path, size),
                    },
                }
            },
        },
    }
}

/// Whether the result reports the outcome.
pub open spec fn reports(r: Result<ProfileCommand, ProfileArgError>, outcome: ProfileOutcome) -> bool {
    match outcome {
        ProfileOutcome::Help => r matches Ok(ProfileCommand::Help),
        ProfileOutcome::Run(config) => r matches Ok(ProfileCommand::Run(c)) && c == config,
        ProfileOutcome::Refused(e) => r == Err::<ProfileCommand, ProfileArgError>(e),
        ProfileOutcome::Unknown(names) => r matches Err(ProfileArgError::Unknown(v)) && v@ == names,
    }
}

proof fn lemma_flag_position_at(flags: Seq<ProfileFlag>, name: Seq<char>, from: int, k: int)
    requires
        0 <= from <= k < flags.len(),
        flags[k].flag@ == name,
        forall|i: int| from <= i < k ==> (#[trigger] flags[i]).flag@ != name,
    ensures
        flag_position(flags, name, from) == Some(k),
    decreases k - from,
{
    if from < k {
        lemma_flag_position_at(flags, name, from + 1, k);
    }
}

proof fn lemma_flag_position_none(flags: Seq<ProfileFlag>, name: Seq<char>, from: int)
    requires
        0 <= from,
        forall|i: int| from <= i < flags.len() ==> (#[trigger] flags[i]).flag@ != name,
    ensures
        flag_position(flags, name, from) is None,
    decreases flags.len() - from,
{
    if from < flags.len() {
        lemma_flag_position_none(flags, name, from + 1);
    }
}

/// Every flag's value lies among `count` arguments.
pub open spec fn values_within(flags: Seq<ProfileFlag>, count: nat) -> bool {
    forall|k: int| 0 <= k < flags.len() ==> (#[trigger] flags[k]).value_index < count
}

/// Whether `flag` is `--help` or `-h`.
fn help_flag(flag: &String) -> (help: bool)
    ensures
        help == is_help(flag@),
{
    let long = "--help".to_owned();
    let short = "-h".to_owned();
    *flag == long || *flag == short
}

/// Whether `flag` begins with two dashes.
fn dashed_flag(flag: &String) -> (r: bool)
    ensures
        r == dashed(flag@),
{
    let text = flag.as_str();
    text.unicode_len() >= 2 && text.get_char(0) == '-' && text.get_char(1) == '-'
}

/// Whether `flag` was given already.
fn already_given(flags: &Vec<ProfileFlag>, flag: &String) -> (given: bool)
    ensures
        given == flag_given(flags@, flag@),
{
    let mut k: usize = 0;
    while k < flags.len()
        invariant
            k <= flags@.len(),
            forall|j: int| 0 <= j < k ==> (#[trigger] flags@[j]).flag@ != flag@,
        decreases flags@.len() - k,
    {
        if flags[k].flag == *flag {
            assert(flags@[k as int].flag@ == flag@);
            return true;
        }
        k += 1;
    }
    false
}

/// Reads the flag and value pairs of the command line.
pub fn collect_flags(args: &Vec<Option<String>>) -> (r: Result<Option<Vec<ProfileFlag>>, ProfileArgError>)
    ensures
        match r {
            Ok(Some(flags)) => scan_flags(args@, 0, Seq::empty()) == Ok::<Option<Seq<ProfileFlag>>, ProfileArgError>(Some(flags@))
                && values_within(flags@, args@.len()),
            Ok(None) => scan_flags(args@, 0, Seq::empty()) == Ok::<Option<Seq<ProfileFlag>>, ProfileArgError>(None),
            Err(e) => scan_flags(args@, 0, Seq::empty()) == Err::<Option<Seq<ProfileFlag>>, ProfileArgError>(e),
        },
{
    let mut flags: Vec<ProfileFlag> = Vec::new();
    let mut i: usize = 0;
    while i < args.len()
        invariant
            i <= args@.len() + 1,
            scan_flags(args@, 0, Seq::empty()) == scan_flags(args@, i as int, flags@),
            values_within(flags@, args@.len()),
        decreases args@.len() + 1 - i,
    {
        let flag = match &args[i] {
            None => {
                return Err(ProfileArgError::FlagNotUnicode);
            },
            Some(flag) => flag,
        };
        if help_flag(flag) {
            return Ok(None);
        }
        if !dashed_flag(flag) {
            return Err(ProfileArgError::Positional(flag.clone()));
        }
        if i + 1 >= args.len() {
            return Err(ProfileArgError::MissingValue(flag.clone()));
        }
        if already_given(&flags, flag) {
            return Err(ProfileArgError::Duplicate(flag.clone()));
        }
        assert(!flag_given(flags@, flag@));
        flags.push(ProfileFlag { flag: flag.clone(), value_index: i + 1 });
        i += 2;
    }
    Ok(Some(flags))
}

/// Takes `name` out of the flags, giving the position of its value.
pub fn take_flag(flags: &mut Vec<ProfileFlag>, name: &'static str) -> (value: Option<usize>)
    ensures
        match flag_position(old(flags)@, name@, 0) {
            Some(k) => value == Some(old(flags)@[k].value_index) && final(flags)@ == old(flags)@.remove(k),
            None => value is None && final(flags)@ == old(flags)@,
        },
        forall|n: nat| values_within(old(flags)@, n) ==> values_within(final(flags)@, n) && (value matches Some(v) ==> v < n),
{
    let wanted = name.to_owned();
    let mut k: usize = 0;
    while k < flags.len()
        invariant
            k <= flags@.len(),
            flags@ == old(flags)@,
            wanted@ == name@,
            forall|j: int| 0 <= j < k ==> (#[trigger] flags@[j]).flag@ != name@,
        decreases flags@.len() - k,
    {
        if flags[k].flag == wanted {
            proof {
                lemma_flag_position_at(flags@, name@, 0, k as int);
            }
            let taken = flags.remove(k);
            proof {
                assert forall|n: nat| values_within(old(flags)@, n) implies values_within(flags@, n) by {
                    assert forall|j: int| 0 <= j < flags@.len() implies (#[trigger] flags@[j]).value_index < n by {
                        if j < k {
                            assert(flags@[j] == old(flags)@[j]);
                        } else {
                            assert(flags@[j] == old(flags)@[j + 1]);
                        }
                    }
                }
            }
            return Some(taken.value_index);
        }
        k += 1;
    }
    proof {
        lemma_flag_position_none(flags@, name@, 0);
    }
    None
}

/// Reads a size flag's value in bytes.
pub fn read_scaled(value: &Option<String>, name: &'static str, scale: u64, minimum: u64, maximum: u64) -> (r: Result<
    u64,
    ProfileArgError,
>)
    ensures
        r == scaled_value(*value, name, scale, minimum, maximum),
{
    let text = match value {
        None => {
            return Err(ProfileArgError::NotUnicode(name));
        },
        Some(text) => text,
    };
    let parsed = match parse_decimal(text.as_str(), u64::MAX) {
        None => {
            return Err(ProfileArgError::NotInteger(name));
        },
        Some(n) => n,
    };
    let scaled = match parsed.checked_mul(scale) {
        None => {
            return Err(ProfileArgError::Overflow(name));
        },
        Some(v) => v,
    };
    if scaled < minimum || scaled > maximum {
        return Err(ProfileArgError::OutOfRange { name, minimum, maximum });
    }
    Ok(scaled)
}

/// Reads a concurrency flag's value.
pub fn read_concurrency(value: &Option<String>, name: &'static str) -> (r: Result<usize, ProfileArgError>)
    ensures
        r == concurrency_value(*value, name),
{
    let text = match value {
        None => {
            return Err(ProfileArgError::NotUnicode(name));
        },
        Some(text) => text,
    };
    let parsed = match parse_decimal(text.as_str(), usize::MAX as u64) {
        None => {
            return Err(ProfileArgError::NotInteger(name));
        },
        Some(n) => n,
    };
    if parsed < 1 || parsed > MAX_CONCURRENCY as u64 {
        return Err(ProfileArgError::ConcurrencyRange(name));
    }
    Ok(parsed as usize)
}

/// Reads the write order.
pub fn read_write_order(value: &Option<String>) -> (r: Result<WriteOrder, ProfileArgError>)
    ensures
        r == write_order_value(*value),
{
    match value {
        Some(text) => {
            let sequential = "sequential".to_owned();
            let permuted = "permuted".to_owned();
            if *text == sequential {
                Ok(WriteOrder::Sequential)
            } else if *text == permuted {
                Ok(WriteOrder::Permuted)
            } else {
                Err(ProfileArgError::BadWriteOrder)
            }
        },
        None => Err(ProfileArgError::BadWriteOrder),
    }
}

/// Checks that the sizes divide as the profile needs.
pub fn check_geometry(size: u64, piece: u64, chunk: u64) -> (problem: Option<ProfileArgError>)
    requires
        piece > 0,
        chunk > 0,
    ensures
        problem == geometry_problem(size, piece, chunk),
{
    if !is_power_of_two(piece) || !is_power_of_two(chunk) {
        return Some(ProfileArgError::NotPowerOfTwo);
    }
    if size % piece != 0 {
        return Some(ProfileArgError::SizeNotPieceMultiple);
    }
    if piece % chunk != 0 {
        return Some(ProfileArgError::PieceNotChunkMultiple);
    }
    if size % chunk != 0 {
        return Some(ProfileArgError::SizeNotChunkMultiple);
    }
    None
}

/// The profile's command line, the arguments after the program name, each
/// `None` where it is not valid Unicode.
pub fn parse_profile_arguments(args: &Vec<Option<String>>) -> (r: Result<ProfileCommand, ProfileArgError>)
    ensures
        reports(r, profile_outcome(args@)),
{
    let mut flags = match collect_flags(args)? {
        None => {
            return Ok(ProfileCommand::Help);
        },
        Some(flags) => flags,
    };
    let path = match take_flag(&mut flags, FLAG_PATH) {
        None => {
            return Err(ProfileArgError::MissingRequired(FLAG_PATH));
        },
        Some(index) => index,
    };
    let size_at = match take_flag(&mut flags, FLAG_SIZE) {
        None => {
            return Err(ProfileArgError::MissingRequired(FLAG_SIZE));
        },
        Some(index) => index,
    };
    let size = read_scaled(&args[size_at], FLAG_SIZE, MIB, MIN_SIZE, MAX_SIZE)?;
    let piece_at = match take_flag(&mut flags, FLAG_PIECE_SIZE) {
        None => {
            return Err(ProfileArgError::MissingRequired(FLAG_PIECE_SIZE));
        },
        Some(index) => index,
    };
    let piece = read_scaled(&args[piece_at], FLAG_PIECE_SIZE, KIB, MIN_PIECE_SIZE, MAX_PIECE_SIZE)?;
    let chunk_at = match take_flag(&mut flags, FLAG_WRITE_CHUNK) {
        None => {
            return Err(ProfileArgError::MissingRequired(FLAG_WRITE_CHUNK));
        },
        Some(index) => index,
    };
    let chunk = read_scaled(
        &args[chunk_at],
        FLAG_WRITE_CHUNK,
        KIB,
        MIN_WRITE_CHUNK_SIZE,
        MAX_WRITE_CHUNK_SIZE,
    )?;
    let writes_at = match take_flag(&mut flags, FLAG_WRITE_CONCURRENCY) {
        None => {
            return Err(ProfileArgError::MissingRequired(FLAG_WRITE_CONCURRENCY));
        },
        Some(index) => index,
    };
    let writes = read_concurrency(&args[writes_at], FLAG_WRITE_CONCURRENCY)?;
    let hashes_at = match take_flag(&mut flags, FLAG_HASH_CONCURRENCY) {
        None => {
            return Err(ProfileArgError::MissingRequired(FLAG_HASH_CONCURRENCY));
        },
        Some(index) => index,
    };
    let hashes = read_concurrency(&args[hashes_at], FLAG_HASH_CONCURRENCY)?;
    let order_at = match take_flag(&mut flags, FLAG_WRITE_ORDER) {
        None => {
            return Err(ProfileArgError::MissingRequired(FLAG_WRITE_ORDER));
        },
        Some(index) => index,
    };
    let order = read_write_order(&args[order_at])?;
    if flags.len() > 0 {
        let mut unknown: Vec<String> = Vec::new();
        let mut k: usize = 0;
        while k < flags.len()
            invariant
                k <= flags@.len(),
                unknown@ == flags@.take(k as int).map_values(|x: ProfileFlag| x.flag),
            decreases flags@.len() - k,
        {
            unknown.push(flags[k].flag.clone());
            proof {
                assert(flags@.take(k + 1) =~= flags@.take(k as int).push(flags@[k as int]));
                assert(flags@.take(k + 1).map_values(|x: ProfileFlag| x.flag) =~= flags@.take(
                    k as int,
                ).map_values(|x: ProfileFlag| x.flag).push(flags@[k as int].flag));
            }
            k += 1;
        }
        assert(flags@.take(flags@.len() as int) =~= flags@);
        return Err(ProfileArgError::Unknown(unknown));
    }
    if let Some(problem) = check_geometry(size, piece, chunk) {
        return Err(problem);
    }
    Ok(
        ProfileCommand::Run(
            ProfileConfig {
                path_argument: path,
                size_bytes: size,
                piece_size: piece as usize,
                write_chunk_size: chunk as usize,
                write_concurrency: writes,
                hash_concurrency: hashes,
                write_order: order,
            },
        ),
    )
}

} // verus!

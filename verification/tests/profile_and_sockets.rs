use rstorrent_engine::profile_arguments::{
    check_geometry, is_power_of_two, parse_decimal, parse_profile_arguments, ProfileArgError,
    ProfileCommand, ProfileConfig, FLAG_PATH, FLAG_SIZE, FLAG_WRITE_CONCURRENCY, MAX_SIZE, MIB,
};
use rstorrent_engine::session_socket::eligible_global_ipv6;
use rstorrent_engine::staging::{block_end, verification_chunks, StorageError};
use rstorrent_engine::session_udp::{looks_like_utp, route_datagram, DatagramRoute};
use rstorrent_engine::storage_stage_profile::{PieceCompletion, WriteOrder};

fn v6(prefix: &[u8], suffix: &[u8]) -> [u8; 16] {
    let mut octets = [0u8; 16];
    octets[..prefix.len()].copy_from_slice(prefix);
    octets[16 - suffix.len()..].copy_from_slice(suffix);
    octets
}

#[test]
fn global_ipv6_eligibility_rejects_non_native_or_reserved_addresses() {
    let rejected = [
        v6(&[], &[]),
        v6(&[], &[1]),
        v6(&[0xfe, 0x80], &[1]),
        v6(&[0xfe, 0xc0], &[1]),
        v6(&[0xfd, 0x00], &[1]),
        v6(&[0xff, 0x02], &[1]),
        v6(&[], &[0xff, 0xff, 192, 0, 2, 1]),
        v6(&[], &[192, 0, 2, 1]),
        v6(&[0x20, 0x01, 0x0d, 0xb8], &[1]),
        v6(&[0x20, 0x01], &[1]),
        v6(&[0x20, 0x02], &[1]),
    ];
    for address in rejected {
        assert!(!eligible_global_ipv6(address), "accepted {address:?}");
    }
    assert!(eligible_global_ipv6(v6(
        &[0x26, 0x06, 0x47, 0x00, 0x47, 0x00],
        &[0x11, 0x11]
    )));
}

fn arguments(values: &[&str]) -> Vec<Option<String>> {
    values.iter().map(|value| Some((*value).to_owned())).collect()
}

fn full_arguments() -> Vec<&'static str> {
    vec![
        "--path",
        "/tmp/profile",
        "--size-mib",
        "64",
        "--piece-size-kib",
        "256",
        "--write-chunk-kib",
        "16",
        "--write-concurrency",
        "4",
        "--hash-concurrency",
        "+2",
        "--write-order",
        "permuted",
    ]
}

#[test]
fn profile_arguments_parse_to_a_config() {
    let parsed = parse_profile_arguments(&arguments(&full_arguments())).expect("valid arguments");
    match parsed {
        ProfileCommand::Run(config) => assert_eq!(
            config,
            ProfileConfig {
                path_argument: 1,
                size_bytes: 64 * MIB,
                piece_size: 256 * 1024,
                write_chunk_size: 16 * 1024,
                write_concurrency: 4,
                hash_concurrency: 2,
                write_order: WriteOrder::Permuted,
            }
        ),
        ProfileCommand::Help => panic!("help was not asked for"),
    }
}

#[test]
fn profile_arguments_report_each_refusal() {
    assert!(matches!(
        parse_profile_arguments(&arguments(&["--size-mib", "1", "-h"])),
        Ok(ProfileCommand::Help)
    ));
    assert!(matches!(
        parse_profile_arguments(&vec![None]),
        Err(ProfileArgError::FlagNotUnicode)
    ));
    assert!(matches!(
        parse_profile_arguments(&arguments(&["path"])),
        Err(ProfileArgError::Positional(flag)) if flag == "path"
    ));
    assert!(matches!(
        parse_profile_arguments(&arguments(&["--path"])),
        Err(ProfileArgError::MissingValue(flag)) if flag == "--path"
    ));
    assert!(matches!(
        parse_profile_arguments(&arguments(&["--path", "a", "--path", "b"])),
        Err(ProfileArgError::Duplicate(flag)) if flag == "--path"
    ));
    assert!(matches!(
        parse_profile_arguments(&arguments(&["--size-mib", "1"])),
        Err(ProfileArgError::MissingRequired(name)) if name == FLAG_PATH
    ));
    let mut oversized = full_arguments();
    oversized[3] = "20480";
    assert!(matches!(
        parse_profile_arguments(&arguments(&oversized)),
        Err(ProfileArgError::OutOfRange { name, maximum, .. }) if name == FLAG_SIZE && maximum == MAX_SIZE
    ));
    let mut overflowing = full_arguments();
    overflowing[3] = "18446744073709551615";
    assert!(matches!(
        parse_profile_arguments(&arguments(&overflowing)),
        Err(ProfileArgError::Overflow(name)) if name == FLAG_SIZE
    ));
    let mut negative = full_arguments();
    negative[3] = "-1";
    assert!(matches!(
        parse_profile_arguments(&arguments(&negative)),
        Err(ProfileArgError::NotInteger(name)) if name == FLAG_SIZE
    ));
    let mut busy = full_arguments();
    busy[9] = "9";
    assert!(matches!(
        parse_profile_arguments(&arguments(&busy)),
        Err(ProfileArgError::ConcurrencyRange(name)) if name == FLAG_WRITE_CONCURRENCY
    ));
    let mut order = full_arguments();
    order[13] = "random";
    assert!(matches!(
        parse_profile_arguments(&arguments(&order)),
        Err(ProfileArgError::BadWriteOrder)
    ));
    let mut extra = full_arguments();
    extra.extend(["--zeta", "1", "--alpha", "2"]);
    assert!(matches!(
        parse_profile_arguments(&arguments(&extra)),
        Err(ProfileArgError::Unknown(names)) if names == ["--zeta", "--alpha"]
    ));
    let mut uneven = full_arguments();
    uneven[5] = "48";
    assert!(matches!(
        parse_profile_arguments(&arguments(&uneven)),
        Err(ProfileArgError::NotPowerOfTwo)
    ));
}

#[test]
fn decimal_numerals_follow_unsigned_parsing() {
    assert_eq!(parse_decimal("42", u64::MAX), Some(42));
    assert_eq!(parse_decimal("+7", u64::MAX), Some(7));
    assert_eq!(parse_decimal("007", u64::MAX), Some(7));
    assert_eq!(parse_decimal("", u64::MAX), None);
    assert_eq!(parse_decimal("+", u64::MAX), None);
    assert_eq!(parse_decimal("1 2", u64::MAX), None);
    assert_eq!(parse_decimal("\u{0663}", u64::MAX), None);
    assert_eq!(parse_decimal("18446744073709551615", u64::MAX), Some(u64::MAX));
    assert_eq!(parse_decimal("18446744073709551616", u64::MAX), None);
    assert_eq!(parse_decimal("256", 255), None);
}

#[test]
fn geometry_needs_powers_of_two_that_divide() {
    assert!(is_power_of_two(1));
    assert!(is_power_of_two(65_536));
    assert!(!is_power_of_two(0));
    assert!(!is_power_of_two(48));
    assert!(check_geometry(1 << 20, 1 << 16, 1 << 14).is_none());
    assert!(matches!(
        check_geometry(3 << 16, 1 << 17, 1 << 14),
        Some(ProfileArgError::SizeNotPieceMultiple)
    ));
    assert!(matches!(
        check_geometry(1 << 20, 1 << 14, 1 << 16),
        Some(ProfileArgError::PieceNotChunkMultiple)
    ));
}

#[test]
fn each_piece_is_ready_once_after_its_last_chunk() {
    let mut completion = PieceCompletion::new(2, 3);
    assert_eq!(completion.piece_of(4), 1);
    assert_eq!(completion.chunk_written(4), None);
    assert_eq!(completion.chunk_written(0), None);
    assert_eq!(completion.chunk_written(3), None);
    assert_eq!(completion.chunk_written(5), Some(1));
    assert_eq!(completion.chunk_written(2), None);
    assert_eq!(completion.chunk_written(1), Some(0));
}

#[test]
fn datagrams_route_by_family_then_utp_shape() {
    let mut utp = vec![0u8; 20];
    utp[0] = 0x41;
    assert!(looks_like_utp(&utp));
    assert_eq!(route_datagram(true, &utp), DatagramRoute::Utp);
    assert_eq!(route_datagram(false, &utp), DatagramRoute::Drop);
    let mut bad_type = utp.clone();
    bad_type[0] = 0x51;
    assert!(!looks_like_utp(&bad_type));
    assert_eq!(route_datagram(true, &bad_type), DatagramRoute::Dht);
    assert!(!looks_like_utp(&utp[..19]));
    assert_eq!(route_datagram(true, b"d1:ad2:id20:"), DatagramRoute::Dht);
}

#[test]
fn staging_ranges_and_verification_reads() {
    assert!(matches!(block_end(10, 6, 16), Ok(16)));
    assert!(matches!(
        block_end(10, 7, 16),
        Err(StorageError::BlockOutOfRange { begin: 10, length: 7, file_length: 16 })
    ));
    assert!(matches!(
        block_end(u64::MAX, 2, u64::MAX),
        Err(StorageError::BlockOutOfRange { .. })
    ));
    assert_eq!(
        verification_chunks(100, 40_000),
        [(100, 16_384), (16_484, 16_384), (32_868, 7_232)]
    );
    assert_eq!(verification_chunks(0, 32_768), [(0, 16_384), (16_384, 16_384)]);
    assert!(verification_chunks(5, 0).is_empty());
}

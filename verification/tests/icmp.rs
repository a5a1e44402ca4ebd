use loophunter::icmp::{
    build_echo_v4, build_echo_v6, calc_checksum, parse_time_exceeded_v4, parse_time_exceeded_v6,
};

#[test]
fn checksum_of_nothing() {
    assert_eq!(calc_checksum(&[]), 0xffff);
}

#[test]
fn checksum_of_the_rfc_example() {
    // RFC 1071: the words 0001 f203 f4f5 f6f7 sum to ddf2.
    let data = [0x00, 0x01, 0xf2, 0x03, 0xf4, 0xf5, 0xf6, 0xf7];
    assert_eq!(calc_checksum(&data), !0xddf2);
}

#[test]
fn checksum_takes_an_odd_byte_as_a_high_byte() {
    assert_eq!(calc_checksum(&[0x12]), !0x1200);
    assert_eq!(calc_checksum(&[0x12, 0x34, 0x56]), !(0x1234 + 0x5600));
}

#[test]
fn checksum_folds_carries_twice() {
    assert_eq!(calc_checksum(&[0xff, 0xff, 0xff, 0xff, 0x00, 0x01]), !0x0001);
    assert_eq!(calc_checksum(&[0xff, 0xff]), 0);
}

#[test]
fn ipv4_probe() {
    let packet = build_echo_v4(0xabcd);
    assert_eq!(packet.len(), 64);
    assert_eq!(&packet[0..2], &[8, 0]);
    assert_eq!(&packet[4..8], &[0xab, 0xcd, 0, 0]);
    for i in 8..64 {
        assert_eq!(packet[i], i as u8);
    }
    let mut blank = packet.clone();
    blank[2] = 0;
    blank[3] = 0;
    let checksum = calc_checksum(&blank);
    assert_eq!(&packet[2..4], &checksum.to_be_bytes());
}

#[test]
fn ipv4_probes_have_a_valid_checksum() {
    for id in [0u16, 1, 0x00ff, 0xff00, 0x1234, 0xffff] {
        assert_eq!(calc_checksum(&build_echo_v4(id)), 0);
    }
}

#[test]
fn ipv6_probe_leaves_the_checksum_to_the_system() {
    let packet = build_echo_v6(0x0102);
    assert_eq!(packet.len(), 64);
    assert_eq!(&packet[0..8], &[128, 0, 0, 0, 1, 2, 0, 0]);
    assert_eq!(packet[63], 63);
}

/// A Time Exceeded packet from `router` about a probe for `target`.
fn exceeded_v4(router: [u8; 4], target: [u8; 4], id: u16, options: usize, quoted: usize) -> Vec<u8> {
    let mut d = vec![0u8; 20 + options];
    d[0] = 0x40 + (5 + options / 4) as u8;
    d[12..16].copy_from_slice(&router);
    d.extend_from_slice(&[11, 0, 0, 0, 0, 0, 0, 0]);
    let mut inner = vec![0u8; 20];
    inner[0] = 0x45;
    inner[9] = 1;
    inner[16..20].copy_from_slice(&target);
    d.extend_from_slice(&inner);
    d.extend_from_slice(&build_echo_v4(id)[..quoted]);
    d
}

#[test]
fn own_ipv4_probe_is_recognised() {
    let target = u32::from_be_bytes([198, 18, 0, 1]);
    let router = u32::from_be_bytes([10, 0, 0, 1]);
    for options in [0, 4, 40] {
        for quoted in [6, 8, 64] {
            let d = exceeded_v4([10, 0, 0, 1], [198, 18, 0, 1], 0x1234, options, quoted);
            assert_eq!(parse_time_exceeded_v4(&d, 0x1234), Some((target, router)));
        }
    }
}

#[test]
fn other_ipv4_packets_are_passed_over() {
    let good = exceeded_v4([10, 0, 0, 1], [198, 18, 0, 1], 0x1234, 0, 8);
    assert!(parse_time_exceeded_v4(&good, 0x1234).is_some());
    // Another session.
    assert_eq!(parse_time_exceeded_v4(&good, 0x1235), None);
    assert_eq!(parse_time_exceeded_v4(&good, 0x3412), None);
    // Cut off before the identifier.
    assert_eq!(parse_time_exceeded_v4(&good[..53], 0x1234), None);
    assert_eq!(parse_time_exceeded_v4(&[], 0x1234), None);
    assert_eq!(parse_time_exceeded_v4(&good[..19], 0x1234), None);
    assert_eq!(parse_time_exceeded_v4(&good[..27], 0x1234), None);
    assert_eq!(parse_time_exceeded_v4(&good[..47], 0x1234), None);
    // A field that is not as it has to be.
    for (at, value) in [
        (0, 0x65),  // not IPv4
        (0, 0x44),  // a header that is too short
        (20, 0),    // an echo reply
        (28, 0x44), // a quoted header that is too short
        (37, 17),   // a quoted UDP packet
        (48, 0),    // a quoted echo reply
    ] {
        let mut d = good.clone();
        d[at] = value;
        assert_eq!(parse_time_exceeded_v4(&d, 0x1234), None);
    }
}

#[test]
fn host_that_answers_for_itself_is_no_loop() {
    let d = exceeded_v4([198, 18, 0, 1], [198, 18, 0, 1], 7, 0, 64);
    assert_eq!(parse_time_exceeded_v4(&d, 7), None);
}

fn exceeded_v6(target: u128, id: u16, quoted: usize) -> Vec<u8> {
    let mut d = vec![3u8, 0, 0, 0, 0, 0, 0, 0];
    let mut inner = vec![0u8; 40];
    inner[6] = 58;
    inner[24..40].copy_from_slice(&target.to_be_bytes());
    d.extend_from_slice(&inner);
    d.extend_from_slice(&build_echo_v6(id)[..quoted]);
    d
}

#[test]
fn own_ipv6_probe_is_recognised() {
    let target = 0x2001_0db8_beef_0000_0000_0000_0000_0001u128;
    let router = 0x2001_0db8_0000_0000_0000_0000_0000_0001u128;
    for quoted in [8, 16, 64] {
        let d = exceeded_v6(target, 0xfedc, quoted);
        assert_eq!(parse_time_exceeded_v6(&d, Some(router), 0xfedc), Some((target, router)));
    }
}

#[test]
fn other_ipv6_messages_are_passed_over() {
    let target = 0x2001_0db8_beef_0000_0000_0000_0000_0001u128;
    let good = exceeded_v6(target, 0xfedc, 8);
    assert_eq!(parse_time_exceeded_v6(&good, Some(1), 0xfedc), Some((target, 1)));
    assert_eq!(parse_time_exceeded_v6(&good, None, 0xfedc), None);
    assert_eq!(parse_time_exceeded_v6(&good, Some(target), 0xfedc), None);
    assert_eq!(parse_time_exceeded_v6(&good, Some(1), 0xfedd), None);
    assert_eq!(parse_time_exceeded_v6(&good[..7], Some(1), 0xfedc), None);
    assert_eq!(parse_time_exceeded_v6(&good[..47], Some(1), 0xfedc), None);
    assert_eq!(parse_time_exceeded_v6(&good[..55], Some(1), 0xfedc), None);
    for (at, value) in [(0, 1), (14, 17), (48, 129)] {
        let mut d = good.clone();
        d[at] = value;
        assert_eq!(parse_time_exceeded_v6(&d, Some(1), 0xfedc), None);
    }
}

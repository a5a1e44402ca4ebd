use loophunter::ip::{Ip, Ipv6Net};
use loophunter::targets::{get_ipv6_delegated_targets, get_ipv6_subblock, power_of_two};

const BASE: u128 = 0x2001_0db8_beef_0000_0000_0000_0000_0000;

fn targets(addr: u128, prefix: u8) -> Vec<u128> {
    get_ipv6_delegated_targets(&Ipv6Net { addr, prefix })
        .into_iter()
        .map(|ip| match ip {
            Ip::V6(a) => a,
            Ip::V4(_) => panic!("an IPv4 target"),
        })
        .collect()
}

#[test]
fn powers() {
    assert_eq!(power_of_two(0), 1);
    assert_eq!(power_of_two(127), 1u128 << 127);
}

#[test]
fn single_address() {
    assert_eq!(targets(BASE + 5, 128), vec![BASE + 5]);
}

#[test]
fn two_addresses() {
    assert_eq!(targets(BASE + 5, 127), vec![BASE + 4, BASE + 5]);
}

#[test]
fn small_block_is_sampled() {
    assert_eq!(targets(BASE + 1, 126), vec![BASE + 1, BASE + 2, BASE + 3]);
    assert_eq!(
        targets(BASE + 77, 64),
        vec![BASE + 1, BASE + (1u128 << 63), BASE + u64::MAX as u128]
    );
    assert_eq!(
        targets(BASE, 56),
        vec![BASE + 1, BASE + (1u128 << 71), BASE + (1u128 << 72) - 1]
    );
}

#[test]
fn forty_eight_is_split_into_fifty_sixes() {
    let found = targets(BASE, 48);
    assert_eq!(found.len(), 3 * 256);
    assert_eq!(found[0], BASE + 1);
    assert_eq!(found[1], BASE + (1u128 << 71));
    assert_eq!(found[2], BASE + (1u128 << 72) - 1);
    assert_eq!(found[3], BASE + (1u128 << 72) + 1);
    assert_eq!(found[767], BASE + (1u128 << 80) - 1);
    assert!(found.windows(2).all(|w| w[0] < w[1]));
}

#[test]
fn thirty_two_is_split_into_forty_eights() {
    let start = 0x2001_0db8u128 << 96;
    let found = targets(BASE, 32);
    assert_eq!(found.len(), 3 * 65536);
    assert_eq!(found[0], start + 1);
    assert_eq!(found[3 * 65536 - 1], start + (1u128 << 96) - 1);
    assert!(found.windows(2).all(|w| w[0] < w[1]));
}

#[test]
fn larger_networks_are_represented_by_their_first_block() {
    let start = 0x2001_0db8u128 << 96;
    assert_eq!(
        targets(start, 31),
        vec![start + 1, start + (1u128 << 79), start + (1u128 << 80) - 1]
    );
    assert_eq!(targets(0, 0), vec![1, 1u128 << 79, (1u128 << 80) - 1]);
}

#[test]
fn top_of_the_address_space() {
    assert_eq!(targets(u128::MAX, 128), vec![u128::MAX]);
    assert_eq!(targets(u128::MAX, 48)[767], u128::MAX);
}

#[test]
fn sub_blocks() {
    let ip = Ip::V6(BASE + (3u128 << 72) + 9);
    assert_eq!(get_ipv6_subblock(ip, "2001:db8::/32"), "2001:db8:beef::/48");
    assert_eq!(get_ipv6_subblock(ip, "2001:db8:beef::/48"), "2001:db8:beef:300::/56");
    assert_eq!(get_ipv6_subblock(ip, "2001:db8:beef:300::/60"), "2001:db8:beef:300::/60");
    assert_eq!(get_ipv6_subblock(ip, "2001:db8:beef:300::9/128"), "2001:db8:beef:300::9/128");
}

#[test]
fn without_a_parent_the_address_stands_for_itself() {
    let ip = Ip::V6(BASE + 1);
    assert_eq!(get_ipv6_subblock(ip, "198.18.0.0/24"), "2001:db8:beef::1");
    assert_eq!(get_ipv6_subblock(ip, "nonsense"), "2001:db8:beef::1");
    assert_eq!(get_ipv6_subblock(Ip::V4(0xc612_0001), "2001:db8::/32"), "198.18.0.1");
}

#[test]
fn every_target_lies_in_the_sub_block_it_was_picked_from() {
    for (i, a) in targets(BASE, 48).into_iter().enumerate() {
        let block = format!("2001:db8:beef:{:x}::/56", (i / 3) * 0x100);
        let expected = if i / 3 == 0 { "2001:db8:beef::/56".to_string() } else { block };
        assert_eq!(get_ipv6_subblock(Ip::V6(a), "2001:db8:beef::/48"), expected);
    }
}

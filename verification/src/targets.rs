//! Which addresses of a network are probed.
use vstd::arithmetic::power2::pow2;
use vstd::prelude::*;

use crate::ip::{
    address_text, block_start, first_address_of, ip_text, ipv6_text, lemma_address_chars,
    parse_network, parsed_network, Ip, Ipv4Net, Ipv6Net, Network,
};
use crate::text::{decimal, lemma_decimal_is_digits, push_decimal};

verus! {

/// The length of the sub-blocks that a network of this prefix length is handed
/// out in: /48 and /56 blocks, or the network as a whole.
pub open spec fn sub_block_len(prefix: int) -> int {
    if prefix < 48 {
        48
    } else if prefix < 56 {
        56
    } else {
        prefix
    }
}

/// The first, middle and last usable address of the block of `2^bits` addresses
/// that begins at `start`.
pub open spec fn sample(start: int, bits: nat) -> Seq<int> {
    seq![start + 1, start + pow2((bits - 1) as nat), start + pow2(bits) - 1]
}

/// The addresses that stand for the IPv6 network `net`: a sample of each of its
/// sub-blocks, in ascending order. Where the sub-blocks are too many, the first
/// of them stands for all; where a block has no room for a sample, all of it is
/// taken.
pub open spec fn delegated(net: Ipv6Net) -> Seq<int> {
    let sub = sub_block_len(net.prefix as int);
    let bits = (128 - sub) as nat;
    if bits == 0 {
        seq![net.first()]
    } else if bits == 1 {
        seq![net.first(), net.first() + 1]
    } else if sub - net.prefix > 16 {
        sample(net.first(), bits)
    } else {
        Seq::new(
            3 * pow2((sub - net.prefix) as nat),
            |j: int| sample(net.first() + (j / 3) * pow2(bits), bits)[j % 3],
        )
    }
}

/// Whether probing `net` means probing `ip`: every address of an IPv4 network,
/// those that stand for it of an IPv6 network.
pub open spec fn probes(net: Network, ip: Ip) -> bool {
    match (net, ip) {
        (Network::V4(net), Ip::V4(a)) => net.first() <= a < net.first() + net.size(),
        (Network::V6(net), Ip::V6(a)) => delegated(net).contains(a as int),
        _ => false,
    }
}

/// `2^bits`.
pub fn power_of_two(bits: u8) -> (r: u128)
    requires
        bits < 128,
    ensures
        r == pow2(bits as nat),
{
    proof {
        lemma_shift_is_power(bits);
    }
    1u128 << bits
}

proof fn lemma_shift_is_power(bits: u8)
    requires
        bits < 128,
    ensures
        1u128 << bits == pow2(bits as nat),
    decreases bits,
{
    if bits == 0 {
        assert(1u128 << 0u8 == 1) by (bit_vector);
        vstd::arithmetic::power2::lemma2_to64();
    } else {
        let less = (bits - 1) as u8;
        lemma_shift_is_power(less);
        vstd::arithmetic::power2::lemma_pow2_unfold(bits as nat);
        assert(1u128 << bits == 2 * (1u128 << less)) by (bit_vector)
            requires
                0 < bits < 128,
                less == bits - 1,
        ;
    }
}

/// The number of IPv6 addresses.
pub proof fn lemma_address_space()
    ensures
        pow2(128) == u128::MAX + 1,
        pow2(32) == u32::MAX + 1,
{
    vstd::arithmetic::power2::lemma2_to64();
    vstd::arithmetic::power2::lemma_pow2_adds(64, 64);
    assert(0x1_0000_0000_0000_0000 * 0x1_0000_0000_0000_0000 == u128::MAX + 1) by (nonlinear_arith);
}

/// A block that begins inside the address space ends inside it.
pub proof fn lemma_block_in_space(a: int, bits: nat, space: nat)
    requires
        0 <= a < pow2(space),
        bits <= space,
    ensures
        0 <= block_start(a, bits) <= a < block_start(a, bits) + pow2(bits) <= pow2(space),
{
    let m = pow2(bits) as int;
    let q = pow2((space - bits) as nat) as int;
    vstd::arithmetic::power2::lemma_pow2_pos(bits);
    vstd::arithmetic::power2::lemma_pow2_adds(bits, (space - bits) as nat);
    assert(m * q == pow2(space));
    vstd::arithmetic::div_mod::lemma_fundamental_div_mod(a, m);
    assert(0 <= a % m < m) by (nonlinear_arith)
        requires
            m > 0,
    ;
    assert(a / m < q) by (nonlinear_arith)
        requires
            a < m * q,
            m > 0,
            a == m * (a / m) + a % m,
            0 <= a % m,
    ;
    assert(m * (a / m) + m <= m * q) by (nonlinear_arith)
        requires
            m > 0,
            a / m < q,
    ;
    assert(0 <= m * (a / m)) by (nonlinear_arith)
        requires
            m > 0,
            a >= 0,
    ;
}

/// Powers of two below the size of the address space, as the samples use them.
proof fn lemma_sample_bits(bits: nat)
    requires
        2 <= bits,
    ensures
        1 < pow2((bits - 1) as nat) < pow2(bits) - 1,
        pow2(bits) >= 4,
{
    vstd::arithmetic::power2::lemma_pow2_unfold(bits);
    vstd::arithmetic::power2::lemma_pow2_unfold((bits - 1) as nat);
    vstd::arithmetic::power2::lemma_pow2_pos((bits - 2) as nat);
}

/// Where sub-block `i` of a network lies.
proof fn lemma_sub_block(net: Ipv6Net, i: int)
    requires
        net.wf(),
        0 <= i < pow2((sub_block_len(net.prefix as int) - net.prefix) as nat),
    ensures
        ({
            let size = pow2((128 - sub_block_len(net.prefix as int)) as nat);
            0 <= net.first() <= net.first() + i * size <= net.first() + i * size + size
                <= net.first() + net.size() <= pow2(128)
        }),
{
    let sub = sub_block_len(net.prefix as int);
    let size = pow2((128 - sub) as nat) as int;
    let count = pow2((sub - net.prefix) as nat) as int;
    lemma_address_space();
    lemma_block_in_space(net.addr as int, (128 - net.prefix) as nat, 128);
    vstd::arithmetic::power2::lemma_pow2_adds((sub - net.prefix) as nat, (128 - sub) as nat);
    assert(count * size == net.size());
    assert(0 <= i * size && i * size + size <= count * size) by (nonlinear_arith)
        requires
            0 <= i < count,
            size >= 0,
    ;
}

/// Every probed address lies in its network, and each comes once, in ascending
/// order.
pub proof fn law_delegated_targets(net: Ipv6Net)
    requires
        net.wf(),
    ensures
        forall|j: int|
            0 <= j < delegated(net).len() ==> net.first() <= #[trigger] delegated(net)[j]
                < net.first() + net.size(),
        forall|j: int, k: int|
            0 <= j < k < delegated(net).len() ==> #[trigger] delegated(net)[j]
                < #[trigger] delegated(net)[k],
        0 <= net.first(),
        net.first() + net.size() <= pow2(128),
        delegated(net).len() > 0,
{
    let sub = sub_block_len(net.prefix as int);
    let bits = (128 - sub) as nat;
    let size = pow2(bits) as int;
    let s = delegated(net);
    vstd::arithmetic::power2::lemma2_to64();
    vstd::arithmetic::power2::lemma_pow2_pos((sub - net.prefix) as nat);
    lemma_sub_block(net, 0);
    if bits >= 2 {
        lemma_sample_bits(bits);
        if sub - net.prefix <= 16 {
            assert forall|j: int| 0 <= j < s.len() implies net.first() <= #[trigger] s[j]
                < net.first() + net.size() && net.first() + (j / 3) * size < s[j] < net.first() + (
            j / 3) * size + size by {
                lemma_sub_block(net, j / 3);
            }
            assert forall|j: int, k: int| 0 <= j < k < s.len() implies #[trigger] s[j]
                < #[trigger] s[k] by {
                if j / 3 < k / 3 {
                    assert((j / 3) * size + size <= (k / 3) * size) by (nonlinear_arith)
                        requires
                            j / 3 < k / 3,
                            size >= 0,
                    ;
                }
            }
        }
    }
}

/// Splits an IPv6 network into its sub-blocks and returns the first, middle and
/// last usable address of each.
pub fn get_ipv6_delegated_targets(net: &Ipv6Net) -> (r: Vec<Ip>)
    requires
        net.wf(),
    ensures
        r@ == delegated(*net).map_values(|a: int| Ip::V6(a as u128)),
{
    let start = first_address_of(*net);
    proof {
        law_delegated_targets(*net);
        lemma_address_space();
        vstd::arithmetic::power2::lemma2_to64();
    }
    let sub: u8 = if net.prefix < 48 {
        48
    } else if net.prefix < 56 {
        56
    } else {
        net.prefix
    };
    let bits: u8 = 128 - sub;
    let ghost expected = delegated(*net).map_values(|a: int| Ip::V6(a as u128));
    let mut targets: Vec<Ip> = Vec::new();
    if bits == 0 {
        targets.push(Ip::V6(start));
        assert(targets@ =~= expected);
        return targets;
    }
    if bits == 1 {
        assert(delegated(*net)[1] == start + 1);
        targets.push(Ip::V6(start));
        targets.push(Ip::V6(start + 1));
        assert(targets@ =~= expected);
        return targets;
    }
    let half = power_of_two(bits - 1);
    let size = power_of_two(bits);
    proof {
        lemma_sample_bits(bits as nat);
    }
    if sub - net.prefix > 16 {
        assert(delegated(*net)[2] == start + size - 1);
        targets.push(Ip::V6(start + 1));
        targets.push(Ip::V6(start + half));
        targets.push(Ip::V6(start + (size - 1)));
        assert(targets@ =~= expected);
        return targets;
    }
    let count = power_of_two(sub - net.prefix);
    let mut i: u128 = 0;
    while i < count
        invariant
            net.wf(),
            2 <= bits == 128 - sub,
            sub == sub_block_len(net.prefix as int),
            sub - net.prefix <= 16,
            start == net.first(),
            half == pow2((bits - 1) as nat),
            size == pow2(bits as nat),
            count == pow2((sub - net.prefix) as nat),
            i <= count,
            1 < half < size - 1,
            expected == delegated(*net).map_values(|a: int| Ip::V6(a as u128)),
            expected.len() == 3 * count,
            targets@ == expected.take(3 * i),
        decreases count - i,
    {
        proof {
            lemma_sub_block(*net, i as int);
            lemma_address_space();
            assert(0 <= i * size);
        }
        let base = start + i * size;
        targets.push(Ip::V6(base + 1));
        targets.push(Ip::V6(base + half));
        targets.push(Ip::V6(base + (size - 1)));
        proof {
            assert((3 * i) / 3 == i && (3 * i + 1) / 3 == i && (3 * i + 2) / 3 == i);
            assert((3 * i) % 3 == 0 && (3 * i + 1) % 3 == 1 && (3 * i + 2) % 3 == 2);
            assert(expected[3 * i] == Ip::V6((base + 1) as u128));
            assert(expected[3 * i + 1] == Ip::V6((base + half) as u128));
            assert(expected[3 * i + 2] == Ip::V6((base + (size - 1)) as u128));
            assert(targets@ =~= expected.take(3 * i + 3));
        }
        i = i + 1;
    }
    assert(expected.take(3 * count) =~= expected);
    targets
}

/// The sub-block of `parent` that holds `target`, as text; where there is none,
/// `target` itself.
pub open spec fn sub_block_text(target: Ip, parent: Option<Network>) -> Seq<char> {
    match (target, parent) {
        (Ip::V6(a), Some(Network::V6(net))) => {
            let len = sub_block_len(net.prefix as int);
            ipv6_text(block_start(a as int, (128 - len) as nat) as u128) + "/"@ + decimal(
                len as nat,
            )
        },
        _ => ip_text(target),
    }
}

/// The sub-block of `parent` that holds `target`, as text; where there is none,
/// `target` itself. There is no blank in it.
pub fn sub_block_in(target: Ip, parent: Option<Network>) -> (r: String)
    requires
        parent matches Some(net) ==> net.wf(),
    ensures
        r@ == sub_block_text(target, parent),
        !r@.contains(' '),
{
    let (a, net) = match (target, parent) {
        (Ip::V6(a), Some(Network::V6(net))) => (a, net),
        _ => {
            let r = address_text(target);
            proof {
                lemma_address_chars(r@);
            }
            return r;
        },
    };
    let len: u8 = if net.prefix < 48 {
        48
    } else if net.prefix < 56 {
        56
    } else {
        net.prefix
    };
    let size = power_of_two(128 - len);
    proof {
        vstd::arithmetic::power2::lemma_pow2_pos((128 - len) as nat);
        lemma_address_space();
        lemma_block_in_space(a as int, (128 - len) as nat, 128);
    }
    let mut r = address_text(Ip::V6(a - a % size));
    proof {
        reveal_strlit("/");
        lemma_address_chars(r@);
        lemma_decimal_is_digits(len as nat);
        let text = r@ + "/"@ + decimal(len as nat);
        assert forall|i: int| 0 <= i < text.len() implies text[i] != ' ' by {
            if i < r@.len() {
                assert(text[i] == r@[i]);
            } else if i > r@.len() {
                assert(text[i] == decimal(len as nat)[i - r@.len() - 1]);
            }
        }
    }
    r.append("/");
    push_decimal(&mut r, len as u64);
    r
}

/// Returns the IPv6 sub-block that holds `target_ip`, as it is handed out of
/// the network `parent_prefix_str`.
pub fn get_ipv6_subblock(target_ip: Ip, parent_prefix_str: &str) -> (r: String)
    ensures
        r@ == sub_block_text(target_ip, parsed_network(parent_prefix_str@)),
        !r@.contains(' '),
{
    sub_block_in(target_ip, parse_network(parent_prefix_str).ok())
}

/// The sub-block of a probed address is the one that it was picked from: the
/// first three addresses belong to the first sub-block, the next three to the
/// second, and so on.
pub proof fn law_targets_lie_in_their_sub_blocks(net: Ipv6Net, j: int)
    requires
        net.wf(),
        0 <= j < delegated(net).len(),
    ensures
        ({
            let bits = (128 - sub_block_len(net.prefix as int)) as nat;
            block_start(delegated(net)[j], bits) == net.first() + (j / 3) * pow2(bits)
        }),
{
    let sub = sub_block_len(net.prefix as int);
    let bits = (128 - sub) as nat;
    let size = pow2(bits) as int;
    let count = pow2((sub - net.prefix) as nat) as int;
    let whole = net.size() as int;
    vstd::arithmetic::power2::lemma2_to64();
    vstd::arithmetic::power2::lemma_pow2_pos(bits);
    vstd::arithmetic::power2::lemma_pow2_pos((sub - net.prefix) as nat);
    vstd::arithmetic::power2::lemma_pow2_adds((sub - net.prefix) as nat, bits);
    vstd::arithmetic::power2::lemma_pow2_pos((128 - net.prefix) as nat);
    assert(whole == count * size);
    // The network begins at a multiple of the size of a sub-block.
    let q = net.addr as int / whole;
    vstd::arithmetic::div_mod::lemma_fundamental_div_mod(net.addr as int, whole);
    assert(net.first() == whole * q);
    if bits >= 2 {
        lemma_sample_bits(bits);
    }
    if bits < 2 || sub - net.prefix > 16 {
        assert((j / 3) * size == 0) by (nonlinear_arith)
            requires
                0 <= j < 3,
        ;
    }
    let x = delegated(net)[j] - (net.first() + (j / 3) * size);
    assert(0 <= x < size);
    let n = count * q + j / 3;
    assert(net.first() + (j / 3) * size == size * n) by (nonlinear_arith)
        requires
            net.first() == whole * q,
            whole == count * size,
            n == count * q + j / 3,
    ;
    vstd::arithmetic::div_mod::lemma_mod_multiples_vanish(n, x, size);
    vstd::arithmetic::div_mod::lemma_small_mod(x as nat, size as nat);
}

/// Where the IPv6 network of `addr` with this prefix length begins.
proof fn lemma_network_start(net: Ipv6Net)
    requires
        net.wf(),
    ensures
        pow2((128 - net.prefix) as nat) > 0,
        net.first() == (net.addr as int / (pow2((128 - net.prefix) as nat) as int)) * pow2(
            (128 - net.prefix) as nat,
        ),
{
    let size = pow2((128 - net.prefix) as nat) as int;
    vstd::arithmetic::power2::lemma_pow2_pos((128 - net.prefix) as nat);
    vstd::arithmetic::div_mod::lemma_fundamental_div_mod(net.addr as int, size);
    assert(size * (net.addr as int / size) == (net.addr as int / size) * size) by (nonlinear_arith);
}

/// Every sub-block of a network is probed, at its first, its middle and its last
/// usable address: a network shorter than /48 falls into /48 blocks, one shorter
/// than /56 into /56 blocks, any other is a block of its own. That holds of every
/// network with at most 65536 sub-blocks, and three addresses of each are all
/// that is probed.
pub proof fn law_every_sub_block_is_sampled(net: Ipv6Net, sub: int, i: int)
    requires
        net.wf(),
        sub == if net.prefix < 48 {
            48
        } else if net.prefix < 56 {
            56
        } else {
            net.prefix as int
        },
        sub <= 126,
        sub - net.prefix <= 16,
        0 <= i < pow2((sub - net.prefix) as nat),
    ensures
        ({
            let whole = pow2((128 - net.prefix) as nat) as int;
            let start = (net.addr as int / whole) * whole + i * pow2((128 - sub) as nat);
            &&& delegated(net).contains(start + 1)
            &&& delegated(net).contains(start + pow2((127 - sub) as nat))
            &&& delegated(net).contains(start + pow2((128 - sub) as nat) - 1)
        }),
        delegated(net).len() == 3 * pow2((sub - net.prefix) as nat),
{
    lemma_network_start(net);
    let s = delegated(net);
    let bits = (128 - sub) as nat;
    let start = net.first() + i * pow2(bits);
    assert((3 * i) / 3 == i && (3 * i + 1) / 3 == i && (3 * i + 2) / 3 == i);
    assert((3 * i) % 3 == 0 && (3 * i + 1) % 3 == 1 && (3 * i + 2) % 3 == 2);
    assert(s[3 * i] == start + 1);
    assert(s[3 * i + 1] == start + pow2((127 - sub) as nat));
    assert(s[3 * i + 2] == start + pow2(bits) - 1);
}

/// Only such addresses are probed: those of the network that are the first, the
/// middle or the last usable address of a sub-block.
pub proof fn law_only_samples_are_probed(net: Ipv6Net, sub: int, x: int)
    requires
        net.wf(),
        sub == if net.prefix < 48 {
            48
        } else if net.prefix < 56 {
            56
        } else {
            net.prefix as int
        },
        sub <= 126,
        sub - net.prefix <= 16,
    ensures
        delegated(net).contains(x) ==> {
            let whole = pow2((128 - net.prefix) as nat) as int;
            let size = pow2((128 - sub) as nat) as int;
            &&& x / whole == net.addr as int / whole
            &&& x % size == 1 || x % size == pow2((127 - sub) as nat) || x % size == size - 1
        },
{
    if delegated(net).contains(x) {
        let whole = pow2((128 - net.prefix) as nat) as int;
        let bits = (128 - sub) as nat;
        let size = pow2(bits) as int;
        let j = choose|j: int| 0 <= j < delegated(net).len() && delegated(net)[j] == x;
        lemma_network_start(net);
        law_delegated_targets(net);
        law_targets_lie_in_their_sub_blocks(net, j);
        lemma_sample_bits(bits);
        vstd::arithmetic::power2::lemma_pow2_pos(bits);
        let q = net.addr as int / whole;
        let y = x - q * whole;
        assert(0 <= y < whole);
        assert(q * whole == whole * q) by (nonlinear_arith);
        vstd::arithmetic::div_mod::lemma_fundamental_div_mod_converse(x, whole, q, y);
        assert(x % size == x - (net.first() + (j / 3) * size));
    }
}

/// A network with more sub-blocks than that is probed at its first /48 block
/// only.
pub proof fn law_first_block_stands_for_many(net: Ipv6Net)
    requires
        net.prefix < 32,
    ensures
        ({
            let whole = pow2((128 - net.prefix) as nat) as int;
            let start = (net.addr as int / whole) * whole;
            delegated(net) == seq![start + 1, start + pow2(79), start + pow2(80) - 1]
        }),
{
    lemma_network_start(net);
}

/// A network of one address is probed at that address, and one of two addresses
/// at both.
pub proof fn law_smallest_networks_are_probed_whole(net: Ipv6Net)
    ensures
        net.prefix == 128 ==> delegated(net) == seq![net.addr as int],
        net.prefix == 127 ==> delegated(net) == seq![
            net.addr as int - net.addr as int % 2,
            net.addr as int - net.addr as int % 2 + 1,
        ],
{
    vstd::arithmetic::power2::lemma2_to64();
    if net.prefix == 128 {
        assert(net.first() == net.addr);
    }
}

/// Probing an IPv4 network means probing every address that has its leading bits
/// in common with it, and no other; and no network means probing addresses of the
/// other family.
pub proof fn law_ipv4_networks_are_probed_whole(net: Ipv4Net, a: u32, six: Ipv6Net, b: u128)
    requires
        net.wf(),
    ensures
        probes(Network::V4(net), Ip::V4(a)) <==> a as int / (pow2((32 - net.prefix) as nat) as int)
            == net.addr as int / (pow2((32 - net.prefix) as nat) as int),
        !probes(Network::V4(net), Ip::V6(b)),
        !probes(Network::V6(six), Ip::V4(a)),
        probes(Network::V6(six), Ip::V6(b)) <==> delegated(six).contains(b as int),
{
    let size = pow2((32 - net.prefix) as nat) as int;
    let (x, y) = (a as int, net.addr as int);
    vstd::arithmetic::power2::lemma_pow2_pos((32 - net.prefix) as nat);
    vstd::arithmetic::div_mod::lemma_fundamental_div_mod(x, size);
    vstd::arithmetic::div_mod::lemma_fundamental_div_mod(y, size);
    vstd::arithmetic::div_mod::lemma_mod_bound(x, size);
    assert(net.first() == size * (y / size));
    if net.first() <= x < net.first() + size {
        let r = x - net.first();
        assert(size * (y / size) == (y / size) * size) by (nonlinear_arith);
        vstd::arithmetic::div_mod::lemma_fundamental_div_mod_converse(x, size, y / size, r);
    }
}

/// The block that an IPv6 address is shown in is the one that holds it: it begins
/// at a multiple of its size, and is a /48 of a network shorter than that, a /56
/// of one shorter than that, and otherwise as long as the network. Any other
/// address is shown as it is.
pub proof fn law_sub_block_holds_its_address(a: u128, net: Ipv6Net, sub: int)
    requires
        net.wf(),
        sub == if net.prefix < 48 {
            48
        } else if net.prefix < 56 {
            56
        } else {
            net.prefix as int
        },
    ensures
        exists|start: u128|
            start <= a < start + pow2((128 - sub) as nat) && start as int % (pow2(
                (128 - sub) as nat,
            ) as int) == 0 && sub_block_text(Ip::V6(a), Some(Network::V6(net)))
                == #[trigger] ipv6_text(start) + "/"@ + decimal(sub as nat),
        sub_block_text(Ip::V6(a), None) == ipv6_text(a),
        forall|four: Ipv4Net| #[trigger]
            sub_block_text(Ip::V6(a), Some(Network::V4(four))) == ipv6_text(a),
        forall|b: u32, parent: Option<Network>| #[trigger]
            sub_block_text(Ip::V4(b), parent) == ip_text(Ip::V4(b)),
{
    let bits = (128 - sub) as nat;
    let size = pow2(bits) as int;
    lemma_address_space();
    lemma_block_in_space(a as int, bits, 128);
    vstd::arithmetic::power2::lemma_pow2_pos(bits);
    let start = block_start(a as int, bits);
    vstd::arithmetic::div_mod::lemma_fundamental_div_mod(a as int, size);
    assert(start == (a as int / size) * size) by (nonlinear_arith)
        requires
            a as int == size * (a as int / size) + a as int % size,
            start == a as int - a as int % size,
    ;
    vstd::arithmetic::div_mod::lemma_mod_multiples_basic(a as int / size, size);
    assert(sub_block_text(Ip::V6(a), Some(Network::V6(net))) == ipv6_text(start as u128) + "/"@
        + decimal(sub as nat));
}

} // verus!

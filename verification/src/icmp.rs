//! ICMP and ICMPv6 messages: the probes that are sent, and the Time Exceeded
//! answers that are listened for.
use vstd::prelude::*;

verus! {

/// ICMP message types that matter here.
pub const ECHO_REQUEST_V4: u8 = 8;

pub const TIME_EXCEEDED_V4: u8 = 11;

pub const ECHO_REQUEST_V6: u8 = 128;

pub const TIME_EXCEEDED_V6: u8 = 3;

/// IP protocol numbers of ICMP and ICMPv6.
pub const PROTOCOL_ICMP_V4: u8 = 1;

pub const PROTOCOL_ICMP_V6: u8 = 58;

/// Length of a probe in bytes.
pub const PROBE_LEN: usize = 64;

/// The sum of the 16-bit big-endian words of `data`; a last odd byte counts as
/// the high byte of a word.
pub open spec fn word_sum(data: Seq<u8>) -> nat
    decreases data.len(),
{
    if data.len() == 0 {
        0
    } else {
        let last = data.last() as nat;
        word_sum(data.drop_last()) + if (data.len() - 1) % 2 == 0 {
            256 * last
        } else {
            last
        }
    }
}

/// `sum` in 16-bit one's complement arithmetic: carries out of the high bit are
/// added in again at the low end.
pub open spec fn ones_complement_sum(sum: nat) -> nat {
    if sum == 0 {
        0
    } else {
        ((sum - 1) % 65535 + 1) as nat
    }
}

/// The Internet Checksum (RFC 1071) of `data`.
pub open spec fn checksum_of(data: Seq<u8>) -> u16 {
    (65535 - ones_complement_sum(word_sum(data))) as u16
}

proof fn lemma_word_sum_monotone(data: Seq<u8>, n: int)
    requires
        0 <= n <= data.len(),
    ensures
        word_sum(data.take(n)) <= word_sum(data),
    decreases data.len(),
{
    if n == data.len() {
        assert(data.take(n) =~= data);
    } else {
        assert(data.drop_last().take(n) =~= data.take(n));
        lemma_word_sum_monotone(data.drop_last(), n);
    }
}

proof fn lemma_fold_keeps_sum(sum: nat)
    ensures
        ones_complement_sum(sum % 65536 + sum / 65536) == ones_complement_sum(sum),
        sum >= 65536 ==> 0 < sum % 65536 + sum / 65536 < sum,
{
    let h = sum / 65536;
    let next = sum % 65536 + h;
    assert(next == sum - h * 65535);
    if sum > 0 {
        assert(next > 0);
        vstd::arithmetic::div_mod::lemma_mod_multiples_vanish(h as int, next - 1, 65535);
        assert(65535 * h + (next - 1) == sum - 1);
    }
}

/// Calculates the Internet Checksum (RFC 1071) of `data`.
pub fn calc_checksum(data: &[u8]) -> (r: u16)
    requires
        word_sum(data@) <= u32::MAX,
    ensures
        r == checksum_of(data@),
{
    let mut sum: u32 = 0;
    let mut i: usize = 0;
    while data.len() - i >= 2
        invariant
            i <= data@.len(),
            i % 2 == 0,
            sum == word_sum(data@.take(i as int)),
            word_sum(data@) <= u32::MAX,
        decreases data@.len() - i,
    {
        proof {
            let one = data@.take(i + 1);
            let two = data@.take(i + 2);
            assert(one.drop_last() =~= data@.take(i as int));
            assert(two.drop_last() =~= one);
            assert(word_sum(one) == sum + 256 * data@[i as int]);
            assert(word_sum(two) == word_sum(one) + data@[i + 1]);
            lemma_word_sum_monotone(data@, i + 2);
        }
        sum = sum + (data[i] as u32 * 256 + data[i + 1] as u32);
        i = i + 2;
    }
    if i < data.len() {
        proof {
            assert(data@.take(i + 1).drop_last() =~= data@.take(i as int));
            lemma_word_sum_monotone(data@, i + 1);
            assert(data@.take(i + 1) =~= data@);
        }
        sum = sum + data[i] as u32 * 256;
    } else {
        assert(data@.take(i as int) =~= data@);
    }
    let ghost total: nat = sum as nat;
    while sum >> 16 != 0
        invariant
            ones_complement_sum(sum as nat) == ones_complement_sum(total),
        decreases sum,
    {
        assert(sum >> 16 == sum / 65536 && sum & 0xffff == sum % 65536) by (bit_vector);
        proof {
            lemma_fold_keeps_sum(sum as nat);
        }
        sum = (sum & 0xffff) + (sum >> 16);
    }
    assert(sum >> 16 == 0 ==> sum <= 0xffff) by (bit_vector);
    assert(ones_complement_sum(sum as nat) == sum);
    let r = !sum as u16;
    assert(sum <= 0xffff ==> (!sum) as u16 == 0xffff - sum) by (bit_vector);
    r
}

/// `data` with `word` written, high byte first, at position `at`.
pub open spec fn with_word(data: Seq<u8>, at: int, word: u16) -> Seq<u8> {
    data.update(at, (word / 256) as u8).update(at + 1, (word % 256) as u8)
}

/// Writing a word over a zero word adds it to the sum of the words.
proof fn lemma_word_sum_with_word(data: Seq<u8>, at: int, word: u16)
    requires
        0 <= at,
        at + 2 <= data.len(),
        at % 2 == 0,
        data[at] == 0,
        data[at + 1] == 0,
    ensures
        word_sum(with_word(data, at, word)) == word_sum(data) + word,
    decreases data.len(),
{
    let full = with_word(data, at, word);
    if at + 2 == data.len() {
        assert(full.drop_last().drop_last() =~= data.drop_last().drop_last());
        assert(word_sum(full) == word_sum(full.drop_last()) + word % 256);
        assert(word_sum(full.drop_last()) == word_sum(full.drop_last().drop_last()) + 256 * (word
            / 256));
        assert(word_sum(data) == word_sum(data.drop_last()));
        assert(word_sum(data.drop_last()) == word_sum(data.drop_last().drop_last()));
    } else {
        assert(full.drop_last() =~= with_word(data.drop_last(), at, word));
        lemma_word_sum_with_word(data.drop_last(), at, word);
    }
}

/// A message that carries its own checksum, in a word that was zero when the
/// checksum was taken, has checksum zero: a receiver can check it by summing
/// all of it.
pub proof fn law_checksummed_message_sums_to_zero(data: Seq<u8>, at: int)
    requires
        0 <= at,
        at + 2 <= data.len(),
        at % 2 == 0,
        data[at] == 0,
        data[at + 1] == 0,
    ensures
        checksum_of(with_word(data, at, checksum_of(data))) == 0,
{
    let sum = word_sum(data);
    let c = checksum_of(data);
    lemma_word_sum_with_word(data, at, c);
    if sum > 0 {
        let q = (sum - 1) / 65535;
        assert(sum + c == 65535 * (q + 1));
        vstd::arithmetic::div_mod::lemma_mod_multiples_vanish(q, 65534, 65535);
        assert((sum + c - 1) % 65535 == 65534);
    }
}

/// An echo request before its checksum is filled in: type, code 0, a zero
/// checksum, the identifier, sequence number 0, and bytes that count upwards.
pub open spec fn blank_echo(kind: u8, id: u16) -> Seq<u8> {
    Seq::new(
        PROBE_LEN as nat,
        |i: int|
            if i == 0 {
                kind
            } else if i == 4 {
                (id / 256) as u8
            } else if i == 5 {
                (id % 256) as u8
            } else if i >= 8 {
                i as u8
            } else {
                0
            },
    )
}

/// The ICMP echo request that probes an IPv4 target.
pub open spec fn echo_v4(id: u16) -> Seq<u8> {
    with_word(blank_echo(ECHO_REQUEST_V4, id), 2, checksum_of(blank_echo(ECHO_REQUEST_V4, id)))
}

/// The ICMPv6 echo request that probes an IPv6 target. Its checksum is zero:
/// the operating system fills it in.
pub open spec fn echo_v6(id: u16) -> Seq<u8> {
    blank_echo(ECHO_REQUEST_V6, id)
}

fn build_blank_echo(kind: u8, id: u16) -> (packet: Vec<u8>)
    ensures
        packet@ == blank_echo(kind, id),
{
    let mut packet: Vec<u8> = Vec::with_capacity(PROBE_LEN);
    let high = (id >> 8) as u8;
    let low = (id & 0xff) as u8;
    assert((id >> 8) as u8 == id / 256 && (id & 0xff) as u8 == id % 256) by (bit_vector);
    packet.push(kind);
    packet.push(0);
    packet.push(0);
    packet.push(0);
    packet.push(high);
    packet.push(low);
    packet.push(0);
    packet.push(0);
    let mut i: usize = 8;
    while i < PROBE_LEN
        invariant
            8 <= i <= PROBE_LEN,
            packet@ == blank_echo(kind, id).take(i as int),
        decreases PROBE_LEN - i,
    {
        packet.push(i as u8);
        assert(packet@ =~= blank_echo(kind, id).take(i + 1));
        i = i + 1;
    }
    assert(packet@ =~= blank_echo(kind, id));
    packet
}

proof fn lemma_word_sum_bound(data: Seq<u8>)
    ensures
        word_sum(data) <= 65280 * data.len(),
    decreases data.len(),
{
    if data.len() > 0 {
        lemma_word_sum_bound(data.drop_last());
    }
}

/// Builds the probe for an IPv4 target, checksum included.
pub fn build_echo_v4(id: u16) -> (packet: Vec<u8>)
    ensures
        packet@ == echo_v4(id),
{
    let mut packet = build_blank_echo(ECHO_REQUEST_V4, id);
    proof {
        lemma_word_sum_bound(packet@);
    }
    let checksum = calc_checksum(packet.as_slice());
    assert((checksum >> 8) as u8 == checksum / 256 && (checksum & 0xff) as u8 == checksum % 256)
        by (bit_vector);
    packet.set(2, (checksum >> 8) as u8);
    packet.set(3, (checksum & 0xff) as u8);
    packet
}

/// Builds the probe for an IPv6 target.
pub fn build_echo_v6(id: u16) -> (packet: Vec<u8>)
    ensures
        packet@ == echo_v6(id),
{
    build_blank_echo(ECHO_REQUEST_V6, id)
}

/// Whatever the identifier, an IPv4 probe leaves with a valid checksum.
pub proof fn law_probe_checksum_is_valid(id: u16)
    ensures
        checksum_of(echo_v4(id)) == 0,
{
    law_checksummed_message_sums_to_zero(blank_echo(ECHO_REQUEST_V4, id), 2);
}

/// The four bytes from `at` on, high byte first.
pub open spec fn be_u32(d: Seq<u8>, at: int) -> u32 {
    (d[at] * 0x100_0000 + d[at + 1] * 0x1_0000 + d[at + 2] * 0x100 + d[at + 3]) as u32
}

/// The sixteen bytes from `at` on, high byte first.
pub open spec fn be_u128(d: Seq<u8>, at: int) -> u128 {
    (be_u32(d, at) * 0x1_0000_0000_0000_0000_0000_0000 + be_u32(d, at + 4)
        * 0x1_0000_0000_0000_0000 + be_u32(d, at + 8) * 0x1_0000_0000 + be_u32(
        d,
        at + 12,
    )) as u128
}

fn read_u32(d: &[u8], at: usize) -> (r: u32)
    requires
        at + 4 <= d@.len(),
    ensures
        r == be_u32(d@, at as int),
{
    d[at] as u32 * 0x100_0000 + d[at + 1] as u32 * 0x1_0000 + d[at + 2] as u32 * 0x100 + d[at
        + 3] as u32
}

fn read_u128(d: &[u8], at: usize) -> (r: u128)
    requires
        at + 16 <= d@.len(),
    ensures
        r == be_u128(d@, at as int),
{
    assert(d@.len() <= usize::MAX) by {
        let n = d.len();
    }
    read_u32(d, at) as u128 * 0x1_0000_0000_0000_0000_0000_0000 + read_u32(d, at + 4) as u128
        * 0x1_0000_0000_0000_0000 + read_u32(d, at + 8) as u128 * 0x1_0000_0000 + read_u32(
        d,
        at + 12,
    ) as u128
}

/// The bytes at `at` and `at + 1` are the identifier `id`.
pub open spec fn carries_id(d: Seq<u8>, at: int, id: u16) -> bool {
    d[at] == id / 256 && d[at + 1] == id % 256
}

/// Length in bytes of the IPv4 header that starts at `at`.
pub open spec fn header_len(d: Seq<u8>, at: int) -> int {
    4 * (d[at] % 16)
}

/// `d`, an IPv4 packet as a raw socket delivers it, is a Time Exceeded message
/// about an echo request with identifier `id`, all the fields that tell so
/// being there.
pub open spec fn answers_probe_v4(d: Seq<u8>, id: u16) -> bool {
    let outer = header_len(d, 0);
    let inner = outer + 8;
    let echo = inner + header_len(d, inner);
    &&& d.len() >= 20
    &&& d[0] / 16 == 4
    &&& outer >= 20
    &&& d.len() >= inner + 20
    &&& d[outer] == TIME_EXCEEDED_V4
    &&& d[inner + 9] == PROTOCOL_ICMP_V4
    &&& header_len(d, inner) >= 20
    &&& d.len() >= echo + 6
    &&& d[echo] == ECHO_REQUEST_V4
    &&& carries_id(d, echo + 4, id)
}

/// The destination of the echo request that `d` speaks of.
pub open spec fn probed_v4(d: Seq<u8>) -> u32 {
    be_u32(d, header_len(d, 0) + 24)
}

/// The router that sent `d`.
pub open spec fn sender_v4(d: Seq<u8>) -> u32 {
    be_u32(d, 12)
}

/// What `d` tells of a loop: the probed address, and the router that gave up on
/// the probe. A host that answers for itself is no loop.
pub open spec fn loop_report_v4(d: Seq<u8>, id: u16) -> Option<(u32, u32)> {
    if answers_probe_v4(d, id) && sender_v4(d) != probed_v4(d) {
        Some((probed_v4(d), sender_v4(d)))
    } else {
        None
    }
}

/// Reads an IPv4 packet from a raw socket: the probed address and the router
/// that reported its loop, if that is what the packet is about.
pub fn parse_time_exceeded_v4(data: &[u8], id: u16) -> (r: Option<(u32, u32)>)
    ensures
        r == loop_report_v4(data@, id),
{
    let size = data.len();
    if size < 20 {
        return None;
    }
    let first = data[0];
    assert(first & 0x0f == first % 16 && first >> 4 == first / 16) by (bit_vector);
    let outer_words = first & 0x0f;
    if first >> 4 != 4 || outer_words < 5 {
        return None;
    }
    let outer = (outer_words * 4) as usize;
    if size < outer + 8 {
        return None;
    }
    if data[outer] != TIME_EXCEEDED_V4 {
        return None;
    }
    let inner: usize = outer + 8;
    if size < inner + 20 {
        return None;
    }
    if data[inner + 9] != PROTOCOL_ICMP_V4 {
        return None;
    }
    let target = read_u32(data, inner + 16);
    let router = read_u32(data, 12);
    if router == target {
        return None;
    }
    let second = data[inner];
    assert(second & 0x0f == second % 16) by (bit_vector);
    let inner_words = second & 0x0f;
    if inner_words < 5 {
        return None;
    }
    let echo: usize = inner + (inner_words * 4) as usize;
    if size < echo + 6 {
        return None;
    }
    if data[echo] != ECHO_REQUEST_V4 {
        return None;
    }
    assert((id >> 8) as u8 == id / 256 && (id & 0xff) as u8 == id % 256) by (bit_vector);
    if data[echo + 4] != (id >> 8) as u8 || data[echo + 5] != (id & 0xff) as u8 {
        return None;
    }
    Some((target, router))
}

/// `d`, an ICMPv6 message as a raw socket delivers it, without the outer IPv6
/// header, is a Time Exceeded message about an echo request with identifier
/// `id`, all the fields of that request being there.
pub open spec fn answers_probe_v6(d: Seq<u8>, id: u16) -> bool {
    &&& d.len() >= 56
    &&& d[0] == TIME_EXCEEDED_V6
    &&& d[14] == PROTOCOL_ICMP_V6
    &&& d[48] == ECHO_REQUEST_V6
    &&& carries_id(d, 52, id)
}

/// The destination of the echo request that `d` speaks of.
pub open spec fn probed_v6(d: Seq<u8>) -> u128 {
    be_u128(d, 32)
}

/// What `d`, received from the address `from`, tells of a loop: the probed
/// address, and the router that gave up on the probe. A host that answers for
/// itself is no loop.
pub open spec fn loop_report_v6(d: Seq<u8>, from: Option<u128>, id: u16) -> Option<(u128, u128)> {
    match from {
        Some(router) => if answers_probe_v6(d, id) && router != probed_v6(d) {
            Some((probed_v6(d), router))
        } else {
            None
        },
        None => None,
    }
}

/// Reads an ICMPv6 message that came from the IPv6 address `from` (`None` where
/// the sender has none): the probed address and the router that reported its
/// loop, if that is what the message is about.
pub fn parse_time_exceeded_v6(data: &[u8], from: Option<u128>, id: u16) -> (r: Option<
    (u128, u128),
>)
    ensures
        r == loop_report_v6(data@, from, id),
{
    let size = data.len();
    if size < 8 {
        return None;
    }
    if data[0] != TIME_EXCEEDED_V6 {
        return None;
    }
    if size < 48 || data[14] != PROTOCOL_ICMP_V6 {
        return None;
    }
    let target = read_u128(data, 32);
    let router = match from {
        Some(router) => router,
        None => return None,
    };
    if router == target {
        return None;
    }
    if size < 56 {
        return None;
    }
    if data[48] != ECHO_REQUEST_V6 {
        return None;
    }
    assert((id >> 8) as u8 == id / 256 && (id & 0xff) as u8 == id % 256) by (bit_vector);
    if data[52] != (id >> 8) as u8 || data[53] != (id & 0xff) as u8 {
        return None;
    }
    Some((target, router))
}

/// A Time Exceeded message that quotes the header of a probe and at least the
/// first bytes of the probe itself is recognised, and read back as sent: for
/// any outer header, any quoted header, and any length of the quotation that
/// reaches the identifier.
pub proof fn law_own_probe_is_recognised_v4(
    outer: Seq<u8>,
    exceeded: Seq<u8>,
    quoted: Seq<u8>,
    sent: int,
    id: u16,
)
    requires
        outer.len() >= 20,
        outer[0] / 16 == 4,
        header_len(outer, 0) == outer.len(),
        exceeded.len() == 8,
        exceeded[0] == TIME_EXCEEDED_V4,
        quoted.len() >= 20,
        header_len(quoted, 0) == quoted.len(),
        quoted[9] == PROTOCOL_ICMP_V4,
        6 <= sent <= PROBE_LEN,
        be_u32(outer, 12) != be_u32(quoted, 16),
    ensures
        loop_report_v4(outer + exceeded + quoted + echo_v4(id).take(sent), id) == Some(
            (be_u32(quoted, 16), be_u32(outer, 12)),
        ),
{
    let d = outer + exceeded + quoted + echo_v4(id).take(sent);
    let n = outer.len() as int;
    let m = quoted.len() as int;
    assert(d[0] == outer[0]);
    assert(d[n] == exceeded[0]);
    assert(d[n + 8] == quoted[0]);
    assert(d[n + 17] == quoted[9]);
    assert(d[n + 8 + m] == echo_v4(id)[0]);
    assert(d[n + 12 + m] == echo_v4(id)[4]);
    assert(d[n + 13 + m] == echo_v4(id)[5]);
    assert(be_u32(d, 12) == be_u32(outer, 12));
    assert(be_u32(d, n + 24) == be_u32(quoted, 16));
}

/// The same for ICMPv6, where the quoted header has a fixed length and the
/// quotation has to reach the end of the probe's own header.
pub proof fn law_own_probe_is_recognised_v6(
    exceeded: Seq<u8>,
    quoted: Seq<u8>,
    sent: int,
    router: u128,
    id: u16,
)
    requires
        exceeded.len() == 8,
        exceeded[0] == TIME_EXCEEDED_V6,
        quoted.len() == 40,
        quoted[6] == PROTOCOL_ICMP_V6,
        8 <= sent <= PROBE_LEN,
        router != be_u128(quoted, 24),
    ensures
        loop_report_v6(exceeded + quoted + echo_v6(id).take(sent), Some(router), id) == Some(
            (be_u128(quoted, 24), router),
        ),
{
    let d = exceeded + quoted + echo_v6(id).take(sent);
    assert(d[48] == echo_v6(id)[0]);
    assert(d[52] == echo_v6(id)[4]);
    assert(d[53] == echo_v6(id)[5]);
    assert(be_u128(d, 32) == be_u128(quoted, 24));
}

/// No message is taken for an answer to two different sessions.
pub proof fn law_answer_belongs_to_one_session(d: Seq<u8>, from: Option<u128>, id: u16, other: u16)
    requires
        id != other,
    ensures
        loop_report_v4(d, id) is None || loop_report_v4(d, other) is None,
        loop_report_v6(d, from, id) is None || loop_report_v6(d, from, other) is None,
{
    assert(id / 256 != other / 256 || id % 256 != other % 256);
}

/// The number that the bytes stand for, high byte first.
pub open spec fn number_in(bytes: Seq<u8>) -> nat
    decreases bytes.len(),
{
    if bytes.len() == 0 {
        0
    } else {
        number_in(bytes.drop_last()) * 256 + bytes.last() as nat
    }
}

proof fn lemma_number_ends_in(bytes: Seq<u8>, last: u8)
    ensures
        number_in(bytes.push(last)) == number_in(bytes) * 256 + last,
{
    assert(bytes.push(last).drop_last() =~= bytes);
}

proof fn lemma_four_bytes(d: Seq<u8>, at: int)
    requires
        0 <= at,
        at + 4 <= d.len(),
    ensures
        number_in(d.subrange(at, at + 4)) == d[at] * 0x100_0000 + d[at + 1] * 0x1_0000 + d[at + 2]
            * 0x100 + d[at + 3],
        number_in(d.subrange(at, at + 4)) == be_u32(d, at),
{
    let none = Seq::<u8>::empty();
    let one = none.push(d[at]);
    let two = one.push(d[at + 1]);
    let three = two.push(d[at + 2]);
    assert(d.subrange(at, at + 4) =~= three.push(d[at + 3]));
    lemma_number_ends_in(none, d[at]);
    lemma_number_ends_in(one, d[at + 1]);
    lemma_number_ends_in(two, d[at + 2]);
    lemma_number_ends_in(three, d[at + 3]);
}

/// Four more bytes make the number so much larger.
proof fn lemma_four_bytes_more(d: Seq<u8>, from: int, at: int)
    requires
        0 <= from <= at,
        at + 4 <= d.len(),
    ensures
        number_in(d.subrange(from, at + 4)) == number_in(d.subrange(from, at)) * 0x1_0000_0000
            + be_u32(d, at),
{
    let none = d.subrange(from, at);
    let one = none.push(d[at]);
    let two = one.push(d[at + 1]);
    let three = two.push(d[at + 2]);
    assert(d.subrange(from, at + 4) =~= three.push(d[at + 3]));
    lemma_number_ends_in(none, d[at]);
    lemma_number_ends_in(one, d[at + 1]);
    lemma_number_ends_in(two, d[at + 2]);
    lemma_number_ends_in(three, d[at + 3]);
    lemma_four_bytes(d, at);
}

proof fn lemma_sixteen_bytes(d: Seq<u8>, at: int)
    requires
        0 <= at,
        at + 16 <= d.len(),
    ensures
        number_in(d.subrange(at, at + 16)) == be_u128(d, at),
{
    lemma_four_bytes(d, at);
    lemma_four_bytes_more(d, at, at + 4);
    lemma_four_bytes_more(d, at, at + 8);
    lemma_four_bytes_more(d, at, at + 12);
}

/// Which IPv4 packets tell of a loop, byte by byte: those with an IPv4 header of
/// at least 20 bytes, behind it a message of type 11, behind its 8 bytes another
/// such header of a packet with protocol 1, and behind that an echo request, of
/// type 8, with this identifier; and they tell of the destination of the inner
/// header, and of the source of the outer one, which is another address. No other
/// packet does, whatever its type.
pub proof fn law_loop_reports_v4(d: Seq<u8>, id: u16, target: u32, router: u32)
    ensures
        loop_report_v4(d, id) == Some((target, router)) <==> {
            let outer = 4 * (d[0] % 16);
            let echo = outer + 8 + 4 * (d[outer + 8] % 16);
            &&& d[0] / 16 == 4
            &&& outer >= 20
            &&& d.len() >= outer + 28
            &&& d[outer] == 11
            &&& d[outer + 17] == 1
            &&& echo >= outer + 28
            &&& d.len() >= echo + 6
            &&& d[echo] == 8
            &&& d[echo + 4] * 256 + d[echo + 5] == id
            &&& target == number_in(d.subrange(outer + 24, outer + 28))
            &&& router == number_in(d.subrange(12, 16))
            &&& target != router
        },
{
    let outer = 4 * (d[0] % 16);
    if outer >= 20 && d.len() >= outer + 28 {
        lemma_four_bytes(d, outer + 24);
        lemma_four_bytes(d, 12);
    }
}

/// Which ICMPv6 messages tell of a loop, byte by byte: those of type 3, from an
/// IPv6 address, that hold a header with next header 58 behind their first 8
/// bytes, and behind its 40 bytes the 8 bytes of an echo request, of type 128,
/// with this identifier; and they tell of the destination in that header, and of
/// who sent them, which is another address. No other message does.
pub proof fn law_loop_reports_v6(
    d: Seq<u8>,
    from: Option<u128>,
    id: u16,
    target: u128,
    router: u128,
)
    ensures
        loop_report_v6(d, from, id) == Some((target, router)) <==> {
            &&& d.len() >= 56
            &&& d[0] == 3
            &&& d[14] == 58
            &&& d[48] == 128
            &&& d[52] * 256 + d[53] == id
            &&& target == number_in(d.subrange(32, 48))
            &&& from == Some(router)
            &&& target != router
        },
{
    if d.len() >= 56 {
        lemma_sixteen_bytes(d, 32);
    }
}

/// The checksum sums 16-bit words, high byte first; a single byte at the end is
/// the high byte of the last word.
pub proof fn law_words_are_summed(high: u8, low: u8, rest: Seq<u8>)
    ensures
        word_sum(seq![high, low] + rest) == high * 256 + low + word_sum(rest),
        word_sum(seq![high]) == high * 256,
        word_sum(Seq::empty()) == 0,
    decreases rest.len(),
{
    let one = seq![high];
    let two = seq![high, low];
    let none = Seq::<u8>::empty();
    assert(one.drop_last() =~= none);
    assert(two.drop_last() =~= one);
    assert(word_sum(none) == 0);
    assert(word_sum(one) == 256 * high);
    assert(word_sum(two) == word_sum(one) + low);
    if rest.len() == 0 {
        assert(two + rest =~= two);
    } else {
        law_words_are_summed(high, low, rest.drop_last());
        assert((two + rest).drop_last() =~= two + rest.drop_last());
        assert((two + rest).last() == rest.last());
    }
}

/// The checksum is what the sum of the words lacks of a multiple of 65535; only
/// where there is nothing to sum is it all of 65535.
pub proof fn law_checksum_completes_the_sum(data: Seq<u8>)
    ensures
        (word_sum(data) + checksum_of(data)) % 65535 == 0,
        checksum_of(data) == 65535 <==> word_sum(data) == 0,
{
    let sum = word_sum(data) as int;
    if sum > 0 {
        let q = (sum - 1) / 65535;
        let r = (sum - 1) % 65535;
        assert(sum - 1 == 65535 * q + r);
        assert(checksum_of(data) == 65534 - r);
        assert(sum + checksum_of(data) == 65535 * (q + 1));
        vstd::arithmetic::div_mod::lemma_mod_multiples_basic(q + 1, 65535);
    }
}

/// What a probe holds: 64 bytes, of type 8 for IPv4 and 128 for IPv6, code 0, the
/// identifier, sequence number 0, and bytes that count upwards. The checksum of
/// an IPv6 probe is left at zero.
pub proof fn law_probe_bytes(id: u16)
    ensures
        echo_v4(id).len() == 64,
        echo_v6(id).len() == 64,
        echo_v4(id)[0] == 8,
        echo_v6(id)[0] == 128,
        echo_v4(id)[1] == 0,
        echo_v6(id).subrange(1, 4) == seq![0u8, 0, 0],
        echo_v4(id)[4] * 256 + echo_v4(id)[5] == id,
        echo_v6(id)[4] * 256 + echo_v6(id)[5] == id,
        forall|i: int| 6 <= i < 8 ==> #[trigger] echo_v4(id)[i] == 0 && echo_v6(id)[i] == 0,
        forall|i: int| 8 <= i < 64 ==> #[trigger] echo_v4(id)[i] == i && echo_v6(id)[i] == i,
{
}

} // verus!

//! The register of clients and their networks: what may be entered, and how it is
//! shown.
use vstd::arithmetic::power2::pow2;
use vstd::prelude::*;

use crate::ip::{parse_network, parsed_network, Network};
use crate::records::{asn_label, Client, ClientPrefix};
use crate::targets::{delegated, sub_block_len};
use crate::text::{
    chars_of, decimal, joined, padded, push_decimal, push_padded, push_repeated, repeated, same_text,
    starts_with,
};

verus! {

/// Whether a text consists of digits only.
pub open spec fn all_digits(s: Seq<char>) -> bool {
    forall|i: int| 0 <= i < s.len() ==> '0' <= #[trigger] s[i] <= '9'
}

/// Whether a text consists of digits only.
fn is_all_digits(s: &str) -> (r: bool)
    ensures
        r == all_digits(s@),
{
    let chars = chars_of(s);
    let mut i: usize = 0;
    while i < chars.len()
        invariant
            i <= chars@.len(),
            chars@ == s@,
            forall|j: int| 0 <= j < i ==> '0' <= #[trigger] s@[j] <= '9',
        decreases chars@.len() - i,
    {
        let c = chars[i];
        if !('0' <= c && c <= '9') {
            assert(s@[i as int] == c);
            return false;
        }
        i = i + 1;
    }
    true
}

/// Why a network is not entered, if it is not: it is too large to be scanned,
/// or the number of its system is none.
pub open spec fn entry_problem(net: Network, asn: Seq<char>) -> Option<Seq<char>> {
    match net {
        Network::V4(v4) if v4.prefix < 16 => Some(
            "Error: IPv4 prefix size must be /16 or smaller. Got /"@ + decimal(v4.prefix as nat),
        ),
        Network::V6(v6) if v6.prefix < 32 => Some(
            "Error: IPv6 prefix size must be /32 or smaller. Got /"@ + decimal(v6.prefix as nat),
        ),
        _ => if all_digits(asn) {
            None
        } else {
            Some("Error: ASN must contain only digits (no prefix). Got '"@ + asn + "'"@)
        },
    }
}

/// A network that may be entered is scanned in full: at most 65536 addresses of
/// an IPv4 network, and at most three of each of 65536 sub-blocks of an IPv6
/// network, none of which stands for the others.
pub proof fn law_entered_networks_are_scanned_in_full(net: Network, asn: Seq<char>)
    requires
        net.wf(),
        entry_problem(net, asn) is None,
    ensures
        match net {
            Network::V4(v4) => v4.size() <= 65536,
            Network::V6(v6) => delegated(v6).len() <= 3 * 65536 && sub_block_len(v6.prefix as int)
                - v6.prefix <= 16,
        },
{
    vstd::arithmetic::power2::lemma2_to64();
    match net {
        Network::V4(v4) => lemma_power_at_most((32 - v4.prefix) as nat),
        Network::V6(v6) => lemma_power_at_most((sub_block_len(v6.prefix as int) - v6.prefix) as nat),
    }
}

proof fn lemma_power_at_most(n: nat)
    requires
        n <= 16,
    ensures
        pow2(n) <= 65536,
{
    vstd::arithmetic::power2::lemma2_to64();
    if n < 16 {
        vstd::arithmetic::power2::lemma_pow2_strictly_increases(n, 16);
    }
}

/// A system that was entered by its number is reported and listed with "AS"
/// before that number.
pub proof fn law_entered_numbers_get_as(asn: Seq<char>)
    requires
        all_digits(asn),
    ensures
        asn_label(Some(asn)) == "AS"@ + asn,
        listed_asn(Some(asn)) == "AS"@ + asn,
{
    reveal_strlit("AS");
    reveal_strlit("AS_UNKNOWN");
    if "AS"@.is_prefix_of(asn) {
        assert(asn.subrange(0, 2)[0] == 'A');
        assert('0' <= asn[0] <= '9');
    }
    if asn == "AS_UNKNOWN"@ {
        assert('0' <= asn[0] <= '9');
    }
}

/// Refuses a network that is too large to be scanned, or one whose system has no
/// number.
pub fn check_entry(net: Network, asn: &str) -> (r: Result<(), String>)
    ensures
        match entry_problem(net, asn@) {
            Some(problem) => r matches Err(e) && e@ == problem,
            None => r is Ok,
        },
{
    let (prefix, least, start) = match net {
        Network::V4(v4) => (
            v4.prefix,
            16u8,
            "Error: IPv4 prefix size must be /16 or smaller. Got /",
        ),
        Network::V6(v6) => (
            v6.prefix,
            32u8,
            "Error: IPv6 prefix size must be /32 or smaller. Got /",
        ),
    };
    if prefix < least {
        let mut e = start.to_owned();
        push_decimal(&mut e, prefix as u64);
        return Err(e);
    }
    if !is_all_digits(asn) {
        let mut e = joined("Error: ASN must contain only digits (no prefix). Got '", asn);
        e.append("'");
        return Err(e);
    }
    Ok(())
}

/// Refuses a prefix that is no network, and a network that may not be entered.
pub fn check_prefix(prefix: &str, asn: &str) -> (r: Result<(), String>)
    ensures
        match parsed_network(prefix@) {
            Some(net) => match entry_problem(net, asn@) {
                Some(problem) => r matches Err(e) && e@ == problem,
                None => r is Ok,
            },
            None => r matches Err(e) && e@ == "Error parsing prefix '"@ + prefix@ + "': "@ + (
            "invalid address: "@ + prefix@),
        },
        r is Ok <==> {
            &&& parsed_network(prefix@) is Some
            &&& match parsed_network(prefix@)->Some_0 {
                Network::V4(v4) => v4.prefix >= 16,
                Network::V6(v6) => v6.prefix >= 32,
            }
            &&& forall|i: int| 0 <= i < asn@.len() ==> '0' <= #[trigger] asn@[i] && asn@[i] <= '9'
        },
{
    match parse_network(prefix) {
        Ok(net) => {
            proof {
                law_what_may_be_entered(net, asn@);
            }
            check_entry(net, asn)
        },
        Err(reason) => {
            let mut e = joined("Error parsing prefix '", prefix);
            e.append("': ");
            e.append(reason.as_str());
            Err(e)
        },
    }
}

/// A number in decimal, with a sign where it is negative.
pub open spec fn signed_decimal(n: int) -> Seq<char> {
    if n < 0 {
        "-"@ + decimal((-n) as nat)
    } else {
        decimal(n as nat)
    }
}

/// A number in decimal, with a sign where it is negative.
fn signed_text(n: i64) -> (r: String)
    ensures
        r@ == signed_decimal(n as int),
{
    if n < 0 {
        let mut r = "-".to_owned();
        push_decimal(&mut r, (-(n as i128)) as u64);
        r
    } else {
        let mut r = String::new();
        push_decimal(&mut r, n as u64);
        assert(r@ =~= decimal(n as nat));
        r
    }
}

/// The line that shows a client.
pub open spec fn client_row(
    id: int,
    name: Seq<char>,
    email: Seq<char>,
    corporate_name: Seq<char>,
) -> Seq<char> {
    padded(signed_decimal(id), 5) + " | "@ + padded(name, 20) + " | "@ + padded(email, 30) + " | "@
        + corporate_name + "\n"@
}

/// The lines that show clients.
pub open spec fn client_rows(clients: Seq<Client>) -> Seq<char>
    decreases clients.len(),
{
    if clients.len() == 0 {
        Seq::empty()
    } else {
        let c = clients.last();
        client_rows(clients.drop_last()) + client_row(
            c.id as int,
            c.name@,
            c.email@,
            c.corporate_name@,
        )
    }
}

/// Appends the line that shows a client.
fn push_client_row(out: &mut String, c: &Client)
    ensures
        final(out)@ == old(out)@ + client_row(c.id as int, c.name@, c.email@, c.corporate_name@),
{
    let id = signed_text(c.id);
    let mut row = String::new();
    push_padded(&mut row, id.as_str(), 5);
    assert(row@ =~= padded(signed_decimal(c.id as int), 5));
    row.append(" | ");
    push_padded(&mut row, c.name.as_str(), 20);
    row.append(" | ");
    push_padded(&mut row, c.email.as_str(), 30);
    row.append(" | ");
    row.append(c.corporate_name.as_str());
    row.append("\n");
    out.append(row.as_str());
}

/// The table that shows the clients, each on a line of its own.
pub fn client_table(clients: &Vec<Client>) -> (r: String)
    ensures
        r@ == padded("ID"@, 5) + " | "@ + padded("Name"@, 20) + " | "@ + padded("Email"@, 30)
            + " | Corporate Name\n"@ + repeated('-', 85) + "\n"@ + client_rows(clients@),
{
    let mut r = String::new();
    push_padded(&mut r, "ID", 5);
    assert(r@ =~= padded("ID"@, 5));
    r.append(" | ");
    push_padded(&mut r, "Name", 20);
    r.append(" | ");
    push_padded(&mut r, "Email", 30);
    r.append(" | Corporate Name\n");
    push_repeated(&mut r, '-', 85);
    r.append("\n");
    let ghost head = r@;
    let mut i: usize = 0;
    assert(r@ =~= head + client_rows(clients@.take(0)));
    while i < clients.len()
        invariant
            i <= clients@.len(),
            r@ == head + client_rows(clients@.take(i as int)),
        decreases clients@.len() - i,
    {
        let c = &clients[i];
        assert(clients@.take(i + 1).drop_last() =~= clients@.take(i as int));
        push_client_row(&mut r, c);
        i = i + 1;
        assert(r@ =~= head + client_rows(clients@.take(i as int)));
    }
    assert(clients@.take(i as int) =~= clients@);
    r
}

/// How a system is listed: its number behind "AS".
pub open spec fn listed_asn(asn: Option<Seq<char>>) -> Seq<char> {
    match asn {
        None => "UNKNOWN"@,
        Some(number) => if number == "AS_UNKNOWN"@ {
            "UNKNOWN"@
        } else if "AS"@.is_prefix_of(number) {
            number
        } else {
            "AS"@ + number
        },
    }
}

/// How a network's system is listed.
fn asn_text(asn: &Option<String>) -> (r: String)
    ensures
        r@ == listed_asn(
            match asn {
                Some(number) => Some(number@),
                None => None,
            },
        ),
{
    match asn {
        None => "UNKNOWN".to_owned(),
        Some(number) => if same_text(number.as_str(), "AS_UNKNOWN") {
            "UNKNOWN".to_owned()
        } else if starts_with(number.as_str(), "AS") {
            number.clone()
        } else {
            joined("AS", number.as_str())
        },
    }
}

/// The line that shows a network.
pub open spec fn prefix_row(
    prefix: Seq<char>,
    client_name: Seq<char>,
    asn: Option<Seq<char>>,
) -> Seq<char> {
    padded(prefix, 30) + " | "@ + padded(client_name, 20) + " | "@ + listed_asn(asn) + "\n"@
}

/// The lines that show networks.
pub open spec fn prefix_rows(prefixes: Seq<ClientPrefix>) -> Seq<char>
    decreases prefixes.len(),
{
    if prefixes.len() == 0 {
        Seq::empty()
    } else {
        let p = prefixes.last();
        prefix_rows(prefixes.drop_last()) + prefix_row(p.prefix@, p.client_name@, p@.asn)
    }
}

/// Appends the line that shows a network.
fn push_prefix_row(out: &mut String, p: &ClientPrefix)
    ensures
        final(out)@ == old(out)@ + prefix_row(p.prefix@, p.client_name@, p@.asn),
{
    let mut row = String::new();
    push_padded(&mut row, p.prefix.as_str(), 30);
    assert(row@ =~= padded(p.prefix@, 30));
    row.append(" | ");
    push_padded(&mut row, p.client_name.as_str(), 20);
    row.append(" | ");
    row.append(asn_text(&p.asn).as_str());
    row.append("\n");
    out.append(row.as_str());
}

/// The table that shows the networks, each on a line of its own.
pub fn prefix_table(prefixes: &Vec<ClientPrefix>) -> (r: String)
    ensures
        r@ == padded("Prefix"@, 30) + " | "@ + padded("Client"@, 20) + " | ASN\n"@ + repeated('-', 65)
            + "\n"@ + prefix_rows(prefixes@),
{
    let mut r = String::new();
    push_padded(&mut r, "Prefix", 30);
    assert(r@ =~= padded("Prefix"@, 30));
    r.append(" | ");
    push_padded(&mut r, "Client", 20);
    r.append(" | ASN\n");
    push_repeated(&mut r, '-', 65);
    r.append("\n");
    let ghost head = r@;
    let mut i: usize = 0;
    assert(r@ =~= head + prefix_rows(prefixes@.take(0)));
    while i < prefixes.len()
        invariant
            i <= prefixes@.len(),
            r@ == head + prefix_rows(prefixes@.take(i as int)),
        decreases prefixes@.len() - i,
    {
        let p = &prefixes[i];
        assert(prefixes@.take(i + 1).drop_last() =~= prefixes@.take(i as int));
        push_prefix_row(&mut r, p);
        i = i + 1;
        assert(r@ =~= head + prefix_rows(prefixes@.take(i as int)));
    }
    assert(prefixes@.take(i as int) =~= prefixes@);
    r
}

/// What may be entered: an IPv4 network of at least 16 leading bits, or an IPv6
/// network of at least 32, with a system that is written in digits. What is wrong
/// with the network is said first, with its length; otherwise what was given for
/// the system.
pub proof fn law_what_may_be_entered(net: Network, asn: Seq<char>)
    ensures
        entry_problem(net, asn) is None <==> {
            &&& match net {
                Network::V4(v4) => v4.prefix >= 16,
                Network::V6(v6) => v6.prefix >= 32,
            }
            &&& forall|i: int| 0 <= i < asn.len() ==> '0' <= #[trigger] asn[i] && asn[i] <= '9'
        },
        net matches Network::V4(v4) ==> v4.prefix < 16 ==> entry_problem(net, asn) == Some(
            "Error: IPv4 prefix size must be /16 or smaller. Got /"@ + decimal(v4.prefix as nat),
        ),
        net matches Network::V6(v6) ==> v6.prefix < 32 ==> entry_problem(net, asn) == Some(
            "Error: IPv6 prefix size must be /32 or smaller. Got /"@ + decimal(v6.prefix as nat),
        ),
        net matches Network::V4(v4) ==> v4.prefix >= 16 ==> !all_digits(asn) ==> entry_problem(
            net,
            asn,
        ) == Some("Error: ASN must contain only digits (no prefix). Got '"@ + asn + "'"@),
        net matches Network::V6(v6) ==> v6.prefix >= 32 ==> !all_digits(asn) ==> entry_problem(
            net,
            asn,
        ) == Some("Error: ASN must contain only digits (no prefix). Got '"@ + asn + "'"@),
{
}

/// The tables show their entries one after the other, each on a line of its own.
pub proof fn law_tables_one_by_one(
    a: Seq<Client>,
    b: Seq<Client>,
    c: Client,
    p: Seq<ClientPrefix>,
    q: Seq<ClientPrefix>,
    e: ClientPrefix,
)
    ensures
        client_rows(a + b) == client_rows(a) + client_rows(b),
        client_rows(seq![c]) == padded(signed_decimal(c.id as int), 5) + " | "@ + padded(c.name@, 20)
            + " | "@ + padded(c.email@, 30) + " | "@ + c.corporate_name@ + "\n"@,
        prefix_rows(p + q) == prefix_rows(p) + prefix_rows(q),
        prefix_rows(seq![e]) == padded(e.prefix@, 30) + " | "@ + padded(e.client_name@, 20) + " | "@
            + listed_asn(e@.asn) + "\n"@,
    decreases b.len() + q.len(),
{
    let one = seq![c];
    assert(one.drop_last() =~= Seq::empty());
    assert(client_rows(Seq::empty()) =~= Seq::empty());
    let row = client_row(c.id as int, c.name@, c.email@, c.corporate_name@);
    assert(Seq::<char>::empty() + row =~= row);
    let single = seq![e];
    assert(single.drop_last() =~= Seq::empty());
    assert(prefix_rows(Seq::empty()) =~= Seq::empty());
    let line = prefix_row(e.prefix@, e.client_name@, e@.asn);
    assert(Seq::<char>::empty() + line =~= line);
    if b.len() == 0 {
        assert(a + b =~= a);
        assert(client_rows(a) + client_rows(b) =~= client_rows(a));
    } else {
        law_tables_one_by_one(a, b.drop_last(), c, p, q, e);
        assert((a + b).drop_last() =~= a + b.drop_last());
        assert((a + b).last() == b.last());
        assert(client_rows(a + b) =~= client_rows(a) + client_rows(b));
    }
    if q.len() == 0 {
        assert(p + q =~= p);
        assert(prefix_rows(p) + prefix_rows(q) =~= prefix_rows(p));
    } else {
        law_tables_one_by_one(a, b, c, p, q.drop_last(), e);
        assert((p + q).drop_last() =~= p + q.drop_last());
        assert((p + q).last() == q.last());
        assert(prefix_rows(p + q) =~= prefix_rows(p) + prefix_rows(q));
    }
}

/// A system is listed with "AS" before its number, once, and as unknown where it
/// has none. A negative number has its sign before its digits.
pub proof fn law_listed_systems(number: Seq<char>, n: nat)
    ensures
        listed_asn(None) == "UNKNOWN"@,
        listed_asn(Some("AS_UNKNOWN"@)) == "UNKNOWN"@,
        number != "AS_UNKNOWN"@ && number.len() >= 2 && number[0] == 'A' && number[1] == 'S'
            ==> listed_asn(Some(number)) == number,
        !(number.len() >= 2 && number[0] == 'A' && number[1] == 'S') ==> listed_asn(Some(number))
            == "AS"@ + number,
        signed_decimal(n as int) == decimal(n),
        n > 0 ==> signed_decimal(-n) == "-"@ + decimal(n),
{
    reveal_strlit("AS");
    reveal_strlit("AS_UNKNOWN");
    if number.len() >= 2 && number[0] == 'A' && number[1] == 'S' {
        assert(number.subrange(0, 2) =~= "AS"@);
    } else if "AS"@.is_prefix_of(number) {
        assert(number.subrange(0, 2)[0] == 'A' && number.subrange(0, 2)[1] == 'S');
    }
}

} // verus!

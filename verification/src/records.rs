//! What is on record: clients, their networks, and the loops of the last scan.
use vstd::prelude::*;

use crate::order::{ascending, lemma_text_set, text_set, OrderedSet};
use crate::text::{joined, same_text, starts_with, texts};

verus! {

/// A client whose networks are scanned.
#[derive(Debug)]
pub struct Client {
    pub id: i64,
    pub name: String,
    /// The addresses that reports go to, as a list.
    pub email: String,
    pub corporate_name: String,
}

/// A network of a client.
#[derive(Debug)]
pub struct ClientPrefix {
    pub prefix: String,
    pub client_name: String,
    /// The autonomous system that the network is counted for.
    pub asn: Option<String>,
}

/// A loop as it is kept from one scan to the next.
#[derive(Debug)]
pub struct SavedLoop {
    pub prefix: String,
    pub target_ip: String,
    pub router_ip: String,
}

/// What a `ClientPrefix` says of a network.
pub struct Registered {
    pub prefix: Seq<char>,
    pub asn: Option<Seq<char>>,
}

impl View for ClientPrefix {
    type V = Registered;

    open spec fn view(&self) -> Registered {
        Registered {
            prefix: self.prefix@,
            asn: match self.asn {
                Some(asn) => Some(asn@),
                None => None,
            },
        }
    }
}

/// What the entries say of their networks.
pub open spec fn registered(v: Seq<ClientPrefix>) -> Seq<Registered> {
    v.map_values(|p: ClientPrefix| p@)
}

/// A `SavedLoop` as a value.
pub struct Saved {
    pub prefix: Seq<char>,
    pub target: Seq<char>,
    pub router: Seq<char>,
}

impl View for SavedLoop {
    type V = Saved;

    open spec fn view(&self) -> Saved {
        Saved { prefix: self.prefix@, target: self.target_ip@, router: self.router_ip@ }
    }
}

/// The values of the loops.
pub open spec fn saved(v: Seq<SavedLoop>) -> Seq<Saved> {
    v.map_values(|l: SavedLoop| l@)
}

/// The name under which a system is reported: its number behind "AS".
pub open spec fn asn_label(asn: Option<Seq<char>>) -> Seq<char> {
    match asn {
        None => "AS_UNKNOWN"@,
        Some(number) => if "AS"@.is_prefix_of(number) {
            number
        } else {
            "AS"@ + number
        },
    }
}

/// Every system is reported under a name that begins with "AS".
pub proof fn law_labels_begin_with_as(asn: Option<Seq<char>>)
    ensures
        "AS"@.is_prefix_of(asn_label(asn)),
{
    reveal_strlit("AS");
    reveal_strlit("AS_UNKNOWN");
    if let Some(number) = asn {
        assert(("AS"@ + number).subrange(0, 2) =~= "AS"@);
    }
    assert("AS_UNKNOWN"@.subrange(0, 2) =~= "AS"@);
}

/// The system that `prefix` is counted for; of several entries the last counts.
pub open spec fn label_of(prefixes: Seq<Registered>, prefix: Seq<char>) -> Seq<char>
    decreases prefixes.len(),
{
    if prefixes.len() == 0 {
        "AS_UNKNOWN"@
    } else if prefixes.last().prefix == prefix {
        asn_label(prefixes.last().asn)
    } else {
        label_of(prefixes.drop_last(), prefix)
    }
}

/// The systems that a client's networks are counted for.
pub open spec fn labels(prefixes: Seq<Registered>) -> Set<Seq<char>>
    decreases prefixes.len(),
{
    if prefixes.len() == 0 {
        Set::empty()
    } else {
        labels(prefixes.drop_last()).insert(asn_label(prefixes.last().asn))
    }
}

impl ClientPrefix {
    /// The name under which the network's system is reported.
    pub fn asn_label(&self) -> (r: String)
        ensures
            r@ == asn_label(self@.asn),
    {
        match &self.asn {
            None => "AS_UNKNOWN".to_owned(),
            Some(number) => if starts_with(number.as_str(), "AS") {
                number.clone()
            } else {
                joined("AS", number.as_str())
            },
        }
    }
}

/// The system that `prefix` is counted for.
pub fn asn_of(prefixes: &Vec<ClientPrefix>, prefix: &str) -> (r: String)
    ensures
        r@ == label_of(registered(prefixes@), prefix@),
{
    let ghost all = registered(prefixes@);
    let mut n: usize = prefixes.len();
    assert(all.take(n as int) =~= all);
    while n > 0
        invariant
            n <= prefixes@.len(),
            all == registered(prefixes@),
            label_of(all, prefix@) == label_of(all.take(n as int), prefix@),
        decreases n,
    {
        let entry = &prefixes[n - 1];
        assert(all.take(n as int).last() == entry@);
        assert(all.take(n as int).drop_last() =~= all.take(n - 1));
        if same_text(entry.prefix.as_str(), prefix) {
            return entry.asn_label();
        }
        n = n - 1;
    }
    "AS_UNKNOWN".to_owned()
}

/// The systems that a client's networks are counted for, in ascending order.
pub fn asn_labels(prefixes: &Vec<ClientPrefix>) -> (r: Vec<String>)
    ensures
        texts(r@) == ascending(labels(registered(prefixes@))),
        texts(r@).no_duplicates(),
        texts(r@).to_set() == labels(registered(prefixes@)),
{
    let ghost all = registered(prefixes@);
    let mut set: OrderedSet<String> = OrderedSet::new();
    let mut i: usize = 0;
    proof {
        lemma_text_set(set);
        assert(text_set(set) =~= labels(all.take(0)));
    }
    while i < prefixes.len()
        invariant
            i <= prefixes@.len(),
            all == registered(prefixes@),
            set.wf(),
            text_set(set) == labels(all.take(i as int)),
        decreases prefixes@.len() - i,
    {
        assert(all.take(i + 1).drop_last() =~= all.take(i as int));
        assert(all.take(i + 1).last() == prefixes@[i as int]@);
        set.insert_text(prefixes[i].asn_label());
        i = i + 1;
    }
    assert(all.take(i as int) =~= all);
    proof {
        lemma_text_set(set);
    }
    set.items
}

/// A registered prefix is counted for one of the client's systems.
pub proof fn lemma_label_is_listed(prefixes: Seq<Registered>, prefix: Seq<char>)
    ensures
        labels(prefixes).finite(),
        (exists|j: int| 0 <= j < prefixes.len() && (#[trigger] prefixes[j]).prefix == prefix)
            ==> labels(prefixes).contains(label_of(prefixes, prefix)),
    decreases prefixes.len(),
{
    if prefixes.len() > 0 {
        let before = prefixes.drop_last();
        lemma_label_is_listed(before, prefix);
        if exists|j: int| 0 <= j < prefixes.len() && (#[trigger] prefixes[j]).prefix == prefix {
            let j = choose|j: int|
                0 <= j < prefixes.len() && (#[trigger] prefixes[j]).prefix == prefix;
            if j < before.len() {
                assert(before[j].prefix == prefix);
            }
        }
    }
}

/// A system is reported under its number with "AS" before it, once; a network
/// without a number under one name for all of them.
pub proof fn law_label_is_the_number(number: Seq<char>)
    ensures
        number.len() >= 2 && number[0] == 'A' && number[1] == 'S' ==> asn_label(Some(number))
            == number,
        !(number.len() >= 2 && number[0] == 'A' && number[1] == 'S') ==> asn_label(Some(number))
            == "AS"@ + number,
        asn_label(None) == "AS_UNKNOWN"@,
{
    reveal_strlit("AS");
    if number.len() >= 2 && number[0] == 'A' && number[1] == 'S' {
        assert(number.subrange(0, 2) =~= "AS"@);
    } else if "AS"@.is_prefix_of(number) {
        assert(number.subrange(0, 2)[0] == 'A' && number.subrange(0, 2)[1] == 'S');
    }
}

/// A prefix is counted for the system of its entry, of the last one where there
/// are several; without an entry it is counted for none that has a number.
pub proof fn law_last_entry_counts(prefixes: Seq<Registered>, prefix: Seq<char>, j: int)
    ensures
        0 <= j < prefixes.len() && prefixes[j].prefix == prefix && (forall|k: int|
            j < k < prefixes.len() ==> (#[trigger] prefixes[k]).prefix != prefix) ==> label_of(
            prefixes,
            prefix,
        ) == asn_label(prefixes[j].asn),
        (forall|k: int| 0 <= k < prefixes.len() ==> (#[trigger] prefixes[k]).prefix != prefix)
            ==> label_of(prefixes, prefix) == "AS_UNKNOWN"@,
    decreases prefixes.len(),
{
    if prefixes.len() > 0 {
        let before = prefixes.drop_last();
        law_last_entry_counts(before, prefix, j);
        assert(prefixes.last() == prefixes[prefixes.len() - 1]);
        assert forall|k: int| 0 <= k < before.len() implies #[trigger] before[k] == prefixes[k] by {}
    }
}

/// The systems of a client are those of its entries, all of them and no others.
pub proof fn law_systems_are_those_of_the_entries(prefixes: Seq<Registered>, name: Seq<char>)
    ensures
        labels(prefixes).contains(name) <==> exists|j: int|
            0 <= j < prefixes.len() && name == asn_label((#[trigger] prefixes[j]).asn),
    decreases prefixes.len(),
{
    if prefixes.len() > 0 {
        let before = prefixes.drop_last();
        law_systems_are_those_of_the_entries(before, name);
        assert(prefixes.last() == prefixes[prefixes.len() - 1]);
        if labels(before).contains(name) {
            let j = choose|j: int|
                0 <= j < before.len() && name == asn_label((#[trigger] before[j]).asn);
            assert(prefixes[j] == before[j]);
        }
        if exists|j: int|
            0 <= j < prefixes.len() && name == asn_label((#[trigger] prefixes[j]).asn) {
            let j = choose|j: int|
                0 <= j < prefixes.len() && name == asn_label((#[trigger] prefixes[j]).asn);
            if j < before.len() {
                assert(before[j] == prefixes[j]);
            }
        }
    }
}

/// An entry says what it holds of its network, and a kept loop is what it holds.
pub proof fn law_records_are_what_they_hold(p: ClientPrefix, l: SavedLoop)
    ensures
        p@.prefix == p.prefix@,
        p.asn matches Some(asn) ==> p@.asn == Some(asn@),
        p.asn is None ==> p@.asn is None,
        l@.prefix == l.prefix@,
        l@.target == l.target_ip@,
        l@.router == l.router_ip@,
{
}

} // verus!

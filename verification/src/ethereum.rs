//! The settings of the Ethereum connector: which logs a subscription asks
//! for, the contracts whose events are decoded, and the number of the
//! schema that each event gets. The descriptions of the contracts are read
//! outside: the connector takes the signatures of their events.

use std::str::FromStr;
use vstd::prelude::*;
use crate::expression::comparison::{
    lemma_order_antisymmetric,
    lemma_order_transitive,
    lexicographic_order,
    order_of_bytes,
};
use crate::ingestion::Ingestor;
use crate::storage::copy_values;
use crate::types::{bytes_equal, Schema, SchemaValue};

verus! {

/// Which logs to read: from which block to which, of which addresses,
/// with which topics. Addresses and topics are hexadecimal numbers.
#[derive(Debug, Default)]
pub struct EthFilter {
    pub from_block: Option<u64>,
    pub to_block: Option<u64>,
    pub addresses: Vec<String>,
    pub topics: Vec<String>,
}

/// What a filter holds.
pub struct EthFilterValue {
    pub from_block: Option<u64>,
    pub to_block: Option<u64>,
    pub addresses: Seq<Seq<char>>,
    pub topics: Seq<Seq<char>>,
}

/// The strings of a list, as sequences of characters.
pub open spec fn strings_view(strings: Seq<String>) -> Seq<Seq<char>> {
    Seq::new(strings.len(), |i: int| strings[i]@)
}

/// The byte strings of a list, as sequences of bytes.
pub open spec fn bytes_view(list: Seq<Vec<u8>>) -> Seq<Seq<u8>> {
    Seq::new(list.len(), |i: int| list[i]@)
}

/// The lists of byte strings of a list, as sequences.
pub open spec fn lists_view(lists: Seq<Vec<Vec<u8>>>) -> Seq<Seq<Seq<u8>>> {
    Seq::new(lists.len(), |i: int| bytes_view(lists[i]@))
}

impl View for EthFilter {
    type V = EthFilterValue;

    open spec fn view(&self) -> EthFilterValue {
        EthFilterValue {
            from_block: self.from_block,
            to_block: self.to_block,
            addresses: strings_view(self.addresses@),
            topics: strings_view(self.topics@),
        }
    }
}

/// What a subscription asks for, with every address and topic as its
/// bytes. Without addresses the logs of every address are read. The
/// topics are those of the first positions of a log, at most four; each
/// position has the list of the topics that it may hold.
#[derive(Debug)]
pub struct FilterPlan {
    pub from_block: Option<u64>,
    pub to_block: Option<u64>,
    pub addresses: Option<Vec<Vec<u8>>>,
    pub topics: Option<Vec<Vec<Vec<u8>>>>,
}

/// What a plan holds.
pub struct FilterPlanValue {
    pub from_block: Option<u64>,
    pub to_block: Option<u64>,
    pub addresses: Option<Seq<Seq<u8>>>,
    pub topics: Option<Seq<Seq<Seq<u8>>>>,
}

impl View for FilterPlan {
    type V = FilterPlanValue;

    open spec fn view(&self) -> FilterPlanValue {
        FilterPlanValue {
            from_block: self.from_block,
            to_block: self.to_block,
            addresses: match self.addresses {
                Some(a) => Some(bytes_view(a@)),
                None => None,
            },
            topics: match self.topics {
                Some(t) => Some(lists_view(t@)),
                None => None,
            },
        }
    }
}

/// The twenty bytes that `web3::types::Address::from_str` reads from a
/// string, where it reads an address.
pub uninterp spec fn address_of(s: Seq<char>) -> Option<Seq<u8>>;

/// The thirty-two bytes that `web3::types::H256::from_str` reads from a
/// string, where it reads a hash.
pub uninterp spec fn topic_of(s: Seq<char>) -> Option<Seq<u8>>;

/// The bytes of an optional byte string.
pub open spec fn optional_view(bytes: Option<Vec<u8>>) -> Option<Seq<u8>> {
    match bytes {
        Some(b) => Some(b@),
        None => None,
    }
}

/// `web3::types::Address::from_str`: the bytes of the address that a
/// string of hexadecimal digits stands for, with or without `0x` in front,
/// and nothing where the string stands for none. An address has twenty
/// bytes.
#[verifier::external_body]
fn parse_address(s: &str) -> (res: Option<Vec<u8>>)
    ensures
        optional_view(res) == address_of(s@),
        res matches Some(bytes) ==> bytes@.len() == 20,
{
    match web3::types::Address::from_str(s) {
        Ok(address) => Some(address.as_bytes().to_vec()),
        Err(_) => None,
    }
}

/// `web3::types::H256::from_str`: the bytes of the hash that a string of
/// hexadecimal digits stands for, with or without `0x` in front, and
/// nothing where the string stands for none. A hash has thirty-two bytes.
#[verifier::external_body]
fn parse_topic(s: &str) -> (res: Option<Vec<u8>>)
    ensures
        optional_view(res) == topic_of(s@),
        res matches Some(bytes) ==> bytes@.len() == 32,
{
    match web3::types::H256::from_str(s) {
        Ok(hash) => Some(hash.as_bytes().to_vec()),
        Err(_) => None,
    }
}

/// Whether every address and every topic of a filter can be read.
pub open spec fn filter_readable(filter: EthFilterValue) -> bool {
    &&& forall|i: int|
        0 <= i < filter.addresses.len() ==> address_of(#[trigger] filter.addresses[i]) is Some
    &&& forall|i: int| 0 <= i < filter.topics.len() ==> topic_of(#[trigger] filter.topics[i]) is Some
}

/// How many positions of a log a filter has topics for.
pub open spec fn topic_positions(filter: EthFilterValue) -> nat {
    if filter.topics.len() < 4 {
        filter.topics.len()
    } else {
        4
    }
}

/// What a subscription with a filter asks for: the blocks of the filter;
/// its addresses, or any address where it names none; and for each of the
/// first four positions the one topic that the filter names for it. A
/// filter without topics asks for none.
pub open spec fn plan_of(filter: EthFilterValue) -> FilterPlanValue {
    FilterPlanValue {
        from_block: filter.from_block,
        to_block: filter.to_block,
        addresses: if filter.addresses.len() == 0 {
            None
        } else {
            Some(
                Seq::new(filter.addresses.len(), |i: int| address_of(filter.addresses[i])->Some_0),
            )
        },
        topics: if filter.topics.len() == 0 {
            None
        } else {
            Some(
                Seq::new(
                    topic_positions(filter),
                    |i: int| seq![topic_of(filter.topics[i])->Some_0],
                ),
            )
        },
    }
}

/// The bytes of the addresses of a list, or nothing where one of them
/// cannot be read.
fn read_addresses(addresses: &Vec<String>) -> (res: Option<Vec<Vec<u8>>>)
    ensures
        res is Some <==> forall|i: int|
            0 <= i < addresses@.len() ==> address_of(#[trigger] addresses@[i]@) is Some,
        res matches Some(list) ==> list@.len() == addresses@.len() && forall|i: int|
            0 <= i < list@.len() ==> address_of(addresses@[i]@) == Some((#[trigger] list@[i])@)
                && list@[i]@.len() == 20,
{
    let mut out: Vec<Vec<u8>> = Vec::new();
    let mut i: usize = 0;
    while i < addresses.len()
        invariant
            i <= addresses.len(),
            out@.len() == i,
            forall|j: int|
                0 <= j < i ==> address_of(addresses@[j]@) == Some((#[trigger] out@[j])@)
                    && out@[j]@.len() == 20,
        decreases addresses.len() - i,
    {
        match parse_address(addresses[i].as_str()) {
            Some(bytes) => {
                out.push(bytes);
            },
            None => {
                assert(address_of(addresses@[i as int]@) is None);
                return None;
            },
        }
        i += 1;
    }
    assert forall|j: int| 0 <= j < addresses@.len() implies address_of(#[trigger] addresses@[j]@) is Some by {
        assert(address_of(addresses@[j]@) == Some(out@[j]@));
    }
    Some(out)
}

/// The bytes of the topics of a list, or nothing where one of them cannot
/// be read.
fn read_topics(topics: &Vec<String>) -> (res: Option<Vec<Vec<u8>>>)
    ensures
        res is Some <==> forall|i: int|
            0 <= i < topics@.len() ==> topic_of(#[trigger] topics@[i]@) is Some,
        res matches Some(list) ==> list@.len() == topics@.len() && forall|i: int|
            0 <= i < list@.len() ==> topic_of(topics@[i]@) == Some((#[trigger] list@[i])@)
                && list@[i]@.len() == 32,
{
    let mut out: Vec<Vec<u8>> = Vec::new();
    let mut i: usize = 0;
    while i < topics.len()
        invariant
            i <= topics.len(),
            out@.len() == i,
            forall|j: int|
                0 <= j < i ==> topic_of(topics@[j]@) == Some((#[trigger] out@[j])@)
                    && out@[j]@.len() == 32,
        decreases topics.len() - i,
    {
        match parse_topic(topics[i].as_str()) {
            Some(bytes) => {
                out.push(bytes);
            },
            None => {
                assert(topic_of(topics@[i as int]@) is None);
                return None;
            },
        }
        i += 1;
    }
    assert forall|j: int| 0 <= j < topics@.len() implies topic_of(#[trigger] topics@[j]@) is Some by {
        assert(topic_of(topics@[j]@) == Some(out@[j]@));
    }
    Some(out)
}

/// A filter can be read where each of its strings can.
proof fn lemma_filter_readable(filter: EthFilter)
    ensures
        filter_readable(filter@) <==> (forall|i: int|
            0 <= i < filter.addresses@.len() ==> address_of(#[trigger] filter.addresses@[i]@)
                is Some) && (forall|i: int|
            0 <= i < filter.topics@.len() ==> topic_of(#[trigger] filter.topics@[i]@) is Some),
{
    let v = filter@;
    if filter_readable(v) {
        assert forall|i: int| 0 <= i < filter.addresses@.len() implies address_of(
            #[trigger] filter.addresses@[i]@,
        ) is Some by {
            assert(v.addresses[i] == filter.addresses@[i]@);
        }
        assert forall|i: int| 0 <= i < filter.topics@.len() implies topic_of(
            #[trigger] filter.topics@[i]@,
        ) is Some by {
            assert(v.topics[i] == filter.topics@[i]@);
        }
    }
    if (forall|i: int|
        0 <= i < filter.addresses@.len() ==> address_of(#[trigger] filter.addresses@[i]@) is Some)
        && (forall|i: int|
        0 <= i < filter.topics@.len() ==> topic_of(#[trigger] filter.topics@[i]@) is Some) {
        assert forall|i: int| 0 <= i < v.addresses.len() implies address_of(
            #[trigger] v.addresses[i],
        ) is Some by {
            assert(v.addresses[i] == filter.addresses@[i]@);
        }
        assert forall|i: int| 0 <= i < v.topics.len() implies topic_of(#[trigger] v.topics[i])
            is Some by {
            assert(v.topics[i] == filter.topics@[i]@);
        }
    }
}

/// The plan of a filter whose addresses and topics have been read.
fn plan_from(filter: &EthFilter, addresses: Vec<Vec<u8>>, topics: Vec<Vec<u8>>) -> (res:
    FilterPlan)
    requires
        filter_readable(filter@),
        addresses@.len() == filter.addresses@.len(),
        forall|i: int|
            0 <= i < addresses@.len() ==> address_of(filter.addresses@[i]@) == Some(
                (#[trigger] addresses@[i])@,
            ),
        topics@.len() == filter.topics@.len(),
        forall|i: int|
            0 <= i < topics@.len() ==> topic_of(filter.topics@[i]@) == Some(
                (#[trigger] topics@[i])@,
            ),
        forall|i: int| 0 <= i < addresses@.len() ==> (#[trigger] addresses@[i])@.len() == 20,
        forall|i: int| 0 <= i < topics@.len() ==> (#[trigger] topics@[i])@.len() == 32,
    ensures
        res@ == plan_of(filter@),
        plan_in_order(res@),
{
    let ghost wanted = plan_of(filter@);
    let address_part = if addresses.len() == 0 {
        None
    } else {
        assert(bytes_view(addresses@) =~= wanted.addresses->Some_0);
        assert forall|i: int| 0 <= i < bytes_view(addresses@).len() implies (#[trigger] bytes_view(
            addresses@,
        )[i]).len() == 20 by {
            assert(addresses@[i]@.len() == 20);
        }
        Some(addresses)
    };
    let topic_part = if topics.len() == 0 {
        None
    } else {
        let mut positions: Vec<Vec<Vec<u8>>> = Vec::new();
        let mut topics = topics;
        let ghost all = topics@;
        let mut i: usize = 0;
        while i < 4 && i < topics.len()
            invariant
                i <= 4,
                i <= topics.len(),
                topics@.len() == all.len(),
                positions@.len() == i,
                forall|j: int| i <= j < topics@.len() ==> topics@[j] == all[j],
                forall|j: int| 0 <= j < all.len() ==> (#[trigger] all[j])@.len() == 32,
                forall|j: int|
                    0 <= j < i ==> bytes_view((#[trigger] positions@[j])@) == seq![all[j]@],
            decreases 4 - i,
        {
            let mut taken: Vec<u8> = Vec::new();
            std::mem::swap(&mut taken, &mut topics[i]);
            let mut one: Vec<Vec<u8>> = Vec::new();
            one.push(taken);
            assert(bytes_view(one@) =~= seq![all[i as int]@]);
            positions.push(one);
            i += 1;
        }
        assert(lists_view(positions@) =~= wanted.topics->Some_0);
        assert forall|a: int, b: int|
            0 <= a < lists_view(positions@).len() && 0 <= b < lists_view(
                positions@,
            )[a].len() implies (#[trigger] lists_view(positions@)[a][b]).len() == 32 by {
            assert(bytes_view(positions@[a]@) == seq![all[a]@]);
        }
        Some(positions)
    };
    FilterPlan {
        from_block: filter.from_block,
        to_block: filter.to_block,
        addresses: address_part,
        topics: topic_part,
    }
}

/// Whether every address of a plan has twenty bytes and every topic
/// thirty-two.
pub open spec fn plan_in_order(plan: FilterPlanValue) -> bool {
    &&& plan.addresses matches Some(list) ==> forall|i: int|
        0 <= i < list.len() ==> (#[trigger] list[i]).len() == 20
    &&& plan.topics matches Some(positions) ==> forall|i: int, j: int|
        0 <= i < positions.len() && 0 <= j < positions[i].len() ==> (
        #[trigger] positions[i][j]).len() == 32
}

/// A contract whose events are decoded.
#[derive(Debug)]
pub struct EthContract {
    pub name: String,
    pub address: String,
    pub abi: String,
}

/// What a contract of the settings holds.
pub struct EthContractValue {
    pub name: Seq<char>,
    pub address: Seq<char>,
    pub abi: Seq<char>,
}

impl View for EthContract {
    type V = EthContractValue;

    open spec fn view(&self) -> EthContractValue {
        EthContractValue { name: self.name@, address: self.address@, abi: self.abi@ }
    }
}

/// The settings of a connection.
#[derive(Debug)]
pub struct EthConfig {
    pub filter: Option<EthFilter>,
    pub wss_url: String,
    pub contracts: Vec<EthContract>,
}

/// The contracts of the settings, in their order.
pub open spec fn configured(contracts: Seq<EthContract>) -> Seq<EthContractValue> {
    Seq::new(contracts.len(), |i: int| contracts[i]@)
}

/// A table that a connector offers.
#[derive(Debug, PartialEq, Eq)]
pub struct TableInfo {
    pub name: String,
    pub table_name: String,
    pub id: u32,
    pub columns: Option<Vec<String>>,
}

/// Why a connector refuses.
#[derive(Debug, PartialEq, Eq)]
pub enum ConnectorError {
    /// The connector was started before it was initialized.
    InitializationError,
    /// The description of a contract cannot be read.
    SerializationError,
}

/// A string in lower case, as `str::to_lowercase` gives it.
pub uninterp spec fn lowercase_of(s: Seq<char>) -> Seq<char>;

/// `str::to_lowercase`: the string in lower case.
#[verifier::external_body]
fn to_lowercase(s: &str) -> (res: String)
    ensures
        res@ == lowercase_of(s@),
{
    s.to_lowercase()
}

/// What the connector keeps of a contract: the signatures of its events,
/// in the order in which its description gives them, and its name.
#[derive(Debug)]
pub struct ContractTuple(pub Vec<Vec<u8>>, pub String);

/// What is kept of a contract: the signatures of its events, and its
/// name.
pub struct ContractTupleValue {
    pub signatures: Seq<Seq<u8>>,
    pub name: Seq<char>,
}

impl View for ContractTuple {
    type V = ContractTupleValue;

    open spec fn view(&self) -> ContractTupleValue {
        ContractTupleValue { signatures: bytes_view(self.0@), name: self.1@ }
    }
}

/// Contracts by their addresses.
pub type Contracts = Seq<(Seq<char>, ContractTupleValue)>;

/// The contracts of a list, by their addresses.
pub open spec fn contracts_view(list: Seq<(String, ContractTuple)>) -> Contracts {
    Seq::new(list.len(), |i: int| (list[i].0@, list[i].1@))
}

/// The contracts with one more: it takes the place of the contract that
/// has its address, and comes last where none has.
pub open spec fn with_contract(
    list: Contracts,
    address: Seq<char>,
    tuple: ContractTupleValue,
) -> Contracts
    decreases list.len(),
{
    if list.len() == 0 {
        seq![(address, tuple)]
    } else if list[0].0 == address {
        seq![(address, tuple)] + list.drop_first()
    } else {
        seq![list[0]] + with_contract(list.drop_first(), address, tuple)
    }
}

/// The first `n` contracts of the settings by their addresses in lower
/// case, each with the signatures of its events. The last of two
/// contracts with one address is the one that counts.
pub open spec fn contracts_of(
    contracts: Seq<EthContractValue>,
    events: Seq<Seq<Seq<u8>>>,
    n: nat,
) -> Contracts
    decreases n,
{
    if n == 0 {
        Seq::empty()
    } else {
        let c = contracts[n - 1];
        with_contract(
            contracts_of(contracts, events, (n - 1) as nat),
            lowercase_of(c.address),
            ContractTupleValue { signatures: events[n - 1], name: c.name },
        )
    }
}

/// Whether a connector can be made of the settings and the events of
/// their contracts: every contract has its events, and the events are few
/// enough to be numbered.
pub open spec fn can_connect(contracts: Seq<EthContractValue>, events: Seq<Seq<Seq<u8>>>) -> bool {
    &&& events.len() == contracts.len()
    &&& all_signatures(contracts_of(contracts, events, contracts.len())).len() + 2 <= usize::MAX
}

/// The signatures of the events of all contracts, one contract after the
/// other.
pub open spec fn all_signatures(contracts: Contracts) -> Seq<Seq<u8>>
    decreases contracts.len(),
{
    if contracts.len() == 0 {
        Seq::empty()
    } else {
        all_signatures(contracts.drop_last()) + contracts.last().1.signatures
    }
}

/// Whether byte strings stand in ascending order.
pub open spec fn ascending(list: Seq<Seq<u8>>) -> bool {
    forall|i: int, j: int|
        0 <= i < j < list.len() ==> lexicographic_order(#[trigger] list[i], #[trigger] list[j])
            <= 0
}

/// The signatures of a schema map, in its order.
pub open spec fn map_signatures(map: Seq<(Vec<u8>, usize)>) -> Seq<Seq<u8>> {
    Seq::new(map.len(), |i: int| map[i].0@)
}

/// Whether a schema map numbers the given signatures: it holds each of
/// them as often as it is given, in ascending order, and the number of a
/// signature is its place in that order, counted from two.
pub open spec fn numbers(map: Seq<(Vec<u8>, usize)>, signatures: Seq<Seq<u8>>) -> bool {
    &&& ascending(map_signatures(map))
    &&& map_signatures(map).to_multiset() == signatures.to_multiset()
    &&& forall|i: int| 0 <= i < map.len() ==> (#[trigger] map[i]).1 == i + 2
}

/// The number of the schema of a signature: that of its last place in the
/// map.
pub open spec fn schema_number(map: Seq<(Vec<u8>, usize)>, signature: Seq<u8>) -> Option<usize>
    decreases map.len(),
{
    if map.len() == 0 {
        None
    } else if map.last().0@ == signature {
        Some(map.last().1)
    } else {
        schema_number(map.drop_last(), signature)
    }
}

/// Puts the contract of an address among the contracts.
fn put_contract(list: &mut Vec<(String, ContractTuple)>, address: String, tuple: ContractTuple)
    ensures
        contracts_view(final(list)@) == with_contract(
            contracts_view(old(list)@),
            address@,
            tuple@,
        ),
{
    let ghost before = contracts_view(list@);
    let ghost start = list@;
    let mut i: usize = 0;
    assert(before.skip(0) =~= before);
    assert(before.take(0) + with_contract(before, address@, tuple@) =~= with_contract(
        before,
        address@,
        tuple@,
    ));
    while i < list.len()
        invariant
            i <= list.len(),
            list@ == start,
            start == old(list)@,
            before == contracts_view(start),
            with_contract(before, address@, tuple@) == before.take(i as int) + with_contract(
                before.skip(i as int),
                address@,
                tuple@,
            ),
        decreases list.len() - i,
    {
        let ghost rest = before.skip(i as int);
        assert(rest[0] == before[i as int]);
        assert(rest.drop_first() =~= before.skip(i + 1));
        assert(before.take(i + 1) =~= before.take(i as int) + seq![rest[0]]);
        if list[i].0 == address {
            let ghost wanted = (address@, tuple@);
            list.set(i, (address, tuple));
            assert(contracts_view(list@) =~= before.take(i as int) + (seq![wanted]
                + rest.drop_first()));
            return ;
        }
        assert(before.take(i as int) + (seq![rest[0]] + with_contract(
            rest.drop_first(),
            address@,
            tuple@,
        )) =~= before.take(i + 1) + with_contract(before.skip(i + 1), address@, tuple@));
        i += 1;
    }
    assert(before.skip(i as int) =~= Seq::<(Seq<char>, ContractTupleValue)>::empty());
    assert(before.take(i as int) =~= before);
    let ghost wanted = (address@, tuple@);
    list.push((address, tuple));
    assert(contracts_view(list@) =~= before + seq![wanted]);
}

/// A byte string that is put behind those that are not above it, and
/// before the first that is, keeps the order, and is one more of the byte
/// strings.
proof fn lemma_placed(list: Seq<Seq<u8>>, i: int, value: Seq<u8>)
    requires
        ascending(list),
        0 <= i <= list.len(),
        forall|j: int| 0 <= j < i ==> lexicographic_order(#[trigger] list[j], value) <= 0,
        i < list.len() ==> lexicographic_order(list[i], value) > 0,
    ensures
        ascending(list.insert(i, value)),
        list.insert(i, value).to_multiset() == list.to_multiset().insert(value),
{
    broadcast use vstd::multiset::group_multiset_axioms;

    let after = list.insert(i, value);
    assert forall|a: int, b: int| 0 <= a < b < after.len() implies lexicographic_order(
        #[trigger] after[a],
        #[trigger] after[b],
    ) <= 0 by {
        if b < i {
            assert(after[a] == list[a] && after[b] == list[b]);
        } else if b == i {
            assert(after[a] == list[a]);
        } else if a == i {
            assert(after[b] == list[b - 1]);
            lemma_order_antisymmetric(list[i], value);
            if b - 1 > i {
                assert(lexicographic_order(list[i], list[b - 1]) <= 0);
                lemma_order_transitive(value, list[i], list[b - 1]);
            }
        } else if a < i {
            assert(after[a] == list[a] && after[b] == list[b - 1]);
        } else {
            assert(after[a] == list[a - 1] && after[b] == list[b - 1]);
        }
    }
    assert(after.remove(i) =~= list);
    vstd::seq_lib::to_multiset_remove(after, i);
    assert(after.to_multiset().count(value) > 0) by {
        after.to_multiset_ensures();
        assert(after[i] == value);
        assert(after.contains(value));
    }
    assert(after.to_multiset() =~= list.to_multiset().insert(value));
}

/// Puts a byte string at its place among byte strings in ascending order.
fn place(out: &mut Vec<Vec<u8>>, value: Vec<u8>)
    requires
        ascending(bytes_view(old(out)@)),
    ensures
        ascending(bytes_view(final(out)@)),
        bytes_view(final(out)@).to_multiset() == bytes_view(old(out)@).to_multiset().insert(
            value@,
        ),
{
    let ghost before = bytes_view(out@);
    let mut i: usize = 0;
    while i < out.len()
        invariant
            i <= out.len(),
            out@ == old(out)@,
            before == bytes_view(out@),
            ascending(before),
            forall|j: int| 0 <= j < i ==> lexicographic_order(#[trigger] before[j], value@) <= 0,
        decreases out.len() - i,
    {
        assert(before[i as int] == out@[i as int]@);
        if order_of_bytes(out[i].as_slice(), value.as_slice()) > 0 {
            proof {
                lemma_placed(before, i as int, value@);
            }
            out.insert(i, value);
            assert(bytes_view(out@) =~= before.insert(i as int, value@));
            return ;
        }
        i += 1;
    }
    proof {
        lemma_placed(before, i as int, value@);
    }
    out.insert(i, value);
    assert(bytes_view(out@) =~= before.insert(i as int, value@));
}

/// The byte strings of a list in ascending order.
fn sort_signatures(list: Vec<Vec<u8>>) -> (res: Vec<Vec<u8>>)
    ensures
        ascending(bytes_view(res@)),
        bytes_view(res@).to_multiset() == bytes_view(list@).to_multiset(),
{
    let ghost all = bytes_view(list@);
    let mut list = list;
    let mut out: Vec<Vec<u8>> = Vec::new();
    let mut k: usize = 0;
    assert(all.take(0) =~= bytes_view(out@));
    while k < list.len()
        invariant
            k <= list.len(),
            list@.len() == all.len(),
            forall|j: int| k <= j < list@.len() ==> (#[trigger] list@[j])@ == all[j],
            ascending(bytes_view(out@)),
            bytes_view(out@).to_multiset() == all.take(k as int).to_multiset(),
        decreases list.len() - k,
    {
        let mut value: Vec<u8> = Vec::new();
        std::mem::swap(&mut value, &mut list[k]);
        place(&mut out, value);
        proof {
            assert(all.take(k + 1) =~= all.take(k as int).push(all[k as int]));
            vstd::seq_lib::to_multiset_build(all.take(k as int), all[k as int]);
        }
        k += 1;
    }
    assert(all.take(k as int) =~= all);
    out
}

/// Settings of a connection to an Ethereum node: the contracts by their
/// addresses, and the number of the schema of every event.
pub struct EthConnector {
    pub id: u64,
    pub config: EthConfig,
    pub contracts: Vec<(String, ContractTuple)>,
    pub tables: Option<Vec<TableInfo>>,
    pub schema_map: Vec<(Vec<u8>, usize)>,
    pub ingestor: Option<Ingestor>,
    pub conn_name: String,
}

/// The name of the table of the logs that belong to no event.
pub const ETH_LOGS_TABLE: &'static str = "eth_logs";

/// The signatures of the events of the first contracts go before those of
/// the next.
proof fn lemma_all_signatures(contracts: Contracts, k: int)
    requires
        0 <= k < contracts.len(),
    ensures
        all_signatures(contracts.take(k + 1)) == all_signatures(contracts.take(k)) + contracts[k].1.signatures,
{
    assert(contracts.take(k + 1).drop_last() =~= contracts.take(k));
}

/// The schemas of a list with their names.
pub open spec fn schemas_view(list: Seq<(String, Schema)>) -> Seq<(Seq<char>, SchemaValue)> {
    Seq::new(list.len(), |i: int| (list[i].0@, list[i].1@))
}

/// Whether a table of the list reads the table with the name.
pub open spec fn listed(tables: Seq<TableInfo>, name: Seq<char>) -> bool {
    exists|i: int| 0 <= i < tables.len() && (#[trigger] tables[i]).table_name@ == name
}

/// The schemas whose names are those of tables of the list, in their
/// order.
pub open spec fn chosen_schemas(
    schemas: Seq<(Seq<char>, SchemaValue)>,
    tables: Seq<TableInfo>,
) -> Seq<(Seq<char>, SchemaValue)>
    decreases schemas.len(),
{
    if schemas.len() == 0 {
        Seq::empty()
    } else if listed(tables, schemas.last().0) {
        chosen_schemas(schemas.drop_last(), tables).push(schemas.last())
    } else {
        chosen_schemas(schemas.drop_last(), tables)
    }
}

/// The names of the fields of a schema.
pub open spec fn field_names(schema: SchemaValue) -> Seq<Seq<char>> {
    Seq::new(schema.fields.len(), |i: int| schema.fields[i].name)
}

/// Whether a table is that of the schema with a name at a place: it has
/// the name, the place as its number, cut to thirty-two bits, and the
/// names of the fields as its columns.
pub open spec fn table_of(table: TableInfo, place: int, name: Seq<char>, schema: SchemaValue) -> bool {
    &&& table.name@ == name
    &&& table.table_name@ == name
    &&& table.id == place % 0x1_0000_0000
    &&& table.columns matches Some(columns) && strings_view(columns@) == field_names(schema)
}

/// Whether a table of the list reads the table with the name.
fn is_listed(tables: &Vec<TableInfo>, name: &String) -> (res: bool)
    ensures
        res == listed(tables@, name@),
{
    let mut i: usize = 0;
    while i < tables.len()
        invariant
            i <= tables.len(),
            forall|j: int| 0 <= j < i ==> (#[trigger] tables@[j]).table_name@ != name@,
        decreases tables.len() - i,
    {
        if tables[i].table_name == *name {
            return true;
        }
        i += 1;
    }
    false
}

/// The signatures of the events of the first contracts are among those of
/// all.
proof fn lemma_signatures_grow(contracts: Contracts, k: int)
    requires
        0 <= k <= contracts.len(),
    ensures
        all_signatures(contracts.take(k)).len() <= all_signatures(contracts).len(),
    decreases contracts.len() - k,
{
    if k < contracts.len() {
        lemma_all_signatures(contracts, k);
        lemma_signatures_grow(contracts, k + 1);
    } else {
        assert(contracts.take(k) =~= contracts);
    }
}

impl EthConnector {
    /// What a subscription with a filter asks for. Every address and every
    /// topic of the filter must be one that can be read.
    pub fn build_filter(filter: &EthFilter) -> (res: FilterPlan)
        requires
            filter_readable(filter@),
        ensures
            res@ == plan_of(filter@),
            plan_in_order(res@),
    {
        proof {
            lemma_filter_readable(*filter);
        }
        let addresses = read_addresses(&filter.addresses);
        let topics = read_topics(&filter.topics);
        match (addresses, topics) {
            (Some(a), Some(t)) => plan_from(filter, a, t),
            _ => {
                assert(false);
                FilterPlan { from_block: None, to_block: None, addresses: None, topics: None }
            },
        }
    }

    /// What a subscription with a filter asks for, or nothing where an
    /// address or a topic of the filter cannot be read.
    pub fn checked_filter(filter: &EthFilter) -> (res: Option<FilterPlan>)
        ensures
            res is Some <==> filter_readable(filter@),
            res matches Some(plan) ==> plan@ == plan_of(filter@) && plan_in_order(plan@),
    {
        proof {
            lemma_filter_readable(*filter);
        }
        let readable = read_addresses(&filter.addresses).is_some() && read_topics(
            &filter.topics,
        ).is_some();
        if readable {
            Some(Self::build_filter(filter))
        } else {
            None
        }
    }

    /// The number of the schema of every event of the contracts: the
    /// signatures in ascending order, numbered from two.
    fn build_schema_map(contracts: &Vec<(String, ContractTuple)>) -> (res: Vec<(Vec<u8>, usize)>)
        requires
            all_signatures(contracts_view(contracts@)).len() + 2 <= usize::MAX,
        ensures
            numbers(res@, all_signatures(contracts_view(contracts@))),
    {
        let ghost known = contracts_view(contracts@);
        let mut signatures: Vec<Vec<u8>> = Vec::new();
        let mut k: usize = 0;
        assert(known.take(0) =~= Seq::<(Seq<char>, ContractTupleValue)>::empty());
        while k < contracts.len()
            invariant
                k <= contracts.len(),
                known == contracts_view(contracts@),
                bytes_view(signatures@) == all_signatures(known.take(k as int)),
            decreases contracts.len() - k,
        {
            let ghost before = bytes_view(signatures@);
            let mut found = copy_values(&contracts[k].1.0);
            assert(bytes_view(found@) =~= known[k as int].1.signatures);
            proof {
                lemma_all_signatures(known, k as int);
            }
            signatures.append(&mut found);
            assert(bytes_view(signatures@) =~= before + known[k as int].1.signatures);
            k += 1;
        }
        assert(known.take(k as int) =~= known);
        let ghost all = bytes_view(signatures@);
        let mut sorted = sort_signatures(signatures);
        let ghost ordered = bytes_view(sorted@);
        assert(ordered.len() == all.len()) by {
            ordered.to_multiset_ensures();
            all.to_multiset_ensures();
        }
        let mut map: Vec<(Vec<u8>, usize)> = Vec::new();
        let mut i: usize = 0;
        while i < sorted.len()
            invariant
                i <= sorted.len(),
                sorted@.len() == ordered.len(),
                ordered.len() + 2 <= usize::MAX,
                forall|j: int| i <= j < sorted@.len() ==> (#[trigger] sorted@[j])@ == ordered[j],
                map@.len() == i,
                forall|j: int| 0 <= j < i ==> (#[trigger] map@[j]).0@ == ordered[j],
                forall|j: int| 0 <= j < i ==> (#[trigger] map@[j]).1 == j + 2,
            decreases sorted.len() - i,
        {
            let mut signature: Vec<u8> = Vec::new();
            std::mem::swap(&mut signature, &mut sorted[i]);
            map.push((signature, 2 + i));
            i += 1;
        }
        assert(map_signatures(map@) =~= ordered);
        map
    }

    /// The contracts of the settings by their addresses in lower case, each
    /// with the signatures of its events.
    fn read_contracts(configured_contracts: &Vec<EthContract>, events: &Vec<Vec<Vec<u8>>>) -> (res:
        Vec<(String, ContractTuple)>)
        requires
            events@.len() == configured_contracts@.len(),
        ensures
            contracts_view(res@) == contracts_of(
                configured(configured_contracts@),
                lists_view(events@),
                configured_contracts@.len() as nat,
            ),
    {
        let ghost wanted = configured(configured_contracts@);
        let ghost given = lists_view(events@);
        let mut contracts: Vec<(String, ContractTuple)> = Vec::new();
        let mut k: usize = 0;
        assert(contracts_view(contracts@) =~= contracts_of(wanted, given, 0));
        while k < configured_contracts.len()
            invariant
                k <= configured_contracts.len(),
                events@.len() == configured_contracts@.len(),
                wanted == configured(configured_contracts@),
                given == lists_view(events@),
                contracts_view(contracts@) == contracts_of(wanted, given, k as nat),
            decreases configured_contracts.len() - k,
        {
            let c = &configured_contracts[k];
            assert(wanted[k as int] == c@);
            let signatures = copy_values(&events[k]);
            assert(bytes_view(signatures@) =~= given[k as int]);
            let address = to_lowercase(c.address.as_str());
            put_contract(&mut contracts, address, ContractTuple(signatures, c.name.clone()));
            k += 1;
        }
        contracts
    }

    /// Whether the events of the contracts are few enough to be numbered.
    fn can_be_numbered(contracts: &Vec<(String, ContractTuple)>) -> (res: bool)
        ensures
            res == (all_signatures(contracts_view(contracts@)).len() + 2 <= usize::MAX),
    {
        let ghost known = contracts_view(contracts@);
        let mut count: usize = 0;
        let mut k: usize = 0;
        assert(known.take(0) =~= Seq::<(Seq<char>, ContractTupleValue)>::empty());
        while k < contracts.len()
            invariant
                k <= contracts.len(),
                known == contracts_view(contracts@),
                count == all_signatures(known.take(k as int)).len(),
                count + 2 <= usize::MAX,
            decreases contracts.len() - k,
        {
            let found = &contracts[k].1.0;
            proof {
                lemma_all_signatures(known, k as int);
                assert(known[k as int].1.signatures.len() == found@.len());
            }
            if found.len() > usize::MAX - 2 - count {
                proof {
                    lemma_signatures_grow(known, k as int + 1);
                }
                return false;
            }
            count += found.len();
            k += 1;
        }
        assert(known.take(k as int) =~= known);
        true
    }

    /// The connector of the given settings. `events` holds, for every
    /// contract of the settings in their order, the signatures of its
    /// events as they were read from its description. Every contract must
    /// have its events, and the events must be few enough to be numbered.
    pub fn new(id: u64, config: EthConfig, conn_name: String, events: Vec<Vec<Vec<u8>>>) -> (res:
        Self)
        requires
            can_connect(configured(config.contracts@), lists_view(events@)),
        ensures
            res.id == id,
            res.config == config,
            res.conn_name == conn_name,
            res.tables is None,
            res.ingestor is None,
            contracts_view(res.contracts@) == contracts_of(
                configured(config.contracts@),
                lists_view(events@),
                config.contracts@.len() as nat,
            ),
            numbers(res.schema_map@, all_signatures(contracts_view(res.contracts@))),
    {
        let contracts = Self::read_contracts(&config.contracts, &events);
        let schema_map = Self::build_schema_map(&contracts);
        EthConnector {
            id,
            config,
            contracts,
            schema_map,
            tables: None,
            ingestor: None,
            conn_name,
        }
    }

    /// The connector of the given settings and events, or nothing where a
    /// contract is without its events or the events are too many to be
    /// numbered.
    pub fn try_new(id: u64, config: EthConfig, conn_name: String, events: Vec<Vec<Vec<u8>>>) -> (res:
        Option<Self>)
        ensures
            res is Some <==> can_connect(configured(config.contracts@), lists_view(events@)),
            res matches Some(connector) ==> {
                &&& connector.id == id
                &&& connector.config == config
                &&& connector.conn_name == conn_name
                &&& connector.tables is None
                &&& connector.ingestor is None
                &&& contracts_view(connector.contracts@) == contracts_of(
                    configured(config.contracts@),
                    lists_view(events@),
                    config.contracts@.len() as nat,
                )
                &&& numbers(
                    connector.schema_map@,
                    all_signatures(contracts_view(connector.contracts@)),
                )
            },
    {
        if events.len() != config.contracts.len() {
            return None;
        }
        let contracts = Self::read_contracts(&config.contracts, &events);
        if Self::can_be_numbered(&contracts) {
            Some(Self::new(id, config, conn_name, events))
        } else {
            None
        }
    }

    /// The number of the schema of the event with a signature, if the
    /// contracts have such an event.
    pub fn schema_id(&self, signature: &Vec<u8>) -> (res: Option<usize>)
        ensures
            res == schema_number(self.schema_map@, signature@),
    {
        let ghost map = self.schema_map@;
        let mut i: usize = self.schema_map.len();
        assert(map.take(i as int) =~= map);
        while i > 0
            invariant
                i <= self.schema_map.len(),
                map == self.schema_map@,
                schema_number(map, signature@) == schema_number(map.take(i as int), signature@),
            decreases i,
        {
            assert(map.take(i as int).drop_last() =~= map.take(i - 1));
            assert(map.take(i as int).last() == map[i - 1]);
            if bytes_equal(&self.schema_map[i - 1].0, signature) {
                return Some(self.schema_map[i - 1].1);
            }
            i -= 1;
        }
        None
    }

    /// Takes the ingestor to hand the logs to, and the tables to read.
    pub fn initialize(&mut self, ingestor: Ingestor, tables: Option<Vec<TableInfo>>) -> (res:
        Result<(), ConnectorError>)
        ensures
            res is Ok,
            final(self).ingestor == Some(ingestor),
            final(self).tables == tables,
            final(self).id == old(self).id,
            final(self).config == old(self).config,
            final(self).contracts == old(self).contracts,
            final(self).schema_map == old(self).schema_map,
            final(self).conn_name == old(self).conn_name,
    {
        self.ingestor = Some(ingestor);
        self.tables = tables;
        Ok(())
    }

    /// The ingestor to hand the logs to. A connector that was not
    /// initialized has none and cannot be started.
    pub fn ingestor(&self) -> (res: Result<&Ingestor, ConnectorError>)
        ensures
            match self.ingestor {
                Some(i) => res == Ok::<&Ingestor, ConnectorError>(&i),
                None => res == Err::<&Ingestor, ConnectorError>(
                    ConnectorError::InitializationError,
                ),
            },
    {
        match &self.ingestor {
            Some(i) => Ok(i),
            None => Err(ConnectorError::InitializationError),
        }
    }

    /// The filter of the settings, or one that asks for every log where
    /// the settings have none.
    pub fn filter(&self) -> (res: EthFilter)
        ensures
            res@ == match self.config.filter {
                Some(f) => f@,
                None => (EthFilterValue {
                    from_block: None,
                    to_block: None,
                    addresses: Seq::empty(),
                    topics: Seq::empty(),
                }),
            },
    {
        match &self.config.filter {
            Some(f) => {
                let res = EthFilter {
                    from_block: f.from_block,
                    to_block: f.to_block,
                    addresses: f.addresses.clone(),
                    topics: f.topics.clone(),
                };
                assert(res@.addresses =~= f@.addresses);
                assert(res@.topics =~= f@.topics);
                res
            },
            None => {
                let res = EthFilter {
                    from_block: None,
                    to_block: None,
                    addresses: Vec::new(),
                    topics: Vec::new(),
                };
                assert(res@.addresses =~= Seq::<Seq<char>>::empty());
                assert(res@.topics =~= Seq::<Seq<char>>::empty());
                res
            },
        }
    }

    /// Nothing is to be done to stop.
    pub fn stop(&self) {
    }

    /// Nothing is tested of the connection.
    pub fn test_connection(&self) -> (res: Result<(), ConnectorError>)
        ensures
            res is Ok,
    {
        Ok(())
    }

    /// Whether the settings can be used: the description of every
    /// contract must be one that could be read. `readable` says of every
    /// contract of the settings, in their order, whether it could.
    pub fn validate(&self, readable: &Vec<bool>) -> (res: Result<(), ConnectorError>)
        ensures
            res is Ok <==> readable@.len() == self.config.contracts@.len() && forall|i: int|
                0 <= i < readable@.len() ==> #[trigger] readable@[i],
            res is Err ==> res == Err::<(), ConnectorError>(ConnectorError::SerializationError),
    {
        if readable.len() != self.config.contracts.len() {
            return Err(ConnectorError::SerializationError);
        }
        let mut k: usize = 0;
        while k < readable.len()
            invariant
                k <= readable.len(),
                forall|j: int| 0 <= j < k ==> #[trigger] readable@[j],
            decreases readable.len() - k,
        {
            if !readable[k] {
                return Err(ConnectorError::SerializationError);
            }
            k += 1;
        }
        Ok(())
    }

    /// Of the schemas that the connector offers, those of the tables that
    /// are asked for, by their names; all of them where no tables are
    /// named.
    pub fn get_schemas(
        &self,
        offered: &Vec<(String, Schema)>,
        tables: Option<Vec<TableInfo>>,
    ) -> (res: Result<Vec<(String, Schema)>, ConnectorError>)
        ensures
            res is Ok,
            schemas_view(res->Ok_0@) == match tables {
                Some(t) => chosen_schemas(schemas_view(offered@), t@),
                None => schemas_view(offered@),
            },
    {
        let ghost all = schemas_view(offered@);
        let mut out: Vec<(String, Schema)> = Vec::new();
        let mut i: usize = 0;
        assert(all.take(0) =~= Seq::<(Seq<char>, SchemaValue)>::empty());
        while i < offered.len()
            invariant
                i <= offered.len(),
                all == schemas_view(offered@),
                schemas_view(out@) == match tables {
                    Some(t) => chosen_schemas(all.take(i as int), t@),
                    None => all.take(i as int),
                },
            decreases offered.len() - i,
        {
            let ghost before = schemas_view(out@);
            assert(all.take(i + 1).drop_last() =~= all.take(i as int));
            assert(all.take(i + 1).last() == all[i as int]);
            let wanted = match &tables {
                Some(t) => is_listed(t, &offered[i].0),
                None => true,
            };
            if wanted {
                out.push((offered[i].0.clone(), offered[i].1.clone()));
                assert(schemas_view(out@) =~= before.push(all[i as int]));
            }
            proof {
                if tables is None {
                    assert(all.take(i + 1) =~= all.take(i as int).push(all[i as int]));
                }
            }
            i += 1;
        }
        assert(all.take(i as int) =~= all);
        Ok(out)
    }

    /// The tables of the schemas that the connector offers, numbered in
    /// their order from zero: each has the name of its schema and the names
    /// of the schema's fields as its columns.
    pub fn get_tables(&self, offered: &Vec<(String, Schema)>) -> (res: Result<
        Vec<TableInfo>,
        ConnectorError,
    >)
        ensures
            res is Ok,
            res->Ok_0@.len() == offered@.len(),
            forall|i: int|
                0 <= i < offered@.len() ==> table_of(
                    #[trigger] res->Ok_0@[i],
                    i,
                    offered@[i].0@,
                    offered@[i].1@,
                ),
    {
        let mut out: Vec<TableInfo> = Vec::new();
        let mut i: usize = 0;
        while i < offered.len()
            invariant
                i <= offered.len(),
                out@.len() == i,
                forall|j: int|
                    0 <= j < i ==> table_of(#[trigger] out@[j], j, offered@[j].0@, offered@[j].1@),
            decreases offered.len() - i,
        {
            let schema = &offered[i].1;
            let mut columns: Vec<String> = Vec::new();
            let mut k: usize = 0;
            while k < schema.fields.len()
                invariant
                    k <= schema.fields.len(),
                    columns@.len() == k,
                    forall|j: int| 0 <= j < k ==> (#[trigger] columns@[j])@ == schema.fields@[j].name@,
                decreases schema.fields.len() - k,
            {
                columns.push(schema.fields[k].name.clone());
                k += 1;
            }
            let place: u64 = i as u64;
            let id: u32 = (place % 0x1_0000_0000u64) as u32;
            let table = TableInfo {
                name: offered[i].0.clone(),
                table_name: offered[i].0.clone(),
                id,
                columns: Some(columns),
            };
            assert(strings_view(columns@) =~= field_names(schema@));
            out.push(table);
            i += 1;
        }
        Ok(out)
    }

    /// Nothing is found wrong with the schemas of any table.
    pub fn validate_schemas(&self, tables: &Vec<TableInfo>) -> (res: Result<
        Vec<(String, Vec<String>)>,
        ConnectorError,
    >)
        ensures
            res is Ok,
            res->Ok_0@.len() == 0,
    {
        Ok(Vec::new())
    }
}

} // verus!

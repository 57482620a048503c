use std::str::FromStr;

use dozer_pipeline::ethereum::{
    ConnectorError, EthConfig, EthConnector, EthContract, EthFilter, TableInfo,
};
use dozer_pipeline::ingestion::{IngestionConfig, Ingestor};
use dozer_pipeline::types::{FieldDefinition, FieldType, Schema};
use web3::types::{Address, H256};

const TOKEN: &str = r#"[
  {"anonymous":false,"inputs":[
    {"indexed":true,"name":"from","type":"address"},
    {"indexed":true,"name":"to","type":"address"},
    {"indexed":false,"name":"value","type":"uint256"}],"name":"Transfer","type":"event"},
  {"anonymous":false,"inputs":[
    {"indexed":true,"name":"owner","type":"address"},
    {"indexed":true,"name":"spender","type":"address"},
    {"indexed":false,"name":"value","type":"uint256"}],"name":"Approval","type":"event"}
]"#;

const VAULT: &str = r#"[
  {"anonymous":false,"inputs":[
    {"indexed":true,"name":"from","type":"address"},
    {"indexed":true,"name":"to","type":"address"},
    {"indexed":false,"name":"value","type":"uint256"}],"name":"Transfer","type":"event"}
]"#;

const TRANSFER: &str = "ddf252ad1be2c89b69c2b068fc378daa952ba7f163c4a11628f55a4df523b3ef";
const APPROVAL: &str = "8c5be1e5ebec7d5bd14f71427d1e84f3dd0314c0f7b2291e5b200ac8c7c3b925";

fn hash(hex: &str) -> Vec<u8> {
    H256::from_str(hex).unwrap().as_bytes().to_vec()
}

fn contract(name: &str, address: &str, abi: &str) -> EthContract {
    EthContract { name: name.to_string(), address: address.to_string(), abi: abi.to_string() }
}

fn config(contracts: Vec<EthContract>) -> EthConfig {
    EthConfig { filter: None, wss_url: "wss://node".to_string(), contracts }
}

fn signatures(abi: &str) -> Vec<Vec<u8>> {
    let contract = web3::ethabi::Contract::load(abi.as_bytes()).unwrap();
    contract.events.values().flatten().map(|e| e.signature().as_bytes().to_vec()).collect()
}

fn connect(id: u64, config: EthConfig) -> Option<EthConnector> {
    let events = config.contracts.iter().map(|c| signatures(&c.abi)).collect();
    EthConnector::try_new(id, config, "eth".to_string(), events)
}

#[test]
fn a_filter_without_addresses_and_topics_asks_for_every_log() {
    let plan = EthConnector::checked_filter(&EthFilter::default()).unwrap();
    assert_eq!(plan.from_block, None);
    assert_eq!(plan.to_block, None);
    assert_eq!(plan.addresses, None);
    assert_eq!(plan.topics, None);
}

#[test]
fn addresses_and_topics_are_read_as_bytes() {
    let address = "0x00000000219ab540356cBB839Cbe05303d7705Fa";
    let filter = EthFilter {
        from_block: Some(7),
        to_block: Some(9),
        addresses: vec![address.to_string(), address[2..].to_string()],
        topics: vec![TRANSFER.to_string(), format!("0x{}", APPROVAL)],
    };
    let plan = EthConnector::checked_filter(&filter).unwrap();
    let bytes = Address::from_str(address).unwrap().as_bytes().to_vec();
    assert_eq!(bytes.len(), 20);
    assert_eq!(bytes[4], 0x21);
    assert_eq!(plan.from_block, Some(7));
    assert_eq!(plan.to_block, Some(9));
    assert_eq!(plan.addresses, Some(vec![bytes.clone(), bytes]));
    assert_eq!(plan.topics, Some(vec![vec![hash(TRANSFER)], vec![hash(APPROVAL)]]));
    assert_eq!(hash(TRANSFER)[0], 0xdd);
    assert_eq!(hash(TRANSFER).len(), 32);
}

#[test]
fn only_the_first_four_topics_are_asked_for() {
    let topics: Vec<String> = (1..=6).map(|i| format!("{:064x}", i)).collect();
    let filter = EthFilter { from_block: None, to_block: None, addresses: vec![], topics };
    let plan = EthConnector::checked_filter(&filter).unwrap();
    let positions = plan.topics.unwrap();
    assert_eq!(positions.len(), 4);
    for (i, position) in positions.iter().enumerate() {
        assert_eq!(position.len(), 1);
        assert_eq!(position[0][31], (i + 1) as u8);
        assert!(position[0][..31].iter().all(|b| *b == 0));
    }
}

#[test]
fn a_filter_that_cannot_be_read_gives_no_plan() {
    let mut filter = EthFilter::default();
    filter.addresses = vec!["0x1234".to_string()];
    assert!(EthConnector::checked_filter(&filter).is_none());
    let mut filter = EthFilter::default();
    filter.topics = vec![TRANSFER.to_string(), "zz".to_string()];
    assert!(EthConnector::checked_filter(&filter).is_none());
    let mut filter = EthFilter::default();
    filter.topics = vec![
        TRANSFER.to_string(),
        TRANSFER.to_string(),
        TRANSFER.to_string(),
        TRANSFER.to_string(),
        "not a topic".to_string(),
    ];
    assert!(EthConnector::checked_filter(&filter).is_none());
}

#[test]
fn events_are_numbered_from_two_in_the_order_of_their_signatures() {
    let address = "0xABCDEF0000000000000000000000000000000001";
    let connector = connect(1, config(vec![contract("token", address, TOKEN)])).unwrap();
    assert_eq!(connector.id, 1);
    assert_eq!(connector.conn_name, "eth");
    assert!(connector.tables.is_none());
    assert_eq!(connector.contracts.len(), 1);
    assert_eq!(connector.contracts[0].0, "0xabcdef0000000000000000000000000000000001");
    assert_eq!(connector.contracts[0].1 .1, "token");
    assert_eq!(connector.contracts[0].1 .0, vec![hash(APPROVAL), hash(TRANSFER)]);
    assert_eq!(
        connector.schema_map,
        vec![(hash(APPROVAL), 2), (hash(TRANSFER), 3)]
    );
    assert_eq!(connector.schema_id(&hash(APPROVAL)), Some(2));
    assert_eq!(connector.schema_id(&hash(TRANSFER)), Some(3));
    assert_eq!(connector.schema_id(&vec![0u8; 32]), None);
}

#[test]
fn an_event_of_two_contracts_has_the_number_of_its_last_place() {
    let connector = connect(1, config(vec![
            contract("vault", "0x02", VAULT),
            contract("token", "0x01", TOKEN),
        ]))
    .unwrap();
    assert_eq!(
        connector.schema_map,
        vec![(hash(APPROVAL), 2), (hash(TRANSFER), 3), (hash(TRANSFER), 4)]
    );
    assert_eq!(connector.schema_id(&hash(TRANSFER)), Some(4));
    assert_eq!(connector.schema_id(&hash(APPROVAL)), Some(2));
}

#[test]
fn the_last_contract_of_an_address_counts() {
    let connector = connect(1, config(vec![
            contract("first", "0xAA", TOKEN),
            contract("other", "0xbb", VAULT),
            contract("second", "0xaa", VAULT),
        ]))
    .unwrap();
    assert_eq!(connector.contracts.len(), 2);
    assert_eq!(connector.contracts[0].0, "0xaa");
    assert_eq!(connector.contracts[0].1 .1, "second");
    assert_eq!(connector.contracts[0].1 .0, vec![hash(TRANSFER)]);
    assert_eq!(connector.contracts[1].0, "0xbb");
    assert_eq!(connector.schema_map, vec![(hash(TRANSFER), 2), (hash(TRANSFER), 3)]);
}

#[test]
fn a_contract_without_its_events_is_refused() {
    let settings = || config(vec![contract("token", "0x01", TOKEN), contract("bad", "0x02", "{")]);
    assert!(web3::ethabi::Contract::load("{".as_bytes()).is_err());
    assert!(
        EthConnector::try_new(1, settings(), "eth".to_string(), vec![signatures(TOKEN)]).is_none()
    );
    assert!(EthConnector::try_new(1, settings(), "eth".to_string(), vec![]).is_none());
    let connector = EthConnector::try_new(
        1,
        settings(),
        "eth".to_string(),
        vec![signatures(TOKEN), vec![]],
    )
    .unwrap();
    assert_eq!(connector.schema_map, vec![(hash(APPROVAL), 2), (hash(TRANSFER), 3)]);
    assert_eq!(connector.validate(&vec![true, true]), Ok(()));
    assert_eq!(connector.validate(&vec![true, false]), Err(ConnectorError::SerializationError));
    assert_eq!(connector.validate(&vec![true]), Err(ConnectorError::SerializationError));
    assert_eq!(connector.test_connection(), Ok(()));
    assert_eq!(connector.validate_schemas(&vec![]), Ok(vec![]));
}

#[test]
fn a_connector_has_no_ingestor_before_it_is_initialized() {
    let mut connector = connect(3, config(vec![])).unwrap();
    assert!(connector.schema_map.is_empty());
    assert!(matches!(connector.ingestor(), Err(ConnectorError::InitializationError)));
    let (ingestor, _iterator) = Ingestor::initialize_channel(IngestionConfig::default());
    let tables = vec![TableInfo {
        name: "eth_logs".to_string(),
        table_name: "eth_logs".to_string(),
        id: 0,
        columns: None,
    }];
    assert_eq!(connector.initialize(ingestor, Some(tables)), Ok(()));
    assert!(connector.ingestor().is_ok());
    assert_eq!(connector.tables.as_ref().unwrap().len(), 1);
    assert_eq!(connector.id, 3);
    connector.stop();
}

#[test]
fn the_filter_of_the_settings_is_handed_out() {
    let mut settings = config(vec![]);
    let connector = connect(3, config(vec![])).unwrap();
    let filter = connector.filter();
    assert_eq!(filter.from_block, None);
    assert!(filter.addresses.is_empty() && filter.topics.is_empty());
    settings.filter = Some(EthFilter {
        from_block: Some(5),
        to_block: None,
        addresses: vec!["0x01".to_string()],
        topics: vec![TRANSFER.to_string()],
    });
    let connector = connect(3, settings).unwrap();
    let filter = connector.filter();
    assert_eq!(filter.from_block, Some(5));
    assert_eq!(filter.addresses, vec!["0x01".to_string()]);
    assert_eq!(filter.topics, vec![TRANSFER.to_string()]);
}

fn schema(names: &[&str]) -> Schema {
    let mut schema = Schema::empty();
    for name in names {
        schema.field(FieldDefinition::new(name.to_string(), FieldType::Int, false), true, false);
    }
    schema
}

#[test]
fn schemas_are_chosen_by_the_names_of_the_tables() {
    let connector = connect(3, config(vec![])).unwrap();
    let offered = vec![
        ("eth_logs".to_string(), schema(&["id", "address"])),
        ("token_Transfer".to_string(), schema(&["from", "to", "value"])),
        ("token_Approval".to_string(), schema(&["owner"])),
    ];
    let all = connector.get_schemas(&offered, None).unwrap();
    assert_eq!(all, offered);
    let table = |name: &str| TableInfo {
        name: "shown".to_string(),
        table_name: name.to_string(),
        id: 9,
        columns: None,
    };
    let some = connector
        .get_schemas(&offered, Some(vec![table("token_Approval"), table("eth_logs"), table("x")]))
        .unwrap();
    assert_eq!(some.len(), 2);
    assert_eq!(some[0], offered[0]);
    assert_eq!(some[1], offered[2]);
    assert_eq!(connector.get_schemas(&offered, Some(vec![])).unwrap(), vec![]);
}

#[test]
fn tables_are_numbered_in_the_order_of_the_schemas() {
    let connector = connect(3, config(vec![])).unwrap();
    let offered = vec![
        ("eth_logs".to_string(), schema(&["id", "address"])),
        ("token_Transfer".to_string(), schema(&["from", "to", "value"])),
    ];
    assert_eq!(
        connector.get_tables(&offered),
        Ok(vec![
            TableInfo {
                name: "eth_logs".to_string(),
                table_name: "eth_logs".to_string(),
                id: 0,
                columns: Some(vec!["id".to_string(), "address".to_string()]),
            },
            TableInfo {
                name: "token_Transfer".to_string(),
                table_name: "token_Transfer".to_string(),
                id: 1,
                columns: Some(vec!["from".to_string(), "to".to_string(), "value".to_string()]),
            },
        ])
    );
}

use msg_tracer::blockchain::{
    account_from_query, first_record, message_from_query, DecodedData, GraphQLAccount,
    GraphQLMessage, GraphQLTransaction, GraphQLTransactionCompute, LedgerError,
};
use msg_tracer::decoder::{assemble_account, assemble_message, DecodeSearch};

fn account(boc: Option<&str>) -> GraphQLAccount {
    GraphQLAccount {
        id: String::from("0:acc"),
        boc: boc.map(String::from),
        code: String::from("code"),
        data: String::from("data"),
    }
}

fn record(id: &str) -> GraphQLMessage {
    GraphQLMessage {
        id: String::from(id),
        src: String::from("src"),
        dst: String::from("dst"),
        boc: String::from("body"),
        dst_transaction: GraphQLTransaction {
            id: String::from("tx"),
            aborted: false,
            out_msgs: vec![],
            lt: String::from("0x1"),
            compute: GraphQLTransactionCompute { exit_code: Some(0), vm_steps: Some(3) },
        },
    }
}

fn abis() -> Vec<String> {
    vec![String::from("D1"), String::from("D2"), String::from("D3")]
}

#[test]
fn empty_state_differs_from_not_found() {
    assert_eq!(account_from_query(vec![]), Err(LedgerError::NotFound));
    assert_eq!(account_from_query(vec![account(None)]), Err(LedgerError::EmptyState));
    assert_eq!(account_from_query(vec![account(Some("state"))]), Ok(account(Some("state"))));
}

#[test]
fn first_record_of_query() {
    assert_eq!(first_record::<u8>(vec![]), Err(LedgerError::NotFound));
    assert_eq!(first_record(vec![7u8, 9]), Ok(7));
    assert_eq!(message_from_query(vec![]), Err(LedgerError::NotFound));
    assert_eq!(message_from_query(vec![record("m")]), Ok(record("m")));
}

#[test]
fn decode_first_match_wins() {
    let abis = abis();
    let mut search = DecodeSearch::new();
    let mut tried: Vec<usize> = Vec::new();
    while let Some(i) = search.pending(&abis) {
        tried.push(i);
        // D2 and D3 both decode; only D2 may be reported.
        let outcome = if i >= 1 { Some(format!("value-{}", i)) } else { None };
        search.record(&abis, outcome);
    }
    assert_eq!(tried, vec![0, 1]);
    assert_eq!(
        search.finish(&abis),
        Some(DecodedData { abi_path: String::from("D2"), data: String::from("value-1") })
    );
}

#[test]
fn decode_without_match_is_empty() {
    let abis = abis();
    let mut search = DecodeSearch::new();
    let mut count = 0;
    while let Some(_) = search.pending(&abis) {
        count += 1;
        search.record(&abis, None);
    }
    assert_eq!(count, 3);
    assert_eq!(search.finish(&abis), None);
    let empty: Vec<String> = vec![];
    let search = DecodeSearch::new();
    assert_eq!(search.pending(&empty), None);
}

#[test]
fn account_and_message_assembly() {
    let decoded = Some(DecodedData { abi_path: String::from("D1"), data: String::from("{}") });
    let a = assemble_account(account(Some("state")), decoded.clone());
    assert_eq!(a.id, "0:acc");
    assert_eq!(a.boc, "state");
    assert_eq!(a.code, "code");
    assert_eq!(a.data, "data");
    assert_eq!(a.decoded, decoded);
    assert_eq!(assemble_account(account(None), None).boc, "");
    let m = assemble_message(record("m1"), None);
    assert_eq!(m.id, "m1");
    assert_eq!(m.boc, "body");
    assert!(m.transaction.is_none());
}

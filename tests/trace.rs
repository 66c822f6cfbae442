use std::collections::HashMap;

use msg_tracer::blockchain::{
    DecodedData, GraphQLMessage, GraphQLTransaction, GraphQLTransactionCompute, LedgerError,
    Message,
};
use msg_tracer::tracer::{TraceAction, TraceError, TraceEvent, Tracer};

fn rec(id: &str, tx: &str, lt: &str, exit_code: Option<i64>, out: &[&str]) -> GraphQLMessage {
    GraphQLMessage {
        id: String::from(id),
        src: format!("src-{}", id),
        dst: format!("dst-{}", id),
        boc: format!("boc-{}", id),
        dst_transaction: GraphQLTransaction {
            id: String::from(tx),
            aborted: false,
            out_msgs: out.iter().map(|s| String::from(*s)).collect(),
            lt: String::from(lt),
            compute: GraphQLTransactionCompute { exit_code, vm_steps: Some(10) },
        },
    }
}

fn ledger(records: Vec<GraphQLMessage>) -> HashMap<String, GraphQLMessage> {
    records.into_iter().map(|r| (r.id.clone(), r)).collect()
}

fn no_decode(_abi: &str, _boc: &str) -> Option<String> {
    None
}

fn run(
    ledger: &HashMap<String, GraphQLMessage>,
    abis: &[&str],
    decode: bool,
    max_depth: usize,
    root: &str,
    dec: fn(&str, &str) -> Option<String>,
) -> (Result<Message, TraceError>, Vec<String>) {
    let abis: Vec<String> = abis.iter().map(|s| String::from(*s)).collect();
    let (mut tracer, mut action) = Tracer::new(abis.clone(), decode, max_depth, String::from(root));
    let mut fetched: Vec<String> = Vec::new();
    loop {
        let event = match action {
            TraceAction::Fetch(id) => {
                fetched.push(id.clone());
                match ledger.get(&id) {
                    Some(r) => TraceEvent::Fetched(r.clone()),
                    None => TraceEvent::FetchFailed(LedgerError::NotFound),
                }
            }
            TraceAction::Decode { abi, boc } => TraceEvent::Decoded(dec(&abis[abi], &boc)),
            TraceAction::Done(m) => return (Ok(m), fetched),
            TraceAction::Failed(e) => return (Err(e), fetched),
        };
        action = tracer.step(event);
    }
}

#[test]
fn end_to_end_two_levels() {
    let l = ledger(vec![
        rec("msg1", "tx1", "0x10", Some(0), &["msg2"]),
        rec("msg2", "tx2", "0x11", None, &[]),
    ]);
    let (r, fetched) = run(&l, &[], false, 16, "msg1", no_decode);
    let m = r.unwrap();
    assert_eq!(fetched, vec![String::from("msg1"), String::from("msg2")]);
    assert_eq!(m.id, "msg1");
    assert_eq!(m.src, "src-msg1");
    assert!(m.decoded.is_none());
    let t = m.transaction.unwrap();
    assert_eq!(t.id, "tx1");
    assert!(!t.aborted);
    assert_eq!(t.lt, Some(16));
    assert_eq!(t.exit_code, Some(0));
    assert_eq!(t.vm_steps, Some(10));
    assert_eq!(t.messages.len(), 1);
    let child = &t.messages[0];
    assert_eq!(child.id, "msg2");
    let t2 = child.transaction.as_ref().unwrap();
    assert_eq!(t2.id, "tx2");
    assert_eq!(t2.lt, Some(17));
    assert_eq!(t2.exit_code, None);
    assert!(t2.messages.is_empty());
}

fn ids(m: &Message) -> Vec<String> {
    m.transaction.as_ref().unwrap().messages.iter().map(|c| c.id.clone()).collect()
}

#[test]
fn children_keep_emission_order_and_depth() {
    let l = ledger(vec![
        rec("r", "t0", "0x1", Some(0), &["c", "a", "b"]),
        rec("c", "t1", "0x2", Some(0), &["c1"]),
        rec("c1", "t2", "0x3", Some(0), &[]),
        rec("a", "t3", "0x4", Some(0), &[]),
        rec("b", "t4", "zz", Some(0), &["b1", "b2"]),
        rec("b1", "t5", "0x6", Some(0), &[]),
        rec("b2", "t6", "0x7", Some(0), &[]),
    ]);
    let (r, fetched) = run(&l, &[], false, 3, "r", no_decode);
    let m = r.unwrap();
    assert_eq!(fetched, vec!["r", "c", "c1", "a", "b", "b1", "b2"]);
    assert_eq!(ids(&m), vec!["c", "a", "b"]);
    let kids = &m.transaction.as_ref().unwrap().messages;
    assert_eq!(ids(&kids[0]), vec!["c1"]);
    assert_eq!(ids(&kids[2]), vec!["b1", "b2"]);
    assert_eq!(kids[2].transaction.as_ref().unwrap().lt, None);
    assert!(ids(&kids[0].transaction.as_ref().unwrap().messages[0]).is_empty());
}

#[test]
fn trace_too_deep_fails_closed() {
    let l = ledger(vec![
        rec("a", "t1", "0x1", Some(0), &["b"]),
        rec("b", "t2", "0x2", Some(0), &["c"]),
        rec("c", "t3", "0x3", Some(0), &[]),
    ]);
    assert!(run(&l, &[], false, 3, "a", no_decode).0.is_ok());
    assert_eq!(run(&l, &[], false, 2, "a", no_decode).0, Err(TraceError::TraceTooDeep));
    assert_eq!(run(&l, &[], false, 0, "a", no_decode).0, Err(TraceError::TraceTooDeep));
}

#[test]
fn missing_child_aborts_trace() {
    let l = ledger(vec![rec("a", "t1", "0x1", Some(0), &["b", "gone"]), rec("b", "t2", "0x2", None, &[])]);
    assert_eq!(
        run(&l, &[], false, 8, "a", no_decode).0,
        Err(TraceError::Ledger(LedgerError::NotFound))
    );
}

#[test]
fn repeated_message_is_refused() {
    let l = ledger(vec![rec("a", "t1", "0x1", Some(0), &["b"]), rec("b", "t2", "0x2", None, &["a"])]);
    assert_eq!(run(&l, &[], false, 8, "a", no_decode).0, Err(TraceError::RepeatedMessage));
}

#[test]
fn record_of_another_message_is_refused() {
    let mut l = ledger(vec![rec("a", "t1", "0x1", Some(0), &["b"])]);
    l.insert(String::from("b"), rec("x", "t2", "0x2", None, &[]));
    assert_eq!(run(&l, &[], false, 8, "a", no_decode).0, Err(TraceError::UnexpectedRecord));
}

fn dec_by_suffix(abi: &str, boc: &str) -> Option<String> {
    if abi == "D2" && boc.ends_with('2') {
        Some(format!("{}:{}", abi, boc))
    } else if abi == "D3" {
        Some(String::from("late"))
    } else {
        None
    }
}

#[test]
fn trace_decodes_each_message_first_match() {
    let l = ledger(vec![rec("m1", "t1", "0x1", Some(0), &["m2"]), rec("m2", "t2", "0x2", None, &[])]);
    let m = run(&l, &["D1", "D2", "D3"], true, 8, "m1", dec_by_suffix).0.unwrap();
    assert_eq!(m.decoded, Some(DecodedData { abi_path: String::from("D3"), data: String::from("late") }));
    let child = &m.transaction.as_ref().unwrap().messages[0];
    assert_eq!(
        child.decoded,
        Some(DecodedData { abi_path: String::from("D2"), data: String::from("D2:boc-m2") })
    );
    let plain = run(&l, &["D1", "D2", "D3"], false, 8, "m1", dec_by_suffix).0.unwrap();
    assert!(plain.decoded.is_none());
}

#[test]
fn tracing_twice_gives_the_same_tree() {
    let l = ledger(vec![
        rec("m1", "t1", "0x10", Some(0), &["m2", "m3"]),
        rec("m2", "t2", "0x11", None, &[]),
        rec("m3", "t3", "0x12", Some(1), &[]),
    ]);
    let a = run(&l, &["D1", "D2"], true, 8, "m1", dec_by_suffix).0.unwrap();
    let b = run(&l, &["D1", "D2"], true, 8, "m1", dec_by_suffix).0.unwrap();
    assert_eq!(a, b);
}

#[test]
fn events_out_of_turn_are_refused() {
    let (mut t, first) = Tracer::new(vec![], false, 4, String::from("a"));
    assert_eq!(first, TraceAction::Fetch(String::from("a")));
    assert_eq!(t.step(TraceEvent::Decoded(None)), TraceAction::Failed(TraceError::UnexpectedEvent));
    assert_eq!(t.step(TraceEvent::Decoded(None)), TraceAction::Failed(TraceError::UnexpectedEvent));
    let (mut t, _) = Tracer::new(vec![], false, 4, String::from("a"));
    let e = LedgerError::Transport(String::from("down"));
    assert_eq!(t.step(TraceEvent::FetchFailed(e.clone())), TraceAction::Failed(TraceError::Ledger(e)));
}

#[test]
fn zero_depth_stops_before_any_fetch() {
    let (_, first) = Tracer::new(vec![], false, 0, String::from("a"));
    assert_eq!(first, TraceAction::Failed(TraceError::TraceTooDeep));
}

#[test]
fn malformed_lt_does_not_abort_trace() {
    let l = ledger(vec![
        rec("a", "t1", "0xffffffffffffffff", Some(0), &["b"]),
        rec("b", "t2", "", None, &["c"]),
        rec("c", "t3", "0x2a", None, &[]),
    ]);
    let m = run(&l, &[], false, 8, "a", no_decode).0.unwrap();
    let t = m.transaction.unwrap();
    assert_eq!(t.lt, None);
    let tb = t.messages[0].transaction.as_ref().unwrap();
    assert_eq!(tb.lt, None);
    assert_eq!(tb.messages[0].transaction.as_ref().unwrap().lt, Some(42));
}

#[test]
fn self_emitting_message_is_refused_before_fetch() {
    let l = ledger(vec![rec("a", "t1", "0x1", Some(0), &["a"])]);
    let (r, fetched) = run(&l, &[], false, 8, "a", no_decode);
    assert_eq!(r, Err(TraceError::RepeatedMessage));
    assert_eq!(fetched, vec!["a"]);
}

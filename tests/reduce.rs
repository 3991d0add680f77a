use utxo_by_address::{
    format_identifier, Block, BlockContext, Config, CrdtCommand, ErrorAction, OutputRef,
    ReduceError, Reducer, RuntimePolicy, SetOp, Transaction, TxOutput,
};

fn oref(hash: &str, index: u64) -> OutputRef {
    OutputRef { hash: hash.to_string(), index }
}

fn out(address: &str) -> TxOutput {
    TxOutput { address: Some(address.to_string()) }
}

fn bad_out() -> TxOutput {
    TxOutput { address: None }
}

fn valid_tx(hash: &str, inputs: Vec<OutputRef>, outputs: Vec<TxOutput>) -> Transaction {
    Transaction {
        hash: hash.to_string(),
        valid: true,
        inputs,
        outputs,
        collateral: vec![],
        collateral_return: None,
    }
}

fn reducer(prefix: Option<&str>, filter: Option<Vec<&str>>, action: ErrorAction) -> Reducer {
    let config = Config {
        key_prefix: prefix.map(|p| p.to_string()),
        filter: filter.map(|f| f.into_iter().map(|a| a.to_string()).collect()),
    };
    config.plugin(&RuntimePolicy { missing_data: action })
}

fn triples(cmds: &[CrdtCommand]) -> Vec<(SetOp, String, String)> {
    cmds.iter().map(|c| (c.op, c.key.clone(), c.member.clone())).collect()
}

fn add(key: &str, member: &str) -> (SetOp, String, String) {
    (SetOp::Add, key.to_string(), member.to_string())
}

fn remove(key: &str, member: &str) -> (SetOp, String, String) {
    (SetOp::Remove, key.to_string(), member.to_string())
}

#[test]
fn example_block_emits_remove_then_add() {
    let mut r = reducer(None, None, ErrorAction::Strict);
    let ctx = BlockContext { utxos: vec![(oref("xyz", 0), out("A1"))] };
    let block = Block { txs: vec![valid_tx("abc", vec![oref("xyz", 0)], vec![out("A2")])] };
    let mut cmds = Vec::new();
    assert!(r.reduce_block(&block, &ctx, &mut cmds).is_ok());
    assert_eq!(triples(&cmds), vec![remove("A1", "xyz#0"), add("A2", "abc#0")]);
}

#[test]
fn filter_drops_unlisted_address() {
    let mut r = reducer(None, Some(vec!["addrA", "addrB"]), ErrorAction::Strict);
    let ctx = BlockContext { utxos: vec![] };
    let block = Block { txs: vec![valid_tx("t1", vec![], vec![out("addrC")])] };
    let mut cmds = Vec::new();
    assert!(r.reduce_block(&block, &ctx, &mut cmds).is_ok());
    assert!(cmds.is_empty());
}

#[test]
fn filter_keeps_listed_address() {
    let mut r = reducer(None, Some(vec!["addrA", "addrB"]), ErrorAction::Strict);
    let ctx = BlockContext { utxos: vec![] };
    let block = Block { txs: vec![valid_tx("t1", vec![], vec![out("addrB")])] };
    let mut cmds = Vec::new();
    assert!(r.reduce_block(&block, &ctx, &mut cmds).is_ok());
    assert_eq!(triples(&cmds), vec![add("addrB", "t1#0")]);
}

#[test]
fn filter_keeps_listed_address_under_prefix() {
    let mut r = reducer(Some("pre."), Some(vec!["addrA", "addrB"]), ErrorAction::Strict);
    let ctx = BlockContext { utxos: vec![] };
    let block = Block { txs: vec![valid_tx("t1", vec![], vec![out("addrB"), out("addrC")])] };
    let mut cmds = Vec::new();
    assert!(r.reduce_block(&block, &ctx, &mut cmds).is_ok());
    assert_eq!(triples(&cmds), vec![add("pre.addrB", "t1#0")]);
}

#[test]
fn empty_filter_drops_everything() {
    let mut r = reducer(None, Some(vec![]), ErrorAction::Strict);
    let ctx = BlockContext { utxos: vec![(oref("p", 1), out("A1"))] };
    let block = Block { txs: vec![valid_tx("t", vec![oref("p", 1)], vec![out("A1")])] };
    let mut cmds = Vec::new();
    assert!(r.reduce_block(&block, &ctx, &mut cmds).is_ok());
    assert!(cmds.is_empty());
}

#[test]
fn filter_removal_also_filtered() {
    let mut r = reducer(None, Some(vec!["A2"]), ErrorAction::Strict);
    let ctx = BlockContext { utxos: vec![(oref("xyz", 0), out("A1")), (oref("xyz", 1), out("A2"))] };
    let block = Block {
        txs: vec![valid_tx("abc", vec![oref("xyz", 0), oref("xyz", 1)], vec![out("A1"), out("A2")])],
    };
    let mut cmds = Vec::new();
    assert!(r.reduce_block(&block, &ctx, &mut cmds).is_ok());
    assert_eq!(triples(&cmds), vec![remove("A2", "xyz#1"), add("A2", "abc#1")]);
}

#[test]
fn tolerant_skip_passes_over_missing_reference() {
    let mut r = reducer(None, None, ErrorAction::Skip);
    let ctx = BlockContext { utxos: vec![] };
    let block = Block { txs: vec![valid_tx("abc", vec![oref("gone", 3)], vec![])] };
    let mut cmds = Vec::new();
    assert!(r.reduce_block(&block, &ctx, &mut cmds).is_ok());
    assert!(cmds.is_empty());
}

#[test]
fn tolerant_warn_passes_over_missing_reference_and_goes_on() {
    let mut r = reducer(None, None, ErrorAction::Warn);
    let ctx = BlockContext { utxos: vec![(oref("xyz", 0), out("A1"))] };
    let block = Block {
        txs: vec![valid_tx("abc", vec![oref("gone", 3), oref("xyz", 0)], vec![out("A2")])],
    };
    let mut cmds = Vec::new();
    assert!(r.reduce_block(&block, &ctx, &mut cmds).is_ok());
    assert_eq!(triples(&cmds), vec![remove("A1", "xyz#0"), add("A2", "abc#0")]);
}

#[test]
fn strict_fails_on_missing_reference_and_stops() {
    let mut r = reducer(None, None, ErrorAction::Strict);
    let ctx = BlockContext { utxos: vec![(oref("xyz", 0), out("A1"))] };
    let block = Block {
        txs: vec![
            valid_tx("t0", vec![], vec![out("A0")]),
            valid_tx("abc", vec![oref("gone", 3), oref("xyz", 0)], vec![out("A2")]),
            valid_tx("t2", vec![], vec![out("A3")]),
        ],
    };
    let mut cmds = Vec::new();
    match r.reduce_block(&block, &ctx, &mut cmds) {
        Err(ReduceError::MissingUtxo(missing)) => {
            assert_eq!(missing.hash, "gone");
            assert_eq!(missing.index, 3);
        }
        other => panic!("unexpected outcome {:?}", other),
    }
    assert_eq!(triples(&cmds), vec![add("A0", "t0#0")]);
}

#[test]
fn malformed_output_address_fails_under_any_policy() {
    let mut r = reducer(None, None, ErrorAction::Skip);
    let ctx = BlockContext { utxos: vec![] };
    let block = Block {
        txs: vec![valid_tx("abc", vec![], vec![out("A1"), bad_out(), out("A3")])],
    };
    let mut cmds = Vec::new();
    assert!(matches!(
        r.reduce_block(&block, &ctx, &mut cmds),
        Err(ReduceError::MalformedAddress)
    ));
    assert_eq!(triples(&cmds), vec![add("A1", "abc#0")]);
}

#[test]
fn malformed_resolved_address_fails() {
    let mut r = reducer(None, None, ErrorAction::Warn);
    let ctx = BlockContext { utxos: vec![(oref("xyz", 0), bad_out())] };
    let block = Block { txs: vec![valid_tx("abc", vec![oref("xyz", 0)], vec![out("A2")])] };
    let mut cmds = Vec::new();
    assert!(matches!(
        r.reduce_block(&block, &ctx, &mut cmds),
        Err(ReduceError::MalformedAddress)
    ));
    assert!(cmds.is_empty());
}

#[test]
fn valid_tx_makes_one_attempt_per_input_and_output() {
    let mut r = reducer(None, None, ErrorAction::Strict);
    let ctx = BlockContext {
        utxos: vec![(oref("p", 0), out("A")), (oref("p", 1), out("B")), (oref("q", 7), out("A"))],
    };
    let tx = valid_tx(
        "h",
        vec![oref("q", 7), oref("p", 0), oref("p", 1)],
        vec![out("C"), out("A")],
    );
    let mut cmds = Vec::new();
    assert!(r.reduce_valid_tx(&tx, &ctx, &mut cmds).is_ok());
    assert_eq!(
        triples(&cmds),
        vec![remove("A", "q#7"), remove("A", "p#0"), remove("B", "p#1"), add("C", "h#0"), add("A", "h#1")]
    );
}

#[test]
fn invalid_tx_uses_collateral_only() {
    let mut r = reducer(None, None, ErrorAction::Strict);
    let ctx = BlockContext { utxos: vec![(oref("p", 0), out("A")), (oref("c", 2), out("B"))] };
    let tx = Transaction {
        hash: "h".to_string(),
        valid: false,
        inputs: vec![oref("p", 0)],
        outputs: vec![out("X"), out("Y"), out("Z")],
        collateral: vec![oref("c", 2)],
        collateral_return: Some(out("B")),
    };
    let block = Block { txs: vec![tx] };
    let mut cmds = Vec::new();
    assert!(r.reduce_block(&block, &ctx, &mut cmds).is_ok());
    assert_eq!(triples(&cmds), vec![remove("B", "c#2"), add("B", "h#3")]);
}

#[test]
fn invalid_tx_without_collateral_return() {
    let mut r = reducer(None, None, ErrorAction::Strict);
    let ctx = BlockContext { utxos: vec![(oref("c", 0), out("B"))] };
    let tx = Transaction {
        hash: "h".to_string(),
        valid: false,
        inputs: vec![],
        outputs: vec![],
        collateral: vec![oref("c", 0)],
        collateral_return: None,
    };
    let mut cmds = Vec::new();
    assert!(r.reduce_invalid_tx(&tx, &ctx, &mut cmds).is_ok());
    assert_eq!(triples(&cmds), vec![remove("B", "c#0")]);
}

#[test]
fn added_member_matches_later_removed_member() {
    let mut r = reducer(Some("k:"), None, ErrorAction::Strict);
    let first = Block { txs: vec![valid_tx("f00d", vec![], vec![out("A"), out("B"), out("C"), out("D"), out("E"), out("F"), out("G"), out("H"), out("I"), out("J"), out("K"), out("L")])] };
    let mut added = Vec::new();
    assert!(r.reduce_block(&first, &BlockContext { utxos: vec![] }, &mut added).is_ok());
    let ctx = BlockContext { utxos: vec![(oref("f00d", 11), out("L"))] };
    let second = Block { txs: vec![valid_tx("beef", vec![oref("f00d", 11)], vec![])] };
    let mut removed = Vec::new();
    assert!(r.reduce_block(&second, &ctx, &mut removed).is_ok());
    assert_eq!(added[11].member, "f00d#11");
    assert_eq!(removed.len(), 1);
    assert_eq!(removed[0].op, SetOp::Remove);
    assert_eq!(removed[0].key, added[11].key);
    assert_eq!(removed[0].member, added[11].member);
}

#[test]
fn commands_keep_block_order() {
    let mut r = reducer(None, None, ErrorAction::Strict);
    let ctx = BlockContext { utxos: vec![(oref("a", 0), out("X"))] };
    let block = Block {
        txs: vec![
            valid_tx("a", vec![], vec![out("X")]),
            valid_tx("b", vec![oref("a", 0)], vec![out("Y")]),
        ],
    };
    let mut cmds = vec![CrdtCommand::set_add(&None, &"Q".to_string(), "earlier".to_string())];
    assert!(r.reduce_block(&block, &ctx, &mut cmds).is_ok());
    assert_eq!(
        triples(&cmds),
        vec![add("Q", "earlier"), add("X", "a#0"), remove("X", "a#0"), add("Y", "b#0")]
    );
}

#[test]
fn empty_block_emits_nothing() {
    let mut r = reducer(None, None, ErrorAction::Strict);
    let mut cmds = Vec::new();
    assert!(r.reduce_block(&Block { txs: vec![] }, &BlockContext { utxos: vec![] }, &mut cmds).is_ok());
    assert!(cmds.is_empty());
}

#[test]
fn identifier_formats() {
    let h = "abc".to_string();
    assert_eq!(format_identifier(&h, 0), "abc#0");
    assert_eq!(format_identifier(&h, 10), "abc#10");
    assert_eq!(format_identifier(&h, 907), "abc#907");
    assert_eq!(format_identifier(&h, u64::MAX), "abc#18446744073709551615");
    assert_eq!(format_identifier(&String::new(), 5), "#5");
}

#[test]
fn context_lookup_takes_first_match() {
    let ctx = BlockContext {
        utxos: vec![(oref("x", 1), out("first")), (oref("x", 1), out("second")), (oref("x", 2), out("other"))],
    };
    assert_eq!(ctx.find_utxo(&oref("x", 1)).unwrap().address.unwrap(), "first");
    assert_eq!(ctx.find_utxo(&oref("x", 2)).unwrap().address.unwrap(), "other");
    assert!(ctx.find_utxo(&oref("y", 1)).is_none());
}

#[test]
fn set_commands_qualify_keys() {
    let c = CrdtCommand::set_remove(&Some("ns/".to_string()), &"addr".to_string(), "t#1".to_string());
    assert_eq!(c.op, SetOp::Remove);
    assert_eq!(c.key, "ns/addr");
    assert_eq!(c.member, "t#1");
    let d = CrdtCommand::set_add(&None, &"addr".to_string(), "t#2".to_string());
    assert_eq!(d.key, "addr");
}

#[test]
fn plugin_keeps_config_and_policy() {
    let policy = RuntimePolicy { missing_data: ErrorAction::Warn };
    let r = Config { key_prefix: Some("p".to_string()), filter: None }.plugin(&policy);
    assert_eq!(r.policy, policy);
    assert_eq!(r.config.key_prefix.as_deref(), Some("p"));
    assert!(r.config.filter.is_none());
}

#[test]
fn plugin_sorts_filter() {
    let policy = RuntimePolicy { missing_data: ErrorAction::Strict };
    let filter = vec!["b", "a", "ab", "", "b", "Z", "é", "z"];
    let r = Config {
        key_prefix: None,
        filter: Some(filter.iter().map(|a| a.to_string()).collect()),
    }
    .plugin(&policy);
    let expected: Vec<String> =
        vec!["", "Z", "a", "ab", "b", "b", "z", "é"].into_iter().map(|a| a.to_string()).collect();
    assert_eq!(r.config.filter, Some(expected));
}

#[test]
fn sorted_filter_still_admits_listed_addresses() {
    let mut r = reducer(None, Some(vec!["addrB", "addrA"]), ErrorAction::Strict);
    let ctx = BlockContext { utxos: vec![] };
    let block = Block { txs: vec![valid_tx("t1", vec![], vec![out("addrA"), out("addrC"), out("addrB")])] };
    let mut cmds = Vec::new();
    assert!(r.reduce_block(&block, &ctx, &mut cmds).is_ok());
    assert_eq!(triples(&cmds), vec![add("addrA", "t1#0"), add("addrB", "t1#2")]);
}

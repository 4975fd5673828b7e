//! The line protocol on concrete sessions.

use kovanica::node::Node;
use kovanica::rpc::{execute_line, load_reply, saved_reply, unreadable_reply, Outcome};

fn reply(node: &mut Node, line: &str) -> String {
    match execute_line(node, line) {
        Outcome::Reply(s) => s,
        _ => panic!("`{line}` asks for a file"),
    }
}

#[test]
fn rpc_quick_session() {
    let mut node = Node::new();
    // Genesis mints 500 to actor 1; actor 1 sends 200 to actor 2.
    assert!(reply(&mut node, "genesis 3 1000 500 1").starts_with("ok genesis"));
    assert!(reply(&mut node, "send 1 200 2").starts_with("ok block"));
    assert_eq!(reply(&mut node, "balance 1"), "ok 300");
    assert_eq!(reply(&mut node, "balance 2"), "ok 200");
    // Geographic origin is node policy: set it, list observed pulses (none yet).
    assert_eq!(reply(&mut node, "origin HRV"), "ok HRV");
    assert_eq!(reply(&mut node, "origins"), "ok");
}

#[test]
fn rpc_mempool_flow_and_queries() {
    let mut node = Node::new();
    assert_eq!(reply(&mut node, "len"), "err no ledger yet (run `genesis` first)");
    let g = reply(&mut node, "genesis 3 1000 500 1");
    let genesis_id = g.split(' ').nth(2).unwrap().to_string();
    assert_eq!(genesis_id.len(), 16);
    assert_eq!(reply(&mut node, "tip"), format!("ok {genesis_id}"));
    assert_eq!(reply(&mut node, "tips"), format!("ok {genesis_id}"));
    assert_eq!(reply(&mut node, "len"), "ok 1");
    assert_eq!(reply(&mut node, "pending"), "ok 0");
    assert!(reply(&mut node, "pool 1 50 3").starts_with("ok pooled "));
    assert_eq!(reply(&mut node, "pending"), "ok 1");
    let produced = reply(&mut node, "produce");
    assert!(produced.starts_with("ok block "));
    assert_eq!(reply(&mut node, "pending"), "ok 0");
    assert_eq!(reply(&mut node, "produce"), "ok nothing to produce");
    assert_eq!(reply(&mut node, "balance 3"), "ok 50");
    assert_eq!(reply(&mut node, "balance 1"), "ok 450");
    assert_eq!(reply(&mut node, "len"), "ok 2");
    assert_eq!(reply(&mut node, "tip"), format!("ok {}", &produced[9..]));
    assert_eq!(reply(&mut node, "quit"), "ok bye");
}

#[test]
fn rpc_error_replies() {
    let mut node = Node::new();
    assert_eq!(reply(&mut node, ""), "err empty command (try `help`)");
    assert_eq!(reply(&mut node, "mint 5"), "err unknown command (try `help`)");
    assert_eq!(reply(&mut node, "send 1 2"), "err expected 3 arguments (try `help`)");
    assert_eq!(reply(&mut node, "balance x"), "err arguments must be unsigned decimal numbers that fit");
    assert_eq!(reply(&mut node, "balance 1"), "err no ledger yet (run `genesis` first)");
    reply(&mut node, "genesis 3 1000 500 1");
    assert_eq!(reply(&mut node, "genesis 3 1000 500 1"), "err already initialised");
    assert_eq!(reply(&mut node, "send 1 0 2"), "err amount must be non-zero");
    assert_eq!(reply(&mut node, "send 1 501 2"), "err no single output covers the amount");
    assert_eq!(reply(&mut node, "send 9 1 2"), "err no single output covers the amount");
}

#[test]
fn rpc_genesis_refused_by_subsidy() {
    let mut node = Node::new();
    assert_eq!(
        reply(&mut node, "genesis 3 100 500 1"),
        "err genesis invalid: coinbase overspend: claimed 500 > allowed 100"
    );
}

#[test]
fn rpc_save_and_load_go_through_files() {
    let mut node = Node::new();
    match execute_line(&mut node, "save ledger.snap") {
        Outcome::Reply(s) => assert_eq!(s, "err no ledger yet (run `genesis` first)"),
        _ => panic!("no snapshot without a ledger"),
    }
    reply(&mut node, "genesis 3 1000 500 1");
    reply(&mut node, "send 1 200 2");
    let bytes = match execute_line(&mut node, "save ledger.snap") {
        Outcome::Save { path, bytes } => {
            assert_eq!(path, b"ledger.snap".to_vec());
            bytes
        }
        _ => panic!("save asks to write a file"),
    };
    assert_eq!(bytes, node.snapshot().unwrap());
    assert_eq!(saved_reply(Ok(())), "ok saved");
    assert_eq!(saved_reply(Err("disk full".to_string())), "err io error: disk full");

    let mut other = Node::new();
    match execute_line(&mut other, "load ledger.snap") {
        Outcome::Load { path } => assert_eq!(path, b"ledger.snap".to_vec()),
        _ => panic!("load asks to read a file"),
    }
    assert_eq!(load_reply(&mut other, &bytes), "ok loaded");
    assert_eq!(reply(&mut other, "balance 2"), "ok 200");
    assert_eq!(load_reply(&mut other, &bytes[..3]), "err bad snapshot: not a snapshot");
    assert_eq!(unreadable_reply("no such file".to_string()), "err io error: no such file");
}

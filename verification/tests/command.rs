//! Parsing the node's command lines.

use kovanica::command::{parse_command, parse_u64, split, Command, CommandError};

#[test]
fn command_words_split_on_white_space() {
    let ws = split(b"  genesis\t3  1000 500 1 \r\n");
    assert_eq!(ws, vec![b"genesis".to_vec(), b"3".to_vec(), b"1000".to_vec(), b"500".to_vec(), b"1".to_vec()]);
    assert!(split(b" \t ").is_empty());
    assert_eq!(split(b"x"), vec![b"x".to_vec()]);
}

#[test]
fn command_numbers() {
    assert_eq!(parse_u64(b"0"), Some(0));
    assert_eq!(parse_u64(b"0042"), Some(42));
    assert_eq!(parse_u64(b"18446744073709551615"), Some(u64::MAX));
    assert_eq!(parse_u64(b"18446744073709551616"), None);
    assert_eq!(parse_u64(b""), None);
    assert_eq!(parse_u64(b"-1"), None);
    assert_eq!(parse_u64(b"12a"), None);
}

#[test]
fn command_lines_parse() {
    assert!(matches!(
        parse_command("genesis 3 1000 500 1"),
        Ok(Command::Genesis { k: 3, subsidy: 1000, amount: 500, founder: 1 })
    ));
    assert!(matches!(parse_command("send 1 200 2"), Ok(Command::Send { from: 1, amount: 200, to: 2 })));
    assert!(matches!(parse_command("pool 2 50 3"), Ok(Command::Pool { from: 2, amount: 50, to: 3 })));
    assert!(matches!(parse_command("balance 1"), Ok(Command::Balance { seed: 1 })));
    assert!(matches!(parse_command("pending"), Ok(Command::Pending)));
    assert!(matches!(parse_command("produce"), Ok(Command::Produce)));
    assert!(matches!(parse_command("tip"), Ok(Command::Tip)));
    assert!(matches!(parse_command("tips"), Ok(Command::Tips)));
    assert!(matches!(parse_command("len"), Ok(Command::Len)));
    assert!(matches!(parse_command("help"), Ok(Command::Help)));
    assert!(matches!(parse_command("quit"), Ok(Command::Quit)));
    assert!(matches!(parse_command(" exit "), Ok(Command::Quit)));
    assert!(matches!(parse_command("origins"), Ok(Command::Origins)));
    match parse_command("save ledger.snap") {
        Ok(Command::Save { path }) => assert_eq!(path, b"ledger.snap".to_vec()),
        other => panic!("unexpected {:?}", other),
    }
    match parse_command("load ledger.snap") {
        Ok(Command::Load { path }) => assert_eq!(path, b"ledger.snap".to_vec()),
        other => panic!("unexpected {:?}", other),
    }
    match parse_command("origin HRV") {
        Ok(Command::Origin { code: Some(code) }) => assert_eq!(code, b"HRV".to_vec()),
        other => panic!("unexpected {:?}", other),
    }
    assert!(matches!(parse_command("origin"), Ok(Command::Origin { code: None })));
}

#[test]
fn command_errors() {
    assert_eq!(parse_command("").err(), Some(CommandError::Empty));
    assert_eq!(parse_command("   ").err(), Some(CommandError::Empty));
    assert_eq!(parse_command("mint 5").err(), Some(CommandError::Unknown));
    assert_eq!(parse_command("Balance 1").err(), Some(CommandError::Unknown));
    assert_eq!(parse_command("balance").err(), Some(CommandError::Arity { min: 1, max: 1 }));
    assert_eq!(parse_command("send 1 2").err(), Some(CommandError::Arity { min: 3, max: 3 }));
    assert_eq!(parse_command("len 1").err(), Some(CommandError::Arity { min: 0, max: 0 }));
    assert_eq!(parse_command("origin a b").err(), Some(CommandError::Arity { min: 0, max: 1 }));
    assert_eq!(parse_command("balance one").err(), Some(CommandError::NotANumber));
    assert_eq!(parse_command("genesis 70000 1 1 1").err(), Some(CommandError::NotANumber));
    assert_eq!(parse_command("send 1 -5 2").err(), Some(CommandError::NotANumber));
}

use kzg_prover::chain::{ChainClient, WhitelistLog};
use kzg_prover::listener::{
    finish_round, sync_progress, whitelist_changes, RoundOutcome, SyncProgress, WhitelistChange,
};
use kzg_prover::server::{is_whitelisted, normalize_address};

fn log(address: &str, added: bool, nonce: u64, block_number: u64) -> WhitelistLog {
    WhitelistLog { address: address.to_string(), added, nonce, block_number }
}

#[test]
fn client_keeps_url() {
    let c = ChainClient::new("http://localhost:8545");
    assert_eq!(c.rpc_url(), "http://localhost:8545");
}

#[test]
fn sync_progress_after_batch() {
    let logs = vec![log("0x01", true, 3, 100), log("0x02", false, 7, 90), log("0x03", true, 5, 120)];
    assert_eq!(sync_progress(&logs, 50), SyncProgress { max_nonce: 7, next_block: 121 });
    // a start beyond every log block stays the maximum
    assert_eq!(sync_progress(&logs, 200), SyncProgress { max_nonce: 7, next_block: 201 });
    assert_eq!(sync_progress(&[], 9), SyncProgress { max_nonce: 0, next_block: 10 });
}

#[test]
fn whitelist_membership() {
    let list = vec!["0xaa".to_string(), "0xbb".to_string()];
    assert!(is_whitelisted(&list, "0xbb"));
    assert!(!is_whitelisted(&list, "0xcc"));
    assert!(!is_whitelisted(&[], "0xaa"));
}

#[test]
fn changes_follow_log_order() {
    let logs = vec![log("0x01", true, 3, 100), log("0x02", false, 7, 90)];
    let changes = whitelist_changes(&logs);
    assert_eq!(changes.len(), 2);
    match &changes[0] {
        WhitelistChange::Add { address, nonce } => {
            assert_eq!(address, "0x01");
            assert_eq!(*nonce, 3);
        }
        other => panic!("unexpected change {:?}", other),
    }
    match &changes[1] {
        WhitelistChange::Remove { address } => assert_eq!(address, "0x02"),
        other => panic!("unexpected change {:?}", other),
    }
    assert!(whitelist_changes(&[]).is_empty());
}

#[test]
fn round_outcome_records_the_next_start() {
    let logs = vec![log("0x01", true, 3, 100), log("0x02", false, 7, 90)];
    let out = finish_round(&logs, 50);
    assert_eq!(
        out,
        RoundOutcome {
            from_block: 101,
            record: Some(SyncProgress { max_nonce: 7, next_block: 101 }),
        }
    );
    assert_eq!(finish_round(&[], 50), RoundOutcome { from_block: 50, record: None });
    // an empty round may start at the largest block number
    assert_eq!(finish_round(&[], u64::MAX), RoundOutcome { from_block: u64::MAX, record: None });
}

#[test]
fn membership_ignores_case_and_one_prefix() {
    let h = "d8da6bf26964af9d7eed9e03e53415d37aa96045";
    let list = vec![format!("0x{}", h)];
    assert!(is_whitelisted(&list, h));
    assert!(is_whitelisted(&list, "0xD8DA6BF26964AF9D7EED9E03E53415D37AA96045"));
    assert!(is_whitelisted(&list, "0XD8dA6BF26964aF9D7eEd9e03E53415D37aA96045"));
    assert!(!is_whitelisted(&list, "0xd8da6bf26964af9d7eed9e03e53415d37aa96046"));
    // a doubled prefix is not the same address
    assert!(!is_whitelisted(&list, &format!("0x0x{}", h)));
    let doubled = vec![format!("0x0x{}", h)];
    assert!(!is_whitelisted(&doubled, &format!("0x{}", h)));
    let upper = vec!["0xABCD".to_string()];
    assert!(is_whitelisted(&upper, "abcd"));
    // letter case is folded as Unicode lower-casing does
    let greek = vec!["0x\u{391}".to_string()];
    assert!(is_whitelisted(&greek, "0x\u{3b1}"));
}

#[test]
fn normalized_form() {
    assert_eq!(normalize_address("0XAbC9"), "abc9");
    assert_eq!(normalize_address("0x0xff"), "0xff");
    assert_eq!(normalize_address("x0"), "x0");
    assert_eq!(normalize_address("abcd"), "abcd");
}

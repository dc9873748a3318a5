use blockchain::block::{make_block, Block, BlockContents};
use blockchain::chain::{build_chain, check_block_validity, check_chain, ValidationError};
use blockchain::ledger::{LedgerState, Transaction, TxError};
use std::collections::BTreeMap;

const ALICE: u64 = 1;
const BOB: u64 = 2;

fn opening() -> BTreeMap<u64, i64> {
    let mut m = BTreeMap::new();
    m.insert(ALICE, 50);
    m.insert(BOB, 50);
    m
}

fn opening_state() -> LedgerState {
    LedgerState { balances: opening() }
}

fn transfer(amount: i64) -> Transaction {
    Transaction::from_vec(&vec![(ALICE, -amount), (BOB, amount)])
}

fn genesis_block() -> Block {
    Block::new(BlockContents {
        block_number: 0,
        parent_hash: None,
        transactions: vec![Transaction::from_btree(&opening())],
    })
}

fn seven_transfers() -> Vec<Transaction> {
    (1..=7).map(|a| transfer(if a % 2 == 0 { -1 } else { 1 })).collect()
}

#[test]
fn balanced_iff_deltas_sum_to_zero() {
    assert!(transfer(10).is_balanced());
    assert!(!Transaction::from_vec(&vec![(ALICE, -10), (BOB, 5)]).is_balanced());
    assert!(Transaction::from_vec(&vec![]).is_balanced());
    assert!(Transaction::from_vec(&vec![(ALICE, i64::MAX), (BOB, i64::MAX), (3, 2)]).is_balanced() == false);
    assert!(Transaction::from_vec(&vec![(ALICE, i64::MIN), (BOB, i64::MAX), (3, 1)]).is_balanced());
}

#[test]
fn empty_transaction_is_valid() {
    let t = Transaction::from_vec(&vec![]);
    assert!(t.is_valid(&LedgerState::new()));
    assert_eq!(t.check(&opening_state()), Ok(()));
}

#[test]
fn transfer_scenario() {
    let state = opening_state();
    let t = transfer(10);
    assert!(t.is_valid(&state));
    let next = state.update(&t);
    assert_eq!(next.balance(ALICE), 40);
    assert_eq!(next.balance(BOB), 60);
    assert_eq!(state.balance(ALICE), 50);
    assert_eq!(transfer(100).check(&state), Err(TxError::InsufficientBalance));
    assert!(!transfer(100).is_valid(&state));
    let unbalanced = Transaction::from_vec(&vec![(ALICE, -10), (BOB, 5)]);
    assert_eq!(unbalanced.check(&state), Err(TxError::Unbalanced));
}

#[test]
fn unknown_account_has_zero_balance() {
    assert_eq!(opening_state().balance(99), 0);
    assert_eq!(LedgerState::new().balance(ALICE), 0);
}

#[test]
fn valid_apply_keeps_balances_non_negative() {
    let state = opening_state();
    let t = transfer(50);
    assert!(t.is_valid(&state));
    let next = state.update(&t);
    assert_eq!(next.balance(ALICE), 0);
    assert_eq!(next.balance(BOB), 100);
}

#[test]
fn checked_update_reports_overflow() {
    let mut m = BTreeMap::new();
    m.insert(ALICE, i64::MAX);
    let state = LedgerState { balances: m };
    let t = Transaction::from_vec(&vec![(ALICE, 1), (BOB, -1)]);
    assert!(state.checked_update(&t).is_none());
    assert!(state.checked_update(&transfer(1)).is_some());
}

#[test]
fn from_vec_sorts_and_keeps_last_delta() {
    let t = Transaction::from_vec(&vec![(3, 1), (1, 2), (3, 5)]);
    assert_eq!(t.deltas(), &vec![(1, 2), (3, 5)]);
}

#[test]
fn from_btree_keeps_entries() {
    let t = Transaction::from_btree(&opening());
    assert_eq!(t.deltas(), &vec![(ALICE, 50), (BOB, 50)]);
}

#[test]
fn genesis_digest_exact() {
    let expected: Vec<u8> = vec![
        172, 186, 107, 70, 193, 113, 0, 32, 249, 151, 102, 131, 184, 166, 81, 104, 223, 240, 118,
        250, 16, 127, 192, 108, 13, 136, 61, 191, 245, 161, 47, 96,
    ];
    let g = genesis_block();
    assert_eq!(g.hash, expected);
    assert!(g.contents_match_hash());
}

#[test]
fn hash_is_deterministic_and_sensitive() {
    let contents = |n: u64, t: Vec<Transaction>| BlockContents {
        block_number: n,
        parent_hash: Some(vec![7; 32]),
        transactions: t,
    };
    let h = contents(1, vec![transfer(1), transfer(2)]).hash();
    assert_eq!(h.len(), 32);
    assert_eq!(h, contents(1, vec![transfer(1), transfer(2)]).hash());
    assert_ne!(h, contents(1, vec![transfer(2), transfer(1)]).hash());
    assert_ne!(h, contents(1, vec![transfer(1), transfer(3)]).hash());
    assert_ne!(h, contents(2, vec![transfer(1), transfer(2)]).hash());
    let other_account = Transaction::from_vec(&vec![(ALICE, -1), (3, 1)]);
    assert_ne!(h, contents(1, vec![other_account, transfer(2)]).hash());
}

#[test]
fn seven_transactions_make_three_blocks() {
    let (chain, state) = build_chain(&opening(), &seven_transfers(), 5);
    assert_eq!(chain.len(), 3);
    let numbers: Vec<u64> = chain.iter().map(|b| b.contents.block_number).collect();
    assert_eq!(numbers, vec![0, 1, 2]);
    assert_eq!(chain[1].contents.transactions.len(), 5);
    assert_eq!(chain[2].contents.transactions.len(), 2);
    assert!(chain[0].contents.parent_hash.is_none());
    assert_eq!(chain[1].contents.parent_hash, Some(chain[0].hash.clone()));
    let checked = check_chain(&chain).unwrap();
    assert_eq!(checked.balances, state.balances);
    assert_eq!(state.balance(ALICE), 49);
}

#[test]
fn round_trip_drops_invalid_transactions() {
    let txns = vec![transfer(30), transfer(30), transfer(-10), transfer(100), transfer(5)];
    let (chain, state) = build_chain(&opening(), &txns, 2);
    assert_eq!(chain.len(), 3);
    assert_eq!(chain[1].contents.transactions.len(), 2);
    assert_eq!(chain[2].contents.transactions.len(), 1);
    assert_eq!(state.balance(ALICE), 25);
    assert_eq!(state.balance(BOB), 75);
    let checked = check_chain(&chain).unwrap();
    assert_eq!(checked.balances, state.balances);
}

#[test]
fn full_batch_makes_no_empty_block() {
    let (chain, _) = build_chain(&opening(), &vec![transfer(1), transfer(1)], 2);
    assert_eq!(chain.len(), 2);
    let (only_genesis, state) = build_chain(&opening(), &vec![], 5);
    assert_eq!(only_genesis.len(), 1);
    assert_eq!(check_chain(&only_genesis).unwrap().balances, state.balances);
}

#[test]
fn empty_chain_is_refused() {
    assert_eq!(check_chain(&[]).unwrap_err(), ValidationError::EmptyChain);
}

#[test]
fn tampered_block_gives_hash_mismatch() {
    let (mut chain, _) = build_chain(&opening(), &seven_transfers(), 5);
    chain[1].contents.transactions[0] = transfer(2);
    assert!(!chain[1].contents_match_hash());
    assert_eq!(check_chain(&chain).unwrap_err(), ValidationError::HashMismatch(1));

    let (mut chain, _) = build_chain(&opening(), &seven_transfers(), 5);
    chain[2].contents.block_number = 7;
    assert_eq!(check_chain(&chain).unwrap_err(), ValidationError::HashMismatch(2));

    let (mut chain, _) = build_chain(&opening(), &seven_transfers(), 5);
    chain[1].contents.transactions.swap(0, 1);
    assert_eq!(check_chain(&chain).unwrap_err(), ValidationError::HashMismatch(1));
}

#[test]
fn tampered_genesis_gives_hash_mismatch() {
    let (mut chain, _) = build_chain(&opening(), &seven_transfers(), 5);
    chain[0].contents.block_number = 1;
    assert_eq!(check_chain(&chain).unwrap_err(), ValidationError::HashMismatch(0));
}

#[test]
fn broken_link_gives_parent_hash_mismatch() {
    let (mut chain, _) = build_chain(&opening(), &seven_transfers(), 5);
    chain[2].contents.parent_hash = Some(vec![0; 32]);
    chain[2].hash = chain[2].contents.hash();
    assert_eq!(check_chain(&chain).unwrap_err(), ValidationError::ParentHashMismatch(2));

    let (mut chain, _) = build_chain(&opening(), &seven_transfers(), 5);
    chain[1].contents.parent_hash = None;
    chain[1].hash = chain[1].contents.hash();
    assert_eq!(check_chain(&chain).unwrap_err(), ValidationError::ParentHashMismatch(1));
}

#[test]
fn renumbered_block_gives_block_number_mismatch() {
    let (mut chain, _) = build_chain(&opening(), &seven_transfers(), 5);
    chain[1].contents.block_number = 5;
    chain[1].hash = chain[1].contents.hash();
    assert_eq!(check_chain(&chain).unwrap_err(), ValidationError::BlockNumberMismatch(1));
}

#[test]
fn invalid_transaction_in_block_is_reported() {
    let chain = vec![genesis_block()];
    let b = make_block(&[transfer(40), transfer(40)], &chain);
    assert_eq!(b.contents.block_number, 1);
    let mut chain = chain;
    chain.push(b);
    assert_eq!(
        check_chain(&chain).unwrap_err(),
        ValidationError::InvalidTransaction(1, TxError::InsufficientBalance)
    );
    let unbalanced = Transaction::from_vec(&vec![(ALICE, -10), (BOB, 5)]);
    let b = make_block(&[unbalanced], &chain[..1]);
    assert_eq!(
        check_block_validity(&b, &chain[0], &opening_state(), 1).unwrap_err(),
        ValidationError::InvalidTransaction(1, TxError::Unbalanced)
    );
}

#[test]
fn genesis_overflow_is_reported() {
    let big = Transaction::from_vec(&vec![(ALICE, i64::MAX)]);
    let g = Block::new(BlockContents {
        block_number: 0,
        parent_hash: None,
        transactions: vec![big.clone(), big],
    });
    assert_eq!(check_chain(&[g]).unwrap_err(), ValidationError::BalanceOverflow(0));
}

#[test]
fn check_block_validity_gives_next_state() {
    let chain = vec![genesis_block()];
    let b = make_block(&[transfer(10)], &chain);
    let next = check_block_validity(&b, &chain[0], &opening_state(), 1).unwrap();
    assert_eq!(next.balance(ALICE), 40);
    assert_eq!(next.balance(BOB), 60);
}

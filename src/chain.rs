//! Replaying a chain from its first block, and assembling one.
use vstd::prelude::*;
use crate::block::{Block, BlockContents, BlockView, make_block};
use std::collections::BTreeMap;
use crate::codec::{ContentsView, content_hash};
use crate::ledger::{LedgerState, Transaction, TxError, applied, tx_outcome, pairs_map, keys_increasing, lemma_apply_from_empty};

verus! {

/// Why a chain is refused; each variant but the first carries the position of
/// the offending block.
#[derive(Clone, Copy, Debug, PartialEq, Eq)]
pub enum ValidationError {
    /// The chain holds no block.
    EmptyChain,
    /// A transaction of the block is refused against the state reached so far.
    InvalidTransaction(usize, TxError),
    /// A balance would leave the range of `i64`.
    BalanceOverflow(usize),
    /// The stored digest is not the digest of the block's contents.
    HashMismatch(usize),
    /// The block's number does not follow its predecessor's.
    BlockNumberMismatch(usize),
    /// The block does not name its predecessor's digest as its parent.
    ParentHashMismatch(usize),
}

/// A validation result with the state as plain values.
pub open spec fn outcome(r: Result<LedgerState, ValidationError>) -> Result<Map<u64, i64>, ValidationError> {
    match r {
        Ok(s) => Ok(s@),
        Err(e) => Err(e),
    }
}

/// The blocks of a chain as plain values.
pub open spec fn chain_view(c: Seq<Block>) -> Seq<BlockView> {
    c.map_values(|b: Block| b@)
}

/// The deltas of each transaction of `t`.
pub open spec fn txns_view(t: Seq<Transaction>) -> Seq<Seq<(u64, i64)>> {
    t.map_values(|x: Transaction| x@)
}

/// Applies the transactions of the first block to `m` without checking them.
pub open spec fn replay_trusted(m: Map<u64, i64>, txs: Seq<Seq<(u64, i64)>>) -> Option<Map<u64, i64>>
    decreases txs.len(),
{
    if txs.len() == 0 {
        Some(m)
    } else {
        match replay_trusted(m, txs.drop_last()) {
            None => None,
            Some(m1) => applied(m1, txs.last()),
        }
    }
}

/// Applies the transactions of the block at `index` to `m`, checking each one
/// against the state that the ones before it produced.
pub open spec fn replay_checked(m: Map<u64, i64>, txs: Seq<Seq<(u64, i64)>>, index: usize) -> Result<Map<u64, i64>, ValidationError>
    decreases txs.len(),
{
    if txs.len() == 0 {
        Ok(m)
    } else {
        match replay_checked(m, txs.drop_last(), index) {
            Err(e) => Err(e),
            Ok(m1) => match tx_outcome(m1, txs.last()) {
                Err(reason) => Err(ValidationError::InvalidTransaction(index, reason)),
                Ok(_) => match applied(m1, txs.last()) {
                    None => Err(ValidationError::BalanceOverflow(index)),
                    Some(m2) => Ok(m2),
                },
            },
        }
    }
}

/// Checks block `b` at `index`, whose predecessor is `p`, against the state
/// `m` that the blocks before it produced, and gives the state after it.
pub open spec fn block_step(m: Map<u64, i64>, b: BlockView, p: BlockView, index: usize) -> Result<Map<u64, i64>, ValidationError> {
    match replay_checked(m, b.contents.transactions, index) {
        Err(e) => Err(e),
        Ok(m2) => if b.hash != content_hash(b.contents) {
            Err(ValidationError::HashMismatch(index))
        } else if b.contents.block_number as int != p.contents.block_number as int + 1 {
            Err(ValidationError::BlockNumberMismatch(index))
        } else if b.contents.parent_hash != Some(p.hash) {
            Err(ValidationError::ParentHashMismatch(index))
        } else {
            Ok(m2)
        },
    }
}

/// The outcome of validating the first `n` blocks of `c`.
pub open spec fn validate_upto(c: Seq<BlockView>, n: nat) -> Result<Map<u64, i64>, ValidationError>
    decreases n,
{
    if n == 0 {
        Err(ValidationError::EmptyChain)
    } else if n == 1 {
        match replay_trusted(Map::empty(), c[0].contents.transactions) {
            None => Err(ValidationError::BalanceOverflow(0)),
            Some(m) => if c[0].hash != content_hash(c[0].contents) {
                Err(ValidationError::HashMismatch(0))
            } else {
                Ok(m)
            },
        }
    } else {
        match validate_upto(c, (n - 1) as nat) {
            Err(e) => Err(e),
            Ok(m) => block_step(m, c[n - 1], c[n - 2], (n - 1) as usize),
        }
    }
}

/// The outcome of validating the whole chain `c`.
pub open spec fn validation(c: Seq<BlockView>) -> Result<Map<u64, i64>, ValidationError> {
    validate_upto(c, c.len())
}

proof fn lemma_trusted_none_extends(m: Map<u64, i64>, t: Seq<Seq<(u64, i64)>>, i: int)
    requires
        0 <= i <= t.len(),
        replay_trusted(m, t.take(i)) is None,
    ensures
        replay_trusted(m, t) is None,
    decreases t.len() - i,
{
    if i < t.len() {
        assert(t.take(i + 1).drop_last() =~= t.take(i));
        lemma_trusted_none_extends(m, t, i + 1);
    } else {
        assert(t.take(i) =~= t);
    }
}

proof fn lemma_checked_err_extends(m: Map<u64, i64>, t: Seq<Seq<(u64, i64)>>, index: usize, i: int)
    requires
        0 <= i <= t.len(),
        replay_checked(m, t.take(i), index) is Err,
    ensures
        replay_checked(m, t, index) == replay_checked(m, t.take(i), index),
    decreases t.len() - i,
{
    if i < t.len() {
        assert(t.take(i + 1).drop_last() =~= t.take(i));
        lemma_checked_err_extends(m, t, index, i + 1);
    } else {
        assert(t.take(i) =~= t);
    }
}

/// Validation of the first `n` blocks reads those blocks alone.
proof fn lemma_upto_agree(c1: Seq<BlockView>, c2: Seq<BlockView>, n: nat)
    requires
        n <= c1.len(),
        n <= c2.len(),
        forall|j: int| 0 <= j < n ==> c1[j] == c2[j],
    ensures
        validate_upto(c1, n) == validate_upto(c2, n),
    decreases n,
{
    if n > 1 {
        lemma_upto_agree(c1, c2, (n - 1) as nat);
    }
}

/// Once a prefix of the chain is refused, every longer prefix is refused for
/// the same reason.
proof fn lemma_err_sticks(c: Seq<BlockView>, k: nat, n: nat)
    requires
        1 <= k <= n,
        validate_upto(c, k) is Err,
    ensures
        validate_upto(c, n) == validate_upto(c, k),
    decreases n - k,
{
    if k < n {
        lemma_err_sticks(c, k, (n - 1) as nat);
    }
}

/// The state after offering `d` to `m`: applied where it is valid against
/// `m` and keeps every balance in range, dropped otherwise.
pub open spec fn accept_step(m: Map<u64, i64>, d: Seq<(u64, i64)>) -> Map<u64, i64> {
    if tx_outcome(m, d) is Ok && applied(m, d) is Some {
        applied(m, d)->0
    } else {
        m
    }
}

/// The state after offering each transaction of `txs` to `m` in turn.
pub open spec fn accept_all(m: Map<u64, i64>, txs: Seq<Seq<(u64, i64)>>) -> Map<u64, i64>
    decreases txs.len(),
{
    if txs.len() == 0 {
        m
    } else {
        accept_step(accept_all(m, txs.drop_last()), txs.last())
    }
}

/// The transactions that offering each of `txs` to `m` in turn keeps, in
/// order.
pub open spec fn accepted_txns(m: Map<u64, i64>, txs: Seq<Seq<(u64, i64)>>) -> Seq<Seq<(u64, i64)>>
    decreases txs.len(),
{
    if txs.len() == 0 {
        Seq::empty()
    } else {
        let before = accept_all(m, txs.drop_last());
        let d = txs.last();
        if tx_outcome(before, d) is Ok && applied(before, d) is Some {
            accepted_txns(m, txs.drop_last()).push(d)
        } else {
            accepted_txns(m, txs.drop_last())
        }
    }
}

/// The transactions of every block after the first, block after block.
pub open spec fn txns_after_first(c: Seq<BlockView>) -> Seq<Seq<(u64, i64)>>
    decreases c.len(),
{
    if c.len() <= 1 {
        Seq::empty()
    } else {
        txns_after_first(c.drop_last()) + c.last().contents.transactions
    }
}

/// Appending a block that passes its step against the state that the chain
/// reached gives a chain that validates to the state after the block.
proof fn lemma_append_block(c: Seq<BlockView>, b: BlockView, m: Map<u64, i64>, m2: Map<u64, i64>)
    requires
        c.len() >= 1,
        c.len() <= usize::MAX,
        validation(c) == Ok::<Map<u64, i64>, ValidationError>(m),
        block_step(m, b, c.last(), c.len() as usize) == Ok::<Map<u64, i64>, ValidationError>(m2),
    ensures
        validation(c.push(b)) == Ok::<Map<u64, i64>, ValidationError>(m2),
{
    let c2 = c.push(b);
    lemma_upto_agree(c, c2, c.len());
    assert(c2[c2.len() - 1] == b);
    assert(c2[c2.len() - 2] == c.last());
}

/// Every prefix of a chain that validates validates too.
proof fn lemma_ok_prefix(c: Seq<BlockView>, k: nat, n: nat)
    requires
        1 <= k <= n,
        validate_upto(c, n) is Ok,
    ensures
        validate_upto(c, k) is Ok,
{
    if validate_upto(c, k) is Err {
        lemma_err_sticks(c, k, n);
    }
}

/// Altering the contents of a block after the first in a chain that
/// validates, while keeping its stored digest, makes validation stop at that
/// block with `HashMismatch`, where the altered contents digest differently
/// and their transactions still replay against the state before the block.
pub proof fn lemma_tamper_detected(c: Seq<BlockView>, i: int, altered: ContentsView)
    requires
        validation(c) is Ok,
        0 < i < c.len(),
        c.len() <= usize::MAX,
        content_hash(altered) != content_hash(c[i].contents),
        replay_checked(validate_upto(c, i as nat)->Ok_0, altered.transactions, i as usize) is Ok,
    ensures
        validation(c.update(i, BlockView { hash: c[i].hash, contents: altered }))
            == Err::<Map<u64, i64>, ValidationError>(ValidationError::HashMismatch(i as usize)),
{
    let c2 = c.update(i, BlockView { hash: c[i].hash, contents: altered });
    lemma_ok_prefix(c, i as nat, c.len());
    lemma_ok_prefix(c, (i + 1) as nat, c.len());
    lemma_upto_agree(c, c2, i as nat);
    assert(c2[i] == BlockView { hash: c[i].hash, contents: altered });
    assert(validate_upto(c2, (i + 1) as nat) is Err);
    lemma_err_sticks(c2, (i + 1) as nat, c2.len());
}

/// Resealing a block after the first in a chain that validates, with a
/// parent digest other than its predecessor's, makes validation stop at that
/// block with `ParentHashMismatch`.
pub proof fn lemma_broken_link_detected(c: Seq<BlockView>, i: int, other: Seq<u8>)
    requires
        validation(c) is Ok,
        0 < i < c.len(),
        c.len() <= usize::MAX,
        other != c[i - 1].hash,
    ensures
        ({
            let altered = ContentsView { parent_hash: Some(other), ..c[i].contents };
            validation(c.update(i, BlockView { hash: content_hash(altered), contents: altered }))
                == Err::<Map<u64, i64>, ValidationError>(ValidationError::ParentHashMismatch(i as usize))
        }),
{
    let altered = ContentsView { parent_hash: Some(other), ..c[i].contents };
    let c2 = c.update(i, BlockView { hash: content_hash(altered), contents: altered });
    lemma_ok_prefix(c, i as nat, c.len());
    lemma_ok_prefix(c, (i + 1) as nat, c.len());
    lemma_upto_agree(c, c2, i as nat);
    assert(c2[i - 1] == c[i - 1]);
    assert(validate_upto(c2, (i + 1) as nat) is Err);
    lemma_err_sticks(c2, (i + 1) as nat, c2.len());
}

/// Applies the transactions of the first block to the empty state.
fn replay_genesis(txns: &Vec<Transaction>) -> (r: Option<LedgerState>)
    ensures
        match r {
            Some(s) => replay_trusted(Map::empty(), txns_view(txns@)) == Some(s@),
            None => replay_trusted(Map::empty(), txns_view(txns@)) is None,
        },
{
    let ghost tv = txns_view(txns@);
    let mut state = LedgerState::new();
    let mut i: usize = 0;
    while i < txns.len()
        invariant
            i <= txns.len(),
            tv == txns_view(txns@),
            replay_trusted(Map::empty(), tv.take(i as int)) == Some(state@),
        decreases txns.len() - i,
    {
        assert(tv.take(i + 1).drop_last() =~= tv.take(i as int));
        assert(tv.take(i + 1).last() == txns@[i as int]@);
        match state.checked_update(&txns[i]) {
            Some(s) => {
                state = s;
            },
            None => {
                proof {
                    lemma_trusted_none_extends(Map::empty(), tv, i + 1);
                }
                return None;
            },
        }
        i = i + 1;
    }
    assert(tv.take(i as int) =~= tv);
    Some(state)
}

/// Applies the transactions of the block at `index` to `state`, checking each
/// against the state reached so far.
fn replay_block(state: &LedgerState, txns: &Vec<Transaction>, index: usize) -> (r: Result<LedgerState, ValidationError>)
    ensures
        outcome(r) == replay_checked(state@, txns_view(txns@), index),
{
    let ghost tv = txns_view(txns@);
    let mut cur = state.clone();
    let mut i: usize = 0;
    while i < txns.len()
        invariant
            i <= txns.len(),
            tv == txns_view(txns@),
            replay_checked(state@, tv.take(i as int), index) == outcome(Ok(cur)),
        decreases txns.len() - i,
    {
        assert(tv.take(i + 1).drop_last() =~= tv.take(i as int));
        assert(tv.take(i + 1).last() == txns@[i as int]@);
        let t = &txns[i];
        match t.check(&cur) {
            Err(reason) => {
                proof {
                    lemma_checked_err_extends(state@, tv, index, i + 1);
                }
                return Err(ValidationError::InvalidTransaction(index, reason));
            },
            Ok(_) => {},
        }
        match cur.checked_update(t) {
            Some(s) => {
                cur = s;
            },
            None => {
                proof {
                    lemma_checked_err_extends(state@, tv, index, i + 1);
                }
                return Err(ValidationError::BalanceOverflow(index));
            },
        }
        i = i + 1;
    }
    assert(tv.take(i as int) =~= tv);
    Ok(cur)
}

/// Checks `block`, at position `index` after `parent`, against `state`: its
/// transactions in order, then its digest, its number and its parent link.
/// Gives the state after the block.
pub fn check_block_validity(block: &Block, parent: &Block, state: &LedgerState, index: usize) -> (r: Result<LedgerState, ValidationError>)
    ensures
        outcome(r) == block_step(state@, block@, parent@, index),
{
    let next = replay_block(state, &block.contents.transactions, index);
    let next = match next {
        Err(e) => return Err(e),
        Ok(s) => s,
    };
    if !block.contents_match_hash() {
        return Err(ValidationError::HashMismatch(index));
    }
    let parent_number = parent.contents.block_number;
    if parent_number == u64::MAX || block.contents.block_number != parent_number + 1 {
        return Err(ValidationError::BlockNumberMismatch(index));
    }
    let linked = match &block.contents.parent_hash {
        Some(h) => crate::codec::bytes_equal(h, &parent.hash),
        None => false,
    };
    if !linked {
        return Err(ValidationError::ParentHashMismatch(index));
    }
    Ok(next)
}

/// Builds a chain whose first block holds one transaction with the opening
/// balances `opening`, followed by blocks of up to `capacity` transactions:
/// each transaction of `txns` is offered in turn to the state reached so far
/// and kept where it is valid there, dropped otherwise. A block is sealed
/// once it holds `capacity` transactions, and at the end where any are left.
/// Gives the chain and the state after its last block.
pub fn build_chain(opening: &BTreeMap<u64, i64>, txns: &[Transaction], capacity: usize) -> (r: (Vec<Block>, LedgerState))
    requires
        capacity > 0,
    ensures
        r.0.len() >= 1,
        r.0@[0].contents.block_number == 0,
        r.0@[0].contents.parent_hash is None,
        r.0@[0].contents@.transactions.len() == 1,
        pairs_map(r.0@[0].contents@.transactions[0]) == opening@,
        keys_increasing(r.0@[0].contents@.transactions[0]),
        forall|j: int| 1 <= j < r.0.len() ==> 0 < (#[trigger] r.0@[j]).contents@.transactions.len() <= capacity,
        forall|j: int| 1 <= j < r.0.len() - 1 ==> (#[trigger] r.0@[j]).contents@.transactions.len() == capacity,
        forall|j: int| 0 <= j < r.0.len() ==> (#[trigger] r.0@[j]).contents.block_number == j,
        txns_after_first(chain_view(r.0@)) == accepted_txns(opening@, txns_view(txns@)),
        r.1@ == accept_all(opening@, txns_view(txns@)),
        validation(chain_view(r.0@)) == outcome(Ok(r.1)),
{
    let ghost tv = txns_view(txns@);
    let opening_txn = Transaction::from_btree(opening);
    proof {
        lemma_apply_from_empty(opening_txn@);
    }
    let mut genesis_txns: Vec<Transaction> = Vec::new();
    genesis_txns.push(opening_txn);
    let genesis = Block::new(BlockContents { block_number: 0, parent_hash: None, transactions: genesis_txns });
    let mut chain: Vec<Block> = Vec::new();
    chain.push(genesis);
    let mut state = LedgerState { balances: opening.clone() };
    proof {
        let gt = chain@[0].contents@.transactions;
        assert(gt =~= seq![chain@[0].contents.transactions@[0]@]);
        assert(gt.drop_last() =~= Seq::<Seq<(u64, i64)>>::empty());
        assert(gt.last() == opening_txn@);
        assert(replay_trusted(Map::empty(), gt.drop_last()) == Some(Map::<u64, i64>::empty()));
        assert(replay_trusted(Map::empty(), gt) == Some(state@));
        assert(chain_view(chain@)[0] == chain@[0]@);
    }
    let mut block_start = state.clone();
    let mut pending: Vec<Transaction> = Vec::new();
    assert(txns_view(pending@) =~= Seq::<Seq<(u64, i64)>>::empty());
    assert(tv.take(0) =~= Seq::<Seq<(u64, i64)>>::empty());
    assert(txns_after_first(chain_view(chain@)) + txns_view(pending@) =~= Seq::<Seq<(u64, i64)>>::empty());
    let mut i: usize = 0;
    while i < txns.len()
        invariant
            i <= txns.len(),
            capacity > 0,
            tv == txns_view(txns@),
            chain.len() >= 1,
            chain.len() + pending.len() <= i + 1,
            pending.len() < capacity,
            chain@[0].contents.block_number == 0,
            chain@[0].contents.parent_hash is None,
            chain@[0].contents@.transactions.len() == 1,
            pairs_map(chain@[0].contents@.transactions[0]) == opening@,
            keys_increasing(chain@[0].contents@.transactions[0]),
            forall|j: int| 1 <= j < chain.len() ==> (#[trigger] chain@[j]).contents@.transactions.len() == capacity,
            forall|j: int| 0 <= j < chain.len() ==> (#[trigger] chain@[j]).contents.block_number == j,
            txns_after_first(chain_view(chain@)) + txns_view(pending@) == accepted_txns(opening@, tv.take(i as int)),
            chain@.last().contents.block_number == chain.len() - 1,
            chain@.last().hash@ == content_hash(chain@.last().contents@),
            validation(chain_view(chain@)) == outcome(Ok(block_start)),
            replay_checked(block_start@, txns_view(pending@), chain.len() as usize) == outcome(Ok(state)),
            state@ == accept_all(opening@, tv.take(i as int)),
        decreases txns.len() - i,
    {
        assert(tv.take(i + 1).drop_last() =~= tv.take(i as int));
        assert(tv.take(i + 1).last() == txns@[i as int]@);
        let t = &txns[i];
        if t.is_valid(&state) {
            match state.checked_update(t) {
                Some(s) => {
                    let ghost before = txns_view(pending@);
                    pending.push(t.clone());
                    assert(txns_view(pending@).drop_last() =~= before);
                    assert(txns_view(pending@) =~= before.push(txns@[i as int]@));
                    assert(txns_after_first(chain_view(chain@)) + txns_view(pending@) =~= (txns_after_first(chain_view(chain@)) + before).push(txns@[i as int]@));
                    state = s;
                },
                None => {},
            }
        }
        i = i + 1;
        if pending.len() == capacity {
            let b = make_block(pending.as_slice(), chain.as_slice());
            proof {
                assert(b@.contents.transactions == txns_view(pending@));
                lemma_append_block(chain_view(chain@), b@, block_start@, state@);
                assert(chain_view(chain@).push(b@) =~= chain_view(chain@.push(b)));
                assert(chain_view(chain@).push(b@).drop_last() =~= chain_view(chain@));
            }
            chain.push(b);
            pending = Vec::new();
            block_start = state.clone();
            assert(txns_view(pending@) =~= Seq::<Seq<(u64, i64)>>::empty());
            assert(txns_after_first(chain_view(chain@)) + txns_view(pending@) =~= txns_after_first(chain_view(chain@)));
        }
    }
    assert(tv.take(i as int) =~= tv);
    if pending.len() > 0 {
        let b = make_block(pending.as_slice(), chain.as_slice());
        proof {
            assert(b@.contents.transactions == txns_view(pending@));
            lemma_append_block(chain_view(chain@), b@, block_start@, state@);
            assert(chain_view(chain@).push(b@) =~= chain_view(chain@.push(b)));
            assert(chain_view(chain@).push(b@).drop_last() =~= chain_view(chain@));
        }
        chain.push(b);
    } else {
        assert(txns_view(pending@) =~= Seq::<Seq<(u64, i64)>>::empty());
        assert(txns_after_first(chain_view(chain@)) + txns_view(pending@) =~= txns_after_first(chain_view(chain@)));
    }
    (chain, state)
}

/// Replays `chain` from its first block and gives the final balances, or the
/// first fault met.
pub fn check_chain(chain: &[Block]) -> (r: Result<LedgerState, ValidationError>)
    ensures
        outcome(r) == validation(chain_view(chain@)),
{
    let ghost cv = chain_view(chain@);
    if chain.len() == 0 {
        return Err(ValidationError::EmptyChain);
    }
    let genesis = &chain[0];
    let mut state = match replay_genesis(&genesis.contents.transactions) {
        Some(s) => s,
        None => {
            proof {
                lemma_err_sticks(cv, 1, cv.len());
            }
            return Err(ValidationError::BalanceOverflow(0));
        },
    };
    if !genesis.contents_match_hash() {
        proof {
            lemma_err_sticks(cv, 1, cv.len());
        }
        return Err(ValidationError::HashMismatch(0));
    }
    assert(validate_upto(cv, 1) == outcome(Ok(state)));
    let mut k: usize = 1;
    while k < chain.len()
        invariant
            1 <= k <= chain.len(),
            cv == chain_view(chain@),
            validate_upto(cv, k as nat) == outcome(Ok(state)),
        decreases chain.len() - k,
    {
        match check_block_validity(&chain[k], &chain[k - 1], &state, k) {
            Ok(s) => {
                state = s;
            },
            Err(e) => {
                proof {
                    lemma_err_sticks(cv, (k + 1) as nat, cv.len());
                }
                return Err(e);
            },
        }
        k = k + 1;
    }
    Ok(state)
}

} // verus!

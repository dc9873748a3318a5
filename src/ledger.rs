//! Transactions, account balances and the state transition between them.
use vstd::prelude::*;
use std::collections::BTreeMap;
use vstd::std_specs::btree::increasing_seq;
use vstd::std_specs::iter::IteratorSpec;
use vstd::laws_cmp::obeys_cmp;
use vstd::std_specs::cmp::OrdSpec;

verus! {

/// Identifier of an account; unknown accounts hold a balance of zero.
pub type AccountId = u64;

/// Balance of `k` in `m`, zero where `m` holds no entry for it.
pub open spec fn balance_of(m: Map<u64, i64>, k: u64) -> int {
    if m.contains_key(k) {
        m[k] as int
    } else {
        0
    }
}

/// Sum of the deltas of a transaction.
pub open spec fn delta_sum(d: Seq<(u64, i64)>) -> int
    decreases d.len(),
{
    if d.len() == 0 {
        0
    } else {
        delta_sum(d.drop_last()) + d.last().1
    }
}

/// Every account that `d` touches keeps a non-negative balance against `m`.
pub open spec fn covers(m: Map<u64, i64>, d: Seq<(u64, i64)>) -> bool {
    forall|j: int| 0 <= j < d.len() ==> balance_of(m, #[trigger] d[j].0) + d[j].1 >= 0
}

/// Why a transaction is refused against a state.
#[derive(Clone, Copy, Debug, PartialEq, Eq)]
pub enum TxError {
    /// The deltas do not sum to zero.
    Unbalanced,
    /// Some account would end with a negative balance.
    InsufficientBalance,
}

/// Outcome of checking the deltas `d` against the state `m`.
pub open spec fn tx_outcome(m: Map<u64, i64>, d: Seq<(u64, i64)>) -> Result<(), TxError> {
    if delta_sum(d) != 0 {
        Err(TxError::Unbalanced)
    } else if !covers(m, d) {
        Err(TxError::InsufficientBalance)
    } else {
        Ok(())
    }
}

/// The state after adding each delta of `d` in turn; `None` where a balance
/// leaves the range of `i64` on the way.
pub open spec fn applied(m: Map<u64, i64>, d: Seq<(u64, i64)>) -> Option<Map<u64, i64>>
    decreases d.len(),
{
    if d.len() == 0 {
        Some(m)
    } else {
        match applied(m, d.drop_last()) {
            None => None,
            Some(m1) => {
                let v = balance_of(m1, d.last().0) + d.last().1;
                if i64::MIN <= v <= i64::MAX {
                    Some(m1.insert(d.last().0, v as i64))
                } else {
                    None
                }
            },
        }
    }
}

/// The mapping that a list of pairs denotes; a later pair for a key replaces
/// an earlier one.
pub open spec fn pairs_map(d: Seq<(u64, i64)>) -> Map<u64, i64>
    decreases d.len(),
{
    if d.len() == 0 {
        Map::empty()
    } else {
        pairs_map(d.drop_last()).insert(d.last().0, d.last().1)
    }
}

/// The account ids of `d` are strictly increasing, hence unique.
pub open spec fn keys_increasing(d: Seq<(u64, i64)>) -> bool {
    forall|i: int, j: int| 0 <= i < j < d.len() ==> d[i].0 < d[j].0
}

/// Once a prefix of the deltas overflows, every longer prefix does too.
proof fn lemma_apply_none_extends(m: Map<u64, i64>, d: Seq<(u64, i64)>, i: int)
    requires
        0 <= i <= d.len(),
        applied(m, d.take(i)) is None,
    ensures
        applied(m, d) is None,
    decreases d.len() - i,
{
    if i < d.len() {
        assert(d.take(i + 1).drop_last() =~= d.take(i));
        lemma_apply_none_extends(m, d, i + 1);
    } else {
        assert(d.take(i) =~= d);
    }
}

/// With unique keys, each pair of `d` stands in the mapping, and the mapping
/// holds nothing else.
pub proof fn lemma_pairs_map_unique(d: Seq<(u64, i64)>)
    requires
        keys_increasing(d),
    ensures
        forall|j: int| 0 <= j < d.len() ==> #[trigger] pairs_map(d).contains_key(d[j].0) && pairs_map(d)[d[j].0] == d[j].1,
        forall|k: u64| #[trigger] pairs_map(d).contains_key(k) ==> exists|j: int| 0 <= j < d.len() && d[j].0 == k,
    decreases d.len(),
{
    if d.len() > 0 {
        let p = d.drop_last();
        assert(keys_increasing(p));
        lemma_pairs_map_unique(p);
        assert forall|k: u64| #[trigger] pairs_map(d).contains_key(k) implies exists|j: int| 0 <= j < d.len() && d[j].0 == k by {
            if k != d.last().0 {
                assert(pairs_map(p).contains_key(k));
                let j = choose|j: int| 0 <= j < p.len() && p[j].0 == k;
                assert(p[j] == d[j]);
            } else {
                assert(d[d.len() - 1].0 == k);
            }
        }
        assert forall|j: int| 0 <= j < d.len() implies #[trigger] pairs_map(d).contains_key(d[j].0) && pairs_map(d)[d[j].0] == d[j].1 by {
            assert(pairs_map(d) == pairs_map(p).insert(d.last().0, d.last().1));
            if j < d.len() - 1 {
                assert(p[j] == d[j]);
                assert(pairs_map(p).contains_key(p[j].0));
                assert(d[j].0 < d.last().0);
            }
        }
    }
}

/// Applying the pairs of `d`, with unique keys, to the empty state gives the
/// mapping they denote.
pub proof fn lemma_apply_from_empty(d: Seq<(u64, i64)>)
    requires
        keys_increasing(d),
    ensures
        applied(Map::empty(), d) == Some(pairs_map(d)),
    decreases d.len(),
{
    if d.len() > 0 {
        let p = d.drop_last();
        assert(keys_increasing(p));
        lemma_apply_from_empty(p);
        lemma_pairs_map_unique(p);
        if pairs_map(p).contains_key(d.last().0) {
            let j = choose|j: int| 0 <= j < p.len() && p[j].0 == d.last().0;
            assert(d[j].0 < d[d.len() - 1].0);
        }
    }
}

/// With unique accounts, applying `d` adds each delta to its account's
/// balance and leaves every other account as it was.
pub proof fn lemma_apply_effect(m: Map<u64, i64>, d: Seq<(u64, i64)>)
    requires
        keys_increasing(d),
        applied(m, d) is Some,
    ensures
        forall|j: int| 0 <= j < d.len() ==> balance_of(applied(m, d)->0, #[trigger] d[j].0) == balance_of(m, d[j].0) + d[j].1,
        forall|k: u64| (forall|j: int| 0 <= j < d.len() ==> #[trigger] d[j].0 != k) ==> balance_of(applied(m, d)->0, k) == balance_of(m, k),
    decreases d.len(),
{
    if d.len() > 0 {
        let p = d.drop_last();
        assert(keys_increasing(p));
        lemma_apply_effect(m, p);
        let last = d.last().0;
        assert forall|j: int| 0 <= j < p.len() implies #[trigger] p[j].0 != last by {
            assert(p[j] == d[j]);
        }
        assert forall|j: int| 0 <= j < d.len() implies balance_of(applied(m, d)->0, #[trigger] d[j].0) == balance_of(m, d[j].0) + d[j].1 by {
            if j < d.len() - 1 {
                assert(p[j] == d[j]);
            }
        }
        assert forall|k: u64| (forall|j: int| 0 <= j < d.len() ==> #[trigger] d[j].0 != k) implies balance_of(applied(m, d)->0, k) == balance_of(m, k) by {
            assert(d[d.len() - 1].0 != k);
            assert forall|j: int| 0 <= j < p.len() implies #[trigger] p[j].0 != k by {
                assert(p[j] == d[j]);
            }
        }
    }
}

/// Applying a transaction with unique accounts that is valid against `m`
/// leaves every account it touches with a non-negative balance.
pub proof fn lemma_valid_apply_nonnegative(m: Map<u64, i64>, d: Seq<(u64, i64)>)
    requires
        keys_increasing(d),
        tx_outcome(m, d) is Ok,
        applied(m, d) is Some,
    ensures
        forall|j: int| 0 <= j < d.len() ==> balance_of(applied(m, d)->0, #[trigger] d[j].0) >= 0,
{
    lemma_apply_effect(m, d);
}

/// A balance transfer: one delta per account, kept in increasing order of
/// account id so that its encoding does not depend on how it was built.
#[derive(Debug)]
pub struct Transaction {
    pub(crate) amounts: Vec<(u64, i64)>,
}

impl View for Transaction {
    type V = Seq<(u64, i64)>;

    closed spec fn view(&self) -> Seq<(u64, i64)> {
        self.amounts@
    }
}

impl Clone for Transaction {
    fn clone(&self) -> (r: Self)
        ensures
            r@ == self@,
    {
        let mut amounts: Vec<(u64, i64)> = Vec::new();
        let mut i: usize = 0;
        while i < self.amounts.len()
            invariant
                i <= self.amounts.len(),
                amounts@ == self.amounts@.take(i as int),
            decreases self.amounts.len() - i,
        {
            assert(self.amounts@.take(i + 1) =~= self.amounts@.take(i as int).push(self.amounts@[i as int]));
            amounts.push(self.amounts[i]);
            i = i + 1;
        }
        assert(self.amounts@.take(i as int) =~= self.amounts@);
        Transaction { amounts }
    }
}

impl Transaction {
    /// The account ids are strictly increasing.
    pub open spec fn wf(&self) -> bool {
        keys_increasing(self@)
    }

    /// The transaction holding the pairs of `amounts`; where an account
    /// appears more than once, its last delta is kept.
    pub fn from_vec(amounts: &Vec<(u64, i64)>) -> (r: Self)
        ensures
            r.wf(),
            pairs_map(r@) == pairs_map(amounts@),
    {
        let mut m: BTreeMap<u64, i64> = BTreeMap::new();
        let mut i: usize = 0;
        while i < amounts.len()
            invariant
                i <= amounts.len(),
                m@ == pairs_map(amounts@.take(i as int)),
            decreases amounts.len() - i,
        {
            assert(amounts@.take(i + 1).drop_last() =~= amounts@.take(i as int));
            let (k, v) = amounts[i];
            m.insert(k, v);
            i = i + 1;
        }
        assert(amounts@.take(i as int) =~= amounts@);
        Self::from_btree(&m)
    }

    /// The transaction holding exactly the entries of `amounts`.
    pub fn from_btree(amounts: &BTreeMap<u64, i64>) -> (r: Self)
        ensures
            r.wf(),
            pairs_map(r@) == amounts@,
    {
        broadcast use vstd::laws_cmp::group_laws_cmp;
        broadcast use vstd::std_specs::btree::group_btree_axioms;
        let mut v: Vec<(u64, i64)> = Vec::new();
        let iter = amounts.iter();
        let ghost s = iter.remaining();
        let ghost ks = s.map_values(|kv: (&u64, &i64)| *kv.0);
        assert(obeys_cmp::<u64>());
        assert(increasing_seq(ks));
        assert forall|i: int, j: int| 0 <= i < j < ks.len() implies ks[i] < ks[j] by {
            assert(ks[i].cmp_spec(&ks[j]) is Less);
        }
        for p in it: iter
            invariant
                it.seq() == s,
                v@.len() == it.index(),
                forall|j: int| 0 <= j < it.index() ==> #[trigger] v@[j] == (*s[j].0, *s[j].1),
        {
            let (k, x) = p;
            v.push((*k, *x));
        }
        proof {
            assert forall|i: int, j: int| 0 <= i < j < v@.len() implies v@[i].0 < v@[j].0 by {
                assert(ks[i] == v@[i].0 && ks[j] == v@[j].0);
            }
            lemma_pairs_map_unique(v@);
            assert forall|k: u64| #[trigger] amounts@.contains_key(k) implies pairs_map(v@).contains_key(k) by {
                assert(s.contains((&k, &amounts@[k])));
                let j = choose|j: int| 0 <= j < s.len() && s[j] == (&k, &amounts@[k]);
                assert(v@[j].0 == k);
            }
            assert forall|k: u64| #[trigger] pairs_map(v@).contains_key(k) implies amounts@.contains_key(k) && pairs_map(v@)[k] == amounts@[k] by {
                let j = choose|j: int| 0 <= j < v@.len() && v@[j].0 == k;
                assert(amounts@.contains_key(*s[j].0));
            }
            assert(pairs_map(v@) =~= amounts@);
        }
        Transaction { amounts: v }
    }

    /// The deltas, in increasing order of account id.
    pub fn deltas(&self) -> (r: &Vec<(u64, i64)>)
        ensures
            r@ == self@,
    {
        &self.amounts
    }

    /// True iff the deltas sum to zero.
    pub fn is_balanced(&self) -> (r: bool)
        ensures
            r == (delta_sum(self@) == 0),
    {
        let d = &self.amounts;
        let mut sum: i128 = 0;
        let mut i: usize = 0;
        while i < d.len()
            invariant
                i <= d.len(),
                sum == delta_sum(d@.take(i as int)),
                -(i as int) * 0x8000_0000_0000_0000 <= sum <= (i as int) * 0x8000_0000_0000_0000,
            decreases d.len() - i,
        {
            assert(d@.take(i + 1).drop_last() =~= d@.take(i as int));
            assert(sum + d[i as int].1 <= (i as int + 1) * 0x8000_0000_0000_0000) by (nonlinear_arith)
                requires
                    sum <= (i as int) * 0x8000_0000_0000_0000,
                    d[i as int].1 <= i64::MAX,
            ;
            assert(sum + d[i as int].1 >= -(i as int + 1) * 0x8000_0000_0000_0000) by (nonlinear_arith)
                requires
                    sum >= -(i as int) * 0x8000_0000_0000_0000,
                    d[i as int].1 >= i64::MIN,
            ;
            assert((i as int + 1) * 0x8000_0000_0000_0000 <= 0x8000_0000_0000_0000 * 0x1_0000_0000_0000_0000) by (nonlinear_arith)
                requires
                    i < usize::MAX,
            ;
            sum = sum + d[i].1 as i128;
            i = i + 1;
        }
        assert(d@.take(d.len() as int) =~= d@);
        sum == 0
    }

    /// Checks the transaction against `state`: it must be balanced, and every
    /// account it touches must keep a non-negative balance.
    pub fn check(&self, state: &LedgerState) -> (r: Result<(), TxError>)
        ensures
            r == tx_outcome(state@, self@),
    {
        if !self.is_balanced() {
            return Err(TxError::Unbalanced);
        }
        let d = &self.amounts;
        let mut i: usize = 0;
        while i < d.len()
            invariant
                i <= d.len(),
                d@ == self@,
                delta_sum(self@) == 0,
                forall|j: int| 0 <= j < i ==> balance_of(state@, #[trigger] d@[j].0) + d@[j].1 >= 0,
            decreases d.len() - i,
        {
            let (k, v) = d[i];
            let cur = state.balance(k);
            if (cur as i128) + (v as i128) < 0 {
                assert(!covers(state@, d@));
                return Err(TxError::InsufficientBalance);
            }
            i = i + 1;
        }
        Ok(())
    }

    /// True iff `check` accepts the transaction against `state`.
    pub fn is_valid(&self, state: &LedgerState) -> (r: bool)
        ensures
            r == (tx_outcome(state@, self@) is Ok),
    {
        self.check(state).is_ok()
    }
}

/// Account balances.
#[derive(Debug)]
pub struct LedgerState {
    pub balances: BTreeMap<u64, i64>,
}

impl View for LedgerState {
    type V = Map<u64, i64>;

    open spec fn view(&self) -> Map<u64, i64> {
        self.balances@
    }
}

impl Clone for LedgerState {
    fn clone(&self) -> (r: Self)
        ensures
            r@ == self@,
    {
        LedgerState { balances: self.balances.clone() }
    }
}

impl LedgerState {
    /// The state in which every account holds zero.
    pub fn new() -> (r: Self)
        ensures
            r@ == Map::<u64, i64>::empty(),
    {
        LedgerState { balances: BTreeMap::new() }
    }

    /// The balance of `account`, zero for an account never seen.
    pub fn balance(&self, account: AccountId) -> (r: i64)
        ensures
            r == balance_of(self@, account),
    {
        match self.balances.get(&account) {
            Some(b) => *b,
            None => 0,
        }
    }

    /// A new state with each delta of `txn` added to its account's balance,
    /// or `None` where a balance would leave the range of `i64`. `self` is
    /// left as it was.
    pub fn checked_update(&self, txn: &Transaction) -> (r: Option<LedgerState>)
        ensures
            match r {
                Some(s) => applied(self@, txn@) == Some(s@),
                None => applied(self@, txn@) is None,
            },
    {
        let d = &txn.amounts;
        let mut balances = self.balances.clone();
        let mut i: usize = 0;
        while i < d.len()
            invariant
                i <= d.len(),
                d@ == txn@,
                applied(self@, d@.take(i as int)) == Some(balances@),
            decreases d.len() - i,
        {
            assert(d@.take(i + 1).drop_last() =~= d@.take(i as int));
            let (k, v) = d[i];
            let cur: i64 = match balances.get(&k) {
                Some(b) => *b,
                None => 0,
            };
            let nv: i128 = cur as i128 + v as i128;
            if nv < i64::MIN as i128 || nv > i64::MAX as i128 {
                proof {
                    assert(d@.take(i + 1).last() == d@[i as int]);
                    assert(applied(self@, d@.take(i + 1)) is None);
                    lemma_apply_none_extends(self@, d@, i + 1);
                }
                return None;
            }
            balances.insert(k, nv as i64);
            i = i + 1;
        }
        assert(d@.take(d.len() as int) =~= d@);
        Some(LedgerState { balances })
    }

    /// A new state with each delta of `txn` added to its account's balance.
    pub fn update(&self, txn: &Transaction) -> (r: LedgerState)
        requires
            applied(self@, txn@) is Some,
        ensures
            applied(self@, txn@) == Some(r@),
    {
        match self.checked_update(txn) {
            Some(s) => s,
            None => self.clone(),
        }
    }
}

} // verus!

//! Blocks: contents sealed with their digest.
use vstd::prelude::*;
use crate::codec::{ContentsView, content_hash, digest_contents, copy_bytes, bytes_equal};
use crate::ledger::Transaction;

verus! {

/// The number, the parent's digest (absent for the first block) and the
/// transactions of a block.
#[derive(Debug)]
pub struct BlockContents {
    pub block_number: u64,
    pub parent_hash: Option<Vec<u8>>,
    pub transactions: Vec<Transaction>,
}

/// The bytes of an optional digest.
pub open spec fn opt_bytes(h: Option<Vec<u8>>) -> Option<Seq<u8>> {
    match h {
        Some(b) => Some(b@),
        None => None,
    }
}

impl View for BlockContents {
    type V = ContentsView;

    open spec fn view(&self) -> ContentsView {
        ContentsView {
            block_number: self.block_number,
            parent_hash: opt_bytes(self.parent_hash),
            transactions: self.transactions@.map_values(|t: Transaction| t@),
        }
    }
}

/// Contents paired with the digest they were sealed with.
#[derive(Debug)]
pub struct Block {
    pub hash: Vec<u8>,
    pub contents: BlockContents,
}

/// What a block holds, as plain values.
pub struct BlockView {
    pub hash: Seq<u8>,
    pub contents: ContentsView,
}

impl View for Block {
    type V = BlockView;

    open spec fn view(&self) -> BlockView {
        BlockView { hash: self.hash@, contents: self.contents@ }
    }
}

impl BlockContents {
    /// The digest of these contents.
    pub fn hash(&self) -> (r: Vec<u8>)
        ensures
            r@ == content_hash(self@),
    {
        digest_contents(self)
    }
}

impl Block {
    /// Seals `contents` with their digest.
    pub fn new(contents: BlockContents) -> (r: Self)
        ensures
            r.contents == contents,
            r@ == (BlockView { hash: content_hash(contents@), contents: contents@ }),
    {
        let hash = contents.hash();
        Block { hash, contents }
    }

    /// True iff the stored digest is the digest of the contents.
    pub fn contents_match_hash(&self) -> (r: bool)
        ensures
            r == (self.hash@ == content_hash(self.contents@)),
    {
        let hash = self.contents.hash();
        bytes_equal(&self.hash, &hash)
    }
}

/// Copies of `txns`, in order.
pub fn copy_transactions(txns: &[Transaction]) -> (r: Vec<Transaction>)
    ensures
        r@.map_values(|t: Transaction| t@) == txns@.map_values(|t: Transaction| t@),
{
    let mut r: Vec<Transaction> = Vec::new();
    let mut i: usize = 0;
    while i < txns.len()
        invariant
            i <= txns.len(),
            r@.len() == i,
            forall|j: int| 0 <= j < i ==> (#[trigger] r@[j])@ == txns@[j]@,
        decreases txns.len() - i,
    {
        let t = txns[i].clone();
        r.push(t);
        i = i + 1;
    }
    assert(r@.map_values(|t: Transaction| t@) =~= txns@.map_values(|t: Transaction| t@));
    r
}

/// Seals `transactions` into the block that follows the last block of
/// `chain`.
pub fn make_block(transactions: &[Transaction], chain: &[Block]) -> (r: Block)
    requires
        chain.len() > 0,
        chain@.last().contents.block_number < u64::MAX,
    ensures
        r@.contents == (ContentsView {
            block_number: (chain@.last().contents.block_number + 1) as u64,
            parent_hash: Some(chain@.last().hash@),
            transactions: transactions@.map_values(|t: Transaction| t@),
        }),
        r@.hash == content_hash(r@.contents),
{
    let parent = &chain[chain.len() - 1];
    let block_number = parent.contents.block_number + 1;
    let contents = BlockContents {
        block_number,
        parent_hash: Some(copy_bytes(&parent.hash)),
        transactions: copy_transactions(transactions),
    };
    Block::new(contents)
}

} // verus!

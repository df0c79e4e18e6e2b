//! The chain: a genesis emission, a mempool of checked transactions, and
//! proof-of-work blocks that spend one-time receiver addresses.
use vstd::prelude::*;
use vstd::utf8::encode_utf8;
use crate::encoding::{u64_be_bytes, u64_to_be_bytes, push_bytes, text_eq, texts_view};
use crate::crypto::{hash_hex, blake3_hex};
use crate::transaction::{Transaction, TransactionView, txs_view, signature_accepted, system_sender, copy_transactions};

verus! {

/// The fixed supply, as the bit pattern of the 64-bit float 1_000_000.0.
pub const MAX_SUPPLY_BITS: u64 = 0x412e_8480_0000_0000;

/// The timestamp written into the genesis block.
pub const GENESIS_TIMESTAMP: u64 = 1680000000;

/// The timestamp written into every mined block.
pub const BLOCK_TIMESTAMP: u64 = 1779791924;

/// The number of leading zero digits a new chain asks of block hashes.
pub const DEFAULT_DIFFICULTY: usize = 3;

/// A block of the chain.
pub struct Block {
    pub index: u64,
    pub timestamp: u64,
    pub transactions: Vec<Transaction>,
    pub prev_hash: String,
    pub hash: String,
    pub nonce: u64,
}

/// What a block holds, as plain values.
pub struct BlockView {
    pub index: u64,
    pub timestamp: u64,
    pub transactions: Seq<TransactionView>,
    pub prev_hash: Seq<char>,
    pub hash: Seq<char>,
    pub nonce: u64,
}

impl View for Block {
    type V = BlockView;

    open spec fn view(&self) -> BlockView {
        BlockView {
            index: self.index,
            timestamp: self.timestamp,
            transactions: txs_view(self.transactions@),
            prev_hash: self.prev_hash@,
            hash: self.hash@,
            nonce: self.nonce,
        }
    }
}

/// The chain with its mempool. `spent_ephemeral_addresses` is read as a
/// set of addresses (its view); the chain adds an address only when it is
/// not already there.
pub struct Blockchain {
    pub chain: Vec<Block>,
    pub mempool: Vec<Transaction>,
    pub difficulty: usize,
    pub spent_ephemeral_addresses: Vec<String>,
    pub is_genesis_minted: bool,
}

/// What the chain holds, as plain values.
pub struct ChainView {
    pub chain: Seq<BlockView>,
    pub mempool: Seq<TransactionView>,
    pub difficulty: usize,
    pub spent: Set<Seq<char>>,
    pub is_genesis_minted: bool,
}

/// The views of a list of blocks.
pub open spec fn blocks_view(v: Seq<Block>) -> Seq<BlockView> {
    v.map_values(|b: Block| b@)
}

impl View for Blockchain {
    type V = ChainView;

    open spec fn view(&self) -> ChainView {
        ChainView {
            chain: blocks_view(self.chain@),
            mempool: txs_view(self.mempool@),
            difficulty: self.difficulty,
            spent: texts_view(self.spent_ephemeral_addresses@).to_set(),
            is_genesis_minted: self.is_genesis_minted,
        }
    }
}

/// The bytes a block's hash is taken of: index, timestamp and nonce in
/// big-endian order, the previous hash, then the transactions as JSON text.
pub open spec fn block_hash_input(index: u64, timestamp: u64, nonce: u64, prev_hash: Seq<char>, txs_json: Seq<u8>) -> Seq<u8> {
    u64_be_bytes(index) + u64_be_bytes(timestamp) + u64_be_bytes(nonce) + encode_utf8(prev_hash) + txs_json
}

/// The hash of a block with these header fields and transactions.
pub open spec fn block_hash(index: u64, timestamp: u64, nonce: u64, prev_hash: Seq<char>, txs_json: Seq<u8>) -> Seq<char> {
    hash_hex(block_hash_input(index, timestamp, nonce, prev_hash, txs_json))
}

/// Whether `hash` starts with `difficulty` zero digits.
pub open spec fn meets_difficulty(hash: Seq<char>, difficulty: nat) -> bool {
    &&& difficulty <= hash.len()
    &&& forall|i: int| 0 <= i < difficulty ==> #[trigger] hash[i] == '0'
}

/// The previous-hash field of the genesis block: 64 zero digits.
pub open spec fn genesis_prev_hash() -> Seq<char> {
    Seq::new(64, |i: int| '0')
}

/// The receiver name of the genesis emission's single ring key.
pub open spec fn genesis_ring_key() -> Seq<char> {
    seq!['G', 'E', 'N', 'E', 'S', 'I', 'S', '_', 'P', 'O', 'I', 'N', 'T']
}

/// The genesis emission: the whole supply from the system to `developer`.
pub open spec fn genesis_tx(developer: Seq<char>) -> TransactionView {
    TransactionView {
        sender: system_sender(),
        receiver: developer,
        amount: MAX_SUPPLY_BITS,
        ring: seq![genesis_ring_key()],
        tx_id: crate::transaction::tx_id_of(developer, MAX_SUPPLY_BITS, seq![genesis_ring_key()]),
        signature: None,
    }
}

/// Whether the chain still accepts its genesis emission.
pub open spec fn genesis_open(s: ChainView) -> bool {
    !s.is_genesis_minted && s.chain.len() == 0
}

/// Whether the mempool takes `tx`: its signature checks, its one-time
/// receiver was never spent, and it is no system emission after genesis.
pub open spec fn mempool_accepts(s: ChainView, tx: TransactionView) -> bool {
    &&& signature_accepted(tx)
    &&& !s.spent.contains(tx.receiver)
    &&& !(tx.sender == system_sender() && s.is_genesis_minted)
}

/// The receivers of a list of transactions, as a set.
pub open spec fn receivers(txs: Seq<TransactionView>) -> Set<Seq<char>> {
    txs.map_values(|t: TransactionView| t.receiver).to_set()
}

/// Every block after the first names its predecessor's hash and the next index.
pub open spec fn chain_linked(chain: Seq<BlockView>) -> bool {
    forall|i: int|
        0 < i < chain.len() ==> {
            &&& (#[trigger] chain[i]).prev_hash == chain[i - 1].hash
            &&& chain[i].index == chain[i - 1].index + 1
        }
}

/// Whether some nonce makes a block's hash meet the difficulty.
pub open spec fn nonce_exists(index: u64, timestamp: u64, prev_hash: Seq<char>, txs_json: Seq<u8>, difficulty: nat) -> bool {
    exists|n: u64| meets_difficulty(#[trigger] block_hash(index, timestamp, n, prev_hash, txs_json), difficulty)
}

/// Whether `n` is the least nonce that makes a block's hash meet the difficulty.
pub open spec fn least_nonce(index: u64, timestamp: u64, prev_hash: Seq<char>, txs_json: Seq<u8>, difficulty: nat, n: u64) -> bool {
    &&& meets_difficulty(block_hash(index, timestamp, n, prev_hash, txs_json), difficulty)
    &&& forall|m: u64| m < n ==> !meets_difficulty(#[trigger] block_hash(index, timestamp, m, prev_hash, txs_json), difficulty)
}

/// Whether the chain can mine its mempool into a block over `txs_json`:
/// there is a last block to build on, its index has a successor, and some
/// nonce meets the difficulty.
pub open spec fn mining_possible(s: ChainView, txs_json: Seq<u8>) -> bool {
    &&& s.chain.len() > 0
    &&& s.chain.last().index < u64::MAX
    &&& nonce_exists((s.chain.last().index + 1) as u64, BLOCK_TIMESTAMP, s.chain.last().hash, txs_json, s.difficulty as nat)
}

/// The block that mining the mempool of `s` over `txs_json` with nonce `n` appends.
pub open spec fn mined_block(s: ChainView, txs_json: Seq<u8>, n: u64) -> BlockView {
    let index = (s.chain.last().index + 1) as u64;
    BlockView {
        index,
        timestamp: BLOCK_TIMESTAMP,
        transactions: s.mempool,
        prev_hash: s.chain.last().hash,
        hash: block_hash(index, BLOCK_TIMESTAMP, n, s.chain.last().hash, txs_json),
        nonce: n,
    }
}

/// The chain after its mempool was mined into a block with nonce `n`: the
/// block is appended, its receivers are spent, and the mempool is empty.
pub open spec fn after_mining(s: ChainView, txs_json: Seq<u8>, n: u64) -> ChainView {
    ChainView {
        chain: s.chain.push(mined_block(s, txs_json, n)),
        mempool: Seq::empty(),
        spent: s.spent.union(receivers(s.mempool)),
        ..s
    }
}

/// The chain after its genesis block for `developer` with transactions
/// JSON `txs_json` was appended.
pub open spec fn after_genesis(s: ChainView, developer: Seq<char>, txs_json: Seq<u8>) -> ChainView {
    ChainView {
        chain: s.chain.push(BlockView {
            index: 0,
            timestamp: GENESIS_TIMESTAMP,
            transactions: seq![genesis_tx(developer)],
            prev_hash: genesis_prev_hash(),
            hash: block_hash(0, GENESIS_TIMESTAMP, 0, genesis_prev_hash(), txs_json),
            nonce: 0,
        }),
        is_genesis_minted: true,
        ..s
    }
}

/// The chain after `tx` entered the mempool.
pub open spec fn accept_tx(s: ChainView, tx: TransactionView) -> ChainView {
    ChainView { mempool: s.mempool.push(tx), ..s }
}

/// One call on the chain: nothing changes (a refusal, or mining an empty
/// mempool), an accepted transaction enters the mempool, the mempool is
/// mined into a block, or the genesis is minted.
pub open spec fn chain_step(s: ChainView, t: ChainView) -> bool {
    ||| t == s
    ||| exists|tx: TransactionView| mempool_accepts(s, tx) && t == #[trigger] accept_tx(s, tx)
    ||| exists|txs_json: Seq<u8>, n: u64| {
        &&& s.mempool.len() > 0
        &&& mining_possible(s, txs_json)
        &&& least_nonce((s.chain.last().index + 1) as u64, BLOCK_TIMESTAMP, s.chain.last().hash, txs_json, s.difficulty as nat, n)
        &&& t == #[trigger] after_mining(s, txs_json, n)
    }
    ||| exists|developer: Seq<char>, txs_json: Seq<u8>| genesis_open(s) && t == #[trigger] after_genesis(s, developer, txs_json)
}

/// Whether each state of `trace` follows from the one before by one call.
pub open spec fn valid_trace(trace: Seq<ChainView>) -> bool
    decreases trace.len(),
{
    trace.len() <= 1 || (valid_trace(trace.drop_last()) && chain_step(trace[trace.len() - 2], trace.last()))
}

/// Every block's hash is the hash of its header and of some transactions text.
pub open spec fn hashes_consistent(chain: Seq<BlockView>) -> bool {
    forall|i: int| 0 <= i < chain.len() ==> #[trigger] hash_matches(chain[i])
}

/// Whether a block's hash is the hash of its header and of some
/// transactions text.
pub open spec fn hash_matches(b: BlockView) -> bool {
    exists|txs_json: Seq<u8>| b.hash == #[trigger] block_hash(b.index, b.timestamp, b.nonce, b.prev_hash, txs_json)
}

/// Every block after the first meets the difficulty.
pub open spec fn mined_blocks_meet(chain: Seq<BlockView>, difficulty: usize) -> bool {
    forall|i: int| 0 < i < chain.len() ==> meets_difficulty((#[trigger] chain[i]).hash, difficulty as nat)
}

/// The receivers of every block after the first are spent.
pub open spec fn mined_receivers_spent(chain: Seq<BlockView>, spent: Set<Seq<char>>) -> bool {
    forall|i: int, k: int| 0 < i < chain.len() && 0 <= k < chain[i].transactions.len()
        ==> spent.contains((#[trigger] chain[i].transactions[k]).receiver)
}

/// The chain is consistent: linked, every block's hash is the hash of its
/// header and of some transactions text, every mined block meets the
/// difficulty, and the receivers of every mined block are spent.
pub open spec fn chain_consistent(s: ChainView) -> bool {
    &&& chain_linked(s.chain)
    &&& hashes_consistent(s.chain)
    &&& mined_blocks_meet(s.chain, s.difficulty)
    &&& mined_receivers_spent(s.chain, s.spent)
}

proof fn lemma_mining_keeps_hashes(s: ChainView, txs_json: Seq<u8>, n: u64)
    requires
        hashes_consistent(s.chain),
        s.chain.len() > 0,
    ensures
        hashes_consistent(after_mining(s, txs_json, n).chain),
{
    let c = after_mining(s, txs_json, n).chain;
    assert forall|i: int| 0 <= i < c.len() implies #[trigger] hash_matches(c[i]) by {
        if i < s.chain.len() {
            assert(c[i] == s.chain[i]);
        } else {
            assert(c[i].hash == block_hash(c[i].index, c[i].timestamp, c[i].nonce, c[i].prev_hash, txs_json));
        }
    }
}

proof fn lemma_mining_keeps_meet(s: ChainView, txs_json: Seq<u8>, n: u64)
    requires
        mined_blocks_meet(s.chain, s.difficulty),
        s.chain.len() > 0,
        least_nonce((s.chain.last().index + 1) as u64, BLOCK_TIMESTAMP, s.chain.last().hash, txs_json, s.difficulty as nat, n),
    ensures
        mined_blocks_meet(after_mining(s, txs_json, n).chain, s.difficulty),
{
    let c = after_mining(s, txs_json, n).chain;
    assert forall|i: int| 0 < i < c.len() implies meets_difficulty((#[trigger] c[i]).hash, s.difficulty as nat) by {
        if i < s.chain.len() {
            assert(c[i] == s.chain[i]);
        }
    }
}

proof fn lemma_mining_keeps_spent(s: ChainView, txs_json: Seq<u8>, n: u64)
    requires
        mined_receivers_spent(s.chain, s.spent),
        s.chain.len() > 0,
    ensures
        mined_receivers_spent(after_mining(s, txs_json, n).chain, after_mining(s, txs_json, n).spent),
{
    let t = after_mining(s, txs_json, n);
    let c = t.chain;
    assert forall|i: int, k: int| 0 < i < c.len() && 0 <= k < c[i].transactions.len()
        implies t.spent.contains((#[trigger] c[i].transactions[k]).receiver) by {
        if i < s.chain.len() {
            assert(c[i] == s.chain[i]);
        } else {
            assert(c[i].transactions == s.mempool);
            assert(s.mempool.map_values(|x: TransactionView| x.receiver)[k] == s.mempool[k].receiver);
            assert(receivers(s.mempool).contains(s.mempool[k].receiver));
        }
    }
}

/// Mining keeps the chain consistent.
proof fn lemma_mining_keeps_consistent(s: ChainView, txs_json: Seq<u8>, n: u64)
    requires
        chain_consistent(s),
        s.chain.len() > 0,
        s.chain.last().index < u64::MAX,
        least_nonce((s.chain.last().index + 1) as u64, BLOCK_TIMESTAMP, s.chain.last().hash, txs_json, s.difficulty as nat, n),
    ensures
        chain_consistent(after_mining(s, txs_json, n)),
{
    lemma_mining_keeps_chain_linked(s, txs_json, n);
    lemma_mining_keeps_hashes(s, txs_json, n);
    lemma_mining_keeps_meet(s, txs_json, n);
    lemma_mining_keeps_spent(s, txs_json, n);
}

/// Minting the genesis keeps the chain consistent.
proof fn lemma_genesis_keeps_consistent(s: ChainView, developer: Seq<char>, txs_json: Seq<u8>)
    requires
        chain_consistent(s),
        genesis_open(s),
    ensures
        chain_consistent(after_genesis(s, developer, txs_json)),
{
    let t = after_genesis(s, developer, txs_json);
    assert(t.chain.len() == 1);
    assert(t.chain[0].hash == block_hash(t.chain[0].index, t.chain[0].timestamp, t.chain[0].nonce, t.chain[0].prev_hash, txs_json));
    assert(hash_matches(t.chain[0]));
}

/// One call keeps the chain consistent.
pub proof fn lemma_step_keeps_consistent(s: ChainView, t: ChainView)
    requires
        chain_consistent(s),
        chain_step(s, t),
    ensures
        chain_consistent(t),
{
    if t == s {
    } else if exists|tx: TransactionView| mempool_accepts(s, tx) && t == #[trigger] accept_tx(s, tx) {
        assert(t.chain == s.chain && t.spent == s.spent && t.difficulty == s.difficulty);
    } else if exists|txs_json: Seq<u8>, n: u64| {
        &&& s.mempool.len() > 0
        &&& mining_possible(s, txs_json)
        &&& least_nonce((s.chain.last().index + 1) as u64, BLOCK_TIMESTAMP, s.chain.last().hash, txs_json, s.difficulty as nat, n)
        &&& t == #[trigger] after_mining(s, txs_json, n)
    } {
        let (txs_json, n) = choose|txs_json: Seq<u8>, n: u64| {
            &&& s.mempool.len() > 0
            &&& mining_possible(s, txs_json)
            &&& least_nonce((s.chain.last().index + 1) as u64, BLOCK_TIMESTAMP, s.chain.last().hash, txs_json, s.difficulty as nat, n)
            &&& t == #[trigger] after_mining(s, txs_json, n)
        };
        lemma_mining_keeps_consistent(s, txs_json, n);
    } else {
        let (developer, txs_json) = choose|developer: Seq<char>, txs_json: Seq<u8>| genesis_open(s) && t == #[trigger] after_genesis(s, developer, txs_json);
        lemma_genesis_keeps_consistent(s, developer, txs_json);
    }
}

/// A chain that starts consistent stays consistent through any sequence of
/// calls.
pub proof fn lemma_trace_consistent(trace: Seq<ChainView>)
    requires
        valid_trace(trace),
        trace.len() > 0,
        chain_consistent(trace[0]),
    ensures
        forall|i: int| 0 <= i < trace.len() ==> chain_consistent(#[trigger] trace[i]),
    decreases trace.len(),
{
    if trace.len() > 1 {
        let prefix = trace.drop_last();
        lemma_trace_consistent(prefix);
        assert(prefix[prefix.len() - 1] == trace[trace.len() - 2]);
        lemma_step_keeps_consistent(trace[trace.len() - 2], trace.last());
        assert forall|i: int| 0 <= i < trace.len() implies chain_consistent(#[trigger] trace[i]) by {
            if i < prefix.len() {
                assert(prefix[i] == trace[i]);
            }
        }
    }
}

/// Once minted, the genesis stays: after any sequence of calls the chain is
/// still minted, its first block is the same genesis block, and no further
/// genesis is accepted.
pub proof fn lemma_genesis_locked_forever(trace: Seq<ChainView>)
    requires
        valid_trace(trace),
        trace.len() > 0,
        trace[0].is_genesis_minted,
        trace[0].chain.len() > 0,
    ensures
        forall|i: int| 0 <= i < trace.len() ==> {
            &&& (#[trigger] trace[i]).is_genesis_minted
            &&& trace[i].chain.len() > 0
            &&& trace[i].chain[0] == trace[0].chain[0]
            &&& !genesis_open(trace[i])
        },
    decreases trace.len(),
{
    if trace.len() > 1 {
        let prefix = trace.drop_last();
        lemma_genesis_locked_forever(prefix);
        let s = trace[trace.len() - 2];
        let t = trace.last();
        assert(prefix[prefix.len() - 1] == s);
        assert(t.is_genesis_minted && t.chain.len() > 0 && t.chain[0] == s.chain[0]) by {
            if exists|txs_json: Seq<u8>, n: u64| {
                &&& s.mempool.len() > 0
                &&& mining_possible(s, txs_json)
                &&& least_nonce((s.chain.last().index + 1) as u64, BLOCK_TIMESTAMP, s.chain.last().hash, txs_json, s.difficulty as nat, n)
                &&& t == #[trigger] after_mining(s, txs_json, n)
            } {
                let (j, n) = choose|txs_json: Seq<u8>, n: u64| {
                    &&& s.mempool.len() > 0
                    &&& mining_possible(s, txs_json)
                    &&& least_nonce((s.chain.last().index + 1) as u64, BLOCK_TIMESTAMP, s.chain.last().hash, txs_json, s.difficulty as nat, n)
                    &&& t == #[trigger] after_mining(s, txs_json, n)
                };
                assert(t.chain[0] == s.chain[0]);
            }
        }
        assert forall|i: int| 0 <= i < trace.len() implies {
            &&& (#[trigger] trace[i]).is_genesis_minted
            &&& trace[i].chain.len() > 0
            &&& trace[i].chain[0] == trace[0].chain[0]
            &&& !genesis_open(trace[i])
        } by {
            if i < prefix.len() {
                assert(prefix[i] == trace[i]);
            }
        }
    }
}

/// Once a one-time address is spent, it stays spent through any sequence of
/// calls, and no transaction paying it ever enters the mempool again.
pub proof fn lemma_spent_forever(trace: Seq<ChainView>, address: Seq<char>)
    requires
        valid_trace(trace),
        trace.len() > 0,
        trace[0].spent.contains(address),
    ensures
        forall|i: int| 0 <= i < trace.len() ==> (#[trigger] trace[i]).spent.contains(address),
        forall|i: int, tx: TransactionView| 0 <= i < trace.len() && tx.receiver == address
            ==> !#[trigger] mempool_accepts(trace[i], tx),
    decreases trace.len(),
{
    if trace.len() > 1 {
        let prefix = trace.drop_last();
        lemma_spent_forever(prefix, address);
        let s = trace[trace.len() - 2];
        let t = trace.last();
        assert(prefix[prefix.len() - 1] == s);
        assert(t.spent.contains(address)) by {
            if exists|txs_json: Seq<u8>, n: u64| {
                &&& s.mempool.len() > 0
                &&& mining_possible(s, txs_json)
                &&& least_nonce((s.chain.last().index + 1) as u64, BLOCK_TIMESTAMP, s.chain.last().hash, txs_json, s.difficulty as nat, n)
                &&& t == #[trigger] after_mining(s, txs_json, n)
            } {
                let (j, n) = choose|txs_json: Seq<u8>, n: u64| {
                    &&& s.mempool.len() > 0
                    &&& mining_possible(s, txs_json)
                    &&& least_nonce((s.chain.last().index + 1) as u64, BLOCK_TIMESTAMP, s.chain.last().hash, txs_json, s.difficulty as nat, n)
                    &&& t == #[trigger] after_mining(s, txs_json, n)
                };
            }
        }
        assert forall|i: int| 0 <= i < trace.len() implies (#[trigger] trace[i]).spent.contains(address) by {
            if i < prefix.len() {
                assert(prefix[i] == trace[i]);
            }
        }
    }
}

/// Every transaction waiting in the mempool passes signature checking and
/// pays a one-time address that is not yet spent.
pub open spec fn mempool_valid(s: ChainView) -> bool {
    forall|i: int| 0 <= i < s.mempool.len() ==> {
        &&& signature_accepted(#[trigger] s.mempool[i])
        &&& !s.spent.contains(s.mempool[i].receiver)
    }
}

/// The mempool takes a transaction exactly when its signature checks, its
/// one-time receiver is not spent, and it is no system emission after
/// genesis, whatever the mempool already holds; taking it appends it to the
/// mempool and changes nothing else.
pub proof fn lemma_mempool_admission(s: ChainView, tx: TransactionView)
    ensures
        mempool_accepts(s, tx) == (signature_accepted(tx) && !s.spent.contains(tx.receiver)
            && !(tx.sender == system_sender() && s.is_genesis_minted)),
        forall|other: TransactionView| #[trigger] mempool_accepts(accept_tx(s, other), tx) == mempool_accepts(s, tx),
        accept_tx(s, tx).mempool == s.mempool.push(tx),
        accept_tx(s, tx).chain == s.chain,
        accept_tx(s, tx).spent == s.spent,
        accept_tx(s, tx).is_genesis_minted == s.is_genesis_minted,
{
}

/// Minting the genesis appends block 0 after an empty chain: its previous
/// hash is 64 zero digits, its nonce 0, and it holds one transaction, the
/// system's emission of the whole supply to the developer with the single
/// ring key `GENESIS_POINT`; the chain is then minted, and the mempool and
/// spent addresses stay.
pub proof fn lemma_genesis_block(s: ChainView, developer: Seq<char>, txs_json: Seq<u8>)
    requires
        genesis_open(s),
    ensures
        ({
            let t = after_genesis(s, developer, txs_json);
            let g = t.chain[0];
            &&& t.chain.len() == 1
            &&& t.is_genesis_minted
            &&& g.index == 0
            &&& g.nonce == 0
            &&& g.timestamp == GENESIS_TIMESTAMP
            &&& g.prev_hash.len() == 64
            &&& forall|i: int| 0 <= i < 64 ==> #[trigger] g.prev_hash[i] == '0'
            &&& g.transactions.len() == 1
            &&& g.transactions[0].sender == system_sender()
            &&& g.transactions[0].receiver == developer
            &&& g.transactions[0].amount == MAX_SUPPLY_BITS
            &&& g.transactions[0].ring == seq![genesis_ring_key()]
            &&& g.transactions[0].signature is None
            &&& t.mempool == s.mempool
            &&& t.spent == s.spent
            &&& t.difficulty == s.difficulty
        }),
{
}

/// Once the genesis is minted, the chain never accepts another one.
pub proof fn lemma_genesis_at_most_once(s: ChainView)
    requires
        s.is_genesis_minted,
    ensures
        !genesis_open(s),
{
}

/// Once the genesis is minted, no system emission enters the mempool.
pub proof fn lemma_no_emission_after_genesis(s: ChainView, tx: TransactionView)
    requires
        s.is_genesis_minted,
        tx.sender == system_sender(),
    ensures
        !mempool_accepts(s, tx),
{
}

/// After mining, a transaction paying a one-time address that the mined
/// block (or any earlier block) paid is refused: no address is spent twice.
pub proof fn lemma_spent_address_refused(s: ChainView, txs_json: Seq<u8>, n: u64, tx: TransactionView)
    requires
        s.spent.contains(tx.receiver) || exists|i: int| 0 <= i < s.mempool.len() && #[trigger] s.mempool[i].receiver == tx.receiver,
    ensures
        !mempool_accepts(after_mining(s, txs_json, n), tx),
{
    if !s.spent.contains(tx.receiver) {
        let i = choose|i: int| 0 <= i < s.mempool.len() && #[trigger] s.mempool[i].receiver == tx.receiver;
        assert(s.mempool.map_values(|t: TransactionView| t.receiver)[i] == tx.receiver);
        assert(receivers(s.mempool).contains(tx.receiver));
    }
}

/// Mining appends one block after the last one: it follows the last block's
/// index and hash, holds exactly the transactions the mempool held, carries
/// the nonce and the hash of its header with the given transactions text;
/// the earlier blocks stay, the mempool empties, and the spent addresses
/// become the old ones plus the mined receivers.
pub proof fn lemma_mining_appends_mempool_block(s: ChainView, txs_json: Seq<u8>, n: u64)
    requires
        s.chain.len() > 0,
        s.chain.last().index < u64::MAX,
    ensures
        ({
            let t = after_mining(s, txs_json, n);
            let last = s.chain.last();
            &&& t.chain.len() == s.chain.len() + 1
            &&& t.chain.take(s.chain.len() as int) == s.chain
            &&& t.chain.last().transactions == s.mempool
            &&& t.chain.last().prev_hash == last.hash
            &&& t.chain.last().index == last.index + 1
            &&& t.chain.last().timestamp == BLOCK_TIMESTAMP
            &&& t.chain.last().nonce == n
            &&& t.chain.last().hash == hash_hex(
                u64_be_bytes((last.index + 1) as u64) + u64_be_bytes(BLOCK_TIMESTAMP) + u64_be_bytes(n)
                    + encode_utf8(last.hash) + txs_json)
            &&& t.mempool.len() == 0
            &&& forall|i: int| 0 <= i < s.mempool.len() ==> t.spent.contains(#[trigger] s.mempool[i].receiver)
            &&& forall|e: Seq<char>| #[trigger] t.spent.contains(e)
                ==> s.spent.contains(e) || exists|i: int| 0 <= i < s.mempool.len() && s.mempool[i].receiver == e
            &&& t.difficulty == s.difficulty
            &&& t.is_genesis_minted == s.is_genesis_minted
        }),
{
    let t = after_mining(s, txs_json, n);
    assert(t.chain.take(s.chain.len() as int) =~= s.chain);
    assert(block_hash_input((s.chain.last().index + 1) as u64, BLOCK_TIMESTAMP, n, s.chain.last().hash, txs_json)
        == u64_be_bytes((s.chain.last().index + 1) as u64) + u64_be_bytes(BLOCK_TIMESTAMP) + u64_be_bytes(n)
            + encode_utf8(s.chain.last().hash) + txs_json);
    assert forall|i: int| 0 <= i < s.mempool.len() implies t.spent.contains(#[trigger] s.mempool[i].receiver) by {
        assert(s.mempool.map_values(|x: TransactionView| x.receiver)[i] == s.mempool[i].receiver);
    }
    assert forall|e: Seq<char>| #[trigger] t.spent.contains(e)
        implies s.spent.contains(e) || exists|i: int| 0 <= i < s.mempool.len() && s.mempool[i].receiver == e by {
        if !s.spent.contains(e) {
            let r = s.mempool.map_values(|x: TransactionView| x.receiver);
            assert(r.contains(e));
            let i = choose|i: int| 0 <= i < r.len() && #[trigger] r[i] == e;
            assert(s.mempool[i].receiver == e);
        }
    }
}

/// Mining spends the receiver of every transaction the mined block holds.
pub proof fn lemma_mined_address_spent(s: ChainView, txs_json: Seq<u8>, n: u64, i: int)
    requires
        0 <= i < s.mempool.len(),
    ensures
        after_mining(s, txs_json, n).spent.contains(s.mempool[i].receiver),
{
    assert(s.mempool.map_values(|t: TransactionView| t.receiver)[i] == s.mempool[i].receiver);
    assert(receivers(s.mempool).contains(s.mempool[i].receiver));
}

/// Mining keeps the chain linked: the new block names the last block's hash
/// and the next index, and its own hash meets the difficulty.
pub proof fn lemma_mining_keeps_chain_linked(s: ChainView, txs_json: Seq<u8>, n: u64)
    requires
        s.chain.len() > 0,
        s.chain.last().index < u64::MAX,
        chain_linked(s.chain),
        least_nonce((s.chain.last().index + 1) as u64, BLOCK_TIMESTAMP, s.chain.last().hash, txs_json, s.difficulty as nat, n),
    ensures
        chain_linked(after_mining(s, txs_json, n).chain),
        meets_difficulty(after_mining(s, txs_json, n).chain.last().hash, s.difficulty as nat),
{
    let c = after_mining(s, txs_json, n).chain;
    assert forall|i: int| 0 < i < c.len() implies {
        &&& (#[trigger] c[i]).prev_hash == c[i - 1].hash
        &&& c[i].index == c[i - 1].index + 1
    } by {
        if i < s.chain.len() {
            assert(c[i] == s.chain[i]);
            assert(c[i - 1] == s.chain[i - 1]);
        }
    }
}

/// Taking a transaction into the mempool keeps every waiting transaction
/// checked and unspent.
pub proof fn lemma_accept_keeps_mempool_valid(s: ChainView, tx: TransactionView)
    requires
        mempool_valid(s),
        mempool_accepts(s, tx),
    ensures
        mempool_valid(ChainView { mempool: s.mempool.push(tx), ..s }),
{
    let t = ChainView { mempool: s.mempool.push(tx), ..s };
    assert forall|i: int| 0 <= i < t.mempool.len() implies {
        &&& signature_accepted(#[trigger] t.mempool[i])
        &&& !t.spent.contains(t.mempool[i].receiver)
    } by {
        if i < s.mempool.len() {
            assert(t.mempool[i] == s.mempool[i]);
        }
    }
}

/// Whether `hash` starts with `difficulty` zero digits.
pub fn has_zero_prefix(hash: &str, difficulty: usize) -> (res: bool)
    ensures
        res == meets_difficulty(hash@, difficulty as nat),
{
    let len = hash.unicode_len();
    if difficulty > len {
        return false;
    }
    let mut i: usize = 0;
    while i < difficulty
        invariant
            i <= difficulty,
            difficulty <= hash@.len(),
            forall|j: int| 0 <= j < i ==> #[trigger] hash@[j] == '0',
        decreases difficulty - i,
    {
        if hash.get_char(i) != '0' {
            return false;
        }
        i = i + 1;
    }
    true
}

impl Blockchain {
    /// An empty chain with the default difficulty and no genesis yet.
    pub fn new() -> (res: Self)
        ensures
            res@.chain.len() == 0,
            res@.mempool.len() == 0,
            res@.difficulty == DEFAULT_DIFFICULTY,
            res@.spent == Set::<Seq<char>>::empty(),
            !res@.is_genesis_minted,
    {
        let res = Blockchain {
            chain: Vec::new(),
            mempool: Vec::new(),
            difficulty: DEFAULT_DIFFICULTY,
            spent_ephemeral_addresses: Vec::new(),
            is_genesis_minted: false,
        };
        assert(res@.spent =~= Set::<Seq<char>>::empty());
        res
    }

    /// The hash of `block`'s header fields and of `txs_json`, the JSON text
    /// of its transactions.
    pub fn calculate_block_hash(block: &Block, txs_json: &[u8]) -> (res: String)
        ensures
            res@ == block_hash(block.index, block.timestamp, block.nonce, block.prev_hash@, txs_json@),
            res@.len() == 64,
    {
        let mut buf: Vec<u8> = Vec::new();
        let index_bytes = u64_to_be_bytes(block.index);
        push_bytes(&mut buf, index_bytes.as_slice());
        let time_bytes = u64_to_be_bytes(block.timestamp);
        push_bytes(&mut buf, time_bytes.as_slice());
        let nonce_bytes = u64_to_be_bytes(block.nonce);
        push_bytes(&mut buf, nonce_bytes.as_slice());
        push_bytes(&mut buf, block.prev_hash.as_str().as_bytes());
        push_bytes(&mut buf, txs_json);
        assert(buf@ =~= block_hash_input(block.index, block.timestamp, block.nonce, block.prev_hash@, txs_json@));
        blake3_hex(buf.as_slice())
    }

    /// Whether `address` is among the spent one-time addresses.
    pub fn is_spent(&self, address: &str) -> (res: bool)
        ensures
            res == self@.spent.contains(address@),
    {
        let mut i: usize = 0;
        while i < self.spent_ephemeral_addresses.len()
            invariant
                i <= self.spent_ephemeral_addresses@.len(),
                forall|j: int| 0 <= j < i ==> (#[trigger] self.spent_ephemeral_addresses@[j])@ != address@,
            decreases self.spent_ephemeral_addresses@.len() - i,
        {
            if text_eq(self.spent_ephemeral_addresses[i].as_str(), address) {
                assert(texts_view(self.spent_ephemeral_addresses@)[i as int] == address@);
                return true;
            }
            i = i + 1;
        }
        assert(!texts_view(self.spent_ephemeral_addresses@).contains(address@));
        false
    }

    /// Adds `address` to the spent one-time addresses.
    fn mark_spent(&mut self, address: String)
        ensures
            final(self)@ == (ChainView { spent: old(self)@.spent.insert(address@), ..old(self)@ }),
            final(self).chain == old(self).chain,
            final(self).mempool == old(self).mempool,
    {
        if !self.is_spent(address.as_str()) {
            let ghost before = texts_view(self.spent_ephemeral_addresses@);
            self.spent_ephemeral_addresses.push(address);
            assert(texts_view(self.spent_ephemeral_addresses@) =~= before.push(address@));
            proof {
                before.lemma_push_to_set_commute(address@);
            }
        }
        assert(self@.spent =~= old(self)@.spent.insert(address@));
    }

    /// The genesis emission of the whole supply to `developer_address`.
    pub fn genesis_transaction(developer_address: String) -> (res: Transaction)
        ensures
            res@ == genesis_tx(developer_address@),
    {
        let system = "SYSTEM";
        let point = "GENESIS_POINT";
        proof {
            reveal_strlit("SYSTEM");
            reveal_strlit("GENESIS_POINT");
            assert(point@ =~= genesis_ring_key());
            assert(system@ =~= system_sender());
        }
        let mut ring: Vec<String> = Vec::new();
        let p = point.to_owned();
        assert(p@ == point@);
        ring.push(p);
        let tx = Transaction::new(system.to_owned(), developer_address, MAX_SUPPLY_BITS, ring);
        assert(texts_view(ring@) =~= seq![genesis_ring_key()]);
        tx
    }

    /// Mints the genesis block, once: it holds the single emission of the
    /// whole supply to `developer_address`. `txs_json` is the JSON text of
    /// that block's transactions, which its hash covers. Refused (and the
    /// chain left as it was) once a genesis was minted or any block exists.
    pub fn init_genesis(&mut self, developer_address: String, txs_json: &[u8]) -> (res: bool)
        ensures
            res == genesis_open(old(self)@),
            !res ==> final(self)@ == old(self)@,
            res ==> final(self)@ == after_genesis(old(self)@, developer_address@, txs_json@),
            chain_step(old(self)@, final(self)@),
            res ==> {
                &&& final(self)@.chain.len() == 1
                &&& final(self)@.is_genesis_minted
                &&& final(self)@.chain[0].transactions.len() == 1
                &&& final(self)@.chain[0].transactions[0].sender == system_sender()
                &&& final(self)@.chain[0].transactions[0].receiver == developer_address@
                &&& final(self)@.chain[0].transactions[0].amount == MAX_SUPPLY_BITS
                &&& final(self)@.mempool == old(self)@.mempool
                &&& final(self)@.spent == old(self)@.spent
            },
    {
        if self.is_genesis_minted || self.chain.len() != 0 {
            return false;
        }
        let genesis = Blockchain::genesis_transaction(developer_address);
        let mut transactions: Vec<Transaction> = Vec::new();
        transactions.push(genesis);
        let zeros = "0000000000000000000000000000000000000000000000000000000000000000";
        proof {
            reveal_strlit("0000000000000000000000000000000000000000000000000000000000000000");
            assert(zeros@ =~= genesis_prev_hash());
        }
        let mut block = Block {
            index: 0,
            timestamp: GENESIS_TIMESTAMP,
            transactions,
            prev_hash: zeros.to_owned(),
            hash: String::new(),
            nonce: 0,
        };
        block.hash = Blockchain::calculate_block_hash(&block, txs_json);
        let ghost before = self.chain@;
        self.chain.push(block);
        self.is_genesis_minted = true;
        assert(txs_view(block.transactions@) =~= seq![genesis_tx(developer_address@)]);
        assert(blocks_view(self.chain@) =~= blocks_view(before).push(block@));
        assert(self@ == after_genesis(old(self)@, developer_address@, txs_json@));
        proof {
            lemma_genesis_block(old(self)@, developer_address@, txs_json@);
        }
        true
    }

    /// Takes `tx` into the mempool if its signature checks, its one-time
    /// receiver was never spent, and it is no system emission after genesis;
    /// otherwise refuses it and leaves the chain as it was.
    pub fn add_transaction_to_mempool(&mut self, tx: Transaction) -> (res: bool)
        ensures
            res == mempool_accepts(old(self)@, tx@),
            res ==> final(self)@ == accept_tx(old(self)@, tx@),
            !res ==> final(self)@ == old(self)@,
            chain_step(old(self)@, final(self)@),
            res == (signature_accepted(tx@) && !old(self)@.spent.contains(tx@.receiver)
                && !(tx@.sender == system_sender() && old(self)@.is_genesis_minted)),
            res ==> final(self)@.mempool == old(self)@.mempool.push(tx@) && final(self)@.chain == old(self)@.chain
                && final(self)@.spent == old(self)@.spent,
    {
        proof {
            lemma_mempool_admission(old(self)@, tx@);
        }
        if !tx.verify_signature() {
            return false;
        }
        if self.is_spent(tx.ephemeral_receiver.as_str()) {
            return false;
        }
        let system = "SYSTEM";
        proof {
            reveal_strlit("SYSTEM");
            assert(system@ =~= system_sender());
        }
        if text_eq(tx.sender_address.as_str(), system) && self.is_genesis_minted {
            return false;
        }
        let ghost before = self.mempool@;
        let ghost v = tx@;
        self.mempool.push(tx);
        assert(txs_view(self.mempool@) =~= txs_view(before).push(v));
        assert(self@ == accept_tx(old(self)@, v));
        true
    }

    /// Searches the nonces from 0 upwards for the first whose block hash meets
    /// `difficulty`, and writes it and the hash into `block`. Returns whether
    /// one was found; no nonce works when it was not.
    fn search_nonce(block: &mut Block, txs_json: &[u8], difficulty: usize) -> (found: bool)
        ensures
            final(block).index == old(block).index,
            final(block).timestamp == old(block).timestamp,
            final(block).transactions == old(block).transactions,
            final(block).prev_hash == old(block).prev_hash,
            found == nonce_exists(old(block).index, old(block).timestamp, old(block).prev_hash@, txs_json@, difficulty as nat),
            found ==> least_nonce(old(block).index, old(block).timestamp, old(block).prev_hash@, txs_json@, difficulty as nat, final(block).nonce),
            found ==> final(block).hash@ == block_hash(old(block).index, old(block).timestamp, final(block).nonce, old(block).prev_hash@, txs_json@),
    {
        let mut nonce: u64 = 0;
        loop
            invariant
                block.index == old(block).index,
                block.timestamp == old(block).timestamp,
                block.transactions == old(block).transactions,
                block.prev_hash == old(block).prev_hash,
                forall|m: u64| m < nonce ==> !meets_difficulty(#[trigger] block_hash(block.index, block.timestamp, m, block.prev_hash@, txs_json@), difficulty as nat),
            decreases u64::MAX - nonce,
        {
            block.nonce = nonce;
            let hash = Blockchain::calculate_block_hash(block, txs_json);
            if has_zero_prefix(hash.as_str(), difficulty) {
                block.hash = hash;
                return true;
            }
            if nonce == u64::MAX {
                assert forall|m: u64| !meets_difficulty(#[trigger] block_hash(block.index, block.timestamp, m, block.prev_hash@, txs_json@), difficulty as nat) by {
                    if m < nonce {
                    }
                }
                return false;
            }
            nonce = nonce + 1;
        }
    }

    /// The next block to mine: it follows the last block and holds a copy of
    /// the mempool; its nonce is 0 and its hash still empty.
    fn next_block(&self) -> (res: Block)
        requires
            self@.chain.len() > 0,
            self@.chain.last().index < u64::MAX,
        ensures
            res.index == self@.chain.last().index + 1,
            res.timestamp == BLOCK_TIMESTAMP,
            txs_view(res.transactions@) == self@.mempool,
            res.prev_hash@ == self@.chain.last().hash,
            res.nonce == 0,
    {
        let last = &self.chain[self.chain.len() - 1];
        assert(last@ == self@.chain.last());
        Block {
            index: last.index + 1,
            timestamp: BLOCK_TIMESTAMP,
            transactions: copy_transactions(&self.mempool),
            prev_hash: last.hash.clone(),
            hash: String::new(),
            nonce: 0,
        }
    }

    /// Appends a mined `block`, spends the receivers of the mempool, empties
    /// the mempool and returns the transactions it held.
    fn commit_block(&mut self, block: Block) -> (res: Vec<Transaction>)
        ensures
            final(self)@ == (ChainView {
                chain: old(self)@.chain.push(block@),
                mempool: Seq::empty(),
                spent: old(self)@.spent.union(receivers(old(self)@.mempool)),
                ..old(self)@
            }),
            txs_view(res@) == old(self)@.mempool,
    {
        let n = self.mempool.len();
        let mut i: usize = 0;
        proof {
            let m = old(self)@.mempool;
            assert(m.take(0).map_values(|t: TransactionView| t.receiver) =~= Seq::<Seq<char>>::empty());
            assert(receivers(m.take(0)) =~= Set::<Seq<char>>::empty());
            assert(old(self)@.spent.union(receivers(m.take(0))) =~= old(self)@.spent);
        }
        while i < n
            invariant
                i <= n,
                n == self.mempool@.len(),
                self.mempool == old(self).mempool,
                self.chain == old(self).chain,
                self@ == (ChainView {
                    spent: old(self)@.spent.union(receivers(old(self)@.mempool.take(i as int))),
                    ..old(self)@
                }),
            decreases n - i,
        {
            let receiver = self.mempool[i].ephemeral_receiver.clone();
            self.mark_spent(receiver);
            proof {
                let m = old(self)@.mempool;
                assert(m.take(i + 1) =~= m.take(i as int).push(m[i as int]));
                m.take(i as int).map_values(|t: TransactionView| t.receiver).lemma_push_to_set_commute(m[i as int].receiver);
                assert(m.take(i + 1).map_values(|t: TransactionView| t.receiver) =~= m.take(i as int).map_values(|t: TransactionView| t.receiver).push(m[i as int].receiver));
                assert(self@.spent =~= old(self)@.spent.union(receivers(m.take(i + 1))));
            }
            i = i + 1;
        }
        assert(old(self)@.mempool.take(n as int) =~= old(self)@.mempool);
        let mined = copy_transactions(&self.mempool);
        let ghost before = self.chain@;
        let ghost bv = block@;
        self.chain.push(block);
        self.mempool.clear();
        assert(blocks_view(self.chain@) =~= blocks_view(before).push(bv));
        assert(txs_view(self.mempool@) =~= Seq::<TransactionView>::empty());
        mined
    }

    /// Mines the mempool into a new block over `txs_json`, the JSON text of
    /// the mempool's transactions: the block follows the last one, takes the
    /// least nonce whose hash starts with `difficulty` zero digits, and its
    /// receivers become spent. Returns the mined transactions; with an empty
    /// mempool, returns none and changes nothing.
    pub fn mine_pending_transactions(&mut self, txs_json: &[u8]) -> (res: Vec<Transaction>)
        requires
            old(self)@.mempool.len() > 0 ==> mining_possible(old(self)@, txs_json@),
        ensures
            old(self)@.mempool.len() == 0 ==> res@.len() == 0 && final(self)@ == old(self)@,
            old(self)@.mempool.len() > 0 ==> {
                &&& txs_view(res@) == old(self)@.mempool
                &&& final(self)@ == after_mining(old(self)@, txs_json@, final(self)@.chain.last().nonce)
                &&& least_nonce(
                    (old(self)@.chain.last().index + 1) as u64,
                    BLOCK_TIMESTAMP,
                    old(self)@.chain.last().hash,
                    txs_json@,
                    old(self)@.difficulty as nat,
                    final(self)@.chain.last().nonce,
                )
            },
            old(self)@.mempool.len() > 0 ==> {
                &&& final(self)@.chain.len() == old(self)@.chain.len() + 1
                &&& final(self)@.chain.last().transactions == old(self)@.mempool
                &&& final(self)@.chain.last().prev_hash == old(self)@.chain.last().hash
                &&& final(self)@.chain.last().index == old(self)@.chain.last().index + 1
                &&& final(self)@.mempool.len() == 0
                &&& forall|i: int| 0 <= i < old(self)@.mempool.len()
                    ==> final(self)@.spent.contains(#[trigger] old(self)@.mempool[i].receiver)
            },
            chain_step(old(self)@, final(self)@),
    {
        if self.mempool.len() == 0 {
            return Vec::new();
        }
        let mut block = self.next_block();
        let found = Blockchain::search_nonce(&mut block, txs_json, self.difficulty);
        assert(found);
        let ghost bv = block@;
        let mined = self.commit_block(block);
        assert(self@.chain.last() == bv);
        assert(bv == mined_block(old(self)@, txs_json@, bv.nonce));
        assert(self@ == after_mining(old(self)@, txs_json@, bv.nonce));
        proof {
            lemma_mining_appends_mempool_block(old(self)@, txs_json@, bv.nonce);
        }
        mined
    }

    /// Like `mine_pending_transactions`, but for any chain: when the mempool
    /// is not empty and mining is not possible (no block to build on, no
    /// successor index, or no nonce meets the difficulty), returns `None`
    /// and changes nothing.
    pub fn try_mine_pending_transactions(&mut self, txs_json: &[u8]) -> (res: Option<Vec<Transaction>>)
        ensures
            old(self)@.mempool.len() == 0 ==> (res matches Some(v) && v@.len() == 0),
            old(self)@.mempool.len() == 0 ==> final(self)@ == old(self)@,
            old(self)@.mempool.len() > 0 && !mining_possible(old(self)@, txs_json@) ==> res is None && final(self)@ == old(self)@,
            old(self)@.mempool.len() > 0 && mining_possible(old(self)@, txs_json@) ==> {
                &&& res matches Some(v) && txs_view(v@) == old(self)@.mempool
                &&& final(self)@ == after_mining(old(self)@, txs_json@, final(self)@.chain.last().nonce)
                &&& least_nonce(
                    (old(self)@.chain.last().index + 1) as u64,
                    BLOCK_TIMESTAMP,
                    old(self)@.chain.last().hash,
                    txs_json@,
                    old(self)@.difficulty as nat,
                    final(self)@.chain.last().nonce,
                )
            },
            old(self)@.mempool.len() > 0 && mining_possible(old(self)@, txs_json@) ==> {
                &&& final(self)@.chain.len() == old(self)@.chain.len() + 1
                &&& final(self)@.chain.last().transactions == old(self)@.mempool
                &&& final(self)@.chain.last().prev_hash == old(self)@.chain.last().hash
                &&& final(self)@.chain.last().index == old(self)@.chain.last().index + 1
                &&& final(self)@.mempool.len() == 0
                &&& forall|i: int| 0 <= i < old(self)@.mempool.len()
                    ==> final(self)@.spent.contains(#[trigger] old(self)@.mempool[i].receiver)
            },
            chain_step(old(self)@, final(self)@),
    {
        if self.mempool.len() == 0 {
            return Some(Vec::new());
        }
        if self.chain.len() == 0 {
            return None;
        }
        if self.chain[self.chain.len() - 1].index == u64::MAX {
            return None;
        }
        let mut block = self.next_block();
        if !Blockchain::search_nonce(&mut block, txs_json, self.difficulty) {
            return None;
        }
        let ghost bv = block@;
        let mined = self.commit_block(block);
        assert(self@.chain.last() == bv);
        assert(bv == mined_block(old(self)@, txs_json@, bv.nonce));
        assert(self@ == after_mining(old(self)@, txs_json@, bv.nonce));
        proof {
            lemma_mining_appends_mempool_block(old(self)@, txs_json@, bv.nonce);
        }
        Some(mined)
    }
}

} // verus!

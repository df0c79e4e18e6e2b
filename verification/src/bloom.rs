//! A Bloom filter of the one-time addresses a wallet has already been paid
//! at, so that no payment is credited twice.
use vstd::prelude::*;
use vstd::utf8::encode_utf8;
use crate::encoding::{be_value, push_bytes, u64_from_be_prefix, text_eq};
use crate::crypto::{blake3_digest, blake3_hash};
use crate::transaction::{Transaction, TransactionView, txs_view};

verus! {

/// The size of the filter in bytes.
pub const BLOOM_FILTER_BYTES: usize = 32768;

/// The number of hash functions (bit positions) per key.
pub const BLOOM_HASH_FUNCTIONS: u8 = 7;

/// The size of the filter in bits.
pub open spec fn bloom_bits() -> int {
    BLOOM_FILTER_BYTES as int * 8
}

/// A Bloom filter over text keys.
pub struct BloomFilter {
    pub bits: Vec<u8>,
}

/// The bit position that hash function `i` gives `key`: the first eight
/// bytes of the BLAKE3 digest of `i` followed by the key, big-endian,
/// modulo the number of bits.
pub open spec fn bloom_index(key: Seq<char>, i: u8) -> int {
    be_value(blake3_digest(seq![i] + encode_utf8(key)).take(8)) as int % bloom_bits()
}

/// Whether bit `idx` of `bits` is set (bit `idx % 8` of byte `idx / 8`).
pub open spec fn bit_set(bits: Seq<u8>, idx: int) -> bool {
    bits[idx / 8] & (1u8 << (idx % 8) as u8) != 0
}

/// `bits` with bit `idx` set.
pub open spec fn set_bit(bits: Seq<u8>, idx: int) -> Seq<u8> {
    bits.update(idx / 8, bits[idx / 8] | (1u8 << (idx % 8) as u8))
}

/// `bits` after setting the positions of the first `n` hash functions of `key`.
pub open spec fn insert_rounds(bits: Seq<u8>, key: Seq<char>, n: nat) -> Seq<u8>
    decreases n,
{
    if n == 0 {
        bits
    } else {
        set_bit(insert_rounds(bits, key, (n - 1) as nat), bloom_index(key, (n - 1) as u8))
    }
}

/// `bits` after inserting `key`.
pub open spec fn bloom_insert(bits: Seq<u8>, key: Seq<char>) -> Seq<u8> {
    insert_rounds(bits, key, BLOOM_HASH_FUNCTIONS as nat)
}

/// Whether the filter `bits` reports `key` as present: all its positions are set.
pub open spec fn bloom_contains(bits: Seq<u8>, key: Seq<char>) -> bool {
    forall|i: u8| i < BLOOM_HASH_FUNCTIONS ==> #[trigger] bit_set(bits, bloom_index(key, i))
}

proof fn lemma_byte_bits(x: u8, p: u8, q: u8)
    requires
        p < 8,
        q < 8,
    ensures
        ((x | (1u8 << p)) & (1u8 << q) != 0) == ((x & (1u8 << q) != 0) || p == q),
{
    assert(((x | (1u8 << p)) & (1u8 << q) != 0) == ((x & (1u8 << q) != 0) || p == q)) by (bit_vector)
        requires
            p < 8,
            q < 8,
    ;
}

/// Setting a bit sets exactly that bit.
proof fn lemma_set_bit(bits: Seq<u8>, a: int, b: int)
    requires
        0 <= a < bits.len() * 8,
        0 <= b < bits.len() * 8,
    ensures
        bit_set(set_bit(bits, a), b) == (bit_set(bits, b) || a == b),
        set_bit(bits, a).len() == bits.len(),
{
    if a / 8 == b / 8 {
        lemma_byte_bits(bits[a / 8], (a % 8) as u8, (b % 8) as u8);
    }
}

/// The bits set after some rounds of an insertion are the old ones and the
/// positions of those rounds.
proof fn lemma_insert_rounds(bits: Seq<u8>, key: Seq<char>, n: nat, idx: int)
    requires
        bits.len() >= BLOOM_FILTER_BYTES,
        n <= BLOOM_HASH_FUNCTIONS,
        0 <= idx < bloom_bits(),
    ensures
        insert_rounds(bits, key, n).len() == bits.len(),
        bit_set(insert_rounds(bits, key, n), idx) == (bit_set(bits, idx) || exists|j: u8|
            j < n && #[trigger] bloom_index(key, j) == idx),
    decreases n,
{
    if n > 0 {
        let m = (n - 1) as nat;
        lemma_insert_rounds(bits, key, m, idx);
        let prev = insert_rounds(bits, key, m);
        let a = bloom_index(key, m as u8);
        lemma_insert_rounds(bits, key, m, 0);
        lemma_set_bit(prev, a, idx);
        if bit_set(insert_rounds(bits, key, n), idx) && !bit_set(bits, idx) {
            if a == idx {
                assert(bloom_index(key, m as u8) == idx);
            }
        }
        if exists|j: u8| j < n && #[trigger] bloom_index(key, j) == idx {
            let j = choose|j: u8| j < n && #[trigger] bloom_index(key, j) == idx;
            if j < m {
                assert(exists|j: u8| j < m && #[trigger] bloom_index(key, j) == idx);
            }
        }
    }
}

/// After inserting `key`, the filter reports `key` as present: a Bloom
/// filter has no false negatives.
pub proof fn lemma_insert_then_contains(bits: Seq<u8>, key: Seq<char>)
    requires
        bits.len() >= BLOOM_FILTER_BYTES,
    ensures
        bloom_contains(bloom_insert(bits, key), key),
        bloom_insert(bits, key).len() == bits.len(),
{
    lemma_insert_rounds(bits, key, 7, 0);
    assert forall|i: u8| i < BLOOM_HASH_FUNCTIONS implies #[trigger] bit_set(bloom_insert(bits, key), bloom_index(key, i)) by {
        lemma_insert_rounds(bits, key, 7, bloom_index(key, i));
    }
}

/// Inserting a key never makes the filter forget another one.
pub proof fn lemma_insert_keeps_contains(bits: Seq<u8>, key: Seq<char>, other: Seq<char>)
    requires
        bits.len() >= BLOOM_FILTER_BYTES,
        bloom_contains(bits, other),
    ensures
        bloom_contains(bloom_insert(bits, key), other),
{
    assert forall|i: u8| i < BLOOM_HASH_FUNCTIONS implies #[trigger] bit_set(bloom_insert(bits, key), bloom_index(other, i)) by {
        lemma_insert_rounds(bits, key, 7, bloom_index(other, i));
    }
}

/// The bit positions that the hash functions give `key`.
pub open spec fn key_positions(key: Seq<char>) -> Set<int> {
    Seq::new(BLOOM_HASH_FUNCTIONS as nat, |i: int| bloom_index(key, i as u8)).to_set()
}

/// The bit positions set in `after` but clear in `before`.
pub open spec fn newly_set(before: Seq<u8>, after: Seq<u8>) -> Set<int> {
    Set::new(|idx: int| 0 <= idx < before.len() * 8 && bit_set(after, idx) && !bit_set(before, idx))
}

proof fn lemma_or_keeps_bits(a: u8, b: u8, m: u8)
    requires
        a & !b == 0,
    ensures
        a & !(b | m) == 0,
{
    assert(a & !(b | m) == 0) by (bit_vector)
        requires
            a & !b == 0,
    ;
}

proof fn lemma_bytes_from_bits(x: u8, y: u8)
    requires
        x & (1u8 << 0u8) == y & (1u8 << 0u8),
        x & (1u8 << 1u8) == y & (1u8 << 1u8),
        x & (1u8 << 2u8) == y & (1u8 << 2u8),
        x & (1u8 << 3u8) == y & (1u8 << 3u8),
        x & (1u8 << 4u8) == y & (1u8 << 4u8),
        x & (1u8 << 5u8) == y & (1u8 << 5u8),
        x & (1u8 << 6u8) == y & (1u8 << 6u8),
        x & (1u8 << 7u8) == y & (1u8 << 7u8),
    ensures
        x == y,
{
    assert(x == y) by (bit_vector)
        requires
            x & (1u8 << 0u8) == y & (1u8 << 0u8),
            x & (1u8 << 1u8) == y & (1u8 << 1u8),
            x & (1u8 << 2u8) == y & (1u8 << 2u8),
            x & (1u8 << 3u8) == y & (1u8 << 3u8),
            x & (1u8 << 4u8) == y & (1u8 << 4u8),
            x & (1u8 << 5u8) == y & (1u8 << 5u8),
            x & (1u8 << 6u8) == y & (1u8 << 6u8),
            x & (1u8 << 7u8) == y & (1u8 << 7u8),
    ;
}

proof fn lemma_bit_zero_or_mask(x: u8, q: u8)
    requires
        q < 8,
    ensures
        (x & (1u8 << q) != 0) == (x & (1u8 << q) == (1u8 << q)),
{
    assert((x & (1u8 << q) != 0) == (x & (1u8 << q) == (1u8 << q))) by (bit_vector)
        requires
            q < 8,
    ;
}

/// Two filters of one length that agree on every bit are the same bytes.
proof fn lemma_same_bits_same_bytes(a: Seq<u8>, b: Seq<u8>)
    requires
        a.len() == b.len(),
        forall|idx: int| 0 <= idx < a.len() * 8 ==> bit_set(a, idx) == bit_set(b, idx),
    ensures
        a == b,
{
    assert forall|j: int| 0 <= j < a.len() implies a[j] == b[j] by {
        assert forall|q: u8| q < 8 implies #[trigger] (a[j] & (1u8 << q)) == b[j] & (1u8 << q) by {
            let idx = j * 8 + q;
            assert(idx / 8 == j);
            assert(idx % 8 == q);
            assert(bit_set(a, idx) == bit_set(b, idx));
            lemma_bit_zero_or_mask(a[j], q);
            lemma_bit_zero_or_mask(b[j], q);
        }
        assert(a[j] & (1u8 << 0u8) == b[j] & (1u8 << 0u8));
        assert(a[j] & (1u8 << 1u8) == b[j] & (1u8 << 1u8));
        assert(a[j] & (1u8 << 2u8) == b[j] & (1u8 << 2u8));
        assert(a[j] & (1u8 << 3u8) == b[j] & (1u8 << 3u8));
        assert(a[j] & (1u8 << 4u8) == b[j] & (1u8 << 4u8));
        assert(a[j] & (1u8 << 5u8) == b[j] & (1u8 << 5u8));
        assert(a[j] & (1u8 << 6u8) == b[j] & (1u8 << 6u8));
        assert(a[j] & (1u8 << 7u8) == b[j] & (1u8 << 7u8));
        lemma_bytes_from_bits(a[j], b[j]);
    }
    assert(a =~= b);
}

/// Some rounds of an insertion clear no bit of any byte.
proof fn lemma_insert_rounds_clear_nothing(bits: Seq<u8>, key: Seq<char>, n: nat)
    requires
        bits.len() >= BLOOM_FILTER_BYTES,
        n <= BLOOM_HASH_FUNCTIONS,
    ensures
        insert_rounds(bits, key, n).len() == bits.len(),
        forall|j: int| 0 <= j < bits.len() ==> bits[j] & !(#[trigger] insert_rounds(bits, key, n)[j]) == 0,
    decreases n,
{
    if n == 0 {
        assert forall|j: int| 0 <= j < bits.len() implies bits[j] & !(#[trigger] insert_rounds(bits, key, n)[j]) == 0 by {
            let x = bits[j];
            assert(x & !x == 0) by (bit_vector);
        }
    } else {
        let m = (n - 1) as nat;
        lemma_insert_rounds_clear_nothing(bits, key, m);
        let prev = insert_rounds(bits, key, m);
        let a = bloom_index(key, m as u8);
        assert forall|j: int| 0 <= j < bits.len() implies bits[j] & !(#[trigger] insert_rounds(bits, key, n)[j]) == 0 by {
            assert(bits[j] & !prev[j] == 0);
            if j == a / 8 {
                lemma_or_keeps_bits(bits[j], prev[j], 1u8 << (a % 8) as u8);
            }
        }
    }
}

/// Inserting a key clears no bit of any byte; the bits it sets are among
/// the key's positions, so at most seven bits change.
pub proof fn lemma_insert_sets_only_key_bits(bits: Seq<u8>, key: Seq<char>)
    requires
        bits.len() >= BLOOM_FILTER_BYTES,
    ensures
        bloom_insert(bits, key).len() == bits.len(),
        forall|j: int| 0 <= j < bits.len() ==> bits[j] & !(#[trigger] bloom_insert(bits, key)[j]) == 0,
        newly_set(bits, bloom_insert(bits, key)).subset_of(key_positions(key)),
        newly_set(bits, bloom_insert(bits, key)).len() <= BLOOM_HASH_FUNCTIONS,
{
    lemma_insert_rounds_clear_nothing(bits, key, 7);
    let after = bloom_insert(bits, key);
    let ks = Seq::new(BLOOM_HASH_FUNCTIONS as nat, |i: int| bloom_index(key, i as u8));
    assert forall|idx: int| #[trigger] newly_set(bits, after).contains(idx) implies key_positions(key).contains(idx) by {
        if idx >= bloom_bits() {
            lemma_insert_rounds_outside(bits, key, 7, idx);
            assert(false);
        }
        lemma_insert_rounds(bits, key, 7, idx);
        let j = choose|j: u8| j < 7 && #[trigger] bloom_index(key, j) == idx;
        assert(ks[j as int] == idx);
    }
    ks.lemma_cardinality_of_set();
    vstd::set_lib::lemma_len_subset(newly_set(bits, after), key_positions(key));
}

/// Inserting a key twice leaves the same bits as inserting it once.
pub proof fn lemma_insert_idempotent(bits: Seq<u8>, key: Seq<char>)
    requires
        bits.len() >= BLOOM_FILTER_BYTES,
    ensures
        bloom_insert(bloom_insert(bits, key), key) == bloom_insert(bits, key),
{
    let once = bloom_insert(bits, key);
    lemma_insert_rounds(bits, key, 7, 0);
    lemma_insert_rounds(once, key, 7, 0);
    let twice = bloom_insert(once, key);
    assert forall|idx: int| 0 <= idx < twice.len() * 8 implies bit_set(twice, idx) == bit_set(once, idx) by {
        if idx < bloom_bits() {
            lemma_insert_rounds(bits, key, 7, idx);
            lemma_insert_rounds(once, key, 7, idx);
        } else {
            lemma_insert_rounds_outside(bits, key, 7, idx);
            lemma_insert_rounds_outside(once, key, 7, idx);
        }
    }
    lemma_same_bits_same_bytes(twice, once);
}

/// Positions past the filter's own bits are never touched.
proof fn lemma_insert_rounds_outside(bits: Seq<u8>, key: Seq<char>, n: nat, idx: int)
    requires
        bits.len() >= BLOOM_FILTER_BYTES,
        n <= BLOOM_HASH_FUNCTIONS,
        bloom_bits() <= idx < bits.len() * 8,
    ensures
        insert_rounds(bits, key, n).len() == bits.len(),
        bit_set(insert_rounds(bits, key, n), idx) == bit_set(bits, idx),
    decreases n,
{
    if n > 0 {
        let m = (n - 1) as nat;
        lemma_insert_rounds_outside(bits, key, m, idx);
        lemma_insert_rounds(bits, key, m, 0);
        lemma_set_bit(insert_rounds(bits, key, m), bloom_index(key, m as u8), idx);
    }
}

/// Which of `txs` a wallet at `me` is credited for, going through them in
/// order with the filter `bits`: a transaction counts when someone else sent
/// it and the filter does not yet report its receiver, which is then
/// inserted. Gives the filter afterwards and the positions of the credited
/// transactions.
pub open spec fn incoming(bits: Seq<u8>, me: Seq<char>, txs: Seq<TransactionView>) -> (Seq<u8>, Seq<int>)
    decreases txs.len(),
{
    if txs.len() == 0 {
        (bits, seq![])
    } else {
        let (b, idx) = incoming(bits, me, txs.drop_last());
        let t = txs.last();
        if t.sender != me && !bloom_contains(b, t.receiver) {
            (bloom_insert(b, t.receiver), idx.push(txs.len() - 1))
        } else {
            (b, idx)
        }
    }
}

/// A payment is credited at most once: the credited transactions were sent
/// by others, come in order, have pairwise different receivers, none of
/// which the filter held before, all of which it holds after; and the filter
/// forgets nothing it held.
pub proof fn lemma_incoming_credited_once(bits: Seq<u8>, me: Seq<char>, txs: Seq<TransactionView>)
    requires
        bits.len() >= BLOOM_FILTER_BYTES,
    ensures
        ({
            let (b, idx) = incoming(bits, me, txs);
            &&& b.len() == bits.len()
            &&& forall|k: int| 0 <= k < idx.len() ==> 0 <= #[trigger] idx[k] < txs.len()
            &&& forall|k: int| 0 <= k < idx.len() ==> txs[#[trigger] idx[k]].sender != me
            &&& forall|k: int| 0 <= k < idx.len() ==> !bloom_contains(bits, txs[#[trigger] idx[k]].receiver)
            &&& forall|k: int| 0 <= k < idx.len() ==> bloom_contains(b, txs[#[trigger] idx[k]].receiver)
            &&& forall|k1: int, k2: int| 0 <= k1 < k2 < idx.len() ==> #[trigger] idx[k1] < #[trigger] idx[k2]
            &&& forall|k1: int, k2: int| 0 <= k1 < k2 < idx.len() ==> txs[#[trigger] idx[k1]].receiver != txs[#[trigger] idx[k2]].receiver
            &&& forall|key: Seq<char>| bloom_contains(bits, key) ==> #[trigger] bloom_contains(b, key)
        }),
    decreases txs.len(),
{
    if txs.len() > 0 {
        let prefix = txs.drop_last();
        lemma_incoming_credited_once(bits, me, prefix);
        let (b, idx) = incoming(bits, me, prefix);
        let t = txs.last();
        assert forall|k: int| 0 <= k < idx.len() implies txs[#[trigger] idx[k]] == prefix[idx[k]] by {}
        if t.sender != me && !bloom_contains(b, t.receiver) {
            let b2 = bloom_insert(b, t.receiver);
            let idx2 = idx.push(txs.len() - 1);
            lemma_insert_then_contains(b, t.receiver);
            assert forall|key: Seq<char>| bloom_contains(b, key) implies #[trigger] bloom_contains(b2, key) by {
                lemma_insert_keeps_contains(b, t.receiver, key);
            }
            assert forall|k: int| 0 <= k < idx2.len() implies bloom_contains(b2, txs[#[trigger] idx2[k]].receiver) by {
                if k < idx.len() {
                    assert(bloom_contains(b, prefix[idx[k]].receiver));
                }
            }
            assert forall|k: int| 0 <= k < idx2.len() implies !bloom_contains(bits, txs[#[trigger] idx2[k]].receiver) by {
                if k == idx.len() {
                    if bloom_contains(bits, t.receiver) {
                        assert(bloom_contains(b, t.receiver));
                    }
                }
            }
            assert forall|k1: int, k2: int| 0 <= k1 < k2 < idx2.len() implies txs[#[trigger] idx2[k1]].receiver != txs[#[trigger] idx2[k2]].receiver by {
                if k2 == idx.len() {
                    assert(bloom_contains(b, prefix[idx[k1]].receiver));
                }
            }
        }
    }
}

/// After a pass over `txs`, the filter reports the receiver of every
/// transaction in it that someone else sent.
proof fn lemma_incoming_covers(bits: Seq<u8>, me: Seq<char>, txs: Seq<TransactionView>)
    requires
        bits.len() >= BLOOM_FILTER_BYTES,
    ensures
        forall|k: int| 0 <= k < txs.len() && (#[trigger] txs[k]).sender != me
            ==> bloom_contains(incoming(bits, me, txs).0, txs[k].receiver),
    decreases txs.len(),
{
    if txs.len() > 0 {
        let prefix = txs.drop_last();
        lemma_incoming_covers(bits, me, prefix);
        lemma_incoming_credited_once(bits, me, prefix);
        let (b, idx) = incoming(bits, me, prefix);
        let t = txs.last();
        assert forall|k: int| 0 <= k < txs.len() && (#[trigger] txs[k]).sender != me
            implies bloom_contains(incoming(bits, me, txs).0, txs[k].receiver) by {
            if t.sender != me && !bloom_contains(b, t.receiver) {
                lemma_insert_then_contains(b, t.receiver);
                if k < prefix.len() {
                    assert(prefix[k] == txs[k]);
                    lemma_insert_keeps_contains(b, t.receiver, txs[k].receiver);
                }
            } else if k < prefix.len() {
                assert(prefix[k] == txs[k]);
            }
        }
    }
}

/// A pass over transactions whose receivers (where someone else sent them)
/// the filter already reports credits nothing and leaves the filter as it was.
proof fn lemma_incoming_nothing_new(bits: Seq<u8>, me: Seq<char>, txs: Seq<TransactionView>)
    requires
        forall|k: int| 0 <= k < txs.len() && (#[trigger] txs[k]).sender != me ==> bloom_contains(bits, txs[k].receiver),
    ensures
        incoming(bits, me, txs) == (bits, Seq::<int>::empty()),
    decreases txs.len(),
{
    if txs.len() > 0 {
        let prefix = txs.drop_last();
        assert forall|k: int| 0 <= k < prefix.len() && (#[trigger] prefix[k]).sender != me implies bloom_contains(bits, prefix[k].receiver) by {
            assert(prefix[k] == txs[k]);
        }
        lemma_incoming_nothing_new(bits, me, prefix);
        assert(txs.last() == txs[txs.len() - 1]);
    }
}

/// Going through the same payments a second time credits none of them and
/// leaves the filter as the first pass left it.
pub proof fn lemma_second_pass_credits_nothing(bits: Seq<u8>, me: Seq<char>, txs: Seq<TransactionView>)
    requires
        bits.len() >= BLOOM_FILTER_BYTES,
    ensures
        incoming(incoming(bits, me, txs).0, me, txs) == (incoming(bits, me, txs).0, Seq::<int>::empty()),
{
    lemma_incoming_covers(bits, me, txs);
    lemma_incoming_nothing_new(incoming(bits, me, txs).0, me, txs);
}

/// `bits` after inserting the keys `keys` one after another.
pub open spec fn insert_all(bits: Seq<u8>, keys: Seq<Seq<char>>) -> Seq<u8>
    decreases keys.len(),
{
    if keys.len() == 0 {
        bits
    } else {
        bloom_insert(insert_all(bits, keys.drop_last()), keys.last())
    }
}

/// The receivers of the transactions at positions `idx`.
pub open spec fn receivers_at(txs: Seq<TransactionView>, idx: Seq<int>) -> Seq<Seq<char>> {
    Seq::new(idx.len(), |m: int| txs[idx[m]].receiver)
}

/// How many of the increasing positions `idx` lie below `k`.
pub open spec fn count_below(idx: Seq<int>, k: int) -> nat
    decreases idx.len(),
{
    if idx.len() == 0 {
        0
    } else if idx.last() < k {
        idx.len()
    } else {
        count_below(idx.drop_last(), k)
    }
}

/// The filter as it stands when transaction `k` comes up: the start filter
/// with the receivers of the credited transactions before `k` inserted.
pub open spec fn filter_before(bits: Seq<u8>, txs: Seq<TransactionView>, idx: Seq<int>, k: int) -> Seq<u8> {
    insert_all(bits, receivers_at(txs, idx.take(count_below(idx, k) as int)))
}

proof fn lemma_count_below_bound(idx: Seq<int>, k: int)
    ensures
        count_below(idx, k) <= idx.len(),
    decreases idx.len(),
{
    if idx.len() > 0 && idx.last() >= k {
        lemma_count_below_bound(idx.drop_last(), k);
    }
}

/// What crediting does, without the step-by-step definition: the credited
/// positions increase; a transaction is credited exactly when someone else
/// sent it and the filter, as it stands when the transaction comes up (the
/// start filter plus the receivers credited before it), does not report its
/// receiver; and the filter ends as the start filter with exactly the
/// credited receivers inserted, in order.
#[verifier::rlimit(30)]
pub proof fn lemma_incoming_exactly(bits: Seq<u8>, me: Seq<char>, txs: Seq<TransactionView>)
    requires
        bits.len() >= BLOOM_FILTER_BYTES,
    ensures
        ({
            let (b, idx) = incoming(bits, me, txs);
            &&& forall|m: int| 0 <= m < idx.len() ==> 0 <= #[trigger] idx[m] < txs.len()
            &&& forall|m1: int, m2: int| 0 <= m1 < m2 < idx.len() ==> #[trigger] idx[m1] < #[trigger] idx[m2]
            &&& b == insert_all(bits, receivers_at(txs, idx))
            &&& forall|k: int| 0 <= k < txs.len() ==> (idx.contains(k) <==> (
                (#[trigger] txs[k]).sender != me && !bloom_contains(filter_before(bits, txs, idx, k), txs[k].receiver)))
        }),
    decreases txs.len(),
{
    lemma_incoming_credited_once(bits, me, txs);
    if txs.len() == 0 {
        let (b, idx) = incoming(bits, me, txs);
        assert(receivers_at(txs, idx) =~= Seq::<Seq<char>>::empty());
    } else {
        let n = txs.len() as int;
        let p = txs.drop_last();
        lemma_incoming_exactly(bits, me, p);
        lemma_incoming_credited_once(bits, me, p);
        let (b, idx) = incoming(bits, me, p);
        let t = txs.last();
        assert(t == txs[n - 1]);
        assert forall|c: int| 0 <= c <= idx.len() implies #[trigger] receivers_at(txs, idx.take(c)) == receivers_at(p, idx.take(c)) by {
            assert(receivers_at(txs, idx.take(c)) =~= receivers_at(p, idx.take(c)));
        }
        assert(idx.take(idx.len() as int) =~= idx);
        assert(count_below(idx, n - 1) == idx.len());
        if t.sender != me && !bloom_contains(b, t.receiver) {
            let idx2 = idx.push(n - 1);
            assert(receivers_at(txs, idx2).drop_last() =~= receivers_at(txs, idx));
            assert(receivers_at(txs, idx2).last() == t.receiver);
            assert forall|k: int| 0 <= k < n implies (idx2.contains(k) <==> (
                (#[trigger] txs[k]).sender != me && !bloom_contains(filter_before(bits, txs, idx2, k), txs[k].receiver))) by {
                if k < n - 1 {
                    assert(txs[k] == p[k]);
                    assert(idx2.drop_last() =~= idx);
                    assert(count_below(idx2, k) == count_below(idx, k));
                    lemma_count_below_bound(idx, k);
                    assert(idx2.take(count_below(idx, k) as int) =~= idx.take(count_below(idx, k) as int));
                    if idx2.contains(k) {
                        let m = choose|m: int| 0 <= m < idx2.len() && idx2[m] == k;
                        assert(idx[m] == k);
                    }
                    if idx.contains(k) {
                        let m = choose|m: int| 0 <= m < idx.len() && idx[m] == k;
                        assert(idx2[m] == k);
                    }
                } else {
                    assert(idx2[idx.len() as int] == n - 1);
                    assert(idx2.drop_last() =~= idx);
                    assert(count_below(idx2, k) == count_below(idx, k));
                    assert(idx2.take(idx.len() as int) =~= idx);
                }
            }
        } else {
            assert forall|k: int| 0 <= k < n implies (idx.contains(k) <==> (
                (#[trigger] txs[k]).sender != me && !bloom_contains(filter_before(bits, txs, idx, k), txs[k].receiver))) by {
                if k < n - 1 {
                    assert(txs[k] == p[k]);
                    lemma_count_below_bound(idx, k);
                } else {
                    if idx.contains(k) {
                        let m = choose|m: int| 0 <= m < idx.len() && idx[m] == k;
                        assert(idx[m] < p.len());
                    }
                }
            }
        }
    }
}

/// The filter changes only by crediting: a pass that credits nothing leaves
/// the filter exactly as it was.
pub proof fn lemma_no_credit_no_change(bits: Seq<u8>, me: Seq<char>, txs: Seq<TransactionView>)
    ensures
        incoming(bits, me, txs).1.len() == 0 ==> incoming(bits, me, txs).0 == bits,
    decreases txs.len(),
{
    if txs.len() > 0 {
        lemma_no_credit_no_change(bits, me, txs.drop_last());
    }
}

/// The bit position hash function `i` gives `key`.
fn bit_index(key: &str, i: u8) -> (res: usize)
    ensures
        res == bloom_index(key@, i),
        res < bloom_bits(),
{
    let mut buf: Vec<u8> = Vec::new();
    buf.push(i);
    push_bytes(&mut buf, key.as_bytes());
    assert(buf@ =~= seq![i] + encode_utf8(key@));
    let digest = blake3_hash(buf.as_slice());
    let value = u64_from_be_prefix(digest.as_slice());
    (value % 262144) as usize
}

impl BloomFilter {
    /// Whether the filter has its full size.
    pub open spec fn wf(&self) -> bool {
        self.bits@.len() >= BLOOM_FILTER_BYTES
    }

    /// An empty filter: all bits clear.
    pub fn new() -> (res: Self)
        ensures
            res.wf(),
            res.bits@ == Seq::new(BLOOM_FILTER_BYTES as nat, |i: int| 0u8),
    {
        let mut bits: Vec<u8> = Vec::new();
        let mut i: usize = 0;
        while i < BLOOM_FILTER_BYTES
            invariant
                i <= BLOOM_FILTER_BYTES,
                bits@ == Seq::new(i as nat, |j: int| 0u8),
            decreases BLOOM_FILTER_BYTES - i,
        {
            bits.push(0u8);
            i = i + 1;
            assert(bits@ =~= Seq::new(i as nat, |j: int| 0u8));
        }
        BloomFilter { bits }
    }

    /// Inserts `key`: sets the bit of each of its hash functions.
    pub fn insert(&mut self, key: &str)
        requires
            old(self).wf(),
        ensures
            final(self).wf(),
            final(self).bits@ == bloom_insert(old(self).bits@, key@),
            final(self).bits@.len() == old(self).bits@.len(),
    {
        let mut i: u8 = 0;
        while i < BLOOM_HASH_FUNCTIONS
            invariant
                i <= BLOOM_HASH_FUNCTIONS,
                self.bits@ == insert_rounds(old(self).bits@, key@, i as nat),
                self.bits@.len() == old(self).bits@.len(),
                self.bits@.len() >= BLOOM_FILTER_BYTES,
            decreases BLOOM_HASH_FUNCTIONS - i,
        {
            let bit_index = bit_index(key, i);
            let byte_pos = bit_index / 8;
            let bit_pos = bit_index % 8;
            let byte = self.bits[byte_pos] | (1u8 << (bit_pos as u8));
            self.bits.set(byte_pos, byte);
            i = i + 1;
            assert(self.bits@ =~= insert_rounds(old(self).bits@, key@, i as nat));
        }
    }

    /// Whether the filter reports `key` as present: all the bits of its hash
    /// functions are set.
    pub fn contains(&self, key: &str) -> (res: bool)
        requires
            self.wf(),
        ensures
            res == bloom_contains(self.bits@, key@),
    {
        let mut i: u8 = 0;
        while i < BLOOM_HASH_FUNCTIONS
            invariant
                i <= BLOOM_HASH_FUNCTIONS,
                self.bits@.len() >= BLOOM_FILTER_BYTES,
                forall|j: u8| j < i ==> #[trigger] bit_set(self.bits@, bloom_index(key@, j)),
            decreases BLOOM_HASH_FUNCTIONS - i,
        {
            let bit_index = bit_index(key, i);
            let byte_pos = bit_index / 8;
            let bit_pos = bit_index % 8;
            if (self.bits[byte_pos] & (1u8 << (bit_pos as u8))) == 0 {
                assert(!bit_set(self.bits@, bloom_index(key@, i)));
                return false;
            }
            i = i + 1;
        }
        true
    }

    /// Goes through `txs` in order and picks the payments a wallet at
    /// `my_address` is credited for: those someone else sent whose receiver
    /// the filter does not yet report, inserting each such receiver. Returns
    /// their positions in `txs`.
    pub fn accept_incoming(&mut self, my_address: &str, txs: &Vec<Transaction>) -> (res: Vec<usize>)
        requires
            old(self).wf(),
        ensures
            final(self).wf(),
            final(self).bits@ == incoming(old(self).bits@, my_address@, txs_view(txs@)).0,
            res@.map_values(|i: usize| i as int) == incoming(old(self).bits@, my_address@, txs_view(txs@)).1,
            res@.len() == 0 ==> final(self).bits@ == old(self).bits@,
            final(self).bits@ == insert_all(old(self).bits@, receivers_at(txs_view(txs@), res@.map_values(|i: usize| i as int))),
            forall|m1: int, m2: int| 0 <= m1 < m2 < res@.len() ==> #[trigger] res@[m1] < #[trigger] res@[m2],
            forall|m: int| 0 <= m < res@.len() ==> #[trigger] res@[m] < txs@.len(),
            forall|k: int| 0 <= k < txs@.len() ==> (res@.map_values(|i: usize| i as int).contains(k) <==> (
                (#[trigger] txs@[k])@.sender != my_address@
                && !bloom_contains(filter_before(old(self).bits@, txs_view(txs@), res@.map_values(|i: usize| i as int), k), txs@[k]@.receiver))),
    {
        proof {
            lemma_incoming_exactly(old(self).bits@, my_address@, txs_view(txs@));
            lemma_no_credit_no_change(old(self).bits@, my_address@, txs_view(txs@));
        }
        let mut credited: Vec<usize> = Vec::new();
        let mut i: usize = 0;
        proof {
            assert(txs_view(txs@).take(0) =~= Seq::<TransactionView>::empty());
            assert(credited@.map_values(|i: usize| i as int) =~= Seq::<int>::empty());
        }
        while i < txs.len()
            invariant
                i <= txs@.len(),
                self.wf(),
                self.bits@ == incoming(old(self).bits@, my_address@, txs_view(txs@).take(i as int)).0,
                credited@.map_values(|i: usize| i as int) == incoming(old(self).bits@, my_address@, txs_view(txs@).take(i as int)).1,
            decreases txs@.len() - i,
        {
            let ghost prefix = txs_view(txs@).take(i as int);
            let ghost next = txs_view(txs@).take(i + 1);
            assert(next.drop_last() =~= prefix);
            assert(next.last() == txs@[i as int]@);
            let tx = &txs[i];
            if !text_eq(tx.sender_address.as_str(), my_address) && !self.contains(tx.ephemeral_receiver.as_str()) {
                self.insert(tx.ephemeral_receiver.as_str());
                let ghost before = credited@;
                credited.push(i);
                assert(credited@.map_values(|i: usize| i as int) =~= before.map_values(|i: usize| i as int).push(i as int));
            }
            i = i + 1;
        }
        assert(txs_view(txs@).take(i as int) =~= txs_view(txs@));
        proof {
            let idx = credited@.map_values(|i: usize| i as int);
            assert forall|m1: int, m2: int| 0 <= m1 < m2 < credited@.len() implies #[trigger] credited@[m1] < #[trigger] credited@[m2] by {
                assert(idx[m1] == credited@[m1] as int);
                assert(idx[m2] == credited@[m2] as int);
            }
            assert forall|m: int| 0 <= m < credited@.len() implies #[trigger] credited@[m] < txs@.len() by {
                assert(idx[m] == credited@[m] as int);
            }
            let tv = txs_view(txs@);
            assert forall|k: int| 0 <= k < txs@.len() implies (idx.contains(k) <==> (
                (#[trigger] txs@[k])@.sender != my_address@
                && !bloom_contains(filter_before(old(self).bits@, tv, idx, k), txs@[k]@.receiver))) by {
                assert(tv[k] == txs@[k]@);
            }
        }
        credited
    }
}

} // verus!

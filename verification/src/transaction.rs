//! Ledger transactions: a payment to a one-time (ephemeral) address, hidden
//! among a ring of public keys.
use vstd::prelude::*;
use vstd::utf8::encode_utf8;
use crate::encoding::{hex_lower, u64_be_bytes, u64_to_be_bytes, push_bytes, push_texts, concat_utf8, copy_strings, text_eq, texts_view};
use crate::crypto::{hash_hex, blake3_hex, hex_encode};

verus! {

/// A ring signature: one challenge and one response per ring member.
pub struct RingSignature {
    pub challenge: String,
    pub responses: Vec<String>,
}

/// A transaction. `amount` is the IEEE-754 bit pattern of the amount, which
/// is a 64-bit float on the wire; the ledger only ever hashes and moves it.
pub struct Transaction {
    pub sender_address: String,
    pub ephemeral_receiver: String,
    pub amount: u64,
    pub ring_public_keys: Vec<String>,
    pub tx_id: String,
    pub signature: Option<RingSignature>,
}

/// What a ring signature holds, as plain text.
pub struct RingSignatureView {
    pub challenge: Seq<char>,
    pub responses: Seq<Seq<char>>,
}

impl View for RingSignature {
    type V = RingSignatureView;

    open spec fn view(&self) -> RingSignatureView {
        RingSignatureView { challenge: self.challenge@, responses: texts_view(self.responses@) }
    }
}

/// What a transaction holds, as plain values.
pub struct TransactionView {
    pub sender: Seq<char>,
    pub receiver: Seq<char>,
    pub amount: u64,
    pub ring: Seq<Seq<char>>,
    pub tx_id: Seq<char>,
    pub signature: Option<RingSignatureView>,
}

/// The view of an optional ring signature.
pub open spec fn signature_view(sig: Option<RingSignature>) -> Option<RingSignatureView> {
    match sig {
        Some(s) => Some(s@),
        None => None,
    }
}

impl View for Transaction {
    type V = TransactionView;

    open spec fn view(&self) -> TransactionView {
        TransactionView {
            sender: self.sender_address@,
            receiver: self.ephemeral_receiver@,
            amount: self.amount,
            ring: texts_view(self.ring_public_keys@),
            tx_id: self.tx_id@,
            signature: signature_view(self.signature),
        }
    }
}

/// The views of a list of transactions.
pub open spec fn txs_view(v: Seq<Transaction>) -> Seq<TransactionView> {
    v.map_values(|t: Transaction| t@)
}

/// The sender name under which the system itself emits coins.
pub open spec fn system_sender() -> Seq<char> {
    seq!['S', 'Y', 'S', 'T', 'E', 'M']
}

/// The bytes a transaction's id is the hash of: receiver, amount, ring keys.
pub open spec fn tx_hash_input(receiver: Seq<char>, amount: u64, ring: Seq<Seq<char>>) -> Seq<u8> {
    encode_utf8(receiver) + u64_be_bytes(amount) + concat_utf8(ring)
}

/// The id of a transaction with these contents.
pub open spec fn tx_id_of(receiver: Seq<char>, amount: u64, ring: Seq<Seq<char>>) -> Seq<char> {
    hash_hex(tx_hash_input(receiver, amount, ring))
}

/// The challenge a valid ring signature over `tx_id` and `ring` carries.
pub open spec fn ring_challenge(tx_id: Seq<char>, ring: Seq<Seq<char>>) -> Seq<char> {
    hash_hex(encode_utf8(tx_id) + concat_utf8(ring))
}

/// Whether a ring signature is well formed for `tx_id` and `ring`: one
/// non-empty response per ring member and the expected challenge.
pub open spec fn ring_signature_valid(sig: RingSignatureView, tx_id: Seq<char>, ring: Seq<Seq<char>>) -> bool {
    &&& sig.responses.len() == ring.len()
    &&& forall|i: int| 0 <= i < sig.responses.len() ==> (#[trigger] sig.responses[i]).len() > 0
    &&& sig.challenge == ring_challenge(tx_id, ring)
}

/// Whether a transaction passes signature checking: the system's own
/// emissions always do; any other needs a valid ring signature.
pub open spec fn signature_accepted(tx: TransactionView) -> bool {
    ||| tx.sender == system_sender()
    ||| (tx.signature matches Some(sig) && ring_signature_valid(sig, tx.tx_id, tx.ring))
}

/// What signature checking accepts, in terms of the transaction alone: the
/// system's emissions; otherwise a signature with exactly one non-empty
/// response per ring key whose challenge is the hash of the id followed by
/// the ring keys. Any other response count is refused.
pub proof fn lemma_signature_accepted_exactly(tx: TransactionView)
    ensures
        signature_accepted(tx) <==> (tx.sender == system_sender() || {
            &&& tx.signature is Some
            &&& tx.signature->0.responses.len() == tx.ring.len()
            &&& forall|i: int| 0 <= i < tx.ring.len() ==> (#[trigger] tx.signature->0.responses[i]).len() > 0
            &&& tx.signature->0.challenge == hash_hex(encode_utf8(tx.tx_id) + concat_utf8(tx.ring))
        }),
        tx.sender != system_sender() && tx.signature is Some
            && tx.signature->0.responses.len() != tx.ring.len() ==> !signature_accepted(tx),
{
}

/// The transaction `tx` with the ring signature that `attach_signature`
/// builds from the signer's signature bytes `sig`: the expected challenge,
/// and the signature in hexadecimal as every ring member's response.
pub open spec fn with_ring_signature(tx: TransactionView, sig: Seq<u8>) -> TransactionView {
    TransactionView {
        signature: Some(RingSignatureView {
            challenge: ring_challenge(tx.tx_id, tx.ring),
            responses: Seq::new(tx.ring.len(), |i: int| hex_lower(sig)),
        }),
        ..tx
    }
}

/// A transaction signed through `attach_signature` with a non-empty
/// signature passes signature checking, whatever its sender.
pub proof fn lemma_attached_signature_accepted(tx: TransactionView, sig: Seq<u8>)
    requires
        sig.len() > 0,
    ensures
        signature_accepted(with_ring_signature(tx, sig)),
{
    let s = with_ring_signature(tx, sig).signature->0;
    assert forall|i: int| 0 <= i < s.responses.len() implies (#[trigger] s.responses[i]).len() > 0 by {
        assert(s.responses[i] == hex_lower(sig));
    }
}

impl RingSignature {
    /// A copy of this signature.
    pub fn duplicate(&self) -> (res: Self)
        ensures
            res@ == self@,
    {
        RingSignature { challenge: self.challenge.clone(), responses: copy_strings(&self.responses) }
    }
}

impl Transaction {
    /// A new unsigned transaction; its id is the hash of its contents.
    pub fn new(sender: String, ephemeral_receiver: String, amount: u64, ring_keys: Vec<String>) -> (res: Self)
        ensures
            res@ == (TransactionView {
                sender: sender@,
                receiver: ephemeral_receiver@,
                amount,
                ring: texts_view(ring_keys@),
                tx_id: tx_id_of(ephemeral_receiver@, amount, texts_view(ring_keys@)),
                signature: None,
            }),
            res@.tx_id.len() == 64,
    {
        let mut tx = Transaction {
            sender_address: sender,
            ephemeral_receiver,
            amount,
            ring_public_keys: ring_keys,
            tx_id: String::new(),
            signature: None,
        };
        tx.tx_id = tx.calculate_hash();
        tx
    }

    /// The hash of the receiver, the amount and the ring keys, in hexadecimal.
    pub fn calculate_hash(&self) -> (res: String)
        ensures
            res@ == tx_id_of(self@.receiver, self@.amount, self@.ring),
            res@.len() == 64,
    {
        let mut buf: Vec<u8> = Vec::new();
        push_bytes(&mut buf, self.ephemeral_receiver.as_str().as_bytes());
        let amount_bytes = u64_to_be_bytes(self.amount);
        push_bytes(&mut buf, amount_bytes.as_slice());
        push_texts(&mut buf, &self.ring_public_keys);
        assert(buf@ =~= tx_hash_input(self@.receiver, self@.amount, self@.ring));
        blake3_hex(buf.as_slice())
    }

    /// Checks the ring signature: the system's emissions pass; any other
    /// transaction needs one non-empty response per ring key and the
    /// challenge that hashes its id with the ring keys.
    pub fn verify_signature(&self) -> (res: bool)
        ensures
            res == signature_accepted(self@),
            self@.sender == system_sender() ==> res,
            res && self@.sender != system_sender() ==> {
                &&& self@.signature is Some
                &&& self@.signature->0.responses.len() == self@.ring.len()
                &&& forall|i: int| 0 <= i < self@.ring.len() ==> (#[trigger] self@.signature->0.responses[i]).len() > 0
                &&& self@.signature->0.challenge == hash_hex(encode_utf8(self@.tx_id) + concat_utf8(self@.ring))
            },
            self@.sender != system_sender() && self@.signature is Some
                && self@.signature->0.responses.len() != self@.ring.len() ==> !res,
    {
        proof {
            lemma_signature_accepted_exactly(self@);
        }
        let system = "SYSTEM";
        proof {
            reveal_strlit("SYSTEM");
            assert(system@ =~= system_sender());
        }
        if text_eq(self.sender_address.as_str(), system) {
            return true;
        }
        let sig = match &self.signature {
            Some(s) => s,
            None => return false,
        };
        if sig.responses.len() != self.ring_public_keys.len() {
            return false;
        }
        let mut i: usize = 0;
        while i < sig.responses.len()
            invariant
                i <= sig.responses@.len(),
                self.signature == Some(*sig),
                self@.sender != system_sender(),
                forall|j: int| 0 <= j < i ==> (#[trigger] sig.responses@[j])@.len() > 0,
            decreases sig.responses@.len() - i,
        {
            if sig.responses[i].as_str().is_empty() {
                assert(sig@.responses[i as int].len() == 0);
                return false;
            }
            i = i + 1;
        }
        let mut buf: Vec<u8> = Vec::new();
        push_bytes(&mut buf, self.tx_id.as_str().as_bytes());
        push_texts(&mut buf, &self.ring_public_keys);
        assert(buf@ =~= encode_utf8(self.tx_id@) + concat_utf8(self@.ring));
        let expected = blake3_hex(buf.as_slice());
        sig.challenge == expected
    }

    /// Signs the transaction: `signature` is the signer's signature over the
    /// id, and it becomes every ring member's response next to the challenge
    /// that hashes the id with the ring keys.
    pub fn attach_signature(&mut self, signature: &[u8])
        ensures
            final(self)@ == with_ring_signature(old(self)@, signature@),
    {
        let mut buf: Vec<u8> = Vec::new();
        push_bytes(&mut buf, self.tx_id.as_str().as_bytes());
        push_texts(&mut buf, &self.ring_public_keys);
        assert(buf@ =~= encode_utf8(self.tx_id@) + concat_utf8(self@.ring));
        let challenge = blake3_hex(buf.as_slice());
        let response = hex_encode(signature);
        let mut responses: Vec<String> = Vec::new();
        let n = self.ring_public_keys.len();
        let mut i: usize = 0;
        while i < n
            invariant
                i <= n,
                response@ == hex_lower(signature@),
                responses@.len() == i,
                forall|j: int| 0 <= j < i ==> (#[trigger] responses@[j])@ == hex_lower(signature@),
            decreases n - i,
        {
            responses.push(response.clone());
            i = i + 1;
        }
        self.signature = Some(RingSignature { challenge, responses });
        assert(self@.signature->0.responses =~= Seq::new(n as nat, |i: int| hex_lower(signature@)));
    }

    /// A copy of this transaction.
    pub fn duplicate(&self) -> (res: Self)
        ensures
            res@ == self@,
    {
        let signature = match &self.signature {
            Some(s) => Some(s.duplicate()),
            None => None,
        };
        Transaction {
            sender_address: self.sender_address.clone(),
            ephemeral_receiver: self.ephemeral_receiver.clone(),
            amount: self.amount,
            ring_public_keys: copy_strings(&self.ring_public_keys),
            tx_id: self.tx_id.clone(),
            signature,
        }
    }
}


/// A copy of a list of transactions.
pub fn copy_transactions(v: &Vec<Transaction>) -> (res: Vec<Transaction>)
    ensures
        txs_view(res@) == txs_view(v@),
{
    let mut out: Vec<Transaction> = Vec::new();
    let mut i: usize = 0;
    while i < v.len()
        invariant
            i <= v@.len(),
            out@.len() == i,
            forall|j: int| 0 <= j < i ==> (#[trigger] out@[j])@ == v@[j]@,
        decreases v@.len() - i,
    {
        out.push(v[i].duplicate());
        i = i + 1;
    }
    assert(txs_view(out@) =~= txs_view(v@));
    out
}

} // verus!

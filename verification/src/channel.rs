//! Off-chain payment channels between two wallets: quick payments inside the
//! channel, then one settlement transaction for the chain.
use vstd::prelude::*;
use vstd::utf8::encode_utf8;
use crate::encoding::{hex_lower, push_bytes, text_eq, texts_view, lemma_utf8_concat};
use crate::crypto::{hash_hex, blake3_hex, hex_encode, ed25519_signature, random_bytes};
use crate::transaction::{
    Transaction, TransactionView, txs_view, tx_id_of, with_ring_signature, signature_accepted,
    lemma_attached_signature_accepted,
};
use crate::wallet::{Wallet, WalletView};

verus! {

/// A payment channel. Balances are the bit patterns of 64-bit floats; the
/// channel moves them but never does arithmetic on them.
pub struct StateChannel {
    pub channel_id: String,
    pub participant_a: String,
    pub participant_b: String,
    pub balance_a: u64,
    pub balance_b: u64,
    pub local_history: Vec<Transaction>,
}

/// What a channel holds, as plain values.
pub struct ChannelView {
    pub channel_id: Seq<char>,
    pub participant_a: Seq<char>,
    pub participant_b: Seq<char>,
    pub balance_a: u64,
    pub balance_b: u64,
    pub history: Seq<TransactionView>,
}

impl View for StateChannel {
    type V = ChannelView;

    open spec fn view(&self) -> ChannelView {
        ChannelView {
            channel_id: self.channel_id@,
            participant_a: self.participant_a@,
            participant_b: self.participant_b@,
            balance_a: self.balance_a,
            balance_b: self.balance_b,
            history: txs_view(self.local_history@),
        }
    }
}

/// A wallet's address: its public key in hexadecimal.
pub open spec fn address_of(w: WalletView) -> Seq<char> {
    hex_lower(w.public_key)
}

/// The hash, in hexadecimal, of the UTF-8 bytes of `a` followed by `b`.
pub open spec fn hash_of_texts(a: Seq<char>, b: Seq<char>) -> Seq<char> {
    hash_hex(encode_utf8(a + b))
}

/// A one-time address for paying `to`: the hash of `to` followed by the
/// hexadecimal text of the random `entropy`.
pub open spec fn one_time_address(to: Seq<char>, entropy: Seq<u8>) -> Seq<char> {
    hash_of_texts(to, hex_lower(entropy))
}

/// The transaction wallet `w` signs to pay `amount` to the address
/// `receiver`, in a ring of the sender's address and the decoy key; with
/// `bind`, its id is the hash of the plain id followed by that channel id.
pub open spec fn payment_tx(
    w: WalletView,
    receiver: Seq<char>,
    amount: u64,
    decoy: Seq<u8>,
    bind: Option<Seq<char>>,
) -> TransactionView {
    let sender = address_of(w);
    let ring = seq![sender, hex_lower(decoy)];
    let base_id = tx_id_of(receiver, amount, ring);
    let id = match bind {
        Some(channel_id) => hash_of_texts(base_id, channel_id),
        None => base_id,
    };
    let unsigned = TransactionView { sender, receiver, amount, ring, tx_id: id, signature: None };
    with_ring_signature(unsigned, ed25519_signature(w.seed, encode_utf8(id)))
}

/// A payment inside channel `c` from wallet `w` to `to`, given the two
/// possible balance outcomes of moving `amount` (`None` where the payer's
/// balance falls short): the channel afterwards and the transaction, if any.
pub open spec fn micro_payment(
    c: ChannelView,
    w: WalletView,
    to: Seq<char>,
    amount: u64,
    if_a_pays: Option<(u64, u64)>,
    if_b_pays: Option<(u64, u64)>,
    entropy: Seq<u8>,
    decoy: Seq<u8>,
) -> (ChannelView, Option<TransactionView>) {
    let sender = address_of(w);
    let outcome = if sender == c.participant_a {
        if_a_pays
    } else if sender == c.participant_b {
        if_b_pays
    } else {
        None
    };
    match outcome {
        None => (c, None),
        Some((a, b)) => {
            let tx = payment_tx(w, one_time_address(to, entropy), amount, decoy, Some(c.channel_id));
            (ChannelView { balance_a: a, balance_b: b, history: c.history.push(tx), ..c }, Some(tx))
        },
    }
}

/// The settlement of channel `c` that wallet `w` closes it with: it pays
/// the other participant its channel balance at a one-time address.
pub open spec fn settlement(c: ChannelView, w: WalletView, entropy: Seq<u8>, decoy: Seq<u8>) -> TransactionView {
    let sender = address_of(w);
    let receiver = if sender == c.participant_a { c.participant_b } else { c.participant_a };
    let amount = if receiver == c.participant_b { c.balance_b } else { c.balance_a };
    payment_tx(w, one_time_address(receiver, entropy), amount, decoy, None)
}

/// What a payment inside a channel does, stated field by field: a wallet
/// that is neither participant, or a payer whose outcome is `None`, changes
/// nothing and gets no transaction; otherwise the balances become the
/// payer's outcome (A's when the sender is A, else B's), the id and the
/// participants stay, and the transaction is appended to the history and
/// returned: sent by the payer, for `amount`, to the hash of `to` and the
/// entropy, in a ring of the payer and the decoy, its id the hash of its
/// plain id followed by the channel id.
pub open spec fn micro_payment_effect(
    c: ChannelView,
    w: WalletView,
    to: Seq<char>,
    amount: u64,
    if_a_pays: Option<(u64, u64)>,
    if_b_pays: Option<(u64, u64)>,
    entropy: Seq<u8>,
    decoy: Seq<u8>,
    after: ChannelView,
    tx: Option<TransactionView>,
) -> bool {
    let sender = hex_lower(w.public_key);
    let outcome = if sender == c.participant_a { if_a_pays } else if sender == c.participant_b { if_b_pays } else { None };
    &&& (sender != c.participant_a && sender != c.participant_b) ==> after == c && tx is None
    &&& outcome is None ==> after == c && tx is None
    &&& outcome matches Some((a, b)) ==> {
        &&& tx is Some
        &&& after.balance_a == a
        &&& after.balance_b == b
        &&& after.channel_id == c.channel_id
        &&& after.participant_a == c.participant_a
        &&& after.participant_b == c.participant_b
        &&& after.history == c.history.push(tx->0)
        &&& tx->0.sender == sender
        &&& tx->0.amount == amount
        &&& tx->0.receiver == hash_hex(encode_utf8(to + hex_lower(entropy)))
        &&& tx->0.ring == seq![sender, hex_lower(decoy)]
        &&& tx->0.tx_id == hash_hex(encode_utf8(tx_id_of(tx->0.receiver, amount, tx->0.ring) + c.channel_id))
    }
}

/// A channel payment does what `micro_payment_effect` states.
pub proof fn lemma_micro_payment_effect(
    c: ChannelView,
    w: WalletView,
    to: Seq<char>,
    amount: u64,
    if_a_pays: Option<(u64, u64)>,
    if_b_pays: Option<(u64, u64)>,
    entropy: Seq<u8>,
    decoy: Seq<u8>,
)
    ensures
        micro_payment_effect(c, w, to, amount, if_a_pays, if_b_pays, entropy, decoy,
            micro_payment(c, w, to, amount, if_a_pays, if_b_pays, entropy, decoy).0,
            micro_payment(c, w, to, amount, if_a_pays, if_b_pays, entropy, decoy).1),
{
}

/// The settlement pays the participant other than the closer: when A
/// closes, B's balance goes to a one-time address of B; when anyone else
/// closes, A's balance goes to a one-time address of A. It is sent from the
/// closer, in a ring of the closer and the decoy key.
pub proof fn lemma_settlement_pays_other(c: ChannelView, w: WalletView, entropy: Seq<u8>, decoy: Seq<u8>)
    ensures
        settlement(c, w, entropy, decoy).sender == address_of(w),
        settlement(c, w, entropy, decoy).ring == seq![address_of(w), hex_lower(decoy)],
        address_of(w) == c.participant_a ==> {
            &&& settlement(c, w, entropy, decoy).receiver == hash_hex(encode_utf8(c.participant_b + hex_lower(entropy)))
            &&& settlement(c, w, entropy, decoy).amount == c.balance_b
        },
        address_of(w) != c.participant_a ==> {
            &&& settlement(c, w, entropy, decoy).receiver == hash_hex(encode_utf8(c.participant_a + hex_lower(entropy)))
            &&& c.participant_a != c.participant_b ==> settlement(c, w, entropy, decoy).amount == c.balance_a
        },
{
}

/// The view of an optional transaction.
pub open spec fn opt_tx_view(t: Option<Transaction>) -> Option<TransactionView> {
    match t {
        Some(x) => Some(x@),
        None => None,
    }
}

/// The hash of `a` followed by `b`, in hexadecimal.
fn hash_texts(a: &str, b: &str) -> (res: String)
    ensures
        res@ == hash_of_texts(a@, b@),
        res@.len() == 64,
{
    let mut buf: Vec<u8> = Vec::new();
    push_bytes(&mut buf, a.as_bytes());
    push_bytes(&mut buf, b.as_bytes());
    proof {
        lemma_utf8_concat(a@, b@);
    }
    assert(buf@ =~= encode_utf8(a@ + b@));
    blake3_hex(buf.as_slice())
}

/// Builds and signs a payment from `w` to `receiver`; with `bind`, its id is
/// bound to that channel id.
fn make_payment(w: &Wallet, receiver: String, amount: u64, decoy: &[u8], bind: Option<&String>) -> (res: Transaction)
    ensures
        res@ == payment_tx(w@, receiver@, amount, decoy@, match bind { Some(c) => Some(c@), None => None }),
        signature_accepted(res@),
{
    let sender = w.get_address();
    let mut ring: Vec<String> = Vec::new();
    ring.push(sender.clone());
    ring.push(hex_encode(decoy));
    let ghost ring_view = seq![sender@, hex_lower(decoy@)];
    assert(texts_view(ring@) =~= ring_view);
    let mut tx = Transaction::new(sender, receiver, amount, ring);
    match bind {
        Some(channel_id) => {
            tx.tx_id = hash_texts(tx.tx_id.as_str(), channel_id.as_str());
        },
        None => {},
    }
    let signature = w.sign(tx.tx_id.as_str().as_bytes());
    let ghost unsigned = tx@;
    tx.attach_signature(signature.as_slice());
    proof {
        lemma_attached_signature_accepted(unsigned, signature@);
    }
    tx
}

/// A signed payment from `from_wallet` of `amount` to `to_address`: it pays
/// the one-time address that `entropy` picks, in a ring of the sender and
/// the decoy key `decoy`.
pub fn new_payment_with(from_wallet: &Wallet, to_address: &str, amount: u64, entropy: &[u8], decoy: &[u8]) -> (res: Transaction)
    ensures
        res@ == payment_tx(from_wallet@, one_time_address(to_address@, entropy@), amount, decoy@, None),
        signature_accepted(res@),
{
    let entropy_hex = hex_encode(entropy);
    let one_time = hash_texts(to_address, entropy_hex.as_str());
    make_payment(from_wallet, one_time, amount, decoy, None)
}

/// A signed payment, as `new_payment_with`, with fresh random bytes for the
/// one-time address and the decoy key.
pub fn new_payment(from_wallet: &Wallet, to_address: &str, amount: u64) -> (res: Transaction)
    ensures
        exists|entropy: Seq<u8>, decoy: Seq<u8>|
            entropy.len() == 32 && decoy.len() == 32 && res@ == #[trigger] payment_tx(
                from_wallet@, one_time_address(to_address@, entropy), amount, decoy, None),
        signature_accepted(res@),
{
    let entropy = random_bytes(32);
    let decoy = random_bytes(32);
    new_payment_with(from_wallet, to_address, amount, entropy.as_slice(), decoy.as_slice())
}

impl StateChannel {
    /// Opens a channel between two wallets with their deposits; its id is the
    /// hash of the two addresses.
    pub fn open(wallet_a: &Wallet, wallet_b: &Wallet, deposit_a: u64, deposit_b: u64) -> (res: Self)
        ensures
            res@ == (ChannelView {
                channel_id: hash_of_texts(address_of(wallet_a@), address_of(wallet_b@)),
                participant_a: address_of(wallet_a@),
                participant_b: address_of(wallet_b@),
                balance_a: deposit_a,
                balance_b: deposit_b,
                history: Seq::empty(),
            }),
            res@.channel_id.len() == 64,
    {
        let a = wallet_a.get_address();
        let b = wallet_b.get_address();
        let channel_id = hash_texts(a.as_str(), b.as_str());
        let res = StateChannel {
            channel_id,
            participant_a: a,
            participant_b: b,
            balance_a: deposit_a,
            balance_b: deposit_b,
            local_history: Vec::new(),
        };
        assert(res@.history =~= Seq::<TransactionView>::empty());
        res
    }

    /// A payment inside the channel from `from_wallet` to `to_address`, with
    /// the given random `entropy` for the one-time address and `decoy` for the
    /// ring. `if_a_pays` and `if_b_pays` are the balances (of A, of B) after
    /// the payer moves `amount` to the other participant, or `None` where the
    /// payer's balance is below `amount`. A wallet outside the channel, or a
    /// payer short of funds, gets `None` and the channel stays as it was.
    /// Otherwise the balances become the payer's outcome, and the signed
    /// transaction, its id bound to the channel id, is recorded and returned.
    pub fn send_micro_transaction_with(
        &mut self,
        from_wallet: &Wallet,
        to_address: String,
        amount: u64,
        if_a_pays: Option<(u64, u64)>,
        if_b_pays: Option<(u64, u64)>,
        entropy: &[u8],
        decoy: &[u8],
    ) -> (res: Option<Transaction>)
        ensures
            (final(self)@, opt_tx_view(res)) == micro_payment(
                old(self)@, from_wallet@, to_address@, amount, if_a_pays, if_b_pays, entropy@, decoy@),
            res matches Some(t) ==> signature_accepted(t@),
            micro_payment_effect(old(self)@, from_wallet@, to_address@, amount, if_a_pays, if_b_pays, entropy@, decoy@,
                final(self)@, opt_tx_view(res)),
    {
        proof {
            lemma_micro_payment_effect(old(self)@, from_wallet@, to_address@, amount, if_a_pays, if_b_pays, entropy@, decoy@);
        }
        let sender = from_wallet.get_address();
        let outcome = if text_eq(sender.as_str(), self.participant_a.as_str()) {
            if_a_pays
        } else if text_eq(sender.as_str(), self.participant_b.as_str()) {
            if_b_pays
        } else {
            None
        };
        let (new_a, new_b) = match outcome {
            None => return None,
            Some(p) => p,
        };
        self.balance_a = new_a;
        self.balance_b = new_b;
        let entropy_hex = hex_encode(entropy);
        let receiver = hash_texts(to_address.as_str(), entropy_hex.as_str());
        let tx = make_payment(from_wallet, receiver, amount, decoy, Some(&self.channel_id));
        let ghost before = self.local_history@;
        self.local_history.push(tx.duplicate());
        assert(txs_view(self.local_history@) =~= txs_view(before).push(tx@));
        Some(tx)
    }

    /// A payment inside the channel, as `send_micro_transaction_with`, with
    /// fresh random bytes for the one-time address and the decoy key.
    pub fn send_micro_transaction(
        &mut self,
        from_wallet: &Wallet,
        to_address: String,
        amount: u64,
        if_a_pays: Option<(u64, u64)>,
        if_b_pays: Option<(u64, u64)>,
    ) -> (res: Option<Transaction>)
        ensures
            exists|entropy: Seq<u8>, decoy: Seq<u8>|
                entropy.len() == 32 && decoy.len() == 32 && (final(self)@, opt_tx_view(res)) == #[trigger] micro_payment(
                    old(self)@, from_wallet@, to_address@, amount, if_a_pays, if_b_pays, entropy, decoy),
            res matches Some(t) ==> signature_accepted(t@),
    {
        let entropy = random_bytes(32);
        let decoy = random_bytes(32);
        self.send_micro_transaction_with(from_wallet, to_address, amount, if_a_pays, if_b_pays, entropy.as_slice(), decoy.as_slice())
    }

    /// The settlement `from_wallet` closes the channel with, given random
    /// `entropy` and `decoy`: a signed transaction paying the other
    /// participant (B when the closer is A, A otherwise) that participant's
    /// balance, at a one-time address. The channel itself is not changed.
    pub fn close_and_settle_with(&mut self, from_wallet: &Wallet, entropy: &[u8], decoy: &[u8]) -> (res: Transaction)
        ensures
            final(self)@ == old(self)@,
            res@ == settlement(old(self)@, from_wallet@, entropy@, decoy@),
            signature_accepted(res@),
            res@.sender == address_of(from_wallet@),
            address_of(from_wallet@) == old(self)@.participant_a ==> {
                &&& res@.receiver == hash_hex(encode_utf8(old(self)@.participant_b + hex_lower(entropy@)))
                &&& res@.amount == old(self)@.balance_b
            },
            address_of(from_wallet@) != old(self)@.participant_a ==> {
                &&& res@.receiver == hash_hex(encode_utf8(old(self)@.participant_a + hex_lower(entropy@)))
                &&& old(self)@.participant_a != old(self)@.participant_b ==> res@.amount == old(self)@.balance_a
            },
            res@.ring == seq![address_of(from_wallet@), hex_lower(decoy@)],
    {
        proof {
            lemma_settlement_pays_other(old(self)@, from_wallet@, entropy@, decoy@);
        }
        let sender = from_wallet.get_address();
        let receiver = if text_eq(sender.as_str(), self.participant_a.as_str()) {
            self.participant_b.clone()
        } else {
            self.participant_a.clone()
        };
        let final_amount = if text_eq(receiver.as_str(), self.participant_b.as_str()) {
            self.balance_b
        } else {
            self.balance_a
        };
        new_payment_with(from_wallet, receiver.as_str(), final_amount, entropy, decoy)
    }

    /// The settlement, as `close_and_settle_with`, with fresh random bytes
    /// for the one-time address and the decoy key.
    pub fn close_and_settle(&mut self, from_wallet: &Wallet) -> (res: Transaction)
        ensures
            final(self)@ == old(self)@,
            exists|entropy: Seq<u8>, decoy: Seq<u8>|
                entropy.len() == 32 && decoy.len() == 32 && res@ == #[trigger] settlement(old(self)@, from_wallet@, entropy, decoy),
            signature_accepted(res@),
    {
        let entropy = random_bytes(32);
        let decoy = random_bytes(32);
        self.close_and_settle_with(from_wallet, entropy.as_slice(), decoy.as_slice())
    }
}

} // verus!

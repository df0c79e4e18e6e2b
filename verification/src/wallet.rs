//! Wallets: an Ed25519 key pair derived from a secret seed, a password-derived
//! key that seals the wallet's file, and signing.
use vstd::prelude::*;
use vstd::utf8::encode_utf8;
use crate::encoding::{hex_lower, hex_decodable, hex_decoded, push_bytes, lemma_hex_roundtrip};
use crate::crypto::{
    blake3_digest, blake3_hash, hex_encode, hex_decode, ed25519_public_key, ed25519_public_key_of,
    ed25519_signature, ed25519_sign, chacha_seal, chacha_open, chacha_encrypt, chacha_decrypt,
    random_bytes,
};

verus! {

/// Why a wallet file could not be opened or sealed.
#[derive(Debug, PartialEq, Eq, Structural)]
pub enum WalletError {
    /// A field that should hold hexadecimal digits does not.
    InvalidHex,
    /// A decoded field has the wrong number of bytes.
    InvalidLength,
    /// The ciphertext does not authenticate: a wrong password or a file that
    /// was tampered with.
    Decryption,
    /// The payload is too long to encrypt.
    Encryption,
}

/// The sealed form of a wallet's payload, as stored on disk.
pub struct EncryptedWalletFile {
    pub salt_hex: String,
    pub nonce_hex: String,
    pub ciphertext_hex: String,
}

/// What a sealed wallet file holds, as text.
pub struct EncryptedWalletFileView {
    pub salt_hex: Seq<char>,
    pub nonce_hex: Seq<char>,
    pub ciphertext_hex: Seq<char>,
}

impl View for EncryptedWalletFile {
    type V = EncryptedWalletFileView;

    open spec fn view(&self) -> EncryptedWalletFileView {
        EncryptedWalletFileView {
            salt_hex: self.salt_hex@,
            nonce_hex: self.nonce_hex@,
            ciphertext_hex: self.ciphertext_hex@,
        }
    }
}

/// A wallet. Its secret seed never leaves it; its public key is the seed's.
pub struct Wallet {
    secret_seed: Vec<u8>,
    verifying_key: Vec<u8>,
    username: String,
    encryption_key: Vec<u8>,
}

/// What a wallet holds.
pub struct WalletView {
    pub seed: Seq<u8>,
    pub public_key: Seq<u8>,
    pub username: Seq<char>,
    pub encryption_key: Seq<u8>,
}

impl View for Wallet {
    type V = WalletView;

    closed spec fn view(&self) -> WalletView {
        WalletView {
            seed: self.secret_seed@,
            public_key: self.verifying_key@,
            username: self.username@,
            encryption_key: self.encryption_key@,
        }
    }
}

/// The key that a password and a salt give: the BLAKE3 digest of the salt
/// followed by the password's UTF-8 bytes.
pub open spec fn password_key(password: Seq<char>, salt: Seq<u8>) -> Seq<u8> {
    blake3_digest(salt + encode_utf8(password))
}

/// The wallet that a seed, a username and an encryption key make.
pub open spec fn wallet_of(seed: Seq<u8>, username: Seq<char>, encryption_key: Seq<u8>) -> WalletView {
    WalletView { seed, public_key: ed25519_public_key(seed), username, encryption_key }
}

/// The bytes that hexadecimal text decodes to, if it is hexadecimal.
pub open spec fn hex_text(text: Seq<char>) -> Option<Seq<u8>> {
    if hex_decodable(encode_utf8(text)) {
        Some(hex_decoded(encode_utf8(text)))
    } else {
        None
    }
}

/// What opening a sealed file under `key` gives: its payload, or why not.
pub open spec fn opened(key: Seq<u8>, file: EncryptedWalletFileView) -> Result<Seq<u8>, WalletError> {
    match hex_text(file.nonce_hex) {
        None => Err(WalletError::InvalidHex),
        Some(nonce) => if nonce.len() != 12 {
            Err(WalletError::InvalidLength)
        } else {
            match hex_text(file.ciphertext_hex) {
                None => Err(WalletError::InvalidHex),
                Some(ct) => match chacha_open(key, nonce, ct) {
                    Some(p) => Ok(p),
                    None => Err(WalletError::Decryption),
                },
            }
        },
    }
}

/// The file that sealing `payload` under `key` with `salt` and `nonce` writes.
pub open spec fn sealed(key: Seq<u8>, salt: Seq<u8>, nonce: Seq<u8>, payload: Seq<u8>) -> EncryptedWalletFileView {
    EncryptedWalletFileView {
        salt_hex: hex_lower(salt),
        nonce_hex: hex_lower(nonce),
        ciphertext_hex: hex_lower(chacha_seal(key, nonce, payload)),
    }
}

/// A wallet's seed, written in hexadecimal as its sealed payload records
/// it, decodes to bytes whose first 32 rebuild the same wallet.
pub proof fn lemma_seed_hex_rebuilds_wallet(seed: Seq<u8>, username: Seq<char>, key: Seq<u8>)
    requires
        seed.len() == 32,
    ensures
        hex_text(hex_lower(seed)) == Some(seed),
        seed.take(32) == seed,
        wallet_of(seed.take(32), username, key) == wallet_of(seed, username, key),
{
    lemma_hex_roundtrip(seed);
    assert(seed.take(32) =~= seed);
}

/// Decodes hexadecimal text into bytes.
fn decode_field(text: &String) -> (res: Result<Vec<u8>, WalletError>)
    ensures
        match hex_text(text@) {
            Some(b) => res matches Ok(v) && v@ == b,
            None => res == Err::<Vec<u8>, WalletError>(WalletError::InvalidHex),
        },
{
    match hex_decode(text.as_str()) {
        Ok(v) => Ok(v),
        Err(_) => Err(WalletError::InvalidHex),
    }
}

impl Wallet {
    #[verifier::type_invariant]
    spec fn keys_sized(self) -> bool {
        &&& self.secret_seed@.len() == 32
        &&& self.verifying_key@ == ed25519_public_key(self.secret_seed@)
        &&& self.verifying_key@.len() == 32
        &&& self.encryption_key@.len() == 32
    }

    /// The key that `password` and `salt` give.
    pub fn derive_key_from_password(password: &str, salt: &[u8]) -> (res: Vec<u8>)
        ensures
            res@ == password_key(password@, salt@),
            res@.len() == 32,
    {
        let mut buf: Vec<u8> = Vec::new();
        push_bytes(&mut buf, salt);
        push_bytes(&mut buf, password.as_bytes());
        assert(buf@ =~= salt@ + encode_utf8(password@));
        blake3_hash(buf.as_slice())
    }

    /// The wallet of `seed` under `username`, whose file `encryption_key` seals.
    pub fn from_seed(username: String, seed: &[u8], encryption_key: &[u8]) -> (res: Wallet)
        requires
            seed@.len() == 32,
            encryption_key@.len() == 32,
        ensures
            res@ == wallet_of(seed@, username@, encryption_key@),
    {
        let verifying_key = ed25519_public_key_of(seed);
        let mut secret: Vec<u8> = Vec::new();
        push_bytes(&mut secret, seed);
        let mut key: Vec<u8> = Vec::new();
        push_bytes(&mut key, encryption_key);
        assert(secret@ =~= seed@);
        assert(key@ =~= encryption_key@);
        Wallet { secret_seed: secret, verifying_key, username, encryption_key: key }
    }

    /// A new wallet for `username`, with a fresh random seed and a fresh
    /// random salt, whose file key is the one `password` and the salt give.
    /// Returns the wallet and the salt.
    pub fn create(username: String, password: &str) -> (res: (Wallet, Vec<u8>))
        ensures
            res.1@.len() == 16,
            res.0@.seed.len() == 32,
            res.0@.encryption_key.len() == 32,
            res.0@ == wallet_of(res.0@.seed, username@, password_key(password@, res.1@)),
    {
        let seed = random_bytes(32);
        let salt = random_bytes(16);
        let key = Wallet::derive_key_from_password(password, salt.as_slice());
        let wallet = Wallet::from_seed(username, seed.as_slice(), key.as_slice());
        (wallet, salt)
    }

    /// Opens a sealed wallet file with `password`: decodes the salt, derives
    /// the key from the password and the salt, and decrypts the payload.
    /// Returns the key and the payload.
    pub fn unlock(password: &str, file: &EncryptedWalletFile) -> (res: Result<(Vec<u8>, Vec<u8>), WalletError>)
        ensures
            match hex_text(file.salt_hex@) {
                None => res == Err::<(Vec<u8>, Vec<u8>), WalletError>(WalletError::InvalidHex),
                Some(salt) => match opened(password_key(password@, salt), file@) {
                    Ok(p) => res matches Ok((k, v)) && k@ == password_key(password@, salt) && k@.len() == 32 && v@ == p,
                    Err(e) => res == Err::<(Vec<u8>, Vec<u8>), WalletError>(e),
                },
            },
            forall|salt: Seq<u8>, nonce: Seq<u8>, payload: Seq<u8>|
                nonce.len() == 12 && payload.len() / 64 < 0xffff_ffff && file@ == #[trigger] sealed(password_key(password@, salt), salt, nonce, payload)
                ==> (res matches Ok((k, v)) && v@ == payload),
    {
        proof {
            assert forall|salt: Seq<u8>, nonce: Seq<u8>, payload: Seq<u8>|
                nonce.len() == 12 && payload.len() / 64 < 0xffff_ffff && file@ == #[trigger] sealed(password_key(password@, salt), salt, nonce, payload)
                implies hex_text(file.salt_hex@) == Some(salt) by {
                lemma_hex_roundtrip(salt);
            }
        }
        let salt = decode_field(&file.salt_hex)?;
        let key = Wallet::derive_key_from_password(password, salt.as_slice());
        let payload = open_with_key(key.as_slice(), file)?;
        Ok((key, payload))
    }

    /// The wallet that a decrypted payload describes: its seed is the first
    /// 32 bytes that `seed_hex` decodes to.
    pub fn from_seed_hex(username: String, seed_hex: &str, encryption_key: &[u8]) -> (res: Result<Wallet, WalletError>)
        requires
            encryption_key@.len() == 32,
        ensures
            match hex_text(seed_hex@) {
                None => res == Err::<Wallet, WalletError>(WalletError::InvalidHex),
                Some(b) => if b.len() < 32 {
                    res == Err::<Wallet, WalletError>(WalletError::InvalidLength)
                } else {
                    res matches Ok(w) && w@ == wallet_of(b.take(32), username@, encryption_key@)
                },
            },
    {
        let bytes = match hex_decode(seed_hex) {
            Ok(v) => v,
            Err(_) => return Err(WalletError::InvalidHex),
        };
        if bytes.len() < 32 {
            return Err(WalletError::InvalidLength);
        }
        let mut seed: Vec<u8> = Vec::new();
        let mut i: usize = 0;
        while i < 32
            invariant
                i <= 32,
                bytes@.len() >= 32,
                seed@ == bytes@.take(i as int),
            decreases 32 - i,
        {
            seed.push(bytes[i]);
            i = i + 1;
            assert(seed@ =~= bytes@.take(i as int));
        }
        Ok(Wallet::from_seed(username, seed.as_slice(), encryption_key))
    }

    /// The wallet's owner name.
    pub fn username(&self) -> (res: &String)
        ensures
            res@ == self@.username,
    {
        &self.username
    }

    /// The wallet's public key.
    pub fn verifying_key(&self) -> (res: &Vec<u8>)
        ensures
            res@ == self@.public_key,
            res@ == ed25519_public_key(self@.seed),
            res@.len() == 32,
    {
        proof {
            use_type_invariant(self);
        }
        &self.verifying_key
    }

    /// The wallet's seed in hexadecimal, as its sealed payload records it.
    pub fn secret_seed_hex(&self) -> (res: String)
        ensures
            res@ == hex_lower(self@.seed),
    {
        hex_encode(self.secret_seed.as_slice())
    }

    /// The wallet's address: its public key in hexadecimal.
    pub fn get_address(&self) -> (res: String)
        ensures
            res@ == hex_lower(self@.public_key),
            res@ == hex_lower(ed25519_public_key(self@.seed)),
    {
        proof {
            use_type_invariant(self);
        }
        hex_encode(self.verifying_key.as_slice())
    }

    /// The wallet's Ed25519 signature of `message`.
    pub fn sign(&self, message: &[u8]) -> (res: Vec<u8>)
        ensures
            res@ == ed25519_signature(self@.seed, message@),
            res@.len() == 64,
    {
        proof {
            use_type_invariant(self);
        }
        ed25519_sign(self.secret_seed.as_slice(), message)
    }

    /// Opens this wallet's sealed file with the wallet's own key.
    pub fn open_file(&self, file: &EncryptedWalletFile) -> (res: Result<Vec<u8>, WalletError>)
        ensures
            match opened(self@.encryption_key, file@) {
                Ok(p) => res matches Ok(v) && v@ == p,
                Err(e) => res == Err::<Vec<u8>, WalletError>(e),
            },
            forall|salt: Seq<u8>, nonce: Seq<u8>, payload: Seq<u8>|
                nonce.len() == 12 && payload.len() / 64 < 0xffff_ffff && file@ == #[trigger] sealed(self@.encryption_key, salt, nonce, payload)
                ==> (res matches Ok(v) && v@ == payload),
    {
        proof {
            use_type_invariant(self);
        }
        open_with_key(self.encryption_key.as_slice(), file)
    }

    /// Seals `payload` into a wallet file under the wallet's key, with
    /// `salt` and the 12-byte `nonce`.
    pub fn seal_with_nonce(&self, payload: &[u8], salt: &[u8], nonce: &[u8]) -> (res: Result<EncryptedWalletFile, WalletError>)
        requires
            nonce@.len() == 12,
        ensures
            payload@.len() / 64 < 0xffff_ffff ==> (res matches Ok(f) && f@ == sealed(self@.encryption_key, salt@, nonce@, payload@)),
            payload@.len() / 64 >= 0xffff_ffff ==> res == Err::<EncryptedWalletFile, WalletError>(WalletError::Encryption),
    {
        proof {
            use_type_invariant(self);
        }
        let ciphertext = match chacha_encrypt(self.encryption_key.as_slice(), nonce, payload) {
            Ok(c) => c,
            Err(_) => return Err(WalletError::Encryption),
        };
        Ok(EncryptedWalletFile {
            salt_hex: hex_encode(salt),
            nonce_hex: hex_encode(nonce),
            ciphertext_hex: hex_encode(ciphertext.as_slice()),
        })
    }

    /// Seals `payload` anew into a wallet file under the wallet's key, with
    /// the salt that `old_file` records and a fresh random nonce.
    pub fn reseal(&self, old_file: &EncryptedWalletFile, payload: &[u8]) -> (res: Result<EncryptedWalletFile, WalletError>)
        ensures
            match hex_text(old_file.salt_hex@) {
                None => res == Err::<EncryptedWalletFile, WalletError>(WalletError::InvalidHex),
                Some(salt) => {
                    &&& payload@.len() / 64 < 0xffff_ffff ==> (res matches Ok(f) && exists|nonce: Seq<u8>|
                        nonce.len() == 12 && f@ == #[trigger] sealed(self@.encryption_key, salt, nonce, payload@))
                    &&& payload@.len() / 64 >= 0xffff_ffff ==> res == Err::<EncryptedWalletFile, WalletError>(WalletError::Encryption)
                },
            },
    {
        let salt = decode_field(&old_file.salt_hex)?;
        self.seal(payload, salt.as_slice())
    }

    /// Seals `payload` into a wallet file under the wallet's key, with `salt`
    /// and a fresh random nonce.
    pub fn seal(&self, payload: &[u8], salt: &[u8]) -> (res: Result<EncryptedWalletFile, WalletError>)
        ensures
            payload@.len() / 64 < 0xffff_ffff ==> (res matches Ok(f) && exists|nonce: Seq<u8>|
                nonce.len() == 12 && f@ == #[trigger] sealed(self@.encryption_key, salt@, nonce, payload@)),
            payload@.len() / 64 >= 0xffff_ffff ==> res == Err::<EncryptedWalletFile, WalletError>(WalletError::Encryption),
    {
        let nonce = random_bytes(12);
        self.seal_with_nonce(payload, salt, nonce.as_slice())
    }
}

/// When the fields of `file` do not decode to a 12-byte nonce and a
/// ciphertext, no sealing wrote it.
proof fn lemma_not_sealed(key: Seq<u8>, file: EncryptedWalletFileView)
    requires
        !(hex_text(file.nonce_hex) matches Some(n) && n.len() == 12 && hex_text(file.ciphertext_hex) is Some),
    ensures
        forall|salt: Seq<u8>, nonce: Seq<u8>, payload: Seq<u8>|
            nonce.len() == 12 ==> file != #[trigger] sealed(key, salt, nonce, payload),
{
    assert forall|salt: Seq<u8>, nonce: Seq<u8>, payload: Seq<u8>|
        nonce.len() == 12 implies file != #[trigger] sealed(key, salt, nonce, payload) by {
        lemma_hex_roundtrip(nonce);
        lemma_hex_roundtrip(chacha_seal(key, nonce, payload));
    }
}

/// Opens a sealed file with `key`.
fn open_with_key(key: &[u8], file: &EncryptedWalletFile) -> (res: Result<Vec<u8>, WalletError>)
    requires
        key@.len() == 32,
    ensures
        match opened(key@, file@) {
            Ok(p) => res matches Ok(v) && v@ == p,
            Err(e) => res == Err::<Vec<u8>, WalletError>(e),
        },
        forall|salt: Seq<u8>, nonce: Seq<u8>, payload: Seq<u8>|
            nonce.len() == 12 && payload.len() / 64 < 0xffff_ffff && file@ == #[trigger] sealed(key@, salt, nonce, payload)
            ==> (res matches Ok(v) && v@ == payload),
{
    let nonce = match decode_field(&file.nonce_hex) {
        Ok(n) => n,
        Err(e) => {
            proof { lemma_not_sealed(key@, file@); }
            return Err(e);
        },
    };
    if nonce.len() != 12 {
        proof { lemma_not_sealed(key@, file@); }
        return Err(WalletError::InvalidLength);
    }
    let ciphertext = match decode_field(&file.ciphertext_hex) {
        Ok(c) => c,
        Err(e) => {
            proof { lemma_not_sealed(key@, file@); }
            return Err(e);
        },
    };
    proof {
        assert forall|salt: Seq<u8>, n: Seq<u8>, payload: Seq<u8>|
            n.len() == 12 && payload.len() / 64 < 0xffff_ffff && file@ == #[trigger] sealed(key@, salt, n, payload)
            implies nonce@ == n && ciphertext@ == chacha_seal(key@, n, payload) by {
            lemma_hex_roundtrip(n);
            lemma_hex_roundtrip(chacha_seal(key@, n, payload));
        }
    }
    match chacha_decrypt(key, nonce.as_slice(), ciphertext.as_slice()) {
        Ok(p) => Ok(p),
        Err(_) => Err(WalletError::Decryption),
    }
}

} // verus!

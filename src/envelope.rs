//! The sealing layer: XChaCha20-Poly1305 from orion, with a fresh random
//! nonce for every seal, stored in front of the ciphertext.
use crate::record::Error;
use orion::errors::UnknownCryptoError;
use vstd::prelude::*;

verus! {

#[verifier::external_type_specification]
#[verifier::external_body]
pub struct ExUnknownCryptoError(UnknownCryptoError);

/// Bytes that orion's sealing adds to what it seals: a 24-byte nonce in
/// front and a 16-byte tag behind.
pub const AEAD_OVERHEAD: usize = 40;

/// The byte that the library puts in front of the data before sealing it,
/// naming the vault's format. It also lets empty data be sealed.
pub const FORMAT_TAG: u8 = 1;

/// Bytes that a sealed blob adds to its data: the nonce, the format tag and
/// the authentication tag.
pub const SEAL_OVERHEAD: usize = 41;

/// The longest plaintext that one seal takes: 2^32 - 2 blocks of 64 bytes,
/// which keeps the cipher's 32-bit block counter from running out.
pub const MAX_PLAINTEXT_LEN: u64 = 274877906816;

/// The longest data that [`encrypt_data`] seals: one byte goes to the format tag.
pub const MAX_DATA_LEN: u64 = 274877906815;

/// What opening `blob` under `key` yields: the plaintext when the tag
/// verifies, nothing otherwise.
pub uninterp spec fn aead_open_of(key: Seq<u8>, blob: Seq<u8>) -> Option<Seq<u8>>;

/// Relies on orion::aead::seal, with orion::aead::SecretKey::from_slice to
/// carry the key: an empty plaintext is refused, and any other within the
/// length bound is sealed; the result is the nonce, the ciphertext and the
/// tag, 40 bytes longer than the plaintext, and orion::aead::open under the
/// same key gives the plaintext back.
#[verifier::external_body]
fn aead_seal(key: &[u8], plaintext: &[u8]) -> (r: Result<Vec<u8>, UnknownCryptoError>)
    requires
        key@.len() == 32,
        plaintext@.len() <= MAX_PLAINTEXT_LEN,
    ensures
        r is Ok <==> plaintext@.len() > 0,
        r matches Ok(c) ==> c@.len() == plaintext@.len() + AEAD_OVERHEAD && aead_open_of(key@, c@)
            == Some(plaintext@),
{
    let secret_key = orion::aead::SecretKey::from_slice(key)?;
    orion::aead::seal(&secret_key, plaintext)
}

/// Relies on orion::aead::open, with orion::aead::SecretKey::from_slice to
/// carry the key: it returns the plaintext, 40 bytes shorter than the blob,
/// exactly when the tag verifies, and refuses a blob of 40 bytes or fewer.
#[verifier::external_body]
fn aead_open(key: &[u8], blob: &[u8]) -> (r: Result<Vec<u8>, UnknownCryptoError>)
    requires
        key@.len() == 32,
        blob@.len() <= MAX_PLAINTEXT_LEN + AEAD_OVERHEAD,
    ensures
        match r {
            Ok(p) => aead_open_of(key@, blob@) == Some(p@),
            Err(_) => aead_open_of(key@, blob@) is None,
        },
        r matches Ok(p) ==> p@.len() + AEAD_OVERHEAD == blob@.len(),
        blob@.len() <= AEAD_OVERHEAD ==> r is Err,
{
    let secret_key = orion::aead::SecretKey::from_slice(key)?;
    orion::aead::open(&secret_key, blob)
}

/// The 32-byte secret key that the vault is sealed under.
pub struct VaultKey {
    bytes: Vec<u8>,
}

impl View for VaultKey {
    type V = Seq<u8>;

    closed spec fn view(&self) -> Seq<u8> {
        self.bytes@
    }
}

impl VaultKey {
    #[verifier::type_invariant]
    spec fn inv(&self) -> bool {
        self.bytes@.len() == 32
    }

    /// A key made of exactly 32 bytes.
    pub fn from_bytes(bytes: Vec<u8>) -> (r: Option<VaultKey>)
        ensures
            r is Some <==> bytes@.len() == 32,
            r matches Some(k) ==> k@ == bytes@,
    {
        if bytes.len() == 32 {
            Some(VaultKey { bytes })
        } else {
            None
        }
    }

    pub fn as_bytes(&self) -> (r: &[u8])
        ensures
            r@ == self@,
            r@.len() == 32,
    {
        proof {
            use_type_invariant(self);
        }
        self.bytes.as_slice()
    }
}

/// `c` is a seal of the data `p` under `key`: it opens to `p` behind the
/// format tag, and is 41 bytes longer than `p`.
pub open spec fn sealed_under(key: Seq<u8>, p: Seq<u8>, c: Seq<u8>) -> bool {
    &&& p.len() <= MAX_DATA_LEN
    &&& c.len() == p.len() + SEAL_OVERHEAD
    &&& aead_open_of(key, c) == Some(seq![FORMAT_TAG] + p)
}

/// What unsealing `blob` under `key` gives: the data behind the format tag,
/// `AuthenticationError` when the blob does not open, `FormatError` when it
/// opens to something without the tag.
pub open spec fn unseal_spec(key: Seq<u8>, blob: Seq<u8>) -> Result<Seq<u8>, Error> {
    if blob.len() > MAX_PLAINTEXT_LEN + AEAD_OVERHEAD {
        Err(Error::AuthenticationError)
    } else {
        match aead_open_of(key, blob) {
            Some(p) => {
                if p.len() > 0 && p[0] == FORMAT_TAG {
                    Ok(p.drop_first())
                } else {
                    Err(Error::FormatError)
                }
            },
            None => Err(Error::AuthenticationError),
        }
    }
}

/// Seals `data` under `key` with a fresh nonce; any data up to the length
/// bound, the empty data included, is sealed.
pub fn encrypt_data(data: &[u8], key: &VaultKey) -> (r: Result<Vec<u8>, Error>)
    ensures
        r is Ok <==> data@.len() <= MAX_DATA_LEN,
        match r {
            Ok(c) => sealed_under(key@, data@, c@),
            Err(e) => e == Error::SealError,
        },
{
    if data.len() as u64 > MAX_DATA_LEN {
        return Err(Error::SealError);
    }
    let mut tagged: Vec<u8> = Vec::new();
    tagged.push(FORMAT_TAG);
    let mut i: usize = 0;
    while i < data.len()
        invariant
            i <= data@.len(),
            tagged@ == seq![FORMAT_TAG] + data@.take(i as int),
        decreases data@.len() - i,
    {
        tagged.push(data[i]);
        assert(data@.take(i as int + 1) =~= data@.take(i as int).push(data@[i as int]));
        assert(tagged@ =~= seq![FORMAT_TAG] + data@.take(i as int + 1));
        i = i + 1;
    }
    assert(data@.take(data@.len() as int) =~= data@);
    match aead_seal(key.as_bytes(), tagged.as_slice()) {
        Ok(c) => Ok(c),
        Err(_) => Err(Error::SealError),
    }
}

/// Opens a sealed blob under `key`; any tampering, truncation or other key
/// gives `AuthenticationError` and no plaintext.
pub fn decrypt_data(blob: &[u8], key: &VaultKey) -> (r: Result<Vec<u8>, Error>)
    ensures
        match r {
            Ok(p) => unseal_spec(key@, blob@) == Ok::<Seq<u8>, Error>(p@),
            Err(e) => unseal_spec(key@, blob@) == Err::<Seq<u8>, Error>(e),
        },
        blob@.len() <= AEAD_OVERHEAD ==> r == Err::<Vec<u8>, Error>(Error::AuthenticationError),
        r matches Ok(p) ==> p@.len() + SEAL_OVERHEAD == blob@.len(),
{
    if blob.len() as u64 > MAX_PLAINTEXT_LEN + AEAD_OVERHEAD as u64 {
        return Err(Error::AuthenticationError);
    }
    match aead_open(key.as_bytes(), blob) {
        Ok(mut p) => {
            if p.len() > 0 && p[0] == FORMAT_TAG {
                let ghost opened = p@;
                p.remove(0);
                assert(p@ =~= opened.drop_first());
                Ok(p)
            } else {
                Err(Error::FormatError)
            }
        },
        Err(_) => Err(Error::AuthenticationError),
    }
}

/// Unsealing undoes sealing: a blob sealed from any data `p`, the empty data
/// included, opens under the same key to exactly `p`.
pub proof fn lemma_unseal_seal(key: Seq<u8>, p: Seq<u8>, c: Seq<u8>)
    requires
        sealed_under(key, p, c),
    ensures
        unseal_spec(key, c) == Ok::<Seq<u8>, Error>(p),
{
    assert((seq![FORMAT_TAG] + p).drop_first() =~= p);
}

} // verus!

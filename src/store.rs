//! The record store: each operation opens the sealed vault, works on its
//! records, and returns a newly sealed vault for the caller to put in place
//! of the old one. Nothing is cached between operations.
use crate::codec::{
    decode_records, decode_spec, encode_records, encode_spec, encode_tail, escape_bytes,
    lemma_decode_encode, lemma_encode_no_longer, lemma_encode_remove,
};
use crate::envelope::{
    decrypt_data, encrypt_data, lemma_unseal_seal, unseal_spec, VaultKey,
    MAX_DATA_LEN,
};
use crate::record::{passwords_view, Error, Password, PasswordView};
use vstd::prelude::*;
use vstd::utf8::encode_utf8;

verus! {

/// What a vault blob holds under `key`: its records, or why it cannot be read.
pub open spec fn load_spec(key: Seq<u8>, blob: Seq<u8>) -> Result<Seq<PasswordView>, Error> {
    match unseal_spec(key, blob) {
        Err(e) => Err(e),
        Ok(p) => match decode_spec(p) {
            Some(rs) => Ok(rs),
            None => Err(Error::FormatError),
        },
    }
}

/// The records' plaintext is too long for one seal.
pub open spec fn too_long(rs: Seq<PasswordView>) -> bool {
    encode_spec(rs).len() > MAX_DATA_LEN
}

/// `blob` unseals under `key` to the canonical encoding of `rs`, and so reads back as `rs`.
pub open spec fn sealed_records(key: Seq<u8>, blob: Seq<u8>, rs: Seq<PasswordView>) -> bool {
    &&& unseal_spec(key, blob) == Ok::<Seq<u8>, Error>(encode_spec(rs))
    &&& load_spec(key, blob) == Ok::<Seq<PasswordView>, Error>(rs)
}

/// The record that a new vault starts with: three empty texts.
pub open spec fn placeholder() -> PasswordView {
    PasswordView { domain: Seq::empty(), username: Seq::empty(), password: Seq::empty() }
}

/// Where the selection goes after the record at `index` is removed.
pub open spec fn selection_after_remove(index: int) -> int {
    if index > 0 {
        index - 1
    } else {
        0
    }
}

/// Encodes and seals `records`; only a plaintext too long for one seal fails.
fn seal_records(key: &VaultKey, records: &Vec<Password>) -> (r: Result<Vec<u8>, Error>)
    ensures
        match r {
            Ok(b) => sealed_records(key@, b@, passwords_view(records@)),
            Err(e) => e == Error::SealError && too_long(passwords_view(records@)),
        },
{
    let plain = encode_records(records);
    let sealed = encrypt_data(plain.as_slice(), key);
    match sealed {
        Ok(b) => {
            proof {
                lemma_unseal_seal(key@, plain@, b@);
                lemma_decode_encode(passwords_view(records@));
            }
            Ok(b)
        },
        Err(e) => Err(e),
    }
}

/// A new vault holding only the placeholder record.
pub fn create_vault(key: &VaultKey) -> (r: Result<Vec<u8>, Error>)
    ensures
        r is Ok,
        r matches Ok(b) ==> sealed_records(key@, b@, seq![placeholder()]),
{
    let mut records: Vec<Password> = Vec::new();
    records.push(Password::new(String::new(), String::new(), String::new()));
    assert(passwords_view(records@) =~= seq![placeholder()]);
    proof {
        let e = Seq::<char>::empty();
        assert(encode_utf8(e) =~= Seq::<u8>::empty());
        assert(escape_bytes(Seq::<u8>::empty()) == Seq::<u8>::empty());
        assert(encode_tail(seq![placeholder()].drop_first()) == Seq::<u8>::empty());
        assert(encode_spec(seq![placeholder()]).len() < 100);
    }
    seal_records(key, &records)
}

/// The records of the vault, in stored order.
pub fn read_db(key: &VaultKey, blob: &[u8]) -> (r: Result<Vec<Password>, Error>)
    ensures
        match r {
            Ok(v) => load_spec(key@, blob@) == Ok::<Seq<PasswordView>, Error>(passwords_view(v@)),
            Err(e) => load_spec(key@, blob@) == Err::<Seq<PasswordView>, Error>(e),
        },
{
    let plain = decrypt_data(blob, key)?;
    decode_records(plain.as_slice())
}

/// Appends `entry` to the vault's records. Returns the new vault and its records.
pub fn add_password_to_db(key: &VaultKey, blob: &[u8], entry: Password) -> (r: Result<
    (Vec<u8>, Vec<Password>),
    Error,
>)
    ensures
        match r {
            Ok((b, v)) => {
                &&& load_spec(key@, blob@) is Ok
                &&& passwords_view(v@) == load_spec(key@, blob@)->Ok_0.push(entry@)
                &&& sealed_records(key@, b@, passwords_view(v@))
            },
            Err(e) => {
                ||| load_spec(key@, blob@) == Err::<Seq<PasswordView>, Error>(e)
                ||| load_spec(key@, blob@) is Ok && e == Error::SealError && too_long(
                    load_spec(key@, blob@)->Ok_0.push(entry@),
                )
            },
        },
{
    let mut records = read_db(key, blob)?;
    let ghost before = records@;
    let ghost ev = entry@;
    records.push(entry);
    assert(passwords_view(records@) =~= passwords_view(before).push(ev));
    let b = seal_records(key, &records)?;
    Ok((b, records))
}

/// Removes the record at `index`. Returns the new vault, its records, and
/// the index to select next. A removal within range always succeeds: the
/// shorter collection always fits in one seal.
pub fn remove_password_at_index(key: &VaultKey, blob: &[u8], index: usize) -> (r: Result<
    (Vec<u8>, Vec<Password>, usize),
    Error,
>)
    ensures
        match r {
            Ok((b, v, sel)) => {
                &&& load_spec(key@, blob@) is Ok
                &&& index < load_spec(key@, blob@)->Ok_0.len()
                &&& passwords_view(v@) == load_spec(key@, blob@)->Ok_0.remove(index as int)
                &&& sealed_records(key@, b@, passwords_view(v@))
                &&& sel == selection_after_remove(index as int)
            },
            Err(e) => {
                ||| load_spec(key@, blob@) == Err::<Seq<PasswordView>, Error>(e)
                ||| load_spec(key@, blob@) is Ok && index >= load_spec(key@, blob@)->Ok_0.len()
                    && e == Error::IndexError
            },
        },
{
    let plain = decrypt_data(blob, key)?;
    let mut records = decode_records(plain.as_slice())?;
    if index >= records.len() {
        return Err(Error::IndexError);
    }
    proof {
        lemma_encode_no_longer(plain@);
        lemma_encode_remove(passwords_view(records@), index as int);
    }
    let ghost before = records@;
    records.remove(index);
    assert(passwords_view(records@) =~= passwords_view(before).remove(index as int));
    let b = seal_records(key, &records)?;
    let sel: usize = if index > 0 {
        index - 1
    } else {
        0
    };
    Ok((b, records, sel))
}

/// The record at `index`.
pub fn get_password_at(key: &VaultKey, blob: &[u8], index: usize) -> (r: Result<Password, Error>)
    ensures
        match r {
            Ok(p) => {
                &&& load_spec(key@, blob@) is Ok
                &&& index < load_spec(key@, blob@)->Ok_0.len()
                &&& p@ == load_spec(key@, blob@)->Ok_0[index as int]
            },
            Err(e) => {
                ||| load_spec(key@, blob@) == Err::<Seq<PasswordView>, Error>(e)
                ||| load_spec(key@, blob@) is Ok && index >= load_spec(key@, blob@)->Ok_0.len()
                    && e == Error::IndexError
            },
        },
{
    let records = read_db(key, blob)?;
    if index >= records.len() {
        return Err(Error::IndexError);
    }
    Ok(records[index].clone_password())
}

/// Adding a record and then removing the record at the index where it was
/// added gives back the records from before, in their order.
pub proof fn lemma_add_then_remove(before: Seq<PasswordView>, entry: PasswordView)
    ensures
        before.push(entry).remove(before.len() as int) == before,
        before.push(entry)[before.len() as int] == entry,
{
    assert(before.push(entry).remove(before.len() as int) =~= before);
}

} // verus!

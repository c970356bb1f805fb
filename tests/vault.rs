use arustylock::codec::{decode_records, encode_records};
use arustylock::envelope::{decrypt_data, encrypt_data, VaultKey};
use arustylock::keys::{derive_key, new_salt};
use arustylock::record::{Error, Password};
use arustylock::store::{
    add_password_to_db, create_vault, get_password_at, read_db, remove_password_at_index,
};

fn key(seed: u8) -> VaultKey {
    let bytes: Vec<u8> = (0..32u8).map(|i| i.wrapping_mul(7).wrapping_add(seed)).collect();
    VaultKey::from_bytes(bytes).unwrap()
}

fn pw(d: &str, u: &str, p: &str) -> Password {
    Password::new(d.to_string(), u.to_string(), p.to_string())
}

fn fields(p: &Password) -> (String, String, String) {
    (p.domain.clone(), p.username.clone(), p.password.clone())
}

fn triple(d: &str, u: &str, p: &str) -> (String, String, String) {
    (d.to_string(), u.to_string(), p.to_string())
}

#[test]
fn it_works() {
    let result = 2 + 2;
    assert_eq!(result, 4);
}

#[test]
fn encode_empty_collection() {
    assert_eq!(encode_records(&Vec::new()), b"[]".to_vec());
}

#[test]
fn encode_two_records_exactly() {
    let v = vec![pw("a.com", "bob", "pw"), pw("", "", "")];
    let expected =
        b"[{\"domain\":\"a.com\",\"username\":\"bob\",\"password\":\"pw\"},{\"domain\":\"\",\"username\":\"\",\"password\":\"\"}]";
    assert_eq!(encode_records(&v), expected.to_vec());
}

#[test]
fn encode_escapes_quotes_backslashes_and_controls() {
    let v = vec![pw("q\"b\\", "l\nt\t", "\u{1}x")];
    let expected =
        b"[{\"domain\":\"q\\\"b\\\\\",\"username\":\"l\\nt\\t\",\"password\":\"\\u0001x\"}]";
    assert_eq!(encode_records(&v), expected.to_vec());
}

#[test]
fn decode_placeholder_with_spaces() {
    let text = b"[{\"domain\": \"\", \"username\": \"\", \"password\": \"\" }]";
    let v = decode_records(text).unwrap();
    assert_eq!(v.len(), 1);
    assert_eq!(fields(&v[0]), triple("", "", ""));
}

#[test]
fn decode_accepts_whitespace_and_escapes() {
    let text = b" [ {\"domain\" : \"x\\/y\", \"username\":\"\\u0041\\u000a\", \"password\":\"\\\"\"} ,\n {\"domain\":\"d\",\"username\":\"u\",\"password\":\"p\"} ] \n";
    let v = decode_records(text).unwrap();
    assert_eq!(v.len(), 2);
    assert_eq!(fields(&v[0]), triple("x/y", "A\n", "\""));
    assert_eq!(fields(&v[1]), triple("d", "u", "p"));
}

#[test]
fn decode_rejects_malformed_input() {
    assert_eq!(decode_records(b"").err(), Some(Error::FormatError));
    assert_eq!(decode_records(b"[").err(), Some(Error::FormatError));
    assert_eq!(decode_records(b"[] x").err(), Some(Error::FormatError));
    assert_eq!(decode_records(b"[{\"domain\":\"a\",\"username\":\"b\"}]").err(), Some(Error::FormatError));
    assert_eq!(decode_records(b"[{\"domain\":\"a\",\"username\":\"b\",\"password\":\"c\"},]").err(), Some(Error::FormatError));
    assert_eq!(decode_records(b"[{\"domain\":\"a\",\"domain\":\"a\",\"username\":\"b\",\"password\":\"c\"}]").err(), Some(Error::FormatError));
    assert_eq!(decode_records(b"[{\"domain\":\"\\ud800\",\"username\":\"b\",\"password\":\"c\"}]").err(), Some(Error::FormatError));
    assert_eq!(decode_records(b"[{\"domain\":\"\\udc00\",\"username\":\"b\",\"password\":\"c\"}]").err(), Some(Error::FormatError));
    assert_eq!(decode_records(b"[{\"domain\":5,\"username\":\"b\",\"password\":\"c\"}]").err(), Some(Error::FormatError));
    assert_eq!(decode_records(b"[{\"x\":01,\"domain\":\"a\",\"username\":\"b\",\"password\":\"c\"}]").err(), Some(Error::FormatError));
    assert_eq!(decode_records(b"[{\"x\":[1,],\"domain\":\"a\",\"username\":\"b\",\"password\":\"c\"}]").err(), Some(Error::FormatError));
    assert_eq!(decode_records(b"[{}]").err(), Some(Error::FormatError));
    assert_eq!(decode_records(b"[{\"domain\":\"a\nb\",\"username\":\"b\",\"password\":\"c\"}]").err(), Some(Error::FormatError));
    assert_eq!(decode_records(b"[{\"domain\":\"\\q\",\"username\":\"b\",\"password\":\"c\"}]").err(), Some(Error::FormatError));
    assert_eq!(decode_records(b"[{\"domain\":\"\xff\",\"username\":\"b\",\"password\":\"c\"}]").err(), Some(Error::FormatError));
}

#[test]
fn decode_accepts_members_in_any_order() {
    let text = b"[{\"username\":\"b\",\"password\":\"c\",\"domain\":\"a\"}]";
    let v = decode_records(text).unwrap();
    assert_eq!(v.len(), 1);
    assert_eq!(fields(&v[0]), triple("a", "b", "c"));
}

#[test]
fn decode_passes_over_other_members() {
    let text = b"[{\"id\": -12.5e+3, \"domain\":\"a\", \"tags\": [true, false, null, {\"k\": [\"v\", 0, {}]}, []], \"username\":\"b\", \"note\": {\"x\": \"y\"}, \"password\":\"c\", \"z\": 0}]";
    let v = decode_records(text).unwrap();
    assert_eq!(v.len(), 1);
    assert_eq!(fields(&v[0]), triple("a", "b", "c"));
}

#[test]
fn decode_reads_unicode_escapes() {
    let text = b"[{\"domain\":\"\\u00e9\\u20AC\",\"username\":\"\\ud83d\\ude00\",\"password\":\"\\u0041\"}]";
    let v = decode_records(text).unwrap();
    assert_eq!(fields(&v[0]), triple("\u{e9}\u{20ac}", "\u{1f600}", "A"));
}

#[test]
fn decode_bounds_nesting_depth() {
    let mut deep = String::from("[{\"x\":");
    for _ in 0..126 {
        deep.push('[');
    }
    for _ in 0..126 {
        deep.push(']');
    }
    deep.push_str(",\"domain\":\"a\",\"username\":\"b\",\"password\":\"c\"}]");
    assert!(decode_records(deep.as_bytes()).is_ok());
    let too_deep = deep.replacen("[[", "[[[", 1).replacen("]]", "]]]", 1);
    assert_eq!(decode_records(too_deep.as_bytes()).err(), Some(Error::FormatError));
}

#[test]
fn decode_empty_array() {
    assert_eq!(decode_records(b" [ ] ").unwrap().len(), 0);
}

#[test]
fn round_trip_keeps_every_record() {
    let v = vec![
        pw("example.com", "u", "p"),
        pw("", "", ""),
        pw("ünïcödé ✓", "tab\there", "quote\"back\\slash\u{1f}"),
    ];
    let back = decode_records(&encode_records(&v)).unwrap();
    assert_eq!(back.len(), 3);
    for i in 0..3 {
        assert_eq!(fields(&back[i]), fields(&v[i]));
    }
}

#[test]
fn key_must_be_32_bytes() {
    assert!(VaultKey::from_bytes(vec![1u8; 31]).is_none());
    assert!(VaultKey::from_bytes(vec![1u8; 33]).is_none());
    assert!(VaultKey::from_bytes(vec![1u8; 32]).is_some());
}

#[test]
fn seal_then_open_gives_plaintext() {
    let k = key(1);
    let plain = b"hello vault".to_vec();
    let sealed = encrypt_data(&plain, &k).unwrap();
    assert_eq!(sealed.len(), plain.len() + 41);
    assert_ne!(&sealed[25..25 + plain.len()], &plain[..]);
    assert_eq!(decrypt_data(&sealed, &k).unwrap(), plain);
}

#[test]
fn seal_uses_a_fresh_nonce_each_time() {
    let k = key(1);
    let a = encrypt_data(b"same", &k).unwrap();
    let b = encrypt_data(b"same", &k).unwrap();
    assert_ne!(a, b);
}

#[test]
fn empty_data_seals_and_opens() {
    let k = key(1);
    let sealed = encrypt_data(b"", &k).unwrap();
    assert_eq!(sealed.len(), 41);
    assert_eq!(decrypt_data(&sealed, &k), Ok(Vec::new()));
    assert_eq!(decrypt_data(&sealed[..40], &k), Err(Error::AuthenticationError));
}

#[test]
fn blob_without_format_tag_is_a_format_error() {
    let k = key(1);
    let orion_key = orion::aead::SecretKey::from_slice(k.as_bytes()).unwrap();
    let sealed = orion::aead::seal(&orion_key, b"[]").unwrap();
    assert_eq!(decrypt_data(&sealed, &k), Err(Error::FormatError));
}

#[test]
fn flipping_any_byte_fails_authentication() {
    let k = key(2);
    let sealed = encrypt_data(b"secret data", &k).unwrap();
    for i in 0..sealed.len() {
        let mut bad = sealed.clone();
        bad[i] ^= 0x01;
        assert_eq!(decrypt_data(&bad, &k), Err(Error::AuthenticationError));
    }
}

#[test]
fn truncated_blob_fails_authentication() {
    let k = key(2);
    let sealed = encrypt_data(b"secret data", &k).unwrap();
    assert_eq!(
        decrypt_data(&sealed[..sealed.len() - 1], &k),
        Err(Error::AuthenticationError)
    );
    assert_eq!(decrypt_data(&[], &k), Err(Error::AuthenticationError));
}

#[test]
fn wrong_key_fails_authentication() {
    let sealed = encrypt_data(b"secret data", &key(3)).unwrap();
    assert_eq!(decrypt_data(&sealed, &key(4)), Err(Error::AuthenticationError));
}

#[test]
fn add_then_remove_scenario() {
    let k = key(5);
    let v0 = create_vault(&k).unwrap();
    let listed = read_db(&k, &v0).unwrap();
    assert_eq!(listed.len(), 1);
    assert_eq!(fields(&listed[0]), triple("", "", ""));

    let (v1, after_add) = add_password_to_db(&k, &v0, pw("example.com", "u", "p")).unwrap();
    assert_eq!(after_add.len(), 2);
    let listed = read_db(&k, &v1).unwrap();
    assert_eq!(listed.len(), 2);
    assert_eq!(fields(&listed[0]), triple("", "", ""));
    assert_eq!(fields(&listed[1]), triple("example.com", "u", "p"));

    let (v2, after_remove, sel) = remove_password_at_index(&k, &v1, 1).unwrap();
    assert_eq!(sel, 0);
    assert_eq!(after_remove.len(), 1);
    let listed = read_db(&k, &v2).unwrap();
    assert_eq!(listed.len(), 1);
    assert_eq!(fields(&listed[0]), triple("", "", ""));
}

#[test]
fn remove_selects_previous_record() {
    let k = key(6);
    let v0 = create_vault(&k).unwrap();
    let (v1, _) = add_password_to_db(&k, &v0, pw("a", "b", "c")).unwrap();
    let (v2, _) = add_password_to_db(&k, &v1, pw("d", "e", "f")).unwrap();
    let (v3, rest, sel) = remove_password_at_index(&k, &v2, 2).unwrap();
    assert_eq!(sel, 1);
    assert_eq!(rest.len(), 2);
    assert_eq!(fields(&read_db(&k, &v3).unwrap()[1]), triple("a", "b", "c"));
    let (_, rest, sel) = remove_password_at_index(&k, &v3, 0).unwrap();
    assert_eq!(sel, 0);
    assert_eq!(fields(&rest[0]), triple("a", "b", "c"));
}

#[test]
fn removing_the_last_record_leaves_an_empty_vault() {
    let k = key(7);
    let v0 = create_vault(&k).unwrap();
    let (v1, rest, sel) = remove_password_at_index(&k, &v0, 0).unwrap();
    assert_eq!(rest.len(), 0);
    assert_eq!(sel, 0);
    assert_eq!(read_db(&k, &v1).unwrap().len(), 0);
    assert_eq!(get_password_at(&k, &v1, 0).err(), Some(Error::IndexError));
}

#[test]
fn out_of_range_index_is_an_index_error() {
    let k = key(8);
    let v0 = create_vault(&k).unwrap();
    let before = v0.clone();
    assert_eq!(remove_password_at_index(&k, &v0, 1).err(), Some(Error::IndexError));
    assert_eq!(get_password_at(&k, &v0, 1).err(), Some(Error::IndexError));
    assert_eq!(get_password_at(&k, &v0, usize::MAX).err(), Some(Error::IndexError));
    assert_eq!(v0, before);
    assert_eq!(fields(&get_password_at(&k, &v0, 0).unwrap()), triple("", "", ""));
}

#[test]
fn wrong_key_vault_is_an_authentication_error() {
    let v0 = create_vault(&key(9)).unwrap();
    assert_eq!(read_db(&key(10), &v0).err(), Some(Error::AuthenticationError));
    assert_eq!(
        add_password_to_db(&key(10), &v0, pw("a", "b", "c")).err(),
        Some(Error::AuthenticationError)
    );
}

#[test]
fn sealed_non_json_is_a_format_error() {
    let k = key(11);
    let blob = encrypt_data(b"{not json", &k).unwrap();
    assert_eq!(read_db(&k, &blob).err(), Some(Error::FormatError));
    assert_eq!(remove_password_at_index(&k, &blob, 0).err(), Some(Error::FormatError));
}

#[test]
fn derived_key_depends_on_passphrase_and_salt() {
    let salt = b"0123456789abcdef";
    let a = derive_key(b"correct horse", salt).unwrap();
    let b = derive_key(b"correct horse", salt).unwrap();
    let c = derive_key(b"correct horsf", salt).unwrap();
    let d = derive_key(b"correct horse", b"0123456789abcdeg").unwrap();
    assert_eq!(a.as_bytes(), b.as_bytes());
    assert_ne!(a.as_bytes(), c.as_bytes());
    assert_ne!(a.as_bytes(), d.as_bytes());
    assert_ne!(a.as_bytes(), &b"correct horse"[..]);
    let sealed = encrypt_data(b"data", &a).unwrap();
    assert_eq!(decrypt_data(&sealed, &b).unwrap(), b"data".to_vec());
    assert_eq!(decrypt_data(&sealed, &c), Err(Error::AuthenticationError));
}

#[test]
fn key_derivation_refuses_empty_passphrase_and_short_salt() {
    assert_eq!(derive_key(b"", b"0123456789abcdef").err(), Some(Error::KeyDerivationError));
    assert_eq!(derive_key(b"pass", b"1234567").err(), Some(Error::KeyDerivationError));
    assert!(derive_key(b"pass", b"12345678").is_ok());
}

#[test]
fn new_salts_are_sixteen_random_bytes() {
    let a = new_salt();
    let b = new_salt();
    assert_eq!(a.len(), 16);
    assert_eq!(b.len(), 16);
    assert_ne!(a, b);
}

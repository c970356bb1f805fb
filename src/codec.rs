//! The vault's plaintext format: a JSON array of objects with the string
//! members `domain`, `username` and `password`. The encoder writes them in
//! that order with no whitespace. The decoder reads any JSON of that shape:
//! members in any order, other members passed over whatever their value,
//! whitespace between tokens, and every escape, surrogate pairs included.
//! A known member may come only once, and nesting is bounded at 128 levels.
use crate::record::{passwords_view, Error, Password, PasswordView};
use vstd::prelude::*;
use vstd::utf8::*;

verus! {

/// The lower-case hexadecimal digit for `d < 16`.
pub open spec fn hex_digit(d: u8) -> u8 {
    if d < 10 {
        (48 + d) as u8
    } else {
        (87 + d) as u8
    }
}

/// How one byte of a string's UTF-8 form is written inside a JSON string literal.
pub open spec fn escape_byte(b: u8) -> Seq<u8> {
    if b == 34 {
        seq![92u8, 34u8]
    } else if b == 92 {
        seq![92u8, 92u8]
    } else if b == 8 {
        seq![92u8, 98u8]
    } else if b == 12 {
        seq![92u8, 102u8]
    } else if b == 10 {
        seq![92u8, 110u8]
    } else if b == 13 {
        seq![92u8, 114u8]
    } else if b == 9 {
        seq![92u8, 116u8]
    } else if b < 32 {
        seq![92u8, 117u8, 48u8, 48u8, hex_digit(b / 16), hex_digit(b % 16)]
    } else {
        seq![b]
    }
}

/// The body of a JSON string literal for the bytes `b`.
pub open spec fn escape_bytes(b: Seq<u8>) -> Seq<u8>
    decreases b.len(),
{
    if b.len() == 0 {
        Seq::empty()
    } else {
        escape_byte(b[0]) + escape_bytes(b.drop_first())
    }
}

/// A JSON string literal holding the text `t`.
pub open spec fn string_literal(t: Seq<char>) -> Seq<u8> {
    seq![34u8] + escape_bytes(encode_utf8(t)) + seq![34u8]
}

/// `"key":` for one member name.
pub open spec fn member_prefix(key: Seq<u8>) -> Seq<u8> {
    seq![34u8] + key + seq![34u8, 58u8]
}

pub open spec fn domain_key() -> Seq<u8> {
    seq![100u8, 111u8, 109u8, 97u8, 105u8, 110u8]
}

pub open spec fn username_key() -> Seq<u8> {
    seq![117u8, 115u8, 101u8, 114u8, 110u8, 97u8, 109u8, 101u8]
}

pub open spec fn password_key() -> Seq<u8> {
    seq![112u8, 97u8, 115u8, 115u8, 119u8, 111u8, 114u8, 100u8]
}

/// The JSON object for one record, with no whitespace.
pub open spec fn encode_record(r: PasswordView) -> Seq<u8> {
    seq![123u8] + member_prefix(domain_key()) + string_literal(r.domain) + seq![44u8]
        + member_prefix(username_key()) + string_literal(r.username) + seq![44u8]
        + member_prefix(password_key()) + string_literal(r.password) + seq![125u8]
}

/// Each record of `rs` preceded by a comma.
pub open spec fn encode_tail(rs: Seq<PasswordView>) -> Seq<u8>
    decreases rs.len(),
{
    if rs.len() == 0 {
        Seq::empty()
    } else {
        seq![44u8] + encode_record(rs[0]) + encode_tail(rs.drop_first())
    }
}

/// The canonical JSON array for a record collection.
pub open spec fn encode_spec(rs: Seq<PasswordView>) -> Seq<u8> {
    if rs.len() == 0 {
        seq![91u8, 93u8]
    } else {
        seq![91u8] + encode_record(rs[0]) + encode_tail(rs.drop_first()) + seq![93u8]
    }
}

proof fn lemma_escape_bytes_concat(a: Seq<u8>, b: Seq<u8>)
    ensures
        escape_bytes(a + b) == escape_bytes(a) + escape_bytes(b),
    decreases a.len(),
{
    if a.len() == 0 {
        assert(a + b =~= b);
        assert(escape_bytes(a) + escape_bytes(b) =~= escape_bytes(b));
    } else {
        assert((a + b).drop_first() =~= a.drop_first() + b);
        lemma_escape_bytes_concat(a.drop_first(), b);
        assert(escape_bytes(a + b) =~= escape_byte(a[0]) + escape_bytes(a.drop_first() + b));
        assert(escape_bytes(a + b) =~= escape_bytes(a) + escape_bytes(b));
    }
}

proof fn lemma_escape_bytes_push(a: Seq<u8>, x: u8)
    ensures
        escape_bytes(a.push(x)) == escape_bytes(a) + escape_byte(x),
{
    assert(a.push(x) =~= a + seq![x]);
    lemma_escape_bytes_concat(a, seq![x]);
    assert(seq![x].drop_first() =~= Seq::<u8>::empty());
    assert(escape_bytes(seq![x]) =~= escape_byte(x) + escape_bytes(Seq::<u8>::empty()));
    assert(escape_bytes(seq![x]) =~= escape_byte(x));
}

proof fn lemma_encode_tail_push(rs: Seq<PasswordView>, r: PasswordView)
    ensures
        encode_tail(rs.push(r)) == encode_tail(rs) + seq![44u8] + encode_record(r),
    decreases rs.len(),
{
    if rs.len() == 0 {
        assert(rs.push(r).drop_first() =~= Seq::<PasswordView>::empty());
        assert(rs.push(r)[0] == r);
        assert(encode_tail(Seq::<PasswordView>::empty()) == Seq::<u8>::empty());
        assert(encode_tail(rs.push(r)) =~= encode_tail(rs) + seq![44u8] + encode_record(r));
    } else {
        assert(rs.push(r).drop_first() =~= rs.drop_first().push(r));
        lemma_encode_tail_push(rs.drop_first(), r);
        assert(rs.push(r)[0] == rs[0]);
        assert(encode_tail(rs.push(r)) == seq![44u8] + encode_record(rs[0]) + encode_tail(
            rs.drop_first().push(r),
        ));
        assert(encode_tail(rs.push(r)) =~= encode_tail(rs) + seq![44u8] + encode_record(r));
    }
}

fn hex_digit_exec(d: u8) -> (r: u8)
    requires
        d < 16,
    ensures
        r == hex_digit(d),
{
    if d < 10 {
        48 + d
    } else {
        87 + d
    }
}

/// Appends the string literal for `bytes` to `out`.
fn push_string_literal(out: &mut Vec<u8>, bytes: &[u8])
    ensures
        final(out)@ == old(out)@ + seq![34u8] + escape_bytes(bytes@) + seq![34u8],
{
    out.push(34);
    let ghost start = out@;
    let mut i: usize = 0;
    while i < bytes.len()
        invariant
            i <= bytes@.len(),
            out@ == start + escape_bytes(bytes@.take(i as int)),
        decreases bytes@.len() - i,
    {
        let b = bytes[i];
        proof {
            assert(bytes@.take(i as int + 1) =~= bytes@.take(i as int).push(b));
            lemma_escape_bytes_push(bytes@.take(i as int), b);
        }
        let ghost before = out@;
        if b == 34 {
            out.push(92);
            out.push(34);
        } else if b == 92 {
            out.push(92);
            out.push(92);
        } else if b == 8 {
            out.push(92);
            out.push(98);
        } else if b == 12 {
            out.push(92);
            out.push(102);
        } else if b == 10 {
            out.push(92);
            out.push(110);
        } else if b == 13 {
            out.push(92);
            out.push(114);
        } else if b == 9 {
            out.push(92);
            out.push(116);
        } else if b < 32 {
            out.push(92);
            out.push(117);
            out.push(48);
            out.push(48);
            out.push(hex_digit_exec(b / 16));
            out.push(hex_digit_exec(b % 16));
        } else {
            out.push(b);
        }
        assert(out@ =~= before + escape_byte(b));
        i = i + 1;
    }
    assert(bytes@.take(bytes@.len() as int) =~= bytes@);
    out.push(34);
    assert(out@ =~= old(out)@ + seq![34u8] + escape_bytes(bytes@) + seq![34u8]);
}

/// Appends `"key":` to `out`.
fn push_member_prefix(out: &mut Vec<u8>, key: &[u8])
    ensures
        final(out)@ == old(out)@ + member_prefix(key@),
{
    out.push(34);
    let ghost start = out@;
    let mut i: usize = 0;
    while i < key.len()
        invariant
            i <= key@.len(),
            out@ == start + key@.take(i as int),
        decreases key@.len() - i,
    {
        out.push(key[i]);
        assert(key@.take(i as int + 1) =~= key@.take(i as int).push(key@[i as int]));
        i = i + 1;
    }
    assert(key@.take(key@.len() as int) =~= key@);
    out.push(34);
    out.push(58);
    assert(out@ =~= old(out)@ + member_prefix(key@));
}

/// Appends the JSON object for `p` to `out`.
fn push_record(out: &mut Vec<u8>, p: &Password)
    ensures
        final(out)@ == old(out)@ + encode_record(p@),
{
    let domain: [u8; 6] = [100, 111, 109, 97, 105, 110];
    let username: [u8; 8] = [117, 115, 101, 114, 110, 97, 109, 101];
    let password: [u8; 8] = [112, 97, 115, 115, 119, 111, 114, 100];
    assert(domain@ =~= domain_key());
    assert(username@ =~= username_key());
    assert(password@ =~= password_key());
    out.push(123);
    push_member_prefix(out, domain.as_slice());
    push_string_literal(out, p.domain.as_str().as_bytes());
    out.push(44);
    push_member_prefix(out, username.as_slice());
    push_string_literal(out, p.username.as_str().as_bytes());
    out.push(44);
    push_member_prefix(out, password.as_slice());
    push_string_literal(out, p.password.as_str().as_bytes());
    out.push(125);
    assert(out@ =~= old(out)@ + encode_record(p@));
}

/// Writes a record collection in the vault's JSON form.
pub fn encode_records(records: &Vec<Password>) -> (r: Vec<u8>)
    ensures
        r@ == encode_spec(passwords_view(records@)),
{
    let ghost rs = passwords_view(records@);
    let mut out: Vec<u8> = Vec::new();
    out.push(91);
    if records.len() == 0 {
        out.push(93);
        assert(out@ =~= encode_spec(rs));
        return out;
    }
    push_record(&mut out, &records[0]);
    let mut i: usize = 1;
    while i < records.len()
        invariant
            1 <= i <= records@.len(),
            rs == passwords_view(records@),
            out@ == seq![91u8] + encode_record(rs[0]) + encode_tail(rs.subrange(1, i as int)),
        decreases records@.len() - i,
    {
        proof {
            assert(rs.subrange(1, i as int + 1) =~= rs.subrange(1, i as int).push(rs[i as int]));
            lemma_encode_tail_push(rs.subrange(1, i as int), rs[i as int]);
        }
        out.push(44);
        push_record(&mut out, &records[i]);
        i = i + 1;
    }
    out.push(93);
    assert(rs.subrange(1, rs.len() as int) =~= rs.drop_first());
    assert(out@ =~= encode_spec(rs));
    out
}

pub open spec fn is_ws(b: u8) -> bool {
    b == 32 || b == 9 || b == 10 || b == 13
}

/// `s` without its leading JSON whitespace.
pub open spec fn skip_ws(s: Seq<u8>) -> Seq<u8>
    decreases s.len(),
{
    if s.len() > 0 && is_ws(s[0]) {
        skip_ws(s.drop_first())
    } else {
        s
    }
}

/// The byte `t` after optional whitespace: what follows it.
pub open spec fn token(s: Seq<u8>, t: u8) -> Option<Seq<u8>> {
    let s1 = skip_ws(s);
    if s1.len() > 0 && s1[0] == t {
        Some(s1.drop_first())
    } else {
        None
    }
}

/// The value of a hexadecimal digit of either case.
pub open spec fn hex_value(c: u8) -> Option<u8> {
    if 48 <= c <= 57 {
        Some((c - 48) as u8)
    } else if 97 <= c <= 102 {
        Some((c - 87) as u8)
    } else if 65 <= c <= 70 {
        Some((c - 55) as u8)
    } else {
        None
    }
}

/// The byte that a two-character escape `\e` stands for.
pub open spec fn simple_escape(e: u8) -> Option<u8> {
    if e == 34 {
        Some(34u8)
    } else if e == 92 {
        Some(92u8)
    } else if e == 47 {
        Some(47u8)
    } else if e == 98 {
        Some(8u8)
    } else if e == 102 {
        Some(12u8)
    } else if e == 110 {
        Some(10u8)
    } else if e == 114 {
        Some(13u8)
    } else if e == 116 {
        Some(9u8)
    } else {
        None
    }
}

/// The number that four hexadecimal digits from position `i` of `s` spell.
pub open spec fn hex4(s: Seq<u8>, i: int) -> Option<u32>
    recommends
        0 <= i && i + 4 <= s.len(),
{
    match (hex_value(s[i]), hex_value(s[i + 1]), hex_value(s[i + 2]), hex_value(s[i + 3])) {
        (Some(a), Some(b), Some(c), Some(d)) => Some((a * 4096 + b * 256 + c * 16 + d) as u32),
        _ => None,
    }
}

/// The UTF-8 bytes of a code point below 0x110000.
pub open spec fn utf8_of_code_point(c: u32) -> Seq<u8> {
    if c < 0x80 {
        seq![c as u8]
    } else if c < 0x800 {
        seq![(0xC0 + c / 64) as u8, (0x80 + c % 64) as u8]
    } else if c < 0x10000 {
        seq![(0xE0 + c / 4096) as u8, (0x80 + (c / 64) % 64) as u8, (0x80 + c % 64) as u8]
    } else {
        seq![
            (0xF0 + c / 262144) as u8,
            (0x80 + (c / 4096) % 64) as u8,
            (0x80 + (c / 64) % 64) as u8,
            (0x80 + c % 64) as u8,
        ]
    }
}

/// An escape at the start of `s`: the UTF-8 bytes it stands for and its
/// length. A `\u` escape names a code point; one of the first half of a
/// surrogate pair must be followed by a `\u` escape of the second half.
#[verifier::opaque]
pub open spec fn parse_escape(s: Seq<u8>) -> Option<(Seq<u8>, int)> {
    if s.len() < 2 || s[0] != 92 {
        None
    } else if s[1] == 117 {
        if s.len() < 6 {
            None
        } else {
            match hex4(s, 2) {
                None => None,
                Some(c) => {
                    if 0xD800 <= c < 0xDC00 {
                        if s.len() < 12 || s[6] != 92 || s[7] != 117 {
                            None
                        } else {
                            match hex4(s, 8) {
                                Some(d) => {
                                    if 0xDC00 <= d < 0xE000 {
                                        Some(
                                            (
                                                utf8_of_code_point(
                                                    (0x10000 + (c - 0xD800) * 1024 + (d - 0xDC00)) as u32,
                                                ),
                                                12,
                                            ),
                                        )
                                    } else {
                                        None
                                    }
                                },
                                None => None,
                            }
                        }
                    } else if 0xDC00 <= c < 0xE000 {
                        None
                    } else {
                        Some((utf8_of_code_point(c), 6))
                    }
                },
            }
        }
    } else {
        match simple_escape(s[1]) {
            Some(b) => Some((seq![b], 2)),
            None => None,
        }
    }
}

/// The body of a string literal through its closing quote: the bytes that
/// it stands for, and what follows the quote.
pub open spec fn parse_string_body(s: Seq<u8>) -> Option<(Seq<u8>, Seq<u8>)>
    decreases s.len(),
{
    if s.len() == 0 {
        None
    } else if s[0] == 34 {
        Some((Seq::empty(), s.drop_first()))
    } else if s[0] == 92 {
        match parse_escape(s) {
            Some((bs, n)) => {
                if 0 < n <= s.len() {
                    match parse_string_body(s.skip(n)) {
                        Some((v, rest)) => Some((bs + v, rest)),
                        None => None,
                    }
                } else {
                    None
                }
            },
            None => None,
        }
    } else if s[0] < 32 {
        None
    } else {
        match parse_string_body(s.drop_first()) {
            Some((v, rest)) => Some((seq![s[0]] + v, rest)),
            None => None,
        }
    }
}

/// Nesting that a value inside a record may still open: with the array
/// and the record around it, 128 levels in all.
pub const VALUE_DEPTH: usize = 126;

pub open spec fn is_digit(b: u8) -> bool {
    48 <= b <= 57
}

/// `s` without its leading decimal digits.
pub open spec fn skip_digits(s: Seq<u8>) -> Seq<u8>
    decreases s.len(),
{
    if s.len() > 0 && is_digit(s[0]) {
        skip_digits(s.drop_first())
    } else {
        s
    }
}

/// The integer part of a number: `0`, or a nonzero digit and more digits.
pub open spec fn skip_int_part(s: Seq<u8>) -> Option<Seq<u8>> {
    if s.len() > 0 && s[0] == 48 {
        Some(s.drop_first())
    } else if s.len() > 0 && is_digit(s[0]) {
        Some(skip_digits(s))
    } else {
        None
    }
}

/// An optional fraction: `.` and one digit or more.
pub open spec fn skip_fraction(s: Seq<u8>) -> Option<Seq<u8>> {
    if s.len() > 0 && s[0] == 46 {
        let d = s.drop_first();
        if d.len() > 0 && is_digit(d[0]) {
            Some(skip_digits(d))
        } else {
            None
        }
    } else {
        Some(s)
    }
}

/// An optional exponent: `e` or `E`, an optional sign, one digit or more.
pub open spec fn skip_exponent(s: Seq<u8>) -> Option<Seq<u8>> {
    if s.len() > 0 && (s[0] == 101 || s[0] == 69) {
        let e = s.drop_first();
        let e1 = if e.len() > 0 && (e[0] == 43 || e[0] == 45) {
            e.drop_first()
        } else {
            e
        };
        if e1.len() > 0 && is_digit(e1[0]) {
            Some(skip_digits(e1))
        } else {
            None
        }
    } else {
        Some(s)
    }
}

/// A JSON number at the start of `s`: what follows it.
pub open spec fn skip_number(s: Seq<u8>) -> Option<Seq<u8>> {
    let s1 = if s.len() > 0 && s[0] == 45 {
        s.drop_first()
    } else {
        s
    };
    match skip_int_part(s1) {
        None => None,
        Some(s2) => match skip_fraction(s2) {
            None => None,
            Some(s3) => skip_exponent(s3),
        },
    }
}

/// `s` starts with the bytes `lit`: what follows them.
pub open spec fn skip_literal(s: Seq<u8>, lit: Seq<u8>) -> Option<Seq<u8>> {
    if s.len() >= lit.len() && s.take(lit.len() as int) == lit {
        Some(s.skip(lit.len() as int))
    } else {
        None
    }
}

/// Any JSON value after optional whitespace, nesting at most `depth` arrays
/// and objects: what follows it.
pub open spec fn skip_value(s: Seq<u8>, depth: nat) -> Option<Seq<u8>>
    decreases depth, s.len(),
{
    let t = skip_ws(s);
    if t.len() == 0 {
        None
    } else if t[0] == 34 {
        match parse_string_body(t.drop_first()) {
            Some((_, rest)) => Some(rest),
            None => None,
        }
    } else if t[0] == 91 {
        if depth == 0 {
            None
        } else {
            let t1 = t.drop_first();
            match token(t1, 93) {
                Some(rest) => Some(rest),
                None => match skip_value(t1, (depth - 1) as nat) {
                    Some(r) => skip_elements(r, (depth - 1) as nat),
                    None => None,
                },
            }
        }
    } else if t[0] == 123 {
        if depth == 0 {
            None
        } else {
            let t1 = t.drop_first();
            match token(t1, 125) {
                Some(rest) => Some(rest),
                None => match skip_member(t1, (depth - 1) as nat) {
                    Some(r) => skip_members(r, (depth - 1) as nat),
                    None => None,
                },
            }
        }
    } else if t[0] == 116 {
        skip_literal(t, seq![116u8, 114u8, 117u8, 101u8])
    } else if t[0] == 102 {
        skip_literal(t, seq![102u8, 97u8, 108u8, 115u8, 101u8])
    } else if t[0] == 110 {
        skip_literal(t, seq![110u8, 117u8, 108u8, 108u8])
    } else {
        skip_number(t)
    }
}

/// The rest of an array after its first element: `, value` repeated, then `]`.
pub open spec fn skip_elements(s: Seq<u8>, depth: nat) -> Option<Seq<u8>>
    decreases depth, s.len(),
{
    match token(s, 93) {
        Some(rest) => Some(rest),
        None => match token(s, 44) {
            None => None,
            Some(s1) => {
                if s1.len() < s.len() {
                    match skip_value(s1, depth) {
                        Some(r) => {
                            if r.len() < s.len() {
                                skip_elements(r, depth)
                            } else {
                                None
                            }
                        },
                        None => None,
                    }
                } else {
                    None
                }
            },
        },
    }
}

/// One object member `"name": value`: what follows it.
pub open spec fn skip_member(s: Seq<u8>, depth: nat) -> Option<Seq<u8>>
    decreases depth, s.len(),
{
    match token(s, 34) {
        None => None,
        Some(s1) => match parse_string_body(s1) {
            None => None,
            Some((_, s2)) => match token(s2, 58) {
                None => None,
                Some(s3) => {
                    if s3.len() < s.len() {
                        skip_value(s3, depth)
                    } else {
                        None
                    }
                },
            },
        },
    }
}

/// The rest of an object after its first member: `, member` repeated, then `}`.
pub open spec fn skip_members(s: Seq<u8>, depth: nat) -> Option<Seq<u8>>
    decreases depth, s.len(),
{
    match token(s, 125) {
        Some(rest) => Some(rest),
        None => match token(s, 44) {
            None => None,
            Some(s1) => {
                if s1.len() < s.len() {
                    match skip_member(s1, depth) {
                        Some(r) => {
                            if r.len() < s.len() {
                                skip_members(r, depth)
                            } else {
                                None
                            }
                        },
                        None => None,
                    }
                } else {
                    None
                }
            },
        },
    }
}

/// A string value after optional whitespace, as text: its characters and
/// what follows it.
pub open spec fn parse_text(s: Seq<u8>) -> Option<(Seq<char>, Seq<u8>)> {
    match token(s, 34) {
        None => None,
        Some(s1) => match parse_string_body(s1) {
            None => None,
            Some((v, s2)) => {
                if valid_utf8(v) {
                    Some((decode_utf8(v), s2))
                } else {
                    None
                }
            },
        },
    }
}

/// The texts of a record read so far: domain, username, password.
pub type Fields = (Option<Seq<char>>, Option<Seq<char>>, Option<Seq<char>>);

/// The slot of a member name: 0, 1 or 2 for the three texts, 3 for any other name.
pub open spec fn slot_of(k: Seq<u8>) -> int {
    if k == domain_key() {
        0
    } else if k == username_key() {
        1
    } else if k == password_key() {
        2
    } else {
        3
    }
}

pub open spec fn slot_filled(f: Fields, slot: int) -> bool {
    if slot == 0 {
        f.0 is Some
    } else if slot == 1 {
        f.1 is Some
    } else {
        f.2 is Some
    }
}

pub open spec fn fill_slot(f: Fields, slot: int, t: Seq<char>) -> Fields {
    if slot == 0 {
        (Some(t), f.1, f.2)
    } else if slot == 1 {
        (f.0, Some(t), f.2)
    } else {
        (f.0, f.1, Some(t))
    }
}

/// One member of a record object, after optional whitespace, added to `f`.
/// A record's own name takes a string value and may come once; any other
/// name takes any value, which is passed over.
#[verifier::opaque]
pub open spec fn parse_record_member(s: Seq<u8>, f: Fields) -> Option<(Fields, Seq<u8>)> {
    match token(s, 34) {
        None => None,
        Some(s1) => match parse_string_body(s1) {
            None => None,
            Some((k, s2)) => match token(s2, 58) {
                None => None,
                Some(s3) => {
                    let slot = slot_of(k);
                    if slot == 3 {
                        match skip_value(s3, VALUE_DEPTH as nat) {
                            Some(s4) => Some((f, s4)),
                            None => None,
                        }
                    } else if slot_filled(f, slot) {
                        None
                    } else {
                        match parse_text(s3) {
                            Some((t, s4)) => Some((fill_slot(f, slot, t), s4)),
                            None => None,
                        }
                    }
                },
            },
        },
    }
}

/// The members of a record object after its first: `, member` repeated,
/// then `}`. The texts read, and what follows the brace.
pub open spec fn parse_record_rest(s: Seq<u8>, f: Fields) -> Option<(Fields, Seq<u8>)>
    decreases s.len(),
{
    match token(s, 125) {
        Some(rest) => Some((f, rest)),
        None => match token(s, 44) {
            None => None,
            Some(s1) => match parse_record_member(s1, f) {
                None => None,
                Some((g, s2)) => {
                    if s1.len() < s.len() && s2.len() < s1.len() {
                        parse_record_rest(s2, g)
                    } else {
                        None
                    }
                },
            },
        },
    }
}

/// The record that the texts read make, if all three were there.
pub open spec fn finish_record(x: Option<(Fields, Seq<u8>)>) -> Option<(PasswordView, Seq<u8>)> {
    match x {
        Some(((Some(d), Some(u), Some(p)), rest)) => Some(
            (PasswordView { domain: d, username: u, password: p }, rest),
        ),
        _ => None,
    }
}

/// One record object, its members in any order: its value and what follows it.
#[verifier::opaque]
pub open spec fn parse_record(s: Seq<u8>) -> Option<(PasswordView, Seq<u8>)> {
    match token(s, 123) {
        None => None,
        Some(s1) => {
            let fields = match token(s1, 125) {
                Some(rest) => Some(((None, None, None), rest)),
                None => match parse_record_member(s1, (None, None, None)) {
                    Some((f, s2)) => {
                        if s2.len() < s1.len() {
                            parse_record_rest(s2, f)
                        } else {
                            None
                        }
                    },
                    None => None,
                },
            };
            finish_record(fields)
        },
    }
}

/// The rest of an array after its first record: `, record` repeated, then
/// `]`. The records and what follows the bracket.
pub open spec fn parse_more(s: Seq<u8>) -> Option<(Seq<PasswordView>, Seq<u8>)>
    decreases s.len(),
{
    match token(s, 93) {
        Some(rest) => Some((Seq::empty(), rest)),
        None => match token(s, 44) {
            None => None,
            Some(s1) => match parse_record(s1) {
                None => None,
                Some((r, s2)) => {
                    if s2.len() < s.len() {
                        match parse_more(s2) {
                            Some((rs, rest)) => Some((seq![r] + rs, rest)),
                            None => None,
                        }
                    } else {
                        None
                    }
                },
            },
        },
    }
}

/// The array's records and what follows it.
pub open spec fn parse_array(s: Seq<u8>) -> Option<(Seq<PasswordView>, Seq<u8>)> {
    match token(s, 91) {
        None => None,
        Some(s1) => match token(s1, 93) {
            Some(rest) => Some((Seq::empty(), rest)),
            None => match parse_record(s1) {
                None => None,
                Some((r, s2)) => match parse_more(s2) {
                    Some((rs, rest)) => Some((seq![r] + rs, rest)),
                    None => None,
                },
            },
        },
    }
}

/// The record collection that a plaintext holds, if it is one: a JSON array
/// of record objects, with whitespace allowed between tokens.
pub open spec fn decode_spec(s: Seq<u8>) -> Option<Seq<PasswordView>> {
    match parse_array(s) {
        Some((rs, rest)) => {
            if skip_ws(rest).len() == 0 {
                Some(rs)
            } else {
                None
            }
        },
        None => None,
    }
}

/// The bytes of `s` from position `i` on.
pub open spec fn sfx(s: Seq<u8>, i: int) -> Seq<u8> {
    s.subrange(i, s.len() as int)
}

proof fn lemma_sfx(s: Seq<u8>, i: int, n: int)
    requires
        0 <= i,
        0 <= n,
        i + n <= s.len(),
    ensures
        sfx(s, i).len() == s.len() - i,
        sfx(s, i).skip(n) == sfx(s, i + n),
        i < s.len() ==> sfx(s, i)[0] == s[i],
        i < s.len() ==> sfx(s, i).drop_first() == sfx(s, i + 1),
{
    assert(sfx(s, i).skip(n) =~= sfx(s, i + n));
    if i < s.len() {
        assert(sfx(s, i).drop_first() =~= sfx(s, i + 1));
    }
}

fn skip_ws_exec(s: &[u8], start: usize) -> (j: usize)
    requires
        start <= s@.len(),
    ensures
        start <= j <= s@.len(),
        sfx(s@, j as int) == skip_ws(sfx(s@, start as int)),
{
    let mut i: usize = start;
    while i < s.len() && (s[i] == 32 || s[i] == 9 || s[i] == 10 || s[i] == 13)
        invariant
            start <= i <= s@.len(),
            skip_ws(sfx(s@, start as int)) == skip_ws(sfx(s@, i as int)),
        decreases s@.len() - i,
    {
        proof {
            lemma_sfx(s@, i as int, 0);
        }
        i = i + 1;
    }
    proof {
        lemma_sfx(s@, i as int, 0);
    }
    i
}

fn token_exec(s: &[u8], start: usize, t: u8) -> (r: Option<usize>)
    requires
        start <= s@.len(),
    ensures
        match r {
            Some(j) => start < j <= s@.len() && token(sfx(s@, start as int), t) == Some(
                sfx(s@, j as int),
            ),
            None => token(sfx(s@, start as int), t) is None,
        },
{
    let j = skip_ws_exec(s, start);
    proof {
        lemma_sfx(s@, j as int, 0);
    }
    if j < s.len() && s[j] == t {
        Some(j + 1)
    } else {
        None
    }
}

fn hex_value_exec(c: u8) -> (r: Option<u8>)
    ensures
        r == hex_value(c),
{
    if 48 <= c && c <= 57 {
        Some(c - 48)
    } else if 97 <= c && c <= 102 {
        Some(c - 87)
    } else if 65 <= c && c <= 70 {
        Some(c - 55)
    } else {
        None
    }
}

fn simple_escape_exec(e: u8) -> (r: Option<u8>)
    ensures
        r == simple_escape(e),
{
    if e == 34 {
        Some(34)
    } else if e == 92 {
        Some(92)
    } else if e == 47 {
        Some(47)
    } else if e == 98 {
        Some(8)
    } else if e == 102 {
        Some(12)
    } else if e == 110 {
        Some(10)
    } else if e == 114 {
        Some(13)
    } else if e == 116 {
        Some(9)
    } else {
        None
    }
}

fn hex4_exec(s: &[u8], i: usize) -> (r: Option<u32>)
    requires
        i + 4 <= s@.len(),
    ensures
        r == hex4(s@, i as int),
{
    let a = hex_value_exec(s[i]);
    let b = hex_value_exec(s[i + 1]);
    let c = hex_value_exec(s[i + 2]);
    let d = hex_value_exec(s[i + 3]);
    match (a, b, c, d) {
        (Some(a), Some(b), Some(c), Some(d)) => Some(
            a as u32 * 4096 + b as u32 * 256 + c as u32 * 16 + d as u32,
        ),
        _ => None,
    }
}

fn utf8_of_code_point_exec(c: u32) -> (r: Vec<u8>)
    requires
        c < 0x110000,
    ensures
        r@ == utf8_of_code_point(c),
{
    if c < 0x80 {
        vec![c as u8]
    } else if c < 0x800 {
        vec![(0xC0 + c / 64) as u8, (0x80 + c % 64) as u8]
    } else if c < 0x10000 {
        vec![(0xE0 + c / 4096) as u8, (0x80 + (c / 64) % 64) as u8, (0x80 + c % 64) as u8]
    } else {
        vec![
            (0xF0 + c / 262144) as u8,
            (0x80 + (c / 4096) % 64) as u8,
            (0x80 + (c / 64) % 64) as u8,
            (0x80 + c % 64) as u8,
        ]
    }
}

fn parse_escape_exec(s: &[u8], i: usize) -> (r: Option<(Vec<u8>, usize)>)
    requires
        i < s@.len(),
    ensures
        match r {
            Some((bs, n)) => 0 < n && i + n <= s@.len() && parse_escape(sfx(s@, i as int)) == Some(
                (bs@, n as int),
            ),
            None => parse_escape(sfx(s@, i as int)) is None,
        },
{
    reveal(parse_escape);
    let ghost t = sfx(s@, i as int);
    proof {
        lemma_sfx(s@, i as int, 0);
        assert(forall|k: int| 0 <= k < s@.len() - i ==> t[k] == s@[i + k]);
    }
    if s.len() - i < 2 || s[i] != 92 {
        return None;
    }
    if s[i + 1] == 117 {
        if s.len() - i < 6 {
            return None;
        }
        proof {
            assert(hex4(t, 2) == hex4(s@, i + 2));
        }
        let c = match hex4_exec(s, i + 2) {
            Some(c) => c,
            None => return None,
        };
        if 0xD800 <= c && c < 0xDC00 {
            if s.len() - i < 12 || s[i + 6] != 92 || s[i + 7] != 117 {
                return None;
            }
            proof {
                assert(hex4(t, 8) == hex4(s@, i + 8));
            }
            match hex4_exec(s, i + 8) {
                Some(d) => {
                    if 0xDC00 <= d && d < 0xE000 {
                        let bs = utf8_of_code_point_exec(0x10000 + (c - 0xD800) * 1024 + (d - 0xDC00));
                        Some((bs, 12))
                    } else {
                        None
                    }
                },
                None => None,
            }
        } else if 0xDC00 <= c && c < 0xE000 {
            None
        } else {
            Some((utf8_of_code_point_exec(c), 6))
        }
    } else {
        match simple_escape_exec(s[i + 1]) {
            Some(b) => Some((vec![b], 2)),
            None => None,
        }
    }
}

/// `x` with the bytes `o` put in front of its value.
pub open spec fn prefix_value(o: Seq<u8>, x: Option<(Seq<u8>, Seq<u8>)>) -> Option<
    (Seq<u8>, Seq<u8>),
> {
    match x {
        Some((v, rest)) => Some((o + v, rest)),
        None => None,
    }
}

proof fn lemma_prefix_value_push(o: Seq<u8>, b: u8, x: Option<(Seq<u8>, Seq<u8>)>)
    ensures
        prefix_value(o, prefix_value(seq![b], x)) == prefix_value(o.push(b), x),
{
    match x {
        Some((v, rest)) => {
            assert(o + (seq![b] + v) =~= o.push(b) + v);
        },
        None => {},
    }
}

proof fn lemma_prefix_value_append(o: Seq<u8>, bs: Seq<u8>, x: Option<(Seq<u8>, Seq<u8>)>)
    ensures
        prefix_value(o, prefix_value(bs, x)) == prefix_value(o + bs, x),
{
    match x {
        Some((v, rest)) => {
            assert(o + (bs + v) =~= (o + bs) + v);
        },
        None => {},
    }
}

fn append_bytes(out: &mut Vec<u8>, bs: &Vec<u8>)
    ensures
        final(out)@ == old(out)@ + bs@,
{
    let ghost start = out@;
    let mut i: usize = 0;
    while i < bs.len()
        invariant
            i <= bs@.len(),
            out@ == start + bs@.take(i as int),
        decreases bs@.len() - i,
    {
        out.push(bs[i]);
        assert(bs@.take(i as int + 1) =~= bs@.take(i as int).push(bs@[i as int]));
        assert(out@ =~= start + bs@.take(i as int + 1));
        i = i + 1;
    }
    assert(bs@.take(bs@.len() as int) =~= bs@);
}

/// Reads a string body from `start`: its bytes and the position after the closing quote.
fn parse_string_body_exec(s: &[u8], start: usize) -> (r: Option<(Vec<u8>, usize)>)
    requires
        start <= s@.len(),
    ensures
        match r {
            Some((v, j)) => start < j <= s@.len() && parse_string_body(sfx(s@, start as int))
                == Some((v@, sfx(s@, j as int))),
            None => parse_string_body(sfx(s@, start as int)) is None,
        },
{
    let mut out: Vec<u8> = Vec::new();
    let mut i: usize = start;
    assert(Seq::<u8>::empty() + sfx(s@, start as int) =~= sfx(s@, start as int));
    assert(prefix_value(out@, parse_string_body(sfx(s@, start as int))) =~= parse_string_body(
        sfx(s@, start as int),
    )) by {
        match parse_string_body(sfx(s@, start as int)) {
            Some((v, rest)) => {
                assert(out@ + v =~= v);
            },
            None => {},
        }
    }
    while i < s.len()
        invariant
            start <= i <= s@.len(),
            parse_string_body(sfx(s@, start as int)) == prefix_value(
                out@,
                parse_string_body(sfx(s@, i as int)),
            ),
        decreases s@.len() - i,
    {
        proof {
            lemma_sfx(s@, i as int, 0);
            lemma_sfx(s@, i as int, 1);
        }
        let b = s[i];
        if b == 34 {
            assert(out@ + Seq::<u8>::empty() =~= out@);
            return Some((out, i + 1));
        } else if b == 92 {
            match parse_escape_exec(s, i) {
                None => {
                    return None;
                },
                Some((bs, n)) => {
                    proof {
                        lemma_sfx(s@, i as int, n as int);
                        lemma_prefix_value_append(
                            out@,
                            bs@,
                            parse_string_body(sfx(s@, i as int + n as int)),
                        );
                    }
                    append_bytes(&mut out, &bs);
                    i = i + n;
                },
            }
        } else if b < 32 {
            return None;
        } else {
            proof {
                lemma_prefix_value_push(out@, b, parse_string_body(sfx(s@, i as int + 1)));
            }
            out.push(b);
            i = i + 1;
        }
    }
    None
}

fn bytes_equal(a: &[u8], b: &[u8]) -> (r: bool)
    ensures
        r == (a@ == b@),
{
    if a.len() != b.len() {
        return false;
    }
    let mut i: usize = 0;
    while i < a.len()
        invariant
            a@.len() == b@.len(),
            i <= a@.len(),
            forall|k: int| 0 <= k < i ==> a@[k] == b@[k],
        decreases a@.len() - i,
    {
        if a[i] != b[i] {
            return false;
        }
        i = i + 1;
    }
    assert(a@ =~= b@);
    true
}

/// Relies on String::from_utf8: it accepts exactly the valid UTF-8 byte
/// sequences and keeps the characters that they encode.
#[verifier::external_body]
fn string_from_utf8(bytes: Vec<u8>) -> (r: Option<String>)
    ensures
        r is Some <==> valid_utf8(bytes@),
        r matches Some(t) ==> t@ == decode_utf8(bytes@),
{
    String::from_utf8(bytes).ok()
}

fn skip_digits_exec(s: &[u8], start: usize) -> (j: usize)
    requires
        start <= s@.len(),
    ensures
        start <= j <= s@.len(),
        sfx(s@, j as int) == skip_digits(sfx(s@, start as int)),
        start < s@.len() && is_digit(s@[start as int]) ==> start < j,
{
    let mut i: usize = start;
    while i < s.len() && 48 <= s[i] && s[i] <= 57
        invariant
            start <= i <= s@.len(),
            skip_digits(sfx(s@, start as int)) == skip_digits(sfx(s@, i as int)),
        decreases s@.len() - i,
    {
        proof {
            lemma_sfx(s@, i as int, 0);
        }
        i = i + 1;
    }
    proof {
        lemma_sfx(s@, i as int, 0);
    }
    i
}

fn skip_int_part_exec(s: &[u8], i: usize) -> (r: Option<usize>)
    requires
        i <= s@.len(),
    ensures
        match r {
            Some(j) => i < j <= s@.len() && skip_int_part(sfx(s@, i as int)) == Some(
                sfx(s@, j as int),
            ),
            None => skip_int_part(sfx(s@, i as int)) is None,
        },
{
    proof {
        lemma_sfx(s@, i as int, 0);
    }
    if i < s.len() && s[i] == 48 {
        Some(i + 1)
    } else if i < s.len() && 48 <= s[i] && s[i] <= 57 {
        Some(skip_digits_exec(s, i))
    } else {
        None
    }
}

fn skip_fraction_exec(s: &[u8], i: usize) -> (r: Option<usize>)
    requires
        i <= s@.len(),
    ensures
        match r {
            Some(j) => i <= j <= s@.len() && skip_fraction(sfx(s@, i as int)) == Some(
                sfx(s@, j as int),
            ),
            None => skip_fraction(sfx(s@, i as int)) is None,
        },
{
    proof {
        lemma_sfx(s@, i as int, 0);
    }
    if i < s.len() && s[i] == 46 {
        proof {
            lemma_sfx(s@, i as int + 1, 0);
        }
        if i + 1 < s.len() && 48 <= s[i + 1] && s[i + 1] <= 57 {
            Some(skip_digits_exec(s, i + 1))
        } else {
            None
        }
    } else {
        Some(i)
    }
}

fn skip_exponent_exec(s: &[u8], i: usize) -> (r: Option<usize>)
    requires
        i <= s@.len(),
    ensures
        match r {
            Some(j) => i <= j <= s@.len() && skip_exponent(sfx(s@, i as int)) == Some(
                sfx(s@, j as int),
            ),
            None => skip_exponent(sfx(s@, i as int)) is None,
        },
{
    proof {
        lemma_sfx(s@, i as int, 0);
    }
    if i < s.len() && (s[i] == 101 || s[i] == 69) {
        let mut e: usize = i + 1;
        proof {
            lemma_sfx(s@, e as int, 0);
        }
        if e < s.len() && (s[e] == 43 || s[e] == 45) {
            e = e + 1;
        }
        proof {
            lemma_sfx(s@, e as int, 0);
        }
        if e < s.len() && 48 <= s[e] && s[e] <= 57 {
            Some(skip_digits_exec(s, e))
        } else {
            None
        }
    } else {
        Some(i)
    }
}

fn skip_number_exec(s: &[u8], start: usize) -> (r: Option<usize>)
    requires
        start < s@.len(),
    ensures
        match r {
            Some(j) => start < j <= s@.len() && skip_number(sfx(s@, start as int)) == Some(
                sfx(s@, j as int),
            ),
            None => skip_number(sfx(s@, start as int)) is None,
        },
{
    proof {
        lemma_sfx(s@, start as int, 0);
    }
    let i = if s[start] == 45 {
        start + 1
    } else {
        start
    };
    let i2 = match skip_int_part_exec(s, i) {
        Some(j) => j,
        None => return None,
    };
    let i3 = match skip_fraction_exec(s, i2) {
        Some(j) => j,
        None => return None,
    };
    skip_exponent_exec(s, i3)
}

fn skip_literal_exec(s: &[u8], start: usize, lit: &[u8]) -> (r: Option<usize>)
    requires
        start <= s@.len(),
        lit@.len() > 0,
    ensures
        match r {
            Some(j) => start < j <= s@.len() && skip_literal(sfx(s@, start as int), lit@) == Some(
                sfx(s@, j as int),
            ),
            None => skip_literal(sfx(s@, start as int), lit@) is None,
        },
{
    let ghost t = sfx(s@, start as int);
    proof {
        lemma_sfx(s@, start as int, 0);
        assert(forall|k: int| 0 <= k < s@.len() - start ==> t[k] == s@[start + k]);
    }
    if s.len() - start < lit.len() {
        return None;
    }
    let end = start + lit.len();
    let mut i: usize = 0;
    while i < lit.len()
        invariant
            i <= lit@.len(),
            end == start + lit@.len(),
            end <= s@.len(),
            start + lit@.len() <= s@.len(),
            t == sfx(s@, start as int),
            forall|k: int| 0 <= k < s@.len() - start ==> t[k] == s@[start + k],
            forall|k: int| 0 <= k < i ==> s@[start + k] == lit@[k],
        decreases lit@.len() - i,
    {
        assert(start + i < end);
        if s[start + i] != lit[i] {
            assert(t.take(lit@.len() as int)[i as int] != lit@[i as int]);
            return None;
        }
        i = i + 1;
    }
    assert(t.take(lit@.len() as int) =~= lit@);
    proof {
        lemma_sfx(s@, start as int, lit@.len() as int);
    }
    Some(start + lit.len())
}

/// Passes over one JSON value after optional whitespace.
fn skip_value_exec(s: &[u8], start: usize, depth: usize) -> (r: Option<usize>)
    requires
        start <= s@.len(),
    ensures
        match r {
            Some(j) => start < j <= s@.len() && skip_value(sfx(s@, start as int), depth as nat)
                == Some(sfx(s@, j as int)),
            None => skip_value(sfx(s@, start as int), depth as nat) is None,
        },
    decreases depth, 0int,
{
    let j = skip_ws_exec(s, start);
    proof {
        lemma_sfx(s@, j as int, 0);
    }
    if j >= s.len() {
        return None;
    }
    let b = s[j];
    if b == 34 {
        match parse_string_body_exec(s, j + 1) {
            Some((_, k)) => Some(k),
            None => None,
        }
    } else if b == 91 {
        if depth == 0 {
            return None;
        }
        match token_exec(s, j + 1, 93) {
            Some(k) => {
                return Some(k);
            },
            None => {},
        }
        match skip_value_exec(s, j + 1, depth - 1) {
            Some(r) => skip_elements_exec(s, r, depth - 1),
            None => None,
        }
    } else if b == 123 {
        if depth == 0 {
            return None;
        }
        match token_exec(s, j + 1, 125) {
            Some(k) => {
                return Some(k);
            },
            None => {},
        }
        match skip_member_exec(s, j + 1, depth - 1) {
            Some(r) => skip_members_exec(s, r, depth - 1),
            None => None,
        }
    } else if b == 116 {
        let lit: [u8; 4] = [116, 114, 117, 101];
        assert(lit@ =~= seq![116u8, 114u8, 117u8, 101u8]);
        skip_literal_exec(s, j, lit.as_slice())
    } else if b == 102 {
        let lit: [u8; 5] = [102, 97, 108, 115, 101];
        assert(lit@ =~= seq![102u8, 97u8, 108u8, 115u8, 101u8]);
        skip_literal_exec(s, j, lit.as_slice())
    } else if b == 110 {
        let lit: [u8; 4] = [110, 117, 108, 108];
        assert(lit@ =~= seq![110u8, 117u8, 108u8, 108u8]);
        skip_literal_exec(s, j, lit.as_slice())
    } else {
        skip_number_exec(s, j)
    }
}

/// Passes over the rest of an array after its first element.
fn skip_elements_exec(s: &[u8], start: usize, depth: usize) -> (r: Option<usize>)
    requires
        start <= s@.len(),
    ensures
        match r {
            Some(j) => start < j <= s@.len() && skip_elements(sfx(s@, start as int), depth as nat)
                == Some(sfx(s@, j as int)),
            None => skip_elements(sfx(s@, start as int), depth as nat) is None,
        },
    decreases depth, 1int,
{
    let mut i: usize = start;
    loop
        invariant
            start <= i <= s@.len(),
            skip_elements(sfx(s@, start as int), depth as nat) == skip_elements(
                sfx(s@, i as int),
                depth as nat,
            ),
        decreases s@.len() - i,
    {
        proof {
            lemma_sfx(s@, i as int, 0);
        }
        match token_exec(s, i, 93) {
            Some(k) => {
                return Some(k);
            },
            None => {},
        }
        let j1 = match token_exec(s, i, 44) {
            Some(k) => k,
            None => return None,
        };
        proof {
            lemma_sfx(s@, j1 as int, 0);
        }
        let r = match skip_value_exec(s, j1, depth) {
            Some(k) => k,
            None => return None,
        };
        proof {
            lemma_sfx(s@, r as int, 0);
        }
        i = r;
    }
}

/// Passes over one object member `"name": value`.
fn skip_member_exec(s: &[u8], start: usize, depth: usize) -> (r: Option<usize>)
    requires
        start <= s@.len(),
    ensures
        match r {
            Some(j) => start < j <= s@.len() && skip_member(sfx(s@, start as int), depth as nat)
                == Some(sfx(s@, j as int)),
            None => skip_member(sfx(s@, start as int), depth as nat) is None,
        },
    decreases depth, 1int,
{
    proof {
        lemma_sfx(s@, start as int, 0);
    }
    let i1 = match token_exec(s, start, 34) {
        Some(j) => j,
        None => return None,
    };
    let (_, i2) = match parse_string_body_exec(s, i1) {
        Some(x) => x,
        None => return None,
    };
    let i3 = match token_exec(s, i2, 58) {
        Some(j) => j,
        None => return None,
    };
    proof {
        lemma_sfx(s@, i3 as int, 0);
    }
    skip_value_exec(s, i3, depth)
}

/// Passes over the rest of an object after its first member.
fn skip_members_exec(s: &[u8], start: usize, depth: usize) -> (r: Option<usize>)
    requires
        start <= s@.len(),
    ensures
        match r {
            Some(j) => start < j <= s@.len() && skip_members(sfx(s@, start as int), depth as nat)
                == Some(sfx(s@, j as int)),
            None => skip_members(sfx(s@, start as int), depth as nat) is None,
        },
    decreases depth, 2int,
{
    let mut i: usize = start;
    loop
        invariant
            start <= i <= s@.len(),
            skip_members(sfx(s@, start as int), depth as nat) == skip_members(
                sfx(s@, i as int),
                depth as nat,
            ),
        decreases s@.len() - i,
    {
        proof {
            lemma_sfx(s@, i as int, 0);
        }
        match token_exec(s, i, 125) {
            Some(k) => {
                return Some(k);
            },
            None => {},
        }
        let j1 = match token_exec(s, i, 44) {
            Some(k) => k,
            None => return None,
        };
        proof {
            lemma_sfx(s@, j1 as int, 0);
        }
        let r = match skip_member_exec(s, j1, depth) {
            Some(k) => k,
            None => return None,
        };
        proof {
            lemma_sfx(s@, r as int, 0);
        }
        i = r;
    }
}

fn parse_text_exec(s: &[u8], start: usize) -> (r: Option<(String, usize)>)
    requires
        start <= s@.len(),
    ensures
        match r {
            Some((t, j)) => start < j <= s@.len() && parse_text(sfx(s@, start as int)) == Some(
                (t@, sfx(s@, j as int)),
            ),
            None => parse_text(sfx(s@, start as int)) is None,
        },
{
    let i1 = match token_exec(s, start, 34) {
        Some(j) => j,
        None => return None,
    };
    let (v, i2) = match parse_string_body_exec(s, i1) {
        Some(x) => x,
        None => return None,
    };
    match string_from_utf8(v) {
        Some(t) => Some((t, i2)),
        None => None,
    }
}

/// The texts of a record read so far, as held in memory.
pub type FieldTexts = (Option<String>, Option<String>, Option<String>);

pub open spec fn text_view(o: Option<String>) -> Option<Seq<char>> {
    match o {
        Some(t) => Some(t@),
        None => None,
    }
}

pub open spec fn fields_view(f: FieldTexts) -> Fields {
    (text_view(f.0), text_view(f.1), text_view(f.2))
}

fn parse_record_member_exec(s: &[u8], start: usize, f: FieldTexts) -> (r: Option<
    (FieldTexts, usize),
>)
    requires
        start <= s@.len(),
    ensures
        match r {
            Some((g, j)) => start < j <= s@.len() && parse_record_member(
                sfx(s@, start as int),
                fields_view(f),
            ) == Some((fields_view(g), sfx(s@, j as int))),
            None => parse_record_member(sfx(s@, start as int), fields_view(f)) is None,
        },
{
    reveal(parse_record_member);
    let domain: [u8; 6] = [100, 111, 109, 97, 105, 110];
    let username: [u8; 8] = [117, 115, 101, 114, 110, 97, 109, 101];
    let password: [u8; 8] = [112, 97, 115, 115, 119, 111, 114, 100];
    assert(domain@ =~= domain_key());
    assert(username@ =~= username_key());
    assert(password@ =~= password_key());
    let i1 = match token_exec(s, start, 34) {
        Some(j) => j,
        None => return None,
    };
    let (k, i2) = match parse_string_body_exec(s, i1) {
        Some(x) => x,
        None => return None,
    };
    let i3 = match token_exec(s, i2, 58) {
        Some(j) => j,
        None => return None,
    };
    let slot: usize = if bytes_equal(k.as_slice(), domain.as_slice()) {
        0
    } else if bytes_equal(k.as_slice(), username.as_slice()) {
        1
    } else if bytes_equal(k.as_slice(), password.as_slice()) {
        2
    } else {
        3
    };
    assert(slot as int == slot_of(k@));
    if slot == 3 {
        return match skip_value_exec(s, i3, VALUE_DEPTH) {
            Some(i4) => Some((f, i4)),
            None => None,
        };
    }
    let (d, u, p) = f;
    let filled = if slot == 0 {
        d.is_some()
    } else if slot == 1 {
        u.is_some()
    } else {
        p.is_some()
    };
    if filled {
        return None;
    }
    let (t, i4) = match parse_text_exec(s, i3) {
        Some(x) => x,
        None => return None,
    };
    if slot == 0 {
        Some(((Some(t), u, p), i4))
    } else if slot == 1 {
        Some(((d, Some(t), p), i4))
    } else {
        Some(((d, u, Some(t)), i4))
    }
}

fn parse_record_exec(s: &[u8], start: usize) -> (r: Option<(Password, usize)>)
    requires
        start <= s@.len(),
    ensures
        match r {
            Some((p, j)) => start < j <= s@.len() && parse_record(sfx(s@, start as int)) == Some(
                (p@, sfx(s@, j as int)),
            ),
            None => parse_record(sfx(s@, start as int)) is None,
        },
{
    reveal(parse_record);
    let i1 = match token_exec(s, start, 123) {
        Some(j) => j,
        None => return None,
    };
    match token_exec(s, i1, 125) {
        Some(_) => {
            return None;
        },
        None => {},
    }
    let (mut f, i2) = match parse_record_member_exec(s, i1, (None, None, None)) {
        Some(x) => x,
        None => return None,
    };
    let ghost target = parse_record_rest(sfx(s@, i2 as int), fields_view(f));
    assert(parse_record(sfx(s@, start as int)) == finish_record(target));
    let mut i: usize = i2;
    loop
        invariant
            start < i <= s@.len(),
            target == parse_record_rest(sfx(s@, i as int), fields_view(f)),
            parse_record(sfx(s@, start as int)) == finish_record(target),
        decreases s@.len() - i,
    {
        proof {
            lemma_sfx(s@, i as int, 0);
        }
        match token_exec(s, i, 125) {
            Some(end) => {
                return match f {
                    (Some(d), Some(u), Some(p)) => Some(
                        (Password { domain: d, username: u, password: p }, end),
                    ),
                    _ => None,
                };
            },
            None => {},
        }
        let j1 = match token_exec(s, i, 44) {
            Some(k) => k,
            None => return None,
        };
        let (g, r) = match parse_record_member_exec(s, j1, f) {
            Some(x) => x,
            None => return None,
        };
        proof {
            lemma_sfx(s@, r as int, 0);
        }
        f = g;
        i = r;
    }
}

/// `x` with the records `o` put in front of its value.
pub open spec fn prefix_records(o: Seq<PasswordView>, x: Option<(Seq<PasswordView>, Seq<u8>)>) -> Option<
    (Seq<PasswordView>, Seq<u8>),
> {
    match x {
        Some((v, rest)) => Some((o + v, rest)),
        None => None,
    }
}

/// Reads the records after the first one, through the closing bracket.
fn parse_more_exec(s: &[u8], start: usize) -> (r: Option<(Vec<Password>, usize)>)
    requires
        start <= s@.len(),
    ensures
        match r {
            Some((v, j)) => start < j <= s@.len() && parse_more(sfx(s@, start as int)) == Some(
                (passwords_view(v@), sfx(s@, j as int)),
            ),
            None => parse_more(sfx(s@, start as int)) is None,
        },
{
    let mut out: Vec<Password> = Vec::new();
    let mut i: usize = start;
    assert(prefix_records(passwords_view(out@), parse_more(sfx(s@, i as int))) == parse_more(
        sfx(s@, start as int),
    )) by {
        match parse_more(sfx(s@, start as int)) {
            Some((v, rest)) => {
                assert(passwords_view(out@) + v =~= v);
            },
            None => {},
        }
    }
    loop
        invariant
            start <= i <= s@.len(),
            parse_more(sfx(s@, start as int)) == prefix_records(
                passwords_view(out@),
                parse_more(sfx(s@, i as int)),
            ),
        decreases s@.len() - i,
    {
        proof {
            lemma_sfx(s@, i as int, 0);
        }
        match token_exec(s, i, 93) {
            Some(j) => {
                assert(passwords_view(out@) + Seq::<PasswordView>::empty() =~= passwords_view(
                    out@,
                ));
                return Some((out, j));
            },
            None => {},
        }
        let i3 = match token_exec(s, i, 44) {
            Some(j) => j,
            None => return None,
        };
        let (p, i4) = match parse_record_exec(s, i3) {
            Some(x) => x,
            None => return None,
        };
        proof {
            lemma_sfx(s@, i4 as int, 0);
            let o = passwords_view(out@);
            match parse_more(sfx(s@, i4 as int)) {
                Some((v, rest)) => {
                    assert(o + (seq![p@] + v) =~= o.push(p@) + v);
                },
                None => {},
            }
        }
        let ghost before = out@;
        let ghost pv = p@;
        out.push(p);
        assert(passwords_view(out@) =~= passwords_view(before).push(pv));
        i = i4;
    }
}

/// Reads a record collection in the vault's JSON form.
pub fn decode_records(bytes: &[u8]) -> (r: Result<Vec<Password>, Error>)
    ensures
        match r {
            Ok(v) => decode_spec(bytes@) == Some(passwords_view(v@)),
            Err(e) => decode_spec(bytes@) is None && e == Error::FormatError,
        },
{
    let s = bytes;
    proof {
        assert(sfx(s@, 0) =~= s@);
    }
    let i1 = match token_exec(s, 0, 91) {
        Some(j) => j,
        None => return Err(Error::FormatError),
    };
    let (out, end) = match token_exec(s, i1, 93) {
        Some(j) => {
            let out: Vec<Password> = Vec::new();
            assert(passwords_view(out@) =~= Seq::<PasswordView>::empty());
            (out, j)
        },
        None => {
            let (first, i2) = match parse_record_exec(s, i1) {
                Some(x) => x,
                None => return Err(Error::FormatError),
            };
            let (rest, j) = match parse_more_exec(s, i2) {
                Some(x) => x,
                None => return Err(Error::FormatError),
            };
            let mut out = rest;
            let ghost rv = passwords_view(out@);
            let ghost fv = first@;
            out.insert(0, first);
            assert(passwords_view(out@) =~= seq![fv] + rv);
            (out, j)
        },
    };
    let k = skip_ws_exec(s, end);
    if k == s.len() {
        proof {
            lemma_sfx(s@, k as int, 0);
        }
        Ok(out)
    } else {
        Err(Error::FormatError)
    }
}

proof fn lemma_skip_ws_stops(s: Seq<u8>)
    requires
        s.len() == 0 || !is_ws(s[0]),
    ensures
        skip_ws(s) == s,
{
}

proof fn lemma_token(t: u8, u: u8, rest: Seq<u8>)
    requires
        !is_ws(t),
    ensures
        token(seq![t] + rest, t) == Some(rest),
        u != t ==> token(seq![t] + rest, u) is None,
{
    let s = seq![t] + rest;
    lemma_skip_ws_stops(s);
    assert(s.drop_first() =~= rest);
}

proof fn lemma_hex_round_trip(d: u8)
    requires
        d < 16,
    ensures
        hex_value(hex_digit(d)) == Some(d),
{
}

proof fn lemma_escape_byte_parses(x: u8, t: Seq<u8>)
    requires
        x == 34 || x == 92 || x < 32,
    ensures
        parse_escape(escape_byte(x) + t) == Some((seq![x], escape_byte(x).len() as int)),
{
    reveal(parse_escape);
    let s = escape_byte(x) + t;
    if x != 34 && x != 92 && x != 8 && x != 12 && x != 10 && x != 13 && x != 9 {
        lemma_hex_round_trip(x / 16);
        lemma_hex_round_trip(x % 16);
        assert(s[1] == 117 && s[2] == 48 && s[3] == 48);
        assert(s[4] == hex_digit(x / 16) && s[5] == hex_digit(x % 16));
        assert((x / 16) * 16 + x % 16 == x);
        assert(hex4(s, 2) == Some(x as u32));
    }
}

proof fn lemma_parse_escaped(b: Seq<u8>, rest: Seq<u8>)
    ensures
        parse_string_body(escape_bytes(b) + seq![34u8] + rest) == Some((b, rest)),
    decreases b.len(),
{
    let s = escape_bytes(b) + seq![34u8] + rest;
    if b.len() == 0 {
        assert(s =~= seq![34u8] + rest);
        assert(s.drop_first() =~= rest);
    } else {
        let x = b[0];
        let t = escape_bytes(b.drop_first()) + seq![34u8] + rest;
        lemma_parse_escaped(b.drop_first(), rest);
        let e = escape_byte(x);
        assert(s =~= e + t);
        assert(b =~= seq![x] + b.drop_first());
        if x == 34 || x == 92 || x < 32 {
            assert(s[0] == 92);
            lemma_escape_byte_parses(x, t);
            assert(s.skip(e.len() as int) =~= t);
        } else {
            assert(s[0] == x);
            assert(s.drop_first() =~= t);
        }
    }
}

/// Bytes that a string literal holds as they are.
pub open spec fn plain_bytes(b: Seq<u8>) -> bool {
    forall|i: int| 0 <= i < b.len() ==> 32 <= #[trigger] b[i] && b[i] != 34 && b[i] != 92
}

proof fn lemma_escape_plain(b: Seq<u8>)
    requires
        plain_bytes(b),
    ensures
        escape_bytes(b) == b,
    decreases b.len(),
{
    if b.len() > 0 {
        lemma_escape_plain(b.drop_first());
        assert(b =~= seq![b[0]] + b.drop_first());
    }
}

proof fn lemma_parse_text(t: Seq<char>, rest: Seq<u8>)
    ensures
        parse_text(string_literal(t) + rest) == Some((t, rest)),
{
    let v = encode_utf8(t);
    assert(string_literal(t) + rest =~= seq![34u8] + (escape_bytes(v) + seq![34u8] + rest));
    lemma_token(34, 34, escape_bytes(v) + seq![34u8] + rest);
    lemma_parse_escaped(v, rest);
    encode_utf8_valid_utf8(t);
    encode_utf8_decode_utf8(t);
}

proof fn lemma_parse_record_member(key: Seq<u8>, t: Seq<char>, rest: Seq<u8>, f: Fields)
    requires
        plain_bytes(key),
        slot_of(key) < 3,
        !slot_filled(f, slot_of(key)),
    ensures
        parse_record_member(member_prefix(key) + string_literal(t) + rest, f) == Some(
            (fill_slot(f, slot_of(key), t), rest),
        ),
{
    reveal(parse_record_member);
    let s2 = seq![58u8] + (string_literal(t) + rest);
    let s1 = key + seq![34u8] + s2;
    assert(member_prefix(key) + string_literal(t) + rest =~= seq![34u8] + s1);
    lemma_token(34, 34, s1);
    lemma_escape_plain(key);
    lemma_parse_escaped(key, s2);
    lemma_token(58, 58, string_literal(t) + rest);
    lemma_parse_text(t, rest);
}

proof fn lemma_record_rest_step(key: Seq<u8>, t: Seq<char>, x: Seq<u8>, f: Fields)
    requires
        plain_bytes(key),
        slot_of(key) < 3,
        !slot_filled(f, slot_of(key)),
    ensures
        parse_record_rest(seq![44u8] + (member_prefix(key) + string_literal(t) + x), f)
            == parse_record_rest(x, fill_slot(f, slot_of(key), t)),
{
    let m = member_prefix(key) + string_literal(t) + x;
    lemma_token(44, 125, m);
    lemma_parse_record_member(key, t, x, f);
}

proof fn lemma_record_rest_end(rest: Seq<u8>, f: Fields)
    ensures
        parse_record_rest(seq![125u8] + rest, f) == Some((f, rest)),
{
    lemma_token(125, 125, rest);
}

proof fn lemma_parse_record(r: PasswordView, rest: Seq<u8>)
    ensures
        parse_record(encode_record(r) + rest) == Some((r, rest)),
{
    reveal(parse_record);
    let dk = domain_key();
    let uk = username_key();
    let pk = password_key();
    assert(plain_bytes(dk));
    assert(plain_bytes(uk));
    assert(plain_bytes(pk));
    assert(uk.len() != dk.len());
    assert(pk.len() != dk.len());
    assert(pk[0] != uk[0]);
    assert(slot_of(dk) == 0);
    assert(slot_of(uk) == 1);
    assert(slot_of(pk) == 2);
    let s6 = seq![125u8] + rest;
    let s5 = member_prefix(pk) + string_literal(r.password) + s6;
    let s4 = seq![44u8] + s5;
    let s3 = member_prefix(uk) + string_literal(r.username) + s4;
    let s2 = seq![44u8] + s3;
    let s1 = member_prefix(dk) + string_literal(r.domain) + s2;
    assert(encode_record(r) + rest =~= seq![123u8] + s1);
    lemma_token(123, 123, s1);
    assert(s1 =~= seq![34u8] + s1.drop_first());
    lemma_token(34, 125, s1.drop_first());
    let f0: Fields = (None, None, None);
    lemma_parse_record_member(dk, r.domain, s2, f0);
    let f1 = fill_slot(f0, 0, r.domain);
    lemma_record_rest_step(uk, r.username, s4, f1);
    let f2 = fill_slot(f1, 1, r.username);
    lemma_record_rest_step(pk, r.password, s6, f2);
    let f3 = fill_slot(f2, 2, r.password);
    lemma_record_rest_end(rest, f3);
}

proof fn lemma_parse_more(rs: Seq<PasswordView>, rest: Seq<u8>)
    ensures
        parse_more(encode_tail(rs) + seq![93u8] + rest) == Some((rs, rest)),
    decreases rs.len(),
{
    let s = encode_tail(rs) + seq![93u8] + rest;
    if rs.len() == 0 {
        assert(s =~= seq![93u8] + rest);
        lemma_token(93, 93, rest);
    } else {
        let t = encode_tail(rs.drop_first()) + seq![93u8] + rest;
        let s1 = encode_record(rs[0]) + t;
        assert(s =~= seq![44u8] + s1);
        lemma_token(44, 93, s1);
        lemma_parse_record(rs[0], t);
        lemma_parse_more(rs.drop_first(), rest);
        assert(rs =~= seq![rs[0]] + rs.drop_first());
    }
}

/// Decoding undoes encoding: every record collection, the empty one and
/// records with empty or escaped texts included, reads back as itself.
pub proof fn lemma_decode_encode(rs: Seq<PasswordView>)
    ensures
        decode_spec(encode_spec(rs)) == Some(rs),
{
    let s = encode_spec(rs);
    let e = Seq::<u8>::empty();
    lemma_skip_ws_stops(e);
    if rs.len() == 0 {
        assert(s =~= seq![91u8] + (seq![93u8] + e));
        lemma_token(91, 91, seq![93u8] + e);
        lemma_token(93, 93, e);
    } else {
        let t = encode_tail(rs.drop_first()) + seq![93u8] + e;
        let s1 = encode_record(rs[0]) + t;
        assert(s =~= seq![91u8] + s1);
        lemma_token(91, 91, s1);
        assert(s1 =~= seq![123u8] + s1.drop_first());
        lemma_token(123, 93, s1.drop_first());
        lemma_parse_record(rs[0], t);
        lemma_parse_more(rs.drop_first(), e);
        assert(rs =~= seq![rs[0]] + rs.drop_first());
    }
}

proof fn lemma_skip_ws_len(s: Seq<u8>)
    ensures
        skip_ws(s).len() <= s.len(),
    decreases s.len(),
{
    if s.len() > 0 && is_ws(s[0]) {
        lemma_skip_ws_len(s.drop_first());
    }
}

proof fn lemma_token_len(s: Seq<u8>, t: u8)
    ensures
        token(s, t) matches Some(r) ==> r.len() + 1 <= s.len(),
{
    lemma_skip_ws_len(s);
}

proof fn lemma_escape_single(b: u8)
    ensures
        escape_bytes(seq![b]) == escape_byte(b),
{
    assert(seq![b].drop_first() =~= Seq::<u8>::empty());
    assert(escape_bytes(seq![b]) =~= escape_byte(b) + escape_bytes(Seq::<u8>::empty()));
}

proof fn lemma_code_point_len(c: u32)
    requires
        c < 0x110000,
    ensures
        c < 0x80 ==> utf8_of_code_point(c).len() == 1,
        c >= 0x80 ==> plain_bytes(utf8_of_code_point(c)),
        utf8_of_code_point(c).len() <= 4,
        c < 0x10000 ==> utf8_of_code_point(c).len() <= 3,
{
    let u = utf8_of_code_point(c);
    if c >= 0x80 {
        assert(forall|i: int| 0 <= i < u.len() ==> u[i] >= 0x80);
    }
}

/// A re-escaped escape is no longer than the escape it was read from.
proof fn lemma_escape_len(s: Seq<u8>)
    ensures
        parse_escape(s) matches Some((bs, n)) ==> escape_bytes(bs).len() <= n,
{
    reveal(parse_escape);
    match parse_escape(s) {
        Some((bs, n)) => {
            if s[1] == 117 {
                let c = hex4(s, 2)->Some_0;
                if 0xD800 <= c < 0xDC00 {
                    let d = hex4(s, 8)->Some_0;
                    let cp = (0x10000 + (c - 0xD800) * 1024 + (d - 0xDC00)) as u32;
                    lemma_code_point_len(cp);
                    lemma_escape_plain(bs);
                } else {
                    lemma_code_point_len(c);
                    if c < 0x80 {
                        assert(bs =~= seq![bs[0]]);
                        lemma_escape_single(bs[0]);
                    } else {
                        lemma_escape_plain(bs);
                    }
                }
            } else {
                lemma_escape_single(bs[0]);
                assert(bs =~= seq![bs[0]]);
            }
        },
        None => {},
    }
}

/// The re-escaped body of a string literal is no longer than the body read.
proof fn lemma_string_body_len(s: Seq<u8>)
    ensures
        parse_string_body(s) matches Some((v, rest)) ==> escape_bytes(v).len() + rest.len() + 1
            <= s.len(),
    decreases s.len(),
{
    if s.len() > 0 && s[0] != 34 {
        if s[0] == 92 {
            match parse_escape(s) {
                Some((bs, n)) => {
                    if 0 < n <= s.len() {
                        lemma_string_body_len(s.skip(n));
                        lemma_escape_len(s);
                        match parse_string_body(s.skip(n)) {
                            Some((v, rest)) => {
                                lemma_escape_bytes_concat(bs, v);
                            },
                            None => {},
                        }
                    }
                },
                None => {},
            }
        } else if s[0] >= 32 {
            lemma_string_body_len(s.drop_first());
            match parse_string_body(s.drop_first()) {
                Some((v, rest)) => {
                    lemma_escape_bytes_concat(seq![s[0]], v);
                    lemma_escape_single(s[0]);
                },
                None => {},
            }
        }
    }
}

proof fn lemma_text_len(s: Seq<u8>)
    ensures
        parse_text(s) matches Some((t, rest)) ==> string_literal(t).len() + rest.len() <= s.len(),
{
    lemma_token_len(s, 34);
    match token(s, 34) {
        Some(s1) => {
            lemma_string_body_len(s1);
            match parse_string_body(s1) {
                Some((v, s2)) => {
                    if valid_utf8(v) {
                        decode_utf8_encode_utf8(v);
                    }
                },
                None => {},
            }
        },
        None => {},
    }
}

/// What a text in slot `key` adds to the canonical record: its member and a separator.
pub open spec fn slot_weight(o: Option<Seq<char>>, key: Seq<u8>) -> int {
    match o {
        Some(t) => member_prefix(key).len() + string_literal(t).len() + 1int,
        None => 0,
    }
}

pub open spec fn weight(f: Fields) -> int {
    slot_weight(f.0, domain_key()) + slot_weight(f.1, username_key()) + slot_weight(
        f.2,
        password_key(),
    )
}

proof fn lemma_member_len(s: Seq<u8>, f: Fields)
    ensures
        parse_record_member(s, f) matches Some((g, rest)) ==> rest.len() < s.len() ==> weight(g)
            + rest.len() <= weight(f) + s.len() + 1,
{
    reveal(parse_record_member);
    if let Some((g, rest)) = parse_record_member(s, f) {
        let s1 = token(s, 34)->Some_0;
        let (k, s2) = parse_string_body(s1)->Some_0;
        let s3 = token(s2, 58)->Some_0;
        lemma_token_len(s, 34);
        lemma_string_body_len(s1);
        lemma_token_len(s2, 58);
        let slot = slot_of(k);
        if slot < 3 {
            let (t, s4) = parse_text(s3)->Some_0;
            lemma_text_len(s3);
            assert(plain_bytes(domain_key()));
            assert(plain_bytes(username_key()));
            assert(plain_bytes(password_key()));
            lemma_escape_plain(k);
            assert(member_prefix(k).len() == k.len() + 3);
            assert(g == fill_slot(f, slot, t));
            assert(weight(g) == weight(f) + member_prefix(k).len() + string_literal(t).len() + 1);
        }
    }
}

proof fn lemma_record_rest_len(s: Seq<u8>, f: Fields)
    ensures
        parse_record_rest(s, f) matches Some((g, rest)) ==> weight(g) + rest.len() + 1 <= weight(
            f,
        ) + s.len(),
    decreases s.len(),
{
    lemma_token_len(s, 125);
    lemma_token_len(s, 44);
    if token(s, 125) is None {
        match token(s, 44) {
            Some(s1) => {
                lemma_member_len(s1, f);
                match parse_record_member(s1, f) {
                    Some((g, s2)) => {
                        if s1.len() < s.len() && s2.len() < s1.len() {
                            lemma_record_rest_len(s2, g);
                        }
                    },
                    None => {},
                }
            },
            None => {},
        }
    }
}

proof fn lemma_record_len(s: Seq<u8>)
    ensures
        parse_record(s) matches Some((r, rest)) ==> encode_record(r).len() + rest.len() <= s.len(),
{
    reveal(parse_record);
    lemma_token_len(s, 123);
    match token(s, 123) {
        Some(s1) => {
            if token(s1, 125) is None {
                let f0: Fields = (None, None, None);
                lemma_member_len(s1, f0);
                match parse_record_member(s1, f0) {
                    Some((f, s2)) => {
                        if s2.len() < s1.len() {
                            lemma_record_rest_len(s2, f);
                        }
                    },
                    None => {},
                }
            }
        },
        None => {},
    }
}

proof fn lemma_more_len(s: Seq<u8>)
    ensures
        parse_more(s) matches Some((rs, rest)) ==> encode_tail(rs).len() + rest.len() + 1
            <= s.len(),
    decreases s.len(),
{
    lemma_token_len(s, 93);
    lemma_token_len(s, 44);
    if token(s, 93) is None {
        match token(s, 44) {
            Some(s1) => {
                lemma_record_len(s1);
                match parse_record(s1) {
                    Some((r, s2)) => {
                        if s2.len() < s.len() {
                            lemma_more_len(s2);
                            match parse_more(s2) {
                                Some((rs, rest)) => {
                                    let all = seq![r] + rs;
                                    assert(all[0] == r);
                                    assert(all.drop_first() =~= rs);
                                },
                                None => {},
                            }
                        }
                    },
                    None => {},
                }
            },
            None => {},
        }
    }
}

/// The canonical form of a collection is never longer than any text that
/// decodes to it.
pub proof fn lemma_encode_no_longer(p: Seq<u8>)
    ensures
        decode_spec(p) matches Some(rs) ==> encode_spec(rs).len() <= p.len(),
{
    lemma_token_len(p, 91);
    match token(p, 91) {
        Some(s1) => {
            lemma_token_len(s1, 93);
            if token(s1, 93) is None {
                lemma_record_len(s1);
                match parse_record(s1) {
                    Some((r, s2)) => {
                        lemma_more_len(s2);
                        match parse_more(s2) {
                            Some((rs, rest)) => {
                                let all = seq![r] + rs;
                                assert(all[0] == r);
                                assert(all.drop_first() =~= rs);
                            },
                            None => {},
                        }
                    },
                    None => {},
                }
            }
        },
        None => {},
    }
}

proof fn lemma_tail_remove(rs: Seq<PasswordView>, i: int)
    requires
        0 <= i < rs.len(),
    ensures
        encode_tail(rs.remove(i)).len() + 1 + encode_record(rs[i]).len() == encode_tail(rs).len(),
    decreases i,
{
    if i == 0 {
        assert(rs.remove(0) =~= rs.drop_first());
    } else {
        lemma_tail_remove(rs.drop_first(), i - 1);
        let x = rs.remove(i);
        assert(x[0] == rs[0]);
        assert(x.drop_first() =~= rs.drop_first().remove(i - 1));
    }
}

/// Removing a record never lengthens the canonical form.
pub proof fn lemma_encode_remove(rs: Seq<PasswordView>, i: int)
    requires
        0 <= i < rs.len(),
    ensures
        encode_spec(rs.remove(i)).len() <= encode_spec(rs).len(),
{
    lemma_tail_remove(rs, i);
    assert(encode_tail(rs).len() == 1 + encode_record(rs[0]).len() + encode_tail(
        rs.drop_first(),
    ).len());
    let x = rs.remove(i);
    if x.len() > 0 {
        assert(encode_tail(x).len() == 1 + encode_record(x[0]).len() + encode_tail(
            x.drop_first(),
        ).len());
    }
}

} // verus!

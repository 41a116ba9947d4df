//! The on-disk record format: one self-describing structured line per
//! record, with fields `service`, `username`, `secret`, `length` and
//! `encoding`, the encoding tagged as `"Ascii85"`, `"Hexadecimal"`,
//! `"Base64"` or a named custom wrapper. Text fields are quoted, with
//! backslash escapes for quotes, backslashes and the control characters
//! that would break the line structure.

use vstd::prelude::*;
use crate::database::{Database, Password, PasswordV};
use crate::encoding::{Encoding, EncodingV};

verus! {

// ------------------------------------------------------------------
// String escaping
// ------------------------------------------------------------------

/// How one character appears inside a quoted field.
pub open spec fn escape_char(c: char) -> Seq<char> {
    if c == '"' {
        seq!['\\', '"']
    } else if c == '\\' {
        seq!['\\', '\\']
    } else if c == '\n' {
        seq!['\\', 'n']
    } else if c == '\r' {
        seq!['\\', 'r']
    } else if c == '\t' {
        seq!['\\', 't']
    } else {
        seq![c]
    }
}

/// The escaped form of a whole field.
pub open spec fn escape(s: Seq<char>) -> Seq<char>
    decreases s.len(),
{
    if s.len() == 0 {
        Seq::empty()
    } else {
        escape_char(s[0]) + escape(s.drop_first())
    }
}

/// The character an escape letter stands for.
pub open spec fn unesc_char(c: char) -> Option<char> {
    if c == '"' {
        Some('"')
    } else if c == '\\' {
        Some('\\')
    } else if c == 'n' {
        Some('\n')
    } else if c == 'r' {
        Some('\r')
    } else if c == 't' {
        Some('\t')
    } else {
        None
    }
}

/// Reads a quoted field body up to its closing quote: the field's text and
/// what follows the quote, or nothing when the text is not well formed.
pub open spec fn unescape(s: Seq<char>) -> Option<(Seq<char>, Seq<char>)>
    decreases s.len(),
{
    if s.len() == 0 {
        None
    } else if s[0] == '"' {
        Some((Seq::empty(), s.drop_first()))
    } else if s[0] == '\\' {
        if s.len() < 2 {
            None
        } else {
            match unesc_char(s[1]) {
                None => None,
                Some(c) => match unescape(s.skip(2)) {
                    None => None,
                    Some(p) => Some((seq![c] + p.0, p.1)),
                },
            }
        }
    } else if s[0] == '\n' || s[0] == '\r' || s[0] == '\t' {
        None
    } else {
        match unescape(s.drop_first()) {
            None => None,
            Some(p) => Some((seq![s[0]] + p.0, p.1)),
        }
    }
}

/// Reading back an escaped field recovers the field and what follows its
/// closing quote.
proof fn lemma_unescape_escape(t: Seq<char>, rest: Seq<char>)
    ensures
        unescape(escape(t) + seq!['"'] + rest) == Some((t, rest)),
    decreases t.len(),
{
    let s = escape(t) + seq!['"'] + rest;
    if t.len() == 0 {
        assert(escape(t) =~= Seq::<char>::empty());
        assert(s =~= seq!['"'] + rest);
        assert(s[0] == '"');
        assert(s.drop_first() =~= rest);
        assert(t =~= Seq::<char>::empty());
    } else {
        let c = t[0];
        let ec = escape_char(c);
        assert(escape(t) == ec + escape(t.drop_first()));
        lemma_unescape_escape(t.drop_first(), rest);
        let s2 = escape(t.drop_first()) + seq!['"'] + rest;
        if c == '"' || c == '\\' || c == '\n' || c == '\r' || c == '\t' {
            assert(ec.len() == 2 && ec[0] == '\\');
            assert(s[0] == '\\' && s[1] == ec[1]);
            assert(unesc_char(ec[1]) == Some(c));
            assert(s.skip(2) =~= s2);
            assert(seq![c] + t.drop_first() =~= t);
        } else {
            assert(ec =~= seq![c]);
            assert(s[0] == c);
            assert(s.drop_first() =~= s2);
            assert(seq![c] + t.drop_first() =~= t);
        }
    }
}

/// A field that reads back successfully was the escaped form of exactly
/// that text, followed by its closing quote.
proof fn lemma_unescape_sound(s: Seq<char>)
    ensures
        unescape(s) matches Some(p) ==> s == escape(p.0) + seq!['"'] + p.1,
    decreases s.len(),
{
    if unescape(s) is Some {
        let p = unescape(s).unwrap();
        if s[0] == '"' {
            assert(escape(p.0) =~= Seq::<char>::empty());
            assert(escape(p.0) + seq!['"'] + p.1 =~= s);
        } else if s[0] == '\\' {
            let c = unesc_char(s[1]).unwrap();
            lemma_unescape_sound(s.skip(2));
            let p2 = unescape(s.skip(2)).unwrap();
            assert(s.skip(2) == escape(p2.0) + seq!['"'] + p2.1);
            assert(p.0 == seq![c] + p2.0 && p.1 == p2.1);
            assert((seq![c] + p2.0)[0] == c);
            assert((seq![c] + p2.0).drop_first() =~= p2.0);
            assert(escape(p.0) == escape_char(c) + escape(p2.0));
            assert(escape_char(c) =~= seq!['\\', s[1]]);
            assert(s =~= seq!['\\', s[1]] + s.skip(2));
            assert(escape(p.0) + seq!['"'] + p.1 =~= s);
        } else {
            let c = s[0];
            lemma_unescape_sound(s.drop_first());
            let p2 = unescape(s.drop_first()).unwrap();
            assert(s.drop_first() == escape(p2.0) + seq!['"'] + p2.1);
            assert(p.0 == seq![c] + p2.0 && p.1 == p2.1);
            assert((seq![c] + p2.0)[0] == c);
            assert((seq![c] + p2.0).drop_first() =~= p2.0);
            assert(escape(p.0) == escape_char(c) + escape(p2.0));
            assert(escape_char(c) =~= seq![c]);
            assert(s =~= seq![c] + s.drop_first());
            assert(escape(p.0) + seq!['"'] + p.1 =~= s);
        }
    }
}

/// No line break appears in any character sequence here.
pub open spec fn no_newline(s: Seq<char>) -> bool {
    forall|i: int| 0 <= i < s.len() ==> s[i] != '\n'
}

proof fn lemma_no_newline_concat(a: Seq<char>, b: Seq<char>)
    requires
        no_newline(a),
        no_newline(b),
    ensures
        no_newline(a + b),
{
    assert forall|i: int| 0 <= i < (a + b).len() implies (a + b)[i] != '\n' by {
        if i < a.len() {
            assert((a + b)[i] == a[i]);
        } else {
            assert((a + b)[i] == b[i - a.len()]);
        }
    }
}

proof fn lemma_escape_no_newline(s: Seq<char>)
    ensures
        no_newline(escape(s)),
    decreases s.len(),
{
    if s.len() > 0 {
        lemma_escape_no_newline(s.drop_first());
        assert(no_newline(escape_char(s[0])));
        lemma_no_newline_concat(escape_char(s[0]), escape(s.drop_first()));
    }
}

// ------------------------------------------------------------------
// Decimal numbers
// ------------------------------------------------------------------

pub open spec fn is_digit_char(c: char) -> bool {
    48 <= c as u32 <= 57
}

/// The character of one decimal digit.
pub open spec fn dec_digit(v: nat) -> char
    recommends
        v < 10,
{
    ((v + 48) as u8) as char
}

/// The canonical decimal rendering of a number, most significant digit
/// first, no leading zeros.
pub open spec fn dec_of(n: nat) -> Seq<char>
    decreases n,
{
    if n < 10 {
        seq![dec_digit(n)]
    } else {
        dec_of(n / 10) + seq![dec_digit(n % 10)]
    }
}

/// The value of a run of decimal digit characters.
pub open spec fn dec_val(ds: Seq<char>) -> nat
    decreases ds.len(),
{
    if ds.len() == 0 {
        0
    } else {
        dec_val(ds.drop_last()) * 10 + ((ds.last() as u32 - 48) as nat)
    }
}

/// The length of the leading run of digit characters.
pub open spec fn digit_run(s: Seq<char>) -> int
    decreases s.len(),
{
    if s.len() > 0 && is_digit_char(s[0]) {
        1 + digit_run(s.drop_first())
    } else {
        0
    }
}

/// The leading run is in range and holds digits only.
proof fn lemma_digit_run_digits(s: Seq<char>)
    ensures
        0 <= digit_run(s) <= s.len(),
        forall|j: int| 0 <= j < digit_run(s) ==> is_digit_char(#[trigger] s[j]),
    decreases s.len(),
{
    if s.len() > 0 && is_digit_char(s[0]) {
        lemma_digit_run_digits(s.drop_first());
        assert forall|j: int| 0 <= j < digit_run(s) implies is_digit_char(#[trigger] s[j]) by {
            if j > 0 {
                assert(is_digit_char(s.drop_first()[j - 1]));
            }
        }
    }
}

/// A non-empty digit run without a leading zero has a positive value.
proof fn lemma_dec_val_pos(ds: Seq<char>)
    requires
        ds.len() >= 1,
        forall|i: int| 0 <= i < ds.len() ==> is_digit_char(#[trigger] ds[i]),
        ds[0] != '0',
    ensures
        dec_val(ds) >= 1,
    decreases ds.len(),
{
    if ds.len() == 1 {
        assert(ds.last() == ds[0]);
        vstd::utf8::char_u32_cast(ds[0], ds[0] as u32);
        assert(('0' as u32) == 48);
        assert(ds[0] as u32 != 48) by {
            if ds[0] as u32 == 48 {
                vstd::utf8::char_u32_cast('0', '0' as u32);
            }
        }
    } else {
        assert(ds.drop_last()[0] == ds[0]);
        assert(forall|i: int|
            0 <= i < ds.drop_last().len() ==> is_digit_char(#[trigger] ds.drop_last()[i]));
        lemma_dec_val_pos(ds.drop_last());
        assert(dec_val(ds.drop_last()) * 10 >= 10);
    }
}

/// Canonical digit runs are recovered exactly from their value.
proof fn lemma_dec_canonical(ds: Seq<char>)
    requires
        ds.len() >= 1,
        forall|i: int| 0 <= i < ds.len() ==> is_digit_char(#[trigger] ds[i]),
        ds[0] != '0' || ds.len() == 1,
    ensures
        dec_of(dec_val(ds)) == ds,
    decreases ds.len(),
{
    let d = ds.last();
    assert(d == ds[ds.len() - 1]);
    assert(is_digit_char(ds[ds.len() - 1]));
    let dv = (d as u32 - 48) as nat;
    assert(dv < 10);
    vstd::utf8::char_u32_cast(d, d as u32);
    assert(dec_digit(dv) as u32 == d as u32);
    vstd::utf8::char_u32_cast(dec_digit(dv), dec_digit(dv) as u32);
    assert(dec_digit(dv) == d);
    if ds.len() == 1 {
        assert(ds.drop_last() =~= Seq::<char>::empty());
        assert(dec_val(Seq::<char>::empty()) == 0);
        assert(dec_val(ds) == dv);
        assert(dec_of(dv) =~= seq![dec_digit(dv)]);
        assert(seq![d] =~= ds);
    } else {
        let a = ds.drop_last();
        assert(a[0] == ds[0] && ds[0] != '0');
        assert(forall|i: int| 0 <= i < a.len() ==> is_digit_char(#[trigger] a[i]));
        lemma_dec_val_pos(a);
        lemma_dec_canonical(a);
        let v = dec_val(ds);
        assert(v == dec_val(a) * 10 + dv);
        assert(v >= 10);
        assert(v / 10 == dec_val(a) && v % 10 == dv) by (nonlinear_arith)
            requires
                v == dec_val(a) * 10 + dv,
                dv < 10,
                dec_val(a) >= 0,
        ;
        assert(dec_of(v) == dec_of(dec_val(a)) + seq![dec_digit(dv)]);
        assert(a + seq![d] =~= ds);
    }
}

/// Reads a canonical decimal number that fits the machine and what follows
/// it.
pub open spec fn parse_nat(s: Seq<char>) -> Option<(nat, Seq<char>)> {
    let k = digit_run(s);
    if k == 0 {
        None
    } else if s[0] == '0' && k > 1 {
        None
    } else if dec_val(s.take(k)) > usize::MAX {
        None
    } else {
        Some((dec_val(s.take(k)), s.skip(k)))
    }
}

/// The canonical rendering is non-empty, all digits, has no leading zero,
/// and carries the value it was made from.
proof fn lemma_dec_of_digits(n: nat)
    ensures
        dec_of(n).len() >= 1,
        forall|i: int| 0 <= i < dec_of(n).len() ==> is_digit_char(#[trigger] dec_of(n)[i]),
        n >= 1 ==> dec_of(n)[0] != '0',
        dec_val(dec_of(n)) == n,
        no_newline(dec_of(n)),
    decreases n,
{
    if n < 10 {
        assert(dec_digit(n) as u32 == n + 48);
        if n >= 1 {
            assert(dec_digit(n) as u32 != 48);
            assert(dec_digit(n) != '0');
        }
        assert(dec_val(dec_of(n)) == dec_val(Seq::<char>::empty()) * 10 + n) by {
            assert(dec_of(n).drop_last() =~= Seq::<char>::empty());
        }
    } else {
        lemma_dec_of_digits(n / 10);
        let d = dec_digit(n % 10);
        assert(d as u32 == n % 10 + 48);
        let ds = dec_of(n);
        assert(ds == dec_of(n / 10) + seq![d]);
        assert(ds.drop_last() =~= dec_of(n / 10));
        assert(ds.last() == d);
        assert(dec_val(ds) == (n / 10) * 10 + n % 10);
        assert((n / 10) * 10 + n % 10 == n);
        assert(ds[0] == dec_of(n / 10)[0]);
        assert forall|i: int| 0 <= i < ds.len() implies is_digit_char(#[trigger] ds[i]) by {
            if i < dec_of(n / 10).len() {
                assert(ds[i] == dec_of(n / 10)[i]);
            } else {
                assert(ds[i] == d);
            }
        }
        assert forall|i: int| 0 <= i < ds.len() implies ds[i] != '\n' by {
            assert(is_digit_char(ds[i]));
        }
    }
    assert forall|i: int| 0 <= i < dec_of(n).len() implies dec_of(n)[i] != '\n' by {
        assert(is_digit_char(dec_of(n)[i]));
    }
}

/// The digit run of digits followed by a non-digit is exactly those digits.
proof fn lemma_digit_run_concat(ds: Seq<char>, rest: Seq<char>)
    requires
        forall|i: int| 0 <= i < ds.len() ==> is_digit_char(#[trigger] ds[i]),
        rest.len() == 0 || !is_digit_char(rest[0]),
    ensures
        digit_run(ds + rest) == ds.len(),
    decreases ds.len(),
{
    if ds.len() == 0 {
        assert(ds + rest =~= rest);
    } else {
        assert((ds + rest)[0] == ds[0]);
        assert((ds + rest).drop_first() =~= ds.drop_first() + rest);
        lemma_digit_run_concat(ds.drop_first(), rest);
    }
}

/// Growing a digit run never shrinks its value.
proof fn lemma_dec_val_prefix(a: Seq<char>, b: Seq<char>)
    ensures
        dec_val(a + b) >= dec_val(a),
    decreases b.len(),
{
    if b.len() == 0 {
        assert(a + b =~= a);
    } else {
        lemma_dec_val_prefix(a, b.drop_last());
        assert((a + b).drop_last() =~= a + b.drop_last());
        assert(dec_val(a + b) == dec_val(a + b.drop_last()) * 10 + (((a + b).last() as u32
            - 48) as nat));
        assert(dec_val(a + b.drop_last()) * 10 >= dec_val(a + b.drop_last()));
    }
}

/// Reading back a rendered number recovers it and what follows.
proof fn lemma_parse_nat_of(n: nat, rest: Seq<char>)
    requires
        n <= usize::MAX,
        rest.len() == 0 || !is_digit_char(rest[0]),
    ensures
        parse_nat(dec_of(n) + rest) == Some((n, rest)),
{
    lemma_dec_of_digits(n);
    let ds = dec_of(n);
    let s = ds + rest;
    lemma_digit_run_concat(ds, rest);
    let k = digit_run(s);
    assert(k == ds.len());
    assert(s.take(k) =~= ds);
    assert(s.skip(k) =~= rest);
    assert(s[0] == ds[0]);
    if s[0] == '0' {
        assert(n == 0) by {
            if n >= 1 {
                assert(ds[0] != '0');
            }
        }
        assert(ds.len() == 1);
    }
}

/// A number that reads back successfully was written canonically.
proof fn lemma_parse_nat_sound(s: Seq<char>)
    ensures
        parse_nat(s) matches Some(t) ==> s == dec_of(t.0) + t.1,
{
    if parse_nat(s) is Some {
        let t = parse_nat(s).unwrap();
        let k = digit_run(s);
        lemma_digit_run_digits(s);
        let ds = s.take(k);
        assert(ds.len() == k >= 1);
        assert(forall|i: int| 0 <= i < ds.len() ==> is_digit_char(#[trigger] ds[i])) by {
            assert(forall|i: int| 0 <= i < k ==> ds[i] == s[i]);
        }
        assert(ds[0] == s[0]);
        lemma_dec_canonical(ds);
        assert(t.0 == dec_val(ds) && t.1 == s.skip(k));
        assert(dec_of(t.0) + t.1 =~= s);
    }
}

// ------------------------------------------------------------------
// The stored line
// ------------------------------------------------------------------

/// The opening of a line, through the opening quote of `service`.
pub open spec fn lit_head() -> Seq<char> {
    seq!['{', '"', 's', 'e', 'r', 'v', 'i', 'c', 'e', '"', ':', '"']
}

/// Between the close of `service` and the opening quote of `username`.
pub open spec fn lit_user() -> Seq<char> {
    seq![',', '"', 'u', 's', 'e', 'r', 'n', 'a', 'm', 'e', '"', ':', '"']
}

/// Between the close of `username` and the opening quote of `secret`.
pub open spec fn lit_secret() -> Seq<char> {
    seq![',', '"', 's', 'e', 'c', 'r', 'e', 't', '"', ':', '"']
}

/// Between the close of `secret` and the digits of `length`.
pub open spec fn lit_len() -> Seq<char> {
    seq![',', '"', 'l', 'e', 'n', 'g', 't', 'h', '"', ':']
}

/// Between the digits of `length` and the encoding tag.
pub open spec fn lit_enc() -> Seq<char> {
    seq![',', '"', 'e', 'n', 'c', 'o', 'd', 'i', 'n', 'g', '"', ':']
}

/// The closing brace of a line.
pub open spec fn lit_end() -> Seq<char> {
    seq!['}']
}

/// The tag of the Ascii85 variant.
pub open spec fn lit_a85() -> Seq<char> {
    seq!['"', 'A', 's', 'c', 'i', 'i', '8', '5', '"']
}

/// The tag of the Hexadecimal variant.
pub open spec fn lit_hex() -> Seq<char> {
    seq!['"', 'H', 'e', 'x', 'a', 'd', 'e', 'c', 'i', 'm', 'a', 'l', '"']
}

/// The tag of the Base64 variant.
pub open spec fn lit_b64() -> Seq<char> {
    seq!['"', 'B', 'a', 's', 'e', '6', '4', '"']
}

/// The wrapper of a named custom variant, through the opening quote of its
/// name.
pub open spec fn lit_unk_open() -> Seq<char> {
    seq![
        '{', '"', 'v', 'a', 'r', 'i', 'a', 'n', 't', '"', ':', '"', 'U', 'n', 'k', 'n', 'o',
        'w', 'n', '"', ',', '"', 'f', 'i', 'e', 'l', 'd', 's', '"', ':', '[', '"',
    ]
}

/// After the closing quote of a custom variant's name.
pub open spec fn lit_unk_close() -> Seq<char> {
    seq![']', '}']
}

/// Removes an expected literal from the front, or nothing when it is not
/// there.
pub open spec fn strip(s: Seq<char>, p: Seq<char>) -> Option<Seq<char>> {
    if p.is_prefix_of(s) {
        Some(s.skip(p.len() as int))
    } else {
        None
    }
}

proof fn lemma_strip_concat(p: Seq<char>, rest: Seq<char>)
    ensures
        strip(p + rest, p) == Some(rest),
{
    assert((p + rest).subrange(0, p.len() as int) =~= p);
    assert(p.is_prefix_of(p + rest));
    assert((p + rest).skip(p.len() as int) =~= rest);
}

/// The stored text of an encoding variant.
pub open spec fn enc_text(e: EncodingV) -> Seq<char> {
    match e {
        EncodingV::Ascii85 => lit_a85(),
        EncodingV::Hexadecimal => lit_hex(),
        EncodingV::Base64 => lit_b64(),
        EncodingV::Unknown(name) => lit_unk_open() + escape(name) + seq!['"'] + lit_unk_close(),
    }
}

/// Reads an encoding tag and what follows it.
pub open spec fn parse_enc(s: Seq<char>) -> Option<(EncodingV, Seq<char>)> {
    if lit_a85().is_prefix_of(s) {
        Some((EncodingV::Ascii85, s.skip(lit_a85().len() as int)))
    } else if lit_hex().is_prefix_of(s) {
        Some((EncodingV::Hexadecimal, s.skip(lit_hex().len() as int)))
    } else if lit_b64().is_prefix_of(s) {
        Some((EncodingV::Base64, s.skip(lit_b64().len() as int)))
    } else {
        match strip(s, lit_unk_open()) {
            None => None,
            Some(s1) => match unescape(s1) {
                None => None,
                Some(p) => match strip(p.1, lit_unk_close()) {
                    None => None,
                    Some(s2) => Some((EncodingV::Unknown(p.0), s2)),
                },
            },
        }
    }
}

/// Reading back a stored encoding tag recovers the variant and what
/// follows.
proof fn lemma_parse_enc_of(e: EncodingV, rest: Seq<char>)
    ensures
        parse_enc(enc_text(e) + rest) == Some((e, rest)),
{
    let s = enc_text(e) + rest;
    match e {
        EncodingV::Ascii85 => {
            assert(s.subrange(0, 9) =~= lit_a85());
            assert(lit_a85().is_prefix_of(s));
            assert(s.skip(9) =~= rest);
        },
        EncodingV::Hexadecimal => {
            if lit_a85().is_prefix_of(s) {
                assert(s.subrange(0, 9)[1] == s[1]);
                assert(s[1] == 'H' && lit_a85()[1] == 'A');
            }
            assert(s.subrange(0, 13) =~= lit_hex());
            assert(lit_hex().is_prefix_of(s));
            assert(s.skip(13) =~= rest);
        },
        EncodingV::Base64 => {
            if lit_a85().is_prefix_of(s) {
                assert(s.subrange(0, 9)[1] == s[1]);
                assert(s[1] == 'a' && lit_a85()[1] == 'A');
            }
            if lit_hex().is_prefix_of(s) {
                assert(s.subrange(0, 13)[1] == s[1]);
                assert(s[1] == 'a' && lit_hex()[1] == 'H');
            }
            assert(s.subrange(0, 8) =~= lit_b64());
            assert(lit_b64().is_prefix_of(s));
            assert(s.skip(8) =~= rest);
        },
        EncodingV::Unknown(name) => {
            assert(s[0] == '{');
            if lit_a85().is_prefix_of(s) {
                assert(s.subrange(0, 9)[0] == s[0]);
            }
            if lit_hex().is_prefix_of(s) {
                assert(s.subrange(0, 13)[0] == s[0]);
            }
            if lit_b64().is_prefix_of(s) {
                assert(s.subrange(0, 8)[0] == s[0]);
            }
            let tail1 = escape(name) + seq!['"'] + (lit_unk_close() + rest);
            assert(s =~= lit_unk_open() + tail1);
            lemma_strip_concat(lit_unk_open(), tail1);
            lemma_unescape_escape(name, lit_unk_close() + rest);
            lemma_strip_concat(lit_unk_close(), rest);
        },
    }
}

/// An encoding tag that reads back successfully was the stored text of
/// exactly that variant.
proof fn lemma_parse_enc_sound(s: Seq<char>)
    ensures
        parse_enc(s) matches Some(t) ==> s == enc_text(t.0) + t.1,
{
    if parse_enc(s) is Some {
        let t = parse_enc(s).unwrap();
        if lit_a85().is_prefix_of(s) {
            assert(s.subrange(0, 9) =~= lit_a85());
            assert(enc_text(t.0) + t.1 =~= s);
        } else if lit_hex().is_prefix_of(s) {
            assert(s.subrange(0, 13) =~= lit_hex());
            assert(enc_text(t.0) + t.1 =~= s);
        } else if lit_b64().is_prefix_of(s) {
            assert(s.subrange(0, 8) =~= lit_b64());
            assert(enc_text(t.0) + t.1 =~= s);
        } else {
            let s1 = strip(s, lit_unk_open()).unwrap();
            assert(s.subrange(0, lit_unk_open().len() as int) =~= lit_unk_open());
            assert(s =~= lit_unk_open() + s1);
            lemma_unescape_sound(s1);
            let p = unescape(s1).unwrap();
            assert(s1 == escape(p.0) + seq!['"'] + p.1);
            let s2 = strip(p.1, lit_unk_close()).unwrap();
            assert(p.1.subrange(0, 2) =~= lit_unk_close());
            assert(p.1 =~= lit_unk_close() + s2);
            assert(t.0 == EncodingV::Unknown(p.0) && t.1 == s2);
            assert(enc_text(t.0) == lit_unk_open() + escape(p.0) + seq!['"'] + lit_unk_close());
            assert(enc_text(t.0) + t.1 =~= s);
        }
    }
}

/// The stored line for one record: fields `service`, `username`, `secret`,
/// `length`, `encoding`, with the tags `"Ascii85"`, `"Hexadecimal"`,
/// `"Base64"` or the named custom wrapper, exactly as existing files hold
/// them.
pub open spec fn record_line(p: PasswordV) -> Seq<char> {
    lit_head() + escape(p.service) + seq!['"'] + lit_user() + escape(p.username) + seq!['"']
        + lit_secret() + escape(p.secret) + seq!['"'] + lit_len() + dec_of(p.length as nat)
        + lit_enc() + enc_text(p.encoding) + lit_end()
}

/// What one stored line holds: the record it was written from, or nothing
/// when the line is not a well-formed record.
pub open spec fn parse_record_spec(s: Seq<char>) -> Option<PasswordV> {
    match strip(s, lit_head()) {
        None => None,
        Some(s1) => match unescape(s1) {
            None => None,
            Some(svc) => match strip(svc.1, lit_user()) {
                None => None,
                Some(s3) => match unescape(s3) {
                    None => None,
                    Some(user) => match strip(user.1, lit_secret()) {
                        None => None,
                        Some(s5) => match unescape(s5) {
                            None => None,
                            Some(sec) => match strip(sec.1, lit_len()) {
                                None => None,
                                Some(s7) => match parse_nat(s7) {
                                    None => None,
                                    Some(num) => match strip(num.1, lit_enc()) {
                                        None => None,
                                        Some(s9) => match parse_enc(s9) {
                                            None => None,
                                            Some(enc) => match strip(enc.1, lit_end()) {
                                                None => None,
                                                Some(s11) => if s11.len() == 0 {
                                                    Some(
                                                        PasswordV {
                                                            service: svc.0,
                                                            username: user.0,
                                                            secret: sec.0,
                                                            length: num.0 as usize,
                                                            encoding: enc.0,
                                                        },
                                                    )
                                                } else {
                                                    None
                                                },
                                            },
                                        },
                                    },
                                },
                            },
                        },
                    },
                },
            },
        },
    }
}

/// Reading back the stored line of any record recovers that record field
/// by field.
#[verifier::rlimit(100)]
pub proof fn lemma_record_round_trip(p: PasswordV)
    ensures
        parse_record_spec(record_line(p)) == Some(p),
{
    let s_end = lit_end() + Seq::<char>::empty();
    let s_enc = enc_text(p.encoding) + s_end;
    let s_lenc = lit_enc() + s_enc;
    let s_num = dec_of(p.length as nat) + s_lenc;
    let s_llen = lit_len() + s_num;
    let s_sec = escape(p.secret) + seq!['"'] + s_llen;
    let s_lsec = lit_secret() + s_sec;
    let s_user = escape(p.username) + seq!['"'] + s_lsec;
    let s_luser = lit_user() + s_user;
    let s_svc = escape(p.service) + seq!['"'] + s_luser;
    assert(record_line(p) =~= lit_head() + s_svc);
    lemma_strip_concat(lit_head(), s_svc);
    lemma_unescape_escape(p.service, s_luser);
    lemma_strip_concat(lit_user(), s_user);
    lemma_unescape_escape(p.username, s_lsec);
    lemma_strip_concat(lit_secret(), s_sec);
    lemma_unescape_escape(p.secret, s_llen);
    lemma_strip_concat(lit_len(), s_num);
    assert(s_lenc[0] == ',');
    assert(!is_digit_char(','));
    lemma_parse_nat_of(p.length as nat, s_lenc);
    lemma_strip_concat(lit_enc(), s_enc);
    lemma_parse_enc_of(p.encoding, s_end);
    assert(s_end =~= lit_end() + Seq::<char>::empty());
    lemma_strip_concat(lit_end(), Seq::<char>::empty());
    assert(parse_record_spec(record_line(p)) == Some(
        PasswordV {
            service: p.service,
            username: p.username,
            secret: p.secret,
            length: (p.length as nat) as usize,
            encoding: p.encoding,
        },
    ));
    assert((p.length as nat) as usize == p.length);
}

/// A line that reads back as a record is exactly that record's stored
/// line: the format admits no second spelling of a record.
#[verifier::rlimit(100)]
pub proof fn lemma_parse_record_sound(s: Seq<char>)
    ensures
        parse_record_spec(s) matches Some(pv) ==> s == record_line(pv),
{
    if parse_record_spec(s) is Some {
        let pv = parse_record_spec(s).unwrap();
        let s1 = strip(s, lit_head()).unwrap();
        assert(s.subrange(0, lit_head().len() as int) =~= lit_head());
        assert(s =~= lit_head() + s1);
        lemma_unescape_sound(s1);
        let svc = unescape(s1).unwrap();
        let s3 = strip(svc.1, lit_user()).unwrap();
        assert(svc.1.subrange(0, lit_user().len() as int) =~= lit_user());
        assert(svc.1 =~= lit_user() + s3);
        lemma_unescape_sound(s3);
        let user = unescape(s3).unwrap();
        let s5 = strip(user.1, lit_secret()).unwrap();
        assert(user.1.subrange(0, lit_secret().len() as int) =~= lit_secret());
        assert(user.1 =~= lit_secret() + s5);
        lemma_unescape_sound(s5);
        let sec = unescape(s5).unwrap();
        let s7 = strip(sec.1, lit_len()).unwrap();
        assert(sec.1.subrange(0, lit_len().len() as int) =~= lit_len());
        assert(sec.1 =~= lit_len() + s7);
        lemma_parse_nat_sound(s7);
        let num = parse_nat(s7).unwrap();
        let s9 = strip(num.1, lit_enc()).unwrap();
        assert(num.1.subrange(0, lit_enc().len() as int) =~= lit_enc());
        assert(num.1 =~= lit_enc() + s9);
        lemma_parse_enc_sound(s9);
        let enc = parse_enc(s9).unwrap();
        let s11 = strip(enc.1, lit_end()).unwrap();
        assert(enc.1.subrange(0, lit_end().len() as int) =~= lit_end());
        assert(s11.len() == 0);
        assert(enc.1 =~= lit_end());
        assert(pv.service == svc.0 && pv.username == user.0 && pv.secret == sec.0 && pv.length
            == num.0 as usize && pv.encoding == enc.0);
        assert(num.0 <= usize::MAX);
        assert(pv.length as nat == num.0);
        assert(record_line(pv) =~= s);
    }
}

/// A stored line never holds a line break.
proof fn lemma_record_line_no_newline(p: PasswordV)
    ensures
        no_newline(record_line(p)),
{
    lemma_escape_no_newline(p.service);
    lemma_escape_no_newline(p.username);
    lemma_escape_no_newline(p.secret);
    lemma_dec_of_digits(p.length as nat);
    assert(no_newline(lit_head()));
    assert(no_newline(lit_user()));
    assert(no_newline(lit_secret()));
    assert(no_newline(lit_len()));
    assert(no_newline(lit_enc()));
    assert(no_newline(lit_end()));
    assert(no_newline(seq!['"']));
    let q = seq!['"'];
    match p.encoding {
        EncodingV::Ascii85 => {
            assert(no_newline(enc_text(p.encoding)));
        },
        EncodingV::Hexadecimal => {
            assert(no_newline(enc_text(p.encoding)));
        },
        EncodingV::Base64 => {
            assert(no_newline(enc_text(p.encoding)));
        },
        EncodingV::Unknown(name) => {
            lemma_escape_no_newline(name);
            assert(no_newline(lit_unk_open()));
            assert(no_newline(lit_unk_close()));
            lemma_no_newline_concat(lit_unk_open(), escape(name));
            lemma_no_newline_concat(lit_unk_open() + escape(name), q);
            lemma_no_newline_concat(lit_unk_open() + escape(name) + q, lit_unk_close());
            assert(enc_text(p.encoding) == lit_unk_open() + escape(name) + q + lit_unk_close());
        },
    }
    lemma_no_newline_concat(lit_head(), escape(p.service));
    lemma_no_newline_concat(lit_head() + escape(p.service), q);
    lemma_no_newline_concat(lit_head() + escape(p.service) + q, lit_user());
    lemma_no_newline_concat(lit_head() + escape(p.service) + q + lit_user(), escape(p.username));
    lemma_no_newline_concat(
        lit_head() + escape(p.service) + q + lit_user() + escape(p.username),
        q,
    );
    lemma_no_newline_concat(
        lit_head() + escape(p.service) + q + lit_user() + escape(p.username) + q,
        lit_secret(),
    );
    lemma_no_newline_concat(
        lit_head() + escape(p.service) + q + lit_user() + escape(p.username) + q + lit_secret(),
        escape(p.secret),
    );
    lemma_no_newline_concat(
        lit_head() + escape(p.service) + q + lit_user() + escape(p.username) + q + lit_secret()
            + escape(p.secret),
        q,
    );
    lemma_no_newline_concat(
        lit_head() + escape(p.service) + q + lit_user() + escape(p.username) + q + lit_secret()
            + escape(p.secret) + q,
        lit_len(),
    );
    lemma_no_newline_concat(
        lit_head() + escape(p.service) + q + lit_user() + escape(p.username) + q + lit_secret()
            + escape(p.secret) + q + lit_len(),
        dec_of(p.length as nat),
    );
    lemma_no_newline_concat(
        lit_head() + escape(p.service) + q + lit_user() + escape(p.username) + q + lit_secret()
            + escape(p.secret) + q + lit_len() + dec_of(p.length as nat),
        lit_enc(),
    );
    lemma_no_newline_concat(
        lit_head() + escape(p.service) + q + lit_user() + escape(p.username) + q + lit_secret()
            + escape(p.secret) + q + lit_len() + dec_of(p.length as nat) + lit_enc(),
        enc_text(p.encoding),
    );
    lemma_no_newline_concat(
        lit_head() + escape(p.service) + q + lit_user() + escape(p.username) + q + lit_secret()
            + escape(p.secret) + q + lit_len() + dec_of(p.length as nat) + lit_enc() + enc_text(
            p.encoding,
        ),
        lit_end(),
    );
}

// ------------------------------------------------------------------
// Writing a record
// ------------------------------------------------------------------

/// Appends the escaped form of a field.
fn append_escaped(out: &mut String, s: &str)
    ensures
        final(out)@ == old(out)@ + escape(s@),
{
    let cs = crate::text::str_chars(s);
    let n = cs.len();
    proof {
        assert(s@.skip(0) =~= s@);
    }
    for i in 0..n
        invariant
            cs@ == s@,
            n == s@.len(),
            out@ + escape(s@.skip(i as int)) == old(out)@ + escape(s@),
    {
        let c = cs[i];
        let ghost tail = s@.skip(i as int);
        let ghost out0 = out@;
        proof {
            assert(tail[0] == s@[i as int]);
            assert(tail.drop_first() =~= s@.skip(i + 1));
            assert(escape(tail) == escape_char(c) + escape(s@.skip(i + 1)));
        }
        if c == '"' {
            crate::text::push_char(out, '\\');
            crate::text::push_char(out, '"');
        } else if c == '\\' {
            crate::text::push_char(out, '\\');
            crate::text::push_char(out, '\\');
        } else if c == '\n' {
            crate::text::push_char(out, '\\');
            crate::text::push_char(out, 'n');
        } else if c == '\r' {
            crate::text::push_char(out, '\\');
            crate::text::push_char(out, 'r');
        } else if c == '\t' {
            crate::text::push_char(out, '\\');
            crate::text::push_char(out, 't');
        } else {
            crate::text::push_char(out, c);
        }
        proof {
            assert(out@ =~= out0 + escape_char(c));
            assert((out0 + escape_char(c)) + escape(s@.skip(i + 1)) =~= out0 + (escape_char(c)
                + escape(s@.skip(i + 1))));
        }
    }
    proof {
        assert(escape(s@.skip(n as int)) =~= Seq::<char>::empty());
        assert(out@ + Seq::<char>::empty() =~= out@);
    }
}

/// Appends the canonical decimal digits of a number.
fn push_dec(out: &mut String, n: usize)
    ensures
        final(out)@ == old(out)@ + dec_of(n as nat),
    decreases n,
{
    let ghost out0 = out@;
    if n >= 10 {
        push_dec(out, n / 10);
        crate::text::push_char(out, ((n % 10) as u8 + 48) as char);
        proof {
            assert(((n % 10) as u8 + 48) as char == dec_digit((n % 10) as nat));
            assert(out@ =~= out0 + dec_of((n / 10) as nat) + seq![dec_digit((n % 10) as nat)]);
            assert(dec_of(n as nat) == dec_of((n as nat) / 10) + seq![dec_digit((n as nat) % 10)]);
            assert(out0 + dec_of((n / 10) as nat) + seq![dec_digit((n % 10) as nat)] =~= out0
                + dec_of(n as nat));
        }
    } else {
        crate::text::push_char(out, (n as u8 + 48) as char);
        proof {
            assert((n as u8 + 48) as char == dec_digit(n as nat));
            assert(out@ =~= out0 + dec_of(n as nat));
        }
    }
}

/// Writes the stored line for one record: exactly `record_line` of its
/// mathematical form, and free of line breaks.
pub fn serialize_record(p: &Password) -> (r: String)
    ensures
        r@ == record_line(p@),
        no_newline(r@),
{
    let mut out = String::new();
    out.append("{\"service\":\"");
    proof {
        reveal_strlit("{\"service\":\"");
        assert(out@ =~= lit_head());
    }
    append_escaped(&mut out, p.service.as_str());
    out.append("\"");
    proof {
        reveal_strlit("\"");
        assert(out@ =~= lit_head() + escape(p@.service) + seq!['"']);
    }
    out.append(",\"username\":\"");
    proof {
        reveal_strlit(",\"username\":\"");
        assert(out@ =~= lit_head() + escape(p@.service) + seq!['"'] + lit_user());
    }
    append_escaped(&mut out, p.username.as_str());
    out.append("\"");
    proof {
        reveal_strlit("\"");
        assert(out@ =~= lit_head() + escape(p@.service) + seq!['"'] + lit_user() + escape(
            p@.username,
        ) + seq!['"']);
    }
    out.append(",\"secret\":\"");
    proof {
        reveal_strlit(",\"secret\":\"");
        assert(out@ =~= lit_head() + escape(p@.service) + seq!['"'] + lit_user() + escape(
            p@.username,
        ) + seq!['"'] + lit_secret());
    }
    append_escaped(&mut out, p.secret.as_str());
    out.append("\"");
    out.append(",\"length\":");
    proof {
        reveal_strlit("\"");
        reveal_strlit(",\"length\":");
        assert(out@ =~= lit_head() + escape(p@.service) + seq!['"'] + lit_user() + escape(
            p@.username,
        ) + seq!['"'] + lit_secret() + escape(p@.secret) + seq!['"'] + lit_len());
    }
    push_dec(&mut out, p.length);
    out.append(",\"encoding\":");
    proof {
        reveal_strlit(",\"encoding\":");
        assert(out@ =~= lit_head() + escape(p@.service) + seq!['"'] + lit_user() + escape(
            p@.username,
        ) + seq!['"'] + lit_secret() + escape(p@.secret) + seq!['"'] + lit_len() + dec_of(
            p@.length as nat,
        ) + lit_enc());
    }
    let ghost prefix = out@;
    match &p.encoding {
        Encoding::Ascii85 => {
            out.append("\"Ascii85\"");
            proof {
                reveal_strlit("\"Ascii85\"");
                assert(out@ =~= prefix + enc_text(p@.encoding));
            }
        },
        Encoding::Hexadecimal => {
            out.append("\"Hexadecimal\"");
            proof {
                reveal_strlit("\"Hexadecimal\"");
                assert(out@ =~= prefix + enc_text(p@.encoding));
            }
        },
        Encoding::Base64 => {
            out.append("\"Base64\"");
            proof {
                reveal_strlit("\"Base64\"");
                assert(out@ =~= prefix + enc_text(p@.encoding));
            }
        },
        Encoding::Unknown(name) => {
            out.append("{\"variant\":\"Unknown\",\"fields\":[\"");
            proof {
                reveal_strlit("{\"variant\":\"Unknown\",\"fields\":[\"");
                assert(out@ =~= prefix + lit_unk_open());
            }
            append_escaped(&mut out, name.as_str());
            out.append("\"]}");
            proof {
                reveal_strlit("\"]}");
                assert(out@ =~= prefix + lit_unk_open() + escape(name@) + seq!['"']
                    + lit_unk_close());
                assert(out@ =~= prefix + enc_text(p@.encoding));
            }
        },
    }
    out.append("}");
    proof {
        reveal_strlit("}");
        assert(out@ =~= prefix + enc_text(p@.encoding) + lit_end());
        assert(out@ =~= record_line(p@));
        lemma_record_line_no_newline(p@);
    }
    out
}

// ------------------------------------------------------------------
// Reading a record
// ------------------------------------------------------------------

/// Consumes an expected literal at a position, or reports that it is not
/// there.
fn eat(v: &Vec<char>, pos: usize, lit: &Vec<char>) -> (r: Option<usize>)
    requires
        pos <= v@.len(),
    ensures
        match r {
            Some(j) => pos <= j <= v@.len() && j == pos + lit@.len() && strip(
                v@.skip(pos as int),
                lit@,
            ) == Some(v@.skip(j as int)),
            None => strip(v@.skip(pos as int), lit@) is None,
        },
{
    let ghost s = v@.skip(pos as int);
    if v.len() - pos < lit.len() {
        proof {
            assert(s.len() < lit@.len());
            assert(!lit@.is_prefix_of(s));
        }
        return None;
    }
    let m = lit.len();
    for k in 0..m
        invariant
            s == v@.skip(pos as int),
            m == lit@.len(),
            pos + m <= v@.len(),
            v@.len() <= usize::MAX,
            forall|j: int| 0 <= j < k ==> v@[pos + j] == lit@[j],
    {
        if v[pos + k] != lit[k] {
            proof {
                assert(s[k as int] == v@[pos + k]);
                if lit@.is_prefix_of(s) {
                    assert(s.subrange(0, m as int)[k as int] == lit@[k as int]);
                }
            }
            return None;
        }
    }
    proof {
        assert forall|j: int| 0 <= j < m implies s.subrange(0, m as int)[j] == lit@[j] by {
            assert(s[j] == v@[pos + j]);
        }
        assert(s.subrange(0, m as int) =~= lit@);
        assert(lit@.is_prefix_of(s));
        assert(s.skip(m as int) =~= v@.skip(pos + m));
    }
    Some(pos + m)
}

/// Reads a quoted field body starting after its opening quote.
fn p_string(v: &Vec<char>, pos: usize) -> (r: Option<(String, usize)>)
    requires
        pos <= v@.len(),
    ensures
        match r {
            Some(t) => pos <= t.1 <= v@.len() && unescape(v@.skip(pos as int)) == Some(
                (t.0@, v@.skip(t.1 as int)),
            ),
            None => unescape(v@.skip(pos as int)) is None,
        },
{
    let mut acc = String::new();
    let mut i: usize = pos;
    proof {
        if unescape(v@.skip(pos as int)) is Some {
            let p = unescape(v@.skip(pos as int)).unwrap();
            assert(Seq::<char>::empty() + p.0 =~= p.0);
        }
    }
    loop
        invariant
            pos <= i <= v@.len(),
            unescape(v@.skip(pos as int)) == (match unescape(v@.skip(i as int)) {
                Some(p) => Some((acc@ + p.0, p.1)),
                None => None,
            }),
        decreases v@.len() - i,
    {
        if i == v.len() {
            assert(v@.skip(i as int).len() == 0);
            return None;
        }
        let c = v[i];
        let ghost tail = v@.skip(i as int);
        let ghost acc0 = acc@;
        proof {
            assert(tail[0] == v@[i as int]);
            assert(tail.drop_first() =~= v@.skip(i + 1));
        }
        if c == '"' {
            proof {
                assert(unescape(tail) == Some((Seq::<char>::empty(), v@.skip(i + 1))));
                assert(acc@ + Seq::<char>::empty() =~= acc@);
            }
            return Some((acc, i + 1));
        } else if c == '\\' {
            if i + 1 == v.len() {
                assert(tail.len() == 1);
                return None;
            }
            let e = v[i + 1];
            proof {
                assert(tail[1] == v@[i + 1]);
            }
            let uc: char = if e == '"' {
                '"'
            } else if e == '\\' {
                '\\'
            } else if e == 'n' {
                '\n'
            } else if e == 'r' {
                '\r'
            } else if e == 't' {
                '\t'
            } else {
                assert(unesc_char(e) is None);
                assert(unescape(tail) is None);
                return None;
            };
            assert(unesc_char(e) == Some(uc));
            crate::text::push_char(&mut acc, uc);
            proof {
                assert(tail.skip(2) =~= v@.skip(i + 2));
                if unescape(v@.skip(i + 2)) is Some {
                    let p = unescape(v@.skip(i + 2)).unwrap();
                    assert(unescape(tail) == Some((seq![uc] + p.0, p.1)));
                    assert(acc0 + (seq![uc] + p.0) =~= acc@ + p.0);
                } else {
                    assert(unescape(tail) is None);
                }
            }
            i = i + 2;
        } else if c == '\n' || c == '\r' || c == '\t' {
            assert(unescape(tail) is None);
            return None;
        } else {
            crate::text::push_char(&mut acc, c);
            proof {
                if unescape(v@.skip(i + 1)) is Some {
                    let p = unescape(v@.skip(i + 1)).unwrap();
                    assert(unescape(tail) == Some((seq![c] + p.0, p.1)));
                    assert(acc0 + (seq![c] + p.0) =~= acc@ + p.0);
                } else {
                    assert(unescape(tail) is None);
                }
            }
            i = i + 1;
        }
    }
}

/// Reads a canonical decimal number that fits the machine.
fn p_nat(v: &Vec<char>, pos: usize) -> (r: Option<(usize, usize)>)
    requires
        pos <= v@.len(),
    ensures
        match r {
            Some(t) => pos <= t.1 <= v@.len() && parse_nat(v@.skip(pos as int)) == Some(
                (t.0 as nat, v@.skip(t.1 as int)),
            ),
            None => parse_nat(v@.skip(pos as int)) is None,
        },
{
    let ghost s = v@.skip(pos as int);
    let vlen = v.len();
    let mut i: usize = pos;
    let mut val: usize = 0;
    proof {
        assert(s.take(0) =~= Seq::<char>::empty());
    }
    loop
        invariant
            s == v@.skip(pos as int),
            pos <= i <= v@.len(),
            vlen == v@.len(),
            forall|j: int| pos <= j < i ==> is_digit_char(#[trigger] v@[j]),
            digit_run(s) == (i - pos) + digit_run(v@.skip(i as int)),
            val == dec_val(s.take(i - pos)),
        ensures
            pos <= i <= v@.len(),
            digit_run(s) == i - pos,
            val == dec_val(s.take(i - pos)),
        decreases v@.len() - i,
    {
        let ghost tail = v@.skip(i as int);
        if i == v.len() {
            proof {
                assert(tail.len() == 0);
                assert(digit_run(tail) == 0);
            }
            break;
        }
        let c = v[i];
        proof {
            assert(tail[0] == v@[i as int]);
            assert(tail.drop_first() =~= v@.skip(i + 1));
        }
        let u = c as u32;
        if !(48 <= u && u <= 57) {
            proof {
                assert(!is_digit_char(tail[0]));
                assert(digit_run(tail) == 0);
            }
            break;
        }
        let d = (u - 48) as usize;
        proof {
            assert(is_digit_char(v@[i as int]));
            assert(digit_run(tail) == 1 + digit_run(v@.skip(i + 1)));
            assert(s.take(i + 1 - pos).drop_last() =~= s.take(i - pos));
            assert(s.take(i + 1 - pos).last() == v@[i as int]);
            assert(dec_val(s.take(i + 1 - pos)) == val * 10 + d);
        }
        if val > (usize::MAX - d) / 10 {
            proof {
                assert(val * 10 + d > usize::MAX) by {
                    if val * 10 + d <= usize::MAX {
                        assert(val <= (usize::MAX - d) / 10) by (nonlinear_arith)
                            requires
                                val * 10 + d <= usize::MAX,
                                0 <= d,
                        ;
                    }
                }
                lemma_digit_run_digits(s);
                lemma_digit_run_digits(v@.skip(i + 1));
                let k = digit_run(s);
                assert(k >= i + 1 - pos);
                assert(s.take(k) =~= s.take(i + 1 - pos) + s.subrange(i + 1 - pos, k));
                lemma_dec_val_prefix(s.take(i + 1 - pos), s.subrange(i + 1 - pos, k));
                assert(dec_val(s.take(k)) > usize::MAX);
                assert(k > 0);
            }
            return None;
        }
        val = val * 10 + d;
        i = i + 1;
    }
    proof {
        assert(digit_run(s) == i - pos);
    }
    if i == pos {
        assert(digit_run(s) == 0);
        return None;
    }
    let c0 = v[pos];
    if c0 == '0' && i > pos + 1 {
        proof {
            assert(s[0] == v@[pos as int]);
            assert(s[0] == '0' && digit_run(s) > 1);
        }
        return None;
    }
    proof {
        assert(s[0] == v@[pos as int]);
        assert(s.take(i - pos) == s.take(digit_run(s)));
        assert(dec_val(s.take(digit_run(s))) <= usize::MAX);
        assert(s.skip(i - pos) =~= v@.skip(i as int));
    }
    Some((val, i))
}

/// Reads a stored encoding tag.
fn p_enc(v: &Vec<char>, pos: usize) -> (r: Option<(Encoding, usize)>)
    requires
        pos <= v@.len(),
    ensures
        match r {
            Some(t) => pos <= t.1 <= v@.len() && parse_enc(v@.skip(pos as int)) == Some(
                (t.0@, v@.skip(t.1 as int)),
            ),
            None => parse_enc(v@.skip(pos as int)) is None,
        },
{
    let lita = crate::text::str_chars("\"Ascii85\"");
    let lith = crate::text::str_chars("\"Hexadecimal\"");
    let litb = crate::text::str_chars("\"Base64\"");
    proof {
        reveal_strlit("\"Ascii85\"");
        reveal_strlit("\"Hexadecimal\"");
        reveal_strlit("\"Base64\"");
        assert(lita@ =~= lit_a85());
        assert(lith@ =~= lit_hex());
        assert(litb@ =~= lit_b64());
    }
    if let Some(j) = eat(v, pos, &lita) {
        return Some((Encoding::Ascii85, j));
    }
    if let Some(j) = eat(v, pos, &lith) {
        return Some((Encoding::Hexadecimal, j));
    }
    if let Some(j) = eat(v, pos, &litb) {
        return Some((Encoding::Base64, j));
    }
    let lito = crate::text::str_chars("{\"variant\":\"Unknown\",\"fields\":[\"");
    let litc = crate::text::str_chars("\"]}");
    proof {
        reveal_strlit("{\"variant\":\"Unknown\",\"fields\":[\"");
        reveal_strlit("\"]}");
        assert(lito@ =~= lit_unk_open());
        assert(litc@.drop_first() =~= lit_unk_close());
    }
    let j1 = match eat(v, pos, &lito) {
        None => {
            return None;
        },
        Some(j1) => j1,
    };
    let name = match p_string(v, j1) {
        None => {
            return None;
        },
        Some(t) => t,
    };
    let litc2 = crate::text::str_chars("]}");
    proof {
        reveal_strlit("]}");
        assert(litc2@ =~= lit_unk_close());
    }
    match eat(v, name.1, &litc2) {
        None => {
            return None;
        },
        Some(j3) => Some((Encoding::Unknown(name.0), j3)),
    }
}

fn lit_head_vec() -> (r: Vec<char>)
    ensures
        r@ == lit_head(),
{
    let r = crate::text::str_chars("{\"service\":\"");
    proof {
        reveal_strlit("{\"service\":\"");
        assert(r@ =~= lit_head());
    }
    r
}

fn lit_user_vec() -> (r: Vec<char>)
    ensures
        r@ == lit_user(),
{
    let r = crate::text::str_chars(",\"username\":\"");
    proof {
        reveal_strlit(",\"username\":\"");
        assert(r@ =~= lit_user());
    }
    r
}

fn lit_secret_vec() -> (r: Vec<char>)
    ensures
        r@ == lit_secret(),
{
    let r = crate::text::str_chars(",\"secret\":\"");
    proof {
        reveal_strlit(",\"secret\":\"");
        assert(r@ =~= lit_secret());
    }
    r
}

fn lit_len_vec() -> (r: Vec<char>)
    ensures
        r@ == lit_len(),
{
    let r = crate::text::str_chars(",\"length\":");
    proof {
        reveal_strlit(",\"length\":");
        assert(r@ =~= lit_len());
    }
    r
}

fn lit_enc_vec() -> (r: Vec<char>)
    ensures
        r@ == lit_enc(),
{
    let r = crate::text::str_chars(",\"encoding\":");
    proof {
        reveal_strlit(",\"encoding\":");
        assert(r@ =~= lit_enc());
    }
    r
}

fn lit_end_vec() -> (r: Vec<char>)
    ensures
        r@ == lit_end(),
{
    let r = crate::text::str_chars("}");
    proof {
        reveal_strlit("}");
        assert(r@ =~= lit_end());
    }
    r
}

#[verifier::rlimit(100)]
fn parse_record_impl(v: &Vec<char>) -> (r: Option<Password>)
    ensures
        match r {
            Some(p) => parse_record_spec(v@) == Some(p@),
            None => parse_record_spec(v@) is None,
        },
{
    proof {
        assert(v@.skip(0) =~= v@);
    }
    let lhead = lit_head_vec();
    let luser = lit_user_vec();
    let lsec = lit_secret_vec();
    let llen = lit_len_vec();
    let lenc = lit_enc_vec();
    let lend = lit_end_vec();
    let j1 = match eat(v, 0, &lhead) {
        None => {
            return None;
        },
        Some(j) => j,
    };
    let svc = match p_string(v, j1) {
        None => {
            return None;
        },
        Some(t) => t,
    };
    let j3 = match eat(v, svc.1, &luser) {
        None => {
            return None;
        },
        Some(j) => j,
    };
    let user = match p_string(v, j3) {
        None => {
            return None;
        },
        Some(t) => t,
    };
    let j5 = match eat(v, user.1, &lsec) {
        None => {
            return None;
        },
        Some(j) => j,
    };
    let sec = match p_string(v, j5) {
        None => {
            return None;
        },
        Some(t) => t,
    };
    let j7 = match eat(v, sec.1, &llen) {
        None => {
            return None;
        },
        Some(j) => j,
    };
    let num = match p_nat(v, j7) {
        None => {
            return None;
        },
        Some(t) => t,
    };
    let j9 = match eat(v, num.1, &lenc) {
        None => {
            return None;
        },
        Some(j) => j,
    };
    let enc = match p_enc(v, j9) {
        None => {
            return None;
        },
        Some(t) => t,
    };
    let j11 = match eat(v, enc.1, &lend) {
        None => {
            return None;
        },
        Some(j) => j,
    };
    if j11 != v.len() {
        assert(v@.skip(j11 as int).len() != 0);
        return None;
    }
    assert(v@.skip(j11 as int).len() == 0);
    Some(
        Password {
            service: svc.0,
            username: user.0,
            secret: sec.0,
            length: num.0,
            encoding: enc.0,
        },
    )
}

/// Reads one stored line back into a record. A line that is not exactly the
/// stored form of some record yields nothing.
pub fn parse_record(line: &str) -> (r: Option<Password>)
    ensures
        match r {
            Some(p) => parse_record_spec(line@) == Some(p@) && line@ == record_line(p@),
            None => parse_record_spec(line@) is None,
        },
        r is None ==> forall|pv: PasswordV| line@ != record_line(pv),
{
    let v = crate::text::str_chars(line);
    let r = parse_record_impl(&v);
    proof {
        if r is None {
            assert forall|pv: PasswordV| line@ != record_line(pv) by {
                lemma_record_round_trip(pv);
            }
        } else {
            lemma_parse_record_sound(line@);
        }
    }
    r
}

// ------------------------------------------------------------------
// Whole files
// ------------------------------------------------------------------

/// The records that a sequence of stored lines holds, in order; lines that
/// are not well-formed records are dropped.
pub open spec fn parsed_records(lines: Seq<Seq<char>>) -> Seq<PasswordV>
    decreases lines.len(),
{
    if lines.len() == 0 {
        Seq::empty()
    } else {
        match parse_record_spec(lines[0]) {
            Some(p) => seq![p] + parsed_records(lines.drop_first()),
            None => parsed_records(lines.drop_first()),
        }
    }
}

/// Writing any records as stored lines and reading those lines back yields
/// the same records, field by field.
#[verifier::rlimit(100)]
pub proof fn lemma_store_round_trip(records: Seq<PasswordV>)
    ensures
        parsed_records(records.map_values(|p: PasswordV| record_line(p))) == records,
    decreases records.len(),
{
    let lines = records.map_values(|p: PasswordV| record_line(p));
    if records.len() == 0 {
        assert(lines =~= Seq::<Seq<char>>::empty());
        assert(records =~= Seq::<PasswordV>::empty());
    } else {
        assert(lines[0] == record_line(records[0]));
        lemma_record_round_trip(records[0]);
        lemma_store_round_trip(records.drop_first());
        assert(lines.drop_first() =~= records.drop_first().map_values(
            |p: PasswordV| record_line(p),
        ));
        assert(seq![records[0]] + records.drop_first() =~= records);
    }
}

impl Database {
    /// Reads records from stored lines. A line that does not parse as a
    /// record is silently dropped, as loading has always done.
    #[verifier::rlimit(100)]
    pub fn from_lines(lines: &Vec<String>) -> (db: Database)
        ensures
            db.passwords@.map_values(|p: Password| p@) == parsed_records(
                lines@.map_values(|l: String| l@),
            ),
    {
        let ghost ls = lines@.map_values(|l: String| l@);
        let n = lines.len();
        let mut db = Database::new();
        proof {
            assert(ls.skip(0) =~= ls);
            assert(db.passwords@.map_values(|p: Password| p@) =~= Seq::<PasswordV>::empty());
            assert(Seq::<PasswordV>::empty() + parsed_records(ls) =~= parsed_records(ls));
        }
        for i in 0..n
            invariant
                n == lines@.len(),
                ls == lines@.map_values(|l: String| l@),
                parsed_records(ls) == db.passwords@.map_values(|p: Password| p@)
                    + parsed_records(ls.skip(i as int)),
        {
            let ghost tail = ls.skip(i as int);
            let ghost dbv0 = db.passwords@.map_values(|p: Password| p@);
            proof {
                assert(tail[0] == ls[i as int]);
                assert(ls[i as int] == lines@[i as int]@);
                assert(tail.drop_first() =~= ls.skip(i + 1));
            }
            match parse_record(lines[i].as_str()) {
                Some(p) => {
                    let ghost pv = p@;
                    db.insert(p);
                    proof {
                        assert(parsed_records(tail) == seq![pv] + parsed_records(ls.skip(i + 1)));
                        assert(db.passwords@.map_values(|p: Password| p@) =~= dbv0.push(pv));
                        assert(dbv0 + (seq![pv] + parsed_records(ls.skip(i + 1))) =~= dbv0.push(
                            pv,
                        ) + parsed_records(ls.skip(i + 1)));
                    }
                },
                None => {
                    proof {
                        assert(parsed_records(tail) == parsed_records(ls.skip(i + 1)));
                    }
                },
            }
        }
        proof {
            assert(ls.skip(n as int).len() == 0);
            assert(parsed_records(ls.skip(n as int)) =~= Seq::<PasswordV>::empty());
            assert(db.passwords@.map_values(|p: Password| p@) + Seq::<PasswordV>::empty()
                =~= db.passwords@.map_values(|p: Password| p@));
        }
        db
    }

    /// Writes every record as its stored line, one per record, in order;
    /// no line holds a line break.
    pub fn to_lines(&self) -> (r: Vec<String>)
        ensures
            r@.len() == self.passwords@.len(),
            forall|i: int|
                0 <= i < r@.len() ==> (#[trigger] r@[i])@ == record_line(self.passwords@[i]@),
            forall|i: int| 0 <= i < r@.len() ==> no_newline((#[trigger] r@[i])@),
    {
        let n = self.passwords.len();
        let mut r: Vec<String> = Vec::new();
        for i in 0..n
            invariant
                n == self.passwords@.len(),
                r@.len() == i,
                forall|j: int|
                    0 <= j < i ==> (#[trigger] r@[j])@ == record_line(self.passwords@[j]@),
                forall|j: int| 0 <= j < i ==> no_newline((#[trigger] r@[j])@),
        {
            r.push(serialize_record(&self.passwords[i]));
        }
        r
    }
}

} // verus!

//! The encoding engine: pure functions that turn raw byte sequences into
//! printable password text, selected by a tagged `Encoding` variant.

use vstd::prelude::*;
use crate::text::hex_digit;

verus! {

broadcast use vstd::utf8::char_u32_cast;

/// Selects the encoding function used to turn raw bytes into password text.
#[derive(Debug, Clone)]
pub enum Encoding {
    Ascii85,
    Hexadecimal,
    Base64,
    Unknown(String),
}

// ------------------------------------------------------------------
// Hexadecimal
// ------------------------------------------------------------------

/// The hexadecimal rendering of a byte sequence: two lower-case hex digits
/// per byte, in input order, with no separators.
pub open spec fn hex_of(bytes: Seq<u8>) -> Seq<char> {
    Seq::new(
        bytes.len() * 2,
        |i: int|
            if i % 2 == 0 {
                hex_digit(bytes[i / 2] / 16)
            } else {
                hex_digit(bytes[i / 2] % 16)
            },
    )
}

pub open spec fn is_hex_char(c: char) -> bool {
    (48 <= c as u32 <= 57) || (97 <= c as u32 <= 102)
}

/// The value of one lower-case hexadecimal digit character.
pub open spec fn hex_val(c: char) -> u8
    recommends
        is_hex_char(c),
{
    if c as u32 <= 57 {
        ((c as u32 - 48) as u8)
    } else {
        ((c as u32 - 87) as u8)
    }
}

/// What a hexadecimal string decodes to: the byte sequence it was produced
/// from, or nothing when the string is not a well-formed rendering.
pub open spec fn hex_parse(s: Seq<char>) -> Option<Seq<u8>> {
    if s.len() % 2 != 0 {
        None
    } else if exists|i: int| 0 <= i < s.len() && !is_hex_char(s[i]) {
        None
    } else {
        Some(Seq::new(s.len() / 2, |i: int| (hex_val(s[2 * i]) * 16 + hex_val(s[2 * i + 1])) as u8))
    }
}

proof fn lemma_hex_digit(v: u8)
    requires
        v < 16,
    ensures
        is_hex_char(hex_digit(v)),
        hex_val(hex_digit(v)) == v,
{
}

fn hex_char_exec(v: u8) -> (c: char)
    requires
        v < 16,
    ensures
        c == hex_digit(v),
{
    if v < 10 {
        (v + 48) as char
    } else {
        (v + 87) as char
    }
}

/// Encodes each byte as two lower-case hexadecimal digits.
pub fn hexadecimal(data: &[u8]) -> (r: String)
    ensures
        r@ == hex_of(data@),
{
    let n = data.len();
    let mut r = String::new();
    for i in 0..n
        invariant
            n == data@.len(),
            r@ == hex_of(data@).take(2 * i),
    {
        let b = data[i];
        crate::text::push_char(&mut r, hex_char_exec(b / 16));
        crate::text::push_char(&mut r, hex_char_exec(b % 16));
        assert(r@ =~= hex_of(data@).take(2 * (i + 1)));
    }
    assert(r@ =~= hex_of(data@));
    r
}

/// Decodes a string of lower-case hexadecimal digit pairs back to bytes.
pub fn hexadecimal_decode(s: &str) -> (r: Option<Vec<u8>>)
    ensures
        match r {
            Some(v) => hex_parse(s@) == Some(v@),
            None => hex_parse(s@) is None,
        },
{
    let cs = crate::text::str_chars(s);
    if cs.len() % 2 != 0 {
        return None;
    }
    let half = cs.len() / 2;
    let mut out: Vec<u8> = Vec::new();
    for i in 0..half
        invariant
            cs@ == s@,
            s@.len() % 2 == 0,
            half == s@.len() / 2,
            2 * half <= usize::MAX,
            out@.len() == i,
            forall|j: int| 0 <= j < 2 * i ==> is_hex_char(s@[j]),
            forall|j: int|
                0 <= j < i ==> out@[j] == (hex_val(s@[2 * j]) * 16 + hex_val(s@[2 * j + 1])) as u8,
    {
        let c0 = cs[2 * i] as u32;
        let c1 = cs[2 * i + 1] as u32;
        let v0: u32 = if 48 <= c0 && c0 <= 57 {
            c0 - 48
        } else if 97 <= c0 && c0 <= 102 {
            c0 - 87
        } else {
            assert(!is_hex_char(s@[2 * i as int]));
            return None;
        };
        let v1: u32 = if 48 <= c1 && c1 <= 57 {
            c1 - 48
        } else if 97 <= c1 && c1 <= 102 {
            c1 - 87
        } else {
            assert(!is_hex_char(s@[2 * i as int + 1]));
            return None;
        };
        out.push((v0 * 16 + v1) as u8);
    }
    assert(forall|j: int| 0 <= j < s@.len() ==> is_hex_char(s@[j]));
    proof {
        let parsed = Seq::new(
            s@.len() / 2,
            |i: int| (hex_val(s@[2 * i]) * 16 + hex_val(s@[2 * i + 1])) as u8,
        );
        assert(out@ =~= parsed);
    }
    Some(out)
}

/// The hexadecimal rendering is twice as long as its input, holds only
/// lower-case hexadecimal digits, and decodes back to the input bytes.
pub proof fn lemma_hex_round_trip(bytes: Seq<u8>)
    ensures
        hex_of(bytes).len() == 2 * bytes.len(),
        forall|i: int| 0 <= i < hex_of(bytes).len() ==> is_hex_char(#[trigger] hex_of(bytes)[i]),
        hex_parse(hex_of(bytes)) == Some(bytes),
{
    let h = hex_of(bytes);
    assert forall|i: int| 0 <= i < h.len() implies is_hex_char(#[trigger] h[i]) by {
        if i % 2 == 0 {
            lemma_hex_digit(bytes[i / 2] / 16);
        } else {
            lemma_hex_digit(bytes[i / 2] % 16);
        }
    }
    assert(h.len() % 2 == 0);
    let parsed = Seq::new(h.len() / 2, |i: int| (hex_val(h[2 * i]) * 16 + hex_val(h[2 * i + 1])) as u8);
    assert forall|i: int| 0 <= i < bytes.len() implies parsed[i] == bytes[i] by {
        lemma_hex_digit(bytes[i] / 16);
        lemma_hex_digit(bytes[i] % 16);
        assert(h[2 * i] == hex_digit(bytes[i] / 16));
        assert(h[2 * i + 1] == hex_digit(bytes[i] % 16));
    }
    assert(parsed =~= bytes);
}

// ------------------------------------------------------------------
// Ascii85
// ------------------------------------------------------------------

/// One byte group packed big-endian into a 32-bit value.
pub open spec fn pack4(b0: u8, b1: u8, b2: u8, b3: u8) -> u32 {
    (b0 * 0x1000000 + b1 * 0x10000 + b2 * 0x100 + b3) as u32
}

/// One base-85 digit, offset into the printable range.
pub open spec fn a85_digit(v: u32) -> char
    recommends
        v < 85,
{
    ((v + 33) as u8) as char
}

/// The five base-85 digits of one packed group, most significant first.
#[verifier::opaque]
pub open spec fn a85_group(n: u32) -> Seq<char> {
    seq![
        a85_digit((n / 52200625) % 85),
        a85_digit((n / 614125) % 85),
        a85_digit((n / 7225) % 85),
        a85_digit((n / 85) % 85),
        a85_digit(n % 85),
    ]
}

/// The Ascii85 rendering of a byte sequence: each complete 4-byte group
/// becomes five base-85 digits; a trailing partial group is dropped, as the
/// stored format has always done.
pub open spec fn ascii85_of(bytes: Seq<u8>) -> Seq<char>
    decreases bytes.len(),
{
    if bytes.len() < 4 {
        Seq::empty()
    } else {
        a85_group(pack4(bytes[0], bytes[1], bytes[2], bytes[3])) + ascii85_of(bytes.skip(4))
    }
}

pub open spec fn is_a85_char(c: char) -> bool {
    33 <= c as u32 && (c as u32) < 118
}

/// The value of one Ascii85 digit character.
pub open spec fn a85_val(c: char) -> int
    recommends
        is_a85_char(c),
{
    c as u32 - 33
}

/// What an Ascii85 string decodes to: the byte sequence it was produced
/// from, or nothing when it is not a well-formed rendering.
pub open spec fn a85_parse(s: Seq<char>) -> Option<Seq<u8>>
    decreases s.len(),
{
    if s.len() == 0 {
        Some(Seq::empty())
    } else if s.len() < 5 {
        None
    } else if !(is_a85_char(s[0]) && is_a85_char(s[1]) && is_a85_char(s[2]) && is_a85_char(s[3])
        && is_a85_char(s[4])) {
        None
    } else {
        let n = (((a85_val(s[0]) * 85 + a85_val(s[1])) * 85 + a85_val(s[2])) * 85 + a85_val(s[3]))
            * 85 + a85_val(s[4]);
        if n > u32::MAX {
            None
        } else {
            match a85_parse(s.skip(5)) {
                Some(rest) => Some(
                    seq![
                        (n / 0x1000000) as u8,
                        ((n / 0x10000) % 256) as u8,
                        ((n / 0x100) % 256) as u8,
                        (n % 256) as u8,
                    ] + rest,
                ),
                None => None,
            }
        }
    }
}

/// The base-85 digits of a 32-bit value recompose to that value.
proof fn lemma_a85_digits(n: u32)
    ensures
        n / 52200625 % 85 == n / 52200625,
        (((((n / 52200625 % 85) * 85 + (n / 614125 % 85)) * 85 + (n / 7225 % 85)) * 85 + (n / 85
            % 85)) * 85 + n % 85) == n,
{
    vstd::arithmetic::div_mod::lemma_div_denominator(n as int, 85, 85);
    vstd::arithmetic::div_mod::lemma_div_denominator(n as int, 7225, 85);
    vstd::arithmetic::div_mod::lemma_div_denominator(n as int, 614125, 85);
    assert(n / 52200625 <= 82) by (nonlinear_arith)
        requires n <= u32::MAX,
    ;
    assert(n == (n / 85) * 85 + n % 85) by (nonlinear_arith);
    assert(n / 85 == (n / 85 / 85) * 85 + (n / 85) % 85) by (nonlinear_arith);
    assert(n / 7225 == (n / 7225 / 85) * 85 + (n / 7225) % 85) by (nonlinear_arith);
    assert(n / 614125 == (n / 614125 / 85) * 85 + (n / 614125) % 85) by (nonlinear_arith);
}

/// The four bytes packed into a group are recovered by division.
proof fn lemma_unpack4(b0: u8, b1: u8, b2: u8, b3: u8)
    ensures
        pack4(b0, b1, b2, b3) / 0x1000000 == b0,
        (pack4(b0, b1, b2, b3) / 0x10000) % 256 == b1,
        (pack4(b0, b1, b2, b3) / 0x100) % 256 == b2,
        pack4(b0, b1, b2, b3) % 256 == b3,
{
    let x = pack4(b0, b1, b2, b3);
    assert(x == b0 * 0x1000000 + b1 * 0x10000 + b2 * 0x100 + b3);
    assert(x / 0x1000000 == b0 && (x / 0x10000) % 256 == b1 && (x / 0x100) % 256 == b2 && x % 256
        == b3) by (bit_vector)
        requires
            x == b0 * 0x1000000 + b1 * 0x10000 + b2 * 0x100 + b3,
            b0 < 256 && b1 < 256 && b2 < 256 && b3 < 256,
    ;
}

fn a85_char_exec(v: u32) -> (c: char)
    requires
        v < 85,
    ensures
        c == a85_digit(v),
{
    ((v + 33) as u8) as char
}

/// The five digit characters of one group are valid Ascii85 characters and
/// recompose to the packed value.
#[verifier::rlimit(100)]
proof fn lemma_a85_group_parse(n: u32)
    ensures
        is_a85_char(a85_group(n)[0]),
        is_a85_char(a85_group(n)[1]),
        is_a85_char(a85_group(n)[2]),
        is_a85_char(a85_group(n)[3]),
        is_a85_char(a85_group(n)[4]),
        a85_group(n).len() == 5,
        (((a85_val(a85_group(n)[0]) * 85 + a85_val(a85_group(n)[1])) * 85 + a85_val(
            a85_group(n)[2],
        )) * 85 + a85_val(a85_group(n)[3])) * 85 + a85_val(a85_group(n)[4]) == n,
{
    reveal(a85_group);
    lemma_a85_digits(n);
}

/// Appends the five base-85 digits of one packed group.
#[verifier::rlimit(100)]
fn a85_push_group(out: &mut String, n: u32)
    ensures
        final(out)@ == old(out)@ + a85_group(n),
{
    let ghost r0 = out@;
    let c0 = a85_char_exec(n / 52200625 % 85);
    let c1 = a85_char_exec(n / 614125 % 85);
    let c2 = a85_char_exec(n / 7225 % 85);
    let c3 = a85_char_exec(n / 85 % 85);
    let c4 = a85_char_exec(n % 85);
    crate::text::push_char(out, c0);
    crate::text::push_char(out, c1);
    crate::text::push_char(out, c2);
    crate::text::push_char(out, c3);
    crate::text::push_char(out, c4);
    proof {
        reveal(a85_group);
        let grp = a85_group(n);
        assert(grp[0] == c0 && grp[1] == c1 && grp[2] == c2 && grp[3] == c3 && grp[4] == c4);
        assert(grp.len() == 5);
        assert(out@ =~= r0 + grp);
    }
}

/// Encodes each complete 4-byte group as five base-85 digits; trailing bytes
/// beyond the last complete group are dropped.
pub fn ascii85(data: &[u8]) -> (r: String)
    ensures
        r@ == ascii85_of(data@),
{
    let len = data.len();
    let groups = len / 4;
    let mut r = String::new();
    assert(data@.skip(0) =~= data@);
    for i in 0..groups
        invariant
            len == data@.len(),
            groups == data@.len() / 4,
            4 * groups <= data@.len(),
            ascii85_of(data@) == r@ + ascii85_of(data@.skip(4 * i)),
    {
        let b0 = data[4 * i];
        let b1 = data[4 * i + 1];
        let b2 = data[4 * i + 2];
        let b3 = data[4 * i + 3];
        let n: u32 = (b0 as u32) * 0x1000000 + (b1 as u32) * 0x10000 + (b2 as u32) * 0x100 + (
        b3 as u32);
        let ghost tail = data@.skip(4 * i);
        let ghost r0 = r@;
        proof {
            assert(tail[0] == data@[4 * i] && tail[1] == data@[4 * i + 1] && tail[2] == data@[4 * i
                + 2] && tail[3] == data@[4 * i + 3]);
            assert(tail.skip(4) =~= data@.skip(4 * (i + 1)));
            assert(n == pack4(b0, b1, b2, b3));
        }
        a85_push_group(&mut r, n);
        proof {
            let grp = a85_group(n);
            assert(ascii85_of(tail) == grp + ascii85_of(tail.skip(4)));
            assert(r0 + (grp + ascii85_of(tail.skip(4))) =~= (r0 + grp) + ascii85_of(
                tail.skip(4),
            ));
        }
    }
    proof {
        assert(ascii85_of(data@.skip(4 * groups as int)) =~= Seq::<char>::empty());
        assert(r@ =~= r@ + Seq::<char>::empty());
    }
    r
}

/// A string whose length is not a multiple of five is not a well-formed
/// Ascii85 rendering.
proof fn lemma_a85_parse_len(s: Seq<char>)
    requires
        s.len() % 5 != 0,
    ensures
        a85_parse(s) is None,
    decreases s.len(),
{
    if s.len() >= 5 {
        if is_a85_char(s[0]) && is_a85_char(s[1]) && is_a85_char(s[2]) && is_a85_char(s[3])
            && is_a85_char(s[4]) {
            lemma_a85_parse_len(s.skip(5));
        }
    }
}

/// Reads one group of five digit characters back to its four bytes.
#[verifier::rlimit(100)]
fn a85_group_bytes(c0: char, c1: char, c2: char, c3: char, c4: char) -> (r: Option<
    (u8, u8, u8, u8),
>)
    ensures
        ({
            let valid = is_a85_char(c0) && is_a85_char(c1) && is_a85_char(c2) && is_a85_char(c3)
                && is_a85_char(c4);
            let n = (((a85_val(c0) * 85 + a85_val(c1)) * 85 + a85_val(c2)) * 85 + a85_val(c3)) * 85
                + a85_val(c4);
            match r {
                Some(t) => valid && n <= u32::MAX && t.0 == n / 0x1000000 && t.1 == (n / 0x10000)
                    % 256 && t.2 == (n / 0x100) % 256 && t.3 == n % 256,
                None => !valid || n > u32::MAX,
            }
        }),
{
    let u0 = c0 as u32;
    let u1 = c1 as u32;
    let u2 = c2 as u32;
    let u3 = c3 as u32;
    let u4 = c4 as u32;
    if !(33 <= u0 && u0 < 118 && 33 <= u1 && u1 < 118 && 33 <= u2 && u2 < 118 && 33 <= u3 && u3
        < 118 && 33 <= u4 && u4 < 118) {
        return None;
    }
    let h: u64 = (((((u0 - 33) as u64) * 85 + ((u1 - 33) as u64)) * 85 + ((u2 - 33) as u64)) * 85
        + ((u3 - 33) as u64)) * 85 + ((u4 - 33) as u64);
    if h > 0xFFFF_FFFF {
        return None;
    }
    let n = h as u32;
    Some(((n / 0x1000000) as u8, ((n / 0x10000) % 256) as u8, ((n / 0x100) % 256) as u8, (n
        % 256) as u8))
}

/// Decodes an Ascii85 string of five-digit groups back to bytes.
#[verifier::rlimit(100)]
pub fn ascii85_decode(s: &str) -> (r: Option<Vec<u8>>)
    ensures
        match r {
            Some(v) => a85_parse(s@) == Some(v@),
            None => a85_parse(s@) is None,
        },
{
    let cs = crate::text::str_chars(s);
    if cs.len() % 5 != 0 {
        proof {
            lemma_a85_parse_len(s@);
        }
        return None;
    }
    let groups = cs.len() / 5;
    let mut out: Vec<u8> = Vec::new();
    proof {
        assert(s@.skip(0) =~= s@);
        if a85_parse(s@) is Some {
            assert(Seq::<u8>::empty() + a85_parse(s@).unwrap() =~= a85_parse(s@).unwrap());
        }
    }
    for g in 0..groups
        invariant
            cs@ == s@,
            s@.len() <= usize::MAX,
            s@.len() % 5 == 0,
            groups == s@.len() / 5,
            5 * groups <= s@.len(),
            out@.len() == 4 * g,
            a85_parse(s@) == (match a85_parse(s@.skip(5 * g)) {
                Some(rest) => Some(out@ + rest),
                None => None::<Seq<u8>>,
            }),
    {
        let ghost tail = s@.skip(5 * g);
        proof {
            assert(tail.len() == s@.len() - 5 * g >= 5);
            assert(tail[0] == s@[5 * g] && tail[1] == s@[5 * g + 1] && tail[2] == s@[5 * g + 2]
                && tail[3] == s@[5 * g + 3] && tail[4] == s@[5 * g + 4]);
        }
        let c0 = cs[5 * g];
        let c1 = cs[5 * g + 1];
        let c2 = cs[5 * g + 2];
        let c3 = cs[5 * g + 3];
        let c4 = cs[5 * g + 4];
        match a85_group_bytes(c0, c1, c2, c3, c4) {
            None => {
                assert(a85_parse(tail) is None);
                return None;
            },
            Some(t) => {
                out.push(t.0);
                out.push(t.1);
                out.push(t.2);
                out.push(t.3);
                proof {
                    assert(tail.skip(5) =~= s@.skip(5 * (g + 1)));
                    let n = (((a85_val(tail[0]) * 85 + a85_val(tail[1])) * 85 + a85_val(tail[2]))
                        * 85 + a85_val(tail[3])) * 85 + a85_val(tail[4]);
                    let four = seq![
                        (n / 0x1000000) as u8,
                        ((n / 0x10000) % 256) as u8,
                        ((n / 0x100) % 256) as u8,
                        (n % 256) as u8,
                    ];
                    assert(a85_parse(tail) == (match a85_parse(tail.skip(5)) {
                        Some(rest) => Some(four + rest),
                        None => None::<Seq<u8>>,
                    }));
                    if a85_parse(tail.skip(5)) is Some {
                        let rest_new = a85_parse(tail.skip(5)).unwrap();
                        assert(out@ =~= out@.subrange(0, out@.len() - 4) + four);
                        assert(out@.subrange(0, out@.len() - 4) + (four + rest_new) =~= out@
                            + rest_new);
                    }
                }
            },
        }
    }
    proof {
        assert(s@.skip(5 * groups as int).len() == 0);
        assert(s@.skip(5 * groups as int) =~= Seq::<char>::empty());
        assert(out@ + Seq::<u8>::empty() =~= out@);
    }
    Some(out)
}

/// Every byte sequence whose length is a multiple of four is recovered
/// exactly by decoding its Ascii85 rendering.
#[verifier::rlimit(100)]
pub proof fn lemma_ascii85_round_trip(bytes: Seq<u8>)
    requires
        bytes.len() % 4 == 0,
    ensures
        a85_parse(ascii85_of(bytes)) == Some(bytes),
    decreases bytes.len(),
{
    if bytes.len() == 0 {
        assert(ascii85_of(bytes) =~= Seq::<char>::empty());
        assert(bytes =~= Seq::<u8>::empty());
    } else {
        let n = pack4(bytes[0], bytes[1], bytes[2], bytes[3]);
        let grp = a85_group(n);
        let s = ascii85_of(bytes);
        lemma_a85_group_parse(n);
        assert(s == grp + ascii85_of(bytes.skip(4)));
        assert(s[0] == grp[0] && s[1] == grp[1] && s[2] == grp[2] && s[3] == grp[3] && s[4]
            == grp[4]);
        let h = (((a85_val(s[0]) * 85 + a85_val(s[1])) * 85 + a85_val(s[2])) * 85 + a85_val(s[3]))
            * 85 + a85_val(s[4]);
        assert(h == n);
        lemma_ascii85_round_trip(bytes.skip(4));
        assert(s.skip(5) =~= ascii85_of(bytes.skip(4)));
        lemma_unpack4(bytes[0], bytes[1], bytes[2], bytes[3]);
        let four = seq![
            (h / 0x1000000) as u8,
            ((h / 0x10000) % 256) as u8,
            ((h / 0x100) % 256) as u8,
            (h % 256) as u8,
        ];
        assert(four + bytes.skip(4) =~= bytes);
    }
}

// ------------------------------------------------------------------
// Base64
// ------------------------------------------------------------------

/// One base-64 digit character from the standard alphabet.
pub open spec fn b64_digit(v: u8) -> char
    recommends
        v < 64,
{
    if v < 26 {
        ((v + 65) as u8) as char
    } else if v < 52 {
        ((v + 71) as u8) as char
    } else if v < 62 {
        ((v - 4) as u8) as char
    } else if v == 62 {
        '+'
    } else {
        '/'
    }
}

/// The standard Base64 rendering of a byte sequence, with `=` padding for a
/// trailing partial group.
pub open spec fn base64_of(bytes: Seq<u8>) -> Seq<char>
    decreases bytes.len(),
{
    if bytes.len() == 0 {
        Seq::empty()
    } else if bytes.len() == 1 {
        seq![b64_digit(bytes[0] / 4), b64_digit(((bytes[0] % 4) * 16) as u8), '=', '=']
    } else if bytes.len() == 2 {
        seq![
            b64_digit(bytes[0] / 4),
            b64_digit(((bytes[0] % 4) * 16 + bytes[1] / 16) as u8),
            b64_digit(((bytes[1] % 16) * 4) as u8),
            '=',
        ]
    } else {
        seq![
            b64_digit(bytes[0] / 4),
            b64_digit(((bytes[0] % 4) * 16 + bytes[1] / 16) as u8),
            b64_digit(((bytes[1] % 16) * 4 + bytes[2] / 64) as u8),
            b64_digit((bytes[2] % 64) as u8),
        ] + base64_of(bytes.skip(3))
    }
}

fn b64_char_exec(v: u8) -> (c: char)
    requires
        v < 64,
    ensures
        c == b64_digit(v),
{
    if v < 26 {
        (v + 65) as char
    } else if v < 52 {
        (v + 71) as char
    } else if v < 62 {
        (v - 4) as char
    } else if v == 62 {
        '+'
    } else {
        '/'
    }
}

/// Encodes bytes as standard Base64 with `=` padding.
pub fn base64(data: &[u8]) -> (r: String)
    ensures
        r@ == base64_of(data@),
{
    let len = data.len();
    let full = len / 3;
    let mut r = String::new();
    assert(data@.skip(0) =~= data@);
    for i in 0..full
        invariant
            len == data@.len(),
            full == data@.len() / 3,
            3 * full <= data@.len(),
            base64_of(data@) == r@ + base64_of(data@.skip(3 * i)),
    {
        let b0 = data[3 * i];
        let b1 = data[3 * i + 1];
        let b2 = data[3 * i + 2];
        let ghost tail = data@.skip(3 * i);
        let ghost r0 = r@;
        proof {
            assert(tail[0] == data@[3 * i] && tail[1] == data@[3 * i + 1] && tail[2] == data@[3 * i
                + 2]);
            assert(tail.skip(3) =~= data@.skip(3 * (i + 1)));
        }
        let c0 = b64_char_exec(b0 / 4);
        let c1 = b64_char_exec((b0 % 4) * 16 + b1 / 16);
        let c2 = b64_char_exec((b1 % 16) * 4 + b2 / 64);
        let c3 = b64_char_exec(b2 % 64);
        crate::text::push_char(&mut r, c0);
        crate::text::push_char(&mut r, c1);
        crate::text::push_char(&mut r, c2);
        crate::text::push_char(&mut r, c3);
        proof {
            let grp = seq![c0, c1, c2, c3];
            assert(r@ =~= r0 + grp);
            assert(base64_of(tail) == grp + base64_of(tail.skip(3)));
            assert(r0 + (grp + base64_of(tail.skip(3))) =~= (r0 + grp) + base64_of(tail.skip(3)));
        }
    }
    let ghost tail = data@.skip(3 * full as int);
    proof {
        assert(tail.len() == data@.len() - 3 * full < 3);
    }
    if len % 3 == 1 {
        let b0 = data[3 * full];
        assert(tail[0] == data@[3 * full as int]);
        let ghost r0 = r@;
        let c0 = b64_char_exec(b0 / 4);
        let c1 = b64_char_exec((b0 % 4) * 16);
        crate::text::push_char(&mut r, c0);
        crate::text::push_char(&mut r, c1);
        crate::text::push_char(&mut r, '=');
        crate::text::push_char(&mut r, '=');
        proof {
            assert(base64_of(tail) == seq![c0, c1, '=', '=']);
            assert(r@ =~= r0 + base64_of(tail));
        }
    } else if len % 3 == 2 {
        let b0 = data[3 * full];
        let b1 = data[3 * full + 1];
        assert(tail[0] == data@[3 * full as int] && tail[1] == data@[3 * full as int + 1]);
        let ghost r0 = r@;
        let c0 = b64_char_exec(b0 / 4);
        let c1 = b64_char_exec((b0 % 4) * 16 + b1 / 16);
        let c2 = b64_char_exec((b1 % 16) * 4);
        crate::text::push_char(&mut r, c0);
        crate::text::push_char(&mut r, c1);
        crate::text::push_char(&mut r, c2);
        crate::text::push_char(&mut r, '=');
        proof {
            assert(base64_of(tail) == seq![c0, c1, c2, '=']);
            assert(r@ =~= r0 + base64_of(tail));
        }
    } else {
        proof {
            assert(tail.len() == 0);
            assert(base64_of(tail) =~= Seq::<char>::empty());
            assert(r@ =~= r@ + Seq::<char>::empty());
        }
    }
    r
}

// ------------------------------------------------------------------
// Dispatch
// ------------------------------------------------------------------

/// The mathematical form of an `Encoding` value.
pub ghost enum EncodingV {
    Ascii85,
    Hexadecimal,
    Base64,
    Unknown(Seq<char>),
}

impl View for Encoding {
    type V = EncodingV;

    open spec fn view(&self) -> EncodingV {
        match self {
            Encoding::Ascii85 => EncodingV::Ascii85,
            Encoding::Hexadecimal => EncodingV::Hexadecimal,
            Encoding::Base64 => EncodingV::Base64,
            Encoding::Unknown(name) => EncodingV::Unknown(name@),
        }
    }
}

/// The text an encoding variant produces for a byte sequence. The named but
/// unresolved variant produces empty text.
pub open spec fn encoded(e: EncodingV, bytes: Seq<u8>) -> Seq<char> {
    match e {
        EncodingV::Ascii85 => ascii85_of(bytes),
        EncodingV::Hexadecimal => hex_of(bytes),
        EncodingV::Base64 => base64_of(bytes),
        EncodingV::Unknown(_) => Seq::empty(),
    }
}

impl Encoding {
    /// Encodes the data with the selected encoding function and returns the
    /// resulting text.
    pub fn encode_bytes(&self, data: &[u8]) -> (r: String)
        ensures
            r@ == encoded(self@, data@),
    {
        match self {
            Encoding::Ascii85 => ascii85(data),
            Encoding::Hexadecimal => hexadecimal(data),
            Encoding::Base64 => base64(data),
            Encoding::Unknown(_) => String::new(),
        }
    }
}

} // verus!

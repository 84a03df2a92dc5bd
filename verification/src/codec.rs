//! The on-disk format of a scope record: a JSON object holding two arrays of
//! path strings,
//! `{"allowed_paths":[...],"forbidden_paths":[...]}`,
//! written without whitespace and with the keys in this fixed order.
//!
//! Paths are byte strings; in a JSON string the quote and the backslash are
//! escaped with a backslash, and control bytes below 0x20 are written as
//! `\u00XX`. The decoder also accepts the usual short escapes (`\n`, `\t`,
//! `\r`, `\b`, `\f`, `\/`) and `\u00XX` for any byte below 0x80. Content in
//! any other shape — reordered or unknown keys, whitespace, non-string
//! items — does not parse, and the store treats it as corrupt.

use vstd::prelude::*;

use crate::paths::views;

verus! {

// ASCII codes of the bytes the format is built from.
pub const QUOTE: u8 = 34;
pub const BACKSLASH: u8 = 92;
pub const SLASH: u8 = 47;
pub const LBRACE: u8 = 123;
pub const RBRACE: u8 = 125;
pub const LBRACKET: u8 = 91;
pub const RBRACKET: u8 = 93;
pub const COMMA: u8 = 44;
pub const COLON: u8 = 58;
pub const DIGIT_0: u8 = 48;
pub const DIGIT_9: u8 = 57;
pub const LETTER_A: u8 = 97;
pub const LETTER_B: u8 = 98;
pub const LETTER_F: u8 = 102;
pub const LETTER_N: u8 = 110;
pub const LETTER_R: u8 = 114;
pub const LETTER_T: u8 = 116;
pub const LETTER_U: u8 = 117;
pub const UPPER_A: u8 = 65;
pub const UPPER_F: u8 = 70;
pub const NEWLINE: u8 = 10;
pub const TAB: u8 = 9;
pub const CARRIAGE: u8 = 13;

// ---------------------------------------------------------------------------
// Encoding, at the specification level
// ---------------------------------------------------------------------------

/// The lower-case hex digit for a value below 16.
pub open spec fn hex_digit(v: u8) -> u8 {
    if v < 10 {
        (DIGIT_0 + v) as u8
    } else {
        (LETTER_A + (v - 10)) as u8
    }
}

/// How one byte of a path is written inside a JSON string.
pub open spec fn escape_byte(b: u8) -> Seq<u8> {
    if b == QUOTE {
        seq![BACKSLASH, QUOTE]
    } else if b == BACKSLASH {
        seq![BACKSLASH, BACKSLASH]
    } else if b < 0x20 {
        seq![BACKSLASH, LETTER_U, DIGIT_0, DIGIT_0, hex_digit(b / 16), hex_digit(b % 16)]
    } else {
        seq![b]
    }
}

/// A whole path, escaped byte by byte.
pub open spec fn escape_bytes(s: Seq<u8>) -> Seq<u8>
    decreases s.len(),
{
    if s.len() == 0 {
        Seq::empty()
    } else {
        escape_byte(s[0]) + escape_bytes(s.drop_first())
    }
}

/// A JSON string: the escaped path between two quotes.
pub open spec fn enc_string(s: Seq<u8>) -> Seq<u8> {
    seq![QUOTE] + escape_bytes(s) + seq![QUOTE]
}

/// The comma-separated items of a JSON array of strings.
pub open spec fn enc_items(l: Seq<Seq<u8>>) -> Seq<u8>
    decreases l.len(),
{
    if l.len() == 0 {
        Seq::empty()
    } else if l.len() == 1 {
        enc_string(l[0])
    } else {
        enc_string(l[0]) + seq![COMMA] + enc_items(l.drop_first())
    }
}

/// A JSON array of strings.
pub open spec fn enc_array(l: Seq<Seq<u8>>) -> Seq<u8> {
    seq![LBRACKET] + enc_items(l) + seq![RBRACKET]
}

/// The opening brace and the first key: `{"allowed_paths":`.
pub open spec fn key_allowed() -> Seq<u8> {
    seq![
        LBRACE, QUOTE, LETTER_A, 108, 108, 111, 119, 101, 100, 95, 112, LETTER_A, LETTER_T, 104,
        115, QUOTE, COLON,
    ]
}

/// The separator and the second key: `,"forbidden_paths":`.
pub open spec fn key_forbidden() -> Seq<u8> {
    seq![
        COMMA, QUOTE, LETTER_F, 111, LETTER_R, LETTER_B, 105, 100, 100, 101, LETTER_N, 95, 112, LETTER_A,
        LETTER_T, 104, 115, QUOTE, COLON,
    ]
}

/// The complete serialized record for the two path lists.
pub open spec fn enc_record(a: Seq<Seq<u8>>, f: Seq<Seq<u8>>) -> Seq<u8> {
    key_allowed() + enc_array(a) + key_forbidden() + enc_array(f) + seq![RBRACE]
}

// ---------------------------------------------------------------------------
// Parsing, at the specification level
// ---------------------------------------------------------------------------

/// The byte denoted by a one-letter escape, if the letter is one.
pub open spec fn unescape_simple(b: u8) -> Option<u8> {
    if b == QUOTE {
        Some(QUOTE)
    } else if b == BACKSLASH {
        Some(BACKSLASH)
    } else if b == SLASH {
        Some(SLASH)
    } else if b == LETTER_N {
        Some(NEWLINE)
    } else if b == LETTER_T {
        Some(TAB)
    } else if b == LETTER_R {
        Some(CARRIAGE)
    } else if b == LETTER_B {
        Some(0x08)
    } else if b == LETTER_F {
        Some(0x0c)
    } else {
        None
    }
}

/// The value of a hex digit, if the byte is one.
pub open spec fn hex_val(b: u8) -> Option<u8> {
    if DIGIT_0 <= b && b <= DIGIT_9 {
        Some((b - DIGIT_0) as u8)
    } else if LETTER_A <= b && b <= LETTER_F {
        Some((b - LETTER_A + 10) as u8)
    } else if UPPER_A <= b && b <= UPPER_F {
        Some((b - UPPER_A + 10) as u8)
    } else {
        None
    }
}

/// Parses the inside of a JSON string up to and including the closing quote;
/// yields the unescaped bytes and the remainder of the input.
pub open spec fn p_str_body(s: Seq<u8>) -> Option<(Seq<u8>, Seq<u8>)>
    decreases s.len(),
{
    if s.len() == 0 {
        None
    } else if s[0] == QUOTE {
        Some((Seq::empty(), s.drop_first()))
    } else if s[0] == BACKSLASH {
        if s.len() < 2 {
            None
        } else if unescape_simple(s[1]) is Some {
            match p_str_body(s.skip(2)) {
                Some(p) => Some((seq![unescape_simple(s[1]).unwrap()] + p.0, p.1)),
                None => None,
            }
        } else if s[1] == LETTER_U {
            if s.len() < 6 {
                None
            } else if s[2] == DIGIT_0 && s[3] == DIGIT_0 && hex_val(s[4]) is Some && hex_val(
                s[5],
            ) is Some && hex_val(s[4]).unwrap() < 8 {
                match p_str_body(s.skip(6)) {
                    Some(p) => Some(
                        (
                            seq![(hex_val(s[4]).unwrap() * 16 + hex_val(s[5]).unwrap()) as u8]
                                + p.0,
                            p.1,
                        ),
                    ),
                    None => None,
                }
            } else {
                None
            }
        } else {
            None
        }
    } else if s[0] < 0x20 {
        None
    } else {
        match p_str_body(s.drop_first()) {
            Some(p) => Some((seq![s[0]] + p.0, p.1)),
            None => None,
        }
    }
}

/// Parses one JSON string, opening quote included.
pub open spec fn p_string(s: Seq<u8>) -> Option<(Seq<u8>, Seq<u8>)> {
    if s.len() >= 1 && s[0] == QUOTE {
        p_str_body(s.drop_first())
    } else {
        None
    }
}

/// A successful string parse consumes at least one byte.
pub proof fn lemma_p_str_body_progress(s: Seq<u8>)
    ensures
        p_str_body(s) matches Some(p) ==> p.1.len() < s.len(),
    decreases s.len(),
{
    if s.len() == 0 {
    } else if s[0] == QUOTE {
    } else if s[0] == BACKSLASH {
        if s.len() >= 2 && unescape_simple(s[1]) is Some {
            lemma_p_str_body_progress(s.skip(2));
        } else if s.len() >= 6 && s[1] == LETTER_U {
            lemma_p_str_body_progress(s.skip(6));
        }
    } else {
        lemma_p_str_body_progress(s.drop_first());
    }
}

/// A successful string parse consumes at least two bytes.
pub proof fn lemma_p_string_progress(s: Seq<u8>)
    ensures
        p_string(s) matches Some(p) ==> p.1.len() < s.len() - 1,
{
    if s.len() >= 1 && s[0] == QUOTE {
        lemma_p_str_body_progress(s.drop_first());
    }
}

/// Parses the items of a non-empty JSON array of strings, up to and including
/// the closing bracket.
pub open spec fn p_items(s: Seq<u8>) -> Option<(Seq<Seq<u8>>, Seq<u8>)>
    decreases s.len(),
    via p_items_decreases
{
    match p_string(s) {
        None => None,
        Some((v, r)) => {
            if r.len() >= 1 && r[0] == COMMA {
                match p_items(r.drop_first()) {
                    Some(p) => Some((seq![v] + p.0, p.1)),
                    None => None,
                }
            } else if r.len() >= 1 && r[0] == RBRACKET {
                Some((seq![v], r.drop_first()))
            } else {
                None
            }
        },
    }
}

#[via_fn]
proof fn p_items_decreases(s: Seq<u8>) {
    lemma_p_string_progress(s);
}

/// Parses one JSON array of strings, brackets included.
pub open spec fn p_array(s: Seq<u8>) -> Option<(Seq<Seq<u8>>, Seq<u8>)> {
    if s.len() >= 1 && s[0] == LBRACKET {
        let r = s.drop_first();
        if r.len() >= 1 && r[0] == RBRACKET {
            Some((Seq::empty(), r.drop_first()))
        } else {
            p_items(r)
        }
    } else {
        None
    }
}

/// Whether `s` begins with `pre`.
pub open spec fn starts_with(s: Seq<u8>, pre: Seq<u8>) -> bool {
    s.len() >= pre.len() && s.take(pre.len() as int) == pre
}

/// Parses a complete serialized record; `None` on any malformed input.
pub open spec fn parse_record(s: Seq<u8>) -> Option<(Seq<Seq<u8>>, Seq<Seq<u8>>)> {
    if starts_with(s, key_allowed()) {
        match p_array(s.skip(key_allowed().len() as int)) {
            Some((a, r)) => {
                if starts_with(r, key_forbidden()) {
                    match p_array(r.skip(key_forbidden().len() as int)) {
                        Some((f, r2)) => {
                            if r2.len() == 1 && r2[0] == RBRACE {
                                Some((a, f))
                            } else {
                                None
                            }
                        },
                        None => None,
                    }
                } else {
                    None
                }
            },
            None => None,
        }
    } else {
        None
    }
}

// ---------------------------------------------------------------------------
// Round trip: parsing inverts encoding
// ---------------------------------------------------------------------------

/// Reading a hex digit back yields the value it was written from.
proof fn lemma_hex_digit_val(v: u8)
    requires
        v < 16,
    ensures
        hex_val(hex_digit(v)) == Some(v),
{
}

/// Escaped bytes followed by a closing quote parse back to the same bytes.
proof fn lemma_p_str_body_escape(p: Seq<u8>, rest: Seq<u8>)
    ensures
        p_str_body(escape_bytes(p) + seq![QUOTE] + rest) == Some((p, rest)),
    decreases p.len(),
{
    let s = escape_bytes(p) + seq![QUOTE] + rest;
    if p.len() == 0 {
        assert(s =~= seq![QUOTE] + rest);
        assert(s.drop_first() =~= rest);
    } else {
        let b = p[0];
        let e = escape_byte(b);
        let tail = escape_bytes(p.drop_first()) + seq![QUOTE] + rest;
        assert(s =~= e + tail);
        lemma_p_str_body_escape(p.drop_first(), rest);
        if b == QUOTE {
            assert(s.skip(2) =~= tail);
            assert(seq![QUOTE] + p.drop_first() =~= p);
        } else if b == BACKSLASH {
            assert(s.skip(2) =~= tail);
            assert(seq![BACKSLASH] + p.drop_first() =~= p);
        } else if b < 0x20 {
            let hi = b / 16;
            let lo = b % 16;
            assert(hi < 2 && lo < 16) by (nonlinear_arith)
                requires
                    b < 0x20,
                    hi == b / 16,
                    lo == b % 16,
            ;
            lemma_hex_digit_val(hi);
            lemma_hex_digit_val(lo);
            assert(s.len() >= 6);
            assert(s[0] == BACKSLASH && s[1] == LETTER_U && s[2] == DIGIT_0 && s[3] == DIGIT_0);
            assert(s[4] == hex_digit(hi) && s[5] == hex_digit(lo));
            assert(unescape_simple(LETTER_U) is None);
            assert(hi * 16 + lo == b) by (nonlinear_arith)
                requires
                    hi == b / 16,
                    lo == b % 16,
            ;
            assert(s.skip(6) =~= tail);
            assert(seq![b] + p.drop_first() =~= p);
        } else {
            assert(s[0] == b && b != QUOTE && b != BACKSLASH && b >= 0x20);
            assert(s.drop_first() =~= tail);
            assert(seq![b] + p.drop_first() =~= p);
        }
    }
}

/// An encoded string followed by anything parses back to the same bytes.
proof fn lemma_p_string_enc(p: Seq<u8>, rest: Seq<u8>)
    ensures
        p_string(enc_string(p) + rest) == Some((p, rest)),
{
    let s = enc_string(p) + rest;
    assert(s[0] == QUOTE);
    assert(s.drop_first() =~= escape_bytes(p) + seq![QUOTE] + rest);
    lemma_p_str_body_escape(p, rest);
}

/// Encoded items of a non-empty list, with the closing bracket, parse back to
/// the same list.
proof fn lemma_p_items_enc(l: Seq<Seq<u8>>, rest: Seq<u8>)
    requires
        l.len() >= 1,
    ensures
        p_items(enc_items(l) + seq![RBRACKET] + rest) == Some((l, rest)),
    decreases l.len(),
{
    let s = enc_items(l) + seq![RBRACKET] + rest;
    if l.len() == 1 {
        let r1 = seq![RBRACKET] + rest;
        assert(s =~= enc_string(l[0]) + r1);
        lemma_p_string_enc(l[0], r1);
        assert(r1[0] == RBRACKET);
        assert(r1.drop_first() =~= rest);
        assert(seq![l[0]] =~~= l);
    } else {
        let r1 = seq![COMMA] + enc_items(l.drop_first()) + seq![RBRACKET] + rest;
        assert(s =~= enc_string(l[0]) + r1);
        lemma_p_string_enc(l[0], r1);
        assert(r1[0] == COMMA);
        assert(r1.drop_first() =~= enc_items(l.drop_first()) + seq![RBRACKET] + rest);
        lemma_p_items_enc(l.drop_first(), rest);
        assert(seq![l[0]] + l.drop_first() =~~= l);
    }
}

/// An encoded array followed by anything parses back to the same list.
proof fn lemma_p_array_enc(l: Seq<Seq<u8>>, rest: Seq<u8>)
    ensures
        p_array(enc_array(l) + rest) == Some((l, rest)),
{
    let s = enc_array(l) + rest;
    assert(s[0] == LBRACKET);
    let r = s.drop_first();
    assert(r =~= enc_items(l) + seq![RBRACKET] + rest);
    if l.len() == 0 {
        assert(r =~= seq![RBRACKET] + rest);
        assert(r[0] == RBRACKET);
        assert(r.drop_first() =~= rest);
        assert(Seq::<Seq<u8>>::empty() =~~= l);
    } else {
        assert(enc_items(l)[0] == QUOTE) by {
            assert(enc_items(l).len() >= 1);
            assert(enc_string(l[0])[0] == QUOTE);
        }
        assert(r[0] == QUOTE);
        lemma_p_items_enc(l, rest);
    }
}

/// Round trip: the serialized form of any two path lists parses back to
/// exactly those lists. Together with the contracts of [`encode_record`] and
/// [`decode_record`], a record saved and loaded again denotes the same two
/// path sets.
pub proof fn lemma_parse_enc_record(a: Seq<Seq<u8>>, f: Seq<Seq<u8>>)
    ensures
        parse_record(enc_record(a, f)) == Some((a, f)),
{
    let s = enc_record(a, f);
    let rest_a = key_forbidden() + enc_array(f) + seq![RBRACE];
    assert(starts_with(s, key_allowed())) by {
        assert(s.take(key_allowed().len() as int) =~= key_allowed());
    }
    assert(s.skip(key_allowed().len() as int) =~= enc_array(a) + rest_a);
    lemma_p_array_enc(a, rest_a);
    assert(starts_with(rest_a, key_forbidden())) by {
        assert(rest_a.take(key_forbidden().len() as int) =~= key_forbidden());
    }
    assert(rest_a.skip(key_forbidden().len() as int) =~= enc_array(f) + seq![RBRACE]);
    lemma_p_array_enc(f, seq![RBRACE]);
}

// ---------------------------------------------------------------------------
// The executable encoder
// ---------------------------------------------------------------------------

/// Escaping distributes over concatenation.
proof fn lemma_escape_bytes_add(a: Seq<u8>, b: Seq<u8>)
    ensures
        escape_bytes(a + b) == escape_bytes(a) + escape_bytes(b),
    decreases a.len(),
{
    if a.len() == 0 {
        assert(a + b =~= b);
        assert(escape_bytes(a) + escape_bytes(b) =~= escape_bytes(b));
    } else {
        assert((a + b).drop_first() =~= a.drop_first() + b);
        lemma_escape_bytes_add(a.drop_first(), b);
        assert(escape_byte(a[0]) + (escape_bytes(a.drop_first()) + escape_bytes(b)) =~= (
        escape_byte(a[0]) + escape_bytes(a.drop_first())) + escape_bytes(b));
    }
}

/// Escaping a single byte is its escape sequence.
proof fn lemma_escape_bytes_single(b: u8)
    ensures
        escape_bytes(seq![b]) == escape_byte(b),
{
    let s = seq![b];
    assert(s.len() == 1 && s[0] == b);
    assert(s.drop_first() =~= Seq::<u8>::empty());
    assert(escape_bytes(s.drop_first()) == Seq::<u8>::empty());
    assert(escape_byte(b) + Seq::<u8>::empty() =~= escape_byte(b));
}

/// Escaping one more byte appends its escape sequence.
proof fn lemma_escape_bytes_snoc(a: Seq<u8>, b: u8)
    ensures
        escape_bytes(a.push(b)) == escape_bytes(a) + escape_byte(b),
{
    assert(a.push(b) =~= a + seq![b]);
    lemma_escape_bytes_add(a, seq![b]);
    lemma_escape_bytes_single(b);
}

/// Encoding one more item appends a comma and its string.
proof fn lemma_enc_items_snoc(l: Seq<Seq<u8>>, v: Seq<u8>)
    requires
        l.len() >= 1,
    ensures
        enc_items(l.push(v)) == enc_items(l) + seq![COMMA] + enc_string(v),
    decreases l.len(),
{
    let lp = l.push(v);
    if l.len() == 1 {
        assert(lp.drop_first() =~~= seq![v]);
        assert(enc_items(seq![v]) == enc_string(v));
        assert(enc_string(lp[0]) + seq![COMMA] + enc_string(v) =~= enc_items(l) + seq![COMMA]
            + enc_string(v));
    } else {
        assert(lp.drop_first() =~~= l.drop_first().push(v));
        lemma_enc_items_snoc(l.drop_first(), v);
        assert(enc_string(l[0]) + seq![COMMA] + (enc_items(l.drop_first()) + seq![COMMA]
            + enc_string(v)) =~= (enc_string(l[0]) + seq![COMMA] + enc_items(l.drop_first()))
            + seq![COMMA] + enc_string(v));
    }
}

/// The lower-case hex digit for a value below 16.
fn hex_digit_exec(v: u8) -> (r: u8)
    requires
        v < 16,
    ensures
        r == hex_digit(v),
{
    if v < 10 {
        DIGIT_0 + v
    } else {
        LETTER_A + (v - 10)
    }
}

/// Appends the escape sequence of one path byte.
fn push_escaped(out: &mut Vec<u8>, b: u8)
    ensures
        final(out)@ == old(out)@ + escape_byte(b),
{
    if b == QUOTE {
        out.push(BACKSLASH);
        out.push(QUOTE);
        proof {
            assert(out@ =~= old(out)@ + escape_byte(b));
        }
    } else if b == BACKSLASH {
        out.push(BACKSLASH);
        out.push(BACKSLASH);
        proof {
            assert(out@ =~= old(out)@ + escape_byte(b));
        }
    } else if b < 0x20 {
        out.push(BACKSLASH);
        out.push(LETTER_U);
        out.push(DIGIT_0);
        out.push(DIGIT_0);
        out.push(hex_digit_exec(b / 16));
        out.push(hex_digit_exec(b % 16));
        proof {
            assert(out@ =~= old(out)@ + escape_byte(b));
        }
    } else {
        out.push(b);
        proof {
            assert(out@ =~= old(out)@ + escape_byte(b));
        }
    }
}

/// Appends one path as a JSON string.
fn push_string(out: &mut Vec<u8>, p: &Vec<u8>)
    ensures
        final(out)@ == old(out)@ + enc_string(p@),
{
    out.push(QUOTE);
    let mut i: usize = 0;
    while i < p.len()
        invariant
            i <= p.len(),
            out@ == old(out)@ + seq![QUOTE] + escape_bytes(p@.take(i as int)),
        decreases p.len() - i,
    {
        push_escaped(out, p[i]);
        proof {
            assert(p@.take(i + 1 as int) =~= p@.take(i as int).push(p@[i as int]));
            lemma_escape_bytes_snoc(p@.take(i as int), p@[i as int]);
            assert(out@ =~= old(out)@ + seq![QUOTE] + escape_bytes(p@.take(i + 1 as int)));
        }
        i += 1;
    }
    out.push(QUOTE);
    proof {
        assert(p@.take(p@.len() as int) =~= p@);
        assert(out@ =~= old(out)@ + enc_string(p@));
    }
}

/// Appends one path list as a JSON array of strings.
fn push_array(out: &mut Vec<u8>, l: &Vec<Vec<u8>>)
    ensures
        final(out)@ == old(out)@ + enc_array(views(l@)),
{
    out.push(LBRACKET);
    let mut i: usize = 0;
    while i < l.len()
        invariant
            i <= l.len(),
            out@ == old(out)@ + seq![LBRACKET] + enc_items(views(l@).take(i as int)),
        decreases l.len() - i,
    {
        if i > 0 {
            out.push(COMMA);
        }
        push_string(out, &l[i]);
        proof {
            let vs = views(l@);
            assert(vs[i as int] == l@[i as int]@);
            assert(vs.take(i + 1 as int) =~~= vs.take(i as int).push(vs[i as int]));
            if i == 0 {
                assert(vs.take(1) =~~= seq![vs[0]]);
                assert(enc_items(seq![vs[0]]) == enc_string(vs[0]));
                assert(out@ =~= old(out)@ + seq![LBRACKET] + enc_items(vs.take(i + 1 as int)));
            } else {
                lemma_enc_items_snoc(vs.take(i as int), vs[i as int]);
                assert(out@ =~= old(out)@ + seq![LBRACKET] + enc_items(vs.take(i + 1 as int)));
            }
        }
        i += 1;
    }
    out.push(RBRACKET);
    proof {
        assert(views(l@).take(l@.len() as int) =~~= views(l@));
        assert(out@ =~= old(out)@ + enc_array(views(l@)));
    }
}

/// Appends the opening brace and the first key.
fn push_key_allowed(out: &mut Vec<u8>)
    ensures
        final(out)@ == old(out)@ + key_allowed(),
{
    out.push(LBRACE);
    out.push(QUOTE);
    out.push(LETTER_A);
    out.push(108);  // l
    out.push(108);  // l
    out.push(111);  // o
    out.push(119);  // w
    out.push(101);  // e
    out.push(100);  // d
    out.push(95);  // _
    out.push(112);  // p
    out.push(LETTER_A);
    out.push(LETTER_T);
    out.push(104);  // h
    out.push(115);  // s
    out.push(QUOTE);
    out.push(COLON);
    proof {
        assert(out@ =~= old(out)@ + key_allowed());
    }
}

/// Appends the separator and the second key.
fn push_key_forbidden(out: &mut Vec<u8>)
    ensures
        final(out)@ == old(out)@ + key_forbidden(),
{
    out.push(COMMA);
    out.push(QUOTE);
    out.push(LETTER_F);
    out.push(111);  // o
    out.push(LETTER_R);
    out.push(LETTER_B);
    out.push(105);  // i
    out.push(100);  // d
    out.push(100);  // d
    out.push(101);  // e
    out.push(LETTER_N);
    out.push(95);  // _
    out.push(112);  // p
    out.push(LETTER_A);
    out.push(LETTER_T);
    out.push(104);  // h
    out.push(115);  // s
    out.push(QUOTE);
    out.push(COLON);
    proof {
        assert(out@ =~= old(out)@ + key_forbidden());
    }
}

/// Serializes two path lists into the on-disk record format.
pub fn encode_record(allowed: &Vec<Vec<u8>>, forbidden: &Vec<Vec<u8>>) -> (out: Vec<u8>)
    ensures
        out@ == enc_record(views(allowed@), views(forbidden@)),
{
    let mut out: Vec<u8> = Vec::new();
    push_key_allowed(&mut out);
    push_array(&mut out, allowed);
    push_key_forbidden(&mut out);
    push_array(&mut out, forbidden);
    out.push(RBRACE);
    proof {
        assert(out@ =~= enc_record(views(allowed@), views(forbidden@)));
    }
    out
}

// ---------------------------------------------------------------------------
// The executable decoder
// ---------------------------------------------------------------------------

/// The byte denoted by a one-letter escape, if the letter is one.
fn unescape_simple_exec(b: u8) -> (r: Option<u8>)
    ensures
        r == unescape_simple(b),
{
    if b == QUOTE {
        Some(QUOTE)
    } else if b == BACKSLASH {
        Some(BACKSLASH)
    } else if b == SLASH {
        Some(SLASH)
    } else if b == LETTER_N {
        Some(NEWLINE)
    } else if b == LETTER_T {
        Some(TAB)
    } else if b == LETTER_R {
        Some(CARRIAGE)
    } else if b == LETTER_B {
        Some(0x08)
    } else if b == LETTER_F {
        Some(0x0c)
    } else {
        None
    }
}

/// The value of a hex digit, if the byte is one.
fn hex_val_exec(b: u8) -> (r: Option<u8>)
    ensures
        r == hex_val(b),
{
    if DIGIT_0 <= b && b <= DIGIT_9 {
        Some(b - DIGIT_0)
    } else if LETTER_A <= b && b <= LETTER_F {
        Some(b - LETTER_A + 10)
    } else if UPPER_A <= b && b <= UPPER_F {
        Some(b - UPPER_A + 10)
    } else {
        None
    }
}

/// Parses the inside of a JSON string from index `i`, mirroring
/// [`p_str_body`] on the remaining input.
fn parse_str_body(s: &Vec<u8>, i: usize) -> (r: Option<(Vec<u8>, usize)>)
    requires
        i <= s.len(),
    ensures
        match r {
            Some(p) => i < p.1 <= s.len() && p_str_body(s@.skip(i as int)) == Some(
                (p.0@, s@.skip(p.1 as int)),
            ),
            None => p_str_body(s@.skip(i as int)) is None,
        },
    decreases s.len() - i,
{
    let ghost ss = s@.skip(i as int);
    let rem = s.len() - i;
    if rem == 0 {
        return None;
    }
    let b = s[i];
    proof {
        assert(ss[0] == b);
    }
    if b == QUOTE {
        proof {
            assert(ss.drop_first() =~= s@.skip(i as int + 1));
        }
        return Some((Vec::new(), i + 1));
    }
    if b == BACKSLASH {
        if rem < 2 {
            return None;
        }
        let c = s[i + 1];
        proof {
            assert(ss[1] == c);
        }
        match unescape_simple_exec(c) {
            Some(u) => {
                proof {
                    assert(ss.skip(2) =~= s@.skip(i as int + 2));
                }
                match parse_str_body(s, i + 2) {
                    Some((v0, j)) => {
                        let mut v = v0;
                        v.insert(0, u);
                        proof {
                            assert(v@ =~= seq![u] + v0@);
                        }
                        Some((v, j))
                    },
                    None => None,
                }
            },
            None => {
                if c != LETTER_U {
                    return None;
                }
                if rem < 6 {
                    return None;
                }
                proof {
                    assert(ss[2] == s@[i as int + 2]);
                    assert(ss[3] == s@[i as int + 3]);
                    assert(ss[4] == s@[i as int + 4]);
                    assert(ss[5] == s@[i as int + 5]);
                }
                if s[i + 2] != DIGIT_0 || s[i + 3] != DIGIT_0 {
                    return None;
                }
                let h4 = hex_val_exec(s[i + 4]);
                let h5 = hex_val_exec(s[i + 5]);
                match (h4, h5) {
                    (Some(hi), Some(lo)) => {
                        if hi >= 8 {
                            return None;
                        }
                        proof {
                            assert(ss.skip(6) =~= s@.skip(i as int + 6));
                        }
                        match parse_str_body(s, i + 6) {
                            Some((v0, j)) => {
                                let mut v = v0;
                                v.insert(0, hi * 16 + lo);
                                proof {
                                    assert(v@ =~= seq![(hi * 16 + lo) as u8] + v0@);
                                }
                                Some((v, j))
                            },
                            None => None,
                        }
                    },
                    _ => None,
                }
            },
        }
    } else if b < 0x20 {
        None
    } else {
        proof {
            assert(ss.drop_first() =~= s@.skip(i as int + 1));
        }
        match parse_str_body(s, i + 1) {
            Some((v0, j)) => {
                let mut v = v0;
                v.insert(0, b);
                proof {
                    assert(v@ =~= seq![b] + v0@);
                }
                Some((v, j))
            },
            None => None,
        }
    }
}

/// Parses one JSON string from index `i`, mirroring [`p_string`].
fn parse_string_at(s: &Vec<u8>, i: usize) -> (r: Option<(Vec<u8>, usize)>)
    requires
        i <= s.len(),
    ensures
        match r {
            Some(p) => i < p.1 <= s.len() && p_string(s@.skip(i as int)) == Some(
                (p.0@, s@.skip(p.1 as int)),
            ),
            None => p_string(s@.skip(i as int)) is None,
        },
{
    if s.len() - i < 1 {
        return None;
    }
    if s[i] != QUOTE {
        proof {
            assert(s@.skip(i as int)[0] == s@[i as int]);
        }
        return None;
    }
    proof {
        assert(s@.skip(i as int)[0] == QUOTE);
        assert(s@.skip(i as int).drop_first() =~= s@.skip(i as int + 1));
    }
    parse_str_body(s, i + 1)
}

/// Parses the items of a non-empty array from index `i`, mirroring
/// [`p_items`].
fn parse_items(s: &Vec<u8>, i: usize) -> (r: Option<(Vec<Vec<u8>>, usize)>)
    requires
        i <= s.len(),
    ensures
        match r {
            Some(p) => i < p.1 <= s.len() && p_items(s@.skip(i as int)) == Some(
                (views(p.0@), s@.skip(p.1 as int)),
            ),
            None => p_items(s@.skip(i as int)) is None,
        },
    decreases s.len() - i,
{
    match parse_string_at(s, i) {
        None => None,
        Some((v, j)) => {
            let ghost r_spec = s@.skip(j as int);
            if s.len() - j >= 1 && s[j] == COMMA {
                proof {
                    assert(r_spec[0] == COMMA);
                    assert(r_spec.drop_first() =~= s@.skip(j as int + 1));
                }
                match parse_items(s, j + 1) {
                    Some((l0, k)) => {
                        let mut l = l0;
                        l.insert(0, v);
                        proof {
                            assert(views(l@) =~~= seq![v@] + views(l0@));
                        }
                        Some((l, k))
                    },
                    None => None,
                }
            } else if s.len() - j >= 1 && s[j] == RBRACKET {
                proof {
                    assert(r_spec[0] == RBRACKET);
                    assert(r_spec.drop_first() =~= s@.skip(j as int + 1));
                }
                let mut l: Vec<Vec<u8>> = Vec::new();
                l.push(v);
                proof {
                    assert(views(l@) =~~= seq![v@]);
                }
                Some((l, j + 1))
            } else {
                proof {
                    if r_spec.len() >= 1 {
                        assert(r_spec[0] == s@[j as int]);
                    }
                }
                None
            }
        },
    }
}

/// Parses one JSON array of strings from index `i`, mirroring [`p_array`].
fn parse_array_at(s: &Vec<u8>, i: usize) -> (r: Option<(Vec<Vec<u8>>, usize)>)
    requires
        i <= s.len(),
    ensures
        match r {
            Some(p) => i < p.1 <= s.len() && p_array(s@.skip(i as int)) == Some(
                (views(p.0@), s@.skip(p.1 as int)),
            ),
            None => p_array(s@.skip(i as int)) is None,
        },
{
    let ghost ss = s@.skip(i as int);
    if s.len() - i < 1 {
        return None;
    }
    proof {
        assert(ss[0] == s@[i as int]);
    }
    if s[i] != LBRACKET {
        return None;
    }
    proof {
        assert(ss.drop_first() =~= s@.skip(i as int + 1));
    }
    if s.len() - (i + 1) >= 1 && s[i + 1] == RBRACKET {
        proof {
            assert(ss.drop_first()[0] == s@[i as int + 1]);
            assert(ss.drop_first().drop_first() =~= s@.skip(i as int + 2));
        }
        let l: Vec<Vec<u8>> = Vec::new();
        proof {
            assert(views(l@) =~~= Seq::<Seq<u8>>::empty());
        }
        return Some((l, i + 2));
    }
    proof {
        if ss.drop_first().len() >= 1 {
            assert(ss.drop_first()[0] == s@[i as int + 1]);
        }
    }
    parse_items(s, i + 1)
}

/// Whether the bytes at index `i` begin with `key`.
fn starts_with_at(s: &Vec<u8>, i: usize, key: &Vec<u8>) -> (r: bool)
    requires
        i <= s.len(),
    ensures
        r == starts_with(s@.skip(i as int), key@),
{
    let ghost ss = s@.skip(i as int);
    if s.len() - i < key.len() {
        return false;
    }
    let mut k: usize = 0;
    while k < key.len()
        invariant
            k <= key.len(),
            i <= s.len(),
            s.len() - i >= key.len(),
            ss == s@.skip(i as int),
            forall|t: int| 0 <= t < k ==> s@[i + t] == key@[t],
        decreases key.len() - k,
    {
        if s[i + k] != key[k] {
            proof {
                let kk = k as int;
                assert(ss.len() == s@.len() - i);
                assert(ss[kk] == s@[i + kk]);
                assert(ss.take(key@.len() as int)[kk] == ss[kk]);
                assert(ss.take(key@.len() as int)[kk] != key@[kk]);
            }
            return false;
        }
        k += 1;
    }
    proof {
        assert(ss.take(key@.len() as int) =~= key@);
    }
    true
}

/// Parses a complete serialized record, mirroring [`parse_record`]; yields
/// the two path lists exactly as they stand in the file, duplicates
/// included.
pub fn decode_record(s: &Vec<u8>) -> (r: Option<(Vec<Vec<u8>>, Vec<Vec<u8>>)>)
    ensures
        match r {
            Some(p) => parse_record(s@) == Some((views(p.0@), views(p.1@))),
            None => parse_record(s@) is None,
        },
{
    let mut ka: Vec<u8> = Vec::new();
    push_key_allowed(&mut ka);
    proof {
        assert(s@.skip(0) =~= s@);
    }
    if !starts_with_at(s, 0, &ka) {
        return None;
    }
    match parse_array_at(s, ka.len()) {
        None => None,
        Some((a, j)) => {
            let ghost r1 = s@.skip(j as int);
            let mut kf: Vec<u8> = Vec::new();
            push_key_forbidden(&mut kf);
            if !starts_with_at(s, j, &kf) {
                return None;
            }
            proof {
                assert(r1.skip(key_forbidden().len() as int) =~= s@.skip(
                    j as int + key_forbidden().len() as int,
                ));
            }
            match parse_array_at(s, j + kf.len()) {
                None => None,
                Some((f, k)) => {
                    let ghost r2 = s@.skip(k as int);
                    if s.len() - k == 1 && s[k] == RBRACE {
                        proof {
                            assert(r2.len() == 1 && r2[0] == RBRACE);
                        }
                        Some((a, f))
                    } else {
                        proof {
                            if r2.len() >= 1 {
                                assert(r2[0] == s@[k as int]);
                            }
                        }
                        None
                    }
                },
            }
        },
    }
}

} // verus!

use vstd::prelude::*;
use crate::chars::{spec_utf8_width, is_trailing, spec_seq_value, shortest_form};
use crate::types::yaml_encoding_t;

verus! {

/// The outcome of decoding one character at the front of a run of raw octets.
#[derive(Clone, Copy, Debug)]
pub enum DecodeStep {
    /// A character and the number of octets it takes.
    Char(u32, usize),
    /// The octets end inside a character and more input may follow.
    Incomplete,
    /// The octets cannot be decoded: the problem, the offset of the
    /// offending octet from the front, and the offending value (or -1).
    Fail(&'static str, usize, i32),
}

pub open spec fn first_bad_trailing(s: Seq<u8>, k: nat, w: nat) -> Option<nat>
    decreases w - k,
{
    if k >= w {
        None
    } else if !is_trailing(s[k as int]) {
        Some(k)
    } else {
        first_bad_trailing(s, k + 1, w)
    }
}

/// Decoding of one UTF-8 character at the front of `s` (`s` is not empty).
pub open spec fn utf8_step(s: Seq<u8>, eof: bool) -> DecodeStep {
    let octet = s[0];
    let w = spec_utf8_width(octet);
    if w == 0 {
        DecodeStep::Fail("invalid leading UTF-8 octet", 0, octet as i32)
    } else if w > s.len() {
        if eof {
            DecodeStep::Fail("incomplete UTF-8 octet sequence", 0, -1i32)
        } else {
            DecodeStep::Incomplete
        }
    } else {
        match first_bad_trailing(s, 1, w) {
            Some(k) => DecodeStep::Fail("invalid trailing UTF-8 octet", k as usize, s[k as int] as i32),
            None => {
                let v = spec_seq_value(s, w);
                if !shortest_form(w, v) {
                    DecodeStep::Fail("invalid length of a UTF-8 sequence", 0, -1i32)
                } else if (0xD800 <= v <= 0xDFFF) || v > 0x10FFFF {
                    DecodeStep::Fail("invalid Unicode character", 0, v as i32)
                } else {
                    DecodeStep::Char(v as u32, w as usize)
                }
            },
        }
    }
}

/// The 16-bit unit at `i` (little-endian when `le`).
pub open spec fn unit16(s: Seq<u8>, i: int, le: bool) -> nat {
    if le {
        (s[i] + s[i + 1] * 256) as nat
    } else {
        (s[i] * 256 + s[i + 1]) as nat
    }
}

/// Decoding of one UTF-16 character at the front of `s` (`s` is not empty).
pub open spec fn utf16_step(s: Seq<u8>, eof: bool, le: bool) -> DecodeStep {
    if s.len() < 2 {
        if eof {
            DecodeStep::Fail("incomplete UTF-16 character", 0, -1i32)
        } else {
            DecodeStep::Incomplete
        }
    } else {
        let v = unit16(s, 0, le);
        if 0xDC00 <= v < 0xE000 {
            DecodeStep::Fail("unexpected low surrogate area", 0, v as i32)
        } else if 0xD800 <= v < 0xDC00 {
            if s.len() < 4 {
                if eof {
                    DecodeStep::Fail("incomplete UTF-16 surrogate pair", 0, -1i32)
                } else {
                    DecodeStep::Incomplete
                }
            } else {
                let v2 = unit16(s, 2, le);
                if !(0xDC00 <= v2 < 0xE000) {
                    DecodeStep::Fail("expected low surrogate area", 2, v2 as i32)
                } else {
                    DecodeStep::Char((0x10000 + (v - 0xD800) * 1024 + (v2 - 0xDC00)) as u32, 4)
                }
            }
        } else {
            DecodeStep::Char(v as u32, 2)
        }
    }
}

/// The characters that may appear in a YAML stream.
pub open spec fn allowed_char(v: u32) -> bool {
    ||| v == 0x09
    ||| v == 0x0A
    ||| v == 0x0D
    ||| (0x20 <= v <= 0x7E)
    ||| v == 0x85
    ||| (0xA0 <= v <= 0xD7FF)
    ||| (0xE000 <= v <= 0xFFFD)
    ||| (0x10000 <= v <= 0x10FFFF)
}

/// Decoding of one character at the front of `s` in encoding `enc`,
/// including the check that the character is allowed in a stream.
#[verifier::opaque]
pub open spec fn decode_step(enc: yaml_encoding_t, s: Seq<u8>, eof: bool) -> DecodeStep {
    let raw = match enc {
        yaml_encoding_t::YAML_UTF16LE_ENCODING => utf16_step(s, eof, true),
        yaml_encoding_t::YAML_UTF16BE_ENCODING => utf16_step(s, eof, false),
        _ => utf8_step(s, eof),
    };
    match raw {
        DecodeStep::Char(v, w) => if allowed_char(v) {
            raw
        } else {
            DecodeStep::Fail("control characters are not allowed", 0, v as i32)
        },
        _ => raw,
    }
}

/// `s` is a whole number of decodable characters.
#[verifier::opaque]
pub open spec fn decodes_fully(enc: yaml_encoding_t, s: Seq<u8>) -> bool
    decreases s.len(),
{
    if s.len() == 0 {
        true
    } else {
        match decode_step(enc, s, false) {
            DecodeStep::Char(v, w) => 0 < w <= s.len() && decodes_fully(enc, s.skip(w as int)),
            _ => false,
        }
    }
}

/// The characters that `s` decodes to (as far as it decodes).
#[verifier::opaque]
pub open spec fn decoded_chars(enc: yaml_encoding_t, s: Seq<u8>) -> Seq<u32>
    decreases s.len(),
{
    if s.len() == 0 {
        Seq::empty()
    } else {
        match decode_step(enc, s, false) {
            DecodeStep::Char(v, w) => if 0 < w <= s.len() {
                seq![v] + decoded_chars(enc, s.skip(w as int))
            } else {
                Seq::empty()
            },
            _ => Seq::empty(),
        }
    }
}

/// The encoding announced by a byte order mark at the front of `s`, and the
/// length of that mark (UTF-8 without a mark when there is none).
pub open spec fn detect_encoding(s: Seq<u8>) -> (yaml_encoding_t, nat) {
    if s.len() >= 2 && s[0] == 0xFF && s[1] == 0xFE {
        (yaml_encoding_t::YAML_UTF16LE_ENCODING, 2)
    } else if s.len() >= 2 && s[0] == 0xFE && s[1] == 0xFF {
        (yaml_encoding_t::YAML_UTF16BE_ENCODING, 2)
    } else if s.len() >= 3 && s[0] == 0xEF && s[1] == 0xBB && s[2] == 0xBF {
        (yaml_encoding_t::YAML_UTF8_ENCODING, 3)
    } else {
        (yaml_encoding_t::YAML_UTF8_ENCODING, 0)
    }
}

// ---------------------------------------------------------------------------
// Lemmas about decoding
// ---------------------------------------------------------------------------

proof fn lemma_first_bad_same(s: Seq<u8>, t: Seq<u8>, k: nat, w: nat)
    requires
        w <= s.len(),
        w <= t.len(),
        forall|i: int| 0 <= i < w ==> s[i] == t[i],
    ensures
        first_bad_trailing(s, k, w) == first_bad_trailing(t, k, w),
    decreases w - k,
{
    if k < w {
        lemma_first_bad_same(s, t, k + 1, w);
    }
}

proof fn lemma_seq_value_same(s: Seq<u8>, t: Seq<u8>, n: nat)
    requires
        1 <= n,
        n <= s.len(),
        n <= t.len(),
        forall|i: int| 0 <= i < n ==> s[i] == t[i],
    ensures
        spec_seq_value(s, n) == spec_seq_value(t, n),
    decreases n,
{
    if n > 1 {
        lemma_seq_value_same(s, t, (n - 1) as nat);
    }
}

proof fn lemma_first_bad_is_none(s: Seq<u8>, k: nat, w: nat)
    requires
        first_bad_trailing(s, k, w) is None,
    ensures
        forall|i: int| k <= i < w ==> #[trigger] is_trailing(s[i]),
    decreases w - k,
{
    if k < w {
        lemma_first_bad_is_none(s, k + 1, w);
    }
}

proof fn lemma_first_bad_is_some(s: Seq<u8>, k: nat, w: nat)
    requires
        first_bad_trailing(s, k, w) is Some,
    ensures
        k <= first_bad_trailing(s, k, w)->0 < w,
    decreases w - k,
{
    if k < w && is_trailing(s[k as int]) {
        lemma_first_bad_is_some(s, k + 1, w);
    }
}

/// A decoded character depends only on the octets it takes.
pub proof fn lemma_step_prefix(enc: yaml_encoding_t, s: Seq<u8>, t: Seq<u8>, e1: bool, e2: bool)
    requires
        s.len() > 0,
        decode_step(enc, s, e1) is Char,
        t.len() >= decode_step(enc, s, e1)->Char_1,
        forall|i: int| 0 <= i < decode_step(enc, s, e1)->Char_1 ==> s[i] == t[i],
    ensures
        decode_step(enc, t, e2) == decode_step(enc, s, e1),
{
    reveal(decode_step);
    reveal(decodes_fully);
    reveal(decoded_chars);
    let w = decode_step(enc, s, e1)->Char_1;
    match enc {
        yaml_encoding_t::YAML_UTF16LE_ENCODING => {
            assert(s[0] == t[0] && s[1] == t[1]);
            if w == 4 {
                assert(s[2] == t[2] && s[3] == t[3]);
            }
        },
        yaml_encoding_t::YAML_UTF16BE_ENCODING => {
            assert(s[0] == t[0] && s[1] == t[1]);
            if w == 4 {
                assert(s[2] == t[2] && s[3] == t[3]);
            }
        },
        _ => {
            assert(s[0] == t[0]);
            let ww = spec_utf8_width(s[0]);
            lemma_first_bad_same(s, t, 1, ww);
            lemma_seq_value_same(s, t, ww);
        },
    }
}

/// A failure seen without the end of the input stays a failure when more
/// octets follow and the input ends.
pub proof fn lemma_fail_extend(enc: yaml_encoding_t, s: Seq<u8>, t: Seq<u8>)
    requires
        s.len() > 0,
        decode_step(enc, s, false) is Fail,
    ensures
        decode_step(enc, s + t, true) == decode_step(enc, s, false),
{
    reveal(decode_step);
    reveal(decodes_fully);
    reveal(decoded_chars);
    let u = s + t;
    assert(forall|i: int| 0 <= i < s.len() ==> u[i] == s[i]);
    match enc {
        yaml_encoding_t::YAML_UTF16LE_ENCODING => {},
        yaml_encoding_t::YAML_UTF16BE_ENCODING => {},
        _ => {
            let w = spec_utf8_width(s[0]);
            if w > 0 && w <= s.len() {
                lemma_first_bad_same(s, u, 1, w);
                lemma_seq_value_same(s, u, w);
                if first_bad_trailing(s, 1, w) is Some {
                    lemma_first_bad_is_some(s, 1, w);
                }
            }
        },
    }
}

/// A step that reports a character takes between one and four octets.
pub proof fn lemma_step_width(enc: yaml_encoding_t, s: Seq<u8>, e: bool)
    requires
        s.len() > 0,
        decode_step(enc, s, e) is Char,
    ensures
        1 <= decode_step(enc, s, e)->Char_1 <= 4,
        decode_step(enc, s, e)->Char_1 <= s.len(),
        decode_step(enc, s, e)->Char_0 <= 0x10FFFF,
        decode_step(enc, s, e)->Char_0 != 0,
{
    reveal(decode_step);
    reveal(decodes_fully);
    reveal(decoded_chars);
}

/// The empty run decodes to no characters.
pub proof fn lemma_decode_empty(enc: yaml_encoding_t)
    ensures
        decodes_fully(enc, Seq::<u8>::empty()),
        decoded_chars(enc, Seq::<u8>::empty()) == Seq::<u32>::empty(),
{
    reveal(decodes_fully);
    reveal(decoded_chars);
}

/// A non-empty fully decoded run starts with a character.
pub proof fn lemma_decode_unfold(enc: yaml_encoding_t, b: Seq<u8>)
    requires
        b.len() > 0,
        decodes_fully(enc, b),
    ensures
        decode_step(enc, b, false) is Char,
        0 < decode_step(enc, b, false)->Char_1 <= b.len(),
        decodes_fully(enc, b.skip(decode_step(enc, b, false)->Char_1 as int)),
        decoded_chars(enc, b) == seq![decode_step(enc, b, false)->Char_0] + decoded_chars(
            enc,
            b.skip(decode_step(enc, b, false)->Char_1 as int),
        ),
{
    reveal(decodes_fully);
    reveal(decoded_chars);
}

/// Every decoded character takes at least one octet.
pub proof fn lemma_decoded_len(enc: yaml_encoding_t, b: Seq<u8>)
    requires
        decodes_fully(enc, b),
    ensures
        decoded_chars(enc, b).len() <= b.len(),
    decreases b.len(),
{
    if b.len() == 0 {
        lemma_decode_empty(enc);
        assert(b =~= Seq::<u8>::empty());
    } else {
        lemma_decode_unfold(enc, b);
        let w = decode_step(enc, b, false)->Char_1;
        lemma_decoded_len(enc, b.skip(w as int));
    }
}

/// A failure points at one of the first four octets.
pub proof fn lemma_fail_offset(enc: yaml_encoding_t, s: Seq<u8>, e: bool)
    requires
        s.len() > 0,
        decode_step(enc, s, e) is Fail,
    ensures
        decode_step(enc, s, e)->Fail_1 < 4,
{
    reveal(decode_step);
    match enc {
        yaml_encoding_t::YAML_UTF16LE_ENCODING => {},
        yaml_encoding_t::YAML_UTF16BE_ENCODING => {},
        _ => {
            let w = spec_utf8_width(s[0]);
            if w > 0 && w <= s.len() && first_bad_trailing(s, 1, w) is Some {
                lemma_first_bad_is_some(s, 1, w);
            }
        },
    }
}

/// An incomplete step is left with fewer than four octets.
pub proof fn lemma_incomplete_short(enc: yaml_encoding_t, s: Seq<u8>, e: bool)
    requires
        s.len() > 0,
        decode_step(enc, s, e) is Incomplete,
    ensures
        s.len() < 4,
        !e,
{
    reveal(decode_step);
    reveal(decodes_fully);
    reveal(decoded_chars);
}

proof fn lemma_decode_single(enc: yaml_encoding_t, c: Seq<u8>)
    requires
        c.len() > 0,
        decode_step(enc, c, false) is Char,
        decode_step(enc, c, false)->Char_1 == c.len(),
    ensures
        decodes_fully(enc, c),
        decoded_chars(enc, c) == seq![decode_step(enc, c, false)->Char_0],
{
    reveal(decode_step);
    reveal(decodes_fully);
    reveal(decoded_chars);
    let e = c.skip(c.len() as int);
    assert(e =~= Seq::<u8>::empty());
    assert(decoded_chars(enc, e) =~= Seq::<u32>::empty());
    assert(decodes_fully(enc, e));
    lemma_step_width(enc, c, false);
    assert(decoded_chars(enc, c) =~= seq![decode_step(enc, c, false)->Char_0]);
}

/// Appending one decoded character to a fully decoded run.
pub proof fn lemma_decode_append(enc: yaml_encoding_t, a: Seq<u8>, c: Seq<u8>)
    requires
        decodes_fully(enc, a),
        c.len() > 0,
        decode_step(enc, c, false) is Char,
        decode_step(enc, c, false)->Char_1 == c.len(),
    ensures
        decodes_fully(enc, a + c),
        decoded_chars(enc, a + c) == decoded_chars(enc, a).push(decode_step(enc, c, false)->Char_0),
    decreases a.len(),
{
    reveal(decode_step);
    reveal(decodes_fully);
    reveal(decoded_chars);
    let v = decode_step(enc, c, false)->Char_0;
    if a.len() == 0 {
        assert(a + c =~= c);
        lemma_decode_single(enc, c);
        assert(decoded_chars(enc, a) =~= Seq::<u32>::empty());
    } else {
        let u = a + c;
        lemma_step_width(enc, a, false);
        let w = decode_step(enc, a, false)->Char_1;
        assert(forall|i: int| 0 <= i < w ==> a[i] == u[i]);
        lemma_step_prefix(enc, a, u, false, false);
        assert(u.skip(w as int) =~= a.skip(w as int) + c);
        lemma_decode_append(enc, a.skip(w as int), c);
        assert(decoded_chars(enc, u) =~= seq![decode_step(enc, a, false)->Char_0] + decoded_chars(
            enc,
            a.skip(w as int) + c,
        ));
        assert(decoded_chars(enc, a) =~= seq![decode_step(enc, a, false)->Char_0] + decoded_chars(
            enc,
            a.skip(w as int),
        ));
        assert(decoded_chars(enc, a + c) =~= decoded_chars(enc, a).push(v));
    }
}

} // verus!

use vstd::prelude::*;

verus! {

// ---------------------------------------------------------------------------
// UTF-8 octet structure
// ---------------------------------------------------------------------------

/// Width in bytes of the UTF-8 sequence that starts with `octet` (0 for an
/// octet that cannot start a sequence).
pub open spec fn spec_utf8_width(octet: u8) -> nat {
    if octet < 0x80 {
        1
    } else if 0xC0 <= octet < 0xE0 {
        2
    } else if 0xE0 <= octet < 0xF0 {
        3
    } else if 0xF0 <= octet < 0xF8 {
        4
    } else {
        0
    }
}

/// The value bits carried by the leading octet of a sequence.
pub open spec fn spec_lead_value(octet: u8) -> nat {
    if octet < 0x80 {
        octet as nat
    } else if 0xC0 <= octet < 0xE0 {
        (octet - 0xC0) as nat
    } else if 0xE0 <= octet < 0xF0 {
        (octet - 0xE0) as nat
    } else if 0xF0 <= octet < 0xF8 {
        (octet - 0xF0) as nat
    } else {
        0
    }
}

/// An octet of the form 10xxxxxx.
pub open spec fn is_trailing(octet: u8) -> bool {
    0x80 <= octet < 0xC0
}

/// The code point assembled from the first `n` octets of `s`.
pub open spec fn spec_seq_value(s: Seq<u8>, n: nat) -> nat
    decreases n,
{
    if n <= 1 {
        spec_lead_value(s[0])
    } else {
        spec_seq_value(s, (n - 1) as nat) * 64 + (s[n - 1] % 64) as nat
    }
}

/// Octets 1..w of `s` are all trailing octets.
pub open spec fn trailing_ok(s: Seq<u8>, w: nat) -> bool {
    forall|k: int| 1 <= k < w ==> #[trigger] is_trailing(s[k])
}

/// The sequence does not use more octets than its value needs.
pub open spec fn shortest_form(w: nat, v: nat) -> bool {
    ||| w == 1
    ||| (w == 2 && v >= 0x80)
    ||| (w == 3 && v >= 0x800)
    ||| (w == 4 && v >= 0x10000)
}

/// `s` starts with a well-formed sequence of width `w`.
pub open spec fn first_char_ok(s: Seq<u8>) -> bool {
    let w = spec_utf8_width(s[0]);
    &&& s.len() > 0
    &&& w > 0
    &&& w <= s.len()
    &&& trailing_ok(s, w)
    &&& shortest_form(w, spec_seq_value(s, w))
}

/// `s` is a concatenation of well-formed UTF-8 sequences (the check that
/// the library applies to anchors, tags and values supplied by its callers).
pub open spec fn valid_utf8(s: Seq<u8>) -> bool
    decreases s.len(),
{
    if s.len() == 0 {
        true
    } else if first_char_ok(s) {
        valid_utf8(s.skip(spec_utf8_width(s[0]) as int))
    } else {
        false
    }
}

pub fn utf8_width(octet: u8) -> (w: usize)
    ensures
        w == spec_utf8_width(octet),
{
    if octet < 0x80 {
        1
    } else if octet >= 0xC0 && octet < 0xE0 {
        2
    } else if octet >= 0xE0 && octet < 0xF0 {
        3
    } else if octet >= 0xF0 && octet < 0xF8 {
        4
    } else {
        0
    }
}

pub fn lead_value(octet: u8) -> (v: u32)
    ensures
        v == spec_lead_value(octet),
        v < 128,
{
    if octet < 0x80 {
        octet as u32
    } else if octet >= 0xC0 && octet < 0xE0 {
        (octet - 0xC0) as u32
    } else if octet >= 0xE0 && octet < 0xF0 {
        (octet - 0xE0) as u32
    } else if octet >= 0xF0 && octet < 0xF8 {
        (octet - 0xF0) as u32
    } else {
        0
    }
}

pub open spec fn value_bound(k: nat) -> nat {
    if k <= 1 {
        128
    } else if k == 2 {
        8192
    } else if k == 3 {
        524288
    } else {
        33554432
    }
}

/// Checks that `s` is well-formed UTF-8 in the sense of `valid_utf8`.
pub fn yaml_check_utf8(s: &[u8]) -> (r: bool)
    ensures
        r == valid_utf8(s@),
{
    let mut p: usize = 0;
    assert(s@.skip(0) =~= s@);
    while p < s.len()
        invariant
            p <= s.len(),
            valid_utf8(s@) == valid_utf8(s@.skip(p as int)),
        decreases s.len() - p,
    {
        let ghost t = s@.skip(p as int);
        let octet = s[p];
        let width = utf8_width(octet);
        if width == 0 {
            assert(!first_char_ok(t));
            return false;
        }
        if width > s.len() - p {
            assert(!first_char_ok(t));
            return false;
        }
        let mut value: u32 = lead_value(octet);
        let mut k: usize = 1;
        while k < width
            invariant
                1 <= k <= width,
                width == spec_utf8_width(t[0]),
                width <= 4,
                p + width <= s.len(),
                t == s@.skip(p as int),
                value == spec_seq_value(t, k as nat),
                value < value_bound(k as nat),
                p < s.len(),
                valid_utf8(s@) == valid_utf8(t),
                forall|j: int| 1 <= j < k ==> #[trigger] is_trailing(t[j]),
            decreases width - k,
        {
            let o = s[p + k];
            assert(o == t[k as int]);
            if !(o >= 0x80 && o < 0xC0) {
                assert(!is_trailing(t[k as int]));
                assert(!trailing_ok(t, width as nat));
                assert(!first_char_ok(t));
                return false;
            }
            value = value * 64 + (o % 64) as u32;
            k = k + 1;
        }
        assert(trailing_ok(t, width as nat));
        if !((width == 1) || (width == 2 && value >= 0x80) || (width == 3 && value >= 0x800) || (
        width == 4 && value >= 0x10000)) {
            assert(!first_char_ok(t));
            return false;
        }
        assert(first_char_ok(t));
        assert(t.skip(width as int) =~= s@.skip(p + width));
        p = p + width;
    }
    assert(s@.skip(p as int).len() == 0);
    true
}

// ---------------------------------------------------------------------------
// UTF-8 encoding of a code point
// ---------------------------------------------------------------------------

/// The UTF-8 octets that encode the code point `v`.
pub open spec fn utf8_encode(v: u32) -> Seq<u8> {
    if v <= 0x7F {
        seq![v as u8]
    } else if v <= 0x7FF {
        seq![(0xC0 + v / 64) as u8, (0x80 + v % 64) as u8]
    } else if v <= 0xFFFF {
        seq![(0xE0 + v / 4096) as u8, (0x80 + (v / 64) % 64) as u8, (0x80 + v % 64) as u8]
    } else {
        seq![
            (0xF0 + v / 262144) as u8,
            (0x80 + (v / 4096) % 64) as u8,
            (0x80 + (v / 64) % 64) as u8,
            (0x80 + v % 64) as u8,
        ]
    }
}

/// The concatenated UTF-8 encoding of a sequence of code points.
pub open spec fn utf8_encode_all(cs: Seq<u32>) -> Seq<u8>
    decreases cs.len(),
{
    if cs.len() == 0 {
        Seq::empty()
    } else {
        utf8_encode_all(cs.drop_last()) + utf8_encode(cs.last())
    }
}

/// Appends the UTF-8 encoding of `v` to `s`.
pub fn push_utf8(s: &mut Vec<u8>, v: u32)
    requires
        v <= 0x10FFFF,
    ensures
        final(s)@ == old(s)@ + utf8_encode(v),
{
    if v <= 0x7F {
        s.push(v as u8);
    } else if v <= 0x7FF {
        s.push((0xC0 + v / 64) as u8);
        s.push((0x80 + v % 64) as u8);
    } else if v <= 0xFFFF {
        s.push((0xE0 + v / 4096) as u8);
        s.push((0x80 + (v / 64) % 64) as u8);
        s.push((0x80 + v % 64) as u8);
    } else {
        s.push((0xF0 + v / 262144) as u8);
        s.push((0x80 + (v / 4096) % 64) as u8);
        s.push((0x80 + (v / 64) % 64) as u8);
        s.push((0x80 + v % 64) as u8);
    }
    assert(final(s)@ =~= old(s)@ + utf8_encode(v));
}

// ---------------------------------------------------------------------------
// Character classes (on decoded characters)
// ---------------------------------------------------------------------------

pub open spec fn spec_is_alpha(c: u32) -> bool {
    (0x30 <= c <= 0x39) || (0x41 <= c <= 0x5A) || (0x61 <= c <= 0x7A) || c == 0x5F || c == 0x2D
}

pub open spec fn spec_is_digit(c: u32) -> bool {
    0x30 <= c <= 0x39
}

pub open spec fn spec_is_hex(c: u32) -> bool {
    (0x30 <= c <= 0x39) || (0x41 <= c <= 0x46) || (0x61 <= c <= 0x66)
}

pub open spec fn spec_as_hex(c: u32) -> u32 {
    if 0x41 <= c <= 0x46 {
        (c - 0x41 + 10) as u32
    } else if 0x61 <= c <= 0x66 {
        (c - 0x61 + 10) as u32
    } else {
        (c - 0x30) as u32
    }
}

pub open spec fn spec_is_blank(c: u32) -> bool {
    c == 0x20 || c == 0x09
}

pub open spec fn spec_is_break(c: u32) -> bool {
    c == 0x0D || c == 0x0A || c == 0x85 || c == 0x2028 || c == 0x2029
}

pub open spec fn spec_is_breakz(c: u32) -> bool {
    spec_is_break(c) || c == 0
}

pub open spec fn spec_is_blankz(c: u32) -> bool {
    spec_is_blank(c) || spec_is_breakz(c)
}

#[verifier::when_used_as_spec(spec_is_alpha)]
pub fn is_alpha(c: u32) -> (r: bool)
    ensures
        r == spec_is_alpha(c),
{
    (c >= 0x30 && c <= 0x39) || (c >= 0x41 && c <= 0x5A) || (c >= 0x61 && c <= 0x7A) || c == 0x5F
        || c == 0x2D
}

#[verifier::when_used_as_spec(spec_is_digit)]
pub fn is_digit(c: u32) -> (r: bool)
    ensures
        r == spec_is_digit(c),
{
    c >= 0x30 && c <= 0x39
}

#[verifier::when_used_as_spec(spec_is_hex)]
pub fn is_hex(c: u32) -> (r: bool)
    ensures
        r == spec_is_hex(c),
{
    (c >= 0x30 && c <= 0x39) || (c >= 0x41 && c <= 0x46) || (c >= 0x61 && c <= 0x66)
}

#[verifier::when_used_as_spec(spec_as_hex)]
pub fn as_hex(c: u32) -> (r: u32)
    requires
        spec_is_hex(c),
    ensures
        r == spec_as_hex(c),
        r < 16,
{
    if c >= 0x41 && c <= 0x46 {
        c - 0x41 + 10
    } else if c >= 0x61 && c <= 0x66 {
        c - 0x61 + 10
    } else {
        c - 0x30
    }
}

#[verifier::when_used_as_spec(spec_is_blank)]
pub fn is_blank(c: u32) -> (r: bool)
    ensures
        r == spec_is_blank(c),
{
    c == 0x20 || c == 0x09
}

#[verifier::when_used_as_spec(spec_is_break)]
pub fn is_break(c: u32) -> (r: bool)
    ensures
        r == spec_is_break(c),
{
    c == 0x0D || c == 0x0A || c == 0x85 || c == 0x2028 || c == 0x2029
}

#[verifier::when_used_as_spec(spec_is_breakz)]
pub fn is_breakz(c: u32) -> (r: bool)
    ensures
        r == spec_is_breakz(c),
{
    is_break(c) || c == 0
}

#[verifier::when_used_as_spec(spec_is_blankz)]
pub fn is_blankz(c: u32) -> (r: bool)
    ensures
        r == spec_is_blankz(c),
{
    is_blank(c) || is_breakz(c)
}

/// Ten to the power `n`.
pub open spec fn pow10(n: nat) -> int
    decreases n,
{
    if n == 0 {
        1
    } else {
        pow10((n - 1) as nat) * 10
    }
}

pub proof fn lemma_pow10_mono(a: nat, b: nat)
    requires
        a <= b,
    ensures
        1 <= pow10(a) <= pow10(b),
    decreases b,
{
    if b > 0 {
        if a < b {
            lemma_pow10_mono(a, (b - 1) as nat);
        } else {
            lemma_pow10_mono((a - 1) as nat, (b - 1) as nat);
        }
    }
}

} // verus!

use vstd::prelude::*;
use crate::chars::{
    spec_is_digit, spec_is_blank, spec_is_break, spec_is_breakz, spec_is_blankz, spec_is_hex, spec_as_hex,
    utf8_encode, utf8_encode_all, is_blank, is_break, is_breakz, is_blankz, is_hex, as_hex,
    push_utf8,
};
use crate::blocktext::{
    spaces, line_pos_ok, block_lines, newlines, lead_acc, lead_max, block_indent, auto_ok, lemma_auto_use, strip_state,
    lines_inv, nl_octets, fold_join, fold_text, line_head, block_scalar_text, lemma_encode_newlines,
    lemma_auto_start, lemma_auto_spaces, lemma_auto_break, lemma_lines_spaces, lemma_lines_break,
};
use crate::lexer::{
    scan_frame, scan_outcome, all_chars, lemma_encode_push, lemma_encode_concat, lemma_read_split,
    lemma_frame_trans, lemma_all_chars_push, lemma_all_chars_concat,
};
use crate::scanner::{
    yaml_parser_t, error_same, read_between, yaml_parser_update_buffer, peek, skip, skip_line, read,
    read_line, yaml_parser_set_scanner_error,
};
use crate::types::{
    yaml_error_type_t, yaml_mark_t, yaml_string_t, yaml_token_t, yaml_token_type_t,
    yaml_token_data_t, yaml_scalar_style_t,
};

verus! {

/// The octets that a one-character escape of a double-quoted scalar
/// stands for ("\\n", "\\t", ...), or None for the other characters.
pub open spec fn simple_escape(c: u32) -> Option<Seq<u8>> {
    if c == 0x30 {
        Some(seq![0x00u8])
    } else if c == 0x61 {
        Some(seq![0x07u8])
    } else if c == 0x62 {
        Some(seq![0x08u8])
    } else if c == 0x74 || c == 0x09 {
        Some(seq![0x09u8])
    } else if c == 0x6E {
        Some(seq![0x0Au8])
    } else if c == 0x76 {
        Some(seq![0x0Bu8])
    } else if c == 0x66 {
        Some(seq![0x0Cu8])
    } else if c == 0x72 {
        Some(seq![0x0Du8])
    } else if c == 0x65 {
        Some(seq![0x1Bu8])
    } else if c == 0x20 {
        Some(seq![0x20u8])
    } else if c == 0x22 {
        Some(seq![0x22u8])
    } else if c == 0x2F {
        Some(seq![0x2Fu8])
    } else if c == 0x5C {
        Some(seq![0x5Cu8])
    } else if c == 0x4E {
        Some(seq![0xC2u8, 0x85u8])
    } else if c == 0x5F {
        Some(seq![0xC2u8, 0xA0u8])
    } else if c == 0x4C {
        Some(seq![0xE2u8, 0x80u8, 0xA8u8])
    } else if c == 0x50 {
        Some(seq![0xE2u8, 0x80u8, 0xA9u8])
    } else {
        None
    }
}

/// The number of hexadecimal digits after "\\x", "\\u" and "\\U" (0 for
/// the other characters).
pub open spec fn code_length(c: u32) -> nat {
    if c == 0x78 {
        2
    } else if c == 0x75 {
        4
    } else if c == 0x55 {
        8
    } else {
        0
    }
}

/// The number written by a run of hexadecimal digits.
pub open spec fn hex_value(s: Seq<u32>) -> int
    decreases s.len(),
{
    if s.len() == 0 {
        0
    } else {
        hex_value(s.drop_last()) * 16 + spec_as_hex(s.last())
    }
}

proof fn lemma_hex_bound(s: Seq<u32>)
    requires
        all_chars(s, |c: u32| spec_is_hex(c)),
    ensures
        0 <= hex_value(s) < pow16(s.len()),
    decreases s.len(),
{
    if s.len() > 0 {
        assert(all_chars(s.drop_last(), |c: u32| spec_is_hex(c))) by {
            assert forall|i: int| 0 <= i < s.drop_last().len() implies spec_is_hex(
                #[trigger] s.drop_last()[i],
            ) by {
                assert(s.drop_last()[i] == s[i]);
            }
        }
        lemma_hex_bound(s.drop_last());
        assert(spec_is_hex(s[s.len() - 1]));
        assert(spec_as_hex(s.last()) < 16);
    }
}

/// Sixteen to the power `n`.
pub open spec fn pow16(n: nat) -> int
    decreases n,
{
    if n == 0 {
        1
    } else {
        pow16((n - 1) as nat) * 16
    }
}

proof fn lemma_pow16_mono(a: nat, b: nat)
    requires
        a <= b,
    ensures
        1 <= pow16(a) <= pow16(b),
    decreases b,
{
    if b > 0 {
        if a < b {
            lemma_pow16_mono(a, (b - 1) as nat);
        } else {
            lemma_pow16_mono((a - 1) as nat, (b - 1) as nat);
        }
    }
}

/// The problems an escape of a double-quoted scalar can have.
/// The scanner stopped at an escape that names no character: '\\' and a
/// character that is neither a one-character escape nor 'x', 'u' or 'U';
/// the problem is marked there.
pub open spec fn unknown_escape_at(p: yaml_parser_t) -> bool {
    &&& p.ch(0) == 0x5C
    &&& simple_escape(p.ch(1)) is None
    &&& code_length(p.ch(1)) == 0
    &&& p.problem_mark == p.reader.mark
}

/// The scanner stopped just after '\\' and 'x', 'u' or 'U', where one of
/// the hexadecimal digits that the escape needs is something else; the
/// problem is marked there.
pub open spec fn bad_hex_at(p: yaml_parser_t) -> bool {
    let h = p.reader.history@;
    &&& h.len() >= 2 && h[h.len() - 2] == 0x5C && code_length(h.last()) > 0
    &&& exists|k: int| 0 <= k < code_length(h.last()) && !spec_is_hex(#[trigger] p.ch(k))
    &&& p.problem_mark == p.reader.mark
}

/// A code point that no character has: a surrogate or one past 0x10FFFF.
pub open spec fn invalid_code(v: int) -> bool {
    (0xD800 <= v <= 0xDFFF) || v > 0x10FFFF
}

/// The scanner stopped just after an escape '\\', 'x', 'u' or 'U' and its
/// hexadecimal digits, which write a code point that no character has;
/// the problem is marked there.
pub open spec fn bad_code_at(p: yaml_parser_t) -> bool {
    let h = p.reader.history@;
    &&& exists|k: int|
        0 <= k && k + 2 <= h.len() && #[trigger] h[k] == 0x5C && code_length(h[k + 1]) > 0 && k + 2
            + code_length(h[k + 1]) == h.len() && all_chars(h.skip(k + 2), |d: u32| spec_is_hex(d))
            && invalid_code(hex_value(h.skip(k + 2)))
    &&& p.problem_mark == p.reader.mark
}

pub open spec fn escape_problem(p: Option<&'static str>) -> bool {
    ||| p == Some("found unknown escape character")
    ||| p == Some("did not find expected hexdecimal number")
    ||| p == Some("found invalid Unicode character escape code")
}

/// Appends what a one-character escape stands for, when `c` is one.
fn push_simple_escape(string: &mut Vec<u8>, c: u32) -> (r: bool)
    ensures
        r == simple_escape(c) is Some,
        r ==> final(string)@ == old(string)@ + simple_escape(c)->0,
        !r ==> final(string)@ == old(string)@,
{
    if c == 0x30 {
        string.push(0x00);
    } else if c == 0x61 {
        string.push(0x07);
    } else if c == 0x62 {
        string.push(0x08);
    } else if c == 0x74 || c == 0x09 {
        string.push(0x09);
    } else if c == 0x6E {
        string.push(0x0A);
    } else if c == 0x76 {
        string.push(0x0B);
    } else if c == 0x66 {
        string.push(0x0C);
    } else if c == 0x72 {
        string.push(0x0D);
    } else if c == 0x65 {
        string.push(0x1B);
    } else if c == 0x20 {
        string.push(0x20);
    } else if c == 0x22 {
        string.push(0x22);
    } else if c == 0x2F {
        string.push(0x2F);
    } else if c == 0x5C {
        string.push(0x5C);
    } else if c == 0x4E {
        string.push(0xC2);
        string.push(0x85);
    } else if c == 0x5F {
        string.push(0xC2);
        string.push(0xA0);
    } else if c == 0x4C {
        string.push(0xE2);
        string.push(0x80);
        string.push(0xA8);
    } else if c == 0x50 {
        string.push(0xE2);
        string.push(0x80);
        string.push(0xA9);
    } else {
        return false;
    }
    assert(string@ =~= old(string)@ + simple_escape(c)->0);
    true
}

/// Scans `n` hexadecimal digits and returns the number they write.
fn scan_hex_code(parser: &mut yaml_parser_t, n: usize, start_mark: yaml_mark_t) -> (r: Option<u32>)
    requires
        old(parser).wf(),
        1 <= n <= 8,
    ensures
        scan_frame(*old(parser), *final(parser)),
        scan_outcome(*old(parser), *final(parser), r is Some),
        final(parser).reader.mark.line == old(parser).reader.mark.line,
        r matches Some(v) ==> {
            let read = read_between(*old(parser), *final(parser));
            &&& read.len() == n
            &&& all_chars(read, |d: u32| spec_is_hex(d))
            &&& v as int == hex_value(read)
        },
        (r is None && final(parser).error == yaml_error_type_t::YAML_SCANNER_ERROR) ==> {
            &&& final(parser).context == Some("while parsing a quoted scalar")
            &&& final(parser).context_mark == start_mark
            &&& final(parser).problem == Some("did not find expected hexdecimal number")
            &&& final(parser).reader.history@ == old(parser).reader.history@
            &&& exists|k: int| 0 <= k < n && !spec_is_hex(#[trigger] final(parser).ch(k))
            &&& final(parser).problem_mark == final(parser).reader.mark
        },
{
    if !yaml_parser_update_buffer(parser, n) {
        return None;
    }
    let ghost m2 = *parser;
    let mut value: u32 = 0;
    let mut k: usize = 0;
    while k < n
        invariant
            *parser == m2,
            m2.wf(),
            scan_frame(*old(parser), m2),
            error_same(*old(parser), m2),
            m2.reader.mark.line == old(parser).reader.mark.line,
            1 <= n <= 8,
            0 <= k <= n,
            forall|i: int| 0 <= i < k ==> #[trigger] spec_is_hex(m2.ch(i)),
            value as int == hex_value(Seq::new(k as nat, |i: int| m2.ch(i))),
            value < pow16(k as nat),
            m2.reader.history@ == old(parser).reader.history@,
        decreases n - k,
    {
        let d = peek(parser, k);
        if !is_hex(d) {
            yaml_parser_set_scanner_error(
                parser,
                Some("while parsing a quoted scalar"),
                start_mark,
                "did not find expected hexdecimal number",
            );
            assert(!spec_is_hex(parser.ch(k as int)));
            return None;
        }
        proof {
            let prev = Seq::new(k as nat, |i: int| m2.ch(i));
            let next = Seq::new((k + 1) as nat, |i: int| m2.ch(i));
            assert(next.drop_last() =~= prev);
            lemma_pow16_mono(k as nat, 7);
            reveal_with_fuel(pow16, 8);
        }
        value = value * 16 + as_hex(d);
        k = k + 1;
    }
    let ghost digits = Seq::new(n as nat, |i: int| m2.ch(i));
    let ghost mut run: Seq<u32> = Seq::empty();
    let ghost h2 = m2.reader.history@;
    proof {
        assert(parser.reader.history@ =~= h2 + run);
    }
    let mut j: usize = 0;
    while j < n
        invariant
            scan_frame(m2, *parser),
            error_same(m2, *parser),
            parser.reader.history@ == h2 + run,
            h2 == m2.reader.history@,
            0 <= j <= n,
            n <= 8,
            run == digits.take(j as int),
            digits.len() == n,
            forall|i: int| 0 <= i < n ==> #[trigger] spec_is_hex(m2.ch(i)),
            digits == Seq::new(n as nat, |i: int| m2.ch(i)),
            forall|i: int| 0 <= i < n - j ==> #[trigger] parser.ch(i) == m2.ch(i + j),
            parser.reader.mark.line == m2.reader.mark.line,
        decreases n - j,
    {
        assert(parser.ch(0) == m2.ch(j as int));
        assert(spec_is_hex(m2.ch(j as int)));
        assert(parser.ch(0) != 0);
        let ghost before = *parser;
        skip(parser);
        proof {
            run = run.push(m2.ch(j as int));
            assert(run =~= digits.take(j + 1));
            assert(parser.reader.history@ =~= h2 + run);
            assert forall|i: int| 0 <= i < n - (j + 1) implies #[trigger] parser.ch(i) == m2.ch(
                i + j + 1,
            ) by {
                assert(parser.ch(i) == before.ch(i + 1));
            }
        }
        j = j + 1;
    }
    proof {
        lemma_frame_trans(*old(parser), m2, *parser);
        assert(run =~= digits);
        assert(read_between(m2, *parser) =~= run);
        assert(read_between(*old(parser), m2) =~= Seq::<u32>::empty());
        assert(read_between(*old(parser), *parser) =~= digits);
        assert(all_chars(digits, |d: u32| spec_is_hex(d)));
    }
    Some(value)
}

/// Scans an escape of a double-quoted scalar ('\\' and a character that is
/// not a line break), appending what it stands for to `string`.
#[verifier::rlimit(60)]
fn scan_flow_escape(parser: &mut yaml_parser_t, string: &mut Vec<u8>, start_mark: yaml_mark_t) -> (r:
    bool)
    requires
        old(parser).wf(),
        old(parser).ch(0) == 0x5C,
    ensures
        scan_frame(*old(parser), *final(parser)),
        scan_outcome(*old(parser), *final(parser), r),
        final(parser).reader.mark.line == old(parser).reader.mark.line,
        r ==> {
            let read = read_between(*old(parser), *final(parser));
            let c = old(parser).ch(1);
            &&& read.len() == 2 + code_length(c)
            &&& read[0] == 0x5C
            &&& read[1] == c
            &&& simple_escape(c) matches Some(v) ==> final(string)@ == old(string)@ + v
            &&& code_length(c) > 0 ==> {
                &&& all_chars(read.skip(2), |d: u32| spec_is_hex(d))
                &&& final(string)@ == old(string)@ + utf8_encode(hex_value(read.skip(2)) as u32)
            }
            &&& simple_escape(c) is Some || code_length(c) > 0
        },
        (!r && final(parser).error == yaml_error_type_t::YAML_SCANNER_ERROR) ==> {
            &&& final(parser).context == Some("while parsing a quoted scalar")
            &&& final(parser).context_mark == start_mark
            &&& escape_problem(final(parser).problem)
            &&& final(parser).problem == Some("found unknown escape character") ==> simple_escape(
                old(parser).ch(1),
            ) is None && code_length(old(parser).ch(1)) == 0
            &&& final(parser).problem == Some("found unknown escape character") ==> final(parser).reader
                == old(parser).reader && unknown_escape_at(*final(parser))
            &&& final(parser).problem == Some("did not find expected hexdecimal number") ==> bad_hex_at(
                *final(parser),
            )
            &&& final(parser).problem == Some("found invalid Unicode character escape code") ==> bad_code_at(
                *final(parser),
            )
        },
{
    let c = peek(parser, 1);
    let simple = push_simple_escape(string, c);
    let n: usize = if simple {
        0
    } else if c == 0x78 {
        2
    } else if c == 0x75 {
        4
    } else if c == 0x55 {
        8
    } else {
        yaml_parser_set_scanner_error(
            parser,
            Some("while parsing a quoted scalar"),
            start_mark,
            "found unknown escape character",
        );
        return false;
    };
    assert(c != 0);
    skip(parser);
    skip(parser);
    let ghost m1 = *parser;
    proof {
        assert(read_between(*old(parser), m1) =~= seq![0x5Cu32, c]);
    }
    if n == 0 {
        return true;
    }
    proof {
        assert(m1.reader.history@ =~= old(parser).reader.history@ + seq![0x5Cu32, c]);
        assert(code_length(c) == n);
    }
    let value = match scan_hex_code(parser, n, start_mark) {
        None => {
            proof {
                let h = parser.reader.history@;
                if parser.error == yaml_error_type_t::YAML_SCANNER_ERROR {
                    assert(h == m1.reader.history@);
                    assert(h[h.len() - 2] == 0x5C && h.last() == c);
                }
            }
            return false;
        },
        Some(v) => v,
    };
    if (value >= 0xD800 && value <= 0xDFFF) || value > 0x10FFFF {
        let ghost m2 = *parser;
        yaml_parser_set_scanner_error(
            parser,
            Some("while parsing a quoted scalar"),
            start_mark,
            "found invalid Unicode character escape code",
        );
        proof {
            let h = parser.reader.history@;
            let k = old(parser).reader.history@.len() as int;
            let read = read_between(m1, m2);
            assert(m1.reader.history@.is_prefix_of(m2.reader.history@));
            assert(h =~= m1.reader.history@ + read);
            assert(h[k] == 0x5C && h[k + 1] == c);
            assert(h.skip(k + 2) =~= read);
            assert(invalid_code(hex_value(h.skip(k + 2))));
        }
        return false;
    }
    push_utf8(string, value);
    proof {
        lemma_frame_trans(*old(parser), m1, *parser);
        let read = read_between(*old(parser), *parser);
        assert(read.skip(2) =~= read_between(m1, *parser));
    }
    true
}

// ---------------------------------------------------------------------------
// Flow scalars
// ---------------------------------------------------------------------------

/// The quote that opens and closes a flow scalar.
pub open spec fn quote_char(single: bool) -> u32 {
    if single {
        0x27
    } else {
        0x22
    }
}

/// The number of characters of the element at the start of `s`, the text
/// of a quoted scalar: a "''" pair of a single-quoted scalar, an escape of
/// a double-quoted one with its digits, or one character.
pub open spec fn elem_len(s: Seq<u32>, single: bool) -> nat {
    if single && s[0] == 0x27 {
        2
    } else if !single && s[0] == 0x5C {
        2 + code_length(s[1])
    } else {
        1
    }
}

/// What the element `e` of the text of a quoted scalar stands for.
pub open spec fn elem_value(e: Seq<u32>, single: bool) -> Seq<u8> {
    if single && e[0] == 0x27 {
        seq![0x27u8]
    } else if !single && e[0] == 0x5C {
        match simple_escape(e[1]) {
            Some(v) => v,
            None => utf8_encode(hex_value(e.skip(2)) as u32),
        }
    } else {
        utf8_encode(e[0])
    }
}

/// The number of characters of the unit at the start of `s`, the text of
/// a quoted scalar: a blank, a line break character, an escaped line break
/// ('\\' and a line break character) of a double-quoted scalar, or an
/// element.
pub open spec fn unit_len(s: Seq<u32>, single: bool) -> nat {
    if spec_is_blank(s[0]) || spec_is_break(s[0]) {
        1
    } else if !single && s[0] == 0x5C && spec_is_break(s[1]) {
        2
    } else {
        elem_len(s, single)
    }
}

/// The next character is known and is not a line feed.
pub open spec fn next_not_lf(p: yaml_parser_t) -> bool {
    p.ch(0) != 0x0A && (p.reader.unread() >= 1 || p.reader.raw_done())
}

/// Where the folding of a quoted scalar stands: the text so far, whether a
/// line break (or an escaped one) was met since the last element, the
/// blanks after the last element, the first line break, the further line
/// breaks, and whether the last character was a carriage return (the line
/// feed after it belongs to the same break).
pub struct FoldState {
    pub out: Seq<u8>,
    pub lb: bool,
    pub ws: Seq<u8>,
    pub lead: Seq<u8>,
    pub trail: Seq<u8>,
    pub cr: bool,
}

/// The state before any character.
pub open spec fn fold_start() -> FoldState {
    FoldState {
        out: Seq::empty(),
        lb: false,
        ws: Seq::empty(),
        lead: Seq::empty(),
        trail: Seq::empty(),
        cr: false,
    }
}

/// What the blanks and line breaks since the last element add before the
/// next one: without a line break, the blanks; a single line break folds
/// into a space; further line breaks are kept.
pub open spec fn fold_gap(st: FoldState) -> Seq<u8> {
    if !st.lb {
        st.ws
    } else if st.lead.len() > 0 && st.lead[0] == 0x0A {
        if st.trail.len() == 0 {
            seq![0x20u8]
        } else {
            st.trail
        }
    } else {
        st.lead + st.trail
    }
}

/// The text, with what the pending blanks and line breaks add.
pub open spec fn fold_finish(st: FoldState) -> Seq<u8> {
    st.out + fold_gap(st)
}

/// One unit `u` of the text of a quoted scalar.
pub open spec fn fold_step(st: FoldState, u: Seq<u32>, single: bool) -> FoldState {
    let c = u[0];
    if spec_is_blank(c) {
        FoldState {
            out: st.out,
            lb: st.lb,
            ws: if st.lb { st.ws } else { st.ws + utf8_encode(c) },
            lead: st.lead,
            trail: st.trail,
            cr: false,
        }
    } else if spec_is_break(c) {
        if c == 0x0A && st.cr {
            FoldState { out: st.out, lb: st.lb, ws: st.ws, lead: st.lead, trail: st.trail, cr: false }
        } else if st.lb {
            FoldState {
                out: st.out,
                lb: true,
                ws: st.ws,
                lead: st.lead,
                trail: st.trail.push(0x0Au8),
                cr: c == 0x0D,
            }
        } else {
            FoldState {
                out: st.out,
                lb: true,
                ws: Seq::empty(),
                lead: seq![0x0Au8],
                trail: st.trail,
                cr: c == 0x0D,
            }
        }
    } else if !single && c == 0x5C && spec_is_break(u[1]) {
        FoldState {
            out: fold_finish(st),
            lb: true,
            ws: Seq::empty(),
            lead: Seq::empty(),
            trail: Seq::empty(),
            cr: u[1] == 0x0D,
        }
    } else {
        FoldState {
            out: fold_finish(st) + elem_value(u, single),
            lb: false,
            ws: Seq::empty(),
            lead: Seq::empty(),
            trail: Seq::empty(),
            cr: false,
        }
    }
}

/// The text `s` of a quoted scalar, unit by unit, from the state `st`.
pub open spec fn fold_units(s: Seq<u32>, single: bool, st: FoldState) -> FoldState
    decreases s.len(),
{
    if s.len() == 0 || unit_len(s, single) > s.len() {
        st
    } else {
        fold_units(s.skip(unit_len(s, single) as int), single, fold_step(st, s.take(unit_len(s, single) as int), single))
    }
}

/// Whether `s` is made of whole units.
pub open spec fn whole_units(s: Seq<u32>, single: bool) -> bool
    decreases s.len(),
{
    s.len() == 0 || (unit_len(s, single) <= s.len() && whole_units(
        s.skip(unit_len(s, single) as int),
        single,
    ))
}

/// A piece of the text of a quoted scalar that does not start with the
/// closing quote: in a single-quoted scalar a quote only starts "''".
pub open spec fn quote_head_ok(s: Seq<u32>, single: bool) -> bool {
    s[0] == quote_char(single) ==> single && s.len() >= 2 && s[1] == 0x27
}

/// The text `s` between the quotes holds no closing quote: no unit of it
/// starts with the quote, but for a doubled quote in single quotes.
pub open spec fn quote_free(s: Seq<u32>, single: bool) -> bool
    decreases s.len(),
{
    s.len() == 0 || (unit_len(s, single) <= s.len() && quote_head_ok(s, single) && quote_free(
        s.skip(unit_len(s, single) as int),
        single,
    ))
}

/// Text of whole units followed by more text holds no closing quote
/// exactly when neither part does.
proof fn lemma_quote_concat(a: Seq<u32>, b: Seq<u32>, single: bool)
    requires
        whole_units(a, single),
    ensures
        quote_free(a + b, single) == (quote_free(a, single) && quote_free(b, single)),
    decreases a.len(),
{
    if a.len() == 0 {
        assert(a + b =~= b);
    } else {
        let k = unit_len(a, single) as int;
        lemma_unit_prefix(a, b, single);
        assert((a + b)[0] == a[0]);
        if a.len() >= 2 {
            assert((a + b)[1] == a[1]);
        }
        lemma_quote_concat(a.skip(k), b, single);
    }
}

/// One unit holds no closing quote when it does not start with one.
proof fn lemma_quote_unit(u: Seq<u32>, single: bool)
    requires
        u.len() > 0,
        unit_len(u, single) == u.len(),
    ensures
        quote_free(u, single) == quote_head_ok(u, single),
{
    assert(u.skip(u.len() as int) =~= Seq::<u32>::empty());
    assert(quote_free(u.skip(u.len() as int), single));
}

/// A line break holds no closing quote.
proof fn lemma_quote_break(e: Seq<u32>, single: bool)
    requires
        e == seq![0x0Du32, 0x0Au32] || (e.len() == 1 && spec_is_break(e[0])),
    ensures
        quote_free(e, single),
{
    if e.len() == 1 {
        lemma_quote_unit(e, single);
    } else {
        let u = seq![0x0Du32];
        let v = seq![0x0Au32];
        lemma_quote_unit(u, single);
        lemma_quote_unit(v, single);
        lemma_fold_unit(u, single, fold_start());
        lemma_quote_concat(u, v, single);
        assert(u + v =~= e);
    }
}

/// The value of a quoted scalar whose text between the quotes is `s`:
/// its elements stand for what they escape, blanks between them are kept
/// on a line, and line breaks fold.
pub open spec fn flow_value(s: Seq<u32>, single: bool) -> Seq<u8> {
    fold_finish(fold_units(s, single, fold_start()))
}

/// One unit followed by more text.
proof fn lemma_unit_prefix(a: Seq<u32>, b: Seq<u32>, single: bool)
    requires
        a.len() > 0,
        unit_len(a, single) <= a.len(),
    ensures
        unit_len(a + b, single) == unit_len(a, single),
        (a + b).take(unit_len(a, single) as int) == a.take(unit_len(a, single) as int),
        (a + b).skip(unit_len(a, single) as int) == a.skip(unit_len(a, single) as int) + b,
{
    assert((a + b)[0] == a[0]);
    if a.len() >= 2 {
        assert((a + b)[1] == a[1]);
    }
    let k = unit_len(a, single) as int;
    assert((a + b).take(k) =~= a.take(k));
    assert((a + b).skip(k) =~= a.skip(k) + b);
}

/// Folding text of whole units, then more text.
proof fn lemma_fold_concat(a: Seq<u32>, b: Seq<u32>, single: bool, st: FoldState)
    requires
        whole_units(a, single),
    ensures
        fold_units(a + b, single, st) == fold_units(b, single, fold_units(a, single, st)),
        whole_units(b, single) ==> whole_units(a + b, single),
    decreases a.len(),
{
    if a.len() == 0 {
        assert(a + b =~= b);
    } else {
        let k = unit_len(a, single) as int;
        lemma_unit_prefix(a, b, single);
        lemma_fold_concat(a.skip(k), b, single, fold_step(st, a.take(k), single));
    }
}

/// Folding one unit.
proof fn lemma_fold_unit(u: Seq<u32>, single: bool, st: FoldState)
    requires
        u.len() > 0,
        unit_len(u, single) == u.len(),
    ensures
        whole_units(u, single),
        fold_units(u, single, st) == fold_step(st, u, single),
{
    let k = u.len() as int;
    assert(u.take(k) =~= u);
    assert(u.skip(k) =~= Seq::<u32>::empty());
    assert(whole_units(u.skip(k), single));
    assert(fold_units(u.skip(k), single, fold_step(st, u, single)) == fold_step(st, u, single));
}

/// Folding one more unit after whole units.
proof fn lemma_fold_push(a: Seq<u32>, u: Seq<u32>, single: bool, st: FoldState)
    requires
        whole_units(a, single),
        u.len() > 0,
        unit_len(u, single) == u.len(),
    ensures
        whole_units(a + u, single),
        fold_units(a + u, single, st) == fold_step(fold_units(a, single, st), u, single),
{
    lemma_fold_unit(u, single, fold_units(a, single, st));
    lemma_fold_concat(a, u, single, st);
}

/// Folding a line break (one character, or a carriage return and a line
/// feed) after whole units: the first break of a gap becomes the leading
/// break, a later one a trailing break, and the blanks before it are
/// dropped.
proof fn lemma_fold_line_break(run: Seq<u32>, e: Seq<u32>, single: bool, st: FoldState)
    requires
        whole_units(run, single),
        (e.len() == 1 && spec_is_break(e[0]) && !(e[0] == 0x0A && fold_units(run, single, st).cr))
            || e == seq![0x0Du32, 0x0Au32],
    ensures
        whole_units(run + e, single),
        ({
            let f0 = fold_units(run, single, st);
            fold_units(run + e, single, st) == (FoldState {
                out: f0.out,
                lb: true,
                ws: if f0.lb { f0.ws } else { Seq::empty() },
                lead: if f0.lb { f0.lead } else { seq![0x0Au8] },
                trail: if f0.lb { f0.trail.push(0x0Au8) } else { f0.trail },
                cr: e.len() == 1 && e[0] == 0x0D,
            })
        }),
{
    let u = seq![e[0]];
    assert(unit_len(u, single) == 1);
    lemma_fold_push(run, u, single, st);
    if e.len() == 2 {
        let v = seq![0x0Au32];
        assert(unit_len(v, single) == 1);
        lemma_fold_push(run + u, v, single, st);
        assert(run + u + v =~= run + e);
    } else {
        assert(u =~= e);
    }
}

/// One character of a plain scalar: blanks and line breaks fold as in a
/// quoted scalar; any other character stands for itself.
pub open spec fn fold_char(st: FoldState, c: u32) -> FoldState {
    if spec_is_blank(c) || spec_is_break(c) {
        fold_step(st, seq![c], true)
    } else {
        FoldState {
            out: fold_finish(st) + utf8_encode(c),
            lb: false,
            ws: Seq::empty(),
            lead: Seq::empty(),
            trail: Seq::empty(),
            cr: false,
        }
    }
}

/// The characters `s` of a plain scalar, one by one, from the state `st`.
pub open spec fn fold_chars(s: Seq<u32>, st: FoldState) -> FoldState
    decreases s.len(),
{
    if s.len() == 0 {
        st
    } else {
        fold_chars(s.skip(1), fold_char(st, s[0]))
    }
}

/// The value of a plain scalar whose characters are `s`: the blanks and
/// line breaks after its last piece of text add nothing.
pub open spec fn plain_value(s: Seq<u32>) -> Seq<u8> {
    fold_chars(s, fold_start()).out
}

/// Folding the characters of a plain scalar in two parts.
proof fn lemma_fold_chars_concat(a: Seq<u32>, b: Seq<u32>, st: FoldState)
    ensures
        fold_chars(a + b, st) == fold_chars(b, fold_chars(a, st)),
    decreases a.len(),
{
    if a.len() == 0 {
        assert(a + b =~= b);
    } else {
        assert((a + b)[0] == a[0]);
        assert((a + b).skip(1) =~= a.skip(1) + b);
        lemma_fold_chars_concat(a.skip(1), b, fold_char(st, a[0]));
    }
}

/// Folding one more character of a plain scalar.
pub proof fn lemma_fold_chars_push(a: Seq<u32>, c: u32, st: FoldState)
    ensures
        fold_chars(a.push(c), st) == fold_char(fold_chars(a, st), c),
{
    lemma_fold_chars_concat(a, seq![c], st);
    assert(a.push(c) =~= a + seq![c]);
    assert(seq![c].skip(1) =~= Seq::<u32>::empty());
    let f = fold_chars(a, st);
    assert(seq![c][0] == c);
    assert(fold_chars(Seq::<u32>::empty(), fold_char(f, c)) == fold_char(f, c));
    assert(fold_chars(seq![c], f) == fold_chars(seq![c].skip(1), fold_char(f, c)));
}

/// Scans one element of the text of a quoted scalar: a "''" pair in a
/// single-quoted scalar, an escaped line break or an escape in a
/// double-quoted one, or a character. The result says whether it was an
/// escaped line break.
#[verifier::rlimit(40)]
fn flow_text_step(
    parser: &mut yaml_parser_t,
    string: &mut yaml_string_t,
    single: bool,
    start_mark: yaml_mark_t,
) -> (r: Option<bool>)
    requires
        old(parser).wf(),
        !spec_is_blankz(old(parser).ch(0)),
        old(parser).ch(0) != quote_char(single) || (single && old(parser).ch(1) == 0x27),
    ensures
        scan_frame(*old(parser), *final(parser)),
        scan_outcome(*old(parser), *final(parser), r is Some),
        r is Some ==> read_between(*old(parser), *final(parser)).len() > 0,
        r == Some(false) ==> {
            let e = read_between(*old(parser), *final(parser));
            &&& final(parser).reader.mark.line == old(parser).reader.mark.line
            &&& elem_len(e, single) == e.len()
            &&& unit_len(e, single) == e.len()
            &&& !spec_is_blank(e[0]) && !spec_is_break(e[0])
            &&& !(!single && e[0] == 0x5C && spec_is_break(e[1]))
            &&& quote_head_ok(e, single)
            &&& final(string).data@ == old(string).data@ + elem_value(e, single)
        },
        r == Some(true) ==> {
            let e = read_between(*old(parser), *final(parser));
            &&& !single
            &&& e.len() >= 2 && e[0] == 0x5C && spec_is_break(e[1])
            &&& e.len() == 2 || (e.len() == 3 && e[1] == 0x0D && e[2] == 0x0A)
            &&& e.len() == 2 && e[1] == 0x0D ==> next_not_lf(*final(parser))
            &&& final(string).data@ == old(string).data@
        },
        all_chars(read_between(*old(parser), *final(parser)), |c: u32| !spec_is_break(c))
            ==> final(parser).reader.mark.line == old(parser).reader.mark.line,
        (r is None && final(parser).error == yaml_error_type_t::YAML_SCANNER_ERROR) ==> {
            &&& final(parser).context == Some("while parsing a quoted scalar")
            &&& final(parser).context_mark == start_mark
            &&& escape_problem(final(parser).problem)
            &&& final(parser).problem == Some("found unknown escape character") ==> !single
                && unknown_escape_at(*final(parser))
            &&& final(parser).problem == Some("did not find expected hexdecimal number") ==> !single
                && bad_hex_at(*final(parser))
            &&& final(parser).problem == Some("found invalid Unicode character escape code") ==> !single
                && bad_code_at(*final(parser))
        },
{
    let c0 = peek(parser, 0);
    let c1 = peek(parser, 1);
    if single && c0 == 0x27 && c1 == 0x27 {
        string.data.push(0x27);
        skip(parser);
        skip(parser);
        proof {
            assert(read_between(*old(parser), *parser)[0] == 0x27);
            assert(string.data@ =~= old(string).data@ + seq![0x27u8]);
        }
        return Some(false);
    }
    if !single && c0 == 0x5C && is_break(c1) {
        if !yaml_parser_update_buffer(parser, 3) {
            proof {
                assert(read_between(*old(parser), *parser) =~= Seq::<u32>::empty());
            }
            return None;
        }
        let ghost m0 = *parser;
        skip(parser);
        let ghost mid = *parser;
        skip_line(parser);
        proof {
            assert(mid.reader.history@.is_prefix_of(parser.reader.history@));
            lemma_frame_trans(*old(parser), mid, *parser);
            let e = read_between(*old(parser), *parser);
            assert(e[0] == 0x5C);
            assert(e[1] == c1);
            assert(mid.ch(0) == m0.ch(1));
            assert(mid.ch(1) == m0.ch(2));
            if !(c1 == 0x0D && mid.ch(1) == 0x0A) {
                assert(e.len() == 2);
                assert(parser.ch(0) == mid.ch(1));
            } else {
                assert(e =~= seq![0x5Cu32, 0x0Du32, 0x0Au32]);
            }
        }
        return Some(true);
    }
    if !single && c0 == 0x5C {
        let ok = scan_flow_escape(parser, &mut string.data, start_mark);
        proof {
            if ok {
                let e = read_between(*old(parser), *parser);
                assert(e[0] == 0x5C);
                if simple_escape(e[1]) is None {
                    assert(e.skip(2) == read_between(*old(parser), *parser).skip(2));
                }
            }
        }
        return if ok { Some(false) } else { None };
    }
    read(parser, string);
    proof {
        assert(read_between(*old(parser), *parser) =~= seq![c0]);
        lemma_encode_push(Seq::<u32>::empty(), c0);
        assert(seq![c0] =~= Seq::<u32>::empty().push(c0));
        assert(utf8_encode_all(Seq::<u32>::empty()) =~= Seq::<u8>::empty());
        assert(utf8_encode_all(seq![c0]) =~= utf8_encode(c0));
    }
    Some(false)
}

/// Scans the text of a quoted scalar up to a blank, a line break, the end
/// of the input or the closing quote; an escaped line break ends it too
/// (the result says whether one did).
#[verifier::rlimit(100)]
fn scan_flow_text(
    parser: &mut yaml_parser_t,
    string: &mut yaml_string_t,
    single: bool,
    start_mark: yaml_mark_t,
    Ghost(st): Ghost<FoldState>,
) -> (r: Option<bool>)
    requires
        old(parser).wf(),
        fold_finish(st) == old(string).data@,
    ensures
        scan_frame(*old(parser), *final(parser)),
        scan_outcome(*old(parser), *final(parser), r is Some),
        ({
            let read = read_between(*old(parser), *final(parser));
            &&& all_chars(read, |c: u32| !spec_is_break(c)) ==> {
                &&& final(parser).reader.mark.line == old(parser).reader.mark.line
                &&& r is Some ==> r == Some(false)
            }
            &&& r is Some ==> whole_units(read, single)
            &&& r is Some ==> quote_free(read, single)
            &&& r is Some && read.len() > 0 ==> {
                let f = fold_units(read, single, st);
                &&& f.out == final(string).data@
                &&& f.ws.len() == 0 && f.lead.len() == 0 && f.trail.len() == 0
                &&& f.lb == (r == Some(true))
                &&& f.cr ==> next_not_lf(*final(parser))
            }
            &&& r is Some && read.len() == 0 ==> r == Some(false) && final(string).data@ == old(string).data@
            &&& r == Some(false) ==> (spec_is_blankz(final(parser).ch(0)) || final(parser).ch(0) == quote_char(single))
            &&& r is Some && read.len() == 0 && old(parser).ch(0) != 0 ==> final(parser).ch(0) == old(parser).ch(0)
        }),
        (r is None && final(parser).error == yaml_error_type_t::YAML_SCANNER_ERROR) ==> {
            &&& final(parser).context == Some("while parsing a quoted scalar")
            &&& final(parser).context_mark == start_mark
            &&& escape_problem(final(parser).problem)
            &&& final(parser).problem == Some("found unknown escape character") ==> !single
                && unknown_escape_at(*final(parser))
            &&& final(parser).problem == Some("did not find expected hexdecimal number") ==> !single
                && bad_hex_at(*final(parser))
            &&& final(parser).problem == Some("found invalid Unicode character escape code") ==> !single
                && bad_code_at(*final(parser))
        },
{
    let ghost h0 = old(parser).reader.history@;
    let ghost mut run: Seq<u32> = Seq::empty();
    let ghost c00 = old(parser).ch(0);
    proof {
        assert(parser.reader.history@ =~= h0 + run);
        assert(quote_free(run, single));
    }
    while !is_blankz(peek(parser, 0))
        invariant
            scan_frame(*old(parser), *parser),
            error_same(*old(parser), *parser),
            h0 == old(parser).reader.history@,
            parser.reader.history@ == h0 + run,
            c00 == old(parser).ch(0),
            all_chars(run, |c: u32| !spec_is_break(c)) ==> parser.reader.mark.line == old(
                parser,
            ).reader.mark.line,
            fold_finish(st) == old(string).data@,
            whole_units(run, single),
            quote_free(run, single),
            run.len() == 0 ==> string.data@ == old(string).data@,
            run.len() > 0 ==> {
                let f = fold_units(run, single, st);
                &&& f.out == string.data@
                &&& f.ws.len() == 0 && f.lead.len() == 0 && f.trail.len() == 0
                &&& !f.lb && !f.cr
            },
            run.len() == 0 && c00 != 0 ==> parser.ch(0) == c00,
        ensures
            scan_frame(*old(parser), *parser),
            error_same(*old(parser), *parser),
            parser.reader.history@ == h0 + run,
            all_chars(run, |c: u32| !spec_is_break(c)) ==> parser.reader.mark.line == old(
                parser,
            ).reader.mark.line,
            whole_units(run, single),
            quote_free(run, single),
            run.len() == 0 ==> string.data@ == old(string).data@,
            run.len() > 0 ==> {
                let f = fold_units(run, single, st);
                &&& f.out == string.data@
                &&& f.ws.len() == 0 && f.lead.len() == 0 && f.trail.len() == 0
                &&& !f.lb && !f.cr
            },
            run.len() == 0 && c00 != 0 ==> parser.ch(0) == c00,
            spec_is_blankz(parser.ch(0)) || parser.ch(0) == quote_char(single),
        decreases parser.reader.measure(),
    {
        let c0 = peek(parser, 0);
        let c1 = peek(parser, 1);
        if c0 == (if single { 0x27u32 } else { 0x22u32 }) && !(single && c1 == 0x27) {
            break;
        }
        let ghost before = *parser;
        let ghost s0 = string.data@;
        let step = flow_text_step(parser, string, single, start_mark);
        proof {
            lemma_frame_trans(*old(parser), before, *parser);
            let e = read_between(before, *parser);
            assert(read_between(*old(parser), before) =~= run);
            lemma_all_chars_concat(run, e, |c: u32| !spec_is_break(c));
            let fp = fold_units(run, single, st);
            if run.len() > 0 {
                assert(fold_gap(fp) =~= Seq::<u8>::empty());
                assert(fold_finish(fp) =~= fp.out);
            }
            if step == Some(false) {
                lemma_quote_unit(e, single);
                lemma_quote_concat(run, e, single);
                lemma_fold_push(run, e, single, st);
                if run.len() == 0 {
                    assert(run + e =~= e);
                    assert(fp == st);
                }
                assert(fold_finish(fp) == s0);
                assert(fold_step(fp, e, single).out == fold_finish(fp) + elem_value(e, single));
                assert(fold_units(run + e, single, st).out == string.data@);
            }
            if step == Some(true) {
                assert((run + e)[run.len() + 1int] == e[1]);
                let u = e.take(2);
                assert(unit_len(u, single) == 2);
                lemma_fold_push(run, u, single, st);
                if run.len() == 0 {
                    assert(run + u =~= u);
                }
                lemma_quote_unit(u, single);
                lemma_quote_concat(run, u, single);
                if e.len() == 2 {
                    assert(u =~= e);
                } else {
                    let v = e.skip(2);
                    assert(v =~= seq![0x0Au32]);
                    assert(unit_len(v, single) == 1);
                    lemma_fold_push(run + u, v, single, st);
                    lemma_quote_unit(v, single);
                    lemma_quote_concat(run + u, v, single);
                    assert(run + u + v =~= run + e);
                }
            }
            run = run + e;
            assert(parser.reader.history@ =~= h0 + run);
        }
        match step {
            None => return None,
            Some(true) => return Some(true),
            Some(false) => {},
        }
        if !yaml_parser_update_buffer(parser, 2) {
            return None;
        }
    }
    proof {
        assert(read_between(*old(parser), *parser) =~= run);
    }
    Some(false)
}

/// Scans the blanks and line breaks between two pieces of a quoted scalar:
/// blanks before the first break are kept in `whitespaces`; the first
/// break goes to `leading_break`, the later ones to `trailing_breaks`,
/// and blanks after a break are dropped. The result says whether a break
/// was seen (`lb_in` tells of one seen before).
#[verifier::rlimit(100)]
#[verifier::spinoff_prover]
fn scan_flow_blanks(
    parser: &mut yaml_parser_t,
    whitespaces: &mut yaml_string_t,
    leading_break: &mut yaml_string_t,
    trailing_breaks: &mut yaml_string_t,
    lb_in: bool,
    Ghost(st): Ghost<FoldState>,
    Ghost(single): Ghost<bool>,
) -> (r: Option<bool>)
    requires
        old(parser).wf(),
        st.lb == lb_in,
        st.ws == old(whitespaces).data@,
        st.lead == old(leading_break).data@,
        st.trail == old(trailing_breaks).data@,
        !lb_in ==> old(leading_break).data@.len() == 0,
        lb_in ==> old(whitespaces).data@.len() == 0,
        st.cr ==> next_not_lf(*old(parser)),
    ensures
        scan_frame(*old(parser), *final(parser)),
        scan_outcome(*old(parser), *final(parser), r is Some),
        r is None ==> final(parser).error == yaml_error_type_t::YAML_READER_ERROR,
        r is Some ==> !spec_is_blank(final(parser).ch(0)) && !spec_is_break(final(parser).ch(0)),
        r is Some && (spec_is_blank(old(parser).ch(0)) || spec_is_break(old(parser).ch(0)))
            ==> read_between(*old(parser), *final(parser)).len() > 0,
        r matches Some(l) ==> {
            let b = read_between(*old(parser), *final(parser));
            let f = fold_units(b, single, st);
            &&& whole_units(b, single)
            &&& quote_free(b, single)
            &&& f.out == st.out
            &&& f.lb == l
            &&& f.ws == final(whitespaces).data@
            &&& f.lead == final(leading_break).data@
            &&& f.trail == final(trailing_breaks).data@
            &&& l ==> final(whitespaces).data@.len() == 0
            &&& !l ==> final(leading_break).data@.len() == 0
            &&& !l ==> final(trailing_breaks).data@ == old(trailing_breaks).data@
            &&& f.cr ==> next_not_lf(*final(parser))
            &&& final(parser).reader.unread() >= 1 || final(parser).reader.raw_done()
        },
{
    let mut lb = lb_in;
    if !yaml_parser_update_buffer(parser, 1) {
        proof {
            assert(read_between(*old(parser), *parser) =~= Seq::<u32>::empty());
        }
        return None;
    }
    let ghost h0 = old(parser).reader.history@;
    let ghost mut run: Seq<u32> = Seq::empty();
    let ghost c00 = old(parser).ch(0);
    proof {
        assert(parser.reader.history@ =~= h0 + run);
        assert(quote_free(run, single));
    }
    while is_blank(peek(parser, 0)) || is_break(peek(parser, 0))
        invariant
            scan_frame(*old(parser), *parser),
            error_same(*old(parser), *parser),
            h0 == old(parser).reader.history@,
            parser.reader.history@ == h0 + run,
            c00 == old(parser).ch(0),
            run.len() == 0 && c00 != 0 ==> parser.ch(0) == c00,
            parser.reader.unread() >= 1 || parser.reader.raw_done(),
            whole_units(run, single),
            quote_free(run, single),
            ({
                let f = fold_units(run, single, st);
                &&& f.out == st.out
                &&& f.lb == lb
                &&& f.ws == whitespaces.data@
                &&& f.lead == leading_break.data@
                &&& f.trail == trailing_breaks.data@
                &&& !lb ==> leading_break.data@.len() == 0
                &&& !lb ==> trailing_breaks.data@ == old(trailing_breaks).data@
                &&& lb ==> whitespaces.data@.len() == 0
                &&& f.cr ==> next_not_lf(*parser)
            }),
        decreases parser.reader.measure(),
    {
        let c = peek(parser, 0);
        let ghost before = *parser;
        let ghost f0 = fold_units(run, single, st);
        if is_blank(c) {
            if !lb {
                read(parser, whitespaces);
            } else {
                skip(parser);
            }
            proof {
                let u = seq![c];
                assert(read_between(before, *parser) =~= u);
                lemma_fold_push(run, u, single, st);
                lemma_quote_unit(u, single);
                lemma_quote_concat(run, u, single);
                lemma_encode_push(Seq::<u32>::empty(), c);
                assert(Seq::<u32>::empty().push(c) =~= u);
                assert(utf8_encode_all(Seq::<u32>::empty()) =~= Seq::<u8>::empty());
                run = run + u;
                assert(parser.reader.history@ =~= h0 + run);
            }
        } else {
            if !yaml_parser_update_buffer(parser, 2) {
                proof {
                    assert(read_between(*old(parser), *parser) =~= run);
                }
                return None;
            }
            let ghost mid = *parser;
            let c1 = peek(parser, 1);
            if !lb {
                whitespaces.data.clear();
                read_line(parser, leading_break);
                lb = true;
            } else {
                read_line(parser, trailing_breaks);
            }
            proof {
                assert(mid.reader.history@.is_prefix_of(parser.reader.history@));
                lemma_frame_trans(before, mid, *parser);
                let e = read_between(before, *parser);
                assert(mid.ch(0) == c);
                if !f0.lb {
                    assert(leading_break.data@ =~= seq![0x0Au8]);
                }
                if c == 0x0D && c1 == 0x0A {
                    assert(e =~= seq![0x0Du32, 0x0Au32]);
                } else {
                    assert(e =~= seq![c]);
                    assert(parser.ch(0) == mid.ch(1));
                }
                lemma_fold_line_break(run, e, single, st);
                lemma_quote_break(e, single);
                lemma_quote_concat(run, e, single);
                run = run + e;
                assert(parser.reader.history@ =~= h0 + run);
            }
        }
        if !yaml_parser_update_buffer(parser, 1) {
            proof {
                assert(read_between(*old(parser), *parser) =~= run);
            }
            return None;
        }
    }
    proof {
        assert(read_between(*old(parser), *parser) =~= run);
    }
    Some(lb)
}

/// Joins the blanks and breaks between two pieces of a quoted scalar into
/// it: without a break, the blanks as they are; a line break alone folds
/// into a space; further breaks are kept; an escaped break adds nothing
/// but the breaks after it.
fn join_flow_pieces(
    string: &mut yaml_string_t,
    whitespaces: &mut yaml_string_t,
    leading_break: &mut yaml_string_t,
    trailing_breaks: &mut yaml_string_t,
    lb: bool,
)
    ensures
        !lb ==> {
            &&& final(string).data@ == old(string).data@ + old(whitespaces).data@
            &&& final(whitespaces).data@ == Seq::<u8>::empty()
            &&& final(leading_break).data@ == old(leading_break).data@
            &&& final(trailing_breaks).data@ == old(trailing_breaks).data@
        },
        lb ==> {
            &&& final(string).data@ == old(string).data@ + if old(leading_break).data@.len() > 0
                && old(leading_break).data@[0] == 0x0A {
                if old(trailing_breaks).data@.len() == 0 {
                    seq![0x20u8]
                } else {
                    old(trailing_breaks).data@
                }
            } else {
                old(leading_break).data@ + old(trailing_breaks).data@
            }
            &&& final(whitespaces).data@ == old(whitespaces).data@
            &&& final(leading_break).data@ == Seq::<u8>::empty()
            &&& final(trailing_breaks).data@ == Seq::<u8>::empty()
        },
{
    if lb {
        if leading_break.data.len() > 0 && leading_break.data[0] == 0x0A {
            if trailing_breaks.data.len() == 0 {
                string.data.push(0x20);
            } else {
                string.data.append(&mut trailing_breaks.data);
            }
            leading_break.data.clear();
        } else {
            string.data.append(&mut leading_break.data);
            string.data.append(&mut trailing_breaks.data);
        }
        trailing_breaks.data.clear();
    } else {
        string.data.append(&mut whitespaces.data);
    }
}

/// The problems a quoted scalar can have.
pub open spec fn flow_scalar_problem(p: Option<&'static str>) -> bool {
    ||| p == Some("found unexpected document indicator")
    ||| p == Some("found unexpected end of stream")
    ||| escape_problem(p)
}

/// A document indicator ("---" or "...") followed by a blank, a break or
/// the end of the input, at the start of a line.
pub open spec fn at_document_indicator(p: yaml_parser_t) -> bool {
    &&& p.reader.mark.column == 0
    &&& ((p.ch(0) == 0x2D && p.ch(1) == 0x2D && p.ch(2) == 0x2D) || (p.ch(0) == 0x2E && p.ch(1)
        == 0x2E && p.ch(2) == 0x2E))
    &&& spec_is_blankz(p.ch(3))
}

/// Scans a single-quoted or a double-quoted scalar. Its value is what the
/// text between its quotes stands for: escapes (and "''") decoded, blanks
/// kept within a line, line breaks folded.
#[verifier::rlimit(100)]
#[verifier::spinoff_prover]
pub fn yaml_parser_scan_flow_scalar(parser: &mut yaml_parser_t, single: bool) -> (r: Option<
    yaml_token_t,
>)
    requires
        old(parser).wf(),
        old(parser).ch(0) == quote_char(single),
    ensures
        scan_frame(*old(parser), *final(parser)),
        scan_outcome(*old(parser), *final(parser), r is Some),
        r matches Some(t) ==> {
            let read = read_between(*old(parser), *final(parser));
            let inner = read.subrange(1, read.len() - 1);
            &&& t.type_ == yaml_token_type_t::YAML_SCALAR_TOKEN
            &&& t.start_mark == old(parser).reader.mark
            &&& t.end_mark == final(parser).reader.mark
            &&& read.len() >= 2
            &&& read[0] == quote_char(single)
            &&& read.last() == quote_char(single)
            &&& t.data matches yaml_token_data_t::Scalar(d) && {
                &&& d.style == if single {
                    yaml_scalar_style_t::YAML_SINGLE_QUOTED_SCALAR_STYLE
                } else {
                    yaml_scalar_style_t::YAML_DOUBLE_QUOTED_SCALAR_STYLE
                }
                &&& d.value@ == flow_value(inner, single)
                &&& quote_free(inner, single)
            }
        },
        (r is None && final(parser).error == yaml_error_type_t::YAML_SCANNER_ERROR) ==> {
            &&& flow_scalar_problem(final(parser).problem)
            &&& final(parser).context_mark == old(parser).reader.mark
            &&& final(parser).problem == Some("found unexpected end of stream") ==> final(parser).ch(0) == 0
            &&& final(parser).problem == Some("found unexpected document indicator") ==> at_document_indicator(*final(parser))
            &&& final(parser).problem == Some("found unknown escape character") ==> !single && unknown_escape_at(
                *final(parser),
            )
            &&& final(parser).problem == Some("did not find expected hexdecimal number") ==> !single
                && bad_hex_at(*final(parser))
            &&& final(parser).problem == Some("found invalid Unicode character escape code") ==> !single
                && bad_code_at(*final(parser))
        },
{
    let start_mark = parser.reader.mark;
    let q = if single { 0x27u32 } else { 0x22u32 };
    skip(parser);
    let ghost m0 = *parser;
    let mut string = yaml_string_t { data: Vec::new() };
    let mut whitespaces = yaml_string_t { data: Vec::new() };
    let mut leading_break = yaml_string_t { data: Vec::new() };
    let mut trailing_breaks = yaml_string_t { data: Vec::new() };
    let ghost h0 = m0.reader.history@;
    let ghost mut run: Seq<u32> = Seq::empty();
    proof {
        assert(parser.reader.history@ =~= h0 + run);
        assert(quote_free(run, single));
        assert(string.data@ =~= fold_finish(fold_start()));
    }
    loop
        invariant
            scan_frame(*old(parser), m0),
            scan_frame(m0, *parser),
            error_same(*old(parser), *parser),
            h0 == m0.reader.history@,
            read_between(*old(parser), m0) == seq![q],
            q == quote_char(single),
            start_mark == old(parser).reader.mark,
            parser.reader.history@ == h0 + run,
            quote_free(run, single),
            whole_units(run, single),
            string.data@ == flow_value(run, single),
            whitespaces.data@.len() == 0,
            leading_break.data@.len() == 0,
            trailing_breaks.data@.len() == 0,
            fold_units(run, single, fold_start()).cr ==> next_not_lf(*parser),
            run.len() > 0 ==> !spec_is_blank(parser.ch(0)) && !spec_is_break(parser.ch(0)) && (
                parser.reader.unread() >= 1 || parser.reader.raw_done()),
        ensures
            scan_frame(m0, *parser),
            error_same(*old(parser), *parser),
            parser.reader.history@ == h0 + run,
            string.data@ == flow_value(run, single),
            quote_free(run, single),
            parser.ch(0) == q,
        decreases parser.reader.measure(),
    {
        let ghost top = *parser;
        let ghost f = fold_units(run, single, fold_start());
        if !yaml_parser_update_buffer(parser, 4) {
            proof { lemma_frame_trans(*old(parser), m0, *parser); }
            return None;
        }
        if parser.reader.mark.column == 0 && ((peek(parser, 0) == 0x2D && peek(parser, 1) == 0x2D
            && peek(parser, 2) == 0x2D) || (peek(parser, 0) == 0x2E && peek(parser, 1) == 0x2E
            && peek(parser, 2) == 0x2E)) && is_blankz(peek(parser, 3)) {
            yaml_parser_set_scanner_error(
                parser,
                Some("while scanning a quoted scalar"),
                start_mark,
                "found unexpected document indicator",
            );
            proof { lemma_frame_trans(*old(parser), m0, *parser); }
            return None;
        }
        if peek(parser, 0) == 0 {
            yaml_parser_set_scanner_error(
                parser,
                Some("while scanning a quoted scalar"),
                start_mark,
                "found unexpected end of stream",
            );
            proof { lemma_frame_trans(*old(parser), m0, *parser); }
            return None;
        }
        if !yaml_parser_update_buffer(parser, 2) {
            proof { lemma_frame_trans(*old(parser), m0, *parser); }
            return None;
        }
        let ghost m1 = *parser;
        let lb = match scan_flow_text(parser, &mut string, single, start_mark, Ghost(f)) {
            None => {
                proof {
                    lemma_frame_trans(m0, m1, *parser);
                    lemma_frame_trans(*old(parser), m0, *parser);
                }
                return None;
            },
            Some(lb) => lb,
        };
        let ghost m2 = *parser;
        if !yaml_parser_update_buffer(parser, 1) {
            proof {
                lemma_frame_trans(m0, m1, *parser);
                lemma_frame_trans(*old(parser), m0, *parser);
            }
            return None;
        }
        let ghost m3 = *parser;
        let ghost t = read_between(m1, m3);
        let ghost f1 = fold_units(t, single, f);
        proof {
            lemma_frame_trans(m1, m2, m3);
            lemma_frame_trans(m0, m1, m3);
            assert(read_between(m0, m1) =~= run);
            assert(t == read_between(m1, m2));
            lemma_fold_concat(run, t, single, fold_start());
            lemma_quote_concat(run, t, single);
            if t.len() == 0 {
                assert(run + t =~= run);
                if run.len() > 0 {
                    assert(m2.ch(0) == m1.ch(0));
                }
            }
        }
        if peek(parser, 0) == q {
            proof {
                if t.len() > 0 {
                    assert(fold_gap(f1) =~= Seq::<u8>::empty());
                }
                run = run + t;
                assert(parser.reader.history@ =~= h0 + run);
            }
            break;
        }
        proof {
            if t.len() == 0 {
                assert(run.len() == 0);
                assert(f == fold_start());
            }
            assert(whitespaces.data@ =~= f1.ws);
            assert(leading_break.data@ =~= f1.lead);
            assert(trailing_breaks.data@ =~= f1.trail);
        }
        let lb2 = match scan_flow_blanks(
            parser,
            &mut whitespaces,
            &mut leading_break,
            &mut trailing_breaks,
            lb,
            Ghost(f1),
            Ghost(single),
        ) {
            None => {
                proof {
                    lemma_frame_trans(m0, m3, *parser);
                    lemma_frame_trans(*old(parser), m0, *parser);
                }
                return None;
            },
            Some(l) => l,
        };
        let ghost m4 = *parser;
        let ghost s4 = string.data@;
        join_flow_pieces(&mut string, &mut whitespaces, &mut leading_break, &mut trailing_breaks, lb2);
        proof {
            lemma_frame_trans(m0, m3, m4);
            let b = read_between(m3, m4);
            assert(read_between(m0, m3) =~= run + t);
            lemma_fold_concat(run + t, b, single, fold_start());
            lemma_quote_concat(run + t, b, single);
            let f2 = fold_units(b, single, f1);
            assert(s4 == f2.out);
            assert(string.data@ =~= fold_finish(f2));
            run = run + t + b;
            assert(parser.reader.history@ =~= h0 + run);
            assert(read_between(top, *parser).len() > 0) by {
                assert(top.reader.history@.is_prefix_of(m1.reader.history@));
                lemma_read_split(top, m1, m4);
                if read_between(m1, m3).len() == 0 {
                    assert(m3.ch(0) == m1.ch(0));
                }
            }
        }
    }
    skip(parser);
    proof {
        lemma_frame_trans(*old(parser), m0, *parser);
        let read = read_between(*old(parser), *parser);
        assert(read =~= seq![q] + run + seq![q]);
        assert(read.subrange(1, read.len() - 1) =~= run);
    }
    let end_mark = parser.reader.mark;
    Some(yaml_token_t {
        type_: yaml_token_type_t::YAML_SCALAR_TOKEN,
        data: yaml_token_data_t::Scalar(
            crate::types::yaml_token_scalar_t {
                value: string.data,
                style: if single {
                    yaml_scalar_style_t::YAML_SINGLE_QUOTED_SCALAR_STYLE
                } else {
                    yaml_scalar_style_t::YAML_DOUBLE_QUOTED_SCALAR_STYLE
                },
            },
        ),
        start_mark,
        end_mark,
    })
}

// ---------------------------------------------------------------------------
// Plain scalars
// ---------------------------------------------------------------------------

/// A character of a plain scalar that is neither a blank nor a break.
pub open spec fn solid(c: u32) -> bool {
    !spec_is_blank(c) && !spec_is_break(c)
}

/// Where the text of a plain scalar stops: ": " (a ':' before a blank, a
/// break or the end), or one of ",[]{}" in flow context.
pub open spec fn plain_stop(c0: u32, c1: u32, flow_level: i32) -> bool {
    (c0 == 0x3A && spec_is_blankz(c1)) || (flow_level != 0 && (c0 == 0x2C || c0 == 0x5B || c0
        == 0x5D || c0 == 0x7B || c0 == 0x7D))
}

/// Where a plain scalar ends: at a document indicator, at a comment after
/// blanks, at the end of the input, at ': ' or (in a flow collection) at a
/// flow indicator, or (outside one) on a line indented less than `indent`.
pub open spec fn plain_ends_at(p: yaml_parser_t, indent: int) -> bool {
    ||| at_document_indicator(p)
    ||| p.ch(0) == 0x23
    ||| p.ch(0) == 0
    ||| plain_stop(p.ch(0), p.ch(1), p.scanner.flow_level)
    ||| (p.scanner.flow_level == 0 && (p.reader.mark.column as int) < indent)
}

/// A ':' that a flow collection cannot take inside a plain scalar.
pub open spec fn plain_bad_colon(c0: u32, c1: u32, flow_level: i32) -> bool {
    flow_level != 0 && c0 == 0x3A && (c1 == 0x2C || c1 == 0x3F || c1 == 0x5B || c1 == 0x5D || c1
        == 0x7B || c1 == 0x7D)
}

/// Scans the text of a plain scalar up to a blank, a break, the end of the
/// input or a stop; before the first character the pending blanks or
/// breaks join the scalar. Returns whether breaks are still pending and
/// the position after the last character taken.
#[verifier::rlimit(60)]
fn scan_plain_text(
    parser: &mut yaml_parser_t,
    string: &mut yaml_string_t,
    whitespaces: &mut yaml_string_t,
    leading_break: &mut yaml_string_t,
    trailing_breaks: &mut yaml_string_t,
    lb_in: bool,
    end_in: yaml_mark_t,
    start_mark: yaml_mark_t,
    Ghost(st): Ghost<FoldState>,
) -> (r: Option<(bool, yaml_mark_t)>)
    requires
        old(parser).wf(),
        st.out == old(string).data@,
        st.ws == old(whitespaces).data@,
        st.lead == old(leading_break).data@,
        st.trail == old(trailing_breaks).data@,
        st.lb == lb_in,
        lb_in ==> old(whitespaces).data@.len() == 0,
        !lb_in ==> old(leading_break).data@.len() == 0 && old(trailing_breaks).data@.len() == 0,
    ensures
        r matches Some(v) ==> {
            let f = fold_chars(read_between(*old(parser), *final(parser)), st);
            &&& f.out == final(string).data@
            &&& f.ws == final(whitespaces).data@
            &&& f.lead == final(leading_break).data@
            &&& f.trail == final(trailing_breaks).data@
            &&& f.lb == v.0
            &&& read_between(*old(parser), *final(parser)).len() > 0 ==> !f.cr && f.ws.len() == 0
                && f.lead.len() == 0 && f.trail.len() == 0
        },
        scan_frame(*old(parser), *final(parser)),
        scan_outcome(*old(parser), *final(parser), r is Some),
        final(parser).reader.mark.line == old(parser).reader.mark.line,
        all_chars(read_between(*old(parser), *final(parser)), |c: u32| solid(c)),
        r matches Some(v) ==> {
            &&& (spec_is_blankz(final(parser).ch(0)) || plain_stop(
                final(parser).ch(0),
                final(parser).ch(1),
                final(parser).scanner.flow_level,
            ))
            &&& read_between(*old(parser), *final(parser)).len() == 0 ==> {
                &&& v == (lb_in, end_in)
                &&& final(string).data@ == old(string).data@
                &&& final(whitespaces).data@ == old(whitespaces).data@
                &&& final(leading_break).data@ == old(leading_break).data@
                &&& final(trailing_breaks).data@ == old(trailing_breaks).data@
                &&& old(parser).ch(0) != 0 ==> final(parser).ch(0) == old(parser).ch(0)
            }
            &&& read_between(*old(parser), *final(parser)).len() > 0 ==> v.1 == final(parser).reader.mark && !v.0
            &&& read_between(*old(parser), *final(parser)).len() == 0 ==> *final(parser) == *old(parser)
        },
        !lb_in && read_between(*old(parser), *final(parser)).len() > 0 ==> {
            &&& final(string).data@ == old(string).data@ + old(whitespaces).data@ + utf8_encode_all(
                read_between(*old(parser), *final(parser)),
            )
            &&& final(whitespaces).data@ == Seq::<u8>::empty()
        },
        (!lb_in && old(whitespaces).data@.len() == 0) ==> {
            &&& final(string).data@ == old(string).data@ + utf8_encode_all(read_between(*old(parser), *final(parser)))
            &&& final(whitespaces).data@ == old(whitespaces).data@
            &&& final(leading_break).data@ == old(leading_break).data@
            &&& final(trailing_breaks).data@ == old(trailing_breaks).data@
        },
        (r is None && final(parser).error == yaml_error_type_t::YAML_SCANNER_ERROR) ==> {
            &&& final(parser).problem == Some("found unexpected ':'")
            &&& final(parser).context == Some("while scanning a plain scalar")
            &&& final(parser).context_mark == start_mark
            &&& plain_bad_colon(final(parser).ch(0), final(parser).ch(1), final(parser).scanner.flow_level)
        },
{
    let mut lb = lb_in;
    let mut end_mark = end_in;
    let ghost h0 = old(parser).reader.history@;
    let ghost mut run: Seq<u32> = Seq::empty();
    let ghost c00 = old(parser).ch(0);
    let ghost pending_empty = !lb_in && old(whitespaces).data@.len() == 0;
    proof {
        assert(parser.reader.history@ =~= h0 + run);
        assert(utf8_encode_all(run) =~= Seq::<u8>::empty());
        assert(string.data@ =~= old(string).data@ + utf8_encode_all(run));
    }
    while !is_blankz(peek(parser, 0))
        invariant
            scan_frame(*old(parser), *parser),
            error_same(*old(parser), *parser),
            h0 == old(parser).reader.history@,
            parser.reader.history@ == h0 + run,
            c00 == old(parser).ch(0),
            pending_empty == (!lb_in && old(whitespaces).data@.len() == 0),
            all_chars(run, |c: u32| solid(c)),
            parser.reader.mark.line == old(parser).reader.mark.line,
            run.len() == 0 ==> {
                &&& lb == lb_in
                &&& end_mark == end_in
                &&& string.data@ == old(string).data@
                &&& whitespaces.data@ == old(whitespaces).data@
                &&& leading_break.data@ == old(leading_break).data@
                &&& trailing_breaks.data@ == old(trailing_breaks).data@
                &&& c00 != 0 ==> parser.ch(0) == c00
            },
            run.len() > 0 ==> end_mark == parser.reader.mark && !lb,
            run.len() == 0 ==> *parser == *old(parser),
            pending_empty ==> {
                &&& string.data@ == old(string).data@ + utf8_encode_all(run)
                &&& whitespaces.data@ == old(whitespaces).data@
                &&& leading_break.data@ == old(leading_break).data@
                &&& trailing_breaks.data@ == old(trailing_breaks).data@
                &&& !lb
            },
            !lb_in ==> !lb,
            st.out == old(string).data@,
            st.ws == old(whitespaces).data@,
            st.lead == old(leading_break).data@,
            st.trail == old(trailing_breaks).data@,
            st.lb == lb_in,
            lb_in ==> old(whitespaces).data@.len() == 0,
            !lb_in ==> old(leading_break).data@.len() == 0 && old(trailing_breaks).data@.len() == 0,
            run.len() > 0 ==> {
                let f = fold_chars(run, st);
                &&& f.out == string.data@
                &&& whitespaces.data@.len() == 0 && leading_break.data@.len() == 0
                    && trailing_breaks.data@.len() == 0
                &&& f.ws.len() == 0 && f.lead.len() == 0 && f.trail.len() == 0
                &&& !f.lb && !f.cr
            },
            !lb_in && run.len() > 0 ==> {
                &&& string.data@ == old(string).data@ + old(whitespaces).data@ + utf8_encode_all(run)
                &&& whitespaces.data@ == Seq::<u8>::empty()
            },
        ensures
            run.len() == 0 ==> *parser == *old(parser),
            scan_frame(*old(parser), *parser),
            error_same(*old(parser), *parser),
            parser.reader.history@ == h0 + run,
            all_chars(run, |c: u32| solid(c)),
            parser.reader.mark.line == old(parser).reader.mark.line,
            run.len() == 0 ==> {
                &&& lb == lb_in
                &&& end_mark == end_in
                &&& string.data@ == old(string).data@
                &&& whitespaces.data@ == old(whitespaces).data@
                &&& leading_break.data@ == old(leading_break).data@
                &&& trailing_breaks.data@ == old(trailing_breaks).data@
                &&& c00 != 0 ==> parser.ch(0) == c00
            },
            run.len() > 0 ==> end_mark == parser.reader.mark && !lb,
            pending_empty ==> {
                &&& string.data@ == old(string).data@ + utf8_encode_all(run)
                &&& whitespaces.data@ == old(whitespaces).data@
                &&& leading_break.data@ == old(leading_break).data@
                &&& trailing_breaks.data@ == old(trailing_breaks).data@
            },
            run.len() > 0 ==> {
                let f = fold_chars(run, st);
                &&& f.out == string.data@
                &&& whitespaces.data@.len() == 0 && leading_break.data@.len() == 0
                    && trailing_breaks.data@.len() == 0
                &&& f.ws.len() == 0 && f.lead.len() == 0 && f.trail.len() == 0
                &&& !f.lb && !f.cr
            },
            !lb_in && run.len() > 0 ==> {
                &&& string.data@ == old(string).data@ + old(whitespaces).data@ + utf8_encode_all(run)
                &&& whitespaces.data@ == Seq::<u8>::empty()
            },
            spec_is_blankz(parser.ch(0)) || plain_stop(parser.ch(0), parser.ch(1), parser.scanner.flow_level),
        decreases parser.reader.measure(),
    {
        let c0 = peek(parser, 0);
        let c1 = peek(parser, 1);
        if parser.scanner.flow_level != 0 && c0 == 0x3A && (c1 == 0x2C || c1 == 0x3F || c1 == 0x5B
            || c1 == 0x5D || c1 == 0x7B || c1 == 0x7D) {
            yaml_parser_set_scanner_error(
                parser,
                Some("while scanning a plain scalar"),
                start_mark,
                "found unexpected ':'",
            );
            proof {
                assert(read_between(*old(parser), *parser) =~= run);
            }
            return None;
        }
        if (c0 == 0x3A && is_blankz(c1)) || (parser.scanner.flow_level != 0 && (c0 == 0x2C || c0
            == 0x5B || c0 == 0x5D || c0 == 0x7B || c0 == 0x7D)) {
            break;
        }
        if lb || whitespaces.data.len() > 0 {
            if lb {
                join_flow_pieces(string, whitespaces, leading_break, trailing_breaks, true);
                lb = false;
            } else {
                string.data.append(&mut whitespaces.data);
            }
        }
        proof {
            if !lb_in && run.len() == 0 && old(whitespaces).data@.len() == 0 {
                assert(string.data@ =~= old(string).data@ + old(whitespaces).data@);
            }
            let f0 = fold_chars(run, st);
            if run.len() == 0 {
                assert(f0 == st);
            }
            if !f0.lb && f0.ws.len() == 0 {
                assert(fold_gap(f0) =~= Seq::<u8>::empty());
            }
            assert(string.data@ =~= fold_finish(f0));
            lemma_fold_chars_push(run, c0, st);
        }
        read(parser, string);
        proof {
            lemma_encode_push(run, c0);
            lemma_all_chars_push(run, c0, |c: u32| solid(c));
            if !lb_in && run.len() == 0 {
                assert(utf8_encode_all(run) =~= Seq::<u8>::empty());
                assert(whitespaces.data@ =~= Seq::<u8>::empty());
            }
            run = run.push(c0);
            assert(parser.reader.history@ =~= h0 + run);
        }
        end_mark = parser.reader.mark;
        if !yaml_parser_update_buffer(parser, 2) {
            proof {
                assert(read_between(*old(parser), *parser) =~= run);
            }
            return None;
        }
    }
    proof {
        assert(read_between(*old(parser), *parser) =~= run);
    }
    Some((lb, end_mark))
}

/// Scans the blanks and breaks after a piece of a plain scalar, as for a
/// quoted scalar; a tab in the indentation of a continuation line is an
/// error.
#[verifier::rlimit(100)]
fn scan_plain_blanks(
    parser: &mut yaml_parser_t,
    whitespaces: &mut yaml_string_t,
    leading_break: &mut yaml_string_t,
    trailing_breaks: &mut yaml_string_t,
    lb_in: bool,
    indent: i64,
    start_mark: yaml_mark_t,
    Ghost(st): Ghost<FoldState>,
) -> (r: Option<bool>)
    requires
        old(parser).wf(),
        st.lb == lb_in,
        st.ws == old(whitespaces).data@,
        st.lead == old(leading_break).data@,
        st.trail == old(trailing_breaks).data@,
        !lb_in ==> old(leading_break).data@.len() == 0 && old(trailing_breaks).data@.len() == 0,
        lb_in ==> old(whitespaces).data@.len() == 0,
        st.cr ==> next_not_lf(*old(parser)),
    ensures
        r matches Some(l) ==> {
            let f = fold_chars(read_between(*old(parser), *final(parser)), st);
            &&& f.out == st.out
            &&& f.lb == l
            &&& f.ws == final(whitespaces).data@
            &&& f.lead == final(leading_break).data@
            &&& f.trail == final(trailing_breaks).data@
            &&& l ==> final(whitespaces).data@.len() == 0
            &&& !l ==> final(leading_break).data@.len() == 0 && final(trailing_breaks).data@.len() == 0
            &&& f.cr ==> next_not_lf(*final(parser))
        },
        scan_frame(*old(parser), *final(parser)),
        scan_outcome(*old(parser), *final(parser), r is Some),
        r is Some ==> !spec_is_blank(final(parser).ch(0)) && !spec_is_break(final(parser).ch(0)),
        r is Some && (spec_is_blank(old(parser).ch(0)) || spec_is_break(old(parser).ch(0)))
            ==> read_between(*old(parser), *final(parser)).len() > 0,
        all_chars(
            read_between(*old(parser), *final(parser)),
            |c: u32| spec_is_blank(c) || spec_is_break(c),
        ),
        all_chars(read_between(*old(parser), *final(parser)), |c: u32| spec_is_blank(c)) ==> {
            &&& r is Some ==> r == Some(lb_in)
            &&& !lb_in ==> final(whitespaces).data@ == old(whitespaces).data@ + utf8_encode_all(
                read_between(*old(parser), *final(parser)),
            )
        },
        (r is None && final(parser).error == yaml_error_type_t::YAML_SCANNER_ERROR) ==> {
            &&& final(parser).problem == Some("found a tab character that violates indentation")
            &&& final(parser).context == Some("while scanning a plain scalar")
            &&& final(parser).context_mark == start_mark
            &&& final(parser).ch(0) == 0x09
            &&& (final(parser).reader.mark.column as int) < indent
        },
{
    let mut lb = lb_in;
    if !yaml_parser_update_buffer(parser, 1) {
        proof {
            assert(read_between(*old(parser), *parser) =~= Seq::<u32>::empty());
        }
        return None;
    }
    let ghost h0 = old(parser).reader.history@;
    let ghost mut run: Seq<u32> = Seq::empty();
    let ghost c00 = old(parser).ch(0);
    proof {
        assert(parser.reader.history@ =~= h0 + run);
        assert(utf8_encode_all(run) =~= Seq::<u8>::empty());
        assert(whitespaces.data@ =~= old(whitespaces).data@ + utf8_encode_all(run));
    }
    while is_blank(peek(parser, 0)) || is_break(peek(parser, 0))
        invariant
            scan_frame(*old(parser), *parser),
            error_same(*old(parser), *parser),
            h0 == old(parser).reader.history@,
            parser.reader.history@ == h0 + run,
            c00 == old(parser).ch(0),
            run.len() == 0 && c00 != 0 ==> parser.ch(0) == c00,
            all_chars(run, |c: u32| spec_is_blank(c) || spec_is_break(c)),
            all_chars(run, |c: u32| spec_is_blank(c)) ==> {
                &&& lb == lb_in
                &&& !lb_in ==> whitespaces.data@ == old(whitespaces).data@ + utf8_encode_all(run)
            },
            parser.reader.unread() >= 1 || parser.reader.raw_done(),
            ({
                let f = fold_chars(run, st);
                &&& f.out == st.out
                &&& f.lb == lb
                &&& f.ws == whitespaces.data@
                &&& f.lead == leading_break.data@
                &&& f.trail == trailing_breaks.data@
                &&& !lb ==> leading_break.data@.len() == 0 && trailing_breaks.data@.len() == 0
                &&& lb ==> whitespaces.data@.len() == 0
                &&& f.cr ==> next_not_lf(*parser)
            }),
        decreases parser.reader.measure(),
    {
        let c = peek(parser, 0);
        let ghost before = *parser;
        let ghost f0 = fold_chars(run, st);
        if is_blank(c) {
            if lb && (parser.reader.mark.column as i128) < (indent as i128) && c == 0x09 {
                yaml_parser_set_scanner_error(
                    parser,
                    Some("while scanning a plain scalar"),
                    start_mark,
                    "found a tab character that violates indentation",
                );
                proof {
                    assert(read_between(*old(parser), *parser) =~= run);
                }
                return None;
            }
            if !lb {
                read(parser, whitespaces);
            } else {
                skip(parser);
            }
            proof {
                lemma_all_chars_push(run, c, |c: u32| spec_is_blank(c) || spec_is_break(c));
                lemma_all_chars_push(run, c, |c: u32| spec_is_blank(c));
                lemma_encode_push(run, c);
                lemma_fold_chars_push(run, c, st);
                lemma_encode_push(Seq::<u32>::empty(), c);
                assert(Seq::<u32>::empty().push(c) =~= seq![c]);
                assert(utf8_encode_all(Seq::<u32>::empty()) =~= Seq::<u8>::empty());
                run = run.push(c);
                assert(parser.reader.history@ =~= h0 + run);
            }
        } else {
            if !yaml_parser_update_buffer(parser, 2) {
                proof {
                    assert(read_between(*old(parser), *parser) =~= run);
                }
                return None;
            }
            let ghost mid = *parser;
            let c1 = peek(parser, 1);
            if !lb {
                whitespaces.data.clear();
                read_line(parser, leading_break);
                lb = true;
            } else {
                read_line(parser, trailing_breaks);
            }
            proof {
                assert(mid.reader.history@.is_prefix_of(parser.reader.history@));
                lemma_frame_trans(before, mid, *parser);
                let e = read_between(before, *parser);
                assert(mid.ch(0) == c);
                lemma_fold_chars_push(run, c, st);
                if !f0.lb {
                    assert(leading_break.data@ =~= seq![0x0Au8]);
                }
                if c == 0x0D && c1 == 0x0A {
                    assert(e =~= seq![0x0Du32, 0x0Au32]);
                    lemma_fold_chars_push(run.push(c), 0x0A, st);
                    assert(run.push(c).push(0x0Au32) =~= run + e);
                } else {
                    assert(e =~= seq![c]);
                    assert(run.push(c) =~= run + e);
                    assert(parser.ch(0) == mid.ch(1));
                }
                lemma_all_chars_concat(run, e, |c: u32| spec_is_blank(c) || spec_is_break(c));
                lemma_all_chars_concat(run, e, |c: u32| spec_is_blank(c));
                assert(e[0] == mid.ch(0));
                assert(!spec_is_blank(e[0]));
                assert(all_chars(e, |c: u32| spec_is_blank(c) || spec_is_break(c))) by {
                    assert forall|k: int| 0 <= k < e.len() implies #[trigger] spec_is_blank(e[k])
                        || spec_is_break(e[k]) by {
                        assert(e[0] == mid.ch(0));
                        if e.len() == 2 {
                            assert(e[k] == 0x0D || e[k] == 0x0A);
                        }
                    }
                }
                run = run + e;
                assert(parser.reader.history@ =~= h0 + run);
            }
        }
        if !yaml_parser_update_buffer(parser, 1) {
            proof {
                assert(read_between(*old(parser), *parser) =~= run);
            }
            return None;
        }
    }
    proof {
        assert(read_between(*old(parser), *parser) =~= run);
    }
    Some(lb)
}

/// A plain scalar can start at the current position: a character that is
/// not a blank, a break, the end of input, '#', a stop or a ':' that a
/// flow collection cannot take, and no document indicator.
pub open spec fn plain_can_start(p: yaml_parser_t) -> bool {
    &&& !spec_is_blankz(p.ch(0))
    &&& p.ch(0) != 0x23
    &&& !plain_stop(p.ch(0), p.ch(1), p.scanner.flow_level)
    &&& !plain_bad_colon(p.ch(0), p.ch(1), p.scanner.flow_level)
    &&& !at_document_indicator(p)
}

/// The problems a plain scalar can have.
pub open spec fn plain_scalar_problem(p: Option<&'static str>) -> bool {
    ||| p == Some("found unexpected ':'")
    ||| p == Some("found a tab character that violates indentation")
}

/// Scans a plain scalar: pieces of text joined by folded blanks and line
/// breaks, up to ": ", a flow indicator in flow context, a comment, a
/// document indicator, or a line indented no more than the current block.
/// Its value folds the blanks and line breaks between the pieces, and
/// leaves out those after the last one. A scalar that ends after a line
/// break allows a simple key.
#[verifier::rlimit(100)]
pub fn yaml_parser_scan_plain_scalar(parser: &mut yaml_parser_t) -> (r: Option<yaml_token_t>)
    requires
        old(parser).wf(),
        old(parser).reader.unread() >= 4 || old(parser).reader.raw_done(),
    ensures
        r is Some && plain_can_start(*old(parser)) ==> read_between(*old(parser), *final(parser)).len() > 0,
        crate::lexer::skip_frame(*old(parser), *final(parser)),
        scan_outcome(*old(parser), *final(parser), r is Some),
        final(parser).scanner.simple_key_allowed == old(parser).scanner.simple_key_allowed
            || final(parser).scanner.simple_key_allowed,
        r is None ==> final(parser).scanner == old(parser).scanner,
        r matches Some(t) ==> {
            let read = read_between(*old(parser), *final(parser));
            &&& t.type_ == yaml_token_type_t::YAML_SCALAR_TOKEN
            &&& t.start_mark == old(parser).reader.mark
            &&& plain_ends_at(*final(parser), old(parser).scanner.indent + 1)
            &&& t.data matches yaml_token_data_t::Scalar(d) && {
                &&& d.style == yaml_scalar_style_t::YAML_PLAIN_SCALAR_STYLE
                &&& all_chars(read, |c: u32| solid(c)) ==> d.value@ == utf8_encode_all(read)
                    && t.end_mark == final(parser).reader.mark
                &&& d.value@ == plain_value(read)
            }
        },
        (r is None && final(parser).error == yaml_error_type_t::YAML_SCANNER_ERROR)
            ==> plain_scalar_problem(final(parser).problem),
        (r is None && final(parser).error == yaml_error_type_t::YAML_SCANNER_ERROR) ==> {
            &&& final(parser).context == Some("while scanning a plain scalar")
            &&& final(parser).context_mark == old(parser).reader.mark
            &&& final(parser).problem == Some("found unexpected ':'") ==> plain_bad_colon(
                final(parser).ch(0),
                final(parser).ch(1),
                final(parser).scanner.flow_level,
            )
            &&& final(parser).problem == Some("found a tab character that violates indentation") ==> {
                &&& final(parser).ch(0) == 0x09
                &&& (final(parser).reader.mark.column as int) < old(parser).scanner.indent + 1
            }
        },
{
    let indent: i64 = parser.scanner.indent as i64 + 1;
    let start_mark = parser.reader.mark;
    let mut end_mark = parser.reader.mark;
    let mut string = yaml_string_t { data: Vec::new() };
    let mut whitespaces = yaml_string_t { data: Vec::new() };
    let mut leading_break = yaml_string_t { data: Vec::new() };
    let mut trailing_breaks = yaml_string_t { data: Vec::new() };
    let mut lb = false;
    let ghost h0 = old(parser).reader.history@;
    let ghost mut run: Seq<u32> = Seq::empty();
    let ghost mut first = true;
    proof {
        assert(parser.reader.history@ =~= h0 + run);
        assert(utf8_encode_all(run) =~= Seq::<u8>::empty());
        assert(run.skip(0) =~= run);
        assert(string.data@ =~= fold_start().out);
        assert(whitespaces.data@ =~= fold_start().ws);
        assert(leading_break.data@ =~= fold_start().lead);
        assert(trailing_breaks.data@ =~= fold_start().trail);
    }
    loop
        invariant
            scan_frame(*old(parser), *parser),
            error_same(*old(parser), *parser),
            h0 == old(parser).reader.history@,
            parser.reader.history@ == h0 + run,
            start_mark == old(parser).reader.mark,
            indent == old(parser).scanner.indent as i64 + 1,
            first ==> {
                &&& run.len() == 0
                &&& parser.reader.mark == old(parser).reader.mark
                &&& parser.scanner == old(parser).scanner
                &&& forall|k: int| 0 <= k < 4 ==> #[trigger] parser.ch(k) == old(parser).ch(k)
                &&& parser.reader.unread() >= 4 || parser.reader.raw_done()
            },
            !first && plain_can_start(*old(parser)) ==> run.len() > 0,
            old(parser).reader.unread() >= 4 || old(parser).reader.raw_done(),
            all_chars(run, |c: u32| solid(c)) ==> {
                &&& string.data@ == utf8_encode_all(run)
                &&& whitespaces.data@ == Seq::<u8>::empty()
                &&& !lb
                &&& end_mark == parser.reader.mark
            },
            ({
                let f = fold_chars(run, fold_start());
                &&& string.data@ == f.out
                &&& whitespaces.data@ == f.ws
                &&& leading_break.data@ == f.lead
                &&& trailing_breaks.data@ == f.trail
                &&& lb == f.lb
                &&& lb ==> whitespaces.data@.len() == 0
                &&& !lb ==> leading_break.data@.len() == 0 && trailing_breaks.data@.len() == 0
                &&& f.cr ==> next_not_lf(*parser)
            }),
        ensures
            scan_frame(*old(parser), *parser),
            error_same(*old(parser), *parser),
            parser.reader.history@ == h0 + run,
            plain_can_start(*old(parser)) ==> run.len() > 0,
            all_chars(run, |c: u32| solid(c)) ==> {
                &&& string.data@ == utf8_encode_all(run)
                &&& end_mark == parser.reader.mark
            },
            string.data@ == plain_value(run),
            plain_ends_at(*parser, indent as int),
            parser.scanner.flow_level == old(parser).scanner.flow_level,
        decreases parser.reader.measure(),
    {
        let ghost top = *parser;
        if !yaml_parser_update_buffer(parser, 4) {
            return None;
        }
        proof {
            if first {
                assert forall|k: int| 0 <= k < 4 implies #[trigger] parser.ch(k) == old(parser).ch(k) by {
                    assert(top.ch(k) == old(parser).ch(k));
                    if !top.reader.raw_done() {
                        assert(k < top.reader.unread());
                    }
                    assert(parser.ch(k) == top.ch(k));
                }
            }
        }
        if parser.reader.mark.column == 0 && ((peek(parser, 0) == 0x2D && peek(parser, 1) == 0x2D
            && peek(parser, 2) == 0x2D) || (peek(parser, 0) == 0x2E && peek(parser, 1) == 0x2E
            && peek(parser, 2) == 0x2E)) && is_blankz(peek(parser, 3)) {
            proof {
                assert(read_between(*old(parser), *parser) =~= run);
            }
            break;
        }
        if peek(parser, 0) == 0x23 {
            proof {
                assert(read_between(*old(parser), *parser) =~= run);
            }
            break;
        }
        let ghost m1 = *parser;
        let ghost s1 = string.data@;
        let ghost f = fold_chars(run, fold_start());
        let v = match scan_plain_text(
            parser,
            &mut string,
            &mut whitespaces,
            &mut leading_break,
            &mut trailing_breaks,
            lb,
            end_mark,
            start_mark,
            Ghost(f),
        ) {
            None => return None,
            Some(v) => v,
        };
        lb = v.0;
        end_mark = v.1;
        let ghost m2 = *parser;
        proof {
            lemma_frame_trans(*old(parser), m1, m2);
            let t = read_between(m1, m2);
            assert(read_between(*old(parser), m1) =~= run);
            lemma_all_chars_concat(run, t, |c: u32| solid(c));
            if all_chars(run, |c: u32| solid(c)) {
                lemma_encode_concat(run, t);
                if t.len() == 0 {
                    assert(utf8_encode_all(t) =~= Seq::<u8>::empty());
                    assert(s1 + utf8_encode_all(t) =~= s1);
                }
            }
            lemma_fold_chars_concat(run, t, fold_start());
            if t.len() == 0 {
                assert(run + t =~= run);
            }
            run = run + t;
            assert(parser.reader.history@ =~= h0 + run);
            if first && plain_can_start(*old(parser)) {
                if t.len() == 0 {
                    assert(*parser == m1);
                    assert(m1.ch(0) == old(parser).ch(0));
                    assert(m1.ch(1) == old(parser).ch(1));
                    assert(false);
                }
            }
            first = false;
        }
        let c = peek(parser, 0);
        if !(is_blank(c) || is_break(c)) {
            break;
        }
        let ghost m3 = *parser;
        let ghost f1 = fold_chars(run, fold_start());
        lb = match scan_plain_blanks(
            parser,
            &mut whitespaces,
            &mut leading_break,
            &mut trailing_breaks,
            lb,
            indent,
            start_mark,
            Ghost(f1),
        ) {
            None => return None,
            Some(l) => l,
        };
        proof {
            lemma_frame_trans(*old(parser), m3, *parser);
            let b = read_between(m3, *parser);
            assert(read_between(*old(parser), m3) =~= run);
            lemma_all_chars_concat(run, b, |c: u32| solid(c));
            assert(b.len() > 0);
            assert(!solid(b[0]));
            lemma_fold_chars_concat(run, b, fold_start());
            run = run + b;
            assert(parser.reader.history@ =~= h0 + run);
            assert(read_between(top, *parser).len() > 0) by {
                lemma_read_split(top, m3, *parser);
            }
        }
        if parser.scanner.flow_level == 0 && (parser.reader.mark.column as i128) < (indent as i128) {
            break;
        }
    }
    proof {
        assert(read_between(*old(parser), *parser) =~= run);
    }
    if lb {
        parser.scanner.simple_key_allowed = true;
    }
    Some(yaml_token_t {
        type_: yaml_token_type_t::YAML_SCALAR_TOKEN,
        data: yaml_token_data_t::Scalar(
            crate::types::yaml_token_scalar_t {
                value: string.data,
                style: yaml_scalar_style_t::YAML_PLAIN_SCALAR_STYLE,
            },
        ),
        start_mark,
        end_mark,
    })
}

// ---------------------------------------------------------------------------
// Block scalars
// ---------------------------------------------------------------------------

/// Where the scanner stopped on a problem of a block scalar: at the '0' of
/// an indentation indicator, at a character that is neither a comment nor
/// a line break after the header, or at a tab in the indentation; the
/// problem is marked there.
pub open spec fn block_problem_at(p: yaml_parser_t) -> bool {
    &&& p.problem_mark == p.reader.mark
    &&& p.problem == Some("found an indentation indicator equal to 0") ==> p.ch(0) == 0x30
    &&& p.problem == Some("did not find expected comment or line break") ==> !spec_is_breakz(p.ch(0))
    &&& p.problem == Some("found a tab character where an indentation space is expected") ==> p.ch(0)
        == 0x09
}

/// The problems a block scalar can have.
pub open spec fn block_scalar_problem(p: Option<&'static str>) -> bool {
    ||| p == Some("found an indentation indicator equal to 0")
    ||| p == Some("did not find expected comment or line break")
    ||| p == Some("found a tab character where an indentation space is expected")
}

/// Scans an indentation indicator (1-9), if there is one.
fn scan_block_increment(parser: &mut yaml_parser_t, start_mark: yaml_mark_t) -> (r: Option<i32>)
    requires
        old(parser).wf(),
    ensures
        scan_frame(*old(parser), *final(parser)),
        scan_outcome(*old(parser), *final(parser), r is Some),
        r matches Some(v) ==> 0 <= v <= 9,
        r matches Some(v) ==> (v != 0 ==> read_between(*old(parser), *final(parser)).len() == 1
            && spec_is_digit(read_between(*old(parser), *final(parser))[0]) && v
            == read_between(*old(parser), *final(parser))[0] - 0x30),
        r matches Some(v) ==> (v == 0 ==> read_between(*old(parser), *final(parser)).len() == 0
            && !spec_is_digit(final(parser).ch(0))),
        (r is None && final(parser).error == yaml_error_type_t::YAML_SCANNER_ERROR) ==> {
            &&& block_problem_at(*final(parser))
            &&& final(parser).problem == Some("found an indentation indicator equal to 0")
            &&& final(parser).context == Some("while scanning a block scalar")
            &&& final(parser).context_mark == start_mark
        },
{
    if !yaml_parser_update_buffer(parser, 1) {
        return None;
    }
    let d = peek(parser, 0);
    if !crate::chars::is_digit(d) {
        proof { assert(read_between(*old(parser), *parser) =~= Seq::<u32>::empty()); }
        return Some(0);
    }
    if d == 0x30 {
        yaml_parser_set_scanner_error(
            parser,
            Some("while scanning a block scalar"),
            start_mark,
            "found an indentation indicator equal to 0",
        );
        return None;
    }
    let ghost m = *parser;
    skip(parser);
    proof {
        assert(m.reader.history@.is_prefix_of(parser.reader.history@));
        lemma_frame_trans(*old(parser), m, *parser);
    }
    proof { assert(read_between(*old(parser), *parser) =~= seq![d]); }
    Some((d - 0x30) as i32)
}

/// Scans a chomping indicator ('+' keeps, '-' strips), if there is one.
fn scan_block_chomping(parser: &mut yaml_parser_t) -> (r: Option<i32>)
    requires
        old(parser).wf(),
    ensures
        scan_frame(*old(parser), *final(parser)),
        scan_outcome(*old(parser), *final(parser), r is Some),
        r is None ==> final(parser).error == yaml_error_type_t::YAML_READER_ERROR,
        r matches Some(v) ==> -1 <= v <= 1,
        r matches Some(v) ==> (v != 0 ==> read_between(*old(parser), *final(parser)).len() == 1
            && crate::blocktext::chomp_char(read_between(*old(parser), *final(parser))[0]) == v),
        r matches Some(v) ==> (v == 0 ==> read_between(*old(parser), *final(parser)).len() == 0
            && crate::blocktext::chomp_char(final(parser).ch(0)) == 0),
{
    if !yaml_parser_update_buffer(parser, 1) {
        return None;
    }
    let c = peek(parser, 0);
    if c != 0x2B && c != 0x2D {
        proof { assert(read_between(*old(parser), *parser) =~= Seq::<u32>::empty()); }
        return Some(0);
    }
    let ghost m = *parser;
    skip(parser);
    proof {
        assert(m.reader.history@.is_prefix_of(parser.reader.history@));
        lemma_frame_trans(*old(parser), m, *parser);
    }
    proof { assert(read_between(*old(parser), *parser) =~= seq![c]); }
    Some(if c == 0x2B { 1 } else { -1 })
}

/// Scans the header of a block scalar after its indicator: a chomping
/// indicator and an indentation indicator in either order, then blanks, a
/// comment and the line break. Returns the chomping (1, -1 or 0) and the
/// indentation increment (0 for none).
#[verifier::rlimit(40)]
fn scan_block_header(parser: &mut yaml_parser_t, start_mark: yaml_mark_t) -> (r: Option<(i32, i32)>)
    requires
        old(parser).wf(),
    ensures
        scan_frame(*old(parser), *final(parser)),
        scan_outcome(*old(parser), *final(parser), r is Some),
        r matches Some(v) ==> {
            let h = read_between(*old(parser), *final(parser));
            &&& -1 <= v.0 <= 1
            &&& 0 <= v.1 <= 9
            &&& v.0 == crate::blocktext::hdr_chomp(h)
            &&& v.1 == crate::blocktext::hdr_inc(h)
            &&& header_tail_ok(h, *final(parser))
        },
        (r is None && final(parser).error == yaml_error_type_t::YAML_SCANNER_ERROR) ==> {
            &&& block_problem_at(*final(parser))
            &&& block_scalar_problem(final(parser).problem)
            &&& final(parser).context == Some("while scanning a block scalar")
            &&& final(parser).context_mark == start_mark
        },
{
    let chomping;
    let increment;
    let c1 = match scan_block_chomping(parser) {
        None => return None,
        Some(c) => c,
    };
    let ghost m1 = *parser;
    if c1 != 0 {
        chomping = c1;
        increment = match scan_block_increment(parser, start_mark) {
            None => {
                proof { lemma_frame_trans(*old(parser), m1, *parser); }
                return None;
            },
            Some(i) => i,
        };
    } else {
        increment = match scan_block_increment(parser, start_mark) {
            None => {
                proof { lemma_frame_trans(*old(parser), m1, *parser); }
                return None;
            },
            Some(i) => i,
        };
        if increment != 0 {
            let ghost m2 = *parser;
            chomping = match scan_block_chomping(parser) {
                None => {
                    proof {
                        lemma_frame_trans(m1, m2, *parser);
                        lemma_frame_trans(*old(parser), m1, *parser);
                    }
                    return None;
                },
                Some(c) => c,
            };
            proof { lemma_frame_trans(m1, m2, *parser); }
        } else {
            chomping = 0;
        }
    }
    proof { lemma_frame_trans(*old(parser), m1, *parser); }
    let ghost m3 = *parser;
    if !block_header_end(parser, start_mark) {
        proof { lemma_frame_trans(*old(parser), m3, *parser); }
        return None;
    }
    proof {
        lemma_frame_trans(*old(parser), m3, *parser);
        lemma_read_split(*old(parser), m3, *parser);
        let a = read_between(*old(parser), m3);
        let e = read_between(m3, *parser);
        let h = read_between(*old(parser), *parser);
        assert(h == a + e);
        assert forall|k: int| 0 <= k < a.len() implies !spec_is_break(#[trigger] a[k]) by {
            assert(spec_is_digit(a[k]) || crate::blocktext::chomp_char(a[k]) != 0);
        }
        lemma_header_prefix(a, e, *parser);
        if a.len() > 0 {
            assert(h[0] == a[0]);
        }
        if a.len() > 1 {
            assert(h[1] == a[1]);
        }
        if a.len() == 1 && e.len() > 0 {
            assert(h[1] == e[0]);
        }
        if a.len() == 0 && e.len() > 0 {
            assert(h[0] == e[0]);
        }
    }
    Some((chomping, increment))

}

/// The rest of the header line of a block scalar: blanks, a comment, and
/// the line break (or the end of the input).
#[verifier::rlimit(40)]
fn block_header_end(parser: &mut yaml_parser_t, start_mark: yaml_mark_t) -> (r: bool)
    requires
        old(parser).wf(),
    ensures
        scan_frame(*old(parser), *final(parser)),
        scan_outcome(*old(parser), *final(parser), r),
        (!r && final(parser).error == yaml_error_type_t::YAML_SCANNER_ERROR) ==> {
            &&& block_problem_at(*final(parser))
            &&& final(parser).problem == Some("did not find expected comment or line break")
            &&& final(parser).context == Some("while scanning a block scalar")
            &&& final(parser).context_mark == start_mark
        },
        r ==> header_end_ok(read_between(*old(parser), *final(parser)), *final(parser)),
{
    if !crate::lexer::skip_blanks(parser) {
        return false;
    }
    let ghost m1 = *parser;
    let ghost r1 = read_between(*old(parser), m1);
    if peek(parser, 0) == 0x23 {
        if !crate::lexer::skip_comment(parser) {
            proof { lemma_frame_trans(*old(parser), m1, *parser); }
            return false;
        }
    }
    proof { lemma_frame_trans(*old(parser), m1, *parser); }
    let ghost m2 = *parser;
    let ghost r2 = read_between(m1, m2);
    proof {
        lemma_read_split(*old(parser), m1, m2);
    }
    if !is_breakz(peek(parser, 0)) {
        yaml_parser_set_scanner_error(
            parser,
            Some("while scanning a block scalar"),
            start_mark,
            "did not find expected comment or line break",
        );
        return false;
    }
    let ghost p = r1 + r2;
    proof {
        assert(read_between(*old(parser), m2) == p);
        assert forall|k: int| 0 <= k < p.len() implies !spec_is_break(#[trigger] p[k]) by {
            if k < r1.len() {
                assert(p[k] == r1[k]);
                assert(spec_is_blank(r1[k]));
            } else {
                assert(p[k] == r2[k - r1.len()]);
                assert(!spec_is_breakz(r2[k - r1.len()]));
            }
        }
        if p.len() > 0 {
            if r1.len() > 0 {
                assert(p[0] == r1[0]);
                assert(spec_is_blank(r1[0]));
            } else {
                assert(p[0] == r2[0]);
            }
        }
    }
    if is_break(peek(parser, 0)) {
        let ghost m2b = *parser;
        if !header_break(parser) {
            proof { lemma_frame_trans(*old(parser), m2b, *parser); }
            return false;
        }
        proof {
            lemma_frame_trans(*old(parser), m2b, *parser);
            lemma_read_split(*old(parser), m2, *parser);
            let brk = read_between(m2, *parser);
            lemma_header_shape(p, brk);
            let all = read_between(*old(parser), *parser);
            assert(all.last() == brk.last());
            if all.last() == 0x0D {
                assert(brk.len() == 1);
                assert(brk =~= seq![0x0Du32]);
            }
        }
        return true;
    }
    proof {
        assert(read_between(*old(parser), *parser) == p);
        crate::blocktext::lemma_break_end_run(p, 0, p.len() as int);
    }
    true
}

/// A line break as a run of characters: CR LF, or one break character.
pub open spec fn is_break_run(b: Seq<u32>) -> bool {
    ||| b == seq![0x0Du32, 0x0Au32]
    ||| (b.len() == 1 && spec_is_break(b[0]))
}

proof fn lemma_header_shape(p: Seq<u32>, brk: Seq<u32>)
    requires
        forall|k: int| 0 <= k < p.len() ==> !spec_is_break(#[trigger] p[k]),
        is_break_run(brk),
    ensures
        crate::blocktext::header_len(p + brk) == (p + brk).len(),
{
    let all = p + brk;
    crate::blocktext::lemma_break_end_run(all, 0, p.len() as int);
    assert(all[p.len() as int] == brk[0]);
    if brk.len() == 2 {
        assert(all[p.len() + 1int] == brk[1]);
    }
}

/// Reads the line break at the current position.
fn header_break(parser: &mut yaml_parser_t) -> (r: bool)
    requires
        old(parser).wf(),
        spec_is_break(old(parser).ch(0)),
    ensures
        scan_frame(*old(parser), *final(parser)),
        scan_outcome(*old(parser), *final(parser), r),
        !r ==> final(parser).error == yaml_error_type_t::YAML_READER_ERROR,
        r ==> {
            let b = read_between(*old(parser), *final(parser));
            &&& is_break_run(b)
            &&& b[0] == old(parser).ch(0)
            &&& final(parser).reader.mark.column == 0
            &&& b == seq![0x0Du32] ==> final(parser).ch(0) != 0x0A && (final(parser).reader.unread()
                >= 1 || final(parser).reader.raw_done())
        },
{
    if !yaml_parser_update_buffer(parser, 2) {
        return false;
    }
    let ghost m3 = *parser;
    let c0 = peek(parser, 0);
    let c1 = peek(parser, 1);
    skip_line(parser);
    proof {
        assert(m3.reader.history@.is_prefix_of(parser.reader.history@));
        lemma_frame_trans(*old(parser), m3, *parser);
        lemma_read_split(*old(parser), m3, *parser);
        assert(read_between(*old(parser), m3).len() == 0);
        let b = read_between(*old(parser), *parser);
        if c0 == 0x0D && c1 == 0x0A {
            assert(b =~= seq![0x0Du32, 0x0Au32]);
            assert(is_break_run(b));
        } else {
            assert(b =~= seq![c0]);
            assert(parser.ch(0) == m3.ch(1));
            assert(is_break_run(b));
        }
        assert(b[0] == old(parser).ch(0));
    }
    true
}

/// What the rest of the header line gives: no indicator at its start, and
/// the end of the header.
pub open spec fn header_end_ok(r: Seq<u32>, p: yaml_parser_t) -> bool {
    &&& r.len() > 0 ==> !spec_is_digit(r[0]) && crate::blocktext::chomp_char(r[0]) == 0
    &&& header_tail_ok(r, p)
}

/// The end of the header of a block scalar: one line break at its end (or
/// the end of the input), and a new line started; a lone carriage return
/// is not followed by a line feed.
pub open spec fn header_tail_ok(r: Seq<u32>, p: yaml_parser_t) -> bool {
    &&& crate::blocktext::header_len(r) == r.len()
    &&& (r.len() == 0 || !spec_is_break(r.last())) ==> p.ch(0) == 0 && (p.reader.unread() >= 1
        || p.reader.raw_done())
    &&& (r.len() > 0 && spec_is_break(r.last())) ==> p.reader.mark.column == 0
    &&& (r.len() > 0 && r.last() == 0x0D) ==> p.ch(0) != 0x0A && (p.reader.unread() >= 1
        || p.reader.raw_done())
}

proof fn lemma_header_prefix(a: Seq<u32>, e: Seq<u32>, p: yaml_parser_t)
    requires
        forall|k: int| 0 <= k < a.len() ==> !spec_is_break(#[trigger] a[k]),
        header_tail_ok(e, p),
    ensures
        header_tail_ok(a + e, p),
{
    let h = a + e;
    crate::blocktext::lemma_break_end_run(h, 0, a.len() as int);
    crate::blocktext::lemma_break_end_shift(a, e, 0);
    if e.len() > 0 {
        assert(h.last() == e.last());
    } else {
        assert(h =~= a);
        if a.len() > 0 {
            assert(!spec_is_break(a[a.len() - 1]));
        }
    }
}

/// A position's column as a signed number.
pub fn column_of(parser: &yaml_parser_t) -> (c: i64)
    requires
        parser.wf(),
    ensures
        c as int == parser.reader.mark.column as int,
{
    parser.reader.mark.column as i64
}

/// Skips spaces of indentation: all of them while the indentation is not
/// known (`indent` 0), else those before the indentation.
fn skip_indent_spaces(parser: &mut yaml_parser_t, indent: i64) -> (r: bool)
    requires
        old(parser).wf(),
        0 <= indent,
    ensures
        scan_frame(*old(parser), *final(parser)),
        scan_outcome(*old(parser), *final(parser), r),
        !r ==> final(parser).error == yaml_error_type_t::YAML_READER_ERROR,
        read_between(*old(parser), *final(parser)) == spaces(read_between(*old(parser), *final(parser)).len()),
        final(parser).reader.mark.column == old(parser).reader.mark.column + read_between(*old(parser), *final(parser)).len(),
        final(parser).reader.mark.line == old(parser).reader.mark.line,
        indent > 0 && read_between(*old(parser), *final(parser)).len() > 0 ==> final(parser).reader.mark.column <= indent,
        r ==> final(parser).reader.unread() >= 1 || final(parser).reader.raw_done(),
        r ==> !(final(parser).ch(0) == 0x20 && (indent == 0 || final(parser).reader.mark.column < indent)),
        (old(parser).reader.unread() >= 1 || old(parser).reader.raw_done()) && read_between(*old(parser), *final(parser)).len() == 0
            ==> final(parser).ch(0) == old(parser).ch(0),
        (old(parser).reader.unread() >= 1 || old(parser).reader.raw_done()) && read_between(*old(parser), *final(parser)).len() > 0
            ==> old(parser).ch(0) == 0x20,
{
    if !yaml_parser_update_buffer(parser, 1) {
        return false;
    }
    let ghost h0 = old(parser).reader.history@;
    let ghost mut j: nat = 0;
    let ghost c00 = old(parser).ch(0);
    let ghost pre = old(parser).reader.unread() >= 1 || old(parser).reader.raw_done();
    proof {
        assert(parser.reader.history@ =~= h0 + spaces(j));
    }
    while (indent == 0 || column_of(parser) < indent) && peek(parser, 0) == 0x20
        invariant
            scan_frame(*old(parser), *parser),
            error_same(*old(parser), *parser),
            0 <= indent,
            h0 == old(parser).reader.history@,
            parser.reader.history@ == h0 + spaces(j),
            parser.reader.mark.column == old(parser).reader.mark.column + j,
            parser.reader.mark.line == old(parser).reader.mark.line,
            indent > 0 && j > 0 ==> parser.reader.mark.column <= indent,
            parser.reader.unread() >= 1 || parser.reader.raw_done(),
            c00 == old(parser).ch(0),
            pre == (old(parser).reader.unread() >= 1 || old(parser).reader.raw_done()),
            pre && j == 0 ==> parser.ch(0) == c00,
            pre && j > 0 ==> c00 == 0x20,
        decreases parser.reader.measure(),
    {
        let ghost m = *parser;
        skip(parser);
        proof {
            assert(m.reader.history@.is_prefix_of(parser.reader.history@));
            lemma_frame_trans(*old(parser), m, *parser);
            j = j + 1;
            assert(parser.reader.history@ =~= h0 + spaces(j));
        }
        if !yaml_parser_update_buffer(parser, 1) {
            proof { assert(read_between(*old(parser), *parser) =~= spaces(j)); }
            return false;
        }
    }
    proof {
        assert(read_between(*old(parser), *parser) =~= spaces(j));
    }
    true
}

/// The end of the characters `b` read so far: a lone carriage return is
/// not followed by a line feed.
pub open spec fn cr_ok(b: Seq<u32>, p: yaml_parser_t) -> bool {
    b.len() > 0 && b.last() == 0x0D ==> p.ch(0) != 0x0A && (p.reader.unread() >= 1
        || p.reader.raw_done())
}

/// What scanning the empty lines of a block scalar gives, for the lines
/// `b0` read before and the indentation `n`.
pub open spec fn breaks_post(
    a: yaml_parser_t,
    b: yaml_parser_t,
    b0: Seq<u32>,
    ba: Seq<u8>,
    bb: Seq<u8>,
    indent: i64,
    n: nat,
) -> bool {
    let r = read_between(a, b);
    let k = (bb.len() - ba.len()) as nat;
    &&& bb == ba + Seq::new(k, |i: int| 0x0Au8)
    &&& block_lines(b0 + r, n) == block_lines(b0, n) + newlines(k)
    &&& line_pos_ok(b0 + r, n, b.reader.mark.column as int) || (r.len() == 0 && b0.len() == 0 && b.ch(0) == 0)
    &&& cr_ok(b0 + r, b)
    &&& (a.reader.unread() >= 1 || a.reader.raw_done()) && a.ch(0) == 0 ==> r.len() == 0
    &&& !spec_is_break(b.ch(0))
    &&& b.reader.unread() >= 1 || b.reader.raw_done()
    &&& (indent == 0 && a.reader.mark.column == 0) ==> {
        &&& !lead_acc(r).2
        &&& n == block_indent(0, a.scanner.indent as int, r)
        &&& b.ch(0) != 0x20
    }
    &&& (indent == 0 && a.reader.mark.column != 0) ==> r.len() == 0
    &&& (a.reader.unread() >= 1 || a.reader.raw_done()) ==> {
        &&& r.len() > 0 ==> r[0] == a.ch(0)
        &&& r.len() == 0 ==> b.ch(0) == a.ch(0)
    }
}

/// Reads the line break of an empty line of a block scalar (a carriage
/// return and a line feed count as one), adding a line feed to `breaks`.
fn read_block_break(parser: &mut yaml_parser_t, breaks: &mut yaml_string_t) -> (r: bool)
    requires
        old(parser).wf(),
        spec_is_break(old(parser).ch(0)),
    ensures
        scan_frame(*old(parser), *final(parser)),
        scan_outcome(*old(parser), *final(parser), r),
        !r ==> final(parser).error == yaml_error_type_t::YAML_READER_ERROR,
        r ==> {
            let brk = read_between(*old(parser), *final(parser));
            &&& brk == seq![0x0Du32, 0x0Au32] || brk == seq![old(parser).ch(0)]
            &&& brk[0] == old(parser).ch(0)
            &&& final(parser).reader.mark.column == 0
            &&& final(parser).reader.mark.line == old(parser).reader.mark.line + 1
            &&& brk.len() == 1 && brk[0] == 0x0D ==> next_not_lf(*final(parser))
            &&& final(breaks).data@ == old(breaks).data@.push(0x0A)
            &&& error_same(*old(parser), *final(parser))
        },
{
    let ghost m0 = *parser;
    if !yaml_parser_update_buffer(parser, 2) {
        return false;
    }
    let ghost m3 = *parser;
    let c0 = peek(parser, 0);
    let c1 = peek(parser, 1);
    read_line(parser, breaks);
    proof {
        assert(m3.reader.history@.is_prefix_of(parser.reader.history@));
        lemma_frame_trans(m0, m3, *parser);
        lemma_read_split(m0, m3, *parser);
        let brk = read_between(m3, *parser);
        assert(read_between(m0, m3) =~= Seq::<u32>::empty());
        assert(read_between(m0, *parser) =~= brk);
        assert(c0 == m0.ch(0));
        if c0 == 0x0D && c1 == 0x0A {
            assert(brk =~= seq![0x0Du32, 0x0Au32]);
        } else {
            assert(brk =~= seq![c0]);
            assert(parser.ch(0) == m3.ch(1));
        }
    }
    true
}

/// One more empty line of a block scalar: its break adds one newline to
/// the lines read so far, and the deepest indentation seen is kept.
proof fn lemma_breaks_line(
    b0: Seq<u32>,
    r2: Seq<u32>,
    brk: Seq<u32>,
    n: nat,
    fixed: bool,
    auto: bool,
    mx: nat,
    col: nat,
    kk: nat,
)
    requires
        brk == seq![0x0Du32, 0x0Au32] || (brk.len() == 1 && spec_is_break(brk[0]) && !(brk[0] == 0x0A
            && r2.len() > 0 && r2.last() == 0x0D) && !(brk[0] == 0x0A && (b0 + r2).len() > 0 && (b0
            + r2).last() == 0x0D)),
        fixed ==> block_lines(b0 + r2, n) == block_lines(b0, n) + newlines(kk),
        auto ==> auto_ok(r2, mx, col, kk),
    ensures
        fixed ==> block_lines(b0 + (r2 + brk), n) == block_lines(b0, n) + newlines(kk + 1),
        fixed ==> strip_state(b0 + (r2 + brk), n) == (0nat, true),
        auto ==> auto_ok(r2 + brk, if mx > col { mx } else { col }, 0, kk + 1),
{
    if fixed {
        assert(b0 + (r2 + brk) =~= (b0 + r2) + brk);
        lemma_lines_break(b0 + r2, brk, n);
        assert(block_lines(b0, n) + newlines(kk + 1) =~= (block_lines(b0, n) + newlines(kk)).push(0x0Au32));
    }
    if auto {
        lemma_auto_break(r2, mx, col, kk, brk);
    }
}

/// Scans the empty lines before a line of a block scalar (or after its
/// last one): spaces of indentation, and line breaks into `breaks`. With
/// no indentation yet (`indent` 0), the deepest of these lines sets it.
/// Returns the indentation and the position after the last break.
#[verifier::rlimit(100)]
#[verifier::spinoff_prover]
fn yaml_parser_scan_block_scalar_breaks(
    parser: &mut yaml_parser_t,
    indent: i64,
    breaks: &mut yaml_string_t,
    start_mark: yaml_mark_t,
    Ghost(b0): Ghost<Seq<u32>>,
) -> (r: Option<(i64, yaml_mark_t)>)
    requires
        old(parser).wf(),
        0 <= indent,
        old(parser).scanner.indent >= -1,
        indent > 0 ==> cr_ok(b0, *old(parser)) && (line_pos_ok(b0, indent as nat, old(parser).reader.mark.column as int)
            || (b0.len() == 0 && old(parser).ch(0) == 0 && (old(parser).reader.unread() >= 1
            || old(parser).reader.raw_done()))),
        indent == 0 ==> b0.len() == 0 && (old(parser).reader.mark.column == 0 || (old(parser).ch(0) == 0
            && (old(parser).reader.unread() >= 1 || old(parser).reader.raw_done()))),
    ensures
        scan_frame(*old(parser), *final(parser)),
        scan_outcome(*old(parser), *final(parser), r is Some),
        r matches Some(v) ==> {
            &&& indent != 0 ==> v.0 == indent
            &&& indent == 0 ==> v.0 >= 1 && v.0 >= old(parser).scanner.indent + 1
            &&& breaks_post(*old(parser), *final(parser), b0, old(breaks).data@, final(breaks).data@, indent, v.0 as nat)
        },
        (r is None && final(parser).error == yaml_error_type_t::YAML_SCANNER_ERROR) ==> {
            &&& block_problem_at(*final(parser))
            &&& final(parser).problem == Some("found a tab character where an indentation space is expected")
            &&& final(parser).context == Some("while scanning a block scalar")
            &&& final(parser).context_mark == start_mark
            &&& final(parser).ch(0) == 0x09
        },
{
    let mut end_mark = parser.reader.mark;
    let mut max_indent: i64 = 0;
    let ghost auto = indent == 0 && old(parser).reader.mark.column == 0;
    let ghost n = indent as nat;
    let ghost mut kk: nat = 0;
    let ghost mut mx: nat = 0;
    let ghost pre = old(parser).reader.unread() >= 1 || old(parser).reader.raw_done();
    proof {
        lemma_auto_start();
        assert(read_between(*old(parser), *parser) =~= Seq::<u32>::empty());
        assert(b0 + Seq::<u32>::empty() =~= b0);
        assert(breaks.data@ =~= old(breaks).data@ + Seq::new(0, |i: int| 0x0Au8));
        assert(block_lines(b0, n) + newlines(0) =~= block_lines(b0, n));
    }
    loop
        invariant_except_break
            auto ==> max_indent == mx,
            read_between(*old(parser), *parser).len() == 0 ==> *parser == *old(parser),
        invariant
            scan_frame(*old(parser), *parser),
            error_same(*old(parser), *parser),
            0 <= indent,
            parser.scanner.indent >= -1,
            n == indent as nat,
            auto == (indent == 0 && old(parser).reader.mark.column == 0),
            pre == (old(parser).reader.unread() >= 1 || old(parser).reader.raw_done()),
            breaks.data@ == old(breaks).data@ + Seq::new(kk, |i: int| 0x0Au8),
            indent > 0 ==> block_lines(b0 + read_between(*old(parser), *parser), n) == block_lines(b0, n) + newlines(kk),
            indent > 0 ==> line_pos_ok(b0 + read_between(*old(parser), *parser), n, parser.reader.mark.column as int)
                || (read_between(*old(parser), *parser).len() == 0 && b0.len() == 0 && parser.ch(0) == 0
                && (parser.reader.unread() >= 1 || parser.reader.raw_done())),
            indent > 0 ==> cr_ok(b0 + read_between(*old(parser), *parser), *parser),
            indent == 0 ==> b0.len() == 0,
            pre && old(parser).ch(0) == 0 ==> read_between(*old(parser), *parser).len() == 0,
            auto ==> auto_ok(read_between(*old(parser), *parser), mx, parser.reader.mark.column as nat, kk),
            auto ==> cr_ok(read_between(*old(parser), *parser), *parser),
            indent == 0 && !auto ==> read_between(*old(parser), *parser).len() == 0 && parser.ch(0) == 0
                && (parser.reader.unread() >= 1 || parser.reader.raw_done()) && kk == 0,
            read_between(*old(parser), *parser).len() == 0 ==> kk == 0,
            pre && read_between(*old(parser), *parser).len() > 0 ==> read_between(*old(parser), *parser)[0] == old(parser).ch(0),
            0 <= max_indent,
        ensures
            scan_frame(*old(parser), *parser),
            error_same(*old(parser), *parser),
            parser.scanner.indent >= -1,
            0 <= max_indent,
            indent == 0 && !auto ==> kk == 0,
            breaks.data@ == old(breaks).data@ + Seq::new(kk, |i: int| 0x0Au8),
            !spec_is_break(parser.ch(0)),
            parser.reader.unread() >= 1 || parser.reader.raw_done(),
            indent > 0 ==> block_lines(b0 + read_between(*old(parser), *parser), n) == block_lines(b0, n) + newlines(kk),
            indent > 0 ==> line_pos_ok(b0 + read_between(*old(parser), *parser), n, parser.reader.mark.column as int)
                || (read_between(*old(parser), *parser).len() == 0 && b0.len() == 0 && parser.ch(0) == 0),
            indent > 0 ==> cr_ok(b0 + read_between(*old(parser), *parser), *parser),
            auto ==> auto_ok(read_between(*old(parser), *parser), mx, parser.reader.mark.column as nat, kk),
            auto ==> cr_ok(read_between(*old(parser), *parser), *parser),
            auto ==> max_indent as int == lead_max(read_between(*old(parser), *parser)) && parser.ch(0) != 0x20,
            pre && old(parser).ch(0) == 0 ==> read_between(*old(parser), *parser).len() == 0,
            indent == 0 && !auto ==> read_between(*old(parser), *parser).len() == 0,
            pre && read_between(*old(parser), *parser).len() > 0 ==> read_between(*old(parser), *parser)[0] == old(parser).ch(0),
            pre && read_between(*old(parser), *parser).len() == 0 ==> parser.ch(0) == old(parser).ch(0),
        decreases parser.reader.measure(),
    {
        let ghost top = *parser;
        let ghost rtop = read_between(*old(parser), top);
        if !yaml_parser_update_buffer(parser, 1) {
            return None;
        }
        let ghost m1 = *parser;
        proof {
            assert(read_between(*old(parser), m1) == rtop);
        }
        let ok = skip_indent_spaces(parser, indent);
        proof {
            lemma_frame_trans(*old(parser), m1, *parser);
            lemma_read_split(*old(parser), m1, *parser);
        }
        if !ok {
            return None;
        }
        let ghost m2 = *parser;
        let ghost sp = read_between(m1, m2);
        let ghost j = sp.len();
        let ghost r2 = read_between(*old(parser), m2);
        proof {
            assert(r2 == rtop + spaces(j));
            if indent > 0 && j > 0 {
                assert(b0 + r2 =~= (b0 + rtop) + spaces(j));
                lemma_lines_spaces(b0 + rtop, n, top.reader.mark.column as nat, j);
            }
            if indent > 0 && j == 0 {
                assert(r2 =~= rtop);
            }
            if auto {
                lemma_auto_spaces(rtop, mx, top.reader.mark.column as nat, kk, j);
            }
            if j == 0 {
                assert(r2 =~= rtop);
            }
            if rtop.len() == 0 && pre {
                assert(top == *old(parser));
                assert(m1.ch(0) == old(parser).ch(0));
                if old(parser).ch(0) == 0 {
                    assert(j == 0);
                    assert(parser.ch(0) == 0);
                }
            }
        }
        let col = column_of(parser);
        if col > max_indent {
            max_indent = col;
        }
        if (indent == 0 || col < indent) && peek(parser, 0) == 0x09 {
            yaml_parser_set_scanner_error(
                parser,
                Some("while scanning a block scalar"),
                start_mark,
                "found a tab character where an indentation space is expected",
            );
            return None;
        }
        if !is_break(peek(parser, 0)) {
            proof {
                if auto {
                    lemma_auto_use(r2, mx, col as nat, kk, 0);
                    assert(lead_acc(r2) == (col as nat, mx, false));
                }
                if r2.len() == 0 && pre {
                    assert(rtop.len() == 0);
                    assert(parser.ch(0) == old(parser).ch(0));
                }
            }
            break;
        }
        let ghost m3a = *parser;
        if !read_block_break(parser, breaks) {
            return None;
        }
        proof {
            lemma_frame_trans(*old(parser), m3a, *parser);
            lemma_read_split(*old(parser), m3a, *parser);
            let brk = read_between(m3a, *parser);
            let r3 = read_between(*old(parser), *parser);
            assert(read_between(*old(parser), m3a) == r2);
            assert(r3 == r2 + brk);
            lemma_breaks_line(b0, r2, brk, n, indent > 0, auto, mx, col as nat, kk);
            if auto {
                mx = if mx > col as nat { mx } else { col as nat };
            }
            kk = kk + 1;
            assert(breaks.data@ =~= old(breaks).data@ + Seq::new(kk, |i: int| 0x0Au8));
            if rtop.len() == 0 && pre {
                assert(r3[0] == old(parser).ch(0));
            } else if pre {
                assert(r3[0] == rtop[0]);
            }
        }
        end_mark = parser.reader.mark;
    }
    let mut new_indent = indent;
    if indent == 0 {
        new_indent = max_indent;
        if new_indent < parser.scanner.indent as i64 + 1 {
            new_indent = parser.scanner.indent as i64 + 1;
        }
        if new_indent < 1 {
            new_indent = 1;
        }
    }
    proof {
        let r = read_between(*old(parser), *parser);
        let nn = new_indent as nat;
        if auto {
            lemma_auto_use(r, mx, parser.reader.mark.column as nat, kk, nn);
            assert(b0 + r =~= r);
            assert(block_lines(b0, nn) =~= Seq::<u32>::empty());
            assert(block_lines(r, nn) == newlines(kk));
            assert(block_lines(b0, nn) + newlines(kk) =~= newlines(kk));
        }
        if indent == 0 && !auto {
            assert(b0 + r =~= Seq::<u32>::empty());
            assert(block_lines(b0, nn) + newlines(kk) =~= newlines(kk));
            assert(kk == 0);
        }
    }
    Some((new_indent, end_mark))
}

/// Reads the rest of a line (up to a line break or the end) into `string`.
fn read_to_break(parser: &mut yaml_parser_t, string: &mut yaml_string_t) -> (r: bool)
    requires
        old(parser).wf(),
    ensures
        scan_frame(*old(parser), *final(parser)),
        scan_outcome(*old(parser), *final(parser), r),
        !r ==> final(parser).error == yaml_error_type_t::YAML_READER_ERROR,
        r ==> spec_is_breakz(final(parser).ch(0)),
        !spec_is_breakz(old(parser).ch(0)) ==> read_between(*old(parser), *final(parser)).len() > 0,
        read_between(*old(parser), *final(parser)).len() == 0 && old(parser).ch(0) != 0
            ==> final(parser).ch(0) == old(parser).ch(0),
        all_chars(read_between(*old(parser), *final(parser)), |c: u32| !spec_is_breakz(c)),
        final(string).data@ == old(string).data@ + utf8_encode_all(read_between(*old(parser), *final(parser))),
        read_between(*old(parser), *final(parser)).len() > 0 ==> read_between(*old(parser), *final(parser))[0]
            == old(parser).ch(0),
        r && (old(parser).reader.unread() >= 1 || old(parser).reader.raw_done()) ==> (final(parser).reader.unread()
            >= 1 || final(parser).reader.raw_done()),
        final(parser).reader.mark.column == old(parser).reader.mark.column + read_between(*old(parser), *final(parser)).len(),
{
    let ghost h0 = old(parser).reader.history@;
    let ghost mut run: Seq<u32> = Seq::empty();
    let ghost c00 = old(parser).ch(0);
    proof {
        assert(parser.reader.history@ =~= h0 + run);
        assert(utf8_encode_all(run) =~= Seq::<u8>::empty());
        assert(string.data@ =~= old(string).data@ + utf8_encode_all(run));
    }
    while !is_breakz(peek(parser, 0))
        invariant
            scan_frame(*old(parser), *parser),
            error_same(*old(parser), *parser),
            h0 == old(parser).reader.history@,
            parser.reader.history@ == h0 + run,
            c00 == old(parser).ch(0),
            run.len() == 0 ==> parser.ch(0) == c00,
            run.len() > 0 ==> run[0] == c00,
            (old(parser).reader.unread() >= 1 || old(parser).reader.raw_done()) ==> (parser.reader.unread()
                >= 1 || parser.reader.raw_done()),
            parser.reader.mark.column == old(parser).reader.mark.column + run.len(),
            all_chars(run, |c: u32| !spec_is_breakz(c)),
            string.data@ == old(string).data@ + utf8_encode_all(run),
        decreases parser.reader.measure(),
    {
        let c = peek(parser, 0);
        read(parser, string);
        proof {
            lemma_encode_push(run, c);
            lemma_all_chars_push(run, c, |c: u32| !spec_is_breakz(c));
            run = run.push(c);
            assert(parser.reader.history@ =~= h0 + run);
        }
        if !yaml_parser_update_buffer(parser, 1) {
            proof {
                assert(read_between(*old(parser), *parser) =~= run);
            }
            return false;
        }
    }
    proof {
        assert(read_between(*old(parser), *parser) =~= run);
    }
    true
}

proof fn lemma_lines_inv_start(r1: Seq<u32>, n: nat, literal: bool, tb: Seq<u8>)
    requires
        block_lines(r1, n) == newlines(tb.len()),
        tb == nl_octets(tb.len()),
    ensures
        lines_inv(r1, n, literal, Seq::empty(), Seq::empty(), tb, false),
{
    let k = tb.len();
    let v = block_lines(r1, n);
    assert(v.take(v.len() - k) =~= Seq::<u32>::empty());
    assert(Seq::<u32>::empty() + newlines(k) =~= v);
    assert(Seq::<u8>::empty() =~= nl_octets(0));
    assert(utf8_encode_all(Seq::<u32>::empty()) =~= Seq::<u8>::empty());
    assert(fold_text(Seq::<u32>::empty()) =~= Seq::<u32>::empty());
}

/// The value a block scalar gets, from the state at the end of its lines.
proof fn lemma_block_value_end(
    read: Seq<u32>,
    hh: Seq<u32>,
    b: Seq<u32>,
    parent: int,
    inc: int,
    chomping: int,
    n: nat,
    literal: bool,
    s0: Seq<u8>,
    lb: Seq<u8>,
    tb: Seq<u8>,
    lblank: bool,
    s1: Seq<u8>,
)
    requires
        read.len() >= 1,
        read.skip(1) == hh + b,
        crate::blocktext::header_len(hh) == hh.len(),
        b.len() > 0 ==> hh.len() > 0 && spec_is_break(hh.last()),
        hh.len() > 0 && hh.last() == 0x0D && b.len() > 0 ==> b[0] != 0x0A,
        chomping == crate::blocktext::hdr_chomp(hh),
        inc == crate::blocktext::hdr_inc(hh),
        b.len() > 0 ==> n == block_indent(inc, parent, b),
        lines_inv(b, n, literal, s0, lb, tb, lblank),
        s1 == s0 + (if chomping != -1 { lb } else { Seq::empty() }) + (if chomping == 1 { tb } else { Seq::empty() }),
    ensures
        s1 == utf8_encode_all(block_scalar_text(read, parent, literal)),
{
    let rest = read.skip(1);
    crate::blocktext::lemma_header_len_concat(hh, b, 0);
    assert(rest.take(hh.len() as int) =~= hh);
    assert(rest.skip(hh.len() as int) =~= b);
    let nn = block_indent(inc, parent, b);
    let k = lb.len() + tb.len();
    let v = block_lines(b, n);
    let x = v.take(v.len() - k);
    let fx = if literal { x } else { fold_text(x) };
    if b.len() == 0 {
        assert(block_lines(b, nn) =~= Seq::<u32>::empty());
        assert(v =~= Seq::<u32>::empty());
        assert(x =~= Seq::<u32>::empty());
        assert(fold_text(Seq::<u32>::empty()) =~= Seq::<u32>::empty());
        crate::blocktext::lemma_chomp_of(Seq::<u32>::empty(), 0, chomping);
        assert(Seq::<u32>::empty() + newlines(0) =~= Seq::<u32>::empty());
        assert(s0 =~= utf8_encode_all(Seq::<u32>::empty()));
        assert(lb.len() == 0 && tb.len() == 0);
        assert(s1 =~= s0);
        assert(utf8_encode_all(Seq::<u32>::empty()) =~= Seq::<u8>::empty());
    } else {
        if !literal {
            crate::blocktext::lemma_fold_tail(x, k);
            if x.len() > 0 {
                crate::blocktext::lemma_fold_end(x);
            } else {
                assert(fold_text(x) =~= Seq::<u32>::empty());
            }
        }
        assert(fx.len() == 0 || fx.last() != 0x0A);
        assert((fx.len() > 0) == (x.len() > 0));
        crate::blocktext::lemma_chomp_of(fx, k, chomping);
        lemma_encode_newlines(k);
        lemma_encode_newlines(lb.len());
        lemma_encode_newlines(tb.len());
        assert(nl_octets(lb.len()) + nl_octets(tb.len()) =~= nl_octets(k));
        lemma_encode_concat(fx, newlines(k));
        if chomping == 0 && fx.len() > 0 && k > 0 {
            assert(lb == nl_octets(1));
            lemma_encode_push(fx, 0x0Au32);
            assert(utf8_encode(0x0Au32) =~= seq![0x0Au8]);
            assert(nl_octets(1) =~= seq![0x0Au8]);
        }
        if chomping == 0 && !(fx.len() > 0 && k > 0) {
            assert(lb.len() == 0);
        }
        assert(s1 =~= s0 + (if chomping != -1 { lb } else { Seq::empty() }) + (if chomping == 1 { tb } else { Seq::empty() }));
    }
}

/// What is known between the lines of a block scalar: the state of the
/// text, the position in the line, and what follows a lone carriage return.
pub open spec fn line_state(
    b: Seq<u32>,
    n: nat,
    literal: bool,
    s: Seq<u8>,
    lb: Seq<u8>,
    tb: Seq<u8>,
    lblank: bool,
    p: yaml_parser_t,
) -> bool {
    let k = lb.len() + tb.len();
    let v = block_lines(b, n);
    &&& lines_inv(b, n, literal, s, lb, tb, lblank)
    &&& line_pos_ok(b, n, p.reader.mark.column as int) || (b.len() == 0 && p.ch(0) == 0)
    &&& cr_ok(b, p)
    &&& !spec_is_break(p.ch(0))
    &&& p.reader.unread() >= 1 || p.reader.raw_done()
    &&& (v.take(v.len() - k).len() > 0 && k == 0) ==> p.ch(0) == 0
}

/// What the line breaks before a new line starting with `c` add to the
/// text: the breaks themselves, or, when folding, what they fold into.
pub open spec fn join_sep(x: Seq<u32>, k: nat, c: u32, literal: bool) -> Seq<u32> {
    if x.len() > 0 && !literal {
        fold_join(x, k, c)
    } else {
        newlines(k)
    }
}

/// Adds to the text what the line breaks before a new line starting with
/// `c` give, and empties the breaks.
fn join_line_text(
    literal: bool,
    c: u32,
    string: &mut yaml_string_t,
    leading_break: &mut yaml_string_t,
    trailing_breaks: &mut yaml_string_t,
    leading_blank: &mut bool,
    Ghost(x): Ghost<Seq<u32>>,
)
    requires
        old(leading_break).data@ == nl_octets(old(leading_break).data@.len()),
        old(trailing_breaks).data@ == nl_octets(old(trailing_breaks).data@.len()),
        old(leading_break).data@.len() <= 1,
        (old(leading_break).data@.len() == 1) == (x.len() > 0 && old(leading_break).data@.len() + old(trailing_breaks).data@.len() > 0),
        x.len() > 0 ==> *old(leading_blank) == spec_is_blank(line_head(x)),
        x.len() > 0 ==> old(leading_break).data@.len() + old(trailing_breaks).data@.len() > 0,
    ensures
        final(string).data@ == old(string).data@ + utf8_encode_all(join_sep(
            x,
            (old(leading_break).data@.len() + old(trailing_breaks).data@.len()) as nat,
            c,
            literal,
        )),
        final(leading_break).data@.len() == 0,
        final(trailing_breaks).data@.len() == 0,
        *final(leading_blank) == spec_is_blank(c),
{
    let ghost kl = leading_break.data@.len();
    let ghost kt = trailing_breaks.data@.len();
    let ghost k = (kl + kt) as nat;
    let ghost sep = join_sep(x, k, c, literal);
    let trailing_blank = is_blank(c);
    proof {
        lemma_encode_newlines(kl);
        lemma_encode_newlines(kt);
        lemma_encode_newlines(k);
        assert(nl_octets(kl) + nl_octets(kt) =~= nl_octets(k));
    }
    if !literal && leading_break.data.len() > 0 && leading_break.data[0] == 0x0A && !*leading_blank
        && !trailing_blank {
        if trailing_breaks.data.len() == 0 {
            string.data.push(0x20);
        }
        leading_break.data.clear();
        proof {
            if kt == 0 {
                assert(sep =~= seq![0x20u32]);
                assert(utf8_encode_all(seq![0x20u32]) =~= seq![0x20u8]) by {
                    assert(seq![0x20u32].drop_last() =~= Seq::<u32>::empty());
                    assert(utf8_encode_all(Seq::<u32>::empty()) =~= Seq::<u8>::empty());
                    assert(utf8_encode(0x20u32) =~= seq![0x20u8]);
                }
            } else {
                assert(sep == newlines((k - 1) as nat));
                assert(kt == k - 1);
            }
        }
    } else {
        proof {
            if x.len() > 0 && !literal {
                assert(kl == 1);
                assert(leading_break.data@[0] == 0x0A);
                assert(*leading_blank || trailing_blank);
                assert(sep == newlines(k));
            }
        }
        string.data.append(&mut leading_break.data);
    }
    string.data.append(&mut trailing_breaks.data);
    proof {
        lemma_encode_newlines(kt);
    }
    *leading_blank = is_blank(c);
}

/// Reads the line break after a line of a block scalar, if there is one,
/// into `leading_break`.
fn block_line_break(
    parser: &mut yaml_parser_t,
    leading_break: &mut yaml_string_t,
    Ghost(b1): Ghost<Seq<u32>>,
    Ghost(n): Ghost<nat>,
) -> (r: bool)
    requires
        old(parser).wf(),
        spec_is_breakz(old(parser).ch(0)),
        old(parser).reader.unread() >= 1 || old(parser).reader.raw_done(),
        b1.len() > 0,
        !spec_is_break(b1.last()),
        old(leading_break).data@.len() == 0,
    ensures
        scan_frame(*old(parser), *final(parser)),
        scan_outcome(*old(parser), *final(parser), r),
        !r ==> final(parser).error == yaml_error_type_t::YAML_READER_ERROR,
        r ==> cr_ok(b1 + read_between(*old(parser), *final(parser)), *final(parser)),
        r && final(leading_break).data@.len() > 0 ==> {
            let b2 = b1 + read_between(*old(parser), *final(parser));
            &&& final(leading_break).data@ == nl_octets(1)
            &&& block_lines(b2, n) == block_lines(b1, n).push(0x0Au32)
            &&& strip_state(b2, n) == (0nat, true)
            &&& final(parser).reader.mark.column == 0
        },
        r && final(leading_break).data@.len() == 0 ==> {
            &&& read_between(*old(parser), *final(parser)).len() == 0
            &&& final(parser).ch(0) == 0
            &&& final(parser).reader.unread() >= 1 || final(parser).reader.raw_done()
            &&& final(parser).reader.mark == old(parser).reader.mark
        },
{
    if !yaml_parser_update_buffer(parser, 2) {
        return false;
    }
    let ghost m2 = *parser;
    if is_break(peek(parser, 0)) {
        let c0 = peek(parser, 0);
        let c1 = peek(parser, 1);
        read_line(parser, leading_break);
        proof {
            assert(m2.reader.history@.is_prefix_of(parser.reader.history@));
            lemma_frame_trans(*old(parser), m2, *parser);
            lemma_read_split(*old(parser), m2, *parser);
            assert(read_between(*old(parser), m2).len() == 0);
            let brk = read_between(m2, *parser);
            if c0 == 0x0D && c1 == 0x0A {
                assert(brk =~= seq![0x0Du32, 0x0Au32]);
            } else {
                assert(brk =~= seq![c0]);
                assert(parser.ch(0) == m2.ch(1));
            }
            assert(read_between(*old(parser), *parser) == brk);
            crate::blocktext::lemma_lines_break(b1, brk, n);
            assert(leading_break.data@ =~= nl_octets(1));
            let b2 = b1 + brk;
            assert(b2.last() == brk.last());
        }
        return true;
    }
    proof {
        assert(read_between(*old(parser), *parser) =~= Seq::<u32>::empty());
        assert(b1 + Seq::<u32>::empty() =~= b1);
    }
    true
}

/// The text part of the lines `b`: without the `k` line feeds at the end.
pub open spec fn text_part(b: Seq<u32>, n: nat, k: nat) -> Seq<u32> {
    block_lines(b, n).take(block_lines(b, n).len() - k)
}

/// Reads one line of a block scalar at its indentation into the text,
/// after what the line breaks before it give.
#[verifier::rlimit(100)]
fn read_line_text(
    parser: &mut yaml_parser_t,
    literal: bool,
    indent: i64,
    string: &mut yaml_string_t,
    leading_break: &mut yaml_string_t,
    trailing_breaks: &mut yaml_string_t,
    leading_blank: &mut bool,
    Ghost(b0): Ghost<Seq<u32>>,
) -> (r: bool)
    requires
        old(parser).wf(),
        1 <= indent,
        old(parser).reader.mark.column == indent,
        old(parser).ch(0) != 0,
        line_state(b0, indent as nat, literal, old(string).data@, old(leading_break).data@, old(trailing_breaks).data@, *old(leading_blank), *old(parser)),
    ensures
        scan_frame(*old(parser), *final(parser)),
        scan_outcome(*old(parser), *final(parser), r),
        !r ==> final(parser).error == yaml_error_type_t::YAML_READER_ERROR,
        read_between(*old(parser), *final(parser)).len() > 0,
        read_between(*old(parser), *final(parser))[0] == old(parser).ch(0),
        r ==> {
            let rr = read_between(*old(parser), *final(parser));
            let k = (old(leading_break).data@.len() + old(trailing_breaks).data@.len()) as nat;
            let x2 = text_part(b0, indent as nat, k) + newlines(k) + rr;
            &&& block_lines(b0 + rr, indent as nat) == x2
            &&& x2.len() > 0
            &&& x2.last() != 0x0A
            &&& (b0 + rr).len() > 0 && !spec_is_break((b0 + rr).last())
            &&& final(string).data@ == utf8_encode_all(if literal { x2 } else { fold_text(x2) })
            &&& final(leading_break).data@.len() == 0
            &&& final(trailing_breaks).data@.len() == 0
            &&& *final(leading_blank) == spec_is_blank(line_head(x2))
            &&& spec_is_breakz(final(parser).ch(0))
            &&& final(parser).reader.unread() >= 1 || final(parser).reader.raw_done()
            &&& final(parser).reader.mark.column == old(parser).reader.mark.column + rr.len()
        },
{
    let ghost n = indent as nat;
    let ghost kl = leading_break.data@.len();
    let ghost kt = trailing_breaks.data@.len();
    let ghost k = (kl + kt) as nat;
    let ghost x = text_part(b0, n, k);
    let ghost fx = if literal { x } else { fold_text(x) };
    let c = peek(parser, 0);
    let ghost sep = join_sep(x, k, c, literal);
    proof {
        if x.len() > 0 && k == 0 {
            assert(false);
        }
    }
    join_line_text(literal, c, string, leading_break, trailing_breaks, leading_blank, Ghost(x));
    proof {
        lemma_encode_concat(fx, sep);
    }
    let ghost m0 = *parser;
    let ok = read_to_break(parser, string);
    let ghost rr = read_between(m0, *parser);
    proof {
        assert(rr.len() > 0);
        assert(rr[0] == c);
    }
    if !ok {
        return false;
    }
    let ghost x2 = x + newlines(k) + rr;
    proof {
        assert forall|i: int| 0 <= i < rr.len() implies !spec_is_break(#[trigger] rr[i]) by {
            assert(!spec_is_breakz(rr[i]));
        }
        assert forall|i: int| 0 <= i < rr.len() implies #[trigger] rr[i] != 0x0A by {
            assert(!spec_is_breakz(rr[i]));
        }
        assert(strip_state(b0, n) == (n, true));
        crate::blocktext::lemma_lines_content(b0, rr, n);
        lemma_encode_concat(fx + sep, rr);
        assert(block_lines(b0 + rr, n) == x2);
        if !literal {
            crate::blocktext::lemma_fold_line(x, k, rr);
        }
        assert(fx + sep + rr == if literal { x2 } else { fold_text(x2) });
        if k == 0 {
            assert(x.len() == 0);
            assert(x + newlines(0) =~= Seq::<u32>::empty());
        }
        crate::blocktext::lemma_line_head_new(x + newlines(k), rr);
        assert((b0 + rr).last() == rr.last());
        assert(x2.last() == rr.last());
        assert(rr.last() == rr[rr.len() - 1]);
    }
    true
}

/// Scans one line of a block scalar, at its indentation, and the empty
/// lines after it: the text gets the line (joined to the one before as
/// folding or keeping the line breaks requires).
#[verifier::rlimit(100)]
#[verifier::spinoff_prover]
fn scan_block_line(
    parser: &mut yaml_parser_t,
    literal: bool,
    indent: i64,
    string: &mut yaml_string_t,
    leading_break: &mut yaml_string_t,
    trailing_breaks: &mut yaml_string_t,
    leading_blank: &mut bool,
    start_mark: yaml_mark_t,
    Ghost(b0): Ghost<Seq<u32>>,
) -> (r: Option<(i64, yaml_mark_t)>)
    requires
        old(parser).wf(),
        1 <= indent,
        old(parser).scanner.indent >= -1,
        old(parser).reader.mark.column == indent,
        old(parser).ch(0) != 0,
        line_state(b0, indent as nat, literal, old(string).data@, old(leading_break).data@, old(trailing_breaks).data@, *old(leading_blank), *old(parser)),
    ensures
        scan_frame(*old(parser), *final(parser)),
        scan_outcome(*old(parser), *final(parser), r is Some),
        read_between(*old(parser), *final(parser)).len() > 0,
        read_between(*old(parser), *final(parser))[0] == old(parser).ch(0),
        r matches Some(v) ==> {
            &&& v.0 == indent
            &&& line_state(b0 + read_between(*old(parser), *final(parser)), indent as nat, literal, final(string).data@, final(leading_break).data@, final(trailing_breaks).data@, *final(leading_blank), *final(parser))
        },
        (r is None && final(parser).error == yaml_error_type_t::YAML_SCANNER_ERROR) ==> {
            &&& block_problem_at(*final(parser))
            &&& final(parser).problem == Some("found a tab character where an indentation space is expected")
            &&& final(parser).context == Some("while scanning a block scalar")
            &&& final(parser).context_mark == start_mark
        },
{
    let ghost n = indent as nat;
    let ghost k = (leading_break.data@.len() + trailing_breaks.data@.len()) as nat;
    if !read_line_text(parser, literal, indent, string, leading_break, trailing_breaks, leading_blank, Ghost(b0)) {
        return None;
    }
    let ghost m1 = *parser;
    let ghost rr = read_between(*old(parser), m1);
    let ghost x2 = text_part(b0, n, k) + newlines(k) + rr;
    if !block_line_break(parser, leading_break, Ghost(b0 + rr), Ghost(n)) {
        proof {
            lemma_frame_trans(*old(parser), m1, *parser);
            lemma_read_split(*old(parser), m1, *parser);
        }
        return None;
    }
    let ghost m3 = *parser;
    let ghost b2 = b0 + rr + read_between(m1, m3);
    proof {
        lemma_frame_trans(*old(parser), m1, m3);
        lemma_read_split(*old(parser), m1, m3);
        assert(b0 + read_between(*old(parser), m3) =~= b2);
        if leading_break.data@.len() > 0 {
            assert(block_lines(b2, n) =~= x2 + newlines(1));
        } else {
            assert(b2 =~= b0 + rr);
            assert(x2 + newlines(0) =~= x2);
        }
    }
    let more = yaml_parser_scan_block_scalar_breaks(
        parser,
        indent,
        trailing_breaks,
        start_mark,
        Ghost(b2),
    );
    proof {
        lemma_frame_trans(*old(parser), m3, *parser);
        lemma_read_split(*old(parser), m3, *parser);
    }
    match more {
        None => None,
        Some(vv) => {
            proof {
                let r3 = read_between(m3, *parser);
                assert(b0 + read_between(*old(parser), *parser) =~= b2 + r3);
                let j = trailing_breaks.data@.len();
                let kb = leading_break.data@.len();
                assert(leading_break.data@ =~= nl_octets(kb));
                assert(trailing_breaks.data@ =~= nl_octets(j));
                assert(block_lines(b2 + r3, n) =~= x2 + newlines(kb + j));
                assert(block_lines(b2 + r3, n).take(block_lines(b2 + r3, n).len() - (kb + j)) =~= x2);
                assert(read_between(*old(parser), *parser)[0] == rr[0]);
            }
            Some(vv)
        },
    }
}

/// Scans a literal ('|') or folded ('>') block scalar: its header, then the
/// lines indented by the scalar's indentation (given by the header or by
/// the first non-empty line). A literal scalar keeps its line breaks; a
/// folded one joins lines that do not start with a blank by a space. The
/// final line break is kept unless '-' strips it; '+' keeps the empty
/// lines after it.
#[verifier::rlimit(100)]
pub fn yaml_parser_scan_block_scalar(parser: &mut yaml_parser_t, literal: bool) -> (r: Option<
    yaml_token_t,
>)
    requires
        old(parser).wf(),
        old(parser).ch(0) != 0,
        old(parser).scanner.indent >= -1,
    ensures
        scan_frame(*old(parser), *final(parser)),
        scan_outcome(*old(parser), *final(parser), r is Some),
        read_between(*old(parser), *final(parser)).len() >= 1,
        read_between(*old(parser), *final(parser))[0] == old(parser).ch(0),
        r matches Some(t) ==> {
            &&& t.type_ == yaml_token_type_t::YAML_SCALAR_TOKEN
            &&& t.start_mark == old(parser).reader.mark
            &&& t.data matches yaml_token_data_t::Scalar(d) && {
                &&& d.style == if literal {
                    yaml_scalar_style_t::YAML_LITERAL_SCALAR_STYLE
                } else {
                    yaml_scalar_style_t::YAML_FOLDED_SCALAR_STYLE
                }
                &&& d.value@ == utf8_encode_all(block_scalar_text(
                    read_between(*old(parser), *final(parser)),
                    old(parser).scanner.indent as int,
                    literal,
                ))
            }
        },
        (r is None && final(parser).error == yaml_error_type_t::YAML_SCANNER_ERROR) ==> {
            &&& block_problem_at(*final(parser))
            &&& block_scalar_problem(final(parser).problem)
            &&& final(parser).context == Some("while scanning a block scalar")
            &&& final(parser).context_mark == old(parser).reader.mark
        },
{
    let start_mark = parser.reader.mark;
    skip(parser);
    let ghost m0 = *parser;
    proof {
        assert(read_between(*old(parser), m0) =~= seq![old(parser).ch(0)]);
    }
    let header = scan_block_header(parser, start_mark);
    proof { lemma_frame_trans(*old(parser), m0, *parser); }
    let (chomping, increment) = match header {
        None => return None,
        Some(h) => h,
    };
    let ghost mb = *parser;
    let ghost hh = read_between(m0, mb);
    let mut indent: i64 = 0;
    if increment != 0 {
        indent = if parser.scanner.indent >= 0 {
            parser.scanner.indent as i64 + increment as i64
        } else {
            increment as i64
        };
    }
    let mut string = yaml_string_t { data: Vec::new() };
    let mut leading_break = yaml_string_t { data: Vec::new() };
    let mut trailing_breaks = yaml_string_t { data: Vec::new() };
    let mut leading_blank = false;
    proof {
        assert(read_between(mb, mb) =~= Seq::<u32>::empty());
        if indent > 0 {
            if hh.len() > 0 && spec_is_break(hh.last()) {
                assert(strip_state(Seq::<u32>::empty(), indent as nat) == (0nat, true));
            }
        }
    }
    let first = yaml_parser_scan_block_scalar_breaks(parser, indent, &mut trailing_breaks, start_mark, Ghost(Seq::empty()));
    proof { lemma_frame_trans(*old(parser), mb, *parser); }
    let (ind, em) = match first {
        None => return None,
        Some(v) => v,
    };
    let ghost auto = increment == 0;
    let ghost r1 = read_between(mb, *parser);
    let ghost hcr = hh.len() > 0 && hh.last() == 0x0D;
    let ghost hbrk = hh.len() > 0 && spec_is_break(hh.last());
    indent = ind;
    let ghost n = indent as nat;
    let mut end_mark = em;
    proof {
        assert(Seq::<u32>::empty() + r1 =~= r1);
        assert(block_lines(Seq::<u32>::empty(), n) =~= Seq::<u32>::empty());
        lemma_lines_inv_start(r1, n, literal, trailing_breaks.data@);
    }
    while column_of(parser) == indent && peek(parser, 0) != 0
        invariant
            scan_frame(*old(parser), *parser),
            scan_frame(mb, *parser),
            error_same(*old(parser), *parser),
            read_between(*old(parser), *parser).len() >= 1,
            read_between(*old(parser), *parser)[0] == old(parser).ch(0),
            start_mark == old(parser).reader.mark,
            parser.scanner.indent >= -1,
            1 <= indent,
            n == indent as nat,
            line_state(read_between(mb, *parser), n, literal, string.data@, leading_break.data@, trailing_breaks.data@, leading_blank, *parser),
            auto ==> r1.is_prefix_of(read_between(mb, *parser)) && (read_between(mb, *parser).len() > r1.len()
                ==> read_between(mb, *parser)[r1.len() as int] != 0x20 && !spec_is_break(read_between(mb, *parser)[r1.len() as int])),
            auto ==> !lead_acc(r1).2,
            read_between(mb, *parser).len() == r1.len() ==> read_between(mb, *parser) == r1 && (auto ==> parser.ch(0) != 0x20),
            read_between(mb, *parser).len() >= r1.len(),
            hcr ==> (read_between(mb, *parser).len() > 0 ==> read_between(mb, *parser)[0] != 0x0A),
            hcr ==> (read_between(mb, *parser).len() == 0 ==> parser.ch(0) != 0x0A),
            !hbrk ==> read_between(mb, *parser).len() == 0 && parser.ch(0) == 0,
        decreases parser.reader.measure(),
    {
        let ghost top = *parser;
        let ghost btop = read_between(mb, top);
        let res = scan_block_line(
            parser,
            literal,
            indent,
            &mut string,
            &mut leading_break,
            &mut trailing_breaks,
            &mut leading_blank,
            start_mark,
            Ghost(btop),
        );
        proof {
            lemma_frame_trans(*old(parser), top, *parser);
            lemma_frame_trans(mb, top, *parser);
            lemma_read_split(mb, top, *parser);
            lemma_read_split(*old(parser), top, *parser);
        }
        match res {
            None => return None,
            Some(v) => {
                end_mark = v.1;
            },
        }
        proof {
            let b = read_between(mb, *parser);
            let rd = read_between(top, *parser);
            assert(b == btop + rd);
            if btop.len() > 0 {
                assert(b[0] == btop[0]);
            } else {
                assert(b[0] == rd[0]);
            }
            if auto {
                if btop.len() == r1.len() {
                    assert(b[r1.len() as int] == rd[0]);
                } else {
                    assert(b[r1.len() as int] == btop[r1.len() as int]);
                }
                assert(r1 =~= b.take(r1.len() as int)) by {
                    assert forall|i: int| 0 <= i < r1.len() implies b[i] == r1[i] by {
                        assert(b[i] == btop[i]);
                    }
                }
            }
        }
    }
    let ghost s0 = string.data@;
    let ghost lb = leading_break.data@;
    let ghost tb = trailing_breaks.data@;
    let ghost b = read_between(mb, *parser);
    if chomping != -1 {
        string.data.append(&mut leading_break.data);
    }
    if chomping == 1 {
        string.data.append(&mut trailing_breaks.data);
    }
    proof {
        let read = read_between(*old(parser), *parser);
        lemma_read_split(*old(parser), m0, mb);
        lemma_read_split(*old(parser), mb, *parser);
        lemma_read_split(m0, mb, *parser);
        assert(read == seq![old(parser).ch(0)] + (hh + b));
        assert(read.skip(1) =~= hh + b);
        if b.len() > 0 {
            if auto {
                crate::blocktext::lemma_lead_stop(r1, b.skip(r1.len() as int));
                assert(r1 + b.skip(r1.len() as int) =~= b);
            }
        }
        assert(string.data@ =~= s0 + (if chomping != -1 { lb } else { Seq::empty() }) + (if chomping == 1 { tb } else { Seq::empty() }));
        lemma_block_value_end(
            read,
            hh,
            b,
            old(parser).scanner.indent as int,
            increment as int,
            chomping as int,
            n,
            literal,
            s0,
            lb,
            tb,
            leading_blank,
            string.data@,
        );
    }
    Some(yaml_token_t {
        type_: yaml_token_type_t::YAML_SCALAR_TOKEN,
        data: yaml_token_data_t::Scalar(
            crate::types::yaml_token_scalar_t {
                value: string.data,
                style: if literal {
                    yaml_scalar_style_t::YAML_LITERAL_SCALAR_STYLE
                } else {
                    yaml_scalar_style_t::YAML_FOLDED_SCALAR_STYLE
                },
            },
        ),
        start_mark,
        end_mark,
    })
}

} // verus!

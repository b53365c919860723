use vstd::prelude::*;
use crate::chars::{
    spec_is_alpha, spec_is_blank, spec_is_break, spec_is_breakz, spec_is_blankz, utf8_encode,
    utf8_encode_all, is_alpha, is_blank, is_break, is_breakz, is_blankz,
};
use crate::scanner::{
    yaml_parser_t, parser_part_same, error_same, read_between, yaml_parser_update_buffer, peek, skip,
    skip_line, read, yaml_parser_set_scanner_error,
};
use crate::types::{
    yaml_error_type_t, yaml_mark_t, yaml_string_t, yaml_token_t, yaml_token_type_t,
    yaml_token_data_t, yaml_token_anchor_t, yaml_token_alias_t,
};

verus! {

/// What a scanning step keeps: the scanner, the parser's own state and the
/// input; the characters read only grow, and each one read makes the
/// measure of the input left shrink.
pub open spec fn scan_frame(a: yaml_parser_t, b: yaml_parser_t) -> bool {
    &&& b.wf()
    &&& b.scanner == a.scanner
    &&& parser_part_same(a, b)
    &&& b.reader.input.input@ == a.reader.input.input@
    &&& b.reader.has_input == a.reader.has_input
    &&& a.reader.history@.is_prefix_of(b.reader.history@)
    &&& b.reader.measure() + (b.reader.history@.len() - a.reader.history@.len())
        <= a.reader.measure()
    &&& b.reader.mark.index == a.reader.mark.index + (b.reader.history@.len()
        - a.reader.history@.len())
    &&& b.reader.history@.len() == a.reader.history@.len() ==> b.reader.mark == a.reader.mark
}

/// The outcome of a scanning step: the error report is kept on success,
/// and a failure is a reader or a scanner error.
pub open spec fn scan_outcome(a: yaml_parser_t, b: yaml_parser_t, ok: bool) -> bool {
    &&& ok ==> error_same(a, b)
    &&& !ok ==> (b.error == yaml_error_type_t::YAML_READER_ERROR || b.error
        == yaml_error_type_t::YAML_SCANNER_ERROR)
    &&& !ok && b.error == yaml_error_type_t::YAML_READER_ERROR ==> crate::scanner::reader_failed(b)
}

/// Every character of `s` satisfies `p`.
pub open spec fn all_chars(s: Seq<u32>, p: spec_fn(u32) -> bool) -> bool {
    forall|i: int| 0 <= i < s.len() ==> p(#[trigger] s[i])
}

/// A run extended by one character has the property throughout exactly
/// when the run has it and the character has it.
pub proof fn lemma_all_chars_push(run: Seq<u32>, c: u32, p: spec_fn(u32) -> bool)
    ensures
        all_chars(run.push(c), p) == (all_chars(run, p) && p(c)),
{
    if all_chars(run.push(c), p) {
        assert forall|i: int| 0 <= i < run.len() implies p(#[trigger] run[i]) by {
            assert(run.push(c)[i] == run[i]);
        }
        assert(run.push(c)[run.len() as int] == c);
    }
    if all_chars(run, p) && p(c) {
        assert forall|i: int| 0 <= i < run.push(c).len() implies p(#[trigger] run.push(c)[i]) by {
            if i < run.len() {
                assert(run.push(c)[i] == run[i]);
            }
        }
    }
}

/// Two runs have the property throughout exactly when each has it.
pub proof fn lemma_all_chars_concat(a: Seq<u32>, b: Seq<u32>, p: spec_fn(u32) -> bool)
    ensures
        all_chars(a + b, p) == (all_chars(a, p) && all_chars(b, p)),
{
    if all_chars(a + b, p) {
        assert forall|i: int| 0 <= i < a.len() implies p(#[trigger] a[i]) by {
            assert((a + b)[i] == a[i]);
        }
        assert forall|i: int| 0 <= i < b.len() implies p(#[trigger] b[i]) by {
            assert((a + b)[a.len() + i] == b[i]);
        }
    }
    if all_chars(a, p) && all_chars(b, p) {
        assert forall|i: int| 0 <= i < (a + b).len() implies p(#[trigger] (a + b)[i]) by {
            if i < a.len() {
                assert((a + b)[i] == a[i]);
            } else {
                assert((a + b)[i] == b[i - a.len()]);
            }
        }
    }
}

/// The encoding of a run of characters grows by one character at a time.
pub proof fn lemma_encode_push(run: Seq<u32>, c: u32)
    ensures
        utf8_encode_all(run.push(c)) == utf8_encode_all(run) + utf8_encode(c),
{
    assert(run.push(c).drop_last() =~= run);
}

/// Reads a run of characters of class `alpha` into a new string.
fn read_alpha_run(parser: &mut yaml_parser_t) -> (r: Option<Vec<u8>>)
    requires
        old(parser).wf(),
    ensures
        scan_frame(*old(parser), *final(parser)),
        scan_outcome(*old(parser), *final(parser), r is Some),
        all_chars(read_between(*old(parser), *final(parser)), |c: u32| spec_is_alpha(c)),
        r is Some ==> !spec_is_alpha(final(parser).ch(0)),
        r is None ==> final(parser).error == yaml_error_type_t::YAML_READER_ERROR,
        r matches Some(v) ==> v@ == utf8_encode_all(read_between(*old(parser), *final(parser))),
        final(parser).reader.mark.line == old(parser).reader.mark.line,
        final(parser).reader.mark.column == old(parser).reader.mark.column + read_between(
            *old(parser),
            *final(parser),
        ).len(),
{
    let mut string = yaml_string_t { data: Vec::new() };
    if !yaml_parser_update_buffer(parser, 1) {
        return None;
    }
    let ghost h0 = old(parser).reader.history@;
    let ghost mut run: Seq<u32> = Seq::empty();
    proof {
        assert(parser.reader.history@ =~= h0 + run);
    }
    while is_alpha(peek(parser, 0))
        invariant
            scan_frame(*old(parser), *parser),
            error_same(*old(parser), *parser),
            h0 == old(parser).reader.history@,
            parser.reader.history@ == h0 + run,
            all_chars(run, |c: u32| spec_is_alpha(c)),
            string.data@ == utf8_encode_all(run),
            parser.reader.mark.line == old(parser).reader.mark.line,
            parser.reader.mark.column == old(parser).reader.mark.column + run.len(),
        decreases parser.reader.measure(),
    {
        let ghost c = parser.ch(0);
        read(parser, &mut string);
        proof {
            lemma_encode_push(run, c);
            run = run.push(c);
            assert(parser.reader.history@ =~= h0 + run);
        }
        if !yaml_parser_update_buffer(parser, 1) {
            proof {
                assert(read_between(*old(parser), *parser) =~= run);
            }
            return None;
        }
    }
    proof {
        assert(read_between(*old(parser), *parser) =~= run);
    }
    Some(string.data)
}

/// The characters read over two steps are those of the first step, then
/// those of the second.
pub proof fn lemma_read_split(a: yaml_parser_t, m: yaml_parser_t, b: yaml_parser_t)
    requires
        a.reader.history@.is_prefix_of(m.reader.history@),
        m.reader.history@.is_prefix_of(b.reader.history@),
    ensures
        a.reader.history@.is_prefix_of(b.reader.history@),
        read_between(a, b) == read_between(a, m) + read_between(m, b),
{
    let ha = a.reader.history@;
    let hm = m.reader.history@;
    let hb = b.reader.history@;
    assert(hb.subrange(0, ha.len() as int) =~= ha) by {
        assert forall|i: int| 0 <= i < ha.len() implies hb[i] == ha[i] by {
            assert(hb[i] == hb.subrange(0, hm.len() as int)[i]);
            assert(hm[i] == hm.subrange(0, ha.len() as int)[i]);
        }
    }
    assert(read_between(a, b) =~= read_between(a, m) + read_between(m, b)) by {
        assert forall|i: int| ha.len() <= i < hm.len() implies #[trigger] hb[i] == hm[i] by {
            assert(hb[i] == hb.subrange(0, hm.len() as int)[i]);
        }
    }
}

/// A non-empty run of characters has a non-empty encoding.
pub proof fn lemma_encode_nonempty(run: Seq<u32>)
    ensures
        (run.len() > 0) == (utf8_encode_all(run).len() > 0),
{
    if run.len() > 0 {
        assert(utf8_encode(run.last()).len() > 0);
    }
}

/// The characters that may follow an anchor or an alias name.
pub open spec fn anchor_end(c: u32) -> bool {
    spec_is_blankz(c) || c == 0x3F || c == 0x3A || c == 0x2C || c == 0x5D || c == 0x7D || c
        == 0x25 || c == 0x40 || c == 0x60
}

/// `t` is an ANCHOR or ALIAS token (by `type_`) named `value`.
pub open spec fn is_anchor_token(
    t: yaml_token_t,
    type_: yaml_token_type_t,
    value: Seq<u8>,
    s: yaml_mark_t,
    e: yaml_mark_t,
) -> bool {
    &&& t.type_ == type_
    &&& t.start_mark == s
    &&& t.end_mark == e
    &&& if type_ == yaml_token_type_t::YAML_ANCHOR_TOKEN {
        t.data matches yaml_token_data_t::Anchor(a) && a.value@ == value
    } else {
        t.data matches yaml_token_data_t::Alias(a) && a.value@ == value
    }
}

/// Scans an anchor ('&name') or an alias ('*name'): the indicator, then a
/// non-empty run of alphanumeric characters that must end before a blank,
/// a line break, the end of the input or one of "?:,]}%@`".
pub fn yaml_parser_scan_anchor(parser: &mut yaml_parser_t, type_: yaml_token_type_t) -> (r: Option<
    yaml_token_t,
>)
    requires
        old(parser).wf(),
        old(parser).ch(0) != 0,
        type_ == yaml_token_type_t::YAML_ANCHOR_TOKEN || type_ == yaml_token_type_t::YAML_ALIAS_TOKEN,
    ensures
        scan_frame(*old(parser), *final(parser)),
        scan_outcome(*old(parser), *final(parser), r is Some),
        ({
            let read = read_between(*old(parser), *final(parser));
            let name = read.skip(1);
            &&& read.len() >= 1
            &&& read[0] == old(parser).ch(0)
            &&& all_chars(name, |c: u32| spec_is_alpha(c))
            &&& r matches Some(t) ==> {
                &&& name.len() > 0
                &&& anchor_end(final(parser).ch(0))
                &&& is_anchor_token(t, type_, utf8_encode_all(name), old(parser).reader.mark, final(parser).reader.mark)
            }
            &&& (r is None && final(parser).error == yaml_error_type_t::YAML_SCANNER_ERROR) ==> {
                &&& !spec_is_alpha(final(parser).ch(0))
                &&& (name.len() == 0 || !anchor_end(final(parser).ch(0)))
                &&& final(parser).problem == Some("did not find expected alphabetic or numeric character")
                &&& final(parser).context == Some(if type_ == yaml_token_type_t::YAML_ANCHOR_TOKEN {
                    "while scanning an anchor"
                } else {
                    "while scanning an alias"
                })
                &&& final(parser).context_mark == old(parser).reader.mark
            }
        }),
{
    let start_mark = parser.reader.mark;
    skip(parser);
    let ghost mid = *parser;
    let run = read_alpha_run(parser);
    proof {
        assert(old(parser).reader.history@.is_prefix_of(mid.reader.history@));
        lemma_read_split(*old(parser), mid, *parser);
        assert(read_between(*old(parser), mid) =~= seq![old(parser).ch(0)]);
        assert(read_between(*old(parser), *parser).skip(1) =~= read_between(mid, *parser));
    }
    let v = match run {
        None => return None,
        Some(v) => v,
    };
    proof {
        lemma_encode_nonempty(read_between(mid, *parser));
    }
    let end_mark = parser.reader.mark;
    let c = peek(parser, 0);
    if v.len() == 0 || !(is_blankz(c) || c == 0x3F || c == 0x3A || c == 0x2C || c == 0x5D || c
        == 0x7D || c == 0x25 || c == 0x40 || c == 0x60) {
        let context = if type_ == yaml_token_type_t::YAML_ANCHOR_TOKEN {
            "while scanning an anchor"
        } else {
            "while scanning an alias"
        };
        yaml_parser_set_scanner_error(
            parser,
            Some(context),
            start_mark,
            "did not find expected alphabetic or numeric character",
        );
        return None;
    }
    let data = if type_ == yaml_token_type_t::YAML_ANCHOR_TOKEN {
        yaml_token_data_t::Anchor(yaml_token_anchor_t { value: v })
    } else {
        yaml_token_data_t::Alias(yaml_token_alias_t { value: v })
    };
    Some(yaml_token_t { type_, data, start_mark, end_mark })
}

/// Skips blanks (spaces and tabs).
pub fn skip_blanks(parser: &mut yaml_parser_t) -> (r: bool)
    requires
        old(parser).wf(),
    ensures
        scan_frame(*old(parser), *final(parser)),
        scan_outcome(*old(parser), *final(parser), r),
        !r ==> final(parser).error == yaml_error_type_t::YAML_READER_ERROR,
        all_chars(read_between(*old(parser), *final(parser)), |c: u32| spec_is_blank(c)),
        r ==> !spec_is_blank(final(parser).ch(0)),
        r ==> final(parser).reader.unread() >= 1 || final(parser).reader.raw_done(),
        r && spec_is_blank(old(parser).ch(0)) ==> read_between(*old(parser), *final(parser)).len() > 0,
        final(parser).reader.mark.line == old(parser).reader.mark.line,
        final(parser).reader.mark.column == old(parser).reader.mark.column + read_between(
            *old(parser),
            *final(parser),
        ).len(),
{
    if !yaml_parser_update_buffer(parser, 1) {
        return false;
    }
    let ghost h0 = old(parser).reader.history@;
    let ghost mut run: Seq<u32> = Seq::empty();
    proof {
        assert(parser.reader.history@ =~= h0 + run);
    }
    while is_blank(peek(parser, 0))
        invariant
            scan_frame(*old(parser), *parser),
            error_same(*old(parser), *parser),
            h0 == old(parser).reader.history@,
            parser.reader.history@ == h0 + run,
            all_chars(run, |c: u32| spec_is_blank(c)),
            run.len() == 0 && spec_is_blank(old(parser).ch(0)) ==> spec_is_blank(parser.ch(0)),
            parser.reader.mark.line == old(parser).reader.mark.line,
            parser.reader.mark.column == old(parser).reader.mark.column + run.len(),
            parser.reader.unread() >= 1 || parser.reader.raw_done(),
        decreases parser.reader.measure(),
    {
        let ghost c = parser.ch(0);
        skip(parser);
        proof {
            run = run.push(c);
            assert(parser.reader.history@ =~= h0 + run);
        }
        if !yaml_parser_update_buffer(parser, 1) {
            proof {
                assert(read_between(*old(parser), *parser) =~= run);
            }
            return false;
        }
    }
    proof {
        assert(read_between(*old(parser), *parser) =~= run);
    }
    true
}

/// Skips a comment: from '#' up to (not including) the next line break or
/// the end of the input.
pub fn skip_comment(parser: &mut yaml_parser_t) -> (r: bool)
    requires
        old(parser).wf(),
    ensures
        scan_frame(*old(parser), *final(parser)),
        scan_outcome(*old(parser), *final(parser), r),
        !r ==> final(parser).error == yaml_error_type_t::YAML_READER_ERROR,
        all_chars(read_between(*old(parser), *final(parser)), |c: u32| !spec_is_breakz(c)),
        read_between(*old(parser), *final(parser)).len() > 0 ==> read_between(
            *old(parser),
            *final(parser),
        )[0] == 0x23,
        r ==> final(parser).ch(0) != 0x23,
        r ==> final(parser).reader.unread() >= 1 || final(parser).reader.raw_done(),
        r && old(parser).ch(0) == 0x23 ==> read_between(*old(parser), *final(parser)).len() > 0,
        r && read_between(*old(parser), *final(parser)).len() > 0 ==> spec_is_breakz(
            final(parser).ch(0),
        ),
        final(parser).reader.mark.line == old(parser).reader.mark.line,
{
    if !yaml_parser_update_buffer(parser, 1) {
        return false;
    }
    let ghost h0 = old(parser).reader.history@;
    let ghost mut run: Seq<u32> = Seq::empty();
    proof {
        assert(parser.reader.history@ =~= h0 + run);
    }
    if peek(parser, 0) != 0x23 {
        proof {
            assert(read_between(*old(parser), *parser) =~= run);
        }
        return true;
    }
    while !is_breakz(peek(parser, 0))
        invariant
            scan_frame(*old(parser), *parser),
            error_same(*old(parser), *parser),
            h0 == old(parser).reader.history@,
            parser.reader.history@ == h0 + run,
            all_chars(run, |c: u32| !spec_is_breakz(c)),
            run.len() > 0 ==> run[0] == 0x23,
            run.len() == 0 ==> parser.ch(0) == 0x23,
            parser.reader.mark.line == old(parser).reader.mark.line,
            parser.reader.unread() >= 1 || parser.reader.raw_done(),
        decreases parser.reader.measure(),
    {
        let ghost c = parser.ch(0);
        skip(parser);
        proof {
            run = run.push(c);
            assert(parser.reader.history@ =~= h0 + run);
        }
        if !yaml_parser_update_buffer(parser, 1) {
            proof {
                assert(read_between(*old(parser), *parser) =~= run);
            }
            return false;
        }
    }
    proof {
        assert(read_between(*old(parser), *parser) =~= run);
    }
    true
}

/// The scanner is kept but for whether a simple key is allowed.
pub open spec fn scanner_same_but_allowed(a: yaml_parser_t, b: yaml_parser_t) -> bool {
    b.scanner == (crate::scanner::yaml_scanner_t {
        simple_key_allowed: b.scanner.simple_key_allowed,
        ..a.scanner
    })
}

/// The frame of a step that may change only whether a simple key is
/// allowed in the scanner.
pub open spec fn skip_frame(a: yaml_parser_t, b: yaml_parser_t) -> bool {
    &&& b.wf()
    &&& scanner_same_but_allowed(a, b)
    &&& parser_part_same(a, b)
    &&& b.reader.input.input@ == a.reader.input.input@
    &&& b.reader.has_input == a.reader.has_input
    &&& a.reader.history@.is_prefix_of(b.reader.history@)
    &&& b.reader.measure() + (b.reader.history@.len() - a.reader.history@.len())
        <= a.reader.measure()
    &&& b.reader.mark.index == a.reader.mark.index + (b.reader.history@.len()
        - a.reader.history@.len())
    &&& b.reader.history@.len() == a.reader.history@.len() ==> b.reader.mark == a.reader.mark
}

/// Skips, within one line, a byte order mark at the start of the line,
/// then spaces (and tabs where a simple key cannot start), then a comment.
#[verifier::rlimit(40)]
#[verifier::spinoff_prover]
fn skip_space_in_line(parser: &mut yaml_parser_t) -> (r: bool)
    requires
        old(parser).wf(),
    ensures
        scan_frame(*old(parser), *final(parser)),
        scan_outcome(*old(parser), *final(parser), r),
        !r ==> final(parser).error == yaml_error_type_t::YAML_READER_ERROR,
        final(parser).reader.mark.line == old(parser).reader.mark.line,
        r ==> final(parser).ch(0) != 0x20,
        r ==> final(parser).ch(0) != 0x23,
        r ==> final(parser).reader.unread() >= 1 || final(parser).reader.raw_done(),
        r && final(parser).ch(0) == 0x09 ==> final(parser).scanner.flow_level == 0
            && final(parser).scanner.simple_key_allowed,
{
    if !yaml_parser_update_buffer(parser, 1) {
        return false;
    }
    if parser.reader.mark.column == 0 && peek(parser, 0) == 0xFEFF {
        skip(parser);
    }
    if !yaml_parser_update_buffer(parser, 1) {
        return false;
    }
    while peek(parser, 0) == 0x20 || ((parser.scanner.flow_level != 0
        || !parser.scanner.simple_key_allowed) && peek(parser, 0) == 0x09)
        invariant
            scan_frame(*old(parser), *parser),
            error_same(*old(parser), *parser),
            parser.reader.mark.line == old(parser).reader.mark.line,
            parser.reader.unread() >= 1 || parser.reader.raw_done(),
        decreases parser.reader.measure(),
    {
        skip(parser);
        if !yaml_parser_update_buffer(parser, 1) {
            return false;
        }
    }
    if peek(parser, 0) == 0x23 {
        if !skip_comment(parser) {
            return false;
        }
    }
    true
}

/// Skips whitespace, comments and line breaks up to the next token: spaces
/// always, tabs where a simple key cannot start (in flow context or where
/// simple keys are not allowed), and a byte order mark at the start of a
/// line. A line break in block context allows a simple key again.
pub fn yaml_parser_scan_to_next_token(parser: &mut yaml_parser_t) -> (r: bool)
    requires
        old(parser).wf(),
    ensures
        skip_frame(*old(parser), *final(parser)),
        scan_outcome(*old(parser), *final(parser), r),
        !r ==> final(parser).error == yaml_error_type_t::YAML_READER_ERROR,
        final(parser).reader.mark.line >= old(parser).reader.mark.line,
        old(parser).scanner.flow_level != 0 ==> final(parser).scanner.simple_key_allowed == old(
            parser,
        ).scanner.simple_key_allowed,
        old(parser).scanner.flow_level == 0 ==> final(parser).scanner.simple_key_allowed == (old(
            parser,
        ).scanner.simple_key_allowed || final(parser).reader.mark.line > old(parser).reader.mark.line),
        r ==> final(parser).ch(0) != 0x20,
        r ==> final(parser).ch(0) != 0x23,
        r ==> final(parser).reader.unread() >= 1 || final(parser).reader.raw_done(),
        r ==> !spec_is_break(final(parser).ch(0)),
        r && final(parser).ch(0) == 0x09 ==> final(parser).scanner.flow_level == 0
            && final(parser).scanner.simple_key_allowed,
{
    loop
        invariant
            skip_frame(*old(parser), *parser),
            error_same(*old(parser), *parser),
            parser.reader.mark.line >= old(parser).reader.mark.line,
            old(parser).scanner.flow_level != 0 ==> parser.scanner.simple_key_allowed == old(
                parser,
            ).scanner.simple_key_allowed,
            old(parser).scanner.flow_level == 0 ==> parser.scanner.simple_key_allowed == (old(
                parser,
            ).scanner.simple_key_allowed || parser.reader.mark.line > old(parser).reader.mark.line),
        decreases parser.reader.measure(),
    {
        if !skip_space_in_line(parser) {
            return false;
        }
        let c = peek(parser, 0);
        if is_break(c) {
            if !yaml_parser_update_buffer(parser, 2) {
                return false;
            }
            skip_line(parser);
            if parser.scanner.flow_level == 0 {
                parser.scanner.simple_key_allowed = true;
            }
        } else {
            return true;
        }
    }
}

/// Scans the name of a directive: a non-empty run of alphanumeric
/// characters that ends before a blank, a line break or the end of input.
fn yaml_parser_scan_directive_name(parser: &mut yaml_parser_t, start_mark: yaml_mark_t) -> (r:
    Option<Vec<u8>>)
    requires
        old(parser).wf(),
    ensures
        scan_frame(*old(parser), *final(parser)),
        scan_outcome(*old(parser), *final(parser), r is Some),
        all_chars(read_between(*old(parser), *final(parser)), |c: u32| spec_is_alpha(c)),
        r matches Some(v) ==> {
            &&& v@ == utf8_encode_all(read_between(*old(parser), *final(parser)))
            &&& read_between(*old(parser), *final(parser)).len() > 0
            &&& spec_is_blankz(final(parser).ch(0))
        },
        (r is None && final(parser).error == yaml_error_type_t::YAML_SCANNER_ERROR) ==> {
            &&& final(parser).context == Some("while scanning a directive")
            &&& final(parser).context_mark == start_mark
            &&& !spec_is_alpha(final(parser).ch(0))
            &&& if read_between(*old(parser), *final(parser)).len() == 0 {
                final(parser).problem == Some("could not find expected directive name")
            } else {
                &&& !spec_is_blankz(final(parser).ch(0))
                &&& final(parser).problem == Some("found unexpected non-alphabetical character")
            }
        },
{
    let v = match read_alpha_run(parser) {
        None => return None,
        Some(v) => v,
    };
    proof {
        lemma_encode_nonempty(read_between(*old(parser), *parser));
    }
    if v.len() == 0 {
        yaml_parser_set_scanner_error(
            parser,
            Some("while scanning a directive"),
            start_mark,
            "could not find expected directive name",
        );
        return None;
    }
    if !is_blankz(peek(parser, 0)) {
        yaml_parser_set_scanner_error(
            parser,
            Some("while scanning a directive"),
            start_mark,
            "found unexpected non-alphabetical character",
        );
        return None;
    }
    Some(v)
}

/// The number written by a run of decimal digits.
pub open spec fn digits_value(s: Seq<u32>) -> int
    decreases s.len(),
{
    if s.len() == 0 {
        0
    } else {
        digits_value(s.drop_last()) * 10 + (s.last() - 0x30)
    }
}

proof fn lemma_digits_bound(s: Seq<u32>)
    requires
        all_chars(s, |c: u32| crate::chars::spec_is_digit(c)),
    ensures
        0 <= digits_value(s) < crate::chars::pow10(s.len()),
    decreases s.len(),
{
    if s.len() > 0 {
        assert(all_chars(s.drop_last(), |c: u32| crate::chars::spec_is_digit(c))) by {
            assert forall|i: int| 0 <= i < s.drop_last().len() implies crate::chars::spec_is_digit(
                #[trigger] s.drop_last()[i],
            ) by {
                assert(s.drop_last()[i] == s[i]);
            }
        }
        lemma_digits_bound(s.drop_last());
        assert(crate::chars::spec_is_digit(s[s.len() - 1]));
        assert(crate::chars::pow10(s.len()) == crate::chars::pow10((s.len() - 1) as nat) * 10);
    }
}

/// Scans one number of a %YAML directive: one to nine decimal digits.
fn yaml_parser_scan_version_directive_number(parser: &mut yaml_parser_t, start_mark: yaml_mark_t)
    -> (r: Option<i32>)
    requires
        old(parser).wf(),
    ensures
        scan_frame(*old(parser), *final(parser)),
        scan_outcome(*old(parser), *final(parser), r is Some),
        all_chars(read_between(*old(parser), *final(parser)), |c: u32| crate::chars::spec_is_digit(c)),
        read_between(*old(parser), *final(parser)).len() <= 9,
        final(parser).reader.mark.line == old(parser).reader.mark.line,
        final(parser).reader.mark.column == old(parser).reader.mark.column + read_between(
            *old(parser),
            *final(parser),
        ).len(),
        r matches Some(n) ==> {
            &&& read_between(*old(parser), *final(parser)).len() >= 1
            &&& !crate::chars::spec_is_digit(final(parser).ch(0))
            &&& n == digits_value(read_between(*old(parser), *final(parser)))
        },
        (r is None && final(parser).error == yaml_error_type_t::YAML_SCANNER_ERROR) ==> {
            &&& final(parser).context == Some("while scanning a %YAML directive")
            &&& final(parser).context_mark == start_mark
            &&& if read_between(*old(parser), *final(parser)).len() == 0 {
                &&& !crate::chars::spec_is_digit(final(parser).ch(0))
                &&& final(parser).problem == Some("did not find expected version number")
            } else {
                &&& read_between(*old(parser), *final(parser)).len() == 9
                &&& crate::chars::spec_is_digit(final(parser).ch(0))
                &&& final(parser).problem == Some("found extremely long version number")
            }
        },
{
    if !yaml_parser_update_buffer(parser, 1) {
        return None;
    }
    let ghost h0 = old(parser).reader.history@;
    let ghost mut run: Seq<u32> = Seq::empty();
    proof {
        assert(parser.reader.history@ =~= h0 + run);
    }
    let mut value: i32 = 0;
    let mut length: usize = 0;
    while crate::chars::is_digit(peek(parser, 0))
        invariant
            scan_frame(*old(parser), *parser),
            error_same(*old(parser), *parser),
            h0 == old(parser).reader.history@,
            parser.reader.history@ == h0 + run,
            all_chars(run, |c: u32| crate::chars::spec_is_digit(c)),
            length == run.len(),
            length <= 9,
            value == digits_value(run),
            parser.reader.mark.line == old(parser).reader.mark.line,
            parser.reader.mark.column == old(parser).reader.mark.column + run.len(),
        decreases parser.reader.measure(),
    {
        if length == 9 {
            proof {
                assert(read_between(*old(parser), *parser) =~= run);
            }
            yaml_parser_set_scanner_error(
                parser,
                Some("while scanning a %YAML directive"),
                start_mark,
                "found extremely long version number",
            );
            return None;
        }
        let c = peek(parser, 0);
        proof {
            lemma_digits_bound(run);
            assert(crate::chars::pow10(run.len()) <= 100000000) by {
                crate::chars::lemma_pow10_mono(run.len(), 8);
                reveal_with_fuel(crate::chars::pow10, 9);
            }
            assert(run.push(c).drop_last() =~= run);
        }
        value = value * 10 + (c - 0x30) as i32;
        length = length + 1;
        skip(parser);
        proof {
            run = run.push(c);
            assert(parser.reader.history@ =~= h0 + run);
        }
        if !yaml_parser_update_buffer(parser, 1) {
            proof {
                assert(read_between(*old(parser), *parser) =~= run);
            }
            return None;
        }
    }
    proof {
        assert(read_between(*old(parser), *parser) =~= run);
    }
    if length == 0 {
        yaml_parser_set_scanner_error(
            parser,
            Some("while scanning a %YAML directive"),
            start_mark,
            "did not find expected version number",
        );
        return None;
    }
    Some(value)
}

/// `read` is blanks, then a number at `i`, a '.' at `j`, and a number:
/// `major` and `minor`.
pub open spec fn version_split_at(read: Seq<u32>, i: int, j: int, major: int, minor: int) -> bool {
    &&& 0 <= i < j < read.len()
    &&& all_chars(read.take(i), |c: u32| spec_is_blank(c))
    &&& all_chars(read.subrange(i, j), |c: u32| crate::chars::spec_is_digit(c))
    &&& j - i <= 9
    &&& read[j] == 0x2E
    &&& all_chars(read.skip(j + 1), |c: u32| crate::chars::spec_is_digit(c))
    &&& 1 <= read.len() - (j + 1) <= 9
    &&& major == digits_value(read.subrange(i, j))
    &&& minor == digits_value(read.skip(j + 1))
}

/// `read` is blanks, then MAJOR.MINOR.
pub open spec fn version_text(read: Seq<u32>, major: int, minor: int) -> bool {
    exists|i: int, j: int| #[trigger] version_split_at(read, i, j, major, minor)
}

/// The problems a %YAML directive value can have.
pub open spec fn version_problem(p: Option<&'static str>) -> bool {
    ||| p == Some("did not find expected version number")
    ||| p == Some("found extremely long version number")
    ||| p == Some("did not find expected digit or '.' character")
}

/// Scans the value of a %YAML directive: blanks, then MAJOR.MINOR.
#[verifier::spinoff_prover]
fn yaml_parser_scan_version_directive_value(parser: &mut yaml_parser_t, start_mark: yaml_mark_t)
    -> (r: Option<(i32, i32)>)
    requires
        old(parser).wf(),
    ensures
        scan_frame(*old(parser), *final(parser)),
        scan_outcome(*old(parser), *final(parser), r is Some),
        r matches Some(v) ==> {
            &&& version_text(read_between(*old(parser), *final(parser)), v.0 as int, v.1 as int)
            &&& !crate::chars::spec_is_digit(final(parser).ch(0))
        },
        (r is None && final(parser).error == yaml_error_type_t::YAML_SCANNER_ERROR) ==> {
            &&& final(parser).context == Some("while scanning a %YAML directive")
            &&& final(parser).context_mark == start_mark
            &&& version_problem(final(parser).problem)
        },
{
    if !skip_blanks(parser) {
        return None;
    }
    let ghost m1 = *parser;
    let major = match yaml_parser_scan_version_directive_number(parser, start_mark) {
        None => return None,
        Some(n) => n,
    };
    let ghost m2 = *parser;
    if peek(parser, 0) != 0x2E {
        yaml_parser_set_scanner_error(
            parser,
            Some("while scanning a %YAML directive"),
            start_mark,
            "did not find expected digit or '.' character",
        );
        return None;
    }
    skip(parser);
    let ghost m3 = *parser;
    let minor = match yaml_parser_scan_version_directive_number(parser, start_mark) {
        None => return None,
        Some(n) => n,
    };
    proof {
        let a = *old(parser);
        let b = *parser;
        lemma_read_split(a, m1, m2);
        assert(m2.reader.history@.is_prefix_of(m3.reader.history@));
        lemma_read_split(m2, m3, b);
        lemma_read_split(a, m2, b);
        let r1 = read_between(a, m1);
        let r2 = read_between(m1, m2);
        let r3 = read_between(m3, b);
        assert(read_between(m2, m3) =~= seq![0x2Eu32]);
        let read = read_between(a, b);
        assert(read =~= r1 + r2 + seq![0x2Eu32] + r3);
        let i = r1.len() as int;
        let j = (r1.len() + r2.len()) as int;
        assert(read.take(i) =~= r1);
        assert(read.subrange(i, j) =~= r2);
        assert(read.skip(j + 1) =~= r3);
        assert(version_split_at(read, i, j, major as int, minor as int));
        assert(version_text(read, major as int, minor as int));
        assert(!crate::chars::spec_is_digit(parser.ch(0)));
    }
    Some((major, minor))
}

// ---------------------------------------------------------------------------
// Tags
// ---------------------------------------------------------------------------

/// The octet written by two hexadecimal digits.
pub open spec fn hex_octet(a: u32, b: u32) -> u8 {
    (crate::chars::spec_as_hex(a) * 16 + crate::chars::spec_as_hex(b)) as u8
}

/// The characters of a URI are well formed: every '%' starts an escape of
/// two hexadecimal digits.
pub open spec fn uri_valid(s: Seq<u32>) -> bool
    decreases s.len(),
{
    if s.len() == 0 {
        true
    } else if s.len() >= 3 && s[s.len() - 3] == 0x25 {
        crate::chars::spec_is_hex(s[s.len() - 2]) && crate::chars::spec_is_hex(s[s.len() - 1])
            && uri_valid(s.take(s.len() - 3))
    } else {
        s.last() != 0x25 && uri_valid(s.drop_last())
    }
}

/// The octets that the characters of a URI stand for: an escape stands for
/// its octet, any other character for its UTF-8 encoding.
pub open spec fn uri_decode(s: Seq<u32>) -> Seq<u8>
    decreases s.len(),
{
    if s.len() == 0 {
        Seq::empty()
    } else if s.len() >= 3 && s[s.len() - 3] == 0x25 {
        uri_decode(s.take(s.len() - 3)).push(hex_octet(s[s.len() - 2], s[s.len() - 1]))
    } else {
        uri_decode(s.drop_last()) + utf8_encode(s.last())
    }
}

proof fn lemma_uri_tail(s: Seq<u32>)
    requires
        uri_valid(s),
    ensures
        s.len() >= 1 ==> s[s.len() - 1] != 0x25,
        s.len() >= 2 ==> s[s.len() - 2] != 0x25,
{
    if s.len() >= 2 && !(s.len() >= 3 && s[s.len() - 3] == 0x25) {
        let t = s.drop_last();
        assert(uri_valid(t));
        assert(t[t.len() - 1] == s[s.len() - 2]);
        if t.len() >= 3 && t[t.len() - 3] == 0x25 {
            assert(crate::chars::spec_is_hex(t[t.len() - 1]));
        } else {
            assert(t.last() != 0x25);
        }
    }
}

proof fn lemma_uri_push_plain(s: Seq<u32>, c: u32)
    requires
        uri_valid(s),
        c != 0x25,
    ensures
        uri_valid(s.push(c)),
        uri_decode(s.push(c)) == uri_decode(s) + utf8_encode(c),
{
    lemma_uri_tail(s);
    let t = s.push(c);
    assert(t.drop_last() =~= s);
    if t.len() >= 3 {
        assert(t[t.len() - 3] == s[s.len() - 2]);
    }
}

proof fn lemma_uri_push_escape(s: Seq<u32>, a: u32, b: u32)
    requires
        uri_valid(s),
        crate::chars::spec_is_hex(a),
        crate::chars::spec_is_hex(b),
    ensures
        uri_valid(s + seq![0x25u32, a, b]),
        uri_decode(s + seq![0x25u32, a, b]) == uri_decode(s).push(hex_octet(a, b)),
{
    let t = s + seq![0x25u32, a, b];
    assert(t.take(t.len() - 3) =~= s);
    assert(t[t.len() - 3] == 0x25);
    assert(t[t.len() - 2] == a);
    assert(t[t.len() - 1] == b);
}

/// The context of an error in a tag or a %TAG directive.
pub open spec fn tag_context(directive: bool) -> &'static str {
    if directive {
        "while parsing a %TAG directive"
    } else {
        "while parsing a tag"
    }
}

/// The number of octets of a UTF-8 character by its leading octet (0 when
/// the octet cannot lead one).
pub open spec fn lead_width(octet: u8) -> int {
    if octet & 0x80 == 0 {
        1
    } else if octet & 0xE0 == 0xC0 {
        2
    } else if octet & 0xF0 == 0xE0 {
        3
    } else if octet & 0xF8 == 0xF0 {
        4
    } else {
        0
    }
}

/// An escaped octet ('%' and two hexadecimal digits) at the position.
pub open spec fn uri_escape_at(p: yaml_parser_t) -> bool {
    p.ch(0) == 0x25 && crate::chars::spec_is_hex(p.ch(1)) && crate::chars::spec_is_hex(p.ch(2))
}

/// The octet that the escape at the position writes.
pub open spec fn escaped_octet(p: yaml_parser_t) -> u8 {
    (crate::chars::spec_as_hex(p.ch(1)) * 16 + crate::chars::spec_as_hex(p.ch(2))) as u8
}

/// The problems of an escape in a tag URI.
pub open spec fn uri_escape_problem(p: Option<&'static str>) -> bool {
    ||| p == Some("did not find URI escaped octet")
    ||| p == Some("found an incorrect leading UTF-8 octet")
    ||| p == Some("found an incorrect trailing UTF-8 octet")
}

/// Where an escape of a tag URI went wrong, marked at the position: no
/// escaped octet there; an octet that cannot lead a UTF-8 character; or
/// one that cannot continue one.
pub open spec fn uri_escape_problem_at(p: yaml_parser_t) -> bool {
    &&& p.problem_mark == p.reader.mark
    &&& p.problem == Some("did not find URI escaped octet") ==> !uri_escape_at(p)
    &&& p.problem == Some("found an incorrect leading UTF-8 octet") ==> uri_escape_at(p) && lead_width(
        escaped_octet(p),
    ) == 0
    &&& p.problem == Some("found an incorrect trailing UTF-8 octet") ==> uri_escape_at(p) && escaped_octet(p)
        & 0xC0 != 0x80
}

/// Scans the escapes ('%' and two hexadecimal digits each) that write one
/// UTF-8 character, appending the octets to `string`.
fn yaml_parser_scan_uri_escapes(
    parser: &mut yaml_parser_t,
    directive: bool,
    start_mark: yaml_mark_t,
    string: &mut Vec<u8>,
    Ghost(head): Ghost<Seq<u8>>,
    Ghost(prev): Ghost<Seq<u32>>,
) -> (r: bool)
    requires
        old(parser).wf(),
        uri_valid(prev),
        old(string)@ == head + uri_decode(prev),
    ensures
        scan_frame(*old(parser), *final(parser)),
        scan_outcome(*old(parser), *final(parser), r),
        read_between(*old(parser), *final(parser)).len() % 3 == 0,
        all_chars(
            read_between(*old(parser), *final(parser)),
            |c: u32| c == 0x25 || crate::chars::spec_is_hex(c),
        ),
        final(parser).reader.mark.line == old(parser).reader.mark.line,
        r ==> {
            &&& read_between(*old(parser), *final(parser)).len() >= 3
            &&& uri_valid(prev + read_between(*old(parser), *final(parser)))
            &&& final(string)@ == head + uri_decode(prev + read_between(*old(parser), *final(parser)))
        },
        (!r && final(parser).error == yaml_error_type_t::YAML_SCANNER_ERROR) ==> {
            &&& final(parser).context == Some(tag_context(directive))
            &&& final(parser).context_mark == start_mark
            &&& (final(parser).problem == Some("did not find URI escaped octet")
                || final(parser).problem == Some("found an incorrect leading UTF-8 octet")
                || final(parser).problem == Some("found an incorrect trailing UTF-8 octet"))
            &&& uri_escape_problem_at(*final(parser))
            &&& final(parser).problem == Some("found an incorrect leading UTF-8 octet") ==> read_between(
                *old(parser),
                *final(parser),
            ).len() == 0
            &&& final(parser).problem == Some("found an incorrect trailing UTF-8 octet") ==> read_between(
                *old(parser),
                *final(parser),
            ).len() > 0
        },
{
    let ghost h0 = old(parser).reader.history@;
    let ghost mut run: Seq<u32> = Seq::empty();
    let mut width: u32 = 0;
    let mut first = true;
    proof {
        assert(parser.reader.history@ =~= h0 + run);
        assert(prev + run =~= prev);
    }
    loop
        invariant
            scan_frame(*old(parser), *parser),
            error_same(*old(parser), *parser),
            h0 == old(parser).reader.history@,
            parser.reader.history@ == h0 + run,
            run.len() % 3 == 0,
            first == (run.len() == 0),
            !first ==> 1 <= width <= 3,
            all_chars(run, |c: u32| c == 0x25 || crate::chars::spec_is_hex(c)),
            uri_valid(prev + run),
            string@ == head + uri_decode(prev + run),
            parser.reader.mark.line == old(parser).reader.mark.line,
        decreases parser.reader.measure(),
    {
        proof {
            assert(read_between(*old(parser), *parser) =~= run);
        }
        if !yaml_parser_update_buffer(parser, 3) {
            return false;
        }
        let c0 = peek(parser, 0);
        let c1 = peek(parser, 1);
        let c2 = peek(parser, 2);
        if !(c0 == 0x25 && crate::chars::is_hex(c1) && crate::chars::is_hex(c2)) {
            yaml_parser_set_scanner_error(
                parser,
                Some(if directive { "while parsing a %TAG directive" } else { "while parsing a tag" }),
                start_mark,
                "did not find URI escaped octet",
            );
            return false;
        }
        let octet: u8 = (crate::chars::as_hex(c1) * 16 + crate::chars::as_hex(c2)) as u8;
        assert(octet == escaped_octet(*parser));
        if first {
            width = if octet & 0x80 == 0 {
                1
            } else if octet & 0xE0 == 0xC0 {
                2
            } else if octet & 0xF0 == 0xE0 {
                3
            } else if octet & 0xF8 == 0xF0 {
                4
            } else {
                0
            };
            if width == 0 {
                yaml_parser_set_scanner_error(
                    parser,
                    Some(if directive { "while parsing a %TAG directive" } else { "while parsing a tag" }),
                    start_mark,
                    "found an incorrect leading UTF-8 octet",
                );
                return false;
            }
        } else {
            if octet & 0xC0 != 0x80 {
                yaml_parser_set_scanner_error(
                    parser,
                    Some(if directive { "while parsing a %TAG directive" } else { "while parsing a tag" }),
                    start_mark,
                    "found an incorrect trailing UTF-8 octet",
                );
                return false;
            }
        }
        string.push(octet);
        skip(parser);
        skip(parser);
        skip(parser);
        proof {
            lemma_uri_push_escape(prev + run, c1, c2);
            assert(prev + run + seq![0x25u32, c1, c2] =~= prev + (run + seq![0x25u32, c1, c2]));
            run = run + seq![0x25u32, c1, c2];
            assert(parser.reader.history@ =~= h0 + run);
        }
        first = false;
        width = width - 1;
        if width == 0 {
            proof {
                assert(read_between(*old(parser), *parser) =~= run);
            }
            return true;
        }
    }
}

/// The characters that may appear in a tag URI (with ',', '[' and ']' only
/// where `uri_char`, as in a verbatim tag or a %TAG prefix).
pub open spec fn uri_char_ok(c: u32, uri_char: bool) -> bool {
    spec_is_alpha(c) || c == 0x3B || c == 0x2F || c == 0x3F || c == 0x3A || c == 0x40 || c == 0x26
        || c == 0x3D || c == 0x2B || c == 0x24 || c == 0x2E || c == 0x25 || c == 0x21 || c == 0x7E
        || c == 0x2A || c == 0x27 || c == 0x28 || c == 0x29 || (uri_char && (c == 0x2C || c
        == 0x5B || c == 0x5D))
}

fn is_uri_char(c: u32, uri_char: bool) -> (r: bool)
    ensures
        r == uri_char_ok(c, uri_char),
{
    is_alpha(c) || c == 0x3B || c == 0x2F || c == 0x3F || c == 0x3A || c == 0x40 || c == 0x26
        || c == 0x3D || c == 0x2B || c == 0x24 || c == 0x2E || c == 0x25 || c == 0x21 || c == 0x7E
        || c == 0x2A || c == 0x27 || c == 0x28 || c == 0x29 || (uri_char && (c == 0x2C || c
        == 0x5B || c == 0x5D))
}

/// What a tag URI starts with when it continues a handle: the handle
/// without its leading '!' (nothing without a handle).
pub open spec fn head_part(head: Seq<u8>) -> Seq<u8> {
    if head.len() > 0 {
        head.skip(1)
    } else {
        Seq::empty()
    }
}

/// Scans a tag URI, decoding its escapes; `head` is the handle it continues
/// (empty for none). A URI with nothing in it is an error.
fn yaml_parser_scan_tag_uri(
    parser: &mut yaml_parser_t,
    uri_char: bool,
    directive: bool,
    head: &Vec<u8>,
    start_mark: yaml_mark_t,
) -> (r: Option<Vec<u8>>)
    requires
        old(parser).wf(),
    ensures
        scan_frame(*old(parser), *final(parser)),
        scan_outcome(*old(parser), *final(parser), r is Some),
        all_chars(read_between(*old(parser), *final(parser)), |c: u32| uri_char_ok(c, uri_char)),
        final(parser).reader.mark.line == old(parser).reader.mark.line,
        r matches Some(v) ==> {
            &&& uri_valid(read_between(*old(parser), *final(parser)))
            &&& v@ == head_part(head@) + uri_decode(read_between(*old(parser), *final(parser)))
            &&& !uri_char_ok(final(parser).ch(0), uri_char)
            &&& (head.len() > 0 || read_between(*old(parser), *final(parser)).len() > 0)
        },
        (r is None && final(parser).error == yaml_error_type_t::YAML_SCANNER_ERROR) ==> {
            &&& final(parser).context == Some(tag_context(directive))
            &&& final(parser).context_mark == start_mark
            &&& (final(parser).problem == Some("did not find URI escaped octet")
                || final(parser).problem == Some("found an incorrect leading UTF-8 octet")
                || final(parser).problem == Some("found an incorrect trailing UTF-8 octet")
                || final(parser).problem == Some("did not find expected tag URI"))
            &&& final(parser).problem != Some("did not find expected tag URI") ==> uri_escape_problem_at(
                *final(parser),
            )
            &&& final(parser).problem == Some("did not find expected tag URI") ==> {
                &&& head.len() == 0
                &&& read_between(*old(parser), *final(parser)).len() == 0
                &&& !uri_char_ok(final(parser).ch(0), uri_char)
            }
        },
{
    let mut string = yaml_string_t { data: Vec::new() };
    let ghost hp = head_part(head@);
    if head.len() > 0 {
        let mut i: usize = 1;
        while i < head.len()
            invariant
                1 <= i <= head.len(),
                string.data@ == head@.subrange(1, i as int),
            decreases head.len() - i,
        {
            string.data.push(head[i]);
            i = i + 1;
            proof {
                assert(string.data@ =~= head@.subrange(1, i as int));
            }
        }
        proof {
            assert(string.data@ =~= hp);
        }
    } else {
        proof {
            assert(string.data@ =~= hp);
        }
    }
    if !yaml_parser_update_buffer(parser, 1) {
        return None;
    }
    let ghost h0 = old(parser).reader.history@;
    let ghost mut run: Seq<u32> = Seq::empty();
    proof {
        assert(parser.reader.history@ =~= h0 + run);
        assert(uri_decode(run) =~= Seq::<u8>::empty());
        assert(string.data@ =~= hp + uri_decode(run));
    }
    while is_uri_char(peek(parser, 0), uri_char)
        invariant
            scan_frame(*old(parser), *parser),
            error_same(*old(parser), *parser),
            h0 == old(parser).reader.history@,
            parser.reader.history@ == h0 + run,
            all_chars(run, |c: u32| uri_char_ok(c, uri_char)),
            uri_valid(run),
            string.data@ == hp + uri_decode(run),
            parser.reader.mark.line == old(parser).reader.mark.line,
        decreases parser.reader.measure(),
    {
        let c = peek(parser, 0);
        let ghost before = *parser;
        if c == 0x25 {
            if !yaml_parser_scan_uri_escapes(
                parser,
                directive,
                start_mark,
                &mut string.data,
                Ghost(hp),
                Ghost(run),
            ) {
                proof {
                    lemma_read_split(*old(parser), before, *parser);
                    assert(read_between(*old(parser), before) =~= run);
                    let e = read_between(before, *parser);
                    assert forall|k: int| 0 <= k < run.len() + e.len() implies uri_char_ok(
                        #[trigger] (run + e)[k],
                        uri_char,
                    ) by {
                        if k >= run.len() {
                            assert((run + e)[k] == e[k - run.len()]);
                        }
                    }
                }
                return None;
            }
            proof {
                lemma_read_split(*old(parser), before, *parser);
                assert(read_between(*old(parser), before) =~= run);
                let e = read_between(before, *parser);
                assert forall|k: int| 0 <= k < run.len() + e.len() implies uri_char_ok(
                    #[trigger] (run + e)[k],
                    uri_char,
                ) by {
                    if k >= run.len() {
                        assert((run + e)[k] == e[k - run.len()]);
                    }
                }
                run = run + e;
                assert(parser.reader.history@ =~= h0 + run);
            }
        } else {
            read(parser, &mut string);
            proof {
                lemma_uri_push_plain(run, c);
                run = run.push(c);
                assert(parser.reader.history@ =~= h0 + run);
            }
        }
        if !yaml_parser_update_buffer(parser, 1) {
            proof {
                assert(read_between(*old(parser), *parser) =~= run);
            }
            return None;
        }
    }
    proof {
        assert(read_between(*old(parser), *parser) =~= run);
    }
    if head.len() == 0 && string.data.len() == 0 {
        proof {
            if run.len() > 0 {
                lemma_uri_decode_nonempty(run);
            }
        }
        yaml_parser_set_scanner_error(
            parser,
            Some(if directive { "while parsing a %TAG directive" } else { "while parsing a tag" }),
            start_mark,
            "did not find expected tag URI",
        );
        return None;
    }
    proof {
        if head.len() == 0 {
            assert(hp.len() == 0);
            if run.len() == 0 {
                assert(uri_decode(run).len() == 0);
            }
        }
    }
    Some(string.data)
}

proof fn lemma_uri_decode_nonempty(s: Seq<u32>)
    requires
        s.len() > 0,
    ensures
        uri_decode(s).len() > 0,
{
    if s.len() >= 3 && s[s.len() - 3] == 0x25 {
    } else {
        assert(utf8_encode(s.last()).len() > 0);
    }
}

/// A handle that ends with a second '!' ("!!" or "!name!").
pub open spec fn handle_closed(read: Seq<u32>) -> bool {
    read.len() >= 2 && read.last() == 0x21
}

/// The characters of a tag handle: '!', alphanumeric characters, and
/// possibly a closing '!'.
pub open spec fn handle_shape(read: Seq<u32>) -> bool {
    &&& read.len() >= 1
    &&& read[0] == 0x21
    &&& handle_closed(read) ==> all_chars(read.subrange(1, read.len() - 1), |c: u32| spec_is_alpha(c))
    &&& !handle_closed(read) ==> all_chars(read.skip(1), |c: u32| spec_is_alpha(c))
}

/// Scans a tag handle: '!', then alphanumeric characters, then a closing
/// '!' when there is one. In a %TAG directive only "!" may go unclosed.
#[verifier::rlimit(40)]
fn yaml_parser_scan_tag_handle(parser: &mut yaml_parser_t, directive: bool, start_mark: yaml_mark_t)
    -> (r: Option<Vec<u8>>)
    requires
        old(parser).wf(),
    ensures
        scan_frame(*old(parser), *final(parser)),
        scan_outcome(*old(parser), *final(parser), r is Some),
        final(parser).reader.mark.line == old(parser).reader.mark.line,
        r matches Some(v) ==> {
            let read = read_between(*old(parser), *final(parser));
            &&& handle_shape(read)
            &&& v@ == utf8_encode_all(read)
            &&& !handle_closed(read) ==> !spec_is_alpha(final(parser).ch(0)) && final(parser).ch(0) != 0x21
            &&& directive && !handle_closed(read) ==> read.len() == 1
        },
        (r is None && final(parser).error == yaml_error_type_t::YAML_SCANNER_ERROR) ==> {
            &&& final(parser).problem == Some("did not find expected '!'")
            &&& final(parser).context_mark == start_mark
            &&& if read_between(*old(parser), *final(parser)).len() == 0 {
                &&& final(parser).ch(0) != 0x21
                &&& final(parser).context == Some(if directive {
                    "while scanning a tag directive"
                } else {
                    "while scanning a tag"
                })
            } else {
                &&& directive
                &&& final(parser).context == Some("while parsing a tag directive")
            }
        },
{
    if !yaml_parser_update_buffer(parser, 1) {
        return None;
    }
    if peek(parser, 0) != 0x21 {
        yaml_parser_set_scanner_error(
            parser,
            Some(if directive { "while scanning a tag directive" } else { "while scanning a tag" }),
            start_mark,
            "did not find expected '!'",
        );
        return None;
    }
    let mut string = yaml_string_t { data: Vec::new() };
    let ghost m0 = *parser;
    read(parser, &mut string);
    let ghost m1 = *parser;
    let mut v = match read_alpha_run(parser) {
        None => return None,
        Some(v) => v,
    };
    let ghost m2 = *parser;
    proof {
        assert(m0.reader.history@.is_prefix_of(m1.reader.history@));
        lemma_read_split(*old(parser), m0, m1);
        lemma_read_split(*old(parser), m1, m2);
        assert(read_between(*old(parser), m0) =~= Seq::<u32>::empty());
        assert(read_between(m0, m1) =~= seq![0x21u32]);
        let run = read_between(m1, m2);
        lemma_encode_push(Seq::<u32>::empty(), 0x21u32);
        assert(seq![0x21u32] =~= Seq::<u32>::empty().push(0x21u32));
        assert(utf8_encode_all(Seq::<u32>::empty()) =~= Seq::<u8>::empty());
        assert(string.data@ =~= utf8_encode_all(seq![0x21u32]));
        lemma_encode_concat(seq![0x21u32], run);
    }
    string.data.append(&mut v);
    if peek(parser, 0) == 0x21 {
        let ghost c = parser.ch(0);
        read(parser, &mut string);
        proof {
            let run = read_between(m1, m2);
            let r2 = read_between(*old(parser), m2);
            assert(parser.reader.history@.is_prefix_of(parser.reader.history@));
            assert(m2.reader.history@.is_prefix_of(parser.reader.history@));
            lemma_read_split(*old(parser), m2, *parser);
            assert(read_between(m2, *parser) =~= seq![c]);
            let read = read_between(*old(parser), *parser);
            assert(read =~= r2.push(c));
            lemma_encode_push(r2, c);
            assert(read.subrange(1, read.len() - 1) =~= run);
        }
    } else {
        proof {
            let run = read_between(m1, m2);
            let read = read_between(*old(parser), m2);
            assert(read.skip(1) =~= run);
            lemma_encode_nonempty(run);
            if read.len() >= 2 {
                assert(read.last() == run.last());
            }
        }
        if directive && string.data.len() != 1 {
            yaml_parser_set_scanner_error(
                parser,
                Some("while parsing a tag directive"),
                start_mark,
                "did not find expected '!'",
            );
            return None;
        }
    }
    Some(string.data)
}

/// The encoding of two runs one after the other.
pub proof fn lemma_encode_concat(a: Seq<u32>, b: Seq<u32>)
    ensures
        utf8_encode_all(a + b) == utf8_encode_all(a) + utf8_encode_all(b),
    decreases b.len(),
{
    if b.len() == 0 {
        assert(a + b =~= a);
        assert(utf8_encode_all(a) + utf8_encode_all(b) =~= utf8_encode_all(a));
    } else {
        lemma_encode_concat(a, b.drop_last());
        assert((a + b).drop_last() =~= a + b.drop_last());
        assert(utf8_encode_all(a) + utf8_encode_all(b) =~= utf8_encode_all(a) + utf8_encode_all(
            b.drop_last(),
        ) + utf8_encode(b.last()));
    }
}

// ---------------------------------------------------------------------------
// Directives
// ---------------------------------------------------------------------------

/// `read` is blanks, a handle at `i`, blanks at `j`, and a prefix at `k`.
pub open spec fn tag_directive_split_at(
    read: Seq<u32>,
    i: int,
    j: int,
    k: int,
    handle: Seq<u8>,
    prefix: Seq<u8>,
) -> bool {
    &&& 0 <= i < j < k < read.len()
    &&& all_chars(read.take(i), |c: u32| spec_is_blank(c))
    &&& handle_shape(read.subrange(i, j))
    &&& (handle_closed(read.subrange(i, j)) || j - i == 1)
    &&& handle == utf8_encode_all(read.subrange(i, j))
    &&& all_chars(read.subrange(j, k), |c: u32| spec_is_blank(c))
    &&& all_chars(read.skip(k), |c: u32| uri_char_ok(c, true))
    &&& uri_valid(read.skip(k))
    &&& prefix == uri_decode(read.skip(k))
}

/// `read` is blanks, a handle, blanks and a prefix.
pub open spec fn tag_directive_text(read: Seq<u32>, handle: Seq<u8>, prefix: Seq<u8>) -> bool {
    exists|i: int, j: int, k: int| #[trigger] tag_directive_split_at(read, i, j, k, handle, prefix)
}

proof fn lemma_tag_directive_assemble(
    read: Seq<u32>,
    r1: Seq<u32>,
    r2: Seq<u32>,
    r3: Seq<u32>,
    r4: Seq<u32>,
    handle: Seq<u8>,
    prefix: Seq<u8>,
)
    requires
        read == r1 + r2 + r3 + r4,
        all_chars(r1, |c: u32| spec_is_blank(c)),
        handle_shape(r2),
        handle_closed(r2) || r2.len() == 1,
        handle == utf8_encode_all(r2),
        all_chars(r3, |c: u32| spec_is_blank(c)),
        r3.len() > 0,
        all_chars(r4, |c: u32| uri_char_ok(c, true)),
        r4.len() > 0,
        uri_valid(r4),
        prefix == Seq::<u8>::empty() + uri_decode(r4),
    ensures
        tag_directive_text(read, handle, prefix),
{
    let i = r1.len() as int;
    let j = i + r2.len();
    let k = j + r3.len();
    assert(read.take(i) =~= r1);
    assert(read.subrange(i, j) =~= r2);
    assert(read.subrange(j, k) =~= r3);
    assert(read.skip(k) =~= r4);
    assert(prefix =~= uri_decode(r4));
    assert(tag_directive_split_at(read, i, j, k, handle, prefix));
}

/// The problems a %TAG directive value can have.
pub open spec fn tag_directive_problem(p: Option<&'static str>) -> bool {
    ||| p == Some("did not find expected '!'")
    ||| p == Some("did not find expected whitespace")
    ||| p == Some("did not find URI escaped octet")
    ||| p == Some("found an incorrect leading UTF-8 octet")
    ||| p == Some("found an incorrect trailing UTF-8 octet")
    ||| p == Some("did not find expected tag URI")
    ||| p == Some("did not find expected whitespace or line break")
}

/// Scans the value of a %TAG directive: blanks, a handle, blanks, and a
/// prefix that ends before a blank, a line break or the end of input.
#[verifier::rlimit(40)]
fn yaml_parser_scan_tag_directive_value(parser: &mut yaml_parser_t, start_mark: yaml_mark_t) -> (r:
    Option<(Vec<u8>, Vec<u8>)>)
    requires
        old(parser).wf(),
    ensures
        scan_frame(*old(parser), *final(parser)),
        scan_outcome(*old(parser), *final(parser), r is Some),
        (r is None && final(parser).error == yaml_error_type_t::YAML_SCANNER_ERROR && uri_escape_problem(
            final(parser).problem,
        )) ==> uri_escape_problem_at(*final(parser)),
        final(parser).reader.mark.line == old(parser).reader.mark.line,
        r matches Some(v) ==> {
            &&& tag_directive_text(read_between(*old(parser), *final(parser)), v.0@, v.1@)
            &&& spec_is_blankz(final(parser).ch(0))
        },
        (r is None && final(parser).error == yaml_error_type_t::YAML_SCANNER_ERROR)
            ==> tag_directive_problem(final(parser).problem),
{
    if !skip_blanks(parser) {
        return None;
    }
    let ghost m1 = *parser;
    let handle = match yaml_parser_scan_tag_handle(parser, true, start_mark) {
        None => return None,
        Some(h) => h,
    };
    let ghost m2 = *parser;
    if !yaml_parser_update_buffer(parser, 1) {
        return None;
    }
    if !is_blank(peek(parser, 0)) {
        yaml_parser_set_scanner_error(
            parser,
            Some("while scanning a %TAG directive"),
            start_mark,
            "did not find expected whitespace",
        );
        return None;
    }
    let ghost m3 = *parser;
    if !skip_blanks(parser) {
        return None;
    }
    let ghost m4 = *parser;
    let empty: Vec<u8> = Vec::new();
    let prefix = match yaml_parser_scan_tag_uri(parser, true, true, &empty, start_mark) {
        None => return None,
        Some(p) => p,
    };
    let ghost m5 = *parser;
    if !yaml_parser_update_buffer(parser, 1) {
        return None;
    }
    if !is_blankz(peek(parser, 0)) {
        yaml_parser_set_scanner_error(
            parser,
            Some("while scanning a %TAG directive"),
            start_mark,
            "did not find expected whitespace or line break",
        );
        return None;
    }
    proof {
        let a = *old(parser);
        let b = *parser;
        lemma_read_split(a, m1, m2);
        lemma_read_split(m2, m3, m4);
        lemma_read_split(m2, m4, m5);
        lemma_read_split(a, m2, m5);
        lemma_read_split(a, m5, b);
        assert(read_between(m2, m3) =~= Seq::<u32>::empty());
        assert(read_between(m5, b) =~= Seq::<u32>::empty());
        assert(head_part(empty@) =~= Seq::<u8>::empty());
        assert(read_between(m2, m4) =~= read_between(m3, m4));
        assert(read_between(a, b) =~= read_between(a, m1) + read_between(m1, m2) + read_between(
            m3,
            m4,
        ) + read_between(m4, m5));
        lemma_tag_directive_assemble(
            read_between(a, b),
            read_between(a, m1),
            read_between(m1, m2),
            read_between(m3, m4),
            read_between(m4, m5),
            handle@,
            prefix@,
        );
    }
    Some((handle, prefix))
}

/// Alphanumeric characters encode as one octet each, of their own value.
pub proof fn lemma_encode_ascii(run: Seq<u32>)
    requires
        all_chars(run, |c: u32| c < 0x80),
    ensures
        utf8_encode_all(run).len() == run.len(),
        forall|i: int| 0 <= i < run.len() ==> #[trigger] utf8_encode_all(run)[i] == run[i],
    decreases run.len(),
{
    if run.len() > 0 {
        let init = run.drop_last();
        assert(all_chars(init, |c: u32| c < 0x80)) by {
            assert forall|i: int| 0 <= i < init.len() implies #[trigger] init[i] < 0x80 by {
                assert(init[i] == run[i]);
            }
        }
        lemma_encode_ascii(init);
        assert(run.last() < 0x80);
        assert(utf8_encode(run.last()) =~= seq![run.last() as u8]);
        assert forall|i: int| 0 <= i < run.len() implies #[trigger] utf8_encode_all(run)[i] == run[i] by {
            if i < init.len() {
                assert(utf8_encode_all(run)[i] == utf8_encode_all(init)[i]);
                assert(init[i] == run[i]);
            }
        }
    }
}

/// The name of the %YAML directive.
pub open spec fn name_yaml() -> Seq<u32> {
    seq![0x59u32, 0x41u32, 0x4Du32, 0x4Cu32]
}

/// The name of the %TAG directive.
pub open spec fn name_tag() -> Seq<u32> {
    seq![0x54u32, 0x41u32, 0x47u32]
}

/// `read` is '%', a directive name ending at `i`, and its value ending at
/// `j`, which `t` holds.
pub open spec fn directive_split_at(read: Seq<u32>, i: int, j: int, t: yaml_token_t) -> bool {
    &&& 1 <= i <= j <= read.len()
    &&& read[0] == 0x25
    &&& t.end_mark.index == t.start_mark.index + j
    &&& match t.data {
        yaml_token_data_t::VersionDirective(v) => {
            &&& t.type_ == yaml_token_type_t::YAML_VERSION_DIRECTIVE_TOKEN
            &&& read.subrange(1, i) == name_yaml()
            &&& version_text(read.subrange(i, j), v.major as int, v.minor as int)
        },
        yaml_token_data_t::TagDirective(d) => {
            &&& t.type_ == yaml_token_type_t::YAML_TAG_DIRECTIVE_TOKEN
            &&& read.subrange(1, i) == name_tag()
            &&& tag_directive_text(read.subrange(i, j), d.handle@, d.prefix@)
        },
        _ => false,
    }
}

/// `read` starts with a directive whose token is `t`.
pub open spec fn directive_text(read: Seq<u32>, t: yaml_token_t) -> bool {
    exists|i: int, j: int| #[trigger] directive_split_at(read, i, j, t)
}

/// The problems a directive can have.
pub open spec fn directive_problem(p: Option<&'static str>) -> bool {
    ||| p == Some("could not find expected directive name")
    ||| p == Some("found unexpected non-alphabetical character")
    ||| p == Some("found unknown directive name")
    ||| version_problem(p)
    ||| tag_directive_problem(p)
    ||| p == Some("did not find expected comment or line break")
}

fn name_is(name: &Vec<u8>, lit: &[u8]) -> (r: bool)
    ensures
        r == (name@ == lit@),
{
    if name.len() != lit.len() {
        return false;
    }
    let mut i: usize = 0;
    while i < name.len()
        invariant
            name.len() == lit.len(),
            0 <= i <= name.len(),
            forall|k: int| 0 <= k < i ==> name@[k] == lit@[k],
        decreases name.len() - i,
    {
        if name[i] != lit[i] {
            return false;
        }
        i = i + 1;
    }
    assert(name@ =~= lit@);
    true
}

/// A step after a step keeps what each keeps.
pub proof fn lemma_frame_trans(a: yaml_parser_t, m: yaml_parser_t, b: yaml_parser_t)
    requires
        scan_frame(a, m),
        scan_frame(m, b),
    ensures
        scan_frame(a, b),
        read_between(a, b) == read_between(a, m) + read_between(m, b),
{
    lemma_read_split(a, m, b);
}

/// A comment: empty, or '#' and characters up to a line break or the end.
pub open spec fn comment_text(c: Seq<u32>) -> bool {
    c.len() == 0 || (c[0] == 0x23 && all_chars(c, |x: u32| !spec_is_breakz(x)))
}

/// The end of a line: nothing (at the end of the input), one line break
/// character, or a carriage return and a line feed.
pub open spec fn line_end(e: Seq<u32>) -> bool {
    ||| e.len() == 0
    ||| (e.len() == 1 && spec_is_break(e[0]))
    ||| e == seq![0x0Du32, 0x0Au32]
}

/// The rest of a directive's line, split at `i` and `j`: blanks, then a
/// comment, then the end of the line.
pub open spec fn directive_end_split(s: Seq<u32>, i: int, j: int) -> bool {
    &&& 0 <= i <= j <= s.len()
    &&& all_chars(s.take(i), |x: u32| spec_is_blank(x))
    &&& comment_text(s.subrange(i, j))
    &&& line_end(s.skip(j))
}

/// Scans the rest of a directive's line: blanks, a comment, and the line
/// break (or the end of the input).
#[verifier::rlimit(100)]
#[verifier::spinoff_prover]
fn skip_directive_end(parser: &mut yaml_parser_t, start_mark: yaml_mark_t) -> (r: bool)
    requires
        old(parser).wf(),
    ensures
        scan_frame(*old(parser), *final(parser)),
        scan_outcome(*old(parser), *final(parser), r),
        r ==> exists|i: int, j: int| #[trigger] directive_end_split(
            read_between(*old(parser), *final(parser)),
            i,
            j,
        ) && (j == read_between(*old(parser), *final(parser)).len() ==> final(parser).ch(0) == 0),
        (!r && final(parser).error == yaml_error_type_t::YAML_SCANNER_ERROR) ==> {
            &&& final(parser).problem == Some("did not find expected comment or line break")
            &&& final(parser).context == Some("while scanning a directive")
            &&& final(parser).context_mark == start_mark
            &&& !spec_is_breakz(final(parser).ch(0))
            &&& exists|i: int| #[trigger] directive_end_split(
                read_between(*old(parser), *final(parser)),
                i,
                read_between(*old(parser), *final(parser)).len() as int,
            )
        },
{
    if !skip_blanks(parser) {
        return false;
    }
    let ghost m1 = *parser;
    if peek(parser, 0) == 0x23 {
        if !skip_comment(parser) {
            proof { lemma_frame_trans(*old(parser), m1, *parser); }
            return false;
        }
    }
    proof { lemma_frame_trans(*old(parser), m1, *parser); }
    let ghost m2 = *parser;
    let ghost s2 = read_between(*old(parser), m2);
    let ghost i = read_between(*old(parser), m1).len() as int;
    let ghost j = s2.len() as int;
    proof {
        assert(s2.take(i) =~= read_between(*old(parser), m1));
        assert(s2.subrange(i, j) =~= read_between(m1, m2));
        assert(s2.skip(j) =~= Seq::<u32>::empty());
        assert(directive_end_split(s2, i, j));
    }
    if !is_breakz(peek(parser, 0)) {
        yaml_parser_set_scanner_error(
            parser,
            Some("while scanning a directive"),
            start_mark,
            "did not find expected comment or line break",
        );
        proof {
            assert(read_between(*old(parser), *parser) == s2);
        }
        return false;
    }
    if is_break(peek(parser, 0)) {
        if !yaml_parser_update_buffer(parser, 2) {
            return false;
        }
        let ghost m3 = *parser;
        let c0 = peek(parser, 0);
        let c1 = peek(parser, 1);
        skip_line(parser);
        proof {
            assert(m3.reader.history@.is_prefix_of(parser.reader.history@));
            lemma_frame_trans(m2, m3, *parser);
            lemma_frame_trans(*old(parser), m2, *parser);
            let s = read_between(*old(parser), *parser);
            let e = read_between(m3, *parser);
            assert(read_between(m2, m3).len() == 0);
            assert(s == s2 + e);
            if c0 == 0x0D && c1 == 0x0A {
                assert(e =~= seq![0x0Du32, 0x0Au32]);
            } else {
                assert(e =~= seq![c0]);
            }
            assert(s.take(i) =~= s2.take(i));
            assert(s.subrange(i, j) =~= s2.subrange(i, j));
            assert(s.skip(j) =~= e);
            assert(directive_end_split(s, i, j));
        }
        return true;
    }
    proof {
        assert(read_between(*old(parser), *parser) == s2);
    }
    true
}

/// Scans a directive after its '%': its name, then the value of a %YAML or
/// a %TAG directive. The token starts at `start_mark`.
#[verifier::rlimit(30)]
fn scan_directive_body(parser: &mut yaml_parser_t, start_mark: yaml_mark_t) -> (r: Option<
    yaml_token_t,
>)
    requires
        old(parser).wf(),
        start_mark.index + 1 == old(parser).reader.mark.index,
    ensures
        scan_frame(*old(parser), *final(parser)),
        scan_outcome(*old(parser), *final(parser), r is Some),
        (r is None && final(parser).error == yaml_error_type_t::YAML_SCANNER_ERROR && uri_escape_problem(
            final(parser).problem,
        )) ==> uri_escape_problem_at(*final(parser)),
        r matches Some(t) ==> {
            &&& t.start_mark == start_mark
            &&& directive_text(seq![0x25u32] + read_between(*old(parser), *final(parser)), t)
        },
        (r is None && final(parser).error == yaml_error_type_t::YAML_SCANNER_ERROR) ==> {
            &&& directive_problem(final(parser).problem)
            &&& final(parser).problem == Some("found unknown directive name") ==> {
                let name = read_between(*old(parser), *final(parser));
                &&& name.len() > 0
                &&& all_chars(name, |c: u32| spec_is_alpha(c))
                &&& name != name_yaml()
                &&& name != name_tag()
            }
        },
{
    let name = match yaml_parser_scan_directive_name(parser, start_mark) {
        None => return None,
        Some(n) => n,
    };
    let ghost m2 = *parser;
    let ghost run = read_between(*old(parser), m2);
    proof {
        assert(all_chars(run, |c: u32| c < 0x80)) by {
            assert forall|k: int| 0 <= k < run.len() implies #[trigger] run[k] < 0x80 by {
                assert(spec_is_alpha(run[k]));
            }
        }
        lemma_encode_ascii(run);
    }
    let token;
    if name_is(&name, &[0x59u8, 0x41u8, 0x4Du8, 0x4Cu8]) {
        proof {
            assert(run =~= name_yaml()) by {
                assert forall|k: int| 0 <= k < run.len() implies run[k] == name_yaml()[k] by {
                    assert(utf8_encode_all(run)[k] == run[k]);
                }
            }
        }
        let v = match yaml_parser_scan_version_directive_value(parser, start_mark) {
            None => return None,
            Some(v) => v,
        };
        token = yaml_token_t {
            type_: yaml_token_type_t::YAML_VERSION_DIRECTIVE_TOKEN,
            data: yaml_token_data_t::VersionDirective(
                crate::types::yaml_token_version_directive_t { major: v.0, minor: v.1 },
            ),
            start_mark,
            end_mark: parser.reader.mark,
        };
    } else if name_is(&name, &[0x54u8, 0x41u8, 0x47u8]) {
        proof {
            assert(run =~= name_tag()) by {
                assert forall|k: int| 0 <= k < run.len() implies run[k] == name_tag()[k] by {
                    assert(utf8_encode_all(run)[k] == run[k]);
                }
            }
        }
        let v = match yaml_parser_scan_tag_directive_value(parser, start_mark) {
            None => return None,
            Some(v) => v,
        };
        token = yaml_token_t {
            type_: yaml_token_type_t::YAML_TAG_DIRECTIVE_TOKEN,
            data: yaml_token_data_t::TagDirective(
                crate::types::yaml_token_tag_directive_t { handle: v.0, prefix: v.1 },
            ),
            start_mark,
            end_mark: parser.reader.mark,
        };
    } else {
        proof {
            if run =~= name_yaml() {
                assert(name@ =~= seq![0x59u8, 0x41u8, 0x4Du8, 0x4Cu8]);
            }
            if run =~= name_tag() {
                assert(name@ =~= seq![0x54u8, 0x41u8, 0x47u8]);
            }
        }
        yaml_parser_set_scanner_error(
            parser,
            Some("while scanning a directive"),
            start_mark,
            "found unknown directive name",
        );
        return None;
    }
    let ghost m3 = *parser;
    proof {
        lemma_frame_trans(*old(parser), m2, m3);
        assert(seq![0x25u32] + read_between(*old(parser), m3) =~= seq![0x25u32] + run
            + read_between(m2, m3));
        lemma_directive_assemble(
            seq![0x25u32] + read_between(*old(parser), m3),
            run,
            read_between(m2, m3),
            token,
        );
    }
    if !skip_directive_end(parser, start_mark) {
        return None;
    }
    proof {
        lemma_frame_trans(*old(parser), m3, *parser);
        lemma_directive_extend(
            seq![0x25u32] + read_between(*old(parser), m3),
            read_between(m3, *parser),
            token,
        );
        assert(seq![0x25u32] + read_between(*old(parser), *parser) =~= seq![0x25u32]
            + read_between(*old(parser), m3) + read_between(m3, *parser));
    }
    Some(token)
}

proof fn lemma_directive_assemble(read: Seq<u32>, run: Seq<u32>, val: Seq<u32>, t: yaml_token_t)
    requires
        read == seq![0x25u32] + run + val,
        t.end_mark.index == t.start_mark.index + read.len(),
        ({
            ||| t.data matches yaml_token_data_t::VersionDirective(v) && t.type_
                == yaml_token_type_t::YAML_VERSION_DIRECTIVE_TOKEN && run == name_yaml()
                && version_text(val, v.major as int, v.minor as int)
            ||| t.data matches yaml_token_data_t::TagDirective(d) && t.type_
                == yaml_token_type_t::YAML_TAG_DIRECTIVE_TOKEN && run == name_tag()
                && tag_directive_text(val, d.handle@, d.prefix@)
        }),
    ensures
        directive_text(read, t),
{
    let i = 1 + run.len() as int;
    let j = read.len() as int;
    assert(read.subrange(i, j) =~= val);
    assert(read.subrange(1, i) =~= run);
    assert(directive_split_at(read, i, j, t));
}

proof fn lemma_directive_extend(read: Seq<u32>, more: Seq<u32>, t: yaml_token_t)
    requires
        directive_text(read, t),
    ensures
        directive_text(read + more, t),
{
    let (i, j) = choose|i: int, j: int| #[trigger] directive_split_at(read, i, j, t);
    let r2 = read + more;
    assert(r2.subrange(i, j) =~= read.subrange(i, j));
    assert(r2.subrange(1, i) =~= read.subrange(1, i));
    assert(directive_split_at(r2, i, j, t));
}

/// Scans a directive ('%' and a name): %YAML with its version or %TAG with
/// its handle and prefix, then the rest of the line.
pub fn yaml_parser_scan_directive(parser: &mut yaml_parser_t) -> (r: Option<yaml_token_t>)
    requires
        old(parser).wf(),
        old(parser).ch(0) != 0,
    ensures
        scan_frame(*old(parser), *final(parser)),
        scan_outcome(*old(parser), *final(parser), r is Some),
        (r is None && final(parser).error == yaml_error_type_t::YAML_SCANNER_ERROR && uri_escape_problem(
            final(parser).problem,
        )) ==> uri_escape_problem_at(*final(parser)),
        read_between(*old(parser), *final(parser)).len() >= 1,
        read_between(*old(parser), *final(parser))[0] == old(parser).ch(0),
        r matches Some(t) ==> {
            &&& t.start_mark == old(parser).reader.mark
            &&& old(parser).ch(0) == 0x25 ==> directive_text(read_between(*old(parser), *final(parser)), t)
        },
        (r is None && final(parser).error == yaml_error_type_t::YAML_SCANNER_ERROR) ==> {
            &&& directive_problem(final(parser).problem)
            &&& final(parser).problem == Some("found unknown directive name") ==> {
                let name = read_between(*old(parser), *final(parser)).skip(1);
                &&& name.len() > 0
                &&& all_chars(name, |c: u32| spec_is_alpha(c))
                &&& name != name_yaml()
                &&& name != name_tag()
            }
        },
{
    let start_mark = parser.reader.mark;
    skip(parser);
    let ghost m1 = *parser;
    let r = scan_directive_body(parser, start_mark);
    proof {
        assert(old(parser).reader.history@.is_prefix_of(m1.reader.history@));
        lemma_frame_trans(*old(parser), m1, *parser);
        assert(read_between(*old(parser), m1) =~= seq![old(parser).ch(0)]);
        let read = read_between(*old(parser), *parser);
        assert(read.skip(1) =~= read_between(m1, *parser));
        if r is Some && old(parser).ch(0) == 0x25 {
            assert(read =~= seq![0x25u32] + read_between(m1, *parser));
        }
    }
    r
}

// ---------------------------------------------------------------------------
// Tags
// ---------------------------------------------------------------------------

/// `read` is a verbatim tag "!<uri>".
pub open spec fn verbatim_tag(read: Seq<u32>, handle: Seq<u8>, suffix: Seq<u8>) -> bool {
    let m = read.subrange(2, read.len() - 1);
    &&& read.len() >= 3
    &&& read[0] == 0x21
    &&& read[1] == 0x3C
    &&& read.last() == 0x3E
    &&& all_chars(m, |c: u32| uri_char_ok(c, true))
    &&& uri_valid(m)
    &&& m.len() > 0
    &&& handle == Seq::<u8>::empty()
    &&& suffix == uri_decode(m)
}

/// `read` is a handle (its first `k` characters) and a suffix.
pub open spec fn tag_split_at(read: Seq<u32>, k: int, handle: Seq<u8>, suffix: Seq<u8>) -> bool {
    let h = read.take(k);
    let u = read.skip(k);
    &&& 1 <= k <= read.len()
    &&& handle_shape(h)
    &&& all_chars(u, |c: u32| uri_char_ok(c, false))
    &&& uri_valid(u)
    &&& if handle_closed(h) {
        &&& u.len() > 0
        &&& handle == utf8_encode_all(h)
        &&& suffix == uri_decode(u)
    } else {
        let suf = utf8_encode_all(h.skip(1)) + uri_decode(u);
        if suf.len() == 0 {
            handle == Seq::<u8>::empty() && suffix == seq![0x21u8]
        } else {
            handle == seq![0x21u8] && suffix == suf
        }
    }
}

/// `read` is a tag whose handle and suffix are `handle` and `suffix`: a
/// verbatim tag, a handle and a suffix, or a '!' and a suffix (the
/// secondary handle "!" then holds nothing and "!" alone is the suffix).
pub open spec fn tag_text(read: Seq<u32>, handle: Seq<u8>, suffix: Seq<u8>) -> bool {
    ||| verbatim_tag(read, handle, suffix)
    ||| tag_shorthand_text(read, handle, suffix)
}

/// The problems a tag can have.
pub open spec fn tag_problem(p: Option<&'static str>) -> bool {
    ||| tag_part_problem(p)
    ||| p == Some("did not find expected whitespace or line break")
}

/// The problems the handle and the suffix of a tag can have.
pub open spec fn tag_part_problem(p: Option<&'static str>) -> bool {
    ||| p == Some("did not find the expected '>'")
    ||| p == Some("did not find expected '!'")
    ||| p == Some("did not find URI escaped octet")
    ||| p == Some("found an incorrect leading UTF-8 octet")
    ||| p == Some("found an incorrect trailing UTF-8 octet")
    ||| p == Some("did not find expected tag URI")
}

/// `read` is a handle and a suffix.
pub open spec fn tag_shorthand_text(read: Seq<u32>, handle: Seq<u8>, suffix: Seq<u8>) -> bool {
    exists|k: int| #[trigger] tag_split_at(read, k, handle, suffix)
}

/// Where a tag may end: before a blank, a line break, the end of the
/// input, or a ',' in flow context.
pub open spec fn tag_end_ok(c: u32, flow_level: i32) -> bool {
    spec_is_blankz(c) || (flow_level > 0 && c == 0x2C)
}

/// Scans the handle and suffix of a tag that is not verbatim.
#[verifier::rlimit(30)]
fn scan_tag_shorthand(parser: &mut yaml_parser_t, start_mark: yaml_mark_t) -> (r: Option<(Vec<u8>, Vec<u8>)>)
    requires
        old(parser).wf(),
    ensures
        scan_frame(*old(parser), *final(parser)),
        scan_outcome(*old(parser), *final(parser), r is Some),
        (r is None && final(parser).error == yaml_error_type_t::YAML_SCANNER_ERROR && uri_escape_problem(
            final(parser).problem,
        )) ==> uri_escape_problem_at(*final(parser)),
        r matches Some(v) ==> tag_shorthand_text(read_between(*old(parser), *final(parser)), v.0@, v.1@),
        (r is None && final(parser).error == yaml_error_type_t::YAML_SCANNER_ERROR) ==> tag_part_problem(final(parser).problem),
{
    let h = match yaml_parser_scan_tag_handle(parser, false, start_mark) {
        None => return None,
        Some(h) => h,
    };
    let ghost m1 = *parser;
    let ghost hr = read_between(*old(parser), m1);
    proof {
        assert(all_chars(hr, |c: u32| c < 0x80)) by {
            assert forall|k: int| 0 <= k < hr.len() implies #[trigger] hr[k] < 0x80 by {
                if handle_closed(hr) {
                    if k > 0 && k < hr.len() - 1 {
                        assert(hr.subrange(1, hr.len() - 1)[k - 1] == hr[k]);
                    }
                } else {
                    if k > 0 {
                        assert(hr.skip(1)[k - 1] == hr[k]);
                    }
                }
            }
        }
        lemma_encode_ascii(hr);
    }
    let closed = h.len() > 1 && h[0] == 0x21 && h[h.len() - 1] == 0x21;
    proof {
        assert(closed == handle_closed(hr)) by {
            if hr.len() >= 1 {
                assert(utf8_encode_all(hr)[hr.len() - 1] == hr[hr.len() - 1]);
                assert(utf8_encode_all(hr)[0] == hr[0]);
            }
        }
    }
    let empty: Vec<u8> = Vec::new();
    let handle;
    let suffix;
    if closed {
        suffix = match yaml_parser_scan_tag_uri(parser, false, false, &empty, start_mark) {
            None => return None,
            Some(u) => u,
        };
        handle = h;
        proof {
            assert(head_part(empty@) =~= Seq::<u8>::empty());
            assert(suffix@ =~= uri_decode(read_between(m1, *parser)));
        }
    } else {
        let u = match yaml_parser_scan_tag_uri(parser, false, false, &h, start_mark) {
            None => return None,
            Some(u) => u,
        };
        proof {
            lemma_encode_concat(seq![hr[0]], hr.skip(1));
            assert(hr =~= seq![hr[0]] + hr.skip(1));
            assert(utf8_encode(hr[0]) =~= seq![hr[0] as u8]);
            assert(utf8_encode_all(seq![hr[0]]) =~= utf8_encode_all(Seq::<u32>::empty()) + utf8_encode(hr[0])) by {
                assert(seq![hr[0]].drop_last() =~= Seq::<u32>::empty());
            }
            assert(head_part(h@) =~= utf8_encode_all(hr.skip(1)));
        }
        let mut bang: Vec<u8> = Vec::new();
        bang.push(0x21u8);
        if u.len() == 0 {
            handle = Vec::new();
            suffix = bang;
        } else {
            handle = bang;
            suffix = u;
        }
    }
    proof {
        lemma_frame_trans(*old(parser), m1, *parser);
        let read = read_between(*old(parser), *parser);
        let k = hr.len() as int;
        assert(read.take(k) =~= hr);
        assert(read.skip(k) =~= read_between(m1, *parser));
        assert(tag_split_at(read, k, handle@, suffix@));
        assert(tag_shorthand_text(read, handle@, suffix@));
    }
    Some((handle, suffix))
}

/// Scans a verbatim tag "!<uri>".
fn scan_tag_verbatim(parser: &mut yaml_parser_t, start_mark: yaml_mark_t) -> (r: Option<Vec<u8>>)
    requires
        old(parser).wf(),
        old(parser).ch(0) != 0,
        old(parser).ch(1) == 0x3C,
    ensures
        scan_frame(*old(parser), *final(parser)),
        scan_outcome(*old(parser), *final(parser), r is Some),
        (r is None && final(parser).error == yaml_error_type_t::YAML_SCANNER_ERROR && uri_escape_problem(
            final(parser).problem,
        )) ==> uri_escape_problem_at(*final(parser)),
        r matches Some(v) ==> old(parser).ch(0) == 0x21 ==> verbatim_tag(
            read_between(*old(parser), *final(parser)),
            Seq::<u8>::empty(),
            v@,
        ),
        (r is None && final(parser).error == yaml_error_type_t::YAML_SCANNER_ERROR) ==> tag_part_problem(final(parser).problem),
{
    let ghost c0 = parser.ch(0);
    skip(parser);
    skip(parser);
    let ghost m1 = *parser;
    let empty: Vec<u8> = Vec::new();
    let u = match yaml_parser_scan_tag_uri(parser, true, false, &empty, start_mark) {
        None => return None,
        Some(u) => u,
    };
    let ghost m2 = *parser;
    if peek(parser, 0) != 0x3E {
        yaml_parser_set_scanner_error(
            parser,
            Some("while scanning a tag"),
            start_mark,
            "did not find the expected '>'",
        );
        return None;
    }
    skip(parser);
    proof {
        assert(old(parser).reader.history@.is_prefix_of(m1.reader.history@));
        assert(m2.reader.history@.is_prefix_of(parser.reader.history@));
        lemma_frame_trans(*old(parser), m1, m2);
        lemma_frame_trans(*old(parser), m2, *parser);
        let read = read_between(*old(parser), *parser);
        assert(read_between(*old(parser), m1) =~= seq![c0, 0x3Cu32]);
        assert(read_between(m2, *parser) =~= seq![0x3Eu32]);
        assert(read.subrange(2, read.len() - 1) =~= read_between(m1, m2));
        assert(head_part(empty@) =~= Seq::<u8>::empty());
        assert(u@ =~= uri_decode(read_between(m1, m2)));
    }
    Some(u)
}

/// Scans a tag: "!<uri>", or a handle and a suffix; it must end before a
/// blank, a line break, the end of input, or a ',' in flow context.
pub fn yaml_parser_scan_tag(parser: &mut yaml_parser_t) -> (r: Option<yaml_token_t>)
    requires
        old(parser).wf(),
        old(parser).ch(0) == 0x21,
    ensures
        scan_frame(*old(parser), *final(parser)),
        scan_outcome(*old(parser), *final(parser), r is Some),
        (r is None && final(parser).error == yaml_error_type_t::YAML_SCANNER_ERROR && uri_escape_problem(
            final(parser).problem,
        )) ==> uri_escape_problem_at(*final(parser)),
        r matches Some(t) ==> {
            &&& t.type_ == yaml_token_type_t::YAML_TAG_TOKEN
            &&& t.start_mark == old(parser).reader.mark
            &&& t.end_mark == final(parser).reader.mark
            &&& t.data matches yaml_token_data_t::Tag(d) && tag_text(
                read_between(*old(parser), *final(parser)),
                d.handle@,
                d.suffix@,
            )
            &&& tag_end_ok(final(parser).ch(0), final(parser).scanner.flow_level)
        },
        (r is None && final(parser).error == yaml_error_type_t::YAML_SCANNER_ERROR) ==> {
            &&& tag_problem(final(parser).problem)
            &&& final(parser).problem == Some("did not find expected whitespace or line break")
                ==> !tag_end_ok(final(parser).ch(0), final(parser).scanner.flow_level)
        },
{
    let start_mark = parser.reader.mark;
    if !yaml_parser_update_buffer(parser, 2) {
        return None;
    }
    let handle;
    let suffix;
    if peek(parser, 1) == 0x3C {
        let v = match scan_tag_verbatim(parser, start_mark) {
            None => return None,
            Some(v) => v,
        };
        handle = Vec::new();
        suffix = v;
    } else {
        let v = match scan_tag_shorthand(parser, start_mark) {
            None => return None,
            Some(v) => v,
        };
        handle = v.0;
        suffix = v.1;
    }
    let ghost m3 = *parser;
    if !yaml_parser_update_buffer(parser, 1) {
        return None;
    }
    let c = peek(parser, 0);
    if !is_blankz(c) {
        if parser.scanner.flow_level == 0 || c != 0x2C {
            yaml_parser_set_scanner_error(
                parser,
                Some("while scanning a tag"),
                start_mark,
                "did not find expected whitespace or line break",
            );
            return None;
        }
    }
    proof {
        assert(read_between(*old(parser), *parser) =~= read_between(*old(parser), m3));
    }
    let end_mark = parser.reader.mark;
    Some(yaml_token_t {
        type_: yaml_token_type_t::YAML_TAG_TOKEN,
        data: yaml_token_data_t::Tag(crate::types::yaml_token_tag_t { handle, suffix }),
        start_mark,
        end_mark,
    })
}

} // verus!

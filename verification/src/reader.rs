use vstd::prelude::*;
use crate::chars::{
    spec_utf8_width, is_trailing, spec_seq_value, shortest_form, utf8_width, lead_value,
    value_bound,
};
use crate::decode::{
    DecodeStep, first_bad_trailing, utf8_step, utf16_step, unit16, allowed_char, decode_step,
    decodes_fully, decoded_chars, detect_encoding, lemma_step_width, lemma_incomplete_short,
    lemma_decode_append, lemma_step_prefix, lemma_fail_extend, lemma_fail_offset, lemma_decode_empty, lemma_decode_unfold, lemma_decoded_len,
};
use crate::types::{yaml_encoding_t, yaml_mark_t, INPUT_RAW_BUFFER_SIZE};

verus! {

/// The input string and how much of it has been handed to the reader.
#[derive(Clone, Debug)]
pub struct yaml_parser_input_string_t {
    pub input: Vec<u8>,
    pub current: usize,
}

/// Decoded characters; those from `pointer` on are not read yet.
#[derive(Clone, Debug)]
pub struct yaml_parser_buffer_t {
    pub chars: Vec<u32>,
    pub pointer: usize,
}

/// Raw octets read from the input; those from `pointer` on are not decoded yet.
#[derive(Clone, Debug)]
pub struct yaml_raw_buffer_t {
    pub bytes: Vec<u8>,
    pub pointer: usize,
}

/// The reader: raw input, decoding, the current position, and (for the
/// proofs) the characters read so far.
pub struct yaml_reader_t {
    pub input: yaml_parser_input_string_t,
    pub has_input: bool,
    pub eof: bool,
    pub buffer: yaml_parser_buffer_t,
    pub raw_buffer: yaml_raw_buffer_t,
    pub encoding: yaml_encoding_t,
    pub offset: usize,
    pub mark: yaml_mark_t,
    pub history: Ghost<Seq<u32>>,
}

/// A failure of the reader: the problem, the offset of the offending octet
/// in the input, and the offending value (or -1).
#[derive(Clone, Copy, Debug)]
pub struct ReaderError {
    pub problem: &'static str,
    pub offset: usize,
    pub value: i32,
}

impl yaml_reader_t {
    /// The characters decoded but not read yet.
    pub open spec fn window(self) -> Seq<u32> {
        self.buffer.chars@.skip(self.buffer.pointer as int)
    }

    pub open spec fn unread(self) -> nat {
        (self.buffer.chars.len() - self.buffer.pointer) as nat
    }

    /// The raw octets not decoded yet: those in the raw buffer, then those
    /// of the input not read yet.
    pub open spec fn remaining_raw(self) -> Seq<u8> {
        self.raw_buffer.bytes@.skip(self.raw_buffer.pointer as int) + self.input.input@.skip(
            self.input.current as int,
        )
    }

    pub open spec fn raw_done(self) -> bool {
        self.eof && self.raw_buffer.pointer == self.raw_buffer.bytes.len()
    }

    /// The `k`-th character not read yet (0 past the end of the buffer).
    pub open spec fn peek(self, k: int) -> u32 {
        if 0 <= k < self.unread() {
            self.buffer.chars@[self.buffer.pointer + k]
        } else {
            0
        }
    }

    /// A measure of the input left: it never grows when the buffer is
    /// refilled and shrinks by one for each character read.
    pub open spec fn measure(self) -> nat {
        self.unread() + self.remaining_raw().len() + if self.raw_done() {
            0nat
        } else {
            1nat
        }
    }

    pub open spec fn wf(self) -> bool {
        &&& self.raw_buffer.pointer <= self.raw_buffer.bytes.len() <= INPUT_RAW_BUFFER_SIZE
        &&& self.input.current <= self.input.input.len()
        &&& self.input.input.len() < usize::MAX / 2
        &&& self.offset + (self.raw_buffer.bytes.len() - self.raw_buffer.pointer)
            == self.input.current
        &&& self.buffer.pointer <= self.buffer.chars.len()
        &&& (self.eof ==> self.input.current == self.input.input.len())
        &&& (if self.raw_done() {
            self.mark.index + self.unread() <= self.offset + 1
        } else {
            self.mark.index + self.unread() <= self.offset
        })
        &&& self.mark.line + self.mark.column <= self.mark.index
        &&& forall|i: int| 0 <= i < self.buffer.chars.len() ==> #[trigger] self.buffer.chars@[i] <= 0x10FFFF
    }
}

/// Decodes the character at `pos` in `raw`.
pub fn decode_char(enc: yaml_encoding_t, raw: &Vec<u8>, pos: usize, eof: bool) -> (r: DecodeStep)
    requires
        pos < raw.len(),
    ensures
        r == decode_step(enc, raw@.skip(pos as int), eof),
{
    let ghost t = raw@.skip(pos as int);
    reveal(decode_step);
    let step = match enc {
        yaml_encoding_t::YAML_UTF16LE_ENCODING => decode_utf16(raw, pos, eof, true),
        yaml_encoding_t::YAML_UTF16BE_ENCODING => decode_utf16(raw, pos, eof, false),
        _ => decode_utf8(raw, pos, eof),
    };
    match step {
        DecodeStep::Char(v, w) => {
            if !(v == 0x09 || v == 0x0A || v == 0x0D || (v >= 0x20 && v <= 0x7E) || v == 0x85 || (v
                >= 0xA0 && v <= 0xD7FF) || (v >= 0xE000 && v <= 0xFFFD) || (v >= 0x10000 && v
                <= 0x10FFFF)) {
                DecodeStep::Fail("control characters are not allowed", 0, v as i32)
            } else {
                step
            }
        },
        _ => step,
    }
}

fn decode_utf8(raw: &Vec<u8>, pos: usize, eof: bool) -> (r: DecodeStep)
    requires
        pos < raw.len(),
    ensures
        r == utf8_step(raw@.skip(pos as int), eof),
{
    let ghost t = raw@.skip(pos as int);
    let avail = raw.len() - pos;
    let octet = raw[pos];
    assert(octet == t[0]);
    let width = utf8_width(octet);
    if width == 0 {
        return DecodeStep::Fail("invalid leading UTF-8 octet", 0, octet as i32);
    }
    if width > avail {
        if eof {
            return DecodeStep::Fail("incomplete UTF-8 octet sequence", 0, -1);
        }
        return DecodeStep::Incomplete;
    }
    let mut value: u32 = lead_value(octet);
    let mut k: usize = 1;
    while k < width
        invariant
            1 <= k <= width,
            width == spec_utf8_width(t[0]),
            width <= 4,
            width <= avail,
            avail == raw.len() - pos,
            pos < raw.len(),
            t == raw@.skip(pos as int),
            value == spec_seq_value(t, k as nat),
            value < value_bound(k as nat),
            first_bad_trailing(t, 1, width as nat) == first_bad_trailing(t, k as nat, width as nat),
        decreases width - k,
    {
        let o = raw[pos + k];
        assert(o == t[k as int]);
        if !(o >= 0x80 && o < 0xC0) {
            assert(first_bad_trailing(t, k as nat, width as nat) == Some(k as nat));
            return DecodeStep::Fail("invalid trailing UTF-8 octet", k, o as i32);
        }
        assert(first_bad_trailing(t, k as nat, width as nat) == first_bad_trailing(
            t,
            (k + 1) as nat,
            width as nat,
        ));
        value = value * 64 + (o % 64) as u32;
        k = k + 1;
    }
    assert(first_bad_trailing(t, 1, width as nat) is None);
    if !((width == 1) || (width == 2 && value >= 0x80) || (width == 3 && value >= 0x800) || (width
        == 4 && value >= 0x10000)) {
        return DecodeStep::Fail("invalid length of a UTF-8 sequence", 0, -1);
    }
    if (value >= 0xD800 && value <= 0xDFFF) || value > 0x10FFFF {
        return DecodeStep::Fail("invalid Unicode character", 0, value as i32);
    }
    DecodeStep::Char(value, width)
}

fn decode_utf16(raw: &Vec<u8>, pos: usize, eof: bool, le: bool) -> (r: DecodeStep)
    requires
        pos < raw.len(),
    ensures
        r == utf16_step(raw@.skip(pos as int), eof, le),
{
    let ghost t = raw@.skip(pos as int);
    let avail = raw.len() - pos;
    if avail < 2 {
        if eof {
            return DecodeStep::Fail("incomplete UTF-16 character", 0, -1);
        }
        return DecodeStep::Incomplete;
    }
    let (low, high): (usize, usize) = if le {
        (0, 1)
    } else {
        (1, 0)
    };
    assert(raw[pos as int] == t[0] && raw[pos + 1] == t[1]);
    let value: u32 = raw[pos + low] as u32 + (raw[pos + high] as u32) * 256;
    assert(value == unit16(t, 0, le));
    if value >= 0xDC00 && value < 0xE000 {
        return DecodeStep::Fail("unexpected low surrogate area", 0, value as i32);
    }
    if value >= 0xD800 && value < 0xDC00 {
        if avail < 4 {
            if eof {
                return DecodeStep::Fail("incomplete UTF-16 surrogate pair", 0, -1);
            }
            return DecodeStep::Incomplete;
        }
        assert(raw[pos + 2] == t[2] && raw[pos + 3] == t[3]);
        let value2: u32 = raw[pos + low + 2] as u32 + (raw[pos + high + 2] as u32) * 256;
        assert(value2 == unit16(t, 2, le));
        if !(value2 >= 0xDC00 && value2 < 0xE000) {
            return DecodeStep::Fail("expected low surrogate area", 2, value2 as i32);
        }
        return DecodeStep::Char(0x10000 + (value - 0xD800) * 1024 + (value2 - 0xDC00), 4);
    }
    DecodeStep::Char(value, 2)
}

/// The octets of `v` from `from` on.
pub fn vec_skip<T: Copy>(v: &Vec<T>, from: usize) -> (r: Vec<T>)
    requires
        from <= v.len(),
    ensures
        r@ == v@.skip(from as int),
{
    let mut r: Vec<T> = Vec::new();
    let mut i = from;
    while i < v.len()
        invariant
            from <= i <= v.len(),
            r@ == v@.subrange(from as int, i as int),
        decreases v.len() - i,
    {
        r.push(v[i]);
        i = i + 1;
        assert(r@ =~= v@.subrange(from as int, i as int));
    }
    assert(v@.subrange(from as int, v.len() as int) =~= v@.skip(from as int));
    r
}

/// Copies up to `size` octets of the input string into `buffer`; returns
/// the number of octets copied (0 at the end of the input).
pub fn yaml_string_read_handler(
    input: &mut yaml_parser_input_string_t,
    buffer: &mut Vec<u8>,
    size: usize,
) -> (n: usize)
    requires
        old(input).current <= old(input).input.len(),
    ensures
        final(input).input@ == old(input).input@,
        n == if size < old(input).input.len() - old(input).current {
            size as int
        } else {
            old(input).input.len() - old(input).current
        },
        final(input).current == old(input).current + n,
        final(buffer)@ == old(buffer)@ + old(input).input@.subrange(
            old(input).current as int,
            old(input).current + n,
        ),
{
    let avail = input.input.len() - input.current;
    let n = if size < avail {
        size
    } else {
        avail
    };
    let start = input.current;
    let mut i: usize = 0;
    while i < n
        invariant
            i <= n,
            start + n <= input.input.len(),
            input.current == start,
            input.input@ == old(input).input@,
            start == old(input).current,
            buffer@ == old(buffer)@ + old(input).input@.subrange(start as int, start + i),
        decreases n - i,
    {
        buffer.push(input.input[start + i]);
        i = i + 1;
        assert(buffer@ =~= old(buffer)@ + old(input).input@.subrange(start as int, start + i));
    }
    input.current = start + n;
    n
}

/// Reader state other than the raw buffer and the input position is kept.
pub open spec fn raw_read_frame(a: yaml_reader_t, b: yaml_reader_t) -> bool {
    &&& b.history == a.history
    &&& b.input.input@ == a.input.input@
    &&& b.has_input == a.has_input
    &&& b.buffer == a.buffer
    &&& b.encoding == a.encoding
    &&& b.offset == a.offset
    &&& b.mark == a.mark
}

pub open spec fn raw_full(r: yaml_reader_t) -> bool {
    r.raw_buffer.pointer == 0 && r.raw_buffer.bytes.len() == INPUT_RAW_BUFFER_SIZE
}

/// Moves the undecoded raw octets to the front of the raw buffer and fills
/// the rest of it from the input; reaching the end of the input sets `eof`.
pub fn yaml_parser_update_raw_buffer(reader: &mut yaml_reader_t)
    requires
        old(reader).wf(),
    ensures
        final(reader).wf(),
        raw_read_frame(*old(reader), *final(reader)),
        final(reader).remaining_raw() == old(reader).remaining_raw(),
        final(reader).input.current >= old(reader).input.current,
        old(reader).eof ==> final(reader).eof,
        (raw_full(*old(reader)) || old(reader).eof) ==> *final(reader) == *old(reader),
        !(raw_full(*old(reader)) || old(reader).eof) ==> {
            &&& final(reader).raw_buffer.pointer == 0
            &&& (final(reader).raw_buffer.bytes.len() == INPUT_RAW_BUFFER_SIZE
                || final(reader).input.current == final(reader).input.input.len())
            &&& (final(reader).input.current > old(reader).input.current || final(reader).eof)
        },
{
    if reader.raw_buffer.pointer == 0 && reader.raw_buffer.bytes.len() == INPUT_RAW_BUFFER_SIZE {
        return ;
    }
    if reader.eof {
        return ;
    }
    let ghost old_rem = reader.remaining_raw();
    if reader.raw_buffer.pointer > 0 {
        let rest = vec_skip(&reader.raw_buffer.bytes, reader.raw_buffer.pointer);
        reader.raw_buffer.bytes = rest;
        reader.raw_buffer.pointer = 0;
    }
    assert(reader.raw_buffer.bytes@.skip(0) =~= reader.raw_buffer.bytes@);
    let size = INPUT_RAW_BUFFER_SIZE - reader.raw_buffer.bytes.len();
    let ghost mid_bytes = reader.raw_buffer.bytes@;
    let ghost cur0 = reader.input.current;
    let n = yaml_string_read_handler(&mut reader.input, &mut reader.raw_buffer.bytes, size);
    if n == 0 {
        reader.eof = true;
    }
    proof {
        let inp = reader.input.input@;
        assert(inp.skip(cur0 as int) =~= inp.subrange(cur0 as int, cur0 + n) + inp.skip(
            reader.input.current as int,
        ));
        assert(reader.raw_buffer.bytes@.skip(0) =~= reader.raw_buffer.bytes@);
        assert(reader.remaining_raw() =~= old_rem);
    }
}

/// Reads until at least three raw octets are buffered or the input ends,
/// then takes the encoding from the byte order mark (UTF-8 when there is
/// none) and skips the mark.
pub fn yaml_parser_determine_encoding(reader: &mut yaml_reader_t)
    requires
        old(reader).wf(),
    ensures
        final(reader).wf(),
        final(reader).input.input@ == old(reader).input.input@,
        final(reader).has_input == old(reader).has_input,
        final(reader).buffer == old(reader).buffer,
        final(reader).mark == old(reader).mark,
        final(reader).history == old(reader).history,
        final(reader).encoding == detect_encoding(old(reader).remaining_raw()).0,
        final(reader).offset == old(reader).offset + detect_encoding(old(reader).remaining_raw()).1,
        old(reader).remaining_raw() == old(reader).remaining_raw().take(
            detect_encoding(old(reader).remaining_raw()).1 as int,
        ) + final(reader).remaining_raw(),
        old(reader).eof ==> final(reader).eof,
        old(reader).raw_done() ==> final(reader).raw_done(),
{
    let ghost rem0 = reader.remaining_raw();
    while !reader.eof && reader.raw_buffer.bytes.len() - reader.raw_buffer.pointer < 3
        invariant
            reader.wf(),
            reader.remaining_raw() == rem0,
            reader.input.input@ == old(reader).input.input@,
            reader.has_input == old(reader).has_input,
            reader.buffer == old(reader).buffer,
            reader.mark == old(reader).mark,
            reader.history == old(reader).history,
            reader.offset == old(reader).offset,
            old(reader).eof ==> reader.eof,
            old(reader).raw_done() ==> reader.raw_done(),
        decreases (reader.input.input.len() - reader.input.current) * 2 + if reader.eof {
            0int
        } else {
            1int
        },
    {
        yaml_parser_update_raw_buffer(reader);
    }
    let p = reader.raw_buffer.pointer;
    let avail = reader.raw_buffer.bytes.len() - p;
    let ghost raw_rest = reader.raw_buffer.bytes@.skip(p as int);
    proof {
        if avail < 3 {
            assert(reader.input.input@.skip(reader.input.current as int) =~= Seq::<u8>::empty());
            assert(rem0 =~= raw_rest);
        } else {
            assert(forall|i: int| 0 <= i < 3 ==> rem0[i] == raw_rest[i]);
        }
    }
    let b = &reader.raw_buffer.bytes;
    let (enc, bom): (yaml_encoding_t, usize) = if avail >= 2 && b[p] == 0xFF && b[p + 1] == 0xFE {
        (yaml_encoding_t::YAML_UTF16LE_ENCODING, 2)
    } else if avail >= 2 && b[p] == 0xFE && b[p + 1] == 0xFF {
        (yaml_encoding_t::YAML_UTF16BE_ENCODING, 2)
    } else if avail >= 3 && b[p] == 0xEF && b[p + 1] == 0xBB && b[p + 2] == 0xBF {
        (yaml_encoding_t::YAML_UTF8_ENCODING, 3)
    } else {
        (yaml_encoding_t::YAML_UTF8_ENCODING, 0)
    };
    assert(enc == detect_encoding(rem0).0 && bom == detect_encoding(rem0).1);
    reader.encoding = enc;
    reader.raw_buffer.pointer = p + bom;
    reader.offset = reader.offset + bom;
    proof {
        let inp = reader.input.input@.skip(reader.input.current as int);
        assert(rem0 =~= rem0.take(bom as int) + reader.remaining_raw());
    }
}

/// The length of the byte order mark skipped by a refill that started with
/// an undetermined encoding.
pub open spec fn bom_skipped(a: yaml_reader_t, b: yaml_reader_t) -> nat {
    if a.encoding == yaml_encoding_t::YAML_ANY_ENCODING && b.encoding
        != yaml_encoding_t::YAML_ANY_ENCODING {
        detect_encoding(a.remaining_raw()).1
    } else {
        0
    }
}

/// The raw octets a refill decoded (after any byte order mark).
pub open spec fn consumed_raw(a: yaml_reader_t, b: yaml_reader_t) -> Seq<u8> {
    a.remaining_raw().subrange(
        bom_skipped(a, b) as int,
        (a.remaining_raw().len() - b.remaining_raw().len()) as int,
    )
}

/// What a refill of the character buffer does: the encoding is fixed once,
/// the octets consumed decode exactly to the characters appended, and a
/// NUL marks the end of the input.
pub open spec fn refill_relation(a: yaml_reader_t, b: yaml_reader_t) -> bool {
    &&& b.input.input@ == a.input.input@
    &&& b.has_input == a.has_input
    &&& b.mark == a.mark
    &&& b.history == a.history
    &&& (a.encoding != yaml_encoding_t::YAML_ANY_ENCODING ==> b.encoding == a.encoding)
    &&& (a.encoding == yaml_encoding_t::YAML_ANY_ENCODING && b.encoding
        != yaml_encoding_t::YAML_ANY_ENCODING ==> b.encoding == detect_encoding(
        a.remaining_raw(),
    ).0)
    &&& a.remaining_raw().len() >= bom_skipped(a, b) + b.remaining_raw().len()
    &&& a.remaining_raw() == a.remaining_raw().take(bom_skipped(a, b) as int) + consumed_raw(a, b)
        + b.remaining_raw()
    &&& b.offset == a.offset + bom_skipped(a, b) + consumed_raw(a, b).len()
    &&& decodes_fully(b.encoding, consumed_raw(a, b))
    &&& b.window() == a.window() + decoded_chars(b.encoding, consumed_raw(a, b)) + if b.raw_done()
        && !a.raw_done() {
        seq![0u32]
    } else {
        Seq::<u32>::empty()
    }
    &&& (a.eof ==> b.eof)
}

/// Makes at least `length` characters available, unless the input ends
/// first (then the last character is a NUL) or cannot be decoded.
pub fn yaml_reader_update_buffer(reader: &mut yaml_reader_t, length: usize) -> (r: Result<
    (),
    ReaderError,
>)
    requires
        old(reader).wf(),
    ensures
        final(reader).wf(),
        refill_relation(*old(reader), *final(reader)),
        r is Ok ==> final(reader).unread() >= length || final(reader).raw_done(),
        r is Err ==> final(reader).encoding != yaml_encoding_t::YAML_ANY_ENCODING,
        old(reader).raw_done() ==> r is Ok && *final(reader) == *old(reader),
        r matches Err(e) ==> ((e.problem == "input is too long" && final(reader).offset >= usize::MAX / 2)
            || (final(reader).remaining_raw().len() > 0 && (decode_step(
            final(reader).encoding,
            final(reader).remaining_raw(),
            true,
        ) matches DecodeStep::Fail(p, d, v) && e.problem == p && e.value == v && e.offset
            == final(reader).offset + d))),
{
    if reader.eof && reader.raw_buffer.pointer == reader.raw_buffer.bytes.len() {
        proof { lemma_refill_nothing(*reader); }
        return Ok(());
    }
    if reader.buffer.chars.len() - reader.buffer.pointer >= length {
        proof { lemma_refill_nothing(*reader); }
        return Ok(());
    }
    let ghost start = *reader;
    let ghost w0 = start.window();
    if reader.encoding == yaml_encoding_t::YAML_ANY_ENCODING {
        yaml_parser_determine_encoding(reader);
    }
    let ghost bom: nat = bom_skipped(start, *reader);
    let ghost s1 = reader.remaining_raw();
    assert(start.remaining_raw() == start.remaining_raw().take(bom as int) + s1);
    if reader.buffer.pointer > 0 {
        let rest = vec_skip(&reader.buffer.chars, reader.buffer.pointer);
        reader.buffer.chars = rest;
        reader.buffer.pointer = 0;
    }
    assert(reader.buffer.chars@.skip(0) =~= reader.buffer.chars@);
    assert(reader.window() == w0);
    let enc = reader.encoding;
    let ghost mut consumed: Seq<u8> = Seq::empty();
    proof { lemma_decode_empty(enc); }
    assert(s1 =~= consumed + reader.remaining_raw());
    assert(w0 + decoded_chars(enc, consumed) =~= w0);
    let mut first = true;
    while reader.buffer.chars.len() - reader.buffer.pointer < length
        invariant
            reader.wf(),
            !start.raw_done(),
            w0 == start.window(),
            start == *old(reader),
            reader.buffer.pointer == 0,
            reader.encoding == enc,
            enc != yaml_encoding_t::YAML_ANY_ENCODING,
            reader.input.input@ == start.input.input@,
            reader.has_input == start.has_input,
            reader.mark == start.mark,
            reader.history == start.history,
            start.eof ==> reader.eof,
            start.encoding != yaml_encoding_t::YAML_ANY_ENCODING ==> enc == start.encoding,
            start.encoding == yaml_encoding_t::YAML_ANY_ENCODING ==> enc == detect_encoding(
                start.remaining_raw(),
            ).0,
            bom == bom_skipped(start, *reader),
            start.remaining_raw() == start.remaining_raw().take(bom as int) + s1,
            s1 == consumed + reader.remaining_raw(),
            reader.offset == start.offset + bom + consumed.len(),
            decodes_fully(enc, consumed),
            reader.window() == w0 + decoded_chars(enc, consumed),
            reader.mark.index + reader.unread() <= reader.offset,
            first || !reader.eof,
            first ==> reader.unread() < length,
        decreases reader.input.input.len() - reader.input.current,
            reader.raw_buffer.bytes.len() - reader.raw_buffer.pointer,
            if first {
                1int
            } else {
                0int
            },
    {
        let ghost cur_before = reader.input.current;
        let ghost raw_before = (reader.raw_buffer.bytes.len() - reader.raw_buffer.pointer) as int;
        let ghost first_before = first;
        let ghost before_update = *reader;
        if !first || reader.raw_buffer.pointer == reader.raw_buffer.bytes.len() {
            yaml_parser_update_raw_buffer(reader);
        }
        first = false;
        let ghost before_decode = *reader;
        let res = yaml_reader_decode_raw(reader);
        proof {
            let c = before_decode.remaining_raw().take(
                before_decode.remaining_raw().len() - reader.remaining_raw().len(),
            );
            lemma_decode_concat(enc, consumed, c);
            assert(s1 =~= (consumed + c) + reader.remaining_raw());
            assert(reader.window() =~= w0 + decoded_chars(enc, consumed + c));
            consumed = consumed + c;
        }
        if let Err(e) = res {
            proof {
                assert(reader.window() =~= w0 + decoded_chars(enc, consumed) + Seq::<u32>::empty());
                lemma_refill_ok(start, *reader, bom, s1, consumed, Seq::<u32>::empty());
            }
            return Err(e);
        }
        if reader.eof {
            reader.buffer.chars.push(0);
            proof {
                assert(reader.buffer.chars@.skip(0) =~= reader.buffer.chars@);
                assert(reader.window() =~= w0 + decoded_chars(enc, consumed) + seq![0u32]);
                assert(s1 =~= consumed + reader.remaining_raw());
                lemma_refill_ok(start, *reader, bom, s1, consumed, seq![0u32]);
            }
            return Ok(());
        }
        proof {
            if !first_before {
                if raw_full(before_update) {
                    assert(raw_before == INPUT_RAW_BUFFER_SIZE);
                }
            }
        }
    }
    proof {
        assert(reader.window() =~= w0 + decoded_chars(enc, consumed) + Seq::<u32>::empty());
        lemma_refill_ok(start, *reader, bom, s1, consumed, Seq::<u32>::empty());
    }
    if reader.offset >= usize::MAX / 2 {
        return Err(ReaderError { problem: "input is too long", offset: reader.offset, value: -1 });
    }
    Ok(())
}

/// Decodes the raw buffer into characters until it is empty, ends inside a
/// character while more input may follow, or holds an undecodable octet.
pub fn yaml_reader_decode_raw(reader: &mut yaml_reader_t) -> (r: Result<(), ReaderError>)
    requires
        old(reader).wf(),
        old(reader).encoding != yaml_encoding_t::YAML_ANY_ENCODING,
        old(reader).mark.index + old(reader).unread() <= old(reader).offset,
    ensures
        final(reader).wf(),
        final(reader).input == old(reader).input,
        final(reader).has_input == old(reader).has_input,
        final(reader).mark == old(reader).mark,
        final(reader).history == old(reader).history,
        final(reader).eof == old(reader).eof,
        final(reader).encoding == old(reader).encoding,
        final(reader).buffer.pointer == old(reader).buffer.pointer,
        final(reader).mark.index + final(reader).unread() <= final(reader).offset,
        old(reader).remaining_raw().len() >= final(reader).remaining_raw().len(),
        ({
            let c = old(reader).remaining_raw().take(
                old(reader).remaining_raw().len() - final(reader).remaining_raw().len(),
            );
            &&& old(reader).remaining_raw() == c + final(reader).remaining_raw()
            &&& decodes_fully(old(reader).encoding, c)
            &&& final(reader).window() == old(reader).window() + decoded_chars(
                old(reader).encoding,
                c,
            )
            &&& final(reader).offset == old(reader).offset + c.len()
        }),
        final(reader).raw_buffer.bytes.len() - final(reader).raw_buffer.pointer <= old(
            reader,
        ).raw_buffer.bytes.len() - old(reader).raw_buffer.pointer,
        r is Err ==> final(reader).raw_buffer.pointer < final(reader).raw_buffer.bytes.len(),
        r is Ok ==> final(reader).raw_buffer.pointer == final(reader).raw_buffer.bytes.len() || (
        !final(reader).eof && final(reader).raw_buffer.bytes.len() - final(reader).raw_buffer.pointer
            < 4),
        r matches Err(e) ==> (decode_step(
            final(reader).encoding,
            final(reader).remaining_raw(),
            true,
        ) matches DecodeStep::Fail(p, d, v) && e.problem == p && e.value == v && e.offset
            == final(reader).offset + d),
{
    let enc = reader.encoding;
    let ghost rem0 = reader.remaining_raw();
    let ghost mut consumed: Seq<u8> = Seq::empty();
    proof { lemma_decode_empty(enc); }
    assert(rem0 =~= consumed + reader.remaining_raw());
    assert(reader.window() =~= old(reader).window() + decoded_chars(enc, consumed));
    while reader.raw_buffer.pointer != reader.raw_buffer.bytes.len()
        invariant
            reader.wf(),
            reader.input == old(reader).input,
            reader.has_input == old(reader).has_input,
            reader.mark == old(reader).mark,
            reader.history == old(reader).history,
            reader.eof == old(reader).eof,
            reader.encoding == enc,
            enc == old(reader).encoding,
            reader.buffer.pointer == old(reader).buffer.pointer,
            rem0 == old(reader).remaining_raw(),
            rem0 == consumed + reader.remaining_raw(),
            reader.offset == old(reader).offset + consumed.len(),
            decodes_fully(enc, consumed),
            reader.window() == old(reader).window() + decoded_chars(enc, consumed),
            reader.mark.index + reader.unread() <= reader.offset,
            reader.raw_buffer.bytes.len() - reader.raw_buffer.pointer <= old(
                reader,
            ).raw_buffer.bytes.len() - old(reader).raw_buffer.pointer,
        decreases reader.raw_buffer.bytes.len() - reader.raw_buffer.pointer,
    {
        let p = reader.raw_buffer.pointer;
        let ghost seg = reader.raw_buffer.bytes@.skip(p as int);
        let ghost rest_in = reader.input.input@.skip(reader.input.current as int);
        let step = decode_char(enc, &reader.raw_buffer.bytes, p, reader.eof);
        match step {
            DecodeStep::Incomplete => {
                proof {
                    lemma_incomplete_short(enc, seg, reader.eof);
                    assert(rem0.take(rem0.len() - reader.remaining_raw().len()) =~= consumed);
                }
                return Ok(());
            },
            DecodeStep::Fail(problem, d, value) => {
                proof {
                    if reader.eof {
                        assert(rest_in =~= Seq::<u8>::empty());
                        assert(reader.remaining_raw() =~= seg);
                    } else {
                        lemma_fail_extend(enc, seg, rest_in);
                    }
                    lemma_fail_offset(enc, seg, reader.eof);
                    assert(reader.remaining_raw() == seg + rest_in);
                    assert(rem0.take(rem0.len() - reader.remaining_raw().len()) =~= consumed);
                }
                return Err(ReaderError { problem, offset: reader.offset + d, value });
            },
            DecodeStep::Char(v, w) => {
                let ghost old_chars = reader.buffer.chars@;
                proof {
                    lemma_step_width(enc, seg, reader.eof);
                    let c = seg.take(w as int);
                    assert(forall|i: int| 0 <= i < w ==> seg[i] == c[i]);
                    lemma_step_prefix(enc, seg, c, reader.eof, false);
                    lemma_decode_append(enc, consumed, c);
                    assert(reader.remaining_raw() =~= c + (reader.raw_buffer.bytes@.skip(p + w)
                        + rest_in));
                    consumed = consumed + c;
                }
                reader.raw_buffer.pointer = p + w;
                reader.offset = reader.offset + w;
                reader.buffer.chars.push(v);
                proof {
                    assert(reader.remaining_raw() =~= reader.raw_buffer.bytes@.skip(p + w) + rest_in);
                    assert(reader.buffer.chars@.skip(reader.buffer.pointer as int) =~= old_chars.skip(
                        reader.buffer.pointer as int,
                    ).push(v));
                    assert(forall|i: int|
                        0 <= i < reader.buffer.chars.len() ==> #[trigger] reader.buffer.chars@[i]
                            <= 0x10FFFF);
                }
            },
        }
    }
    proof {
        assert(rem0.take(rem0.len() - reader.remaining_raw().len()) =~= consumed);
    }
    Ok(())
}

/// Concatenating two fully decoded runs.
pub proof fn lemma_decode_concat(enc: yaml_encoding_t, a: Seq<u8>, b: Seq<u8>)
    requires
        decodes_fully(enc, a),
        decodes_fully(enc, b),
    ensures
        decodes_fully(enc, a + b),
        decoded_chars(enc, a + b) == decoded_chars(enc, a) + decoded_chars(enc, b),
    decreases b.len(),
{
    if b.len() == 0 {
        assert(a + b =~= a);
        lemma_decode_empty(enc);
        assert(b =~= Seq::<u8>::empty());
        assert(decoded_chars(enc, a) + decoded_chars(enc, b) =~= decoded_chars(enc, a));
    } else {
        lemma_decode_unfold(enc, b);
        lemma_step_width(enc, b, false);
        let w = decode_step(enc, b, false)->Char_1;
        let v = decode_step(enc, b, false)->Char_0;
        let c = b.take(w as int);
        let rest = b.skip(w as int);
        assert(forall|i: int| 0 <= i < w ==> b[i] == c[i]);
        lemma_step_prefix(enc, b, c, false, false);
        lemma_decode_append(enc, a, c);
        lemma_decode_concat(enc, a + c, rest);
        assert(a + b =~= (a + c) + rest);
        assert(decoded_chars(enc, b) =~= seq![v] + decoded_chars(enc, rest));
        assert(decoded_chars(enc, a + b) =~= decoded_chars(enc, a) + decoded_chars(enc, b));
    }
}

/// A refill never makes the measure of the input left grow.
pub proof fn lemma_refill_measure(a: yaml_reader_t, b: yaml_reader_t)
    requires
        refill_relation(a, b),
        a.wf(),
        b.wf(),
    ensures
        b.measure() <= a.measure(),
{
    let c = consumed_raw(a, b);
    lemma_decoded_len(b.encoding, c);
    assert(a.remaining_raw().len() == bom_skipped(a, b) + c.len() + b.remaining_raw().len()) by {
        let x = a.remaining_raw();
        assert(x.take(bom_skipped(a, b) as int).len() == bom_skipped(a, b));
    }
    assert(b.window().len() == b.unread());
    assert(a.window().len() == a.unread());
    if a.raw_done() {
        assert(a.eof);
        assert(a.remaining_raw().len() == 0) by {
            assert(a.input.input@.skip(a.input.current as int).len() == 0);
        }
    }
}

/// A refill keeps the characters not read yet and only appends to them.
pub proof fn lemma_refill_peek(a: yaml_reader_t, b: yaml_reader_t)
    requires
        refill_relation(a, b),
        a.wf(),
        b.wf(),
    ensures
        b.unread() >= a.unread(),
        forall|k: int| 0 <= k < a.unread() ==> #[trigger] b.peek(k) == a.peek(k),
{
    assert(b.window().len() == b.unread());
    assert(a.window().len() == a.unread());
    assert forall|k: int| 0 <= k < a.unread() implies #[trigger] b.peek(k) == a.peek(k) by {
        assert(b.window()[k] == a.window()[k]);
        assert(b.window()[k] == b.buffer.chars@[b.buffer.pointer + k]);
        assert(a.window()[k] == a.buffer.chars@[a.buffer.pointer + k]);
    }
}

/// Once the input is used up, a refill changes nothing that is unread.
pub proof fn lemma_refill_done(a: yaml_reader_t, b: yaml_reader_t)
    requires
        refill_relation(a, b),
        a.wf(),
        b.wf(),
        a.raw_done(),
    ensures
        forall|k: int| #[trigger] b.peek(k) == a.peek(k),
{
    assert(a.input.input@.skip(a.input.current as int).len() == 0);
    assert(a.raw_buffer.bytes@.skip(a.raw_buffer.pointer as int).len() == 0);
    assert(a.remaining_raw().len() == 0);
    let c = consumed_raw(a, b);
    assert(c.len() == 0);
    assert(c =~= Seq::<u8>::empty());
    lemma_decode_empty(b.encoding);
    assert(b.window() =~= a.window());
    assert(b.window().len() == b.unread());
    assert(a.window().len() == a.unread());
    assert forall|k: int| #[trigger] b.peek(k) == a.peek(k) by {
        if 0 <= k < a.unread() {
            assert(b.window()[k] == b.buffer.chars@[b.buffer.pointer + k]);
            assert(a.window()[k] == a.buffer.chars@[a.buffer.pointer + k]);
        }
    }
}

/// Refilling nothing is a refill.
pub proof fn lemma_refill_same(r: yaml_reader_t)
    ensures
        refill_relation(r, r),
{
    lemma_refill_nothing(r);
}

proof fn lemma_refill_nothing(r: yaml_reader_t)
    ensures
        refill_relation(r, r),
{
    let c = consumed_raw(r, r);
    assert(c =~= Seq::<u8>::empty());
    lemma_decode_empty(r.encoding);
    assert(r.remaining_raw().take(0) =~= Seq::<u8>::empty());
    assert(r.remaining_raw() =~= r.remaining_raw().take(0) + c + r.remaining_raw());
    assert(decoded_chars(r.encoding, c) =~= Seq::<u32>::empty());
    assert(r.window() =~= r.window() + decoded_chars(r.encoding, c) + Seq::<u32>::empty());
}

proof fn lemma_refill_ok(
    start: yaml_reader_t,
    fin: yaml_reader_t,
    bom: nat,
    s1: Seq<u8>,
    consumed: Seq<u8>,
    tail: Seq<u32>,
)
    requires
        fin.input.input@ == start.input.input@,
        fin.has_input == start.has_input,
        fin.mark == start.mark,
        fin.history == start.history,
        start.encoding != yaml_encoding_t::YAML_ANY_ENCODING ==> fin.encoding == start.encoding,
        start.encoding == yaml_encoding_t::YAML_ANY_ENCODING ==> fin.encoding == detect_encoding(
            start.remaining_raw(),
        ).0,
        bom == bom_skipped(start, fin),
        start.remaining_raw() == start.remaining_raw().take(bom as int) + s1,
        s1 == consumed + fin.remaining_raw(),
        fin.offset == start.offset + bom + consumed.len(),
        decodes_fully(fin.encoding, consumed),
        tail == if fin.raw_done() && !start.raw_done() {
            seq![0u32]
        } else {
            Seq::<u32>::empty()
        },
        fin.window() == start.window() + decoded_chars(fin.encoding, consumed) + tail,
        start.eof ==> fin.eof,
    ensures
        refill_relation(start, fin),
{
    lemma_consumed_is(start, fin, bom, s1, consumed);
    let a = start.remaining_raw();
    assert(a =~= a.take(bom as int) + consumed_raw(start, fin) + fin.remaining_raw());
}

proof fn lemma_consumed_is(
    start: yaml_reader_t,
    cur: yaml_reader_t,
    bom: nat,
    s1: Seq<u8>,
    consumed: Seq<u8>,
)
    requires
        bom == bom_skipped(start, cur),
        start.remaining_raw() == start.remaining_raw().take(bom as int) + s1,
        s1 == consumed + cur.remaining_raw(),
    ensures
        consumed_raw(start, cur) == consumed,
        start.remaining_raw().len() >= bom + cur.remaining_raw().len(),
{
    let a = start.remaining_raw();
    assert(a.subrange(bom as int, (a.len() - cur.remaining_raw().len()) as int) =~= consumed);
}

} // verus!

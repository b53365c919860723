use vstd::prelude::*;
use crate::chars::{
    valid_utf8, spec_utf8_width, spec_seq_value, first_char_ok, is_trailing, utf8_width,
    lead_value, value_bound,
};
use crate::types::{
    yaml_encoding_t, yaml_break_t, yaml_error_type_t, yaml_event_t, yaml_emitter_state_t,
    yaml_emitter_state_stack_t, yaml_tag_directive_stack_t,
};

verus! {

/// The string an emitter writes to: what was written so far, and how many
/// octets it can hold.
#[derive(Clone, Debug)]
pub struct yaml_emitter_output_string_t {
    pub written: Vec<u8>,
    pub size: usize,
}

/// The events an emitter has been given and not yet processed.
#[derive(Clone, Debug)]
pub struct yaml_event_queue_t {
    pub items: Vec<yaml_event_t>,
}

/// What the dumper knows of a node: how often it is referred to, its
/// anchor id (0 for none) and whether it was serialized.
#[derive(Clone, Copy, Debug, PartialEq, Eq, Structural)]
pub struct yaml_anchors_t {
    pub references: i32,
    pub anchor: i32,
    pub serialized: bool,
}

/// An emitter: error report, output, settings, the events it was given and
/// the state of the dumper.
pub struct yaml_emitter_t {
    pub error: yaml_error_type_t,
    pub problem: Option<&'static str>,
    pub output: yaml_emitter_output_string_t,
    pub has_output: bool,
    pub buffer: Vec<u8>,
    pub raw_buffer: Vec<u8>,
    pub encoding: yaml_encoding_t,
    pub canonical: bool,
    pub best_indent: i32,
    pub best_width: i32,
    pub unicode: bool,
    pub line_break: yaml_break_t,
    pub states: yaml_emitter_state_stack_t,
    pub state: yaml_emitter_state_t,
    pub events: yaml_event_queue_t,
    pub tag_directives: yaml_tag_directive_stack_t,
    pub opened: bool,
    pub closed: bool,
    pub anchors: Vec<yaml_anchors_t>,
    pub last_anchor_id: i32,
}

/// An emitter as `yaml_emitter_initialize` makes it.
pub open spec fn is_fresh_emitter(e: yaml_emitter_t) -> bool {
    &&& e.error == yaml_error_type_t::YAML_NO_ERROR
    &&& e.problem is None
    &&& e.output.written@.len() == 0
    &&& e.output.size == 0
    &&& !e.has_output
    &&& e.buffer@.len() == 0
    &&& e.raw_buffer@.len() == 0
    &&& e.encoding == yaml_encoding_t::YAML_ANY_ENCODING
    &&& !e.canonical
    &&& e.best_indent == 0
    &&& e.best_width == 0
    &&& !e.unicode
    &&& e.line_break == yaml_break_t::YAML_ANY_BREAK
    &&& e.states.items@.len() == 0
    &&& e.state == yaml_emitter_state_t::YAML_EMIT_STREAM_START_STATE
    &&& e.events.items@.len() == 0
    &&& e.tag_directives.items@.len() == 0
    &&& !e.opened
    &&& !e.closed
    &&& e.anchors@.len() == 0
    &&& e.last_anchor_id == 0
}

/// Makes an emitter with no output and default settings.
pub fn yaml_emitter_initialize() -> (emitter: yaml_emitter_t)
    ensures
        is_fresh_emitter(emitter),
{
    yaml_emitter_t {
        error: yaml_error_type_t::YAML_NO_ERROR,
        problem: None,
        output: yaml_emitter_output_string_t { written: Vec::new(), size: 0 },
        has_output: false,
        buffer: Vec::new(),
        raw_buffer: Vec::new(),
        encoding: yaml_encoding_t::YAML_ANY_ENCODING,
        canonical: false,
        best_indent: 0,
        best_width: 0,
        unicode: false,
        line_break: yaml_break_t::YAML_ANY_BREAK,
        states: yaml_emitter_state_stack_t { items: Vec::new() },
        state: yaml_emitter_state_t::YAML_EMIT_STREAM_START_STATE,
        events: yaml_event_queue_t { items: Vec::new() },
        tag_directives: yaml_tag_directive_stack_t { items: Vec::new() },
        opened: false,
        closed: false,
        anchors: Vec::new(),
        last_anchor_id: 0,
    }
}

/// Releases what the emitter holds and leaves it as a fresh emitter.
pub fn yaml_emitter_delete(emitter: &mut yaml_emitter_t)
    ensures
        is_fresh_emitter(*final(emitter)),
{
    *emitter = yaml_emitter_initialize();
}

/// Makes the emitter write to a string of at most `size` octets (empty
/// so far).
pub fn yaml_emitter_set_output_string(emitter: &mut yaml_emitter_t, size: usize)
    requires
        !old(emitter).has_output,
    ensures
        final(emitter).has_output,
        final(emitter).output.size == size,
        final(emitter).output.written@.len() == 0,
        *final(emitter) == (yaml_emitter_t {
            has_output: true,
            output: final(emitter).output,
            ..*old(emitter)
        }),
{
    emitter.output = yaml_emitter_output_string_t { written: Vec::new(), size };
    emitter.has_output = true;
}

/// Sets the encoding of the output of an emitter whose encoding is not set.
pub fn yaml_emitter_set_encoding(emitter: &mut yaml_emitter_t, encoding: yaml_encoding_t)
    requires
        old(emitter).encoding == yaml_encoding_t::YAML_ANY_ENCODING,
    ensures
        *final(emitter) == (yaml_emitter_t { encoding, ..*old(emitter) }),
{
    emitter.encoding = encoding;
}

/// Sets whether the output is canonical (any nonzero value sets it).
pub fn yaml_emitter_set_canonical(emitter: &mut yaml_emitter_t, canonical: i32)
    ensures
        *final(emitter) == (yaml_emitter_t { canonical: canonical != 0, ..*old(emitter) }),
{
    emitter.canonical = canonical != 0;
}

/// The indentation an emitter uses for a requested one: the request when
/// it is from 2 to 9, else 2.
pub open spec fn indent_for(indent: i32) -> i32 {
    if 1 < indent < 10 {
        indent
    } else {
        2
    }
}

/// Sets the indentation step (2 to 9; any other request gives 2).
pub fn yaml_emitter_set_indent(emitter: &mut yaml_emitter_t, indent: i32)
    ensures
        *final(emitter) == (yaml_emitter_t { best_indent: indent_for(indent), ..*old(emitter) }),
{
    emitter.best_indent = if indent > 1 && indent < 10 {
        indent
    } else {
        2
    };
}

/// The line width an emitter uses for a requested one: the request when
/// it is not negative, else -1 (no limit).
pub open spec fn width_for(width: i32) -> i32 {
    if width >= 0 {
        width
    } else {
        -1i32
    }
}

/// Sets the preferred line width (a negative request means no limit).
pub fn yaml_emitter_set_width(emitter: &mut yaml_emitter_t, width: i32)
    ensures
        *final(emitter) == (yaml_emitter_t { best_width: width_for(width), ..*old(emitter) }),
{
    emitter.best_width = if width >= 0 {
        width
    } else {
        -1
    };
}

/// Sets whether characters outside ASCII are written as they are (any
/// nonzero value sets it).
pub fn yaml_emitter_set_unicode(emitter: &mut yaml_emitter_t, unicode: i32)
    ensures
        *final(emitter) == (yaml_emitter_t { unicode: unicode != 0, ..*old(emitter) }),
{
    emitter.unicode = unicode != 0;
}

/// Sets the line break the emitter writes.
pub fn yaml_emitter_set_break(emitter: &mut yaml_emitter_t, line_break: yaml_break_t)
    ensures
        *final(emitter) == (yaml_emitter_t { line_break, ..*old(emitter) }),
{
    emitter.line_break = line_break;
}

// ---------------------------------------------------------------------------
// Writer
// ---------------------------------------------------------------------------

/// Records a writer error.
pub fn yaml_emitter_set_writer_error(emitter: &mut yaml_emitter_t, problem: &'static str) -> (r: bool)
    ensures
        !r,
        *final(emitter) == (yaml_emitter_t {
            error: yaml_error_type_t::YAML_WRITER_ERROR,
            problem: Some(problem),
            ..*old(emitter)
        }),
{
    emitter.error = yaml_error_type_t::YAML_WRITER_ERROR;
    emitter.problem = Some(problem);
    false
}

/// What writing `data` to an output string gives: as much of it as fits.
pub open spec fn written_after(out: yaml_emitter_output_string_t, data: Seq<u8>) -> Seq<u8> {
    let room = out.size - out.written@.len();
    if data.len() <= room {
        out.written@ + data
    } else {
        out.written@ + data.take(room)
    }
}

/// Appends `data` to the output string; when it does not all fit, appends
/// what fits and returns `false`.
pub fn yaml_string_write_handler(output: &mut yaml_emitter_output_string_t, data: &Vec<u8>) -> (r: bool)
    requires
        old(output).written@.len() <= old(output).size,
    ensures
        r == (data@.len() <= old(output).size - old(output).written@.len()),
        final(output).size == old(output).size,
        final(output).written@ == written_after(*old(output), data@),
        final(output).written@.len() <= final(output).size,
{
    let room = output.size - output.written.len();
    let n = if data.len() <= room {
        data.len()
    } else {
        room
    };
    let ghost w0 = output.written@;
    let mut i: usize = 0;
    while i < n
        invariant
            i <= n <= data@.len(),
            n <= room,
            room == old(output).size - w0.len(),
            output.size == old(output).size,
            output.written@ == w0 + data@.take(i as int),
        decreases n - i,
    {
        output.written.push(data[i]);
        i = i + 1;
        assert(output.written@ =~= w0 + data@.take(i as int));
    }
    assert(data@.take(data@.len() as int) =~= data@);
    data.len() <= room
}

/// The two octets of a UTF-16 code unit, in the order of the encoding.
pub open spec fn unit_octets(unit: int, le: bool) -> Seq<u8> {
    if le {
        seq![(unit % 256) as u8, ((unit / 256) % 256) as u8]
    } else {
        seq![((unit / 256) % 256) as u8, (unit % 256) as u8]
    }
}

/// The UTF-16 octets of the code point `v`: one unit, or for a value past
/// 0xFFFF a surrogate pair, 0xD800 plus the high ten bits of `v - 0x10000`,
/// then 0xDC00 plus its low ten bits.
pub open spec fn utf16_octets(v: nat, le: bool) -> Seq<u8> {
    if v < 0x10000 {
        unit_octets(v as int, le)
    } else {
        let w = v - 0x10000;
        unit_octets(0xD800 + w / 1024, le) + unit_octets(0xDC00 + w % 1024, le)
    }
}

/// The UTF-16 octets the writer produces for UTF-8 octets `s`.
pub open spec fn utf16_output(s: Seq<u8>, le: bool) -> Seq<u8>
    decreases s.len(),
{
    if s.len() == 0 {
        Seq::empty()
    } else {
        let w = spec_utf8_width(s[0]);
        if w == 0 || w > s.len() {
            Seq::empty()
        } else {
            utf16_octets(spec_seq_value(s, w), le) + utf16_output(s.skip(w as int), le)
        }
    }
}

/// Decodes the UTF-8 sequence at `p`: its width and its value.
fn decode_at(s: &Vec<u8>, p: usize) -> (r: (usize, u32))
    requires
        p < s@.len(),
        valid_utf8(s@.skip(p as int)),
    ensures
        r.0 == spec_utf8_width(s@[p as int]),
        1 <= r.0 <= 4,
        p + r.0 <= s@.len(),
        r.1 == spec_seq_value(s@.skip(p as int), r.0 as nat),
        r.1 < 33554432,
        valid_utf8(s@.skip(p + r.0)),
{
    let ghost t = s@.skip(p as int);
    assert(t[0] == s@[p as int]);
    assert(first_char_ok(t));
    let width = utf8_width(s[p]);
    let mut value: u32 = lead_value(s[p]);
    let mut k: usize = 1;
    while k < width
        invariant
            1 <= k <= width,
            width == spec_utf8_width(t[0]),
            1 <= width <= 4,
            p + width <= s.len(),
            t == s@.skip(p as int),
            first_char_ok(t),
            value == spec_seq_value(t, k as nat),
            value < value_bound(k as nat),
        decreases width - k,
    {
        let o = s[p + k];
        assert(o == t[k as int]);
        assert(is_trailing(t[k as int]));
        value = value * 64 + (o % 64) as u32;
        k = k + 1;
    }
    assert(t.skip(width as int) =~= s@.skip(p + width));
    (width, value)
}

/// Appends the two octets of the UTF-16 code unit `unit`.
fn push_unit(raw: &mut Vec<u8>, unit: u32, le: bool)
    ensures
        final(raw)@ == old(raw)@ + unit_octets(unit as int, le),
{
    let hi = ((unit / 256) % 256) as u8;
    let lo = (unit % 256) as u8;
    if le {
        raw.push(lo);
        raw.push(hi);
    } else {
        raw.push(hi);
        raw.push(lo);
    }
    assert(final(raw)@ =~= old(raw)@ + unit_octets(unit as int, le));
}

/// Appends the UTF-16 octets of the code point `v`.
fn push_utf16(raw: &mut Vec<u8>, v: u32, le: bool)
    requires
        v < 33554432,
    ensures
        final(raw)@ == old(raw)@ + utf16_octets(v as nat, le),
{
    if v < 0x10000 {
        push_unit(raw, v, le);
    } else {
        let w = v - 0x10000;
        push_unit(raw, 0xD800 + w / 1024, le);
        push_unit(raw, 0xDC00 + w % 1024, le);
        assert(final(raw)@ =~= old(raw)@ + utf16_octets(v as nat, le));
    }
}

/// The octets a flush sends: the pending UTF-8 octets themselves, or, for
/// a UTF-16 output, what the raw buffer holds followed by their UTF-16
/// form.
pub open spec fn flush_data(e: yaml_emitter_t) -> Seq<u8> {
    if e.encoding == yaml_encoding_t::YAML_UTF8_ENCODING {
        e.buffer@
    } else {
        e.raw_buffer@ + utf16_output(
            e.buffer@,
            e.encoding == yaml_encoding_t::YAML_UTF16LE_ENCODING,
        )
    }
}

/// Writes the pending output to the output string, re-encoded when the
/// output is UTF-16. When not all of it fits, what fits is written and a
/// writer error is recorded; the pending octets are then kept.
pub fn yaml_emitter_flush(emitter: &mut yaml_emitter_t) -> (r: bool)
    requires
        old(emitter).has_output,
        old(emitter).encoding != yaml_encoding_t::YAML_ANY_ENCODING,
        old(emitter).output.written@.len() <= old(emitter).output.size,
        old(emitter).encoding != yaml_encoding_t::YAML_UTF8_ENCODING ==> valid_utf8(
            old(emitter).buffer@,
        ),
    ensures
        final(emitter).output.written@.len() <= final(emitter).output.size,
        old(emitter).buffer@.len() == 0 ==> r && *final(emitter) == *old(emitter),
        old(emitter).buffer@.len() > 0 ==> {
            &&& r == (flush_data(*old(emitter)).len() <= old(emitter).output.size
                - old(emitter).output.written@.len())
            &&& final(emitter).output.written@ == written_after(
                old(emitter).output,
                flush_data(*old(emitter)),
            )
            &&& final(emitter).output.size == old(emitter).output.size
            &&& r ==> {
                &&& final(emitter).buffer@.len() == 0
                &&& final(emitter).raw_buffer@.len() == 0
                &&& *final(emitter) == (yaml_emitter_t {
                    output: final(emitter).output,
                    buffer: final(emitter).buffer,
                    raw_buffer: final(emitter).raw_buffer,
                    ..*old(emitter)
                })
            }
            &&& !r ==> {
                &&& final(emitter).buffer == old(emitter).buffer
                &&& final(emitter).raw_buffer@ == if old(emitter).encoding
                    == yaml_encoding_t::YAML_UTF8_ENCODING {
                    old(emitter).raw_buffer@
                } else {
                    flush_data(*old(emitter))
                }
                &&& *final(emitter) == (yaml_emitter_t {
                    error: yaml_error_type_t::YAML_WRITER_ERROR,
                    problem: Some("write error"),
                    output: final(emitter).output,
                    raw_buffer: final(emitter).raw_buffer,
                    ..*old(emitter)
                })
            }
        },
{
    if emitter.buffer.len() == 0 {
        return true;
    }
    if emitter.encoding == yaml_encoding_t::YAML_UTF8_ENCODING {
        if yaml_string_write_handler(&mut emitter.output, &emitter.buffer) {
            emitter.buffer = Vec::new();
            emitter.raw_buffer = Vec::new();
            return true;
        } else {
            return yaml_emitter_set_writer_error(emitter, "write error");
        }
    }
    let le = emitter.encoding == yaml_encoding_t::YAML_UTF16LE_ENCODING;
    let ghost raw0 = emitter.raw_buffer@;
    let ghost buf = emitter.buffer@;
    let mut p: usize = 0;
    assert(buf.skip(0) =~= buf);
    while p < emitter.buffer.len()
        invariant
            p <= emitter.buffer@.len(),
            emitter.buffer@ == buf,
            valid_utf8(buf.skip(p as int)),
            emitter.raw_buffer@ + utf16_output(buf.skip(p as int), le) == raw0 + utf16_output(
                buf,
                le,
            ),
            *emitter == (yaml_emitter_t { raw_buffer: emitter.raw_buffer, ..*old(emitter) }),
        decreases emitter.buffer@.len() - p,
    {
        let (w, v) = decode_at(&emitter.buffer, p);
        let ghost t = buf.skip(p as int);
        assert(t[0] == buf[p as int]);
        assert(t.skip(w as int) =~= buf.skip(p + w));
        assert(utf16_output(t, le) == utf16_octets(v as nat, le) + utf16_output(
            buf.skip(p + w),
            le,
        ));
        let ghost before = emitter.raw_buffer@;
        push_utf16(&mut emitter.raw_buffer, v, le);
        assert(emitter.raw_buffer@ + utf16_output(buf.skip(p + w), le) =~= before + utf16_output(
            t,
            le,
        ));
        p = p + w;
    }
    assert(buf.skip(p as int).len() == 0);
    assert(emitter.raw_buffer@ =~= raw0 + utf16_output(buf, le));
    if yaml_string_write_handler(&mut emitter.output, &emitter.raw_buffer) {
        emitter.buffer = Vec::new();
        emitter.raw_buffer = Vec::new();
        true
    } else {
        yaml_emitter_set_writer_error(emitter, "write error")
    }
}

} // verus!

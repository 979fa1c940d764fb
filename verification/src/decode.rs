//! Field decoding: one schema line applied to one decode window.
//!
//! Each field reads its declared bit width at the running cursor and
//! renders one output line.  A field whose width runs past the end of
//! the window renders a fixed diagnostic line instead; the cursor is
//! advanced by the declared width either way.

use crate::bits::{be_value, bit_at, le_value, lsb_value, read_be_bits, read_bit, read_le_bytes,
    read_lsb_bits};
use crate::render::{additional_text, bitpos_text, bool_text, count_lines_spec, format_number,
    format_number_text, lemma_nl_count_add, lemma_nl_count_bitpos, lemma_nl_count_digits,
    lemma_nl_count_format_number, lemma_nl_count_none, nl_count, num_ascii, pow2_u128,
    push_bool_text, push_num, push_str_bytes, Format};
use crate::args::Args;
use crate::pipeline::Stats;
use crate::schema::{all_lines_parse, declared_bits, kind_of, kind_of_token, kind_width,
    kind_width_bits, line_format, line_has_sep, line_kind_token, line_len, line_name, line_width,
    parse_config_line, saturate_usize, schema_bytes, string_bytes, FieldKind, SchemaError};
use vstd::arithmetic::power2::*;
use vstd::prelude::*;
use vstd::string::StringSliceAdditionalSpecFns;

verus! {

broadcast use vstd::string::group_string_axioms;

/// Whether a field of `width` bits starting at `pos` lies inside the
/// window; the second bound is the machine limit on bit positions.
pub open spec fn fits(chunk: Seq<u8>, pos: nat, width: nat) -> bool {
    pos + width <= chunk.len() * 8 && pos + width <= usize::MAX
}

/// The cursor after a field of `width` bits, clipped to a machine word.
pub open spec fn advance(pos: usize, width: nat) -> usize {
    saturate_usize((pos + width) as nat)
}

/// The diagnostic line printed in place of a value that does not fit in
/// what is left of the window.
pub open spec fn diag_text() -> Seq<u8> {
    "values size is bigger than what is left of that data chunk\n".spec_bytes()
}

/// The line a gap field renders: the consumed bit count, no value.
pub open spec fn gap_text(nbits: nat) -> Seq<u8> {
    "(gap of ".spec_bytes() + num_ascii(nbits, 10, 1) + " bit)\n".spec_bytes()
}

/// The raw unsigned value of a fixed-width integer field: the bit
/// window read in big-endian bit order, or reassembled from its bytes
/// in little-endian order.
pub open spec fn int_field_value(chunk: Seq<u8>, pos: int, width: nat, le: bool) -> nat
    recommends
        width % 8 == 0,
{
    if le {
        le_value(chunk, pos, width / 8)
    } else {
        be_value(chunk, pos, width)
    }
}

/// Append the diagnostic line.
pub fn push_diag(out: &mut Vec<u8>)
    ensures
        final(out)@ == old(out)@ + diag_text(),
{
    push_str_bytes(out, "values size is bigger than what is left of that data chunk\n");
}

/// Whether `width` more bits fit in the window at cursor `pos`.
pub fn fits_at(chunk: &[u8], pos: usize, width: u128) -> (b: bool)
    requires
        pos + width <= u128::MAX,
    ensures
        b == fits(chunk@, pos as nat, width as nat),
{
    let bits = (chunk.len() as u128) * 8;
    (pos as u128) + width <= bits && (pos as u128) + width <= (usize::MAX as u128)
}

/// Decode one fixed-width integer field and append its rendered line,
/// or the diagnostic when the field does not fit.  Returns the declared
/// width, by which the caller advances the cursor.
pub fn write_integer_data(
    chunk: &[u8],
    bitpos_in_chunk: usize,
    width: usize,
    signed: bool,
    out: &mut Vec<u8>,
    format: Format,
    little_endian: bool,
) -> (advanced: usize)
    requires
        width == 8 || width == 16 || width == 32 || width == 64 || width == 128,
    ensures
        advanced == width,
        final(out)@ == old(out)@ + (if fits(chunk@, bitpos_in_chunk as nat, width as nat) {
            format_number_text(
                int_field_value(chunk@, bitpos_in_chunk as int, width as nat, little_endian),
                width as nat,
                signed,
                format,
            ) + "\n".spec_bytes()
        } else {
            diag_text()
        }),
{
    if fits_at(chunk, bitpos_in_chunk, width as u128) {
        let v: u128 = if little_endian {
            read_le_bytes(chunk, bitpos_in_chunk, width / 8)
        } else {
            read_be_bits(chunk, bitpos_in_chunk, width)
        };
        proof {
            assert((width / 8) * 8 == width);
        }
        format_number(out, v, width, signed, format);
        push_str_bytes(out, "\n");
    } else {
        push_diag(out);
    }
    width
}

/// Decode one gap field: consume `len` units of `typelen` bits without
/// reading a value, and append the gap line (or the diagnostic when the
/// gap does not fit).  Returns the consumed bit count.
pub fn write_gap(
    chunk: &[u8],
    bitpos_in_chunk: usize,
    out: &mut Vec<u8>,
    len: usize,
    typelen: usize,
) -> (advanced: u128)
    requires
        typelen == 1 || typelen == 8,
    ensures
        advanced == len * typelen,
        final(out)@ == old(out)@ + (if fits(
            chunk@,
            bitpos_in_chunk as nat,
            (len * typelen) as nat,
        ) {
            gap_text((len * typelen) as nat)
        } else {
            diag_text()
        }),
{
    let nbits: u128 = (len as u128) * (typelen as u128);
    if fits_at(chunk, bitpos_in_chunk, nbits) {
        push_str_bytes(out, "(gap of ");
        push_num(out, nbits, 10, 1);
        push_str_bytes(out, " bit)\n");
    } else {
        push_diag(out);
    }
    nbits
}

/// What decoding one line asks of the caller beyond the text pushed:
/// nothing, a float value to render (the library hands the raw bit
/// pattern out), or an unrecognized kind to report on the error
/// channel.
#[derive(Debug, PartialEq, Eq, Structural, Clone, Copy)]
pub enum LineEvent {
    Done,
    Float32(u32),
    Float64(u64),
    UnknownKind,
}

/// Rendering of one byte of a string field: kept as is when ASCII,
/// dropped when it is a filtered newline, and the replacement character
/// otherwise.
pub open spec fn byte_char_text(b: nat, filter_nl: bool) -> Seq<u8> {
    if b >= 128 {
        seq![0xefu8, 0xbfu8, 0xbdu8]
    } else if filter_nl && b == 10 {
        Seq::empty()
    } else {
        seq![b as u8]
    }
}

/// Rendering of a string field: `len` bytes read at the cursor, each
/// rendered on its own.
pub open spec fn string_field_text(chunk: Seq<u8>, pos: int, len: nat, filter_nl: bool) -> Seq<u8>
    decreases len,
{
    if len == 0 {
        Seq::empty()
    } else {
        string_field_text(chunk, pos, (len - 1) as nat, filter_nl) + byte_char_text(
            be_value(chunk, pos + 8 * (len - 1), 8),
            filter_nl,
        )
    }
}

/// Rendering of a signed arbitrary-width integer: the bits are read
/// least-significant-first; the last bit read is the sign, and a set
/// sign means the two's-complement value `u - 2^len`.
pub open spec fn iarb_text(chunk: Seq<u8>, pos: int, len: nat) -> Seq<u8>
    recommends
        1 <= len <= 128,
{
    let u = lsb_value(chunk, pos, len);
    if bit_at(chunk, pos + len - 1) {
        "-".spec_bytes() + num_ascii((pow2(len) - u) as nat, 10, 1)
    } else {
        num_ascii(u, 10, 1)
    }
}

/// Rendering of one fixed-width integer field, or the diagnostic when
/// it does not fit.
pub open spec fn fixed_int_output(
    chunk: Seq<u8>,
    pos: usize,
    width: nat,
    signed: bool,
    form: Format,
    le: bool,
) -> Seq<u8> {
    if fits(chunk, pos as nat, width) {
        format_number_text(int_field_value(chunk, pos as int, width, le), width, signed, form)
            + "\n".spec_bytes()
    } else {
        diag_text()
    }
}

/// The value part of the line one field renders.  Float kinds render
/// nothing here: the caller receives their raw bit pattern through the
/// line event and prints the value itself.
pub open spec fn value_output(
    k: FieldKind,
    form: Format,
    len: usize,
    chunk: Seq<u8>,
    pos: usize,
    le: bool,
    filter_nl: bool,
) -> Seq<u8> {
    match k {
        FieldKind::Bool1 => if fits(chunk, pos as nat, 1) {
            bool_text(bit_at(chunk, pos as int)) + "\n".spec_bytes()
        } else {
            diag_text()
        },
        FieldKind::Bool8 => if fits(chunk, pos as nat, 8) {
            bool_text(be_value(chunk, pos as int, 8) > 0) + "\n".spec_bytes()
        } else {
            diag_text()
        },
        FieldKind::UInt8 => fixed_int_output(chunk, pos, 8, false, form, le),
        FieldKind::Int8 => fixed_int_output(chunk, pos, 8, true, form, le),
        FieldKind::UInt16 => fixed_int_output(chunk, pos, 16, false, form, le),
        FieldKind::Int16 => fixed_int_output(chunk, pos, 16, true, form, le),
        FieldKind::UInt32 => fixed_int_output(chunk, pos, 32, false, form, le),
        FieldKind::Int32 => fixed_int_output(chunk, pos, 32, true, form, le),
        FieldKind::UInt64 => fixed_int_output(chunk, pos, 64, false, form, le),
        FieldKind::Int64 => fixed_int_output(chunk, pos, 64, true, form, le),
        FieldKind::UInt128 => fixed_int_output(chunk, pos, 128, false, form, le),
        FieldKind::Int128 => fixed_int_output(chunk, pos, 128, true, form, le),
        FieldKind::Float32 => if fits(chunk, pos as nat, 32) {
            Seq::empty()
        } else {
            diag_text()
        },
        FieldKind::Float64 => if fits(chunk, pos as nat, 64) {
            Seq::empty()
        } else {
            diag_text()
        },
        FieldKind::Text => if fits(chunk, pos as nat, (len * 8) as nat) {
            string_field_text(chunk, pos as int, len as nat, filter_nl) + "\n".spec_bytes()
        } else {
            diag_text()
        },
        FieldKind::IntArb => if fits(chunk, pos as nat, len as nat) {
            iarb_text(chunk, pos as int, len as nat) + "\n".spec_bytes()
        } else {
            diag_text()
        },
        FieldKind::UIntArb => if fits(chunk, pos as nat, len as nat) {
            num_ascii(lsb_value(chunk, pos as int, len as nat), 10, 1) + "\n".spec_bytes()
        } else {
            diag_text()
        },
        FieldKind::ByteGap => if fits(chunk, pos as nat, (len * 8) as nat) {
            gap_text((len * 8) as nat)
        } else {
            diag_text()
        },
        FieldKind::BitGap => if fits(chunk, pos as nat, len as nat) {
            gap_text(len as nat)
        } else {
            diag_text()
        },
        FieldKind::Unknown => Seq::empty(),
    }
}

/// The event one field hands back: float kinds hand out their raw bit
/// pattern when they fit, an unrecognized kind is reported, and every
/// other case is complete after the pushed text.
pub open spec fn value_event(k: FieldKind, chunk: Seq<u8>, pos: usize, le: bool) -> LineEvent {
    if k == FieldKind::Unknown {
        LineEvent::UnknownKind
    } else if k == FieldKind::Float32 && fits(chunk, pos as nat, 32) {
        LineEvent::Float32(int_field_value(chunk, pos as int, 32, le) as u32)
    } else if k == FieldKind::Float64 && fits(chunk, pos as nat, 64) {
        LineEvent::Float64(int_field_value(chunk, pos as int, 64, le) as u64)
    } else {
        LineEvent::Done
    }
}

/// The whole text one schema line renders at the given cursor: the
/// field name, `: `, and the value part.  An unrecognized kind renders
/// nothing.
pub open spec fn line_output(
    line: Seq<u8>,
    chunk: Seq<u8>,
    pos: usize,
    le: bool,
    filter_nl: bool,
) -> Seq<u8>
    recommends
        line_has_sep(line),
{
    let k = kind_of(line_kind_token(line));
    if k == FieldKind::Unknown {
        Seq::empty()
    } else {
        line_name(line) + ": ".spec_bytes() + value_output(
            k,
            line_format(line),
            line_len(line),
            chunk,
            pos,
            le,
            filter_nl,
        )
    }
}

/// The event one schema line hands back at the given cursor.
pub open spec fn line_event(line: Seq<u8>, chunk: Seq<u8>, pos: usize, le: bool) -> LineEvent {
    value_event(kind_of(line_kind_token(line)), chunk, pos, le)
}

/// Schema-side bounds that field decoding needs: an arbitrary-width
/// integer is at most 128 bits wide, and a signed one has at least its
/// sign bit.
pub open spec fn line_decodable(line: Seq<u8>) -> bool {
    line_has_sep(line) ==> {
        let k = kind_of(line_kind_token(line));
        &&& (k == FieldKind::IntArb ==> 1 <= line_len(line) <= 128)
        &&& (k == FieldKind::UIntArb ==> line_len(line) <= 128)
    }
}

/// A set sign bit puts the value at or above `2^(width-1)`.
proof fn lemma_lsb_high_bit(bytes: Seq<u8>, start: int, width: nat)
    requires
        width >= 1,
        bit_at(bytes, start + width - 1),
    ensures
        lsb_value(bytes, start, width) >= pow2((width - 1) as nat),
    decreases width,
{
    if width == 1 {
        lemma2_to64();
    } else {
        lemma_lsb_high_bit(bytes, start + 1, (width - 1) as nat);
        lemma_pow2_unfold((width - 1) as nat);
    }
}

fn advance_cursor(pos: usize, width: u128) -> (r: usize)
    requires
        pos + width <= u128::MAX,
    ensures
        r == advance(pos, width as nat),
{
    let wide = (pos as u128) + width;
    if wide > (usize::MAX as u128) {
        usize::MAX
    } else {
        wide as usize
    }
}

/// Render the value part of one field and return its event.
fn write_value(
    kind: FieldKind,
    form: Format,
    len: usize,
    chunk: &[u8],
    pos: usize,
    out: &mut Vec<u8>,
    little_endian: bool,
    filter_newlines: bool,
) -> (ev: LineEvent)
    requires
        kind != FieldKind::Unknown,
        kind == FieldKind::IntArb ==> 1 <= len <= 128,
        kind == FieldKind::UIntArb ==> len <= 128,
    ensures
        final(out)@ == old(out)@ + value_output(
            kind,
            form,
            len,
            chunk@,
            pos,
            little_endian,
            filter_newlines,
        ),
        ev == value_event(kind, chunk@, pos, little_endian),
{
    match kind {
        FieldKind::Bool1 => {
            if fits_at(chunk, pos, 1) {
                let b = read_bit(chunk, pos);
                push_bool_text(out, b);
                push_str_bytes(out, "\n");
            } else {
                push_diag(out);
            }
            LineEvent::Done
        },
        FieldKind::Bool8 => {
            if fits_at(chunk, pos, 8) {
                let v = read_be_bits(chunk, pos, 8);
                push_bool_text(out, v > 0);
                push_str_bytes(out, "\n");
            } else {
                push_diag(out);
            }
            LineEvent::Done
        },
        FieldKind::UInt8 => {
            write_integer_data(chunk, pos, 8, false, out, form, little_endian);
            LineEvent::Done
        },
        FieldKind::Int8 => {
            write_integer_data(chunk, pos, 8, true, out, form, little_endian);
            LineEvent::Done
        },
        FieldKind::UInt16 => {
            write_integer_data(chunk, pos, 16, false, out, form, little_endian);
            LineEvent::Done
        },
        FieldKind::Int16 => {
            write_integer_data(chunk, pos, 16, true, out, form, little_endian);
            LineEvent::Done
        },
        FieldKind::UInt32 => {
            write_integer_data(chunk, pos, 32, false, out, form, little_endian);
            LineEvent::Done
        },
        FieldKind::Int32 => {
            write_integer_data(chunk, pos, 32, true, out, form, little_endian);
            LineEvent::Done
        },
        FieldKind::UInt64 => {
            write_integer_data(chunk, pos, 64, false, out, form, little_endian);
            LineEvent::Done
        },
        FieldKind::Int64 => {
            write_integer_data(chunk, pos, 64, true, out, form, little_endian);
            LineEvent::Done
        },
        FieldKind::UInt128 => {
            write_integer_data(chunk, pos, 128, false, out, form, little_endian);
            LineEvent::Done
        },
        FieldKind::Int128 => {
            write_integer_data(chunk, pos, 128, true, out, form, little_endian);
            LineEvent::Done
        },
        FieldKind::Float32 => {
            if fits_at(chunk, pos, 32) {
                let v: u128 = if little_endian {
                    read_le_bytes(chunk, pos, 4)
                } else {
                    read_be_bits(chunk, pos, 32)
                };
                LineEvent::Float32(v as u32)
            } else {
                push_diag(out);
                LineEvent::Done
            }
        },
        FieldKind::Float64 => {
            if fits_at(chunk, pos, 64) {
                let v: u128 = if little_endian {
                    read_le_bytes(chunk, pos, 8)
                } else {
                    read_be_bits(chunk, pos, 64)
                };
                LineEvent::Float64(v as u64)
            } else {
                push_diag(out);
                LineEvent::Done
            }
        },
        FieldKind::Text => {
            let width: u128 = (len as u128) * 8;
            if fits_at(chunk, pos, width) {
                let ghost base = out@;
                let mut i: usize = 0;
                while i < len
                    invariant
                        i <= len,
                        pos + len * 8 <= chunk@.len() * 8,
                        pos + len * 8 <= usize::MAX,
                        out@ == base + string_field_text(
                            chunk@,
                            pos as int,
                            i as nat,
                            filter_newlines,
                        ),
                    decreases len - i,
                {
                    let b = read_be_bits(chunk, pos + 8 * i, 8);
                    proof {
                        lemma2_to64();
                    }
                    if b >= 128 {
                        out.push(0xef);
                        out.push(0xbf);
                        out.push(0xbd);
                    } else if !(filter_newlines && b == 10) {
                        out.push(b as u8);
                    }
                    proof {
                        assert(out@ =~= base + string_field_text(
                            chunk@,
                            pos as int,
                            (i + 1) as nat,
                            filter_newlines,
                        ));
                    }
                    i = i + 1;
                }
                push_str_bytes(out, "\n");
            } else {
                push_diag(out);
            }
            LineEvent::Done
        },
        FieldKind::IntArb => {
            if fits_at(chunk, pos, len as u128) {
                let u = read_lsb_bits(chunk, pos, len);
                let negative = read_bit(chunk, pos + len - 1);
                if negative {
                    proof {
                        lemma_lsb_high_bit(chunk@, pos as int, len as nat);
                        crate::bits::lemma_pow2_128();
                        lemma_pow2_pos((len - 1) as nat);
                        if len < 128 {
                            lemma_pow2_unfold(len as nat);
                        }
                    }
                    let magnitude: u128 = if len == 128 {
                        (u128::MAX - u) + 1
                    } else {
                        pow2_u128(len) - u
                    };
                    push_str_bytes(out, "-");
                    push_num(out, magnitude, 10, 1);
                } else {
                    push_num(out, u, 10, 1);
                }
                push_str_bytes(out, "\n");
            } else {
                push_diag(out);
            }
            LineEvent::Done
        },
        FieldKind::UIntArb => {
            if fits_at(chunk, pos, len as u128) {
                let u = read_lsb_bits(chunk, pos, len);
                push_num(out, u, 10, 1);
                push_str_bytes(out, "\n");
            } else {
                push_diag(out);
            }
            LineEvent::Done
        },
        FieldKind::ByteGap => {
            write_gap(chunk, pos, out, len, 8);
            LineEvent::Done
        },
        FieldKind::BitGap => {
            write_gap(chunk, pos, out, len, 1);
            LineEvent::Done
        },
        FieldKind::Unknown => LineEvent::UnknownKind,
    }
}

/// Decode one schema line against the window at the running cursor:
/// parse the line, append `name: value` (or the diagnostic line) to the
/// output, and advance the cursor by the field's declared width.  An
/// unrecognized kind renders nothing and leaves the cursor in place;
/// float kinds hand their raw bit pattern back through the event.
pub fn write_line(
    conf_line: &str,
    chunk: &[u8],
    bitpos_in_chunk: &mut usize,
    out: &mut Vec<u8>,
    little_endian: bool,
    filter_newlines: bool,
) -> (r: Result<LineEvent, SchemaError>)
    requires
        line_decodable(conf_line.spec_bytes()),
    ensures
        r is Ok <==> line_has_sep(conf_line.spec_bytes()),
        (r matches Err(e) ==> e == SchemaError::MissingSeparator && final(out)@ == old(out)@
            && *final(bitpos_in_chunk) == *old(bitpos_in_chunk)),
        (r matches Ok(ev) ==> {
            &&& *final(bitpos_in_chunk) == advance(
                *old(bitpos_in_chunk),
                line_width(conf_line.spec_bytes()),
            )
            &&& final(out)@ == old(out)@ + line_output(
                conf_line.spec_bytes(),
                chunk@,
                *old(bitpos_in_chunk),
                little_endian,
                filter_newlines,
            )
            &&& ev == line_event(
                conf_line.spec_bytes(),
                chunk@,
                *old(bitpos_in_chunk),
                little_endian,
            )
        }),
{
    let parsed = match parse_config_line(conf_line) {
        Ok(t) => t,
        Err(e) => {
            return Err(e);
        },
    };
    let fieldname = parsed.0;
    let form = parsed.2;
    let len = parsed.3;
    let kind = kind_of_token(parsed.1);
    if matches!(kind, FieldKind::Unknown) {
        return Ok(LineEvent::UnknownKind);
    }
    push_str_bytes(out, fieldname);
    push_str_bytes(out, ": ");
    let pos = *bitpos_in_chunk;
    let ev = write_value(kind, form, len, chunk, pos, out, little_endian, filter_newlines);
    let w = kind_width_bits(kind, len);
    *bitpos_in_chunk = advance_cursor(pos, w);
    Ok(ev)
}

/// One piece of a rendered window, in print order.  `Text` bytes go to
/// the sink as they are; a float piece is the raw bit pattern of a
/// float value, which the caller renders followed by a line break; an
/// unrecognized kind goes to the error channel and prints nothing.
pub enum ChunkPiece {
    Text(Vec<u8>),
    Float32(u32),
    Float64(u64),
    UnknownKind,
}

/// The spec-level shape of a rendered piece.
pub enum SpecPiece {
    Text(Seq<u8>),
    Float32(u32),
    Float64(u64),
    UnknownKind,
}

impl View for ChunkPiece {
    type V = SpecPiece;

    open spec fn view(&self) -> SpecPiece {
        match self {
            ChunkPiece::Text(v) => SpecPiece::Text(v@),
            ChunkPiece::Float32(x) => SpecPiece::Float32(*x),
            ChunkPiece::Float64(x) => SpecPiece::Float64(*x),
            ChunkPiece::UnknownKind => SpecPiece::UnknownKind,
        }
    }
}

/// The cursor after decoding all of `lines` from `start`: every field
/// advances it by its declared width.
pub open spec fn spec_cursor_after(lines: Seq<Seq<u8>>, start: usize) -> usize
    decreases lines.len(),
{
    if lines.len() == 0 {
        start
    } else {
        advance(spec_cursor_after(lines.drop_last(), start), line_width(lines.last()))
    }
}

/// The pieces one schema line contributes to a rendered window: its
/// optional cursor-position line, then its output line, then for float
/// kinds the value's raw bit pattern.
pub open spec fn line_pieces(
    line: Seq<u8>,
    chunk: Seq<u8>,
    pos: usize,
    le: bool,
    fnl: bool,
    with_bitpos: bool,
) -> Seq<SpecPiece>
    recommends
        line_has_sep(line),
{
    let bp = if with_bitpos {
        seq![SpecPiece::Text(crate::render::bitpos_text(pos as nat))]
    } else {
        Seq::<SpecPiece>::empty()
    };
    let k = kind_of(line_kind_token(line));
    if k == FieldKind::Unknown {
        bp + seq![SpecPiece::UnknownKind]
    } else {
        let main = seq![SpecPiece::Text(line_output(line, chunk, pos, le, fnl))];
        match line_event(line, chunk, pos, le) {
            LineEvent::Float32(v) => bp + main + seq![SpecPiece::Float32(v)],
            LineEvent::Float64(v) => bp + main + seq![SpecPiece::Float64(v)],
            _ => bp + main,
        }
    }
}

/// The pieces a whole window renders: every schema line in order, each
/// at the cursor the preceding lines left behind.
pub open spec fn chunk_pieces(
    lines: Seq<Seq<u8>>,
    chunk: Seq<u8>,
    start: usize,
    le: bool,
    fnl: bool,
    with_bitpos: bool,
) -> Seq<SpecPiece>
    decreases lines.len(),
{
    if lines.len() == 0 {
        Seq::empty()
    } else {
        chunk_pieces(lines.drop_last(), chunk, start, le, fnl, with_bitpos) + line_pieces(
            lines.last(),
            chunk,
            spec_cursor_after(lines.drop_last(), start),
            le,
            fnl,
            with_bitpos,
        )
    }
}

/// Whether every line of a schema is within the decoder's bounds.
pub open spec fn schema_decodable(lines: Seq<Seq<u8>>) -> bool {
    forall|i: int| 0 <= i < lines.len() ==> line_decodable(#[trigger] lines[i])
}

/// Decide whether a schema stays within the decoder's bounds, so that
/// callers can establish what window decoding requires before the
/// pipeline starts.
pub fn check_schema(config_lines: &Vec<String>) -> (r: bool)
    ensures
        r == schema_decodable(schema_bytes(config_lines@)),
{
    let ghost lines = schema_bytes(config_lines@);
    let n = config_lines.len();
    let mut i: usize = 0;
    while i < n
        invariant
            i <= n == config_lines@.len(),
            lines == schema_bytes(config_lines@),
            lines.len() == n,
            forall|j: int| 0 <= j < i ==> line_decodable(#[trigger] lines[j]),
        decreases n - i,
    {
        let line = &config_lines[i];
        proof {
            assert(lines[i as int] == string_bytes(config_lines@[i as int]));
        }
        match parse_config_line(line.as_str()) {
            Err(_) => {},
            Ok(t) => {
                let kind = kind_of_token(t.1);
                let len = t.3;
                let bad = match kind {
                    FieldKind::IntArb => len < 1 || len > 128,
                    FieldKind::UIntArb => len > 128,
                    _ => false,
                };
                if bad {
                    proof {
                        assert(!line_decodable(lines[i as int]));
                    }
                    return false;
                }
            },
        }
        i = i + 1;
    }
    true
}

/// Decode one window against the whole schema: for each line, the
/// optional cursor-position line and the field's output, each field at
/// the cursor the preceding fields left behind, and one closing empty
/// line.  Returns the pieces in print order and the final cursor.
/// Fails exactly when some schema line has no separator.
pub fn write_chunk(
    config_lines: &Vec<String>,
    chunk: &[u8],
    start_bit: usize,
    little_endian: bool,
    filter_newlines: bool,
    with_bitpos: bool,
) -> (r: Result<(Vec<ChunkPiece>, usize), SchemaError>)
    requires
        schema_decodable(schema_bytes(config_lines@)),
    ensures
        r is Ok <==> all_lines_parse(schema_bytes(config_lines@)),
        (r matches Ok(t) ==> {
            &&& t.0@.map_values(|p: ChunkPiece| p@) == chunk_pieces(
                schema_bytes(config_lines@),
                chunk@,
                start_bit,
                little_endian,
                filter_newlines,
                with_bitpos,
            ) + seq![SpecPiece::Text("\n".spec_bytes())]
            &&& t.1 == spec_cursor_after(schema_bytes(config_lines@), start_bit)
        }),
        (r matches Err(e) ==> e == SchemaError::MissingSeparator),
{
    let ghost lines = schema_bytes(config_lines@);
    let n = config_lines.len();
    let mut pieces: Vec<ChunkPiece> = Vec::new();
    let mut pos: usize = start_bit;
    let mut i: usize = 0;
    while i < n
        invariant
            i <= n == config_lines@.len(),
            lines == schema_bytes(config_lines@),
            lines.len() == n,
            schema_decodable(lines),
            forall|j: int| 0 <= j < i ==> line_has_sep(#[trigger] lines[j]),
            pos == spec_cursor_after(lines.take(i as int), start_bit),
            pieces@.map_values(|p: ChunkPiece| p@) == chunk_pieces(
                lines.take(i as int),
                chunk@,
                start_bit,
                little_endian,
                filter_newlines,
                with_bitpos,
            ),
        decreases n - i,
    {
        let line = &config_lines[i];
        proof {
            assert(lines[i as int] == string_bytes(config_lines@[i as int]));
            assert(lines.take(i + 1).drop_last() =~= lines.take(i as int));
            assert(lines.take(i + 1).last() == lines[i as int]);
        }
        let ghost pieces_before = pieces@;
        let ghost pos_before = pos;
        if with_bitpos {
            let mut bp: Vec<u8> = Vec::new();
            crate::render::print_bitpos(&mut bp, pos);
            pieces.push(ChunkPiece::Text(bp));
        }
        let mut line_out: Vec<u8> = Vec::new();
        let ev = match write_line(
            line.as_str(),
            chunk,
            &mut pos,
            &mut line_out,
            little_endian,
            filter_newlines,
        ) {
            Ok(ev) => ev,
            Err(e) => {
                proof {
                    assert(!line_has_sep(lines[i as int]));
                }
                return Err(e);
            },
        };
        match ev {
            LineEvent::UnknownKind => {
                pieces.push(ChunkPiece::UnknownKind);
            },
            LineEvent::Done => {
                pieces.push(ChunkPiece::Text(line_out));
            },
            LineEvent::Float32(v) => {
                pieces.push(ChunkPiece::Text(line_out));
                pieces.push(ChunkPiece::Float32(v));
            },
            LineEvent::Float64(v) => {
                pieces.push(ChunkPiece::Text(line_out));
                pieces.push(ChunkPiece::Float64(v));
            },
        }
        proof {
            if kind_of(line_kind_token(lines[i as int])) == FieldKind::Unknown {
                assert(line_output(
                    lines[i as int],
                    chunk@,
                    pos_before,
                    little_endian,
                    filter_newlines,
                ) =~= Seq::<u8>::empty());
            }
            assert(pieces@.map_values(|p: ChunkPiece| p@) =~= pieces_before.map_values(
                |p: ChunkPiece| p@,
            ) + line_pieces(
                lines[i as int],
                chunk@,
                pos_before,
                little_endian,
                filter_newlines,
                with_bitpos,
            ));
            assert(pieces@.map_values(|p: ChunkPiece| p@) =~= chunk_pieces(
                lines.take(i + 1),
                chunk@,
                start_bit,
                little_endian,
                filter_newlines,
                with_bitpos,
            ));
        }
        i = i + 1;
    }
    proof {
        assert(lines.take(n as int) =~= lines);
    }
    let mut nl: Vec<u8> = Vec::new();
    push_str_bytes(&mut nl, "\n");
    let ghost pieces_before = pieces@;
    pieces.push(ChunkPiece::Text(nl));
    proof {
        assert(pieces@.map_values(|p: ChunkPiece| p@) =~= pieces_before.map_values(
            |p: ChunkPiece| p@,
        ) + seq![SpecPiece::Text("\n".spec_bytes())]);
    }
    Ok((pieces, pos))
}

/// The cursor a schema leaves behind is the start plus the schema's
/// declared width, clipped to a machine word.
pub proof fn lemma_cursor_after(lines: Seq<Seq<u8>>, start: usize)
    ensures
        spec_cursor_after(lines, start) == saturate_usize((start + declared_bits(lines)) as nat),
    decreases lines.len(),
{
    if lines.len() > 0 {
        lemma_cursor_after(lines.drop_last(), start);
    }
}

/// A window whose bit length equals the schema's declared width, read
/// from cursor zero, is consumed exactly: the final cursor is the
/// window's bit length.
pub proof fn lemma_exact_window_consumed(lines: Seq<Seq<u8>>, chunk: Seq<u8>)
    requires
        chunk.len() * 8 == declared_bits(lines),
        declared_bits(lines) <= usize::MAX,
    ensures
        spec_cursor_after(lines, 0) == chunk.len() * 8,
{
    lemma_cursor_after(lines, 0);
}

/// Decoding is a pure function of the schema, the window bytes, the
/// starting cursor, the byte order and the render options: the pieces
/// and the final cursor that `write_chunk` promises are spec functions
/// of exactly these inputs, so equal inputs always give equal rendered
/// text and an equal final cursor.
pub proof fn lemma_decode_deterministic(
    l1: Seq<Seq<u8>>,
    l2: Seq<Seq<u8>>,
    c1: Seq<u8>,
    c2: Seq<u8>,
    s1: usize,
    s2: usize,
    le1: bool,
    le2: bool,
    fnl1: bool,
    fnl2: bool,
    bp1: bool,
    bp2: bool,
)
    requires
        l1 == l2,
        c1 == c2,
        s1 == s2,
        le1 == le2,
        fnl1 == fnl2,
        bp1 == bp2,
    ensures
        chunk_pieces(l1, c1, s1, le1, fnl1, bp1) == chunk_pieces(l2, c2, s2, le2, fnl2, bp2),
        spec_cursor_after(l1, s1) == spec_cursor_after(l2, s2),
{
}

/// A gap field's rendering and cursor movement depend only on the gap's
/// declared width and the window's length, never on the window's
/// contents, the byte order or the newline filter.
pub proof fn lemma_gap_ignores_content(
    line: Seq<u8>,
    c1: Seq<u8>,
    c2: Seq<u8>,
    pos: usize,
    le1: bool,
    le2: bool,
    fnl1: bool,
    fnl2: bool,
)
    requires
        line_has_sep(line),
        kind_of(line_kind_token(line)) == FieldKind::BitGap || kind_of(line_kind_token(line))
            == FieldKind::ByteGap,
        c1.len() == c2.len(),
    ensures
        line_output(line, c1, pos, le1, fnl1) == line_output(line, c2, pos, le2, fnl2),
        line_event(line, c1, pos, le1) == line_event(line, c2, pos, le2),
{
}

/// The terminal lines one rendered piece occupies: the line breaks of
/// its text; a float piece is rendered by the caller as one value line
/// with its own break; an unrecognized kind prints nothing.
pub open spec fn piece_lines(p: SpecPiece) -> nat {
    match p {
        SpecPiece::Text(t) => nl_count(t),
        SpecPiece::Float32(_) => 1,
        SpecPiece::Float64(_) => 1,
        SpecPiece::UnknownKind => 0,
    }
}

/// The terminal lines a sequence of pieces occupies.
pub open spec fn pieces_lines(ps: Seq<SpecPiece>) -> nat
    decreases ps.len(),
{
    if ps.len() == 0 {
        0
    } else {
        pieces_lines(ps.drop_last()) + piece_lines(ps.last())
    }
}

pub proof fn lemma_pieces_lines_add(a: Seq<SpecPiece>, b: Seq<SpecPiece>)
    ensures
        pieces_lines(a + b) == pieces_lines(a) + pieces_lines(b),
    decreases b.len(),
{
    if b.len() == 0 {
        assert(a + b =~= a);
    } else {
        lemma_pieces_lines_add(a, b.drop_last());
        assert((a + b).drop_last() =~= a + b.drop_last());
        assert((a + b).last() == b.last());
    }
}

proof fn lemma_pieces_lines_single(p: SpecPiece)
    ensures
        pieces_lines(seq![p]) == piece_lines(p),
{
    assert(seq![p].drop_last() =~= Seq::<SpecPiece>::empty());
    assert(seq![p].last() == p);
    assert(pieces_lines(Seq::<SpecPiece>::empty()) == 0);
}

#[verifier::rlimit(100)]
#[verifier::spinoff_prover]
proof fn lemma_decode_literal_counts()
    ensures
        nl_count("-".spec_bytes()) == 0,
        nl_count(bool_text(true)) == 0,
        nl_count(bool_text(false)) == 0,
        nl_count("(gap of ".spec_bytes()) == 0,
        nl_count(" bit)\n".spec_bytes()) == 1,
        nl_count(diag_text()) == 1,
        nl_count(": ".spec_bytes()) == 0,
        nl_count("\n".spec_bytes()) == 1,
{
    reveal_with_fuel(nl_count, 61);
    reveal_strlit("-");
    assert(vstd::string::is_ascii("-"));
    assert("-".spec_bytes() =~= Seq::new("-"@.len(), |i: int| "-"@.index(i) as u8));
    reveal_strlit("true");
    assert(vstd::string::is_ascii("true"));
    assert("true".spec_bytes() =~= Seq::new("true"@.len(), |i: int| "true"@.index(i) as u8));
    reveal_strlit("false");
    assert(vstd::string::is_ascii("false"));
    assert("false".spec_bytes() =~= Seq::new("false"@.len(), |i: int| "false"@.index(i) as u8));
    reveal_strlit("(gap of ");
    assert(vstd::string::is_ascii("(gap of "));
    assert("(gap of ".spec_bytes() =~= Seq::new(
        "(gap of "@.len(),
        |i: int| "(gap of "@.index(i) as u8,
    ));
    reveal_strlit(" bit)\n");
    assert(vstd::string::is_ascii(" bit)\n"));
    assert(" bit)\n".spec_bytes() =~= Seq::new(
        " bit)\n"@.len(),
        |i: int| " bit)\n"@.index(i) as u8,
    ));
    reveal_strlit("values size is bigger than what is left of that data chunk\n");
    assert(vstd::string::is_ascii("values size is bigger than what is left of that data chunk\n"));
    assert("values size is bigger than what is left of that data chunk\n".spec_bytes()
        =~= Seq::new(
        "values size is bigger than what is left of that data chunk\n"@.len(),
        |i: int| "values size is bigger than what is left of that data chunk\n"@.index(i) as u8,
    ));
    let d = "values size is bigger than what is left of that data chunk\n"@;
    assert(d.len() == 59 && d.index(58) == '\n');
    assert(forall|i: int| 0 <= i < 58 ==> #[trigger] d.index(i) != '\n');
    assert(diag_text().len() == 59 && diag_text().last() == 10);
    assert forall|i: int| 0 <= i < 58 implies #[trigger] diag_text()[i] != 10 by {
        assert(diag_text()[i] == d.index(i) as u8);
        assert('\0' <= d.index(i) <= '\u{7f}');
        assert(d.index(i) != '\n');
    }
    lemma_nl_count_single_trailing(diag_text());
    reveal_strlit(": ");
    assert(vstd::string::is_ascii(": "));
    assert(": ".spec_bytes() =~= Seq::new(": "@.len(), |i: int| ": "@.index(i) as u8));
    reveal_strlit("\n");
    assert(vstd::string::is_ascii("\n"));
    assert("\n".spec_bytes() =~= Seq::new("\n"@.len(), |i: int| "\n"@.index(i) as u8));
}

proof fn lemma_nl_count_single_trailing(s: Seq<u8>)
    requires
        s.len() >= 1,
        s.last() == 10,
        forall|i: int| 0 <= i < s.len() - 1 ==> #[trigger] s[i] != 10,
    ensures
        nl_count(s) == 1,
{
    assert forall|i: int| 0 <= i < s.drop_last().len() implies #[trigger] s.drop_last()[i] != 10 by {
        assert(s.drop_last()[i] == s[i]);
    }
    lemma_nl_count_none(s.drop_last());
}

proof fn lemma_nl_count_gap(nbits: nat)
    ensures
        nl_count(gap_text(nbits)) == 1,
{
    lemma_decode_literal_counts();
    lemma_nl_count_digits(nbits, 10, 1);
    lemma_nl_count_add("(gap of ".spec_bytes(), num_ascii(nbits, 10, 1));
    lemma_nl_count_add("(gap of ".spec_bytes() + num_ascii(nbits, 10, 1), " bit)\n".spec_bytes());
}

proof fn lemma_nl_count_string_field(chunk: Seq<u8>, pos: int, len: nat)
    ensures
        nl_count(string_field_text(chunk, pos, len, true)) == 0,
    decreases len,
{
    if len > 0 {
        lemma_nl_count_string_field(chunk, pos, (len - 1) as nat);
        let b = be_value(chunk, pos + 8 * (len - 1), 8);
        let tail = byte_char_text(b, true);
        assert(nl_count(tail) == 0) by {
            reveal_with_fuel(nl_count, 5);
            if b >= 128 {
                assert(tail =~= seq![0xefu8, 0xbfu8, 0xbdu8]);
            }
        }
        lemma_nl_count_add(string_field_text(chunk, pos, (len - 1) as nat, true), tail);
    }
}

proof fn lemma_nl_count_iarb(chunk: Seq<u8>, pos: int, len: nat)
    ensures
        nl_count(iarb_text(chunk, pos, len)) == 0,
{
    lemma_decode_literal_counts();
    let u = lsb_value(chunk, pos, len);
    if bit_at(chunk, pos + len - 1) {
        lemma_nl_count_digits((pow2(len) - u) as nat, 10, 1);
        lemma_nl_count_add("-".spec_bytes(), num_ascii((pow2(len) - u) as nat, 10, 1));
    } else {
        lemma_nl_count_digits(u, 10, 1);
    }
}

/// Whether a field at this cursor renders no text of its own because
/// the caller prints its float value.
pub open spec fn renders_float(k: FieldKind, chunk: Seq<u8>, pos: usize) -> bool {
    ||| (k == FieldKind::Float32 && fits(chunk, pos as nat, 32))
    ||| (k == FieldKind::Float64 && fits(chunk, pos as nat, 64))
}

proof fn lemma_nl_count_value_output(
    k: FieldKind,
    form: Format,
    len: usize,
    chunk: Seq<u8>,
    pos: usize,
    le: bool,
)
    requires
        k != FieldKind::Unknown,
    ensures
        nl_count(value_output(k, form, len, chunk, pos, le, true)) == (if renders_float(
            k,
            chunk,
            pos,
        ) {
            0nat
        } else {
            1nat
        }),
{
    lemma_decode_literal_counts();
    let nl = "\n".spec_bytes();
    match k {
        FieldKind::Bool1 => {
            if fits(chunk, pos as nat, 1) {
                lemma_nl_count_add(bool_text(bit_at(chunk, pos as int)), nl);
            }
        },
        FieldKind::Bool8 => {
            if fits(chunk, pos as nat, 8) {
                lemma_nl_count_add(bool_text(be_value(chunk, pos as int, 8) > 0), nl);
            }
        },
        FieldKind::Float32 => {
        },
        FieldKind::Float64 => {
        },
        FieldKind::Text => {
            if fits(chunk, pos as nat, (len * 8) as nat) {
                lemma_nl_count_string_field(chunk, pos as int, len as nat);
                lemma_nl_count_add(string_field_text(chunk, pos as int, len as nat, true), nl);
            }
        },
        FieldKind::IntArb => {
            if fits(chunk, pos as nat, len as nat) {
                lemma_nl_count_iarb(chunk, pos as int, len as nat);
                lemma_nl_count_add(iarb_text(chunk, pos as int, len as nat), nl);
            }
        },
        FieldKind::UIntArb => {
            if fits(chunk, pos as nat, len as nat) {
                lemma_nl_count_digits(lsb_value(chunk, pos as int, len as nat), 10, 1);
                lemma_nl_count_add(num_ascii(lsb_value(chunk, pos as int, len as nat), 10, 1), nl);
            }
        },
        FieldKind::ByteGap => {
            if fits(chunk, pos as nat, (len * 8) as nat) {
                lemma_nl_count_gap((len * 8) as nat);
            }
        },
        FieldKind::BitGap => {
            if fits(chunk, pos as nat, len as nat) {
                lemma_nl_count_gap(len as nat);
            }
        },
        _ => {
            // the ten fixed integer kinds
            let width = kind_width(k, len as nat);
            if fits(chunk, pos as nat, width) {
                lemma_nl_count_format_number(
                    int_field_value(chunk, pos as int, width, le),
                    width,
                    true,
                    form,
                );
                lemma_nl_count_format_number(
                    int_field_value(chunk, pos as int, width, le),
                    width,
                    false,
                    form,
                );
                lemma_nl_count_add(
                    format_number_text(int_field_value(chunk, pos as int, width, le), width, true, form),
                    nl,
                );
                lemma_nl_count_add(
                    format_number_text(int_field_value(chunk, pos as int, width, le), width, false, form),
                    nl,
                );
            }
        },
    }
}

/// Whether a schema line is a single line of text itself: a line read
/// from a schema file never holds a raw line break.
pub open spec fn line_is_single(line: Seq<u8>) -> bool {
    forall|i: int| 0 <= i < line.len() ==> #[trigger] line[i] != 10
}

proof fn lemma_nl_count_line_output(line: Seq<u8>, chunk: Seq<u8>, pos: usize, le: bool)
    requires
        line_has_sep(line),
        kind_of(line_kind_token(line)) != FieldKind::Unknown,
        line_is_single(line),
    ensures
        nl_count(line_output(line, chunk, pos, le, true)) == (if renders_float(
            kind_of(line_kind_token(line)),
            chunk,
            pos,
        ) {
            0nat
        } else {
            1nat
        }),
{
    lemma_decode_literal_counts();
    let k = kind_of(line_kind_token(line));
    let name = line_name(line);
    let c1 = crate::schema::before_byte(line, 35u8);
    let c2 = crate::schema::before_byte(c1, 32u8);
    assert(c2 == crate::schema::line_content(line));
    crate::schema::lemma_find_byte(line, 35u8);
    crate::schema::lemma_find_byte(c1, 32u8);
    crate::schema::lemma_find_byte(c2, 58u8);
    assert forall|i: int| 0 <= i < name.len() implies #[trigger] name[i] != 10 by {
        assert(name[i] == c2[i]);
        assert(c2[i] == c1[i]);
        assert(c1[i] == line[i]);
    }
    lemma_nl_count_none(name);
    lemma_nl_count_value_output(k, line_format(line), line_len(line), chunk, pos, le);
    lemma_nl_count_add(name, ": ".spec_bytes());
    lemma_nl_count_add(
        name + ": ".spec_bytes(),
        value_output(k, line_format(line), line_len(line), chunk, pos, le, true),
    );
}

proof fn lemma_line_pieces_count(line: Seq<u8>, chunk: Seq<u8>, pos: usize, le: bool, bp: bool)
    requires
        line_has_sep(line),
        kind_of(line_kind_token(line)) != FieldKind::Unknown,
        line_is_single(line),
    ensures
        pieces_lines(line_pieces(line, chunk, pos, le, true, bp)) == 1 + (if bp {
            1nat
        } else {
            0nat
        }),
{
    lemma_nl_count_line_output(line, chunk, pos, le);
    lemma_nl_count_bitpos(pos as nat);
    let bpp = if bp {
        seq![SpecPiece::Text(bitpos_text(pos as nat))]
    } else {
        Seq::<SpecPiece>::empty()
    };
    let main = seq![
        SpecPiece::Text(line_output(line, chunk, pos, le, true)),
    ];
    lemma_pieces_lines_single(SpecPiece::Text(bitpos_text(pos as nat)));
    lemma_pieces_lines_single(SpecPiece::Text(line_output(line, chunk, pos, le, true)));
    lemma_pieces_lines_add(bpp, main);
    match line_event(line, chunk, pos, le) {
        LineEvent::Float32(v) => {
            lemma_pieces_lines_single(SpecPiece::Float32(v));
            lemma_pieces_lines_add(bpp + main, seq![SpecPiece::Float32(v)]);
        },
        LineEvent::Float64(v) => {
            lemma_pieces_lines_single(SpecPiece::Float64(v));
            lemma_pieces_lines_add(bpp + main, seq![SpecPiece::Float64(v)]);
        },
        _ => {},
    }
}

/// Whether every schema line parses, names a recognized kind, and is a
/// single line of text: what exact redraw accounting needs.
pub open spec fn schema_all_known(lines: Seq<Seq<u8>>) -> bool {
    forall|i: int|
        0 <= i < lines.len() ==> line_has_sep(#[trigger] lines[i]) && kind_of(
            line_kind_token(lines[i]),
        ) != FieldKind::Unknown && line_is_single(lines[i])
}

proof fn lemma_chunk_pieces_count(
    lines: Seq<Seq<u8>>,
    chunk: Seq<u8>,
    start: usize,
    le: bool,
    bp: bool,
)
    requires
        schema_all_known(lines),
    ensures
        pieces_lines(chunk_pieces(lines, chunk, start, le, true, bp)) == lines.len() + (if bp {
            lines.len()
        } else {
            0nat
        }),
    decreases lines.len(),
{
    if lines.len() > 0 {
        assert(schema_all_known(lines.drop_last())) by {
            assert(forall|i: int|
                0 <= i < lines.drop_last().len() ==> lines.drop_last()[i] == lines[i]);
        }
        lemma_chunk_pieces_count(lines.drop_last(), chunk, start, le, bp);
        lemma_line_pieces_count(
            lines.last(),
            chunk,
            spec_cursor_after(lines.drop_last(), start),
            le,
            bp,
        );
        lemma_pieces_lines_add(
            chunk_pieces(lines.drop_last(), chunk, start, le, true, bp),
            line_pieces(
                lines.last(),
                chunk,
                spec_cursor_after(lines.drop_last(), start),
                le,
                true,
                bp,
            ),
        );
    }
}

/// The redraw accountant is exact: the text a window renders - the
/// optional block, one line per schema field with its optional cursor
/// position, the float values the caller prints, and the closing empty
/// line - occupies exactly `count_lines` terminal lines.  This holds
/// when string fields filter line breaks (an unfiltered string may
/// carry breaks of its own), every kind is recognized (an unrecognized
/// kind prints nothing yet is still counted), the stored row counts
/// cover this window, and the timestamp text is one line.
pub proof fn lemma_count_lines_exact(
    args: Args,
    stats: Stats,
    lines: Seq<Seq<u8>>,
    chunk: Seq<u8>,
    start: usize,
    cs: nat,
    ts: Seq<u8>,
)
    requires
        args.filter_newlines,
        schema_all_known(lines),
        args.timestamp ==> nl_count(ts) == 1,
        stats.hex_lines >= crate::pipeline::dump_rows(chunk.len(), 16),
        stats.bin_lines >= crate::pipeline::dump_rows(chunk.len(), 8),
    ensures
        nl_count(additional_text(args, stats, chunk, cs, ts)) + pieces_lines(
            chunk_pieces(lines, chunk, start, args.little_endian, true, args.print_bitpos)
                + seq![SpecPiece::Text("\n".spec_bytes())],
        ) == count_lines_spec(args, stats, lines.len()),
{
    lemma_decode_literal_counts();
    crate::render::lemma_additional_block_line_count(args, stats, chunk, cs, ts);
    lemma_chunk_pieces_count(lines, chunk, start, args.little_endian, args.print_bitpos);
    lemma_pieces_lines_single(SpecPiece::Text("\n".spec_bytes()));
    lemma_pieces_lines_add(
        chunk_pieces(lines, chunk, start, args.little_endian, true, args.print_bitpos),
        seq![SpecPiece::Text("\n".spec_bytes())],
    );
}

} // verus!

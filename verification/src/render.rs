//! Textual rendering of decoded values.
//!
//! Every rendering function appends ASCII bytes to an output buffer and
//! is specified against a spec-level byte sequence, so the exact text a
//! field produces is pinned down by the contracts.

use crate::args::Args;
use crate::{BIN_LINE_SIZE, HEX_LINE_SIZE};
use crate::pipeline::{dump_rows, Stats};
use vstd::arithmetic::power2::*;
use vstd::prelude::*;
use vstd::string::StringSliceAdditionalSpecFns;

verus! {

broadcast use vstd::string::group_string_axioms;

/// How a fixed-width numeric field is printed: decimal, hexadecimal with
/// at least two digits, or binary zero-padded to at least eight digits.
#[derive(Debug, PartialEq, Eq, Structural, Clone, Copy)]
pub enum Format {
    Norm,
    Hex,
    Bin,
}

/// ASCII digit for one place value: `0`-`9` then `A`-`F`.
pub open spec fn digit_ascii(d: nat) -> u8 {
    if d < 10 {
        (48 + d) as u8
    } else {
        (55 + d) as u8
    }
}

/// Digits of `n` in the given base, most significant first, left-padded
/// with zeros to at least `min_len` digits.
pub open spec fn num_ascii(n: nat, base: nat, min_len: nat) -> Seq<u8>
    recommends
        2 <= base <= 16,
    decreases n, min_len,
    via num_ascii_decreases
{
    if base < 2 {
        Seq::empty()
    } else if n < base && min_len <= 1 {
        seq![digit_ascii(n)]
    } else {
        num_ascii(
            n / base,
            base,
            if min_len == 0 {
                0nat
            } else {
                (min_len - 1) as nat
            },
        ).push(digit_ascii(n % base))
    }
}

#[via_fn]
proof fn num_ascii_decreases(n: nat, base: nat, min_len: nat) {
    if base >= 2 && !(n < base && min_len <= 1) {
        assert(n / base <= n && (n >= base ==> n / base < n)) by (nonlinear_arith)
            requires
                base >= 2,
        ;
    }
}

fn ascii_digit(d: u8) -> (r: u8)
    requires
        d < 16,
    ensures
        r == digit_ascii(d as nat),
{
    if d < 10 {
        48 + d
    } else {
        55 + d
    }
}

/// Append the digits of `n` in `base`, padded to at least `min_len`.
pub fn push_num(out: &mut Vec<u8>, n: u128, base: u128, min_len: usize)
    requires
        2 <= base <= 16,
    ensures
        final(out)@ == old(out)@ + num_ascii(n as nat, base as nat, min_len as nat),
    decreases n, min_len,
{
    if n < base && min_len <= 1 {
        out.push(ascii_digit(n as u8));
        proof {
            assert(final(out)@ =~= old(out)@ + num_ascii(
                n as nat,
                base as nat,
                min_len as nat,
            ));
        }
    } else {
        let rest: usize = if min_len == 0 {
            0
        } else {
            min_len - 1
        };
        proof {
            assert(n / base <= n && (n >= base ==> n / base < n)) by (nonlinear_arith)
                requires
                    base >= 2,
            ;
        }
        push_num(out, n / base, base, rest);
        out.push(ascii_digit((n % base) as u8));
        proof {
            assert(final(out)@ =~= old(out)@ + num_ascii(
                n as nat,
                base as nat,
                min_len as nat,
            ));
        }
    }
}

/// Append the bytes of an ASCII string slice.
pub fn push_str_bytes(out: &mut Vec<u8>, s: &str)
    ensures
        final(out)@ == old(out)@ + s.spec_bytes(),
{
    let bs = s.as_bytes();
    let n = bs.len();
    let mut i: usize = 0;
    while i < n
        invariant
            n == s.spec_bytes().len(),
            bs@ == s.spec_bytes(),
            i <= n,
            out@ == old(out)@ + s.spec_bytes().take(i as int),
        decreases n - i,
    {
        out.push(bs[i]);
        i = i + 1;
        proof {
            assert(out@ =~= old(out)@ + s.spec_bytes().take(i as int));
        }
    }
    proof {
        assert(s.spec_bytes().take(n as int) =~= s.spec_bytes());
    }
}

/// `2^e` as a machine word.
pub fn pow2_u128(e: usize) -> (p: u128)
    requires
        e <= 127,
    ensures
        p == pow2(e as nat),
{
    proof {
        lemma2_to64();
        crate::bits::lemma_pow2_128();
    }
    let mut p: u128 = 1;
    let mut i: usize = 0;
    while i < e
        invariant
            i <= e <= 127,
            p == pow2(i as nat),
        decreases e - i,
    {
        proof {
            lemma_pow2_unfold((i + 1) as nat);
            if i + 1 < 128 {
                lemma_pow2_strictly_increases((i + 1) as nat, 128);
            }
            crate::bits::lemma_pow2_128();
        }
        p = p * 2;
        i = i + 1;
    }
    p
}

/// Text of one fixed-width integer value: `u` is the raw unsigned value
/// of the field's `width`-bit window.  `Norm` renders it in decimal,
/// two's-complement signed when `signed` is set; `Hex` and `Bin` render
/// the raw bit pattern and ignore the sign.
pub open spec fn format_number_text(u: nat, width: nat, signed: bool, form: Format) -> Seq<u8>
    recommends
        1 <= width <= 128,
        u < pow2(width),
{
    match form {
        Format::Norm => {
            if signed && u >= pow2((width - 1) as nat) {
                "-".spec_bytes() + num_ascii((pow2(width) - u) as nat, 10, 1)
            } else {
                num_ascii(u, 10, 1)
            }
        },
        Format::Hex => "0x".spec_bytes() + num_ascii(u, 16, 2),
        Format::Bin => num_ascii(u, 2, 8),
    }
}

/// Append the text of one fixed-width integer value.
pub fn format_number(out: &mut Vec<u8>, num: u128, width: usize, signed: bool, format: Format)
    requires
        1 <= width <= 128,
        num < pow2(width as nat),
    ensures
        final(out)@ == old(out)@ + format_number_text(num as nat, width as nat, signed, format),
{
    match format {
        Format::Norm => {
            let negative = signed && num >= pow2_u128(width - 1);
            if negative {
                let magnitude: u128 = if width == 128 {
                    proof {
                        crate::bits::lemma_pow2_128();
                        lemma_pow2_pos((width - 1) as nat);
                    }
                    (u128::MAX - num) + 1
                } else {
                    proof {
                        lemma_pow2_unfold(width as nat);
                    }
                    pow2_u128(width) - num
                };
                push_str_bytes(out, "-");
                push_num(out, magnitude, 10, 1);
            } else {
                push_num(out, num, 10, 1);
            }
        },
        Format::Hex => {
            push_str_bytes(out, "0x");
            push_num(out, num, 16, 2);
        },
        Format::Bin => {
            push_num(out, num, 2, 8);
        },
    }
}

/// Rendering of a one-bit or eight-bit boolean value.
pub open spec fn bool_text(b: bool) -> Seq<u8> {
    if b {
        "true".spec_bytes()
    } else {
        "false".spec_bytes()
    }
}

/// Append `true` or `false`.
pub fn push_bool_text(out: &mut Vec<u8>, b: bool)
    ensures
        final(out)@ == old(out)@ + bool_text(b),
{
    if b {
        push_str_bytes(out, "true");
    } else {
        push_str_bytes(out, "false");
    }
}

/// One row of the raw hex dump, without its brackets: the bytes as
/// two-digit uppercase hex, separated by `, `.
pub open spec fn hex_row_inner(row: Seq<u8>) -> Seq<u8>
    decreases row.len(),
{
    if row.len() == 0 {
        Seq::empty()
    } else if row.len() == 1 {
        num_ascii(row[0] as nat, 16, 2)
    } else {
        hex_row_inner(row.drop_last()) + ", ".spec_bytes() + num_ascii(row.last() as nat, 16, 2)
    }
}

/// One full row of the raw hex dump.
pub open spec fn hex_row_text(row: Seq<u8>) -> Seq<u8> {
    "[".spec_bytes() + hex_row_inner(row) + "]\n".spec_bytes()
}

/// The hex dump rows of the window bytes from `off` on,
/// `HEX_LINE_SIZE` bytes per row.
pub open spec fn hex_rows_from(chunk: Seq<u8>, off: int) -> Seq<u8>
    decreases chunk.len() - off when 0 <= off <= chunk.len()
{
    if off >= chunk.len() {
        Seq::empty()
    } else if chunk.len() - off <= HEX_LINE_SIZE {
        hex_row_text(chunk.subrange(off, chunk.len() as int))
    } else {
        hex_row_text(chunk.subrange(off, off + HEX_LINE_SIZE as int)) + hex_rows_from(
            chunk,
            off + HEX_LINE_SIZE as int,
        )
    }
}

/// One row of the raw binary dump: each byte as eight binary digits
/// followed by a space, then the line break.
pub open spec fn bin_row_inner(row: Seq<u8>) -> Seq<u8>
    decreases row.len(),
{
    if row.len() == 0 {
        Seq::empty()
    } else {
        bin_row_inner(row.drop_last()) + num_ascii(row.last() as nat, 2, 8) + " ".spec_bytes()
    }
}

/// One full row of the raw binary dump.
pub open spec fn bin_row_text(row: Seq<u8>) -> Seq<u8> {
    bin_row_inner(row) + "\n".spec_bytes()
}

/// The binary dump rows of the window bytes from `off` on,
/// `BIN_LINE_SIZE` bytes per row.
pub open spec fn bin_rows_from(chunk: Seq<u8>, off: int) -> Seq<u8>
    decreases chunk.len() - off when 0 <= off <= chunk.len()
{
    if off >= chunk.len() {
        Seq::empty()
    } else if chunk.len() - off <= BIN_LINE_SIZE {
        bin_row_text(chunk.subrange(off, chunk.len() as int))
    } else {
        bin_row_text(chunk.subrange(off, off + BIN_LINE_SIZE as int)) + bin_rows_from(
            chunk,
            off + BIN_LINE_SIZE as int,
        )
    }
}

/// What lossy UTF-8 decoding makes of a byte sequence, as the bytes of
/// the decoded text: well-formed sequences stay, ill-formed ones become
/// the replacement character.  The value is a fixed function of the
/// input bytes; the library does not restate it.
pub uninterp spec fn utf8_lossy(bytes: Seq<u8>) -> Seq<u8>;

/// Relies on `String::from_utf8_lossy`: the decoded text depends on the
/// input bytes alone.
#[verifier::external_body]
fn utf8_lossy_bytes(bs: &[u8]) -> (r: Vec<u8>)
    ensures
        r@ == utf8_lossy(bs@),
{
    String::from_utf8_lossy(bs).into_owned().into_bytes()
}

/// A text with its line breaks dropped.
pub open spec fn strip_newlines(s: Seq<u8>) -> Seq<u8> {
    s.filter(|b: u8| b != 10)
}

/// One full row of the raw ascii dump: the lossy decoding of the row
/// bytes, line breaks dropped, between brackets.
pub open spec fn ascii_row_text(row: Seq<u8>) -> Seq<u8> {
    "[ ".spec_bytes() + strip_newlines(utf8_lossy(row)) + " ]\n".spec_bytes()
}

/// The ascii dump rows of the window bytes from `off` on,
/// `HEX_LINE_SIZE` bytes per row.
pub open spec fn ascii_rows_from(chunk: Seq<u8>, off: int) -> Seq<u8>
    decreases chunk.len() - off when 0 <= off <= chunk.len()
{
    if off >= chunk.len() {
        Seq::empty()
    } else if chunk.len() - off <= HEX_LINE_SIZE {
        ascii_row_text(chunk.subrange(off, chunk.len() as int))
    } else {
        ascii_row_text(chunk.subrange(off, off + HEX_LINE_SIZE as int)) + ascii_rows_from(
            chunk,
            off + HEX_LINE_SIZE as int,
        )
    }
}

/// `n` empty lines, which pad a dump of a short window to the height
/// of a full one so that the redraw arithmetic stays right.
pub open spec fn newline_pad(n: nat) -> Seq<u8>
    decreases n,
{
    if n == 0 {
        Seq::empty()
    } else {
        newline_pad((n - 1) as nat) + "\n".spec_bytes()
    }
}

/// Empty lines padding a dump that used `rows` rows to `want` rows.
pub open spec fn pad_rows(rows: nat, want: nat) -> Seq<u8> {
    newline_pad(if rows < want {
        (want - rows) as nat
    } else {
        0nat
    })
}

/// Append `k` empty lines.
fn push_newlines(out: &mut Vec<u8>, k: usize)
    ensures
        final(out)@ == old(out)@ + newline_pad(k as nat),
{
    let ghost base = out@;
    let mut i: usize = 0;
    while i < k
        invariant
            i <= k,
            out@ == base + newline_pad(i as nat),
        decreases k - i,
    {
        push_str_bytes(out, "\n");
        i = i + 1;
    }
}

fn push_hex_row(out: &mut Vec<u8>, row: &[u8])
    ensures
        final(out)@ == old(out)@ + hex_row_text(row@),
{
    push_str_bytes(out, "[");
    let ghost base = out@;
    let n = row.len();
    let mut j: usize = 0;
    while j < n
        invariant
            j <= n == row@.len(),
            out@ == base + hex_row_inner(row@.take(j as int)),
        decreases n - j,
    {
        if j > 0 {
            push_str_bytes(out, ", ");
        }
        push_num(out, row[j] as u128, 16, 2);
        proof {
            assert(row@.take(j + 1).drop_last() =~= row@.take(j as int));
            assert(row@.take(j + 1).last() == row@[j as int]);
            assert(out@ =~= base + hex_row_inner(row@.take(j + 1)));
        }
        j = j + 1;
    }
    push_str_bytes(out, "]\n");
    proof {
        assert(row@.take(n as int) =~= row@);
    }
}

fn push_bin_row(out: &mut Vec<u8>, row: &[u8])
    ensures
        final(out)@ == old(out)@ + bin_row_text(row@),
{
    let ghost base = out@;
    let n = row.len();
    let mut j: usize = 0;
    while j < n
        invariant
            j <= n == row@.len(),
            out@ == base + bin_row_inner(row@.take(j as int)),
        decreases n - j,
    {
        push_num(out, row[j] as u128, 2, 8);
        push_str_bytes(out, " ");
        proof {
            assert(row@.take(j + 1).drop_last() =~= row@.take(j as int));
            assert(row@.take(j + 1).last() == row@[j as int]);
            assert(out@ =~= base + bin_row_inner(row@.take(j + 1)));
        }
        j = j + 1;
    }
    push_str_bytes(out, "\n");
    proof {
        assert(row@.take(n as int) =~= row@);
    }
}

fn push_ascii_row(out: &mut Vec<u8>, row: &[u8])
    ensures
        final(out)@ == old(out)@ + ascii_row_text(row@),
{
    push_str_bytes(out, "[ ");
    let decoded = utf8_lossy_bytes(row);
    let ghost pred = |b: u8| b != 10;
    let ghost base = out@;
    let n = decoded.len();
    let mut j: usize = 0;
    proof {
        assert(decoded@.take(0) =~= Seq::<u8>::empty());
        reveal(Seq::filter);
    }
    while j < n
        invariant
            j <= n == decoded@.len(),
            decoded@ == utf8_lossy(row@),
            pred == (|b: u8| b != 10),
            out@ == base + decoded@.take(j as int).filter(pred),
        decreases n - j,
    {
        let b = decoded[j];
        proof {
            assert(decoded@.take(j + 1).drop_last() =~= decoded@.take(j as int));
            assert(decoded@.take(j + 1).last() == decoded@[j as int]);
            reveal(Seq::filter);
        }
        if b != 10 {
            out.push(b);
        }
        proof {
            assert(out@ =~= base + decoded@.take(j + 1).filter(pred));
        }
        j = j + 1;
    }
    proof {
        assert(decoded@.take(n as int) =~= decoded@);
    }
    push_str_bytes(out, " ]\n");
}

/// Append the raw hex dump of a window: sixteen bytes per row, then
/// empty lines up to `hex_lines` rows when the window is shorter than
/// a full one.
pub fn print_raw_hex(out: &mut Vec<u8>, chunk: &[u8], hex_lines: usize)
    ensures
        final(out)@ == old(out)@ + hex_rows_from(chunk@, 0) + pad_rows(
            dump_rows(chunk@.len(), 16),
            hex_lines as nat,
        ),
{
    let n = chunk.len();
    let mut off: usize = 0;
    let mut rows: usize = 0;
    while off < n
        invariant
            off <= n == chunk@.len(),
            out@ + hex_rows_from(chunk@, off as int) == old(out)@ + hex_rows_from(chunk@, 0),
            (off < n ==> off % 16 == 0 && rows == off / 16),
            (off == n ==> rows == dump_rows(n as nat, 16)),
            rows <= n,
        decreases n - off,
    {
        let end = if HEX_LINE_SIZE <= n - off {
            off + HEX_LINE_SIZE
        } else {
            n
        };
        push_hex_row(out, &chunk[off..end]);
        proof {
            assert(hex_rows_from(chunk@, off as int) == hex_row_text(
                chunk@.subrange(off as int, end as int),
            ) + hex_rows_from(chunk@, end as int));
            if end == off + 16 {
                assert(end as int % 16 == 0 && end as int / 16 == off as int / 16 + 1)
                    by (nonlinear_arith)
                    requires
                        off as int % 16 == 0,
                        end == off + 16,
                ;
            }
            if end == n {
                assert(rows + 1 == dump_rows(n as nat, 16)) by (nonlinear_arith)
                    requires
                        off as int % 16 == 0,
                        rows == off as int / 16,
                        off < n <= off + 16,
                        dump_rows(n as nat, 16) == ((n + 15) as nat) / 16,
                ;
            }
        }
        rows = rows + 1;
        off = end;
    }
    proof {
        if n == 0 {
            assert(rows == dump_rows(n as nat, 16));
        }
        assert(hex_rows_from(chunk@, n as int) =~= Seq::<u8>::empty());
    }
    if rows < hex_lines {
        push_newlines(out, hex_lines - rows);
    }
}

/// Append the raw binary dump of a window: eight bytes per row, then
/// empty lines up to `bin_lines` rows when the window is shorter than
/// a full one.
pub fn print_raw_bin(out: &mut Vec<u8>, chunk: &[u8], bin_lines: usize)
    ensures
        final(out)@ == old(out)@ + bin_rows_from(chunk@, 0) + pad_rows(
            dump_rows(chunk@.len(), 8),
            bin_lines as nat,
        ),
{
    let n = chunk.len();
    let mut off: usize = 0;
    let mut rows: usize = 0;
    while off < n
        invariant
            off <= n == chunk@.len(),
            out@ + bin_rows_from(chunk@, off as int) == old(out)@ + bin_rows_from(chunk@, 0),
            (off < n ==> off % 8 == 0 && rows == off / 8),
            (off == n ==> rows == dump_rows(n as nat, 8)),
            rows <= n,
        decreases n - off,
    {
        let end = if BIN_LINE_SIZE <= n - off {
            off + BIN_LINE_SIZE
        } else {
            n
        };
        push_bin_row(out, &chunk[off..end]);
        proof {
            assert(bin_rows_from(chunk@, off as int) == bin_row_text(
                chunk@.subrange(off as int, end as int),
            ) + bin_rows_from(chunk@, end as int));
            if end == off + 8 {
                assert(end as int % 8 == 0 && end as int / 8 == off as int / 8 + 1)
                    by (nonlinear_arith)
                    requires
                        off as int % 8 == 0,
                        end == off + 8,
                ;
            }
            if end == n {
                assert(rows + 1 == dump_rows(n as nat, 8)) by (nonlinear_arith)
                    requires
                        off as int % 8 == 0,
                        rows == off as int / 8,
                        off < n <= off + 8,
                        dump_rows(n as nat, 8) == ((n + 7) as nat) / 8,
                ;
            }
        }
        rows = rows + 1;
        off = end;
    }
    proof {
        if n == 0 {
            assert(rows == dump_rows(n as nat, 8));
        }
        assert(bin_rows_from(chunk@, n as int) =~= Seq::<u8>::empty());
    }
    if rows < bin_lines {
        push_newlines(out, bin_lines - rows);
    }
}

/// Append the raw ascii dump of a window: sixteen bytes per row in
/// their lossy text form, then empty lines up to `hex_lines` rows when
/// the window is shorter than a full one.
pub fn print_raw_ascii(out: &mut Vec<u8>, chunk: &[u8], hex_lines: usize)
    ensures
        final(out)@ == old(out)@ + ascii_rows_from(chunk@, 0) + pad_rows(
            dump_rows(chunk@.len(), 16),
            hex_lines as nat,
        ),
{
    let n = chunk.len();
    let mut off: usize = 0;
    let mut rows: usize = 0;
    while off < n
        invariant
            off <= n == chunk@.len(),
            out@ + ascii_rows_from(chunk@, off as int) == old(out)@ + ascii_rows_from(chunk@, 0),
            (off < n ==> off % 16 == 0 && rows == off / 16),
            (off == n ==> rows == dump_rows(n as nat, 16)),
            rows <= n,
        decreases n - off,
    {
        let end = if HEX_LINE_SIZE <= n - off {
            off + HEX_LINE_SIZE
        } else {
            n
        };
        push_ascii_row(out, &chunk[off..end]);
        proof {
            assert(ascii_rows_from(chunk@, off as int) == ascii_row_text(
                chunk@.subrange(off as int, end as int),
            ) + ascii_rows_from(chunk@, end as int));
            if end == off + 16 {
                assert(end as int % 16 == 0 && end as int / 16 == off as int / 16 + 1)
                    by (nonlinear_arith)
                    requires
                        off as int % 16 == 0,
                        end == off + 16,
                ;
            }
            if end == n {
                assert(rows + 1 == dump_rows(n as nat, 16)) by (nonlinear_arith)
                    requires
                        off as int % 16 == 0,
                        rows == off as int / 16,
                        off < n <= off + 16,
                        dump_rows(n as nat, 16) == ((n + 15) as nat) / 16,
                ;
            }
        }
        rows = rows + 1;
        off = end;
    }
    proof {
        if n == 0 {
            assert(rows == dump_rows(n as nat, 16));
        }
        assert(ascii_rows_from(chunk@, n as int) =~= Seq::<u8>::empty());
    }
    if rows < hex_lines {
        push_newlines(out, hex_lines - rows);
    }
}

/// The cursor-position line printed above a field.
pub open spec fn bitpos_text(bitpos: nat) -> Seq<u8> {
    "byte ".spec_bytes() + num_ascii(bitpos / 8, 10, 1) + ", bit ".spec_bytes() + num_ascii(
        bitpos % 8,
        10,
        1,
    ) + "\n".spec_bytes()
}

/// Append the position of the bit cursor, as a byte and a bit offset.
pub fn print_bitpos(out: &mut Vec<u8>, bitpos: usize)
    ensures
        final(out)@ == old(out)@ + bitpos_text(bitpos as nat),
{
    push_str_bytes(out, "byte ");
    push_num(out, (bitpos / 8) as u128, 10, 1);
    push_str_bytes(out, ", bit ");
    push_num(out, (bitpos % 8) as u128, 10, 1);
    push_str_bytes(out, "\n");
}

/// The statistics block: one line each for the message counter, the
/// message length, the window size, and the current window's index and
/// start position.
pub open spec fn stats_text(stats: Stats, chunksize: nat) -> Seq<u8> {
    "Message no: ".spec_bytes() + num_ascii(stats.message_count as nat, 10, 1)
        + "\nMessage length: ".spec_bytes() + num_ascii(stats.message_len as nat, 10, 1)
        + " bytes\nChunk length: ".spec_bytes() + num_ascii(chunksize, 10, 1)
        + " bytes\nCurrent chunk in this message: ".spec_bytes() + num_ascii(
        stats.chunk_count as nat,
        10,
        1,
    ) + "\nChunk starts at byte ".spec_bytes() + num_ascii(stats.chunk_start as nat, 10, 1)
        + " of message\n".spec_bytes()
}

/// Append the statistics block for the current window.
pub fn print_statistics(stats: &Stats, out: &mut Vec<u8>, chunksize: usize)
    ensures
        final(out)@ == old(out)@ + stats_text(*stats, chunksize as nat),
{
    push_str_bytes(out, "Message no: ");
    push_num(out, stats.message_count as u128, 10, 1);
    push_str_bytes(out, "\nMessage length: ");
    push_num(out, stats.message_len as u128, 10, 1);
    push_str_bytes(out, " bytes\nChunk length: ");
    push_num(out, chunksize as u128, 10, 1);
    push_str_bytes(out, " bytes\nCurrent chunk in this message: ");
    push_num(out, stats.chunk_count as u128, 10, 1);
    push_str_bytes(out, "\nChunk starts at byte ");
    push_num(out, stats.chunk_start as u128, 10, 1);
    push_str_bytes(out, " of message\n");
}

/// Everything printed above a window's field lines: the timestamp line
/// when enabled (rendered by the caller, since it reads the clock), the
/// statistics block, the raw dumps, and a separating empty line when
/// any of the block except the ascii dump was printed.
pub open spec fn additional_text(
    args: Args,
    stats: Stats,
    chunk: Seq<u8>,
    chunksize: nat,
    timestamp_line: Seq<u8>,
) -> Seq<u8> {
    (if args.timestamp {
        timestamp_line
    } else {
        Seq::empty()
    }) + (if args.print_statistics {
        stats_text(stats, chunksize)
    } else {
        Seq::empty()
    }) + (if args.rawhex {
        hex_rows_from(chunk, 0) + pad_rows(dump_rows(chunk.len(), 16), stats.hex_lines as nat)
    } else {
        Seq::empty()
    }) + (if args.rawbin {
        bin_rows_from(chunk, 0) + pad_rows(dump_rows(chunk.len(), 8), stats.bin_lines as nat)
    } else {
        Seq::empty()
    }) + (if args.rawascii {
        ascii_rows_from(chunk, 0) + pad_rows(dump_rows(chunk.len(), 16), stats.hex_lines as nat)
    } else {
        Seq::empty()
    }) + (if args.rawbin || args.rawhex || args.timestamp || args.print_statistics {
        "\n".spec_bytes()
    } else {
        Seq::empty()
    })
}

/// Append the optional blocks above a window's field lines, in their
/// fixed order.  `timestamp_line` is the pre-rendered clock line
/// (including its line break) and is used only when the timestamp
/// option is on.
#[verifier::rlimit(100)]
#[verifier::spinoff_prover]
pub fn print_additional(
    args: &Args,
    stats: &Stats,
    out: &mut Vec<u8>,
    chunk: &[u8],
    chunksize: usize,
    timestamp_line: &[u8],
)
    ensures
        final(out)@ == old(out)@ + additional_text(
            *args,
            *stats,
            chunk@,
            chunksize as nat,
            timestamp_line@,
        ),
{
    print_header(args, stats, out, chunksize, timestamp_line);
    print_raw_dumps(args, stats, out, chunk);
    if args.rawbin || args.rawhex || args.timestamp || args.print_statistics {
        push_str_bytes(out, "\n");
    }
    proof {
        assert(out@ =~= old(out)@ + additional_text(
            *args,
            *stats,
            chunk@,
            chunksize as nat,
            timestamp_line@,
        ));
    }
}

/// Append the timestamp line and the statistics block, where enabled.
fn print_header(
    args: &Args,
    stats: &Stats,
    out: &mut Vec<u8>,
    chunksize: usize,
    timestamp_line: &[u8],
)
    ensures
        final(out)@ == old(out)@ + ((if args.timestamp {
            timestamp_line@
        } else {
            Seq::<u8>::empty()
        }) + (if args.print_statistics {
            stats_text(*stats, chunksize as nat)
        } else {
            Seq::<u8>::empty()
        })),
{
    if args.timestamp {
        push_bytes(out, timestamp_line);
    }
    if args.print_statistics {
        print_statistics(stats, out, chunksize);
    }
    proof {
        assert(out@ =~= old(out)@ + ((if args.timestamp {
            timestamp_line@
        } else {
            Seq::<u8>::empty()
        }) + (if args.print_statistics {
            stats_text(*stats, chunksize as nat)
        } else {
            Seq::<u8>::empty()
        })));
    }
}

/// Append the enabled raw dumps of the window, hex then binary then
/// ascii.
fn print_raw_dumps(args: &Args, stats: &Stats, out: &mut Vec<u8>, chunk: &[u8])
    ensures
        final(out)@ == old(out)@ + ((if args.rawhex {
            hex_rows_from(chunk@, 0) + pad_rows(dump_rows(chunk@.len(), 16), stats.hex_lines as nat)
        } else {
            Seq::<u8>::empty()
        }) + (if args.rawbin {
            bin_rows_from(chunk@, 0) + pad_rows(dump_rows(chunk@.len(), 8), stats.bin_lines as nat)
        } else {
            Seq::<u8>::empty()
        }) + (if args.rawascii {
            ascii_rows_from(chunk@, 0) + pad_rows(dump_rows(chunk@.len(), 16), stats.hex_lines as nat)
        } else {
            Seq::<u8>::empty()
        })),
{
    let ghost p3 = (if args.rawhex {
        hex_rows_from(chunk@, 0) + pad_rows(dump_rows(chunk@.len(), 16), stats.hex_lines as nat)
    } else {
        Seq::<u8>::empty()
    });
    let ghost p4 = (if args.rawbin {
        bin_rows_from(chunk@, 0) + pad_rows(dump_rows(chunk@.len(), 8), stats.bin_lines as nat)
    } else {
        Seq::<u8>::empty()
    });
    let ghost p5 = (if args.rawascii {
        ascii_rows_from(chunk@, 0) + pad_rows(dump_rows(chunk@.len(), 16), stats.hex_lines as nat)
    } else {
        Seq::<u8>::empty()
    });
    if args.rawhex {
        print_raw_hex(out, chunk, stats.hex_lines);
    }
    proof {
        assert(out@ =~= old(out)@ + p3);
    }
    if args.rawbin {
        print_raw_bin(out, chunk, stats.bin_lines);
    }
    proof {
        assert(out@ =~= old(out)@ + (p3 + p4));
    }
    if args.rawascii {
        print_raw_ascii(out, chunk, stats.hex_lines);
    }
    proof {
        assert(out@ =~= old(out)@ + (p3 + p4 + p5));
    }
}

/// Append the bytes of a slice.
pub fn push_bytes(out: &mut Vec<u8>, s: &[u8])
    ensures
        final(out)@ == old(out)@ + s@,
{
    let n = s.len();
    let mut i: usize = 0;
    while i < n
        invariant
            n == s@.len(),
            i <= n,
            out@ == old(out)@ + s@.take(i as int),
        decreases n - i,
    {
        out.push(s[i]);
        i = i + 1;
        proof {
            assert(out@ =~= old(out)@ + s@.take(i as int));
        }
    }
    proof {
        assert(s@.take(n as int) =~= s@);
    }
}

/// How many terminal lines one rendered window occupies: one line per
/// schema field plus the trailing empty line, the raw dump rows, the
/// optional timestamp line, the five statistics lines, one extra line
/// per field for the cursor positions, and the separator under the
/// optional block.  The separator is drawn only for the hex dump, the
/// binary dump, the timestamp and the statistics, so the ascii dump
/// alone adds none.  The redraw maneuver moves the cursor up by exactly
/// this count.
pub open spec fn count_lines_spec(args: Args, stats: Stats, n_conf_lines: nat) -> nat {
    n_conf_lines + 1 + (if args.rawhex {
        stats.hex_lines as nat
    } else {
        0nat
    }) + (if args.rawbin {
        stats.bin_lines as nat
    } else {
        0nat
    }) + (if args.rawascii {
        stats.hex_lines as nat
    } else {
        0nat
    }) + (if args.timestamp {
        1nat
    } else {
        0nat
    }) + (if args.print_statistics {
        5nat
    } else {
        0nat
    }) + (if args.print_bitpos {
        n_conf_lines
    } else {
        0nat
    }) + (if args.rawbin || args.rawhex || args.timestamp || args.print_statistics {
        1nat
    } else {
        0nat
    })
}

/// Count the terminal lines one rendered window occupies.
pub fn count_lines(args: &Args, stats: &Stats, n_conf_lines: usize) -> (r: u16)
    requires
        count_lines_spec(*args, *stats, n_conf_lines as nat) <= u16::MAX,
    ensures
        r == count_lines_spec(*args, *stats, n_conf_lines as nat),
{
    let mut extra: u128 = (n_conf_lines as u128) + 1;
    if args.rawhex {
        extra = extra + (stats.hex_lines as u128);
    }
    if args.rawbin {
        extra = extra + (stats.bin_lines as u128);
    }
    if args.rawascii {
        extra = extra + (stats.hex_lines as u128);
    }
    if args.timestamp {
        extra = extra + 1;
    }
    if args.print_statistics {
        extra = extra + 5;
    }
    if args.print_bitpos {
        extra = extra + (n_conf_lines as u128);
    }
    if args.rawbin || args.rawhex || args.timestamp || args.print_statistics {
        extra = extra + 1;
    }
    extra as u16
}

/// Number of line breaks in a rendered text.
pub open spec fn nl_count(s: Seq<u8>) -> nat
    decreases s.len(),
{
    if s.len() == 0 {
        0
    } else {
        nl_count(s.drop_last()) + (if s.last() == 10 {
            1nat
        } else {
            0nat
        })
    }
}

/// Line breaks distribute over concatenation.
pub proof fn lemma_nl_count_add(a: Seq<u8>, b: Seq<u8>)
    ensures
        nl_count(a + b) == nl_count(a) + nl_count(b),
    decreases b.len(),
{
    if b.len() == 0 {
        assert(a + b =~= a);
    } else {
        lemma_nl_count_add(a, b.drop_last());
        assert((a + b).drop_last() =~= a + b.drop_last());
        assert((a + b).last() == b.last());
    }
}

pub proof fn lemma_nl_count_none(s: Seq<u8>)
    requires
        forall|i: int| 0 <= i < s.len() ==> #[trigger] s[i] != 10,
    ensures
        nl_count(s) == 0,
    decreases s.len(),
{
    if s.len() > 0 {
        lemma_nl_count_none(s.drop_last());
    }
}

pub proof fn lemma_nl_count_digits(n: nat, base: nat, min_len: nat)
    requires
        2 <= base <= 16,
    ensures
        nl_count(num_ascii(n, base, min_len)) == 0,
    decreases n, min_len,
{
    assert(nl_count(Seq::<u8>::empty()) == 0);
    if base < 2 {
    } else if n < base && min_len <= 1 {
        assert(seq![digit_ascii(n)].drop_last() =~= Seq::<u8>::empty());
        assert(seq![digit_ascii(n)].last() == digit_ascii(n));
        assert(digit_ascii(n) != 10);
    } else {
        assert(n / base <= n && (n >= base ==> n / base < n)) by (nonlinear_arith)
            requires
                base >= 2,
        ;
        let rest: nat = if min_len == 0 {
            0nat
        } else {
            (min_len - 1) as nat
        };
        lemma_nl_count_digits(n / base, base, rest);
        let x = num_ascii(n / base, base, rest);
        assert(x.push(digit_ascii(n % base)).drop_last() =~= x);
    }
}

proof fn lemma_nl_counts_of_literals()
    ensures
        nl_count("[".spec_bytes()) == 0,
        nl_count(", ".spec_bytes()) == 0,
        nl_count("]\n".spec_bytes()) == 1,
        nl_count(" ".spec_bytes()) == 0,
        nl_count("\n".spec_bytes()) == 1,
        nl_count("[ ".spec_bytes()) == 0,
        nl_count(" ]\n".spec_bytes()) == 1,
        nl_count("Message no: ".spec_bytes()) == 0,
        nl_count("\nMessage length: ".spec_bytes()) == 1,
        nl_count(" bytes\nChunk length: ".spec_bytes()) == 1,
        nl_count(" bytes\nCurrent chunk in this message: ".spec_bytes()) == 1,
        nl_count("\nChunk starts at byte ".spec_bytes()) == 1,
        nl_count(" of message\n".spec_bytes()) == 1,
        nl_count("byte ".spec_bytes()) == 0,
        nl_count(", bit ".spec_bytes()) == 0,
        nl_count("-".spec_bytes()) == 0,
        nl_count("0x".spec_bytes()) == 0,
{
    reveal_with_fuel(nl_count, 45);
    reveal_strlit("[");
    assert(vstd::string::is_ascii("["));
    assert("[".spec_bytes() =~= Seq::new("["@.len(), |i: int| "["@.index(i) as u8));
    reveal_strlit(", ");
    assert(vstd::string::is_ascii(", "));
    assert(", ".spec_bytes() =~= Seq::new(", "@.len(), |i: int| ", "@.index(i) as u8));
    reveal_strlit("]\n");
    assert(vstd::string::is_ascii("]\n"));
    assert("]\n".spec_bytes() =~= Seq::new("]\n"@.len(), |i: int| "]\n"@.index(i) as u8));
    reveal_strlit(" ");
    assert(vstd::string::is_ascii(" "));
    assert(" ".spec_bytes() =~= Seq::new(" "@.len(), |i: int| " "@.index(i) as u8));
    reveal_strlit("\n");
    assert(vstd::string::is_ascii("\n"));
    assert("\n".spec_bytes() =~= Seq::new("\n"@.len(), |i: int| "\n"@.index(i) as u8));
    reveal_strlit("[ ");
    assert(vstd::string::is_ascii("[ "));
    assert("[ ".spec_bytes() =~= Seq::new("[ "@.len(), |i: int| "[ "@.index(i) as u8));
    reveal_strlit(" ]\n");
    assert(vstd::string::is_ascii(" ]\n"));
    assert(" ]\n".spec_bytes() =~= Seq::new(" ]\n"@.len(), |i: int| " ]\n"@.index(i) as u8));
    reveal_strlit("Message no: ");
    assert(vstd::string::is_ascii("Message no: "));
    assert("Message no: ".spec_bytes() =~= Seq::new(
        "Message no: "@.len(),
        |i: int| "Message no: "@.index(i) as u8,
    ));
    reveal_strlit("\nMessage length: ");
    assert(vstd::string::is_ascii("\nMessage length: "));
    assert("\nMessage length: ".spec_bytes() =~= Seq::new(
        "\nMessage length: "@.len(),
        |i: int| "\nMessage length: "@.index(i) as u8,
    ));
    reveal_strlit(" bytes\nChunk length: ");
    assert(vstd::string::is_ascii(" bytes\nChunk length: "));
    assert(" bytes\nChunk length: ".spec_bytes() =~= Seq::new(
        " bytes\nChunk length: "@.len(),
        |i: int| " bytes\nChunk length: "@.index(i) as u8,
    ));
    reveal_strlit(" bytes\nCurrent chunk in this message: ");
    assert(vstd::string::is_ascii(" bytes\nCurrent chunk in this message: "));
    assert(" bytes\nCurrent chunk in this message: ".spec_bytes() =~= Seq::new(
        " bytes\nCurrent chunk in this message: "@.len(),
        |i: int| " bytes\nCurrent chunk in this message: "@.index(i) as u8,
    ));
    reveal_strlit("\nChunk starts at byte ");
    assert(vstd::string::is_ascii("\nChunk starts at byte "));
    assert("\nChunk starts at byte ".spec_bytes() =~= Seq::new(
        "\nChunk starts at byte "@.len(),
        |i: int| "\nChunk starts at byte "@.index(i) as u8,
    ));
    reveal_strlit(" of message\n");
    assert(vstd::string::is_ascii(" of message\n"));
    assert(" of message\n".spec_bytes() =~= Seq::new(
        " of message\n"@.len(),
        |i: int| " of message\n"@.index(i) as u8,
    ));
    reveal_strlit("byte ");
    assert(vstd::string::is_ascii("byte "));
    assert("byte ".spec_bytes() =~= Seq::new(
        "byte "@.len(),
        |i: int| "byte "@.index(i) as u8,
    ));
    reveal_strlit(", bit ");
    assert(vstd::string::is_ascii(", bit "));
    assert(", bit ".spec_bytes() =~= Seq::new(
        ", bit "@.len(),
        |i: int| ", bit "@.index(i) as u8,
    ));
    reveal_strlit("-");
    assert(vstd::string::is_ascii("-"));
    assert("-".spec_bytes() =~= Seq::new("-"@.len(), |i: int| "-"@.index(i) as u8));
    reveal_strlit("0x");
    assert(vstd::string::is_ascii("0x"));
    assert("0x".spec_bytes() =~= Seq::new("0x"@.len(), |i: int| "0x"@.index(i) as u8));
}

/// A fixed-width integer's value text holds no line break.
pub proof fn lemma_nl_count_format_number(u: nat, width: nat, signed: bool, form: Format)
    ensures
        nl_count(format_number_text(u, width, signed, form)) == 0,
{
    lemma_nl_counts_of_literals();
    match form {
        Format::Norm => {
            if signed && u >= pow2((width - 1) as nat) {
                lemma_nl_count_digits((pow2(width) - u) as nat, 10, 1);
                lemma_nl_count_add("-".spec_bytes(), num_ascii((pow2(width) - u) as nat, 10, 1));
            } else {
                lemma_nl_count_digits(u, 10, 1);
            }
        },
        Format::Hex => {
            lemma_nl_count_digits(u, 16, 2);
            lemma_nl_count_add("0x".spec_bytes(), num_ascii(u, 16, 2));
        },
        Format::Bin => {
            lemma_nl_count_digits(u, 2, 8);
        },
    }
}

/// A cursor-position line is one terminal line.
pub proof fn lemma_nl_count_bitpos(bitpos: nat)
    ensures
        nl_count(bitpos_text(bitpos)) == 1,
{
    lemma_nl_counts_of_literals();
    lemma_nl_count_digits(bitpos / 8, 10, 1);
    lemma_nl_count_digits(bitpos % 8, 10, 1);
    let t1 = "byte ".spec_bytes();
    let t2 = num_ascii(bitpos / 8, 10, 1);
    let t3 = ", bit ".spec_bytes();
    let t4 = num_ascii(bitpos % 8, 10, 1);
    let t5 = "\n".spec_bytes();
    lemma_nl_count_add(t1, t2);
    lemma_nl_count_add(t1 + t2, t3);
    lemma_nl_count_add(t1 + t2 + t3, t4);
    lemma_nl_count_add(t1 + t2 + t3 + t4, t5);
}

proof fn lemma_nl_count_hex_row_inner(row: Seq<u8>)
    ensures
        nl_count(hex_row_inner(row)) == 0,
    decreases row.len(),
{
    lemma_nl_counts_of_literals();
    if row.len() == 0 {
    } else if row.len() == 1 {
        lemma_nl_count_digits(row[0] as nat, 16, 2);
    } else {
        lemma_nl_count_hex_row_inner(row.drop_last());
        lemma_nl_count_digits(row.last() as nat, 16, 2);
        lemma_nl_count_add(hex_row_inner(row.drop_last()), ", ".spec_bytes());
        lemma_nl_count_add(
            hex_row_inner(row.drop_last()) + ", ".spec_bytes(),
            num_ascii(row.last() as nat, 16, 2),
        );
    }
}

proof fn lemma_nl_count_hex_row(row: Seq<u8>)
    ensures
        nl_count(hex_row_text(row)) == 1,
{
    lemma_nl_counts_of_literals();
    lemma_nl_count_hex_row_inner(row);
    lemma_nl_count_add("[".spec_bytes(), hex_row_inner(row));
    lemma_nl_count_add("[".spec_bytes() + hex_row_inner(row), "]\n".spec_bytes());
}

proof fn lemma_nl_count_bin_row_inner(row: Seq<u8>)
    ensures
        nl_count(bin_row_inner(row)) == 0,
    decreases row.len(),
{
    lemma_nl_counts_of_literals();
    if row.len() > 0 {
        lemma_nl_count_bin_row_inner(row.drop_last());
        lemma_nl_count_digits(row.last() as nat, 2, 8);
        lemma_nl_count_add(bin_row_inner(row.drop_last()), num_ascii(row.last() as nat, 2, 8));
        lemma_nl_count_add(
            bin_row_inner(row.drop_last()) + num_ascii(row.last() as nat, 2, 8),
            " ".spec_bytes(),
        );
    }
}

proof fn lemma_nl_count_bin_row(row: Seq<u8>)
    ensures
        nl_count(bin_row_text(row)) == 1,
{
    lemma_nl_counts_of_literals();
    lemma_nl_count_bin_row_inner(row);
    lemma_nl_count_add(bin_row_inner(row), "\n".spec_bytes());
}

proof fn lemma_nl_count_ascii_row(row: Seq<u8>)
    ensures
        nl_count(ascii_row_text(row)) == 1,
{
    lemma_nl_counts_of_literals();
    let stripped = strip_newlines(utf8_lossy(row));
    assert forall|i: int| 0 <= i < stripped.len() implies #[trigger] stripped[i] != 10 by {
        utf8_lossy(row).lemma_filter_pred(|b: u8| b != 10, i);
    }
    lemma_nl_count_none(stripped);
    lemma_nl_count_add("[ ".spec_bytes(), stripped);
    lemma_nl_count_add("[ ".spec_bytes() + stripped, " ]\n".spec_bytes());
}

proof fn lemma_nl_count_pad(n: nat)
    ensures
        nl_count(newline_pad(n)) == n,
    decreases n,
{
    lemma_nl_counts_of_literals();
    if n > 0 {
        lemma_nl_count_pad((n - 1) as nat);
        lemma_nl_count_add(newline_pad((n - 1) as nat), "\n".spec_bytes());
    }
}

proof fn lemma_nl_count_hex_rows(chunk: Seq<u8>, off: int)
    requires
        0 <= off <= chunk.len(),
    ensures
        nl_count(hex_rows_from(chunk, off)) == dump_rows((chunk.len() - off) as nat, 16),
    decreases chunk.len() - off,
{
    let m = chunk.len() - off;
    if off >= chunk.len() {
        assert(dump_rows(0, 16) == 0);
    } else if m <= 16 {
        lemma_nl_count_hex_row(chunk.subrange(off, chunk.len() as int));
        assert(dump_rows(m as nat, 16) == 1) by (nonlinear_arith)
            requires
                1 <= m <= 16,
                dump_rows(m as nat, 16) == ((m + 15) as nat) / 16,
        ;
    } else {
        lemma_nl_count_hex_rows(chunk, off + 16);
        lemma_nl_count_hex_row(chunk.subrange(off, off + 16));
        lemma_nl_count_add(
            hex_row_text(chunk.subrange(off, off + 16)),
            hex_rows_from(chunk, off + 16),
        );
        assert(dump_rows(m as nat, 16) == 1 + dump_rows((m - 16) as nat, 16))
            by (nonlinear_arith)
            requires
                m > 16,
                dump_rows(m as nat, 16) == ((m + 15) as nat) / 16,
                dump_rows((m - 16) as nat, 16) == ((m - 1) as nat) / 16,
        ;
    }
}

proof fn lemma_nl_count_bin_rows(chunk: Seq<u8>, off: int)
    requires
        0 <= off <= chunk.len(),
    ensures
        nl_count(bin_rows_from(chunk, off)) == dump_rows((chunk.len() - off) as nat, 8),
    decreases chunk.len() - off,
{
    let m = chunk.len() - off;
    if off >= chunk.len() {
        assert(dump_rows(0, 8) == 0);
    } else if m <= 8 {
        lemma_nl_count_bin_row(chunk.subrange(off, chunk.len() as int));
        assert(dump_rows(m as nat, 8) == 1) by (nonlinear_arith)
            requires
                1 <= m <= 8,
                dump_rows(m as nat, 8) == ((m + 7) as nat) / 8,
        ;
    } else {
        lemma_nl_count_bin_rows(chunk, off + 8);
        lemma_nl_count_bin_row(chunk.subrange(off, off + 8));
        lemma_nl_count_add(
            bin_row_text(chunk.subrange(off, off + 8)),
            bin_rows_from(chunk, off + 8),
        );
        assert(dump_rows(m as nat, 8) == 1 + dump_rows((m - 8) as nat, 8)) by (nonlinear_arith)
            requires
                m > 8,
                dump_rows(m as nat, 8) == ((m + 7) as nat) / 8,
                dump_rows((m - 8) as nat, 8) == ((m - 1) as nat) / 8,
        ;
    }
}

proof fn lemma_nl_count_ascii_rows(chunk: Seq<u8>, off: int)
    requires
        0 <= off <= chunk.len(),
    ensures
        nl_count(ascii_rows_from(chunk, off)) == dump_rows((chunk.len() - off) as nat, 16),
    decreases chunk.len() - off,
{
    let m = chunk.len() - off;
    if off >= chunk.len() {
        assert(dump_rows(0, 16) == 0);
    } else if m <= 16 {
        lemma_nl_count_ascii_row(chunk.subrange(off, chunk.len() as int));
        assert(dump_rows(m as nat, 16) == 1) by (nonlinear_arith)
            requires
                1 <= m <= 16,
                dump_rows(m as nat, 16) == ((m + 15) as nat) / 16,
        ;
    } else {
        lemma_nl_count_ascii_rows(chunk, off + 16);
        lemma_nl_count_ascii_row(chunk.subrange(off, off + 16));
        lemma_nl_count_add(
            ascii_row_text(chunk.subrange(off, off + 16)),
            ascii_rows_from(chunk, off + 16),
        );
        assert(dump_rows(m as nat, 16) == 1 + dump_rows((m - 16) as nat, 16))
            by (nonlinear_arith)
            requires
                m > 16,
                dump_rows(m as nat, 16) == ((m + 15) as nat) / 16,
                dump_rows((m - 16) as nat, 16) == ((m - 1) as nat) / 16,
        ;
    }
}

proof fn lemma_nl_count_stats(stats: Stats, cs: nat)
    ensures
        nl_count(stats_text(stats, cs)) == 5,
{
    lemma_nl_counts_of_literals();
    lemma_nl_count_digits(stats.message_count as nat, 10, 1);
    lemma_nl_count_digits(stats.message_len as nat, 10, 1);
    lemma_nl_count_digits(cs, 10, 1);
    lemma_nl_count_digits(stats.chunk_count as nat, 10, 1);
    lemma_nl_count_digits(stats.chunk_start as nat, 10, 1);
    let t1 = "Message no: ".spec_bytes();
    let t2 = num_ascii(stats.message_count as nat, 10, 1);
    let t3 = "\nMessage length: ".spec_bytes();
    let t4 = num_ascii(stats.message_len as nat, 10, 1);
    let t5 = " bytes\nChunk length: ".spec_bytes();
    let t6 = num_ascii(cs, 10, 1);
    let t7 = " bytes\nCurrent chunk in this message: ".spec_bytes();
    let t8 = num_ascii(stats.chunk_count as nat, 10, 1);
    let t9 = "\nChunk starts at byte ".spec_bytes();
    let t10 = num_ascii(stats.chunk_start as nat, 10, 1);
    let t11 = " of message\n".spec_bytes();
    lemma_nl_count_add(t1, t2);
    lemma_nl_count_add(t1 + t2, t3);
    lemma_nl_count_add(t1 + t2 + t3, t4);
    lemma_nl_count_add(t1 + t2 + t3 + t4, t5);
    lemma_nl_count_add(t1 + t2 + t3 + t4 + t5, t6);
    lemma_nl_count_add(t1 + t2 + t3 + t4 + t5 + t6, t7);
    lemma_nl_count_add(t1 + t2 + t3 + t4 + t5 + t6 + t7, t8);
    lemma_nl_count_add(t1 + t2 + t3 + t4 + t5 + t6 + t7 + t8, t9);
    lemma_nl_count_add(t1 + t2 + t3 + t4 + t5 + t6 + t7 + t8 + t9, t10);
    lemma_nl_count_add(t1 + t2 + t3 + t4 + t5 + t6 + t7 + t8 + t9 + t10, t11);
}

/// The redraw accountant is right about the optional block: the block
/// above a window's field lines occupies exactly the terminal lines
/// that `count_lines` charges for it, whenever the stored row counts
/// cover this window (they are taken from the message's first and
/// largest window) and the timestamp text is one line.
pub proof fn lemma_additional_block_line_count(
    args: Args,
    stats: Stats,
    chunk: Seq<u8>,
    cs: nat,
    ts: Seq<u8>,
)
    requires
        args.timestamp ==> nl_count(ts) == 1,
        stats.hex_lines >= dump_rows(chunk.len(), 16),
        stats.bin_lines >= dump_rows(chunk.len(), 8),
    ensures
        nl_count(additional_text(args, stats, chunk, cs, ts)) + 1 == count_lines_spec(
            args,
            stats,
            0,
        ),
{
    lemma_nl_counts_of_literals();
    let p1: Seq<u8> = if args.timestamp {
        ts
    } else {
        Seq::empty()
    };
    let p2: Seq<u8> = if args.print_statistics {
        stats_text(stats, cs)
    } else {
        Seq::empty()
    };
    let p3: Seq<u8> = if args.rawhex {
        hex_rows_from(chunk, 0) + pad_rows(dump_rows(chunk.len(), 16), stats.hex_lines as nat)
    } else {
        Seq::empty()
    };
    let p4: Seq<u8> = if args.rawbin {
        bin_rows_from(chunk, 0) + pad_rows(dump_rows(chunk.len(), 8), stats.bin_lines as nat)
    } else {
        Seq::empty()
    };
    let p5: Seq<u8> = if args.rawascii {
        ascii_rows_from(chunk, 0) + pad_rows(dump_rows(chunk.len(), 16), stats.hex_lines as nat)
    } else {
        Seq::empty()
    };
    let p6: Seq<u8> = if args.rawbin || args.rawhex || args.timestamp || args.print_statistics {
        "\n".spec_bytes()
    } else {
        Seq::empty()
    };
    lemma_nl_count_stats(stats, cs);
    lemma_nl_count_hex_rows(chunk, 0);
    lemma_nl_count_bin_rows(chunk, 0);
    lemma_nl_count_ascii_rows(chunk, 0);
    lemma_nl_count_pad((stats.hex_lines as nat - dump_rows(chunk.len(), 16)) as nat);
    lemma_nl_count_pad((stats.bin_lines as nat - dump_rows(chunk.len(), 8)) as nat);
    lemma_nl_count_pad(0);
    assert(nl_count(p3) == (if args.rawhex { stats.hex_lines as nat } else { 0nat })) by {
        if args.rawhex {
            lemma_nl_count_add(
                hex_rows_from(chunk, 0),
                pad_rows(dump_rows(chunk.len(), 16), stats.hex_lines as nat),
            );
        }
    }
    assert(nl_count(p4) == (if args.rawbin { stats.bin_lines as nat } else { 0nat })) by {
        if args.rawbin {
            lemma_nl_count_add(
                bin_rows_from(chunk, 0),
                pad_rows(dump_rows(chunk.len(), 8), stats.bin_lines as nat),
            );
        }
    }
    assert(nl_count(p5) == (if args.rawascii { stats.hex_lines as nat } else { 0nat })) by {
        if args.rawascii {
            lemma_nl_count_add(
                ascii_rows_from(chunk, 0),
                pad_rows(dump_rows(chunk.len(), 16), stats.hex_lines as nat),
            );
        }
    }
    lemma_nl_count_add(p1, p2);
    lemma_nl_count_add(p1 + p2, p3);
    lemma_nl_count_add(p1 + p2 + p3, p4);
    lemma_nl_count_add(p1 + p2 + p3 + p4, p5);
    lemma_nl_count_add(p1 + p2 + p3 + p4 + p5, p6);
}

} // verus!

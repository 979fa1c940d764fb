//! Schema lines and their compilation.
//!
//! A schema is a plain-text file with one field per line.  A line reads
//! `name:kind` or `name:kind:param`; a `#` starts a trailing comment and
//! the first space ends the significant content.  The `kind` token and
//! the format letter are matched case-insensitively.

use crate::render::Format;
use vstd::prelude::*;
use vstd::string::StringSliceAdditionalSpecFns;

verus! {

broadcast use vstd::string::group_string_axioms;

/// Error for a schema line that cannot be parsed: the `name:kind`
/// separator is missing.
#[derive(Debug, PartialEq, Eq, Structural, Clone, Copy)]
pub enum SchemaError {
    MissingSeparator,
}

/// The kind token of a schema field, after case folding; `Unknown`
/// stands for any unrecognized token.
#[derive(Debug, PartialEq, Eq, Structural, Clone, Copy)]
pub enum FieldKind {
    Bool1,
    Bool8,
    UInt8,
    Int8,
    UInt16,
    Int16,
    UInt32,
    Int32,
    Float32,
    UInt64,
    Int64,
    Float64,
    UInt128,
    Int128,
    Text,
    IntArb,
    UIntArb,
    ByteGap,
    BitGap,
    Unknown,
}

/// Index of the first occurrence of `b` in `s`, or `-1` when absent.
pub open spec fn find_byte(s: Seq<u8>, b: u8) -> int
    decreases s.len(),
{
    if s.len() == 0 {
        -1
    } else if s[0] == b {
        0
    } else if find_byte(s.drop_first(), b) < 0 {
        -1
    } else {
        1 + find_byte(s.drop_first(), b)
    }
}

pub proof fn lemma_find_byte(s: Seq<u8>, b: u8)
    ensures
        find_byte(s, b) == -1 || (0 <= find_byte(s, b) < s.len() && s[find_byte(s, b)] == b),
        find_byte(s, b) == -1 ==> forall|j: int| 0 <= j < s.len() ==> s[j] != b,
        find_byte(s, b) >= 0 ==> forall|j: int| 0 <= j < find_byte(s, b) ==> s[j] != b,
    decreases s.len(),
{
    if s.len() > 0 && s[0] != b {
        lemma_find_byte(s.drop_first(), b);
        assert(forall|j: int| 1 <= j < s.len() ==> s[j] == s.drop_first()[j - 1]);
    }
}

/// The prefix of `s` up to (excluding) the first occurrence of `b`, or
/// all of `s` when `b` does not occur.
pub open spec fn before_byte(s: Seq<u8>, b: u8) -> Seq<u8> {
    if find_byte(s, b) >= 0 {
        s.take(find_byte(s, b))
    } else {
        s
    }
}

/// The significant content of a schema line: everything before a `#`
/// comment and before the first space.
pub open spec fn line_content(line: Seq<u8>) -> Seq<u8> {
    before_byte(before_byte(line, 35u8), 32u8)  // '#' then ' '
}

/// Whether the line carries the mandatory `:` separator.
pub open spec fn line_has_sep(line: Seq<u8>) -> bool {
    find_byte(line_content(line), 58u8) >= 0  // ':'
}

/// The field name: content before the first `:`.
pub open spec fn line_name(line: Seq<u8>) -> Seq<u8>
    recommends
        line_has_sep(line),
{
    line_content(line).take(find_byte(line_content(line), 58u8))
}

/// Content after the first `:`: the kind token and an optional param.
pub open spec fn line_rest(line: Seq<u8>) -> Seq<u8>
    recommends
        line_has_sep(line),
{
    line_content(line).skip(find_byte(line_content(line), 58u8) + 1)
}

/// The kind token, with its original case.
pub open spec fn line_kind_token(line: Seq<u8>) -> Seq<u8>
    recommends
        line_has_sep(line),
{
    before_byte(line_rest(line), 58u8)
}

/// The param token after the second `:`, when there is one.
pub open spec fn line_param(line: Seq<u8>) -> Option<Seq<u8>>
    recommends
        line_has_sep(line),
{
    if find_byte(line_rest(line), 58u8) >= 0 {
        Some(line_rest(line).skip(find_byte(line_rest(line), 58u8) + 1))
    } else {
        None
    }
}

/// ASCII lower-casing of one byte.
pub open spec fn lower_byte(c: u8) -> u8 {
    if 65 <= c <= 90 {
        (c + 32) as u8
    } else {
        c
    }
}

/// ASCII lower-casing of a token.
pub open spec fn lower(s: Seq<u8>) -> Seq<u8> {
    s.map_values(|c: u8| lower_byte(c))
}

/// The field kind a token names, matched case-insensitively.
pub open spec fn kind_of(s: Seq<u8>) -> FieldKind {
    let l = lower(s);
    if l == "bool1".spec_bytes() {
        FieldKind::Bool1
    } else if l == "bool8".spec_bytes() {
        FieldKind::Bool8
    } else if l == "u8".spec_bytes() {
        FieldKind::UInt8
    } else if l == "i8".spec_bytes() {
        FieldKind::Int8
    } else if l == "u16".spec_bytes() {
        FieldKind::UInt16
    } else if l == "i16".spec_bytes() {
        FieldKind::Int16
    } else if l == "u32".spec_bytes() {
        FieldKind::UInt32
    } else if l == "i32".spec_bytes() {
        FieldKind::Int32
    } else if l == "f32".spec_bytes() {
        FieldKind::Float32
    } else if l == "u64".spec_bytes() {
        FieldKind::UInt64
    } else if l == "i64".spec_bytes() {
        FieldKind::Int64
    } else if l == "f64".spec_bytes() {
        FieldKind::Float64
    } else if l == "u128".spec_bytes() {
        FieldKind::UInt128
    } else if l == "i128".spec_bytes() {
        FieldKind::Int128
    } else if l == "string".spec_bytes() {
        FieldKind::Text
    } else if l == "iarb".spec_bytes() {
        FieldKind::IntArb
    } else if l == "uarb".spec_bytes() {
        FieldKind::UIntArb
    } else if l == "bytegap".spec_bytes() {
        FieldKind::ByteGap
    } else if l == "bitgap".spec_bytes() {
        FieldKind::BitGap
    } else {
        FieldKind::Unknown
    }
}

/// The display format a param token names; any unrecognized token means
/// the default decimal rendering.
pub open spec fn format_of(s: Seq<u8>) -> Format {
    let l = lower(s);
    if l == "n".spec_bytes() || l == "normal".spec_bytes() || l == "norm".spec_bytes() {
        Format::Norm
    } else if l == "h".spec_bytes() || l == "hex".spec_bytes() || l
        == "hexadecimal".spec_bytes() {
        Format::Hex
    } else if l == "b".spec_bytes() || l == "bin".spec_bytes() || l == "binary".spec_bytes() {
        Format::Bin
    } else {
        Format::Norm
    }
}

/// Whether every byte of `s` is an ASCII decimal digit.
pub open spec fn all_digits(s: Seq<u8>) -> bool {
    forall|i: int| 0 <= i < s.len() ==> 48 <= #[trigger] s[i] <= 57
}

/// Numeric value of a digit string, most significant digit first.
pub open spec fn dec_value(s: Seq<u8>) -> nat
    recommends
        all_digits(s),
    decreases s.len(),
{
    if s.len() == 0 {
        0
    } else {
        dec_value(s.drop_last()) * 10 + (if s.last() >= 48 {
            (s.last() - 48) as nat
        } else {
            0nat
        })
    }
}

/// What `usize` parsing makes of a token: an optional leading `+`, then
/// at least one digit, and a value that fits the machine word.
pub open spec fn spec_parse_usize(s: Seq<u8>) -> Option<usize> {
    let digits = if s.len() >= 1 && s[0] == 43 {
        s.drop_first()
    } else {
        s
    };
    if digits.len() >= 1 && all_digits(digits) && dec_value(digits) <= usize::MAX {
        Some(dec_value(digits) as usize)
    } else {
        None
    }
}

/// The length parameter of the line: the param token read as a number,
/// or zero when there is no param or it is not a number.
pub open spec fn line_len(line: Seq<u8>) -> usize
    recommends
        line_has_sep(line),
{
    match line_param(line) {
        Some(p) => match spec_parse_usize(p) {
            Some(v) => v,
            None => 0usize,
        },
        None => 0usize,
    }
}

/// The display format of the line: the param token when present, else
/// the default.
pub open spec fn line_format(line: Seq<u8>) -> Format
    recommends
        line_has_sep(line),
{
    match line_param(line) {
        Some(p) => format_of(p),
        None => Format::Norm,
    }
}

/// Declared bit width of one field, from the fixed width table; the
/// `len` parameter matters only for text, gap and arbitrary-width kinds,
/// and an unrecognized kind contributes no width.
pub open spec fn kind_width(k: FieldKind, len: nat) -> nat {
    match k {
        FieldKind::Bool1 => 1,
        FieldKind::Bool8 => 8,
        FieldKind::UInt8 => 8,
        FieldKind::Int8 => 8,
        FieldKind::UInt16 => 16,
        FieldKind::Int16 => 16,
        FieldKind::UInt32 => 32,
        FieldKind::Int32 => 32,
        FieldKind::Float32 => 32,
        FieldKind::UInt64 => 64,
        FieldKind::Int64 => 64,
        FieldKind::Float64 => 64,
        FieldKind::UInt128 => 128,
        FieldKind::Int128 => 128,
        FieldKind::Text => len * 8,
        FieldKind::ByteGap => len * 8,
        FieldKind::IntArb => len,
        FieldKind::UIntArb => len,
        FieldKind::BitGap => len,
        FieldKind::Unknown => 0,
    }
}

/// Declared bit width of one schema line.
pub open spec fn line_width(line: Seq<u8>) -> nat
    recommends
        line_has_sep(line),
{
    kind_width(kind_of(line_kind_token(line)), line_len(line) as nat)
}

/// The byte text of a schema line held as a `String`.
pub open spec fn string_bytes(s: String) -> Seq<u8> {
    vstd::utf8::encode_utf8(s@)
}

/// The byte texts of a whole schema.
pub open spec fn schema_bytes(lines: Seq<String>) -> Seq<Seq<u8>> {
    lines.map_values(|s: String| string_bytes(s))
}

/// Whether every line of the schema parses.
pub open spec fn all_lines_parse(lines: Seq<Seq<u8>>) -> bool {
    forall|i: int| 0 <= i < lines.len() ==> line_has_sep(#[trigger] lines[i])
}

/// Total declared bit width of a schema: the sum of the width table
/// over its lines.
pub open spec fn declared_bits(lines: Seq<Seq<u8>>) -> nat
    decreases lines.len(),
{
    if lines.len() == 0 {
        0
    } else {
        declared_bits(lines.drop_last()) + line_width(lines.last())
    }
}

/// The declared width of one line alone is its width-table entry.
pub proof fn lemma_declared_bits_single(l: Seq<u8>)
    ensures
        declared_bits(seq![l]) == line_width(l),
{
    assert(seq![l].drop_last() =~= Seq::<Seq<u8>>::empty());
    assert(seq![l].last() == l);
    assert(declared_bits(Seq::<Seq<u8>>::empty()) == 0);
}

/// The declared width of a schema is the exact sum of the width table
/// over its lines: however the schema is split, the halves' widths add
/// up to the whole.
pub proof fn lemma_declared_bits_add(a: Seq<Seq<u8>>, b: Seq<Seq<u8>>)
    ensures
        declared_bits(a + b) == declared_bits(a) + declared_bits(b),
    decreases b.len(),
{
    if b.len() == 0 {
        assert(a + b =~= a);
    } else {
        lemma_declared_bits_add(a, b.drop_last());
        assert((a + b).drop_last() =~= a + b.drop_last());
        assert((a + b).last() == b.last());
    }
}

/// Find the first occurrence of `b` among the first `limit` bytes.
fn find_byte_upto(bs: &[u8], limit: usize, b: u8) -> (r: Option<usize>)
    requires
        limit <= bs@.len(),
    ensures
        match r {
            Some(i) => i < limit && find_byte(bs@.take(limit as int), b) == i,
            None => find_byte(bs@.take(limit as int), b) == -1,
        },
{
    proof {
        lemma_find_byte(bs@.take(limit as int), b);
    }
    let mut i: usize = 0;
    while i < limit
        invariant
            i <= limit <= bs@.len(),
            forall|j: int| 0 <= j < i ==> bs@[j] != b,
        decreases limit - i,
    {
        if bs[i] == b {
            proof {
                let t = bs@.take(limit as int);
                lemma_find_byte(t, b);
                assert(forall|j: int| 0 <= j < i ==> t[j] == bs@[j] && t[j] != b);
                assert(t[i as int] == b);
                let f = find_byte(t, b);
                if f != i {
                    if 0 <= f < i {
                        assert(t[f] != b);
                    } else if f > i {
                        assert(t[i as int] != b);
                    }
                    assert(false);
                }
            }
            return Some(i);
        }
        i = i + 1;
    }
    None
}

fn lower_byte_exec(c: u8) -> (r: u8)
    ensures
        r == lower_byte(c),
{
    if 65 <= c && c <= 90 {
        c + 32
    } else {
        c
    }
}

/// Case-insensitive comparison of a token against an ASCII keyword.
fn eq_lower(bs: &[u8], kw: &str) -> (r: bool)
    ensures
        r == (lower(bs@) == kw.spec_bytes()),
{
    let kb = kw.as_bytes();
    let n = bs.len();
    if n != kb.len() {
        proof {
            assert(lower(bs@).len() == bs@.len());
        }
        return false;
    }
    let mut i: usize = 0;
    while i < n
        invariant
            n == bs@.len() == kb@.len(),
            kb@ == kw.spec_bytes(),
            i <= n,
            forall|j: int| 0 <= j < i ==> lower(bs@)[j] == kw.spec_bytes()[j],
        decreases n - i,
    {
        let lc = lower_byte_exec(bs[i]);
        if lc != kb[i] {
            proof {
                assert(lower(bs@)[i as int] == lower_byte(bs@[i as int]));
            }
            return false;
        }
        i = i + 1;
    }
    proof {
        assert(lower(bs@) =~= kw.spec_bytes());
    }
    true
}

impl Format {
    /// Read a format token: `n`/`norm`/`normal`, `h`/`hex`/`hexadecimal`
    /// or `b`/`bin`/`binary`, case-insensitively; anything else is the
    /// default decimal rendering.
    pub fn from_str(s: &str) -> (r: Format)
        ensures
            r == format_of(s.spec_bytes()),
    {
        let bs = s.as_bytes();
        if eq_lower(bs, "n") || eq_lower(bs, "normal") || eq_lower(bs, "norm") {
            Format::Norm
        } else if eq_lower(bs, "h") || eq_lower(bs, "hex") || eq_lower(bs, "hexadecimal") {
            Format::Hex
        } else if eq_lower(bs, "b") || eq_lower(bs, "bin") || eq_lower(bs, "binary") {
            Format::Bin
        } else {
            Format::Norm
        }
    }
}

/// Classify a kind token.
pub fn kind_of_token(s: &str) -> (k: FieldKind)
    ensures
        k == kind_of(s.spec_bytes()),
{
    let bs = s.as_bytes();
    if eq_lower(bs, "bool1") {
        FieldKind::Bool1
    } else if eq_lower(bs, "bool8") {
        FieldKind::Bool8
    } else if eq_lower(bs, "u8") {
        FieldKind::UInt8
    } else if eq_lower(bs, "i8") {
        FieldKind::Int8
    } else if eq_lower(bs, "u16") {
        FieldKind::UInt16
    } else if eq_lower(bs, "i16") {
        FieldKind::Int16
    } else if eq_lower(bs, "u32") {
        FieldKind::UInt32
    } else if eq_lower(bs, "i32") {
        FieldKind::Int32
    } else if eq_lower(bs, "f32") {
        FieldKind::Float32
    } else if eq_lower(bs, "u64") {
        FieldKind::UInt64
    } else if eq_lower(bs, "i64") {
        FieldKind::Int64
    } else if eq_lower(bs, "f64") {
        FieldKind::Float64
    } else if eq_lower(bs, "u128") {
        FieldKind::UInt128
    } else if eq_lower(bs, "i128") {
        FieldKind::Int128
    } else if eq_lower(bs, "string") {
        FieldKind::Text
    } else if eq_lower(bs, "iarb") {
        FieldKind::IntArb
    } else if eq_lower(bs, "uarb") {
        FieldKind::UIntArb
    } else if eq_lower(bs, "bytegap") {
        FieldKind::ByteGap
    } else if eq_lower(bs, "bitgap") {
        FieldKind::BitGap
    } else {
        FieldKind::Unknown
    }
}

proof fn lemma_dec_value_prefix(s: Seq<u8>, j: int)
    requires
        all_digits(s),
        0 <= j <= s.len(),
    ensures
        dec_value(s.take(j)) <= dec_value(s),
    decreases s.len() - j,
{
    if j == s.len() {
        assert(s.take(j) =~= s);
    } else {
        lemma_dec_value_prefix(s, j + 1);
        assert(s.take(j + 1).drop_last() =~= s.take(j));
        assert(s.take(j + 1).last() == s[j]);
        assert(dec_value(s.take(j + 1)) == dec_value(s.take(j)) * 10 + (s[j] - 48));
    }
}

/// Read a token the way `usize` parsing does: an optional leading `+`,
/// then decimal digits; fails on any other byte, on an empty token and
/// on overflow.
fn parse_usize_bytes(bs: &[u8]) -> (r: Option<usize>)
    ensures
        r == spec_parse_usize(bs@),
{
    let n = bs.len();
    let start: usize = if n >= 1 && bs[0] == 43 {
        1
    } else {
        0
    };
    let ghost digits: Seq<u8> = if bs@.len() >= 1 && bs@[0] == 43 {
        bs@.drop_first()
    } else {
        bs@
    };
    if start >= n {
        return None;
    }
    let mut v: usize = 0;
    let mut j: usize = start;
    while j < n
        invariant
            start <= j <= n,
            n == bs@.len(),
            start < n,
            start <= 1,
            (start == 1) == (bs@.len() >= 1 && bs@[0] == 43),
            digits == (if bs@.len() >= 1 && bs@[0] == 43 {
                bs@.drop_first()
            } else {
                bs@
            }),
            all_digits(digits.take(j - start)),
            v == dec_value(digits.take(j - start)),
        decreases n - j,
    {
        let c = bs[j];
        proof {
            if start == 1 {
                assert(digits == bs@.subrange(1, bs@.len() as int));
                assert(digits[j - 1] == bs@[j as int]);
            }
            assert(digits[j - start] == bs@[j as int]);
        }
        if c < 48 || c > 57 {
            proof {
                assert(!all_digits(digits));
            }
            return None;
        }
        let d = (c - 48) as usize;
        let wide: u128 = (v as u128) * 10 + (d as u128);
        proof {
            assert(digits.take(j - start + 1).drop_last() =~= digits.take(j - start));
            assert(digits.take(j - start + 1).last() == digits[j - start] == bs@[j as int]);
        }
        if wide > (usize::MAX as u128) {
            proof {
                assert(dec_value(digits.take(j - start + 1)) > usize::MAX);
                if all_digits(digits) {
                    lemma_dec_value_prefix(digits, j - start + 1);
                }
            }
            return None;
        }
        v = wide as usize;
        j = j + 1;
    }
    proof {
        assert(digits.take(n - start) =~= digits);
    }
    Some(v)
}

impl SchemaError {
    /// The diagnostic text for this error.
    pub fn message(&self) -> (s: String)
        ensures
            s@ == "Syntax error in config, could not find : in line."@,
    {
        String::from_str("Syntax error in config, could not find : in line.")
    }
}

/// `n` clipped to what a machine word holds.
pub open spec fn saturate_usize(n: nat) -> usize {
    if n <= usize::MAX {
        n as usize
    } else {
        usize::MAX
    }
}

/// Declared width of one field as a number, from the fixed width table.
pub fn kind_width_bits(k: FieldKind, len: usize) -> (w: u128)
    ensures
        w == kind_width(k, len as nat),
        w <= (len as u128) * 8 + 128,
{
    match k {
        FieldKind::Bool1 => 1,
        FieldKind::Bool8 => 8,
        FieldKind::UInt8 => 8,
        FieldKind::Int8 => 8,
        FieldKind::UInt16 => 16,
        FieldKind::Int16 => 16,
        FieldKind::UInt32 => 32,
        FieldKind::Int32 => 32,
        FieldKind::Float32 => 32,
        FieldKind::UInt64 => 64,
        FieldKind::Int64 => 64,
        FieldKind::Float64 => 64,
        FieldKind::UInt128 => 128,
        FieldKind::Int128 => 128,
        FieldKind::Text => (len as u128) * 8,
        FieldKind::ByteGap => (len as u128) * 8,
        FieldKind::IntArb => len as u128,
        FieldKind::UIntArb => len as u128,
        FieldKind::BitGap => len as u128,
        FieldKind::Unknown => 0,
    }
}

/// Classify a format token given as raw bytes.
fn format_of_bytes(bs: &[u8]) -> (r: Format)
    ensures
        r == format_of(bs@),
{
    if eq_lower(bs, "n") || eq_lower(bs, "normal") || eq_lower(bs, "norm") {
        Format::Norm
    } else if eq_lower(bs, "h") || eq_lower(bs, "hex") || eq_lower(bs, "hexadecimal") {
        Format::Hex
    } else if eq_lower(bs, "b") || eq_lower(bs, "bin") || eq_lower(bs, "binary") {
        Format::Bin
    } else {
        Format::Norm
    }
}

proof fn lemma_str_bytes_valid(s: &str)
    ensures
        vstd::utf8::valid_utf8(s.spec_bytes()),
{
    broadcast use vstd::utf8::encode_utf8_valid_utf8;

    assert(s.spec_bytes() == vstd::utf8::encode_utf8(s@));
}

/// In valid UTF-8, the position after an ASCII byte that sits on a char
/// boundary is itself a char boundary.
proof fn lemma_boundary_after_ascii(bytes: Seq<u8>, i: int)
    requires
        vstd::utf8::valid_utf8(bytes),
        0 <= i < bytes.len(),
        bytes[i] < 128,
        vstd::utf8::is_char_boundary(bytes, i),
    ensures
        vstd::utf8::is_char_boundary(bytes, i + 1),
    decreases bytes.len(),
{
    let lf = vstd::utf8::length_of_first_scalar(bytes);
    let pop = vstd::utf8::pop_first_scalar(bytes);
    assert(vstd::utf8::valid_first_scalar(bytes) && vstd::utf8::valid_utf8(pop));
    assert(1 <= lf <= 4);
    if i == 0 {
        assert(vstd::utf8::is_leading_byte_width_1(bytes[0]));
        assert(lf == 1);
        assert(vstd::utf8::is_char_boundary(bytes, 1) == vstd::utf8::is_char_boundary(pop, 0));
        assert(vstd::utf8::is_char_boundary(pop, 0));
    } else {
        assert(vstd::utf8::is_char_boundary(bytes, i) == vstd::utf8::is_char_boundary(
            pop,
            i - lf,
        ));
        if i - lf < 0 {
            assert(!vstd::utf8::is_char_boundary(pop, i - lf));
            assert(false);
        }
        assert(pop[i - lf] == bytes[i]);
        lemma_boundary_after_ascii(pop, i - lf);
        assert(vstd::utf8::is_char_boundary(bytes, i + 1) == vstd::utf8::is_char_boundary(
            pop,
            i + 1 - lf,
        ));
    }
}

/// Parse one schema line into its field name, kind token (original
/// case), display format and length parameter.  Content after a `#` and
/// after the first space is ignored; a line without a `:` separator is a
/// syntax error.  A missing or non-numeric param yields length zero and
/// the default format.
#[verifier::rlimit(100)]
pub fn parse_config_line<'a>(conf_line: &'a str) -> (r: Result<
    (&'a str, &'a str, Format, usize),
    SchemaError,
>)
    ensures
        r is Ok <==> line_has_sep(conf_line.spec_bytes()),
        (r matches Ok(t) ==> {
            &&& t.0.spec_bytes() == line_name(conf_line.spec_bytes())
            &&& t.1.spec_bytes() == line_kind_token(conf_line.spec_bytes())
            &&& t.2 == line_format(conf_line.spec_bytes())
            &&& t.3 == line_len(conf_line.spec_bytes())
        }),
        (r matches Err(e) ==> e == SchemaError::MissingSeparator),
{
    let bs = conf_line.as_bytes();
    let n = bs.len();
    proof {
        assert(bs@.take(n as int) =~= bs@);
    }
    let limit1: usize;
    match find_byte_upto(bs, n, 35) {
        Some(i) => {
            proof {
                lemma_find_byte(bs@, 35);
            }
            limit1 = i;
        },
        None => {
            limit1 = n;
        },
    }
    assert(limit1 == n || bs@[limit1 as int] == 35);
    assert(before_byte(bs@, 35u8) =~= bs@.take(limit1 as int));
    let limit2: usize;
    match find_byte_upto(bs, limit1, 32) {
        Some(i) => {
            proof {
                lemma_find_byte(bs@.take(limit1 as int), 32);
            }
            limit2 = i;
        },
        None => {
            limit2 = limit1;
        },
    }
    assert(limit2 == limit1 || bs@[limit2 as int] == 32);
    assert(line_content(bs@) =~= bs@.take(limit2 as int));
    let ghost content = line_content(conf_line.spec_bytes());
    let i1: usize;
    match find_byte_upto(bs, limit2, 58) {
        Some(i) => {
            i1 = i;
        },
        None => {
            assert(!line_has_sep(conf_line.spec_bytes()));
            return Err(SchemaError::MissingSeparator);
        },
    }
    assert(find_byte(content, 58u8) == i1 && i1 < limit2);
    proof {
        lemma_find_byte(content, 58);
        assert(content[i1 as int] == 58);
        assert(bs@[i1 as int] == 58);
        lemma_str_bytes_valid(conf_line);
        vstd::utf8::is_char_boundary_iff_not_is_continuation_byte(bs@, i1 as int);
        lemma_boundary_after_ascii(bs@, i1 as int);
    }
    let pair1 = conf_line.split_at(i1);
    let name_str = pair1.0;
    let pair2 = conf_line.split_at(i1 + 1);
    let tail = pair2.1;
    proof {
        assert(name_str.spec_bytes() =~= line_name(conf_line.spec_bytes()));
        vstd::utf8::valid_utf8_split(bs@, i1 + 1);
        assert(vstd::utf8::valid_utf8(tail.spec_bytes()));
    }
    let rest_bs = &bs[i1 + 1..limit2];
    proof {
        assert(rest_bs@ =~= line_rest(conf_line.spec_bytes()));
    }
    let rlen = rest_bs.len();
    match find_byte_upto(rest_bs, rlen, 58) {
        None => {
            // no param: the kind token is the whole rest of the content
            proof {
                assert(rest_bs@.take(rlen as int) =~= rest_bs@);
                assert(line_kind_token(conf_line.spec_bytes()) == line_rest(
                    conf_line.spec_bytes(),
                ));
                // the cut at `limit2` is a char boundary of the tail
                if limit2 < n {
                    assert(bs@[limit2 as int] == 32 || bs@[limit2 as int] == 35);
                    assert(tail.spec_bytes()[limit2 - (i1 + 1)] == bs@[limit2 as int]);
                    vstd::utf8::is_char_boundary_iff_not_is_continuation_byte(
                        tail.spec_bytes(),
                        limit2 - (i1 + 1),
                    );
                } else {
                    vstd::utf8::is_char_boundary_start_end_of_seq(tail.spec_bytes());
                }
            }
            let pair3 = tail.split_at(limit2 - (i1 + 1));
            let kind_str = pair3.0;
            proof {
                assert(kind_str.spec_bytes() =~= line_kind_token(conf_line.spec_bytes()));
            }
            Ok((name_str, kind_str, Format::Norm, 0))
        },
        Some(i2) => {
            proof {
                assert(rest_bs@.take(rlen as int) =~= rest_bs@);
                lemma_find_byte(rest_bs@, 58);
                assert(rest_bs@[i2 as int] == 58);
                assert(tail.spec_bytes()[i2 as int] == bs@[i1 + 1 + i2]);
                vstd::utf8::is_char_boundary_iff_not_is_continuation_byte(
                    tail.spec_bytes(),
                    i2 as int,
                );
            }
            let pair3 = tail.split_at(i2);
            let kind_str = pair3.0;
            let param_bs = &bs[i1 + 1 + i2 + 1..limit2];
            proof {
                assert(kind_str.spec_bytes() =~= line_kind_token(conf_line.spec_bytes()));
                assert(line_param(conf_line.spec_bytes()) matches Some(p) && p =~= param_bs@);
            }
            let form = format_of_bytes(param_bs);
            let len = match parse_usize_bytes(param_bs) {
                Some(v) => v,
                None => 0,
            };
            Ok((name_str, kind_str, form, len))
        },
    }
}

/// Total declared bit width of a schema, summed from the width table
/// over its lines; the sum is clipped to a machine word.  Fails exactly
/// when some line has no `:` separator.
pub fn chunksize_by_config(config_lines: &Vec<String>) -> (r: Result<usize, SchemaError>)
    ensures
        r is Ok <==> all_lines_parse(schema_bytes(config_lines@)),
        (r matches Ok(v) ==> v == saturate_usize(declared_bits(schema_bytes(config_lines@)))),
        (r matches Err(e) ==> e == SchemaError::MissingSeparator),
{
    let ghost lines = schema_bytes(config_lines@);
    let n = config_lines.len();
    let mut total: usize = 0;
    let mut idx: usize = 0;
    while idx < n
        invariant
            idx <= n == config_lines@.len(),
            lines == schema_bytes(config_lines@),
            lines.len() == n,
            forall|i: int| 0 <= i < idx ==> line_has_sep(#[trigger] lines[i]),
            total == saturate_usize(declared_bits(lines.take(idx as int))),
        decreases n - idx,
    {
        let line = &config_lines[idx];
        proof {
            assert(lines[idx as int] == string_bytes(config_lines@[idx as int]));
        }
        match parse_config_line(line.as_str()) {
            Err(e) => {
                proof {
                    assert(!line_has_sep(lines[idx as int]));
                }
                return Err(e);
            },
            Ok(t) => {
                let k = kind_of_token(t.1);
                let w = kind_width_bits(k, t.3);
                let wide: u128 = (total as u128) + w;
                total = if wide > (usize::MAX as u128) {
                    usize::MAX
                } else {
                    wide as usize
                };
                proof {
                    assert(lines.take(idx + 1).drop_last() =~= lines.take(idx as int));
                    assert(lines.take(idx + 1).last() == lines[idx as int]);
                    assert(w == line_width(lines[idx as int]));
                    assert(declared_bits(lines.take(idx + 1)) == declared_bits(
                        lines.take(idx as int),
                    ) + line_width(lines[idx as int]));
                }
                idx = idx + 1;
            },
        }
    }
    proof {
        assert(lines.take(n as int) =~= lines);
    }
    Ok(total)
}

/// The positions of schema lines that parse but name an unrecognized
/// kind, in file order.
pub open spec fn unknown_kind_positions(lines: Seq<Seq<u8>>) -> Seq<usize>
    decreases lines.len(),
{
    if lines.len() == 0 {
        Seq::empty()
    } else {
        let rest = unknown_kind_positions(lines.drop_last());
        if line_has_sep(lines.last()) && kind_of(line_kind_token(lines.last()))
            == FieldKind::Unknown {
            rest.push((lines.len() - 1) as usize)
        } else {
            rest
        }
    }
}

/// The schema lines that parse but name an unrecognized kind, in file
/// order.  The compiler skips such a line with zero width; the caller
/// emits one diagnostic per entry when the schema is compiled.
pub fn unknown_kind_lines(config_lines: &Vec<String>) -> (r: Vec<usize>)
    ensures
        r@ == unknown_kind_positions(schema_bytes(config_lines@)),
{
    let ghost lines = schema_bytes(config_lines@);
    let n = config_lines.len();
    let mut found: Vec<usize> = Vec::new();
    let mut idx: usize = 0;
    proof {
        assert(lines.take(0) =~= Seq::<Seq<u8>>::empty());
    }
    while idx < n
        invariant
            idx <= n == config_lines@.len(),
            lines == schema_bytes(config_lines@),
            lines.len() == n,
            found@ == unknown_kind_positions(lines.take(idx as int)),
        decreases n - idx,
    {
        let line = &config_lines[idx];
        proof {
            assert(lines[idx as int] == string_bytes(config_lines@[idx as int]));
            assert(lines.take(idx + 1).drop_last() =~= lines.take(idx as int));
            assert(lines.take(idx + 1).last() == lines[idx as int]);
        }
        match parse_config_line(line.as_str()) {
            Err(_) => {},
            Ok(t) => {
                let kind = kind_of_token(t.1);
                if matches!(kind, FieldKind::Unknown) {
                    found.push(idx);
                }
            },
        }
        idx = idx + 1;
        proof {
            assert(found@ =~= unknown_kind_positions(lines.take(idx as int)));
        }
    }
    proof {
        assert(lines.take(n as int) =~= lines);
    }
    found
}

/// Whether a schema file line reaches the compiler: blank lines and
/// lines that open with a `#` comment are dropped.
pub open spec fn is_config_line(l: Seq<u8>) -> bool {
    l.len() > 0 && l[0] != 35
}

/// Keep the schema file lines that carry content: everything but blank
/// lines and lines that start with a comment.
pub fn filter_config_lines(lines: Vec<String>) -> (r: Vec<String>)
    ensures
        r@.map_values(|s: String| string_bytes(s)) == schema_bytes(lines@).filter(
            |l: Seq<u8>| is_config_line(l),
        ),
{
    let ghost all = schema_bytes(lines@);
    let ghost pred = |l: Seq<u8>| is_config_line(l);
    let n = lines.len();
    let mut kept: Vec<String> = Vec::new();
    let mut idx: usize = 0;
    proof {
        assert(all.take(0) =~= Seq::<Seq<u8>>::empty());
        reveal(Seq::filter);
    }
    while idx < n
        invariant
            idx <= n == lines@.len(),
            all == schema_bytes(lines@),
            all.len() == n,
            kept@.map_values(|s: String| string_bytes(s)) == all.take(idx as int).filter(pred),
            pred == (|l: Seq<u8>| is_config_line(l)),
        decreases n - idx,
    {
        let line = &lines[idx];
        proof {
            assert(all[idx as int] == string_bytes(lines@[idx as int]));
            assert(all.take(idx + 1).drop_last() =~= all.take(idx as int));
            assert(all.take(idx + 1).last() == all[idx as int]);
            reveal(Seq::filter);
        }
        let bs = line.as_str().as_bytes();
        if bs.len() > 0 && bs[0] != 35 {
            kept.push(line.clone());
            proof {
                assert(kept@.map_values(|s: String| string_bytes(s)) =~= all.take(
                    idx + 1,
                ).filter(pred));
            }
        } else {
            proof {
                assert(!pred(all[idx as int]));
                assert(kept@.map_values(|s: String| string_bytes(s)) =~= all.take(
                    idx + 1,
                ).filter(pred));
            }
        }
        idx = idx + 1;
    }
    proof {
        assert(all.take(n as int) =~= all);
    }
    kept
}

} // verus!

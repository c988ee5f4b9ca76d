//! The archive text format, as mathematics: marker and tag lines, the
//! decimal / octal / hexadecimal token renderings, line splitting,
//! token parsing, and the decoder's line-scanning state machine.
//!
//! An archive is a flat byte file made of newline-terminated lines.
//! Each entry is bracketed by a start and an end marker line, carries
//! `NAME:` and `SIZE:` field lines, and stores its payload as
//! whitespace-separated hexadecimal byte tokens: on `DATA:` lines
//! (wrapped every sixteen bytes) for the Standard variant, or on a
//! single `[HEX]` line for the Quantum variant, which also writes
//! redundant `[DEC]` and `[OCT]` lines that the decoder never reads.

use vstd::prelude::*;

verus! {

/// The two textual encodings an entry may be written in.
#[derive(Clone, Copy, Debug, PartialEq, Eq, Structural)]
pub enum Variant {
    Standard,
    Quantum,
}

/// The line that opens an entry: `---ENTRY---` or `###ENTRY###`.
pub open spec fn start_marker(v: Variant) -> Seq<u8> {
    match v {
        Variant::Standard => seq![
            45, 45, 45, 69, 78, 84, 82, 89, 45, 45, 45,
        ],
        Variant::Quantum => seq![
            35, 35, 35, 69, 78, 84, 82, 89, 35, 35, 35,
        ],
    }
}

/// The line that closes an entry: `---END---` or `###END###`.
pub open spec fn end_marker(v: Variant) -> Seq<u8> {
    match v {
        Variant::Standard => seq![45, 45, 45, 69, 78, 68, 45, 45, 45],
        Variant::Quantum => seq![35, 35, 35, 69, 78, 68, 35, 35, 35],
    }
}

/// `NAME:` — the tag that introduces an entry's name.
pub open spec fn name_tag() -> Seq<u8> {
    seq![78, 65, 77, 69, 58]
}

/// `SIZE:` — the tag that introduces the recorded payload size.
pub open spec fn size_tag() -> Seq<u8> {
    seq![83, 73, 90, 69, 58]
}

/// `DATA:` — the Standard variant's payload line tag.
pub open spec fn data_tag() -> Seq<u8> {
    seq![68, 65, 84, 65, 58]
}

/// `[HEX]` — the Quantum payload line the decoder actually reads.
pub open spec fn hex_tag() -> Seq<u8> {
    seq![91, 72, 69, 88, 93]
}

/// `[DEC]` — a redundant Quantum payload line, written but never read.
pub open spec fn dec_tag() -> Seq<u8> {
    seq![91, 68, 69, 67, 93]
}

/// `[OCT]` — a redundant Quantum payload line, written but never read.
pub open spec fn oct_tag() -> Seq<u8> {
    seq![91, 79, 67, 84, 93]
}

/// Whether a line is a start marker of either variant.
pub open spec fn is_start_line(l: Seq<u8>) -> bool {
    l == start_marker(Variant::Standard) || l == start_marker(Variant::Quantum)
}

/// Whether a line is an end marker of either variant.
pub open spec fn is_end_line(l: Seq<u8>) -> bool {
    l == end_marker(Variant::Standard) || l == end_marker(Variant::Quantum)
}

/// Whether `l` begins with the five-byte tag `tag`.
pub open spec fn has_tag(l: Seq<u8>, tag: Seq<u8>) -> bool {
    l.len() >= 5 && l.take(5) == tag
}

/// Whether a line declares an entry's name.
pub open spec fn is_name_line(l: Seq<u8>) -> bool {
    has_tag(l, name_tag())
}

/// Whether a line carries payload tokens the decoder reads: a `DATA:`
/// line of either provenance, or a Quantum `[HEX]` line. The `[DEC]`
/// and `[OCT]` lines deliberately do not qualify.
pub open spec fn is_payload_line(l: Seq<u8>) -> bool {
    has_tag(l, data_tag()) || has_tag(l, hex_tag())
}

/// Everything after the first colon of a `NAME:` line — after the
/// five-byte tag — taken verbatim as the entry's name.
pub open spec fn rest_of_line(l: Seq<u8>) -> Seq<u8> {
    l.skip(5)
}

/// The ASCII digit for `d < 10`.
pub open spec fn digit_byte(d: nat) -> u8 {
    (48 + d) as u8
}

/// The uppercase hexadecimal digit for `d < 16`.
pub open spec fn hex_digit(d: nat) -> u8 {
    if d < 10 {
        (48 + d) as u8
    } else {
        (55 + d) as u8
    }
}

/// The unpadded decimal rendering of `n`, most significant digit first.
pub open spec fn dec_rep(n: nat) -> Seq<u8>
    decreases n,
{
    if n < 10 {
        seq![digit_byte(n)]
    } else {
        dec_rep(n / 10) + seq![digit_byte(n % 10)]
    }
}

/// The unpadded octal rendering of `n`, most significant digit first.
pub open spec fn oct_rep(n: nat) -> Seq<u8>
    decreases n,
{
    if n < 8 {
        seq![digit_byte(n)]
    } else {
        oct_rep(n / 8) + seq![digit_byte(n % 8)]
    }
}

/// The two-digit uppercase hexadecimal rendering of one byte.
pub open spec fn hex_byte_rep(b: u8) -> Seq<u8> {
    seq![hex_digit((b / 16) as nat), hex_digit((b % 16) as nat)]
}

/// Token separators on a payload line: space and tab.
pub open spec fn is_space(b: u8) -> bool {
    b == 32 || b == 9
}

/// Whether `b` is a hexadecimal digit byte, either case.
pub open spec fn is_hex_digit_byte(b: u8) -> bool {
    (48 <= b && b <= 57) || (65 <= b && b <= 70) || (97 <= b && b <= 102)
}

/// The numeric value of a hexadecimal digit byte.
pub open spec fn hex_digit_value(b: u8) -> nat {
    if 48 <= b && b <= 57 {
        (b - 48) as nat
    } else if 65 <= b && b <= 70 {
        (b - 55) as nat
    } else {
        (b - 87) as nat
    }
}

/// The value of a string of hexadecimal digits, most significant first.
pub open spec fn hex_value(t: Seq<u8>) -> nat
    decreases t.len(),
{
    if t.len() == 0 {
        0
    } else {
        hex_value(t.drop_last()) * 16 + hex_digit_value(t.last())
    }
}

/// Whether every byte of `t` is a hexadecimal digit.
pub open spec fn all_hex(t: Seq<u8>) -> bool {
    forall|i: int| 0 <= i < t.len() ==> is_hex_digit_byte(t[i])
}

/// How a payload token is read: a nonempty string of hexadecimal
/// digits whose value fits in a byte parses to that byte; any other
/// token is silently skipped by the decoder.
pub open spec fn parse_hex_token(t: Seq<u8>) -> Option<u8> {
    if t.len() >= 1 && all_hex(t) && hex_value(t) <= 255 {
        Some(hex_value(t) as u8)
    } else {
        None
    }
}

/// The length of the token starting at the head of `s`: the number of
/// leading non-separator bytes.
pub open spec fn token_span(s: Seq<u8>) -> nat
    decreases s.len(),
{
    if s.len() == 0 || is_space(s[0]) {
        0
    } else {
        1 + token_span(s.skip(1))
    }
}

pub proof fn lemma_token_span_le(s: Seq<u8>)
    ensures
        token_span(s) <= s.len(),
    decreases s.len(),
{
    if s.len() > 0 && !is_space(s[0]) {
        lemma_token_span_le(s.skip(1));
    }
}

/// The whitespace-separated tokens of a payload line's remainder.
pub open spec fn tokens_of(s: Seq<u8>) -> Seq<Seq<u8>>
    decreases s.len(),
    via tokens_of_decreases
{
    if s.len() == 0 {
        Seq::empty()
    } else if is_space(s[0]) {
        tokens_of(s.skip(1))
    } else {
        seq![s.take(token_span(s) as int)] + tokens_of(s.skip(token_span(s) as int))
    }
}

#[via_fn]
proof fn tokens_of_decreases(s: Seq<u8>) {
    lemma_token_span_le(s);
}

/// The bytes decoded from a token list: each token that parses as a
/// hexadecimal byte contributes that byte, the rest are skipped.
pub open spec fn decode_tokens(toks: Seq<Seq<u8>>) -> Seq<u8>
    decreases toks.len(),
{
    if toks.len() == 0 {
        Seq::empty()
    } else {
        match parse_hex_token(toks[0]) {
            Some(b) => seq![b] + decode_tokens(toks.skip(1)),
            None => decode_tokens(toks.skip(1)),
        }
    }
}

/// The bytes decoded from the remainder of a payload line.
pub open spec fn decode_payload_text(s: Seq<u8>) -> Seq<u8> {
    decode_tokens(tokens_of(s))
}

/// The length of the line starting at the head of `s`: the number of
/// bytes before the first newline.
pub open spec fn line_span(s: Seq<u8>) -> nat
    decreases s.len(),
{
    if s.len() == 0 || s[0] == 10 {
        0
    } else {
        1 + line_span(s.skip(1))
    }
}

pub proof fn lemma_line_span_le(s: Seq<u8>)
    ensures
        line_span(s) <= s.len(),
    decreases s.len(),
{
    if s.len() > 0 && s[0] != 10 {
        lemma_line_span_le(s.skip(1));
    }
}

/// The lines of a byte file, split at each newline; a file that does
/// not end in a newline contributes its last partial line, and one
/// that does contributes a final empty line, which the scanner
/// ignores.
pub open spec fn lines_of(s: Seq<u8>) -> Seq<Seq<u8>>
    decreases s.len(),
    via lines_of_decreases
{
    let k = line_span(s) as int;
    if k == s.len() {
        seq![s]
    } else {
        seq![s.take(k)] + lines_of(s.skip(k + 1))
    }
}

#[via_fn]
proof fn lines_of_decreases(s: Seq<u8>) {
    lemma_line_span_le(s);
}

/// Joins lines back into file bytes, terminating every line — the last
/// included — with a newline, as the encoder writes them.
pub open spec fn unlines(ls: Seq<Seq<u8>>) -> Seq<u8>
    decreases ls.len(),
{
    if ls.len() == 0 {
        Seq::empty()
    } else {
        ls[0] + seq![10u8] + unlines(ls.skip(1))
    }
}

/// Whether `s` is free of newline bytes, so that it stays on one line.
pub open spec fn no_newline(s: Seq<u8>) -> bool {
    forall|i: int| 0 <= i < s.len() ==> s[i] != 10
}

/// The decoder's state machine, one line at a time. Outside an entry
/// only a start marker matters; it resets the candidate name and
/// payload buffer. Inside an entry, a `NAME:` line overwrites the
/// candidate name, a payload line appends its decoded bytes to the
/// buffer, and an end marker resolves the entry: the scan stops with
/// the buffer if the candidate name equals the target, and otherwise
/// steps back outside, keeping the buffer until the next start marker.
pub open spec fn scan_lines(
    lines: Seq<Seq<u8>>,
    target: Seq<u8>,
    inside: bool,
    nm: Seq<u8>,
    buf: Seq<u8>,
) -> Option<Seq<u8>>
    decreases lines.len(),
{
    if lines.len() == 0 {
        None
    } else {
        let l = lines[0];
        let rest = lines.skip(1);
        if is_start_line(l) {
            scan_lines(rest, target, true, Seq::empty(), Seq::empty())
        } else if inside && is_name_line(l) {
            scan_lines(rest, target, true, rest_of_line(l), buf)
        } else if inside && is_payload_line(l) {
            scan_lines(rest, target, true, nm, buf + decode_payload_text(rest_of_line(l)))
        } else if inside && is_end_line(l) {
            if nm == target {
                Some(buf)
            } else {
                scan_lines(rest, target, false, nm, buf)
            }
        } else {
            scan_lines(rest, target, inside, nm, buf)
        }
    }
}

/// What extraction returns on an archive's bytes: the payload of the
/// first entry named `target`, in file order, or nothing.
pub open spec fn extract_spec(content: Seq<u8>, target: Seq<u8>) -> Option<Seq<u8>> {
    scan_lines(lines_of(content), target, false, Seq::empty(), Seq::empty())
}

/// One space-prefixed hexadecimal token per payload byte, as written
/// on `DATA:` and `[HEX]` lines.
pub open spec fn hex_token_run(p: Seq<u8>) -> Seq<u8>
    decreases p.len(),
{
    if p.len() == 0 {
        Seq::empty()
    } else {
        seq![32u8] + hex_byte_rep(p[0]) + hex_token_run(p.skip(1))
    }
}

/// One space-prefixed decimal token per payload byte, for `[DEC]`.
pub open spec fn dec_token_run(p: Seq<u8>) -> Seq<u8>
    decreases p.len(),
{
    if p.len() == 0 {
        Seq::empty()
    } else {
        seq![32u8] + dec_rep(p[0] as nat) + dec_token_run(p.skip(1))
    }
}

/// One space-prefixed octal token per payload byte, for `[OCT]`.
pub open spec fn oct_token_run(p: Seq<u8>) -> Seq<u8>
    decreases p.len(),
{
    if p.len() == 0 {
        Seq::empty()
    } else {
        seq![32u8] + oct_rep(p[0] as nat) + oct_token_run(p.skip(1))
    }
}

/// The `DATA:` lines of a Standard entry: sixteen bytes per line, the
/// last line shorter if need be, and a single bare `DATA:` line for an
/// empty payload.
pub open spec fn data_field_lines(p: Seq<u8>) -> Seq<Seq<u8>>
    decreases p.len(),
{
    if p.len() <= 16 {
        seq![data_tag() + hex_token_run(p)]
    } else {
        seq![data_tag() + hex_token_run(p.take(16))] + data_field_lines(p.skip(16))
    }
}

/// The lines of one encoded entry. Both variants open with a start
/// marker and the `NAME:` and `SIZE:` fields and close with an end
/// marker; between them the Standard variant wraps the payload over
/// `DATA:` lines, while the Quantum variant writes the three redundant
/// single-line renderings, of which only `[HEX]` is ever read back.
pub open spec fn entry_lines(name: Seq<u8>, payload: Seq<u8>, v: Variant) -> Seq<Seq<u8>> {
    let head = seq![
        start_marker(v),
        name_tag() + name,
        size_tag() + dec_rep(payload.len()),
    ];
    match v {
        Variant::Standard => head + data_field_lines(payload) + seq![end_marker(v)],
        Variant::Quantum => head + seq![
            dec_tag() + dec_token_run(payload),
            oct_tag() + oct_token_run(payload),
            hex_tag() + hex_token_run(payload),
            end_marker(v),
        ],
    }
}

/// The exact bytes one encoder call appends to an archive.
pub open spec fn entry_bytes(name: Seq<u8>, payload: Seq<u8>, v: Variant) -> Seq<u8> {
    unlines(entry_lines(name, payload, v))
}

} // verus!

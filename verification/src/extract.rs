//! The decoder: scans an archive's bytes line by line, runs the
//! two-state machine of `scan_lines`, and returns the payload of the
//! first entry stored under the requested name.

use vstd::prelude::*;
use crate::format::{
    Variant, all_hex, decode_payload_text, decode_tokens, end_marker, extract_spec, has_tag,
    hex_digit_value, hex_value, is_end_line, is_hex_digit_byte, is_space, is_start_line,
    line_span, lines_of, parse_hex_token, rest_of_line, scan_lines, start_marker, token_span,
    tokens_of,
};

verus! {

/// Why an extraction can fail: the archive holds no entry of the
/// requested name. File-system troubles never reach this crate.
#[derive(Clone, Copy, Debug, PartialEq, Eq, Structural)]
pub enum ArchiveError {
    NotFound,
}

/// Byte-for-byte equality of two slices.
fn bytes_eq(a: &[u8], b: &[u8]) -> (r: bool)
    ensures
        r == (a@ == b@),
{
    if a.len() != b.len() {
        return false;
    }
    let mut k: usize = 0;
    while k < a.len()
        invariant
            k <= a.len(),
            a@.len() == b@.len(),
            forall|j: int| 0 <= j < k ==> a@[j] == b@[j],
        decreases a.len() - k,
    {
        if a[k] != b[k] {
            return false;
        }
        k = k + 1;
    }
    proof {
        assert(a@ =~= b@);
    }
    true
}

fn eq_start_std(line: &[u8]) -> (r: bool)
    ensures
        r == (line@ == start_marker(Variant::Standard)),
{
    let r = line.len() == 11 && line[0] == 45 && line[1] == 45 && line[2] == 45 && line[3] == 69
        && line[4] == 78 && line[5] == 84 && line[6] == 82 && line[7] == 89 && line[8] == 45
        && line[9] == 45 && line[10] == 45;
    proof {
        if r {
            assert(line@ =~= start_marker(Variant::Standard));
        }
    }
    r
}

fn eq_start_quantum(line: &[u8]) -> (r: bool)
    ensures
        r == (line@ == start_marker(Variant::Quantum)),
{
    let r = line.len() == 11 && line[0] == 35 && line[1] == 35 && line[2] == 35 && line[3] == 69
        && line[4] == 78 && line[5] == 84 && line[6] == 82 && line[7] == 89 && line[8] == 35
        && line[9] == 35 && line[10] == 35;
    proof {
        if r {
            assert(line@ =~= start_marker(Variant::Quantum));
        }
    }
    r
}

fn eq_end_std(line: &[u8]) -> (r: bool)
    ensures
        r == (line@ == end_marker(Variant::Standard)),
{
    let r = line.len() == 9 && line[0] == 45 && line[1] == 45 && line[2] == 45 && line[3] == 69
        && line[4] == 78 && line[5] == 68 && line[6] == 45 && line[7] == 45 && line[8] == 45;
    proof {
        if r {
            assert(line@ =~= end_marker(Variant::Standard));
        }
    }
    r
}

fn eq_end_quantum(line: &[u8]) -> (r: bool)
    ensures
        r == (line@ == end_marker(Variant::Quantum)),
{
    let r = line.len() == 9 && line[0] == 35 && line[1] == 35 && line[2] == 35 && line[3] == 69
        && line[4] == 78 && line[5] == 68 && line[6] == 35 && line[7] == 35 && line[8] == 35;
    proof {
        if r {
            assert(line@ =~= end_marker(Variant::Quantum));
        }
    }
    r
}

/// Whether `line` is a start marker of either variant.
fn is_start_exec(line: &[u8]) -> (r: bool)
    ensures
        r == is_start_line(line@),
{
    eq_start_std(line) || eq_start_quantum(line)
}

/// Whether `line` is an end marker of either variant.
fn is_end_exec(line: &[u8]) -> (r: bool)
    ensures
        r == is_end_line(line@),
{
    eq_end_std(line) || eq_end_quantum(line)
}

/// Whether `line` begins with the given five tag bytes.
fn has_tag_exec(line: &[u8], t0: u8, t1: u8, t2: u8, t3: u8, t4: u8) -> (r: bool)
    ensures
        r == has_tag(line@, seq![t0, t1, t2, t3, t4]),
{
    let r = line.len() >= 5 && line[0] == t0 && line[1] == t1 && line[2] == t2 && line[3] == t3
        && line[4] == t4;
    proof {
        if r {
            assert(line@.take(5) =~= seq![t0, t1, t2, t3, t4]);
        } else if line@.len() >= 5 && line@.take(5) == seq![t0, t1, t2, t3, t4] {
            assert(line@[0] == line@.take(5)[0]);
            assert(line@[1] == line@.take(5)[1]);
            assert(line@[2] == line@.take(5)[2]);
            assert(line@[3] == line@.take(5)[3]);
            assert(line@[4] == line@.take(5)[4]);
        }
    }
    r
}

/// `token_span` is the position of the first separator, or the whole
/// length if there is none.
pub proof fn lemma_token_span_eq(s: Seq<u8>, k: int)
    requires
        0 <= k <= s.len(),
        forall|j: int| 0 <= j < k ==> !is_space(s[j]),
        k == s.len() || is_space(s[k]),
    ensures
        token_span(s) == k,
    decreases k,
{
    if k == 0 {
    } else {
        lemma_token_span_eq(s.skip(1), k - 1);
    }
}

/// `line_span` is the position of the first newline, or the whole
/// length if there is none.
proof fn lemma_line_span_eq(s: Seq<u8>, k: int)
    requires
        0 <= k <= s.len(),
        forall|j: int| 0 <= j < k ==> s[j] != 10,
        k == s.len() || s[k] == 10,
    ensures
        line_span(s) == k,
    decreases k,
{
    if k == 0 {
    } else {
        lemma_line_span_eq(s.skip(1), k - 1);
    }
}

/// Reads one whitespace-separated token as a hexadecimal byte, exactly
/// as `parse_hex_token` says: any other token gives nothing.
fn parse_token(t: &[u8]) -> (r: Option<u8>)
    ensures
        r == parse_hex_token(t@),
{
    if t.len() == 0 {
        return None;
    }
    let mut val: u16 = 0;
    let mut big = false;
    let mut k: usize = 0;
    while k < t.len()
        invariant
            k <= t@.len(),
            forall|j: int| 0 <= j < k ==> is_hex_digit_byte(t@[j]),
            big == (hex_value(t@.take(k as int)) > 255),
            !big ==> val == hex_value(t@.take(k as int)) && val <= 255,
        decreases t@.len() - k,
    {
        let b = t[k];
        let d: u8;
        if 48 <= b && b <= 57 {
            d = b - 48;
        } else if 65 <= b && b <= 70 {
            d = b - 55;
        } else if 97 <= b && b <= 102 {
            d = b - 87;
        } else {
            proof {
                assert(!is_hex_digit_byte(t@[k as int]));
                assert(!all_hex(t@));
            }
            return None;
        }
        proof {
            assert(t@.take(k as int + 1).drop_last() =~= t@.take(k as int));
            assert(t@.take(k as int + 1).last() == t@[k as int]);
            assert(hex_digit_value(t@[k as int]) == d as nat);
            assert(hex_value(t@.take(k as int + 1)) == hex_value(t@.take(k as int)) * 16
                + d as nat);
        }
        if !big {
            let nv: u16 = val * 16 + d as u16;
            if nv > 255 {
                big = true;
            } else {
                val = nv;
            }
        }
        k = k + 1;
    }
    proof {
        assert(t@.take(t@.len() as int) =~= t@);
    }
    if big {
        None
    } else {
        Some(val as u8)
    }
}

/// Decodes the remainder of one payload line, appending every token
/// that parses as a hexadecimal byte and skipping the rest.
fn decode_line_into(rest: &[u8], buf: &mut Vec<u8>)
    ensures
        final(buf)@ == old(buf)@ + decode_payload_text(rest@),
{
    let mut pos: usize = 0;
    proof {
        assert(rest@.skip(0) =~= rest@);
    }
    while pos < rest.len()
        invariant
            pos <= rest@.len(),
            buf@ + decode_tokens(tokens_of(rest@.skip(pos as int))) == old(buf)@
                + decode_payload_text(rest@),
        decreases rest@.len() - pos,
    {
        let b = rest[pos];
        if b == 32 || b == 9 {
            proof {
                assert(rest@.skip(pos as int).skip(1) =~= rest@.skip(pos as int + 1));
            }
            pos = pos + 1;
        } else {
            let mut e: usize = pos + 1;
            while e < rest.len() && !(rest[e] == 32 || rest[e] == 9)
                invariant
                    pos < e <= rest@.len(),
                    forall|j: int| pos <= j < e ==> !is_space(rest@[j]),
                    !is_space(rest@[pos as int]),
                decreases rest@.len() - e,
            {
                e = e + 1;
            }
            let tok = vstd::slice::slice_subrange(rest, pos, e);
            proof {
                let s = rest@.skip(pos as int);
                lemma_token_span_eq(s, e - pos);
                assert(s.take(e - pos as int) =~= tok@);
                assert(s.skip(e - pos as int) =~= rest@.skip(e as int));
                assert(tokens_of(s) == seq![tok@] + tokens_of(rest@.skip(e as int)));
                assert((seq![tok@] + tokens_of(rest@.skip(e as int))).skip(1) =~= tokens_of(
                    rest@.skip(e as int)));
            }
            match parse_token(tok) {
                Some(v) => {
                    buf.push(v);
                    proof {
                        assert(buf@ + decode_tokens(tokens_of(rest@.skip(e as int))) =~= old(buf)@
                            + decode_payload_text(rest@));
                    }
                },
                None => {},
            }
            pos = e;
        }
    }
    proof {
        assert(rest@.skip(rest@.len() as int) =~= Seq::<u8>::empty());
        assert(tokens_of(Seq::<u8>::empty()) =~= Seq::<Seq<u8>>::empty());
        assert(buf@ =~= old(buf)@ + decode_payload_text(rest@));
    }
}

/// Extracts the first entry named `target` from an archive's bytes.
///
/// The scan walks the lines once, entering an entry at either start
/// marker, capturing the name after `NAME:`, appending the decoded
/// bytes of every `DATA:` or `[HEX]` line, and resolving at either end
/// marker: the first entry whose captured name equals `target` —
/// byte-exact and case-sensitive — yields its accumulated payload, and
/// later entries are never examined. `[DEC]`, `[OCT]`, `SIZE:` and all
/// unrecognised lines are ignored. If no entry matches, the result is
/// exactly `ArchiveError::NotFound`.
pub fn extract(content: &[u8], target: &[u8]) -> (r: Result<Vec<u8>, ArchiveError>)
    ensures
        match r {
            Ok(p) => extract_spec(content@, target@) == Some(p@),
            Err(e) => e == ArchiveError::NotFound && extract_spec(content@, target@) is None,
        },
{
    let mut pos: usize = 0;
    let mut inside = false;
    let mut name: Vec<u8> = Vec::new();
    let mut buf: Vec<u8> = Vec::new();
    proof {
        assert(content@.skip(0) =~= content@);
    }
    loop
        invariant
            pos <= content@.len(),
            scan_lines(lines_of(content@.skip(pos as int)), target@, inside, name@, buf@)
                == extract_spec(content@, target@),
        decreases content@.len() - pos,
    {
        let mut j: usize = pos;
        while j < content.len() && content[j] != 10
            invariant
                pos <= j <= content@.len(),
                forall|k: int| pos <= k < j ==> content@[k] != 10,
            decreases content@.len() - j,
        {
            j = j + 1;
        }
        let line = vstd::slice::slice_subrange(content, pos, j);
        let ghost s = content@.skip(pos as int);
        let ghost rest: Seq<Seq<u8>> = if j < content@.len() {
            lines_of(content@.skip(j as int + 1))
        } else {
            Seq::<Seq<u8>>::empty()
        };
        proof {
            lemma_line_span_eq(s, j - pos as int);
            assert(s.take(j - pos as int) =~= line@);
            if j < content@.len() {
                assert(s.skip(j - pos as int + 1) =~= content@.skip(j as int + 1));
                assert(lines_of(s) == seq![line@] + rest);
            } else {
                assert(s =~= line@);
                assert(lines_of(s) == seq![line@] + rest);
            }
            assert((seq![line@] + rest).skip(1) =~= rest);
        }
        let ghost p_inside = inside;
        let ghost p_name = name@;
        let ghost p_buf = buf@;
        if is_start_exec(line) {
            inside = true;
            name = Vec::new();
            buf = Vec::new();
        } else if inside && has_tag_exec(line, 78, 65, 77, 69, 58) {
            let tail = vstd::slice::slice_subrange(line, 5, line.len());
            name = vstd::slice::slice_to_vec(tail);
            proof {
                assert(name@ =~= rest_of_line(line@));
            }
        } else if inside && (has_tag_exec(line, 68, 65, 84, 65, 58) || has_tag_exec(
            line,
            91,
            72,
            69,
            88,
            93,
        )) {
            let tail = vstd::slice::slice_subrange(line, 5, line.len());
            proof {
                assert(tail@ =~= rest_of_line(line@));
            }
            decode_line_into(tail, &mut buf);
        } else if inside && is_end_exec(line) {
            if bytes_eq(name.as_slice(), target) {
                proof {
                    assert(extract_spec(content@, target@) == Some(buf@));
                }
                return Ok(buf);
            }
            inside = false;
        }
        proof {
            assert(scan_lines(lines_of(s), target@, p_inside, p_name, p_buf) == scan_lines(
                rest,
                target@,
                inside,
                name@,
                buf@,
            ));
        }
        if j == content.len() {
            proof {
                assert(scan_lines(rest, target@, inside, name@, buf@) is None);
            }
            return Err(ArchiveError::NotFound);
        }
        pos = j + 1;
    }
}

} // verus!

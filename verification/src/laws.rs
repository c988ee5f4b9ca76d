//! The format's laws, proved once and for all: encoding then
//! extracting round-trips, the first entry of a name wins, a wrong
//! name is never found, the Quantum `[DEC]` and `[OCT]` lines are
//! ignored on read, and an unparsable payload token is skipped.

use vstd::prelude::*;
use crate::encode::lemma_unlines_concat;
use crate::format::{
    Variant, data_field_lines, data_tag, dec_rep, dec_tag, dec_token_run, decode_payload_text,
    decode_tokens, end_marker, entry_bytes, entry_lines, extract_spec, hex_byte_rep, hex_digit,
    hex_digit_value, hex_tag, hex_token_run, hex_value, is_end_line, is_hex_digit_byte,
    is_name_line, is_payload_line, is_space, is_start_line, line_span, lines_of, name_tag,
    no_newline, oct_rep, oct_tag, oct_token_run, parse_hex_token, rest_of_line, scan_lines,
    size_tag, start_marker, tokens_of, unlines,
};
use crate::extract::lemma_token_span_eq;

verus! {

/// A line the scanner passes over without any effect on its state.
pub open spec fn inert_line(l: Seq<u8>) -> bool {
    !is_start_line(l) && !is_name_line(l) && !is_payload_line(l) && !is_end_line(l)
}

/// A five-byte tag followed by a body starts with exactly that tag.
proof fn lemma_tag_line(tag: Seq<u8>, body: Seq<u8>)
    requires
        tag.len() == 5,
    ensures
        (tag + body).len() >= 5,
        (tag + body).take(5) == tag,
        (tag + body)[0] == tag[0],
        (tag + body)[1] == tag[1],
{
    assert((tag + body).take(5) =~= tag);
}

proof fn lemma_dec_rep_digits(n: nat)
    ensures
        forall|i: int| 0 <= i < dec_rep(n).len() ==> 48 <= #[trigger] dec_rep(n)[i] <= 57,
    decreases n,
{
    if n >= 10 {
        lemma_dec_rep_digits(n / 10);
        assert forall|i: int| 0 <= i < dec_rep(n).len() implies 48 <= #[trigger] dec_rep(n)[i]
            <= 57 by {
            if i < dec_rep(n / 10).len() {
                assert(dec_rep(n)[i] == dec_rep(n / 10)[i]);
            } else {
                assert(dec_rep(n)[i] == (48 + n % 10) as u8);
            }
        }
    }
}

proof fn lemma_oct_rep_digits(n: nat)
    ensures
        forall|i: int| 0 <= i < oct_rep(n).len() ==> 48 <= #[trigger] oct_rep(n)[i] <= 57,
    decreases n,
{
    if n >= 8 {
        lemma_oct_rep_digits(n / 8);
        assert forall|i: int| 0 <= i < oct_rep(n).len() implies 48 <= #[trigger] oct_rep(n)[i]
            <= 57 by {
            if i < oct_rep(n / 8).len() {
                assert(oct_rep(n)[i] == oct_rep(n / 8)[i]);
            } else {
                assert(oct_rep(n)[i] == (48 + n % 8) as u8);
            }
        }
    }
}

/// What an uppercase hexadecimal digit byte is: a hex digit, not a
/// separator, not a newline, and it reads back as its value.
proof fn lemma_hex_digit_props(d: nat)
    requires
        d < 16,
    ensures
        is_hex_digit_byte(hex_digit(d)),
        hex_digit_value(hex_digit(d)) == d,
        !is_space(hex_digit(d)),
        hex_digit(d) != 10,
{
}

/// Every byte of a hexadecimal token run is a space or a hex digit.
proof fn lemma_hex_run_bytes(p: Seq<u8>)
    ensures
        forall|i: int| 0 <= i < hex_token_run(p).len() ==> (#[trigger] hex_token_run(p)[i] == 32
            || is_hex_digit_byte(hex_token_run(p)[i])),
    decreases p.len(),
{
    if p.len() > 0 {
        lemma_hex_run_bytes(p.skip(1));
        lemma_hex_digit_props((p[0] / 16) as nat);
        lemma_hex_digit_props((p[0] % 16) as nat);
        let run = hex_token_run(p);
        assert forall|i: int| 0 <= i < run.len() implies (#[trigger] run[i] == 32
            || is_hex_digit_byte(run[i])) by {
            let pre = seq![32u8] + hex_byte_rep(p[0]);
            if i < 3 {
                assert(run[i] == pre[i]);
                assert(pre[0] == 32);
                assert(pre[1] == hex_digit((p[0] / 16) as nat));
                assert(pre[2] == hex_digit((p[0] % 16) as nat));
            } else {
                assert(run[i] == hex_token_run(p.skip(1))[i - 3]);
            }
        }
    }
}

proof fn lemma_hex_run_no_newline(p: Seq<u8>)
    ensures
        no_newline(hex_token_run(p)),
{
    lemma_hex_run_bytes(p);
}

proof fn lemma_dec_run_no_newline(p: Seq<u8>)
    ensures
        no_newline(dec_token_run(p)),
    decreases p.len(),
{
    if p.len() > 0 {
        lemma_dec_run_no_newline(p.skip(1));
        lemma_dec_rep_digits(p[0] as nat);
        let run = dec_token_run(p);
        assert forall|i: int| 0 <= i < run.len() implies #[trigger] run[i] != 10 by {
            let pre = seq![32u8] + dec_rep(p[0] as nat);
            if i < pre.len() {
                assert(run[i] == pre[i]);
                if i >= 1 {
                    assert(pre[i] == dec_rep(p[0] as nat)[i - 1]);
                }
            } else {
                assert(run[i] == dec_token_run(p.skip(1))[i - pre.len()]);
            }
        }
    }
}

proof fn lemma_oct_run_no_newline(p: Seq<u8>)
    ensures
        no_newline(oct_token_run(p)),
    decreases p.len(),
{
    if p.len() > 0 {
        lemma_oct_run_no_newline(p.skip(1));
        lemma_oct_rep_digits(p[0] as nat);
        let run = oct_token_run(p);
        assert forall|i: int| 0 <= i < run.len() implies #[trigger] run[i] != 10 by {
            let pre = seq![32u8] + oct_rep(p[0] as nat);
            if i < pre.len() {
                assert(run[i] == pre[i]);
                if i >= 1 {
                    assert(pre[i] == oct_rep(p[0] as nat)[i - 1]);
                }
            } else {
                assert(run[i] == oct_token_run(p.skip(1))[i - pre.len()]);
            }
        }
    }
}

/// A rendered hexadecimal byte token parses back to its byte.
proof fn lemma_parse_hex_byte(b: u8)
    ensures
        parse_hex_token(hex_byte_rep(b)) == Some(b),
{
    let hi = hex_digit((b / 16) as nat);
    let lo = hex_digit((b % 16) as nat);
    lemma_hex_digit_props((b / 16) as nat);
    lemma_hex_digit_props((b % 16) as nat);
    let t = hex_byte_rep(b);
    assert(t.drop_last() =~= seq![hi]);
    assert(seq![hi].drop_last() =~= Seq::<u8>::empty());
    assert(hex_value(Seq::<u8>::empty()) == 0);
    assert(seq![hi].last() == hi);
    assert(t.last() == lo);
    assert(hex_value(seq![hi]) == (b / 16) as nat);
    assert(hex_value(t) == (b / 16) as nat * 16 + (b % 16) as nat);
    assert(hex_value(t) == b as nat);
    assert forall|i: int| 0 <= i < t.len() implies is_hex_digit_byte(t[i]) by {
        if i == 0 {
            assert(t[i] == hi);
        } else {
            assert(t[i] == lo);
        }
    }
}

/// Decoding inverts the hexadecimal rendering: the token run written
/// for a payload reads back as exactly that payload.
pub proof fn lemma_hex_run_roundtrip(p: Seq<u8>)
    ensures
        decode_payload_text(hex_token_run(p)) == p,
    decreases p.len(),
{
    if p.len() == 0 {
        assert(tokens_of(hex_token_run(p)) =~= Seq::<Seq<u8>>::empty());
        assert(decode_payload_text(hex_token_run(p)) =~= p);
    } else {
        let b = p[0];
        let rep = hex_byte_rep(b);
        let rest = hex_token_run(p.skip(1));
        let run = hex_token_run(p);
        let tail = rep + rest;
        lemma_hex_digit_props((b / 16) as nat);
        lemma_hex_digit_props((b % 16) as nat);
        assert(run =~= seq![32u8] + tail);
        assert(run[0] == 32);
        assert(run.skip(1) =~= tail);
        assert(tail[0] == hex_digit((b / 16) as nat));
        assert(tail[1] == hex_digit((b % 16) as nat));
        if p.len() == 1 {
            assert(p.skip(1) =~= Seq::<u8>::empty());
            assert(rest =~= Seq::<u8>::empty());
            assert(tail.len() == 2);
        } else {
            assert(rest[0] == 32);
            assert(tail[2] == 32);
        }
        lemma_token_span_eq(tail, 2);
        assert(tail.take(2) =~= rep);
        assert(tail.skip(2) =~= rest);
        assert(tokens_of(tail) == seq![rep] + tokens_of(rest));
        assert(tokens_of(run) == seq![rep] + tokens_of(rest));
        lemma_parse_hex_byte(b);
        lemma_hex_run_roundtrip(p.skip(1));
        assert((seq![rep] + tokens_of(rest)).skip(1) =~= tokens_of(rest));
        assert((seq![rep] + tokens_of(rest))[0] == rep);
        assert(decode_tokens(seq![rep] + tokens_of(rest)) == seq![b] + decode_payload_text(rest));
        assert(seq![b] + p.skip(1) =~= p);
    }
}

/// The scanner consumes a run of `DATA:` lines by appending the whole
/// payload they render to its buffer.
proof fn lemma_scan_data_lines(
    p: Seq<u8>,
    more: Seq<Seq<u8>>,
    target: Seq<u8>,
    nm: Seq<u8>,
    buf: Seq<u8>,
)
    ensures
        scan_lines(data_field_lines(p) + more, target, true, nm, buf) == scan_lines(
            more,
            target,
            true,
            nm,
            buf + p,
        ),
    decreases p.len(),
{
    if p.len() <= 16 {
        let line = data_tag() + hex_token_run(p);
        lemma_tag_line(data_tag(), hex_token_run(p));
        assert(data_field_lines(p) + more =~= seq![line] + more);
        assert((seq![line] + more)[0] == line);
        assert((seq![line] + more).skip(1) =~= more);
        assert(!is_start_line(line));
        assert(!is_name_line(line));
        assert(is_payload_line(line));
        assert(rest_of_line(line) =~= hex_token_run(p));
        lemma_hex_run_roundtrip(p);
        assert(scan_lines(seq![line] + more, target, true, nm, buf) == scan_lines(
            more,
            target,
            true,
            nm,
            buf + p,
        ));
    } else {
        let chunk = p.take(16);
        let line = data_tag() + hex_token_run(chunk);
        let rest_lines = data_field_lines(p.skip(16));
        lemma_tag_line(data_tag(), hex_token_run(chunk));
        assert(data_field_lines(p) + more =~= seq![line] + (rest_lines + more));
        assert((seq![line] + (rest_lines + more))[0] == line);
        assert((seq![line] + (rest_lines + more)).skip(1) =~= rest_lines + more);
        assert(!is_start_line(line));
        assert(!is_name_line(line));
        assert(is_payload_line(line));
        assert(rest_of_line(line) =~= hex_token_run(chunk));
        lemma_hex_run_roundtrip(chunk);
        lemma_scan_data_lines(p.skip(16), more, target, nm, buf + chunk);
        assert((buf + chunk) + p.skip(16) =~= buf + p);
    }
}

/// Scanning one whole encoded entry resolves it: the payload if the
/// names agree, otherwise the scan continues outside the entry.
pub proof fn lemma_scan_entry(
    name: Seq<u8>,
    payload: Seq<u8>,
    v: Variant,
    target: Seq<u8>,
    tail: Seq<Seq<u8>>,
    inside0: bool,
    n0: Seq<u8>,
    b0: Seq<u8>,
)
    ensures
        scan_lines(entry_lines(name, payload, v) + tail, target, inside0, n0, b0) == (if name
            == target {
            Some(payload)
        } else {
            scan_lines(tail, target, false, name, payload)
        }),
{
    let name_line = name_tag() + name;
    let size_line = size_tag() + dec_rep(payload.len());
    lemma_tag_line(name_tag(), name);
    lemma_tag_line(size_tag(), dec_rep(payload.len()));
    match v {
        Variant::Standard => {
            let r3 = data_field_lines(payload) + (seq![end_marker(v)] + tail);
            let r2 = seq![size_line] + r3;
            let r1 = seq![name_line] + r2;
            let r0 = seq![start_marker(v)] + r1;
            assert(entry_lines(name, payload, v) + tail =~= r0);
            assert(r0[0] == start_marker(v));
            assert(r0.skip(1) =~= r1);
            assert(is_start_line(start_marker(v)));
            assert(r1[0] == name_line);
            assert(r1.skip(1) =~= r2);
            assert(!is_start_line(name_line));
            assert(is_name_line(name_line));
            assert(rest_of_line(name_line) =~= name);
            assert(r2[0] == size_line);
            assert(r2.skip(1) =~= r3);
            assert(!is_start_line(size_line));
            assert(!is_name_line(size_line));
            assert(!is_payload_line(size_line));
            assert(!is_end_line(size_line));
            lemma_scan_data_lines(payload, seq![end_marker(v)] + tail, target, name,
                Seq::<u8>::empty());
            assert((seq![end_marker(v)] + tail)[0] == end_marker(v));
            assert((seq![end_marker(v)] + tail).skip(1) =~= tail);
            assert(!is_start_line(end_marker(v)));
            assert(!is_name_line(end_marker(v)));
            assert(!is_payload_line(end_marker(v)));
            assert(is_end_line(end_marker(v)));
            let e0 = Seq::<u8>::empty();
            assert(e0 + payload =~= payload);
            assert(scan_lines(r0, target, inside0, n0, b0) == scan_lines(r1, target, true, e0,
                e0));
            assert(scan_lines(r1, target, true, e0, e0) == scan_lines(r2, target, true, name,
                e0));
            assert(scan_lines(r2, target, true, name, e0) == scan_lines(r3, target, true, name,
                e0));
            assert(scan_lines(r3, target, true, name, e0) == scan_lines(
                seq![end_marker(v)] + tail,
                target,
                true,
                name,
                payload,
            ));
            assert(scan_lines(seq![end_marker(v)] + tail, target, true, name, payload) == (
            if name == target {
                Some(payload)
            } else {
                scan_lines(tail, target, false, name, payload)
            }));
        },
        Variant::Quantum => {
            let dline = dec_tag() + dec_token_run(payload);
            let oline = oct_tag() + oct_token_run(payload);
            lemma_tag_line(dec_tag(), dec_token_run(payload));
            lemma_tag_line(oct_tag(), oct_token_run(payload));
            assert(!is_start_line(dline) && !is_name_line(dline) && !is_payload_line(dline)
                && !is_end_line(dline));
            assert(!is_start_line(oline) && !is_name_line(oline) && !is_payload_line(oline)
                && !is_end_line(oline));
            lemma_scan_quantum_shape(name, payload, dline, oline, target, tail, inside0, n0, b0);
            assert(entry_lines(name, payload, v) + tail =~= seq![
                start_marker(Variant::Quantum),
                name_line,
                size_line,
                dline,
                oline,
                hex_tag() + hex_token_run(payload),
                end_marker(Variant::Quantum),
            ] + tail);
        },
    }
}

/// Scanning a Quantum-shaped block whose `[DEC]` and `[OCT]` positions
/// hold any two inert lines: only the `[HEX]` line feeds the payload.
pub proof fn lemma_scan_quantum_shape(
    name: Seq<u8>,
    payload: Seq<u8>,
    dline: Seq<u8>,
    oline: Seq<u8>,
    target: Seq<u8>,
    tail: Seq<Seq<u8>>,
    inside0: bool,
    n0: Seq<u8>,
    b0: Seq<u8>,
)
    requires
        inert_line(dline),
        inert_line(oline),
    ensures
        scan_lines(
            seq![
                start_marker(Variant::Quantum),
                name_tag() + name,
                size_tag() + dec_rep(payload.len()),
                dline,
                oline,
                hex_tag() + hex_token_run(payload),
                end_marker(Variant::Quantum),
            ] + tail,
            target,
            inside0,
            n0,
            b0,
        ) == (if name == target {
            Some(payload)
        } else {
            scan_lines(tail, target, false, name, payload)
        }),
{
    let name_line = name_tag() + name;
    let size_line = size_tag() + dec_rep(payload.len());
    let hline = hex_tag() + hex_token_run(payload);
    let eline = end_marker(Variant::Quantum);
    lemma_tag_line(name_tag(), name);
    lemma_tag_line(size_tag(), dec_rep(payload.len()));
    lemma_tag_line(hex_tag(), hex_token_run(payload));
    let r6 = seq![eline] + tail;
    let r5 = seq![hline] + r6;
    let r4 = seq![oline] + r5;
    let r3 = seq![dline] + r4;
    let r2 = seq![size_line] + r3;
    let r1 = seq![name_line] + r2;
    let r0 = seq![start_marker(Variant::Quantum)] + r1;
    assert(seq![
        start_marker(Variant::Quantum),
        name_line,
        size_line,
        dline,
        oline,
        hline,
        eline,
    ] + tail =~= r0);
    assert(r0[0] == start_marker(Variant::Quantum));
    assert(r0.skip(1) =~= r1);
    assert(is_start_line(start_marker(Variant::Quantum)));
    assert(r1[0] == name_line);
    assert(r1.skip(1) =~= r2);
    assert(!is_start_line(name_line));
    assert(is_name_line(name_line));
    assert(rest_of_line(name_line) =~= name);
    assert(r2[0] == size_line);
    assert(r2.skip(1) =~= r3);
    assert(!is_start_line(size_line));
    assert(!is_name_line(size_line));
    assert(!is_payload_line(size_line));
    assert(!is_end_line(size_line));
    assert(r3[0] == dline);
    assert(r3.skip(1) =~= r4);
    assert(r4[0] == oline);
    assert(r4.skip(1) =~= r5);
    assert(r5[0] == hline);
    assert(r5.skip(1) =~= r6);
    assert(!is_start_line(hline));
    assert(!is_name_line(hline));
    assert(is_payload_line(hline));
    assert(rest_of_line(hline) =~= hex_token_run(payload));
    lemma_hex_run_roundtrip(payload);
    assert(r6[0] == eline);
    assert(r6.skip(1) =~= tail);
    assert(!is_start_line(eline));
    assert(!is_name_line(eline));
    assert(!is_payload_line(eline));
    assert(is_end_line(eline));
    let e0 = Seq::<u8>::empty();
    assert(e0 + payload =~= payload);
    assert(scan_lines(r0, target, inside0, n0, b0) == scan_lines(r1, target, true, e0, e0));
    assert(scan_lines(r1, target, true, e0, e0) == scan_lines(r2, target, true, name, e0));
    assert(scan_lines(r2, target, true, name, e0) == scan_lines(r3, target, true, name, e0));
    assert(scan_lines(r3, target, true, name, e0) == scan_lines(r4, target, true, name, e0));
    assert(scan_lines(r4, target, true, name, e0) == scan_lines(r5, target, true, name, e0));
    assert(scan_lines(r5, target, true, name, e0) == scan_lines(r6, target, true, name,
        payload));
    assert(scan_lines(r6, target, true, name, payload) == (if name == target {
        Some(payload)
    } else {
        scan_lines(tail, target, false, name, payload)
    }));
}

proof fn lemma_dec_rep_no_newline(n: nat)
    ensures
        no_newline(dec_rep(n)),
{
    lemma_dec_rep_digits(n);
}

/// Every line an entry encodes to is free of newlines, so joining and
/// re-splitting the block gives the same lines back.
proof fn lemma_entry_lines_no_newline(name: Seq<u8>, payload: Seq<u8>, v: Variant)
    requires
        no_newline(name),
    ensures
        forall|i: int| 0 <= i < entry_lines(name, payload, v).len() ==> no_newline(
            #[trigger] entry_lines(name, payload, v)[i],
        ),
{
    let ls = entry_lines(name, payload, v);
    lemma_dec_rep_no_newline(payload.len());
    lemma_hex_run_no_newline(payload);
    lemma_dec_run_no_newline(payload);
    lemma_oct_run_no_newline(payload);
    assert(no_newline(start_marker(v)));
    assert(no_newline(end_marker(v)));
    assert(no_newline(name_tag() + name));
    assert(no_newline(size_tag() + dec_rep(payload.len())));
    match v {
        Variant::Standard => {
            lemma_data_lines_no_newline(payload);
            let head = seq![
                start_marker(v),
                name_tag() + name,
                size_tag() + dec_rep(payload.len()),
            ];
            assert forall|i: int| 0 <= i < ls.len() implies no_newline(#[trigger] ls[i]) by {
                if i < 3 {
                    assert(ls[i] == head[i]);
                } else if i < 3 + data_field_lines(payload).len() {
                    assert(ls[i] == data_field_lines(payload)[i - 3]);
                } else {
                    assert(ls[i] == end_marker(v));
                }
            }
        },
        Variant::Quantum => {
            assert(no_newline(dec_tag() + dec_token_run(payload)));
            assert(no_newline(oct_tag() + oct_token_run(payload)));
            assert(no_newline(hex_tag() + hex_token_run(payload)));
            assert forall|i: int| 0 <= i < ls.len() implies no_newline(#[trigger] ls[i]) by {
                assert(ls =~= seq![
                    start_marker(v),
                    name_tag() + name,
                    size_tag() + dec_rep(payload.len()),
                    dec_tag() + dec_token_run(payload),
                    oct_tag() + oct_token_run(payload),
                    hex_tag() + hex_token_run(payload),
                    end_marker(v),
                ]);
            }
        },
    }
}

proof fn lemma_data_lines_no_newline(p: Seq<u8>)
    ensures
        forall|i: int| 0 <= i < data_field_lines(p).len() ==> no_newline(
            #[trigger] data_field_lines(p)[i],
        ),
    decreases p.len(),
{
    if p.len() <= 16 {
        lemma_hex_run_no_newline(p);
        assert(data_field_lines(p)[0] == data_tag() + hex_token_run(p));
        assert(no_newline(data_tag() + hex_token_run(p)));
    } else {
        lemma_hex_run_no_newline(p.take(16));
        lemma_data_lines_no_newline(p.skip(16));
        assert forall|i: int| 0 <= i < data_field_lines(p).len() implies no_newline(
            #[trigger] data_field_lines(p)[i],
        ) by {
            if i == 0 {
                assert(data_field_lines(p)[0] == data_tag() + hex_token_run(p.take(16)));
                assert(no_newline(data_tag() + hex_token_run(p.take(16))));
            } else {
                assert(data_field_lines(p)[i] == data_field_lines(p.skip(16))[i - 1]);
            }
        }
    }
}

/// Splitting a joined list of newline-free lines gives the lines back,
/// plus the empty line after the final newline.
pub proof fn lemma_lines_unlines(ls: Seq<Seq<u8>>)
    requires
        forall|i: int| 0 <= i < ls.len() ==> no_newline(#[trigger] ls[i]),
    ensures
        lines_of(unlines(ls)) == ls + seq![Seq::<u8>::empty()],
    decreases ls.len(),
{
    if ls.len() == 0 {
        assert(line_span(unlines(ls)) == 0);
        assert(lines_of(unlines(ls)) =~= ls + seq![Seq::<u8>::empty()]);
    } else {
        let l = ls[0];
        let rest = unlines(ls.skip(1));
        let whole = unlines(ls);
        assert(whole =~= l + seq![10u8] + rest);
        assert forall|j: int| 0 <= j < l.len() implies whole[j] != 10 by {
            assert(whole[j] == l[j]);
        }
        assert(whole[l.len() as int] == 10);
        lemma_line_span_eq_laws(whole, l.len() as int);
        assert(whole.take(l.len() as int) =~= l);
        assert(whole.skip(l.len() as int + 1) =~= rest);
        lemma_lines_unlines(ls.skip(1));
        assert(lines_of(whole) == seq![l] + (ls.skip(1) + seq![Seq::<u8>::empty()]));
        assert(seq![l] + (ls.skip(1) + seq![Seq::<u8>::empty()]) =~= ls + seq![
            Seq::<u8>::empty(),
        ]);
    }
}

proof fn lemma_line_span_eq_laws(s: Seq<u8>, k: int)
    requires
        0 <= k <= s.len(),
        forall|j: int| 0 <= j < k ==> s[j] != 10,
        k == s.len() || s[k] == 10,
    ensures
        line_span(s) == k,
    decreases k,
{
    if k > 0 {
        lemma_line_span_eq_laws(s.skip(1), k - 1);
    }
}

/// Round trip: extracting a name just encoded yields exactly the
/// payload that was encoded, in either variant.
pub proof fn lemma_round_trip(name: Seq<u8>, payload: Seq<u8>, v: Variant)
    requires
        no_newline(name),
    ensures
        extract_spec(entry_bytes(name, payload, v), name) == Some(payload),
{
    lemma_entry_lines_no_newline(name, payload, v);
    lemma_lines_unlines(entry_lines(name, payload, v));
    lemma_scan_entry(name, payload, v, name, seq![Seq::<u8>::empty()], false, Seq::<u8>::empty(),
        Seq::<u8>::empty());
    assert(entry_lines(name, payload, v) + seq![Seq::<u8>::empty()] == lines_of(entry_bytes(
        name,
        payload,
        v,
    )));
}

/// Name exactness: a target that differs from the stored name in any
/// byte — case or whitespace included — is not found in a
/// single-entry archive.
pub proof fn lemma_single_entry_not_found(
    name: Seq<u8>,
    payload: Seq<u8>,
    v: Variant,
    target: Seq<u8>,
)
    requires
        no_newline(name),
        target != name,
    ensures
        extract_spec(entry_bytes(name, payload, v), target) is None,
{
    lemma_entry_lines_no_newline(name, payload, v);
    lemma_lines_unlines(entry_lines(name, payload, v));
    lemma_scan_entry(name, payload, v, target, seq![Seq::<u8>::empty()], false,
        Seq::<u8>::empty(), Seq::<u8>::empty());
    let e = Seq::<u8>::empty();
    assert(seq![e].skip(1) =~= Seq::<Seq<u8>>::empty());
    assert(seq![e][0] == e);
    assert(!is_start_line(e) && !is_name_line(e) && !is_payload_line(e) && !is_end_line(e));
    assert(scan_lines(Seq::<Seq<u8>>::empty(), target, false, name, payload) is None);
    assert(scan_lines(seq![e], target, false, name, payload) is None);
}

/// First-match precedence: with two entries of the same name, in any
/// mix of variants, extraction returns the first payload.
pub proof fn lemma_first_match(
    name: Seq<u8>,
    p1: Seq<u8>,
    v1: Variant,
    p2: Seq<u8>,
    v2: Variant,
)
    requires
        no_newline(name),
    ensures
        extract_spec(entry_bytes(name, p1, v1) + entry_bytes(name, p2, v2), name) == Some(p1),
{
    let l1 = entry_lines(name, p1, v1);
    let l2 = entry_lines(name, p2, v2);
    lemma_unlines_concat(l1, l2);
    lemma_entry_lines_no_newline(name, p1, v1);
    lemma_entry_lines_no_newline(name, p2, v2);
    assert forall|i: int| 0 <= i < (l1 + l2).len() implies no_newline(#[trigger] (l1 + l2)[i]) by {
        if i < l1.len() {
            assert((l1 + l2)[i] == l1[i]);
        } else {
            assert((l1 + l2)[i] == l2[i - l1.len()]);
        }
    }
    lemma_lines_unlines(l1 + l2);
    lemma_scan_entry(name, p1, v1, name, l2 + seq![Seq::<u8>::empty()], false, Seq::<u8>::empty(),
        Seq::<u8>::empty());
    assert((l1 + l2) + seq![Seq::<u8>::empty()] =~= l1 + (l2 + seq![Seq::<u8>::empty()]));
    assert(entry_bytes(name, p1, v1) + entry_bytes(name, p2, v2) == unlines(l1 + l2));
}

/// The Quantum quirk: replace the `[DEC]` and `[OCT]` lines of an
/// encoded Quantum entry by any two inert, newline-free lines —
/// truncated, garbled, whatever the scanner passes over — and
/// extraction still behaves exactly as for the intact entry: the
/// payload is rebuilt from the `[HEX]` line alone.
pub proof fn lemma_quantum_redundant_ignored(
    name: Seq<u8>,
    payload: Seq<u8>,
    dline: Seq<u8>,
    oline: Seq<u8>,
    target: Seq<u8>,
)
    requires
        no_newline(name),
        no_newline(dline),
        no_newline(oline),
        inert_line(dline),
        inert_line(oline),
    ensures
        extract_spec(
            unlines(
                seq![
                    start_marker(Variant::Quantum),
                    name_tag() + name,
                    size_tag() + dec_rep(payload.len()),
                    dline,
                    oline,
                    hex_tag() + hex_token_run(payload),
                    end_marker(Variant::Quantum),
                ],
            ),
            target,
        ) == (if name == target {
            Some(payload)
        } else {
            Option::<Seq<u8>>::None
        }),
{
    let ls = seq![
        start_marker(Variant::Quantum),
        name_tag() + name,
        size_tag() + dec_rep(payload.len()),
        dline,
        oline,
        hex_tag() + hex_token_run(payload),
        end_marker(Variant::Quantum),
    ];
    lemma_dec_rep_no_newline(payload.len());
    lemma_hex_run_no_newline(payload);
    assert(no_newline(start_marker(Variant::Quantum)));
    assert(no_newline(end_marker(Variant::Quantum)));
    assert(no_newline(name_tag() + name));
    assert(no_newline(size_tag() + dec_rep(payload.len())));
    assert(no_newline(hex_tag() + hex_token_run(payload)));
    assert(forall|i: int| 0 <= i < ls.len() ==> no_newline(#[trigger] ls[i]));
    lemma_lines_unlines(ls);
    lemma_scan_quantum_shape(name, payload, dline, oline, target, seq![Seq::<u8>::empty()],
        false, Seq::<u8>::empty(), Seq::<u8>::empty());
    assert(ls + seq![Seq::<u8>::empty()] =~= seq![
        start_marker(Variant::Quantum),
        name_tag() + name,
        size_tag() + dec_rep(payload.len()),
        dline,
        oline,
        hex_tag() + hex_token_run(payload),
        end_marker(Variant::Quantum),
    ] + seq![Seq::<u8>::empty()]);
    if name != target {
        let e = Seq::<u8>::empty();
        assert(seq![e].skip(1) =~= Seq::<Seq<u8>>::empty());
        assert(seq![e][0] == e);
        assert(!is_start_line(e) && !is_name_line(e) && !is_payload_line(e) && !is_end_line(e));
        assert(scan_lines(Seq::<Seq<u8>>::empty(), target, false, name, payload) is None);
        assert(scan_lines(seq![e], target, false, name, payload) is None);
    }
}

/// Token tolerance: a token that does not parse as a hexadecimal byte
/// contributes nothing — decoding with it inserted anywhere in the
/// token list equals decoding without it.
pub proof fn lemma_bad_token_skipped(toks1: Seq<Seq<u8>>, bad: Seq<u8>, toks2: Seq<Seq<u8>>)
    requires
        parse_hex_token(bad) is None,
    ensures
        decode_tokens(toks1 + seq![bad] + toks2) == decode_tokens(toks1 + toks2),
    decreases toks1.len(),
{
    if toks1.len() == 0 {
        assert(toks1 + seq![bad] + toks2 =~= seq![bad] + toks2);
        assert((seq![bad] + toks2)[0] == bad);
        assert((seq![bad] + toks2).skip(1) =~= toks2);
        assert(toks1 + toks2 =~= toks2);
    } else {
        let h = toks1[0];
        assert((toks1 + seq![bad] + toks2)[0] == h);
        assert((toks1 + seq![bad] + toks2).skip(1) =~= toks1.skip(1) + seq![bad] + toks2);
        assert((toks1 + toks2)[0] == h);
        assert((toks1 + toks2).skip(1) =~= toks1.skip(1) + toks2);
        lemma_bad_token_skipped(toks1.skip(1), bad, toks2);
    }
}

} // verus!


//! The encoder: renders one named payload as the exact block of bytes
//! that an append to the archive file writes.

use vstd::prelude::*;
use crate::format::{
    Variant, data_field_lines, data_tag, dec_rep, dec_tag, dec_token_run, end_marker,
    entry_bytes, entry_lines, hex_byte_rep, hex_digit, hex_tag, hex_token_run, name_tag,
    oct_rep, oct_tag, oct_token_run, size_tag, start_marker, unlines,
};

verus! {

/// Splitting off the first line of a joined list: `unlines` of a list
/// headed by `l` is `l`, a newline, then the rest.
pub proof fn lemma_unlines_cons(l: Seq<u8>, rest: Seq<Seq<u8>>)
    ensures
        unlines(seq![l] + rest) == l + seq![10u8] + unlines(rest),
{
    let whole = seq![l] + rest;
    assert(whole.skip(1) =~= rest);
    assert(whole[0] == l);
}

/// `unlines` distributes over concatenation of line lists.
pub proof fn lemma_unlines_concat(a: Seq<Seq<u8>>, b: Seq<Seq<u8>>)
    ensures
        unlines(a + b) == unlines(a) + unlines(b),
    decreases a.len(),
{
    if a.len() == 0 {
        assert(a + b =~= b);
        assert(unlines(a) + unlines(b) =~= unlines(b));
    } else {
        assert((a + b).skip(1) =~= a.skip(1) + b);
        lemma_unlines_concat(a.skip(1), b);
        assert(unlines(a + b) =~= unlines(a) + unlines(b));
    }
}

/// Hexadecimal token runs concatenate bytewise.
pub proof fn lemma_hex_run_concat(a: Seq<u8>, b: Seq<u8>)
    ensures
        hex_token_run(a + b) == hex_token_run(a) + hex_token_run(b),
    decreases a.len(),
{
    if a.len() == 0 {
        assert(a + b =~= b);
        assert(hex_token_run(a) + hex_token_run(b) =~= hex_token_run(b));
    } else {
        assert((a + b).skip(1) =~= a.skip(1) + b);
        lemma_hex_run_concat(a.skip(1), b);
        assert((a + b)[0] == a[0]);
        assert(hex_token_run(a + b) =~= hex_token_run(a) + hex_token_run(b));
    }
}

/// Decimal token runs concatenate bytewise.
pub proof fn lemma_dec_run_concat(a: Seq<u8>, b: Seq<u8>)
    ensures
        dec_token_run(a + b) == dec_token_run(a) + dec_token_run(b),
    decreases a.len(),
{
    if a.len() == 0 {
        assert(a + b =~= b);
        assert(dec_token_run(a) + dec_token_run(b) =~= dec_token_run(b));
    } else {
        assert((a + b).skip(1) =~= a.skip(1) + b);
        lemma_dec_run_concat(a.skip(1), b);
        assert((a + b)[0] == a[0]);
        assert(dec_token_run(a + b) =~= dec_token_run(a) + dec_token_run(b));
    }
}

/// Octal token runs concatenate bytewise.
pub proof fn lemma_oct_run_concat(a: Seq<u8>, b: Seq<u8>)
    ensures
        oct_token_run(a + b) == oct_token_run(a) + oct_token_run(b),
    decreases a.len(),
{
    if a.len() == 0 {
        assert(a + b =~= b);
        assert(oct_token_run(a) + oct_token_run(b) =~= oct_token_run(b));
    } else {
        assert((a + b).skip(1) =~= a.skip(1) + b);
        lemma_oct_run_concat(a.skip(1), b);
        assert((a + b)[0] == a[0]);
        assert(oct_token_run(a + b) =~= oct_token_run(a) + oct_token_run(b));
    }
}

/// Appends every byte of `s`.
fn push_all(out: &mut Vec<u8>, s: &[u8])
    ensures
        final(out)@ == old(out)@ + s@,
{
    let mut k: usize = 0;
    while k < s.len()
        invariant
            k <= s.len(),
            out@ == old(out)@ + s@.take(k as int),
        decreases s.len() - k,
    {
        out.push(s[k]);
        proof {
            assert(s@.take(k as int + 1) =~= s@.take(k as int) + seq![s@[k as int]]);
            assert(out@ =~= old(out)@ + s@.take(k as int + 1));
        }
        k = k + 1;
    }
    proof {
        assert(s@.take(s@.len() as int) =~= s@);
    }
}

/// Appends the start marker of `v`.
fn push_start_marker(out: &mut Vec<u8>, v: Variant)
    ensures
        final(out)@ == old(out)@ + start_marker(v),
{
    match v {
        Variant::Standard => {
            out.push(45); out.push(45); out.push(45);
            out.push(69); out.push(78); out.push(84); out.push(82); out.push(89);
            out.push(45); out.push(45); out.push(45);
        },
        Variant::Quantum => {
            out.push(35); out.push(35); out.push(35);
            out.push(69); out.push(78); out.push(84); out.push(82); out.push(89);
            out.push(35); out.push(35); out.push(35);
        },
    }
    proof {
        assert(out@ =~= old(out)@ + start_marker(v));
    }
}

/// Appends the end marker of `v`.
fn push_end_marker(out: &mut Vec<u8>, v: Variant)
    ensures
        final(out)@ == old(out)@ + end_marker(v),
{
    match v {
        Variant::Standard => {
            out.push(45); out.push(45); out.push(45);
            out.push(69); out.push(78); out.push(68);
            out.push(45); out.push(45); out.push(45);
        },
        Variant::Quantum => {
            out.push(35); out.push(35); out.push(35);
            out.push(69); out.push(78); out.push(68);
            out.push(35); out.push(35); out.push(35);
        },
    }
    proof {
        assert(out@ =~= old(out)@ + end_marker(v));
    }
}

/// Appends one five-byte tag given its bytes.
fn push_tag(out: &mut Vec<u8>, t0: u8, t1: u8, t2: u8, t3: u8, t4: u8)
    ensures
        final(out)@ == old(out)@ + seq![t0, t1, t2, t3, t4],
{
    out.push(t0); out.push(t1); out.push(t2); out.push(t3); out.push(t4);
    proof {
        assert(out@ =~= old(out)@ + seq![t0, t1, t2, t3, t4]);
    }
}

/// Appends the unpadded decimal digits of `n`.
fn push_dec(out: &mut Vec<u8>, n: usize)
    ensures
        final(out)@ == old(out)@ + dec_rep(n as nat),
    decreases n,
{
    if n < 10 {
        out.push(48 + n as u8);
        proof {
            assert(out@ =~= old(out)@ + dec_rep(n as nat));
        }
    } else {
        push_dec(out, n / 10);
        out.push(48 + (n % 10) as u8);
        proof {
            assert(out@ =~= old(out)@ + dec_rep(n as nat));
        }
    }
}

/// Appends the unpadded octal digits of `n`.
fn push_oct(out: &mut Vec<u8>, n: usize)
    ensures
        final(out)@ == old(out)@ + oct_rep(n as nat),
    decreases n,
{
    if n < 8 {
        out.push(48 + n as u8);
        proof {
            assert(out@ =~= old(out)@ + oct_rep(n as nat));
        }
    } else {
        push_oct(out, n / 8);
        out.push(48 + (n % 8) as u8);
        proof {
            assert(out@ =~= old(out)@ + oct_rep(n as nat));
        }
    }
}

/// The uppercase hexadecimal digit byte for `d < 16`.
fn hex_digit_exec(d: u8) -> (r: u8)
    requires
        d < 16,
    ensures
        r == hex_digit(d as nat),
{
    if d < 10 {
        48 + d
    } else {
        55 + d
    }
}

/// Appends one space-prefixed hexadecimal token per byte of
/// `p[lo..hi]`.
fn push_hex_run(out: &mut Vec<u8>, p: &[u8], lo: usize, hi: usize)
    requires
        lo <= hi <= p@.len(),
    ensures
        final(out)@ == old(out)@ + hex_token_run(p@.subrange(lo as int, hi as int)),
{
    let mut k: usize = lo;
    proof {
        assert(p@.subrange(lo as int, lo as int) =~= Seq::<u8>::empty());
        assert(out@ =~= old(out)@ + hex_token_run(p@.subrange(lo as int, lo as int)));
    }
    while k < hi
        invariant
            lo <= k <= hi <= p@.len(),
            out@ == old(out)@ + hex_token_run(p@.subrange(lo as int, k as int)),
        decreases hi - k,
    {
        let b = p[k];
        out.push(32);
        out.push(hex_digit_exec(b / 16));
        out.push(hex_digit_exec(b % 16));
        proof {
            let done = p@.subrange(lo as int, k as int);
            let one = seq![p@[k as int]];
            assert(p@.subrange(lo as int, k as int + 1) =~= done + one);
            lemma_hex_run_concat(done, one);
            assert(one.skip(1) =~= Seq::<u8>::empty());
            assert(hex_token_run(Seq::<u8>::empty()) == Seq::<u8>::empty());
            assert(hex_token_run(one) =~= seq![32u8] + hex_byte_rep(p@[k as int]));
            assert(out@ =~= old(out)@ + hex_token_run(p@.subrange(lo as int, k as int + 1)));
        }
        k = k + 1;
    }
}

/// Appends one space-prefixed decimal token per byte of `p`.
fn push_dec_run(out: &mut Vec<u8>, p: &[u8])
    ensures
        final(out)@ == old(out)@ + dec_token_run(p@),
{
    let mut k: usize = 0;
    proof {
        assert(p@.take(0) =~= Seq::<u8>::empty());
        assert(out@ =~= old(out)@ + dec_token_run(p@.take(0)));
    }
    while k < p.len()
        invariant
            k <= p@.len(),
            out@ == old(out)@ + dec_token_run(p@.take(k as int)),
        decreases p@.len() - k,
    {
        out.push(32);
        push_dec(out, p[k] as usize);
        proof {
            let done = p@.take(k as int);
            let one = seq![p@[k as int]];
            assert(p@.take(k as int + 1) =~= done + one);
            lemma_dec_run_concat(done, one);
            assert(one.skip(1) =~= Seq::<u8>::empty());
            assert(dec_token_run(Seq::<u8>::empty()) == Seq::<u8>::empty());
            assert(dec_token_run(one) =~= seq![32u8] + dec_rep(p@[k as int] as nat));
            assert(out@ =~= old(out)@ + dec_token_run(p@.take(k as int + 1)));
        }
        k = k + 1;
    }
    proof {
        assert(p@.take(p@.len() as int) =~= p@);
    }
}

/// Appends one space-prefixed octal token per byte of `p`.
fn push_oct_run(out: &mut Vec<u8>, p: &[u8])
    ensures
        final(out)@ == old(out)@ + oct_token_run(p@),
{
    let mut k: usize = 0;
    proof {
        assert(p@.take(0) =~= Seq::<u8>::empty());
        assert(out@ =~= old(out)@ + oct_token_run(p@.take(0)));
    }
    while k < p.len()
        invariant
            k <= p@.len(),
            out@ == old(out)@ + oct_token_run(p@.take(k as int)),
        decreases p@.len() - k,
    {
        out.push(32);
        push_oct(out, p[k] as usize);
        proof {
            let done = p@.take(k as int);
            let one = seq![p@[k as int]];
            assert(p@.take(k as int + 1) =~= done + one);
            lemma_oct_run_concat(done, one);
            assert(one.skip(1) =~= Seq::<u8>::empty());
            assert(oct_token_run(Seq::<u8>::empty()) == Seq::<u8>::empty());
            assert(oct_token_run(one) =~= seq![32u8] + oct_rep(p@[k as int] as nat));
            assert(out@ =~= old(out)@ + oct_token_run(p@.take(k as int + 1)));
        }
        k = k + 1;
    }
    proof {
        assert(p@.take(p@.len() as int) =~= p@);
    }
}

/// Encodes one entry: the block of bytes that appending `payload`
/// under `name` in the chosen variant writes to the archive file. The
/// recorded size is the payload's byte count; the payload itself is
/// rendered as hexadecimal tokens, wrapped every sixteen bytes on
/// `DATA:` lines for Standard, or written once on each of the `[DEC]`,
/// `[OCT]` and `[HEX]` lines for Quantum.
pub fn encode_entry(name: &[u8], payload: &[u8], variant: Variant) -> (out: Vec<u8>)
    ensures
        out@ == entry_bytes(name@, payload@, variant),
{
    let ghost head: Seq<Seq<u8>> = seq![
        start_marker(variant),
        name_tag() + name@,
        size_tag() + dec_rep(payload@.len()),
    ];
    let mut out: Vec<u8> = Vec::new();
    push_start_marker(&mut out, variant);
    out.push(10);
    push_tag(&mut out, 78, 65, 77, 69, 58);
    push_all(&mut out, name);
    out.push(10);
    push_tag(&mut out, 83, 73, 90, 69, 58);
    push_dec(&mut out, payload.len());
    out.push(10);
    proof {
        assert(head =~= seq![head[0]] + (seq![head[1]] + (seq![head[2]]
            + Seq::<Seq<u8>>::empty())));
        lemma_unlines_cons(head[0], seq![head[1]] + (seq![head[2]] + Seq::<Seq<u8>>::empty()));
        lemma_unlines_cons(head[1], seq![head[2]] + Seq::<Seq<u8>>::empty());
        lemma_unlines_cons(head[2], Seq::<Seq<u8>>::empty());
        assert(out@ =~= unlines(head));
    }
    match variant {
        Variant::Standard => {
            let mut i: usize = 0;
            let ghost emitted = head;
            proof {
                assert(payload@.skip(0) =~= payload@);
                assert(emitted + data_field_lines(payload@.skip(i as int))
                    + seq![end_marker(variant)] =~= entry_lines(name@, payload@, variant));
            }
            while payload.len() - i > 16
                invariant
                    i <= payload@.len(),
                    out@ == unlines(emitted),
                    emitted + data_field_lines(payload@.skip(i as int))
                        + seq![end_marker(variant)] == entry_lines(name@, payload@, variant),
                decreases payload@.len() - i,
            {
                push_tag(&mut out, 68, 65, 84, 65, 58);
                push_hex_run(&mut out, payload, i, i + 16);
                out.push(10);
                proof {
                    let chunk = payload@.subrange(i as int, i as int + 16);
                    let line = data_tag() + hex_token_run(chunk);
                    assert(payload@.skip(i as int).take(16) =~= chunk);
                    assert(payload@.skip(i as int).skip(16) =~= payload@.skip(i as int + 16));
                    assert(data_field_lines(payload@.skip(i as int))
                        =~= seq![line] + data_field_lines(payload@.skip(i as int + 16)));
                    lemma_unlines_concat(emitted, seq![line]);
                    lemma_unlines_cons(line, Seq::<Seq<u8>>::empty());
                    assert(out@ =~= unlines(emitted + seq![line]));
                    assert((emitted + seq![line]) + data_field_lines(payload@.skip(i as int + 16))
                        + seq![end_marker(variant)]
                        =~= emitted + data_field_lines(payload@.skip(i as int))
                            + seq![end_marker(variant)]);
                }
                proof {
                    emitted = emitted + seq![data_tag()
                        + hex_token_run(payload@.subrange(i as int, i as int + 16))];
                }
                i = i + 16;
            }
            push_tag(&mut out, 68, 65, 84, 65, 58);
            push_hex_run(&mut out, payload, i, payload.len());
            out.push(10);
            push_end_marker(&mut out, variant);
            out.push(10);
            proof {
                let tail_chunk = payload@.subrange(i as int, payload@.len() as int);
                let line = data_tag() + hex_token_run(tail_chunk);
                assert(payload@.skip(i as int) =~= tail_chunk);
                assert(data_field_lines(payload@.skip(i as int)) =~= seq![line]);
                lemma_unlines_concat(emitted, seq![line] + seq![end_marker(variant)]);
                lemma_unlines_cons(line, seq![end_marker(variant)]);
                lemma_unlines_cons(end_marker(variant), Seq::<Seq<u8>>::empty());
                assert(out@ =~= unlines(emitted + (seq![line] + seq![end_marker(variant)])));
                assert(emitted + (seq![line] + seq![end_marker(variant)])
                    =~= entry_lines(name@, payload@, variant));
            }
        },
        Variant::Quantum => {
            push_tag(&mut out, 91, 68, 69, 67, 93);
            push_dec_run(&mut out, payload);
            out.push(10);
            push_tag(&mut out, 91, 79, 67, 84, 93);
            push_oct_run(&mut out, payload);
            out.push(10);
            push_tag(&mut out, 91, 72, 69, 88, 93);
            push_hex_run(&mut out, payload, 0, payload.len());
            out.push(10);
            push_end_marker(&mut out, variant);
            out.push(10);
            proof {
                assert(payload@.subrange(0, payload@.len() as int) =~= payload@);
                let tail: Seq<Seq<u8>> = seq![
                    dec_tag() + dec_token_run(payload@),
                    oct_tag() + oct_token_run(payload@),
                    hex_tag() + hex_token_run(payload@),
                    end_marker(variant),
                ];
                lemma_unlines_concat(head, tail);
                assert(tail =~= seq![tail[0]] + (seq![tail[1]] + (seq![tail[2]]
                    + (seq![tail[3]] + Seq::<Seq<u8>>::empty()))));
                lemma_unlines_cons(tail[0], seq![tail[1]] + (seq![tail[2]]
                    + (seq![tail[3]] + Seq::<Seq<u8>>::empty())));
                lemma_unlines_cons(tail[1], seq![tail[2]] + (seq![tail[3]]
                    + Seq::<Seq<u8>>::empty()));
                lemma_unlines_cons(tail[2], seq![tail[3]] + Seq::<Seq<u8>>::empty());
                lemma_unlines_cons(tail[3], Seq::<Seq<u8>>::empty());
                assert(out@ =~= unlines(head + tail));
                assert(head + tail =~= entry_lines(name@, payload@, variant));
            }
        },
    }
    out
}

} // verus!

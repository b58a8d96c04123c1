//! Standard base64 (RFC 4648) with `=` padding.

use vstd::prelude::*;
use crate::text::push_char;

verus! {

/// The base64 alphabet: `A`-`Z`, `a`-`z`, `0`-`9`, `+`, `/`.
pub open spec fn b64_char(v: u32) -> char {
    if v < 26 {
        ((v + 65) as u8) as char
    } else if v < 52 {
        ((v + 71) as u8) as char
    } else if v < 62 {
        ((v - 4) as u8) as char
    } else if v == 62 {
        '+'
    } else {
        '/'
    }
}

/// The four characters for a group of up to three bytes (`len` of them
/// present, missing ones read as zero).
pub open spec fn b64_group(b0: u8, b1: u8, b2: u8, len: int) -> Seq<char> {
    let n = ((b0 as u32) << 16u32) | ((b1 as u32) << 8u32) | (b2 as u32);
    seq![
        b64_char((n >> 18u32) & 63),
        b64_char((n >> 12u32) & 63),
        if len > 1 { b64_char((n >> 6u32) & 63) } else { '=' },
        if len > 2 { b64_char(n & 63) } else { '=' },
    ]
}

/// The base64 text of `data`, three bytes at a time.
pub open spec fn spec_base64(data: Seq<u8>) -> Seq<char>
    decreases data.len(),
{
    if data.len() == 0 {
        seq![]
    } else {
        let len = if data.len() < 3 { data.len() as int } else { 3 };
        let b1 = if len > 1 { data[1] } else { 0u8 };
        let b2 = if len > 2 { data[2] } else { 0u8 };
        b64_group(data[0], b1, b2, len) + spec_base64(data.skip(len))
    }
}

fn b64_digit(v: u32) -> (c: char)
    requires
        v < 64,
    ensures
        c == b64_char(v),
{
    if v < 26 {
        ((v + 65) as u8) as char
    } else if v < 52 {
        ((v + 71) as u8) as char
    } else if v < 62 {
        ((v - 4) as u8) as char
    } else if v == 62 {
        '+'
    } else {
        '/'
    }
}

/// Encodes `data` as standard base64 with padding.
pub fn base64_encode(data: &[u8]) -> (out: String)
    ensures
        out@ == spec_base64(data@),
{
    let mut out = String::new();
    let mut i: usize = 0;
    let n = data.len();
    assert(data@.skip(0) =~= data@);
    assert(out@ + spec_base64(data@) =~= spec_base64(data@));
    while i < n
        invariant
            i <= n,
            n == data@.len(),
            spec_base64(data@) == out@ + spec_base64(data@.skip(i as int)),
        decreases n - i,
    {
        let len = if n - i < 3 { n - i } else { 3 };
        let b0 = data[i] as u32;
        let b1 = if len > 1 { data[i + 1] as u32 } else { 0 };
        let b2 = if len > 2 { data[i + 2] as u32 } else { 0 };
        let nn = (b0 << 16u32) | (b1 << 8u32) | b2;
        let ghost rest = data@.skip(i as int);
        let ghost before = out@;
        assert((nn >> 18u32) & 63 < 64 && (nn >> 12u32) & 63 < 64 && (nn >> 6u32) & 63 < 64 && nn & 63 < 64) by (bit_vector);
        push_char(&mut out, b64_digit((nn >> 18u32) & 63));
        push_char(&mut out, b64_digit((nn >> 12u32) & 63));
        if len > 1 {
            push_char(&mut out, b64_digit((nn >> 6u32) & 63));
        } else {
            push_char(&mut out, '=');
        }
        if len > 2 {
            push_char(&mut out, b64_digit(nn & 63));
        } else {
            push_char(&mut out, '=');
        }
        proof {
            let rb1 = if len > 1 { rest[1] } else { 0u8 };
            let rb2 = if len > 2 { rest[2] } else { 0u8 };
            assert(rest[0] == data@[i as int]);
            assert(b1 == rb1 as u32);
            assert(b2 == rb2 as u32);
            assert(out@ =~= before + b64_group(rest[0], rb1, rb2, len as int));
            assert(rest.skip(len as int) =~= data@.skip(i + len));
        }
        i = i + len;
    }
    assert(data@.skip(i as int) =~= Seq::<u8>::empty());
    assert(out@ + Seq::<char>::empty() =~= out@);
    out
}

} // verus!

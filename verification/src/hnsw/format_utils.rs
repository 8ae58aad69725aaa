//! Short hexadecimal previews of byte strings.

use vstd::prelude::*;

use crate::text::{hex_byte, push_char, push_text, hex_digit};

verus! {

/// The bytes as two-digit lowercase hex numbers separated by spaces.
pub open spec fn spaced_hex(bs: Seq<u8>) -> Seq<char>
    decreases bs.len(),
{
    if bs.len() == 0 {
        seq![]
    } else if bs.len() == 1 {
        hex_byte(bs[0])
    } else {
        spaced_hex(bs.drop_last()) + seq![' '] + hex_byte(bs.last())
    }
}

/// The preview of `bytes`: the first `max_bytes` of them in hex, in
/// brackets, with ` ...` before the closing bracket where some were left
/// out.
pub open spec fn hex_preview(bytes: Seq<u8>, max_bytes: usize) -> Seq<char> {
    let n = if max_bytes < bytes.len() {
        max_bytes as int
    } else {
        bytes.len() as int
    };
    let hex = spaced_hex(bytes.take(n));
    if bytes.len() > n {
        seq!['['] + hex + " ...]"@
    } else {
        seq!['['] + hex + seq![']']
    }
}

/// A bracketed hex preview of at most `max_bytes` bytes.
pub fn format_hex_preview(bytes: &[u8], max_bytes: usize) -> (s: String)
    ensures
        s@ == hex_preview(bytes@, max_bytes),
{
    let preview_len = if max_bytes < bytes.len() {
        max_bytes
    } else {
        bytes.len()
    };
    let mut s = String::new();
    push_char(&mut s, '[');
    let mut i: usize = 0;
    while i < preview_len
        invariant
            i <= preview_len,
            preview_len <= bytes@.len(),
            s@ == seq!['['] + spaced_hex(bytes@.take(i as int)),
        decreases preview_len - i,
    {
        if i > 0 {
            push_char(&mut s, ' ');
        }
        let b = bytes[i];
        push_char(&mut s, hex_digit(b / 16));
        push_char(&mut s, hex_digit(b % 16));
        proof {
            assert(bytes@.take(i + 1).drop_last() =~= bytes@.take(i as int));
            assert(bytes@.take(i + 1).last() == b);
            if i == 0 {
                assert(bytes@.take(1).len() == 1);
                assert(s@ =~= seq!['['] + spaced_hex(bytes@.take(i + 1)));
            } else {
                assert(s@ =~= seq!['['] + spaced_hex(bytes@.take(i + 1)));
            }
        }
        i = i + 1;
    }
    if bytes.len() > preview_len {
        push_text(&mut s, " ...]");
    } else {
        push_char(&mut s, ']');
    }
    assert(s@ =~= hex_preview(bytes@, max_bytes));
    s
}

} // verus!

//! Splitting a text into lines.
//!
//! A line ends at a newline byte; a carriage return right before that
//! newline belongs to the line ending too. The last line needs no ending,
//! and a text that ends with a line ending has no empty line after it.

use vstd::prelude::*;
use vstd::string::*;
use vstd::utf8::*;

verus! {

broadcast use {encode_utf8_valid_utf8, encode_utf8_decode_utf8, is_char_boundary_iff_is_leading_byte};

pub const NEWLINE: u8 = 10;

pub const CARRIAGE_RETURN: u8 = 13;

/// The index of the first newline byte at or after `i`, or `b.len()` if none.
pub open spec fn newline_from(b: Seq<u8>, i: int) -> int
    decreases b.len() - i,
{
    if i < 0 || i >= b.len() {
        b.len() as int
    } else if b[i] == NEWLINE {
        i
    } else {
        newline_from(b, i + 1)
    }
}

/// `l` without one trailing carriage return.
pub open spec fn strip_cr(l: Seq<u8>) -> Seq<u8> {
    if l.len() > 0 && l.last() == CARRIAGE_RETURN {
        l.drop_last()
    } else {
        l
    }
}

/// The lines of the bytes `b`, without their line endings.
pub open spec fn lines_of(b: Seq<u8>) -> Seq<Seq<u8>>
    decreases b.len(),
    via lines_of_decreases
{
    if b.len() == 0 {
        seq![]
    } else {
        let n = newline_from(b, 0);
        if n >= b.len() {
            seq![b]
        } else {
            seq![strip_cr(b.subrange(0, n))] + lines_of(b.subrange(n + 1, b.len() as int))
        }
    }
}

#[via_fn]
proof fn lines_of_decreases(b: Seq<u8>) {
    lemma_newline_from_bounds(b, 0);
}

/// The newline found from `i` lies between `i` and the end, and is a newline.
pub proof fn lemma_newline_from_bounds(b: Seq<u8>, i: int)
    requires
        0 <= i,
    ensures
        i <= newline_from(b, i) <= b.len() || i > b.len(),
        newline_from(b, i) < b.len() ==> b[newline_from(b, i)] == NEWLINE,
    decreases b.len() - i,
{
    if i < b.len() && b[i] != NEWLINE {
        lemma_newline_from_bounds(b, i + 1);
    }
}

/// The lines of a text, each as the text it holds.
pub open spec fn text_lines(text: Seq<char>) -> Seq<Seq<char>> {
    lines_of(encode_utf8(text)).map_values(|l: Seq<u8>| decode_utf8(l))
}

proof fn lemma_boundary_after_ascii(b: Seq<u8>)
    requires
        valid_utf8(b),
        b.len() > 0,
        is_leading_byte_width_1(b[0]),
    ensures
        is_char_boundary(b, 1),
{
    reveal_with_fuel(valid_utf8, 2);
    reveal_with_fuel(is_char_boundary, 2);
}

/// The index of the first newline byte of `b`, or its length if none.
fn find_newline(b: &[u8]) -> (r: usize)
    ensures
        r == newline_from(b@, 0),
{
    let n: usize = b.len();
    let mut i: usize = 0;
    while i < n
        invariant
            n == b@.len(),
            i <= n,
            newline_from(b@, 0) == newline_from(b@, i as int),
        decreases n - i,
    {
        if b[i] == NEWLINE {
            return i;
        }
        i = i + 1;
    }
    i
}

/// `l` without one trailing carriage return.
fn strip_cr_str(l: &str) -> (r: &str)
    ensures
        encode_utf8(r@) == strip_cr(encode_utf8(l@)),
{
    let b = l.as_bytes();
    let n: usize = b.len();
    if n > 0 && b[n - 1] == CARRIAGE_RETURN {
        proof {
            assert(is_leading_byte_width_1(b@[n - 1]));
        }
        let (head, _) = l.split_at(n - 1);
        assert(head.spec_bytes() =~= strip_cr(encode_utf8(l@)));
        head
    } else {
        l
    }
}

/// The lines of `text`, in order, without their line endings.
pub fn split_lines(text: &str) -> (r: Vec<&str>)
    ensures
        r@.map_values(|l: &str| encode_utf8(l@)) == lines_of(encode_utf8(text@)),
{
    let mut out: Vec<&str> = Vec::new();
    let mut rest: &str = text;
    loop
        invariant
            lines_of(encode_utf8(text@)) == out@.map_values(|l: &str| encode_utf8(l@)) + lines_of(
                encode_utf8(rest@),
            ),
        decreases encode_utf8(rest@).len(),
    {
        let b = rest.as_bytes();
        let n: usize = b.len();
        let ghost old_out = out@;
        if n == 0 {
            assert(lines_of(encode_utf8(rest@)) =~= Seq::<Seq<u8>>::empty());
            assert(out@.map_values(|l: &str| encode_utf8(l@)) + lines_of(encode_utf8(rest@))
                =~= out@.map_values(|l: &str| encode_utf8(l@)));
            return out;
        }
        let nl = find_newline(b);
        proof {
            lemma_newline_from_bounds(b@, 0);
        }
        if nl == n {
            assert(lines_of(encode_utf8(rest@)) =~= seq![encode_utf8(rest@)]);
            out.push(rest);
            assert(out@.map_values(|l: &str| encode_utf8(l@)) =~= old_out.map_values(
                |l: &str| encode_utf8(l@),
            ) + lines_of(encode_utf8(rest@)));
            return out;
        }
        assert(is_leading_byte_width_1(b@[nl as int]));
        assert(is_char_boundary(b@, nl as int));
        let (head, tail) = rest.split_at(nl);
        proof {
            assert(tail.spec_bytes()[0] == NEWLINE);
            lemma_boundary_after_ascii(tail.spec_bytes());
        }
        let (_, after) = tail.split_at(1);
        let line = strip_cr_str(head);
        assert(head.spec_bytes() =~= b@.subrange(0, nl as int));
        assert(after.spec_bytes() =~= b@.subrange(nl + 1, n as int));
        out.push(line);
        assert(out@.map_values(|l: &str| encode_utf8(l@)) + lines_of(encode_utf8(after@))
            =~= old_out.map_values(|l: &str| encode_utf8(l@)) + lines_of(encode_utf8(rest@)));
        rest = after;
    }
}

} // verus!

//! Line wrapping of encoded text: a line break after every full line but the
//! last.

use crate::buffer::buffer_bytes;
use bytes::BytesMut;
use vstd::arithmetic::div_mod::lemma_fundamental_div_mod_converse;
use vstd::prelude::*;

verus! {

/// Carriage return, line feed.
pub open spec fn crlf() -> Seq<u8> {
    seq![13u8, 10u8]
}

/// `s` with a CRLF behind every `width` bytes that more bytes follow.
pub open spec fn wrapped(s: Seq<u8>, width: nat) -> Seq<u8>
    decreases s.len(),
{
    if width == 0 || s.len() <= width {
        s
    } else {
        s.take(width as int) + crlf() + wrapped(s.skip(width as int), width)
    }
}

/// The length of `wrapped(s, width)` for an `s` of `len` bytes.
pub open spec fn wrapped_len(len: nat, width: nat) -> nat {
    if width == 0 || len <= width {
        len
    } else {
        (len + 2 * ((len - 1) / (width as int))) as nat
    }
}

/// `wrapped(s, width)` has `wrapped_len(s.len(), width)` bytes.
pub proof fn lemma_wrapped_len(s: Seq<u8>, width: nat)
    ensures
        wrapped(s, width).len() == wrapped_len(s.len(), width),
    decreases s.len(),
{
    if width == 0 || s.len() <= width {
    } else {
        let t = s.skip(width as int);
        lemma_wrapped_len(t, width);
        let w = width as int;
        let n = s.len() as int;
        // (n - 1) / w == (n - w - 1) / w + 1
        let q = (n - w - 1) / w;
        let r = (n - w - 1) % w;
        vstd::arithmetic::div_mod::lemma_fundamental_div_mod(n - w - 1, w);
        assert(n - 1 == (q + 1) * w + r) by (nonlinear_arith)
            requires
                n - w - 1 == w * q + r,
        ;
        vstd::arithmetic::div_mod::lemma_mod_bound(n - w - 1, w);
        lemma_fundamental_div_mod_converse(n - 1, w, q + 1, r);
        if t.len() <= width {
            assert(q == 0) by {
                vstd::arithmetic::div_mod::lemma_basic_div(n - w - 1, w);
            }
        }
    }
}

/// `line_wrap::line_wrap` with the two-byte ending `line_wrap::crlf()`: the
/// first `input_len` bytes of the buffer are rearranged in place so that a
/// CRLF follows every full line of `line_len` bytes but the last line; the
/// buffer keeps its length, and what lies behind the wrapped text stays. The
/// function returns the number of bytes it added. It fails where the buffer
/// is too short for the wrapped text.
#[verifier::external_body]
fn line_wrap_crlf(buf: &mut BytesMut, input_len: usize, line_len: usize) -> (added: usize)
    requires
        line_len > 0,
        input_len <= buffer_bytes(*old(buf)).len(),
        wrapped_len(input_len as nat, line_len as nat) <= buffer_bytes(*old(buf)).len(),
    ensures
        buffer_bytes(*final(buf)).len() == buffer_bytes(*old(buf)).len(),
        buffer_bytes(*final(buf)).take(wrapped_len(input_len as nat, line_len as nat) as int)
            == wrapped(buffer_bytes(*old(buf)).take(input_len as int), line_len as nat),
        buffer_bytes(*final(buf)).skip(wrapped_len(input_len as nat, line_len as nat) as int)
            == buffer_bytes(*old(buf)).skip(
            wrapped_len(input_len as nat, line_len as nat) as int,
        ),
        added == wrapped_len(input_len as nat, line_len as nat) - input_len,
{
    line_wrap::line_wrap(buf, input_len, line_len, &line_wrap::crlf())
}

/// Wraps the content of `buf` at `wrap_at` bytes a line, with CRLF between
/// the lines and none behind the last one.
pub fn wrap_bytes_crlf(buf: &mut BytesMut, wrap_at: usize)
    requires
        wrap_at > 0,
        wrapped_len(buffer_bytes(*old(buf)).len(), wrap_at as nat) <= usize::MAX,
    ensures
        buffer_bytes(*final(buf)) == wrapped(buffer_bytes(*old(buf)), wrap_at as nat),
{
    let len = buf.len();
    if len == 0 {
        return ;
    }
    let breaks = (len - 1) / wrap_at;
    proof {
        if len <= wrap_at {
            vstd::arithmetic::div_mod::lemma_basic_div(len - 1, wrap_at as int);
        }
        lemma_wrapped_len(buffer_bytes(*buf), wrap_at as nat);
    }
    let additional = breaks * 2;
    let ghost before = buffer_bytes(*buf);
    buf.resize(len + additional, 0);
    assert(buffer_bytes(*buf).take(len as int) == before);
    line_wrap_crlf(buf, len, wrap_at);
    assert(buffer_bytes(*buf).take(buffer_bytes(*buf).len() as int) == buffer_bytes(*buf));
}

/// The lines into which wrapping cuts `s`: `width` bytes each, the last one
/// with what is left.
pub open spec fn lines_of(s: Seq<u8>, width: nat) -> Seq<Seq<u8>>
    decreases s.len(),
{
    if width == 0 || s.len() <= width {
        seq![s]
    } else {
        seq![s.take(width as int)] + lines_of(s.skip(width as int), width)
    }
}

/// The lines with a CRLF between each two of them.
pub open spec fn joined(lines: Seq<Seq<u8>>) -> Seq<u8>
    decreases lines.len(),
{
    if lines.len() == 0 {
        Seq::empty()
    } else if lines.len() == 1 {
        lines[0]
    } else {
        lines[0] + crlf() + joined(lines.drop_first())
    }
}

/// The lines one behind the other, with nothing between them.
pub open spec fn concatenated(lines: Seq<Seq<u8>>) -> Seq<u8>
    decreases lines.len(),
{
    if lines.len() == 0 {
        Seq::empty()
    } else {
        lines[0] + concatenated(lines.drop_first())
    }
}

/// Wrapped text is its lines joined by CRLF. Every line but the last has
/// exactly `width` bytes, the last has at most `width`, and the lines put
/// together without the line breaks are the text that was wrapped.
pub proof fn law_wrapped_lines(s: Seq<u8>, width: nat)
    requires
        width > 0,
    ensures
        wrapped(s, width) == joined(lines_of(s, width)),
        concatenated(lines_of(s, width)) == s,
        lines_of(s, width).len() >= 1,
        forall|i: int|
            0 <= i < lines_of(s, width).len() - 1 ==> (#[trigger] lines_of(s, width)[i]).len()
                == width,
        lines_of(s, width).last().len() <= width,
        s.len() > 0 ==> lines_of(s, width).last().len() > 0,
    decreases s.len(),
{
    let ls = lines_of(s, width);
    if s.len() <= width {
        assert(ls =~= seq![s]);
        assert(ls.drop_first() =~= Seq::<Seq<u8>>::empty());
        assert(concatenated(ls.drop_first()) =~= Seq::<u8>::empty());
        assert(concatenated(ls) =~= s);
    } else {
        let t = s.skip(width as int);
        let rest = lines_of(t, width);
        law_wrapped_lines(t, width);
        assert(ls.drop_first() =~= rest);
        assert(ls[0] == s.take(width as int));
        assert(concatenated(ls) =~= s);
        assert forall|i: int| 0 <= i < ls.len() - 1 implies (#[trigger] ls[i]).len()
            == width by {
            if i > 0 {
                assert(ls[i] == rest[i - 1]);
            }
        }
        assert(ls.last() == rest.last());
    }
}

/// Whether a CRLF stands in `t` at index `i`.
pub open spec fn crlf_at(t: Seq<u8>, i: int) -> bool {
    0 <= i && i + 1 < t.len() && t[i] == 13 && t[i + 1] == 10
}

/// The index of the first CRLF in `t` at or after `from`, or the length of
/// `t` where there is none.
pub open spec fn first_crlf(t: Seq<u8>, from: int) -> int
    decreases t.len() - from,
{
    if from < 0 || from >= t.len() {
        t.len() as int
    } else if crlf_at(t, from) {
        from
    } else {
        first_crlf(t, from + 1)
    }
}

/// `first_crlf` gives the first index at or after `from` at which a CRLF
/// stands.
pub proof fn lemma_first_crlf(t: Seq<u8>, from: int)
    requires
        0 <= from,
    ensures
        from <= first_crlf(t, from) || first_crlf(t, from) == t.len(),
        first_crlf(t, from) <= t.len(),
        first_crlf(t, from) < t.len() ==> crlf_at(t, first_crlf(t, from)),
        forall|i: int| from <= i < first_crlf(t, from) ==> !crlf_at(t, i),
    decreases t.len() - from,
{
    if from < t.len() && !crlf_at(t, from) {
        lemma_first_crlf(t, from + 1);
    }
}

/// The lines of `t`: what stands before the first CRLF, and the lines of
/// what stands behind it.
pub open spec fn split_lines(t: Seq<u8>) -> Seq<Seq<u8>>
    decreases t.len(),
{
    let k = first_crlf(t, 0);
    if k >= t.len() {
        seq![t]
    } else {
        proof {
            lemma_first_crlf(t, 0);
        }
        seq![t.take(k)] + split_lines(t.skip(k + 2))
    }
}

/// `t` with every CRLF taken out.
pub open spec fn without_line_breaks(t: Seq<u8>) -> Seq<u8> {
    concatenated(split_lines(t))
}

/// A text that holds neither a carriage return nor a line feed, as base64
/// text does.
pub open spec fn unbroken(s: Seq<u8>) -> bool {
    forall|i: int| 0 <= i < s.len() ==> #[trigger] s[i] != 13 && s[i] != 10
}

/// Wrapped text that held no line break before, cut at every CRLF, gives
/// the lines into which it was wrapped: every line but the last has exactly
/// `width` bytes, the last has at most `width` and at least one where the
/// text is not empty, and no line holds a line break. With every CRLF taken
/// out again it is the text that was wrapped: nothing is lost, changed or
/// added but the line breaks.
pub proof fn law_wrapped_splits(s: Seq<u8>, width: nat)
    requires
        width > 0,
        unbroken(s),
    ensures
        split_lines(wrapped(s, width)) == lines_of(s, width),
        without_line_breaks(wrapped(s, width)) == s,
        forall|i: int|
            0 <= i < split_lines(wrapped(s, width)).len() - 1 ==> (#[trigger] split_lines(
                wrapped(s, width),
            )[i]).len() == width,
        split_lines(wrapped(s, width)).last().len() <= width,
        s.len() > 0 ==> split_lines(wrapped(s, width)).last().len() > 0,
        forall|i: int|
            0 <= i < split_lines(wrapped(s, width)).len() ==> unbroken(
                #[trigger] split_lines(wrapped(s, width))[i],
            ),
    decreases s.len(),
{
    law_wrapped_lines(s, width);
    lemma_lines_unbroken(s, width);
    let t = wrapped(s, width);
    if s.len() <= width {
        lemma_first_crlf(t, 0);
        let k = first_crlf(t, 0);
        if k < t.len() {
            assert(t[k] == 13);
        }
    } else {
        let w = width as int;
        let rest = s.skip(w);
        assert(unbroken(rest)) by {
            assert forall|i: int| 0 <= i < rest.len() implies #[trigger] rest[i] != 13 && rest[i]
                != 10 by {
                assert(rest[i] == s[i + w]);
            }
        }
        law_wrapped_splits(rest, width);
        assert(t == s.take(w) + crlf() + wrapped(rest, width));
        lemma_first_crlf(t, 0);
        let k = first_crlf(t, 0);
        assert(crlf_at(t, w)) by {
            assert(t[w] == 13);
            assert(t[w + 1] == 10);
        }
        if k < w {
            assert(t[k] == s[k]);
        }
        assert(k == w);
        assert(t.take(w) =~= s.take(w));
        assert(t.skip(w + 2) =~= wrapped(rest, width));
    }
}

/// The lines into which a text without line breaks is cut hold none.
proof fn lemma_lines_unbroken(s: Seq<u8>, width: nat)
    requires
        width > 0,
        unbroken(s),
    ensures
        forall|i: int|
            0 <= i < lines_of(s, width).len() ==> unbroken(#[trigger] lines_of(s, width)[i]),
    decreases s.len(),
{
    let ls = lines_of(s, width);
    if s.len() > width {
        let w = width as int;
        let rest = s.skip(w);
        assert(unbroken(rest)) by {
            assert forall|i: int| 0 <= i < rest.len() implies #[trigger] rest[i] != 13 && rest[i]
                != 10 by {
                assert(rest[i] == s[i + w]);
            }
        }
        lemma_lines_unbroken(rest, width);
        let first = s.take(w);
        assert(unbroken(first)) by {
            assert forall|i: int| 0 <= i < first.len() implies #[trigger] first[i] != 13
                && first[i] != 10 by {
                assert(first[i] == s[i]);
            }
        }
        assert forall|i: int| 0 <= i < ls.len() implies unbroken(#[trigger] ls[i]) by {
            if i > 0 {
                assert(ls[i] == lines_of(rest, width)[i - 1]);
            }
        }
    }
}

} // verus!

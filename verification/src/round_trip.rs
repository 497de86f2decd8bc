//! Reading back what was written: a container whose written form leaves no
//! doubt about where its headers, its preamble and its parts end parses to
//! itself.

use crate::mime_parser::{
    body_of, boundary_line_end, container_of, continuation, crlf, dashes, declared_boundary,
    delimited, delimiter, framed_all, header_line, header_lines, header_section,
    lemma_boundary_line_end, lemma_header_section, lemma_multipart_of, lemma_one_header,
    lemma_parts_of_closing, lemma_parts_of_marker, lemma_parts_of_part, lemma_serialized_first,
    lemma_split_line, marker, multipart_boundary, multipart_of, one_header, parts_of, serialized,
    serialized_first, single_text, split_line, with_parts_before, without_newline, Container,
    Header, MimeError,
};
use crate::text::{
    find, has_prefix, has_suffix, lemma_find_extends, lemma_find_from, lemma_find_from_unique,
    lemma_prefix_extends, lemma_run_len, lemma_run_len_stops, lemma_trimmed_ends,
    lemma_trimmed_is_piece, line_break, name_char, occurs_at, run_len, trimmed, CharClass,
};
use vstd::prelude::*;

verus! {

/// A header that is written and read back unchanged: its name is made of
/// name characters, and its value holds no line break and is trimmed.
pub open spec fn canonical_header(h: Header) -> bool {
    &&& h.0.len() > 0
    &&& forall|i: int| 0 <= i < h.0.len() ==> name_char(#[trigger] h.0[i])
    &&& forall|i: int| 0 <= i < h.1.len() ==> !line_break(#[trigger] h.1[i])
    &&& trimmed(h.1) == h.1
}

/// Headers that are all written and read back unchanged.
pub open spec fn canonical_headers(headers: Seq<Header>) -> bool {
    forall|i: int| 0 <= i < headers.len() ==> canonical_header(#[trigger] headers[i])
}

/// A part whose written form can stand between boundary lines of `boundary`:
/// the marker does not occur in it, nor across its end, and where it has no
/// parts of its own its body is not empty and does not end with a line feed,
/// which would be taken for the line break before the next boundary line.
pub open spec fn fits_between(part: Container, boundary: Seq<char>) -> bool {
    &&& find(serialized(part) + marker(boundary), marker(boundary)) == Some(
        serialized(part).len() as int,
    )
    &&& part.parts.len() == 0 ==> part.body.len() > 0 && part.body.last() != '\n'
}

/// A container that reads back as itself. Its headers are canonical. Without
/// a multipart boundary it has no parts. With one it has at least one part,
/// the boundary does not occur in the preamble in a way that would be taken
/// for a boundary line, and each part is stable and fits between the
/// boundary lines.
pub open spec fn stable(c: Container) -> bool
    decreases c,
{
    &&& canonical_headers(c.headers)
    &&& match multipart_boundary(c.headers) {
        None => c.parts.len() == 0,
        Some(b) => {
            &&& c.parts.len() > 0
            &&& !has_prefix(c.body + marker(b), delimiter(b))
            &&& find(c.body + marker(b), marker(b)) == Some(c.body.len() as int)
            &&& forall|i: int|
                0 <= i < c.parts.len() ==> stable(#[trigger] c.parts[i]) && fits_between(
                    c.parts[i],
                    b,
                )
        },
    }
}

/// The boundary with which a container is written.
pub open spec fn written_boundary(c: Container) -> Seq<char> {
    match declared_boundary(c.headers) {
        Some(b) => b,
        None => Seq::empty(),
    }
}

/// The parts of a multipart body from the first boundary line on, each
/// behind its boundary line, without the closing boundary line.
pub open spec fn parts_text(texts: Seq<Seq<char>>, boundary: Seq<char>) -> Seq<char>
    decreases texts.len(),
{
    if texts.len() == 0 {
        Seq::empty()
    } else {
        marker(boundary) + crlf() + texts[0] + parts_text(texts.drop_first(), boundary)
    }
}

/// The written form of a container, with `tail` in place of the CRLF behind
/// the closing boundary line of a container with parts.
pub open spec fn written(c: Container, tail: Seq<char>) -> Seq<char> {
    if c.parts.len() == 0 {
        single_text(c.headers, c.body)
    } else {
        header_lines(c.headers) + crlf() + c.body + parts_text(
            serialized_first(c.parts, c.parts.len()),
            written_boundary(c),
        ) + marker(written_boundary(c)) + dashes() + tail
    }
}

/// The written headers begin with the first header's line.
proof fn lemma_header_lines_front(headers: Seq<Header>)
    requires
        headers.len() > 0,
    ensures
        header_lines(headers) == header_line(headers[0]) + header_lines(headers.drop_first()),
    decreases headers.len(),
{
    let init = headers.drop_last();
    let tail = headers.drop_first();
    if headers.len() == 1 {
        assert(header_lines(init) =~= Seq::<char>::empty());
        assert(header_lines(tail) =~= Seq::<char>::empty());
        assert(header_lines(headers) =~= header_line(headers[0]) + header_lines(tail));
    } else {
        lemma_header_lines_front(init);
        assert(init.drop_first() =~= tail.drop_last());
        assert(init[0] == headers[0]);
        assert(tail.last() == headers.last());
        assert(header_lines(tail) == header_lines(tail.drop_last()) + header_line(tail.last()));
        assert(header_lines(headers) =~= header_line(headers[0]) + header_lines(tail));
    }
}

/// The text of the parts with one more part is the text of the parts, then
/// that part behind its boundary line.
proof fn lemma_parts_text_push(texts: Seq<Seq<char>>, text: Seq<char>, boundary: Seq<char>)
    ensures
        parts_text(texts.push(text), boundary) == parts_text(texts, boundary) + marker(boundary)
            + crlf() + text,
    decreases texts.len(),
{
    let more = texts.push(text);
    if texts.len() == 0 {
        assert(more.drop_first() =~= Seq::<Seq<char>>::empty());
        assert(parts_text(more.drop_first(), boundary) =~= Seq::<char>::empty());
        assert(parts_text(more, boundary) =~= parts_text(texts, boundary) + marker(boundary)
            + crlf() + text);
    } else {
        lemma_parts_text_push(texts.drop_first(), text, boundary);
        assert(more.drop_first() =~= texts.drop_first().push(text));
        assert(more[0] == texts[0]);
        assert(parts_text(more, boundary) =~= parts_text(texts, boundary) + marker(boundary)
            + crlf() + text);
    }
}

/// The parts between their boundary lines, with the line break before the
/// first and the delimiter behind the last, are the parts each behind its
/// marker, and one marker more.
proof fn lemma_framed_all_as_parts_text(texts: Seq<Seq<char>>, boundary: Seq<char>)
    ensures
        crlf() + framed_all(texts, boundary) + delimiter(boundary) == parts_text(texts, boundary)
            + marker(boundary),
    decreases texts.len(),
{
    if texts.len() == 0 {
        assert(crlf() + framed_all(texts, boundary) + delimiter(boundary) =~= parts_text(
            texts,
            boundary,
        ) + marker(boundary));
    } else {
        let init = texts.drop_last();
        lemma_framed_all_as_parts_text(init, boundary);
        lemma_parts_text_push(init, texts.last(), boundary);
        assert(init.push(texts.last()) =~= texts);
        let lhs_init = crlf() + framed_all(init, boundary) + delimiter(boundary);
        assert(crlf() + framed_all(texts, boundary) + delimiter(boundary) =~= lhs_init + crlf()
            + texts.last() + crlf() + delimiter(boundary));
        assert(parts_text(texts, boundary) + marker(boundary) =~= parts_text(init, boundary)
            + marker(boundary) + crlf() + texts.last() + crlf() + delimiter(boundary));
    }
}

/// The written form of a container is `written` with a CRLF at its end.
pub proof fn lemma_serialized_is_written(c: Container)
    ensures
        serialized(c) == written(c, crlf()),
{
    if c.parts.len() > 0 {
        let b = written_boundary(c);
        let texts = serialized_first(c.parts, c.parts.len());
        lemma_framed_all_as_parts_text(texts, b);
        let mid = crlf() + framed_all(texts, b) + delimiter(b);
        assert(serialized(c) =~= header_lines(c.headers) + crlf() + c.body + mid + dashes()
            + crlf());
        assert(written(c, crlf()) =~= header_lines(c.headers) + crlf() + c.body + (parts_text(
            texts,
            b,
        ) + marker(b)) + dashes() + crlf());
    }
}

/// A canonical header is read back from its line, where what follows does
/// not begin with a space or a tab.
proof fn lemma_header_reads_back(h: Header, rest: Seq<char>)
    requires
        canonical_header(h),
        rest.len() > 0 ==> !CharClass::Blank.holds(rest[0]),
    ensures
        one_header(header_line(h) + rest) == Some((h, rest)),
{
    let name = h.0;
    let value = h.1;
    let s = header_line(h) + rest;
    let n = name.len() as int;
    // the name
    let behind_name = seq![':', ' '] + value + crlf() + rest;
    assert(s =~= name + behind_name);
    assert(behind_name[0] == ':');
    lemma_run_len_stops(name, behind_name, CharClass::Name, true);
    assert(s[n] == ':');
    assert(s.take(n) =~= name);
    // the space behind the colon
    let after = s.skip(n + 1);
    let line = value + crlf() + rest;
    assert(after =~= seq![' '] + line);
    if value.len() > 0 {
        lemma_trimmed_ends(value);
        assert(line[0] == value[0]);
    } else {
        assert(line[0] == '\r');
    }
    lemma_run_len_stops(seq![' '], line, CharClass::Blank, true);
    assert(after.skip(1) =~= line);
    // the line
    let end = crlf() + rest;
    assert(line =~= value + end);
    assert(end[0] == '\r');
    lemma_run_len_stops(value, end, CharClass::LineBreak, false);
    let k = value.len() as int;
    assert(line[k] == '\r');
    assert(line[k + 1] == '\n');
    assert(line.take(k) =~= value);
    assert(line.skip(k + 2) =~= rest);
    assert(split_line(line) == Some((value, rest)));
    // no continuation
    lemma_run_len_stops(Seq::<char>::empty(), rest, CharClass::Blank, true);
    assert(Seq::<char>::empty() + rest =~= rest);
    assert(continuation(rest) == (Seq::<char>::empty(), rest));
    assert(trimmed(value) + Seq::<char>::empty() =~= value);
}

/// Canonical headers are read back from their lines and the empty line
/// behind them.
proof fn lemma_headers_read_back(headers: Seq<Header>, tail: Seq<char>)
    requires
        canonical_headers(headers),
    ensures
        header_section(header_lines(headers) + crlf() + tail) == Ok::<_, MimeError>(
            (headers, tail),
        ),
    decreases headers.len(),
{
    let s = header_lines(headers) + crlf() + tail;
    if headers.len() == 0 {
        assert(s =~= crlf() + tail);
        assert(s.subrange(0, 2) =~= crlf());
        assert(s.skip(2) =~= tail);
        assert(headers =~= Seq::<Header>::empty());
    } else {
        let h = headers[0];
        let more = headers.drop_first();
        lemma_header_lines_front(headers);
        let rest = header_lines(more) + crlf() + tail;
        assert(s =~= header_line(h) + rest);
        assert(canonical_header(h));
        assert(canonical_headers(more)) by {
            assert forall|i: int| 0 <= i < more.len() implies canonical_header(
                #[trigger] more[i],
            ) by {
                assert(more[i] == headers[i + 1]);
            }
        }
        assert(name_char(h.0[0]));
        assert(s[0] == h.0[0]);
        if has_prefix(s, crlf()) {
            assert(s.subrange(0, 2)[0] == '\r');
        }
        if has_prefix(s, seq!['\n']) {
            assert(s.subrange(0, 1)[0] == '\n');
        }
        // what follows the first header does not begin with a blank
        if more.len() > 0 {
            lemma_header_lines_front(more);
            assert(canonical_header(more[0]));
            assert(name_char(more[0].0[0]));
            assert(rest[0] == more[0].0[0]);
        } else {
            assert(header_lines(more) =~= Seq::<char>::empty());
            assert(rest[0] == '\r');
        }
        lemma_header_reads_back(h, rest);
        lemma_headers_read_back(more, tail);
        assert(seq![h] + more =~= headers);
        assert(!has_prefix(s, crlf()));
        assert(!has_prefix(s, seq!['\n']));
        assert(one_header(s) == Some((h, rest)));
        assert(rest.len() < s.len());
        assert(header_section(rest) == Ok::<_, MimeError>((more, tail)));
    }
}

/// The body of a container with a multipart boundary is read as a
/// multipart body.
proof fn lemma_body_of_multipart(s: Seq<char>, headers: Seq<Header>, boundary: Seq<char>)
    requires
        multipart_boundary(headers) == Some(boundary),
    ensures
        body_of(s, headers) == multipart_of(s, boundary, headers),
{
    reveal(multipart_of);
}

/// The parts each behind its boundary line, the closing boundary line, and
/// `tail`.
pub open spec fn group_text(texts: Seq<Seq<char>>, boundary: Seq<char>, tail: Seq<char>) -> Seq<
    char,
> {
    parts_text(texts, boundary) + marker(boundary) + dashes() + tail
}

/// What stands behind the first marker of `group_text`.
pub open spec fn group_rest(texts: Seq<Seq<char>>, boundary: Seq<char>, tail: Seq<char>) -> Seq<
    char,
> {
    if texts.len() == 0 {
        dashes() + tail
    } else {
        crlf() + (texts[0] + group_text(texts.drop_first(), boundary, tail))
    }
}

/// `group_text` begins with the marker.
proof fn lemma_group_text(texts: Seq<Seq<char>>, boundary: Seq<char>, tail: Seq<char>)
    ensures
        group_text(texts, boundary, tail) == marker(boundary) + group_rest(texts, boundary, tail),
{
    assert(group_text(texts, boundary, tail) =~= marker(boundary) + group_rest(
        texts,
        boundary,
        tail,
    ));
}

/// The closing boundary line ends the parts, and what stands behind it is
/// left.
proof fn lemma_closing_reads_back(boundary: Seq<char>, tail: Seq<char>)
    ensures
        parts_of(marker(boundary) + (dashes() + tail), boundary) == Ok::<_, MimeError>(
            (Seq::<Container>::empty(), tail),
        ),
{
    let m = marker(boundary);
    let s = m + (dashes() + tail);
    assert(s.subrange(0, m.len() as int) =~= m);
    assert(s.skip(m.len() as int) =~= dashes() + tail);
    assert((dashes() + tail).subrange(0, 2) =~= dashes());
    lemma_parts_of_closing(s, boundary);
    assert(s.skip(m.len() as int + 2) =~= tail);
}

/// Behind a boundary line that ends at once, the part runs to the next
/// marker, and more parts follow from there.
proof fn lemma_boundary_line_reads_back(t: Seq<char>, boundary: Seq<char>)
    ensures
        parts_of(marker(boundary) + (crlf() + t), boundary) == match find(t, marker(boundary)) {
            None => Err::<(Seq<Container>, Seq<char>), _>(MimeError::BoundaryNotFound),
            Some(q) => match container_of(without_newline(t.take(q))) {
                Err(e) => Err(e),
                Ok((_, part)) => with_parts_before(seq![part], parts_of(t.skip(q), boundary)),
            },
        },
{
    let m = marker(boundary);
    let s = m + (crlf() + t);
    assert(s.subrange(0, m.len() as int) =~= m);
    let after = s.skip(m.len() as int);
    assert(after =~= crlf() + t);
    assert(after[0] == '\r');
    if has_prefix(after, dashes()) {
        assert(after.subrange(0, 2)[0] == '-');
    }
    lemma_parts_of_part(s, boundary);
    lemma_run_len_stops(Seq::<char>::empty(), after, CharClass::Blank, true);
    assert(Seq::<char>::empty() + after =~= after);
    assert(after.skip(0) =~= after);
    if has_prefix(after, seq!['\n']) {
        assert(after.subrange(0, 1)[0] == '\n');
    }
    assert(after.subrange(0, 2) =~= crlf());
    assert(after.skip(2) =~= t);
    assert(boundary_line_end(after) == Some(t));
}

/// The written form of a stable part that fits between boundary lines is
/// read back as that part, also after the line break behind it was taken
/// off.
proof fn lemma_part_reads_back(part: Container, boundary: Seq<char>)
    requires
        stable(part),
        fits_between(part, boundary),
    ensures
        container_of(without_newline(serialized(part))) == Ok::<_, MimeError>(
            (Seq::<char>::empty(), part),
        ),
    decreases part, 1int,
{
    let text = serialized(part);
    if part.parts.len() == 0 {
        assert(text == single_text(part.headers, part.body));
        assert(text.last() == part.body.last());
        if has_suffix(text, crlf()) {
            assert(text.subrange(text.len() - 2, text.len() as int)[1] == '\n');
        }
        if has_suffix(text, seq!['\n']) {
            assert(text.subrange(text.len() - 1, text.len() as int)[0] == '\n');
        }
        assert(without_newline(text) == text);
        lemma_reads_back(part, Seq::empty());
    } else {
        lemma_serialized_is_written(part);
        let short = written(part, Seq::empty());
        assert(text =~= short + crlf());
        assert(text.subrange(text.len() - 2, text.len() as int) =~= crlf());
        assert(text.take(text.len() - 2) =~= short);
        assert(without_newline(text) == short);
        lemma_reads_back(part, Seq::empty());
    }
}

/// A part that reads back, written behind a boundary line with more parts
/// behind it, is read first, and the parts behind it after it.
proof fn lemma_part_then_later(
    part: Container,
    later: Seq<Seq<char>>,
    boundary: Seq<char>,
    tail: Seq<char>,
)
    requires
        fits_between(part, boundary),
        container_of(without_newline(serialized(part))) == Ok::<_, MimeError>(
            (Seq::<char>::empty(), part),
        ),
    ensures
        parts_of(
            marker(boundary) + (crlf() + (serialized(part) + group_text(later, boundary, tail))),
            boundary,
        ) == with_parts_before(seq![part], parts_of(group_text(later, boundary, tail), boundary)),
{
    let m = marker(boundary);
    let text = serialized(part);
    let t = text + group_text(later, boundary, tail);
    lemma_boundary_line_reads_back(t, boundary);
    lemma_group_text(later, boundary, tail);
    let rest = group_rest(later, boundary, tail);
    assert(t =~= text + m + rest);
    lemma_find_extends(text, m, rest);
    let q = text.len() as int;
    assert(t.take(q) =~= text);
    assert(t.skip(q) =~= group_text(later, boundary, tail));
}

/// The written parts from the `k`th on, with the closing boundary line and
/// `tail` behind it, are read back as these parts, and `tail` is left.
proof fn lemma_parts_read_back(
    parts: Seq<Container>,
    k: int,
    boundary: Seq<char>,
    tail: Seq<char>,
)
    requires
        0 <= k <= parts.len(),
        forall|i: int|
            0 <= i < parts.len() ==> stable(#[trigger] parts[i]) && fits_between(
                parts[i],
                boundary,
            ),
    ensures
        parts_of(
            group_text(serialized_first(parts, parts.len()).skip(k), boundary, tail),
            boundary,
        ) == Ok::<_, MimeError>((parts.skip(k), tail)),
    decreases parts, parts.len() - k,
{
    let texts = serialized_first(parts, parts.len());
    lemma_serialized_first(parts, parts.len());
    let these = texts.skip(k);
    lemma_group_text(these, boundary, tail);
    if k == parts.len() {
        lemma_closing_reads_back(boundary, tail);
        assert(parts.skip(k) =~= Seq::<Container>::empty());
    } else {
        let part = parts[k];
        assert(these[0] == serialized(part));
        assert(these.drop_first() =~= texts.skip(k + 1));
        assert(stable(part) && fits_between(part, boundary));
        lemma_part_reads_back(part, boundary);
        lemma_part_then_later(part, texts.skip(k + 1), boundary, tail);
        lemma_parts_read_back(parts, k + 1, boundary, tail);
        assert(seq![part] + parts.skip(k + 1) =~= parts.skip(k));
    }
}

/// A written multipart container is read back, where its headers are
/// canonical, its preamble ends at the first marker, and its parts are read
/// back.
proof fn lemma_multipart_reads_back(
    headers: Seq<Header>,
    preamble: Seq<char>,
    texts: Seq<Seq<char>>,
    boundary: Seq<char>,
    tail: Seq<char>,
    parts: Seq<Container>,
)
    requires
        canonical_headers(headers),
        multipart_boundary(headers) == Some(boundary),
        !has_prefix(preamble + marker(boundary), delimiter(boundary)),
        find(preamble + marker(boundary), marker(boundary)) == Some(preamble.len() as int),
        parts_of(group_text(texts, boundary, tail), boundary) == Ok::<_, MimeError>((parts, tail)),
    ensures
        container_of(
            header_lines(headers) + crlf() + (preamble + group_text(texts, boundary, tail)),
        ) == Ok::<_, MimeError>((tail, Container { headers, body: preamble, parts })),
{
    let m = marker(boundary);
    let group = group_text(texts, boundary, tail);
    let body = preamble + group;
    let s = header_lines(headers) + crlf() + body;
    lemma_headers_read_back(headers, body);
    lemma_body_of_multipart(body, headers, boundary);
    lemma_multipart_of(body, boundary, headers);
    lemma_group_text(texts, boundary, tail);
    let rest = group_rest(texts, boundary, tail);
    assert(body =~= preamble + m + rest);
    lemma_prefix_extends(preamble + m, rest, delimiter(boundary));
    lemma_find_extends(preamble, m, rest);
    let p = preamble.len() as int;
    assert(body.take(p) =~= preamble);
    assert(body.skip(p) =~= group);
}

/// A written container without parts is read back, where its headers are
/// canonical and name no multipart boundary.
proof fn lemma_single_reads_back(headers: Seq<Header>, body: Seq<char>)
    requires
        canonical_headers(headers),
        multipart_boundary(headers) is None,
    ensures
        container_of(single_text(headers, body)) == Ok::<_, MimeError>(
            (Seq::<char>::empty(), Container { headers, body, parts: Seq::empty() }),
        ),
{
    lemma_headers_read_back(headers, body);
}

/// A stable container is read back from its written form, whatever stands
/// behind the closing boundary line of a container with parts, and that is
/// what is left.
pub proof fn lemma_reads_back(c: Container, tail: Seq<char>)
    requires
        stable(c),
    ensures
        container_of(written(c, tail)) == Ok::<_, MimeError>(
            (
                if c.parts.len() == 0 {
                    Seq::empty()
                } else {
                    tail
                },
                c,
            ),
        ),
    decreases c, 0int,
{
    if c.parts.len() == 0 {
        lemma_single_reads_back(c.headers, c.body);
        assert(c.parts =~= Seq::<Container>::empty());
    } else {
        let b = multipart_boundary(c.headers)->0;
        assert(written_boundary(c) == b);
        let texts = serialized_first(c.parts, c.parts.len());
        assert(texts.skip(0) =~= texts);
        lemma_parts_read_back(c.parts, 0, b, tail);
        assert(c.parts.skip(0) =~= c.parts);
        lemma_multipart_reads_back(c.headers, c.body, texts, b, tail, c.parts);
        assert(written(c, tail) =~= header_lines(c.headers) + crlf() + (c.body + group_text(
            texts,
            b,
            tail,
        )));
    }
}

/// A header as the parser gives it: its name is made of name characters,
/// and its value holds no line break.
pub open spec fn regular_header(h: Header) -> bool {
    &&& h.0.len() > 0
    &&& forall|i: int| 0 <= i < h.0.len() ==> name_char(#[trigger] h.0[i])
    &&& forall|i: int| 0 <= i < h.1.len() ==> !line_break(#[trigger] h.1[i])
}

/// Headers as the parser gives them.
pub open spec fn regular_headers(headers: Seq<Header>) -> bool {
    forall|i: int| 0 <= i < headers.len() ==> regular_header(#[trigger] headers[i])
}

/// A container as the parser gives it: its headers are regular; without a
/// multipart boundary it has no parts; with one, its preamble ends where the
/// marker first stands behind it, and its parts are regular.
pub open spec fn regular(c: Container) -> bool
    decreases c,
{
    &&& regular_headers(c.headers)
    &&& match multipart_boundary(c.headers) {
        None => c.parts.len() == 0,
        Some(b) => {
            &&& !has_prefix(c.body + marker(b), delimiter(b))
            &&& find(c.body + marker(b), marker(b)) == Some(c.body.len() as int)
            &&& forall|i: int| 0 <= i < c.parts.len() ==> regular(#[trigger] c.parts[i])
        },
    }
}

/// What a container needs beyond being regular to be read back from its
/// written form. The values of its headers are trimmed: a value with white
/// space at an end, as folding an empty line into it gives, is written with
/// it and read without. A multipart container has at least one part: without
/// one it is written as a body with no boundary line in it. Its parts are
/// settled in turn, and fit between the boundary lines.
pub open spec fn settled(c: Container) -> bool
    decreases c,
{
    &&& forall|i: int| 0 <= i < c.headers.len() ==> trimmed(#[trigger] c.headers[i].1) == c.headers[i].1
    &&& match multipart_boundary(c.headers) {
        None => true,
        Some(b) => {
            &&& c.parts.len() > 0
            &&& forall|i: int|
                0 <= i < c.parts.len() ==> settled(#[trigger] c.parts[i]) && fits_between(
                    c.parts[i],
                    b,
                )
        },
    }
}

/// A regular and settled container is stable.
pub proof fn lemma_stable(c: Container)
    requires
        regular(c),
        settled(c),
    ensures
        stable(c),
    decreases c,
{
    assert forall|i: int| 0 <= i < c.headers.len() implies canonical_header(
        #[trigger] c.headers[i],
    ) by {
        assert(regular_header(c.headers[i]));
        assert(trimmed(c.headers[i].1) == c.headers[i].1);
    }
    match multipart_boundary(c.headers) {
        None => {},
        Some(b) => {
            assert forall|i: int| 0 <= i < c.parts.len() implies stable(#[trigger] c.parts[i])
                && fits_between(c.parts[i], b) by {
                assert(regular(c.parts[i]));
                assert(settled(c.parts[i]) && fits_between(c.parts[i], b));
                lemma_stable(c.parts[i]);
            }
        },
    }
}

/// The continuation lines add no line break to a header value.
proof fn lemma_continuation_regular(s: Seq<char>)
    ensures
        forall|i: int| 0 <= i < continuation(s).0.len() ==> !line_break(#[trigger] continuation(s).0[i]),
    decreases s.len(),
{
    let b = run_len(s, CharClass::Blank, true) as int;
    lemma_run_len(s, CharClass::Blank, true);
    if b > 0 {
        let at = s.skip(b);
        lemma_split_line(at);
        match split_line(at) {
            None => {},
            Some((line, rest)) => {
                lemma_continuation_regular(rest);
                lemma_run_len(at, CharClass::LineBreak, false);
                lemma_trimmed_is_piece(line);
                let more = continuation(rest).0;
                let piece = trimmed(line);
                let all = seq![' '] + piece + more;
                assert(continuation(s).0 == all);
                assert forall|i: int| 0 <= i < all.len() implies !line_break(#[trigger] all[i]) by {
                    if i == 0 {
                    } else if i < 1 + piece.len() {
                        assert(all[i] == piece[i - 1]);
                        let k = i - 1 + run_len(line, CharClass::Whitespace, true);
                        assert(piece[i - 1] == line[k]);
                        assert(line[k] == at[k]);
                        assert(!CharClass::LineBreak.holds(at[k]));
                    } else {
                        assert(all[i] == more[i - 1 - piece.len()]);
                    }
                }
            },
        }
    }
}

/// A header that the parser reads is regular.
proof fn lemma_one_header_regular(s: Seq<char>)
    ensures
        one_header(s) matches Some((h, rest)) ==> regular_header(h),
{
    let n = run_len(s, CharClass::Name, true) as int;
    lemma_run_len(s, CharClass::Name, true);
    if !(n == 0 || n >= s.len() || s[n] != ':') {
        let after = s.skip(n + 1);
        lemma_run_len(after, CharClass::Blank, true);
        let at = after.skip(run_len(after, CharClass::Blank, true) as int);
        lemma_split_line(at);
        match split_line(at) {
            None => {},
            Some((first, rest)) => {
                lemma_continuation_regular(rest);
                lemma_run_len(at, CharClass::LineBreak, false);
                lemma_trimmed_is_piece(first);
                let name = s.take(n);
                let more = continuation(rest).0;
                let piece = trimmed(first);
                let value = piece + more;
                assert forall|i: int| 0 <= i < name.len() implies name_char(#[trigger] name[i]) by {
                    assert(name[i] == s[i]);
                    assert(CharClass::Name.holds(s[i]));
                }
                assert forall|i: int| 0 <= i < value.len() implies !line_break(
                    #[trigger] value[i],
                ) by {
                    if i < piece.len() {
                        assert(value[i] == piece[i]);
                        let k = i + run_len(first, CharClass::Whitespace, true);
                        assert(piece[i] == first[k]);
                        assert(first[k] == at[k]);
                        assert(!CharClass::LineBreak.holds(at[k]));
                    } else {
                        assert(value[i] == more[i - piece.len()]);
                    }
                }
            },
        }
    }
}

/// The headers that the parser reads are regular.
proof fn lemma_header_section_regular(s: Seq<char>)
    ensures
        header_section(s) matches Ok((headers, body)) ==> regular_headers(headers),
    decreases s.len(),
{
    if has_prefix(s, crlf()) {
    } else if has_prefix(s, seq!['\n']) {
    } else {
        lemma_one_header(s);
        lemma_one_header_regular(s);
        match one_header(s) {
            None => {},
            Some((header, rest)) => {
                lemma_header_section_regular(rest);
                match header_section(rest) {
                    Err(e) => {},
                    Ok((more, body)) => {
                        let all = seq![header] + more;
                        assert forall|i: int| 0 <= i < all.len() implies regular_header(
                            #[trigger] all[i],
                        ) by {
                            if i > 0 {
                                assert(all[i] == more[i - 1]);
                            }
                        }
                    },
                }
            },
        }
    }
}

/// The preamble that the parser cuts off ends where the marker first stands
/// behind it.
proof fn lemma_preamble_regular(s: Seq<char>, boundary: Seq<char>, p: int)
    requires
        !has_prefix(s, delimiter(boundary)),
        find(s, marker(boundary)) == Some(p),
    ensures
        0 <= p <= s.len(),
        !has_prefix(s.take(p) + marker(boundary), delimiter(boundary)),
        find(s.take(p) + marker(boundary), marker(boundary)) == Some(p),
{
    let m = marker(boundary);
    let d = delimiter(boundary);
    lemma_find_from(s, m, 0);
    let head = s.take(p) + m;
    assert(head =~= s.take(p + m.len()));
    assert(s =~= head + s.skip(p + m.len()));
    lemma_prefix_extends(head, s.skip(p + m.len()), d);
    assert(head.subrange(p, p + m.len()) =~= m);
    assert forall|k: int| 0 <= k < p implies !occurs_at(head, m, k) by {
        assert(!occurs_at(s, m, k));
        assert(head.subrange(k, k + m.len()) =~= s.subrange(k, k + m.len()));
    }
    lemma_find_from_unique(head, m, 0, Some(p));
}

/// The parts that the parser reads are regular.
proof fn lemma_parts_regular(s: Seq<char>, boundary: Seq<char>)
    ensures
        parts_of(s, boundary) matches Ok((parts, rest)) ==> forall|i: int|
            0 <= i < parts.len() ==> regular(#[trigger] parts[i]),
    decreases s.len(), 0int,
{
    let m = marker(boundary);
    if !has_prefix(s, m) {
        lemma_parts_of_marker(s, boundary);
    } else {
        let after = s.skip(m.len() as int);
        if has_prefix(after, dashes()) {
            lemma_parts_of_closing(s, boundary);
        } else {
            lemma_parts_of_part(s, boundary);
            lemma_boundary_line_end(after);
            match boundary_line_end(after) {
                None => {},
                Some(t) => {
                    lemma_find_from(t, m, 0);
                    match find(t, m) {
                        None => {},
                        Some(q) => {
                            let content = without_newline(t.take(q));
                            lemma_parsed_regular(content);
                            lemma_parts_regular(t.skip(q), boundary);
                            match (container_of(content), parts_of(t.skip(q), boundary)) {
                                (Ok((_, part)), Ok((more, rest))) => {
                                    let all = seq![part] + more;
                                    assert forall|i: int| 0 <= i < all.len() implies regular(
                                        #[trigger] all[i],
                                    ) by {
                                        if i > 0 {
                                            assert(all[i] == more[i - 1]);
                                        }
                                    }
                                },
                                _ => {},
                            }
                        },
                    }
                },
            }
        }
    }
}

/// The container that the parser reads from a body under regular headers is
/// regular.
proof fn lemma_body_regular(s: Seq<char>, headers: Seq<Header>)
    requires
        regular_headers(headers),
    ensures
        body_of(s, headers) matches Ok((rest, c)) ==> regular(c),
    decreases s.len(), 1int,
{
    match multipart_boundary(headers) {
        None => {},
        Some(b) => {
            lemma_body_of_multipart(s, headers, b);
            lemma_multipart_of(s, b, headers);
            if !has_prefix(s, delimiter(b)) {
                match find(s, marker(b)) {
                    None => {},
                    Some(p) => {
                        lemma_preamble_regular(s, b, p);
                        lemma_parts_regular(s.skip(p), b);
                    },
                }
            }
        },
    }
}

/// The container that the parser reads is regular.
pub proof fn lemma_parsed_regular(x: Seq<char>)
    ensures
        container_of(x) matches Ok((rest, c)) ==> regular(c),
    decreases x.len(), 2int,
{
    lemma_header_section(x);
    lemma_header_section_regular(x);
    match header_section(x) {
        Err(e) => {},
        Ok((headers, body)) => {
            lemma_body_regular(body, headers);
        },
    }
}

/// A regular container has one written form.
pub proof fn lemma_regular_delimited(c: Container)
    requires
        regular(c),
    ensures
        delimited(c),
    decreases c,
{
    assert forall|i: int| 0 <= i < c.parts.len() implies delimited(#[trigger] c.parts[i]) by {
        lemma_regular_delimited(c.parts[i]);
    }
}

/// Reading, writing and reading again gives what reading gave: a message
/// that parses to a settled container parses to the same container after
/// that container has been written.
pub proof fn law_round_trip(x: Seq<char>)
    requires
        container_of(x) is Ok,
        settled(container_of(x)->Ok_0.1),
    ensures
        container_of(serialized(container_of(x)->Ok_0.1)) is Ok,
        container_of(serialized(container_of(x)->Ok_0.1))->Ok_0.1 == container_of(x)->Ok_0.1,
{
    let c = container_of(x)->Ok_0.1;
    lemma_parsed_regular(x);
    lemma_stable(c);
    lemma_serialized_is_written(c);
    lemma_reads_back(c, crlf());
}

} // verus!

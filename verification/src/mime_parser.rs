//! A MIME container: headers, a body, and for a multipart message the parts,
//! each a container of its own. Parsing from text and writing back.

use crate::text::{
    chars_of, eq_ignore_case, find, find_chars, has_prefix, has_suffix, lemma_find_from,
    lemma_find_skip, lemma_occurs_at_skip, lemma_run_len, lowered, lowered_chars, matches_at,
    occurs_at, push_chars, run_len, same_ignoring_case, scan, scan_back, string_of,
    trailing_run_len, trim_bounds, trimmed, CharClass,
};
use vstd::slice::slice_subrange;
use vstd::prelude::*;
use vstd::string::StrSliceExecFns;
use vstd::string::StringExecFns;

verus! {

/// A MIME container holds a list of headers (in order), a body (the preamble
/// of a multipart message, else the full body) and, for a multipart message,
/// the list of its parts.
#[derive(Debug, PartialEq)]
pub struct MimeContainer {
    pub headers: Vec<(String, String)>,
    pub body: String,
    pub parts: Vec<MimeContainer>,
}

/// A header: its name and its value.
pub type Header = (Seq<char>, Seq<char>);

/// What a `MimeContainer` stands for.
pub struct Container {
    pub headers: Seq<Header>,
    pub body: Seq<char>,
    pub parts: Seq<Container>,
}

impl View for MimeContainer {
    type V = Container;

    open spec fn view(&self) -> Container
        decreases self, 0nat,
    {
        Container {
            headers: self.headers.deep_view(),
            body: self.body@,
            parts: first_containers(self.parts, self.parts@.len()),
        }
    }
}

/// What the first `n` of `parts` stand for.
pub open spec fn first_containers(parts: Vec<MimeContainer>, n: nat) -> Seq<Container>
    decreases parts, n,
{
    if n == 0 || n > parts@.len() {
        Seq::empty()
    } else {
        first_containers(parts, (n - 1) as nat).push(parts@[n - 1]@)
    }
}

/// Why a text is no MIME container.
#[derive(Clone, Copy, Debug, PartialEq, Eq, Structural)]
pub enum MimeError {
    /// A line of the header section is no header.
    MalformedHeader,
    /// The text ends before the empty line that closes the header section.
    MissingSeparator,
    /// A multipart body lacks a boundary line where one must stand.
    BoundaryNotFound,
}

/// Carriage return, line feed.
pub open spec fn crlf() -> Seq<char> {
    seq!['\r', '\n']
}

/// The two hyphens that open a boundary line.
pub open spec fn dashes() -> Seq<char> {
    seq!['-', '-']
}

/// What opens a boundary line: two hyphens and the boundary.
pub open spec fn delimiter(boundary: Seq<char>) -> Seq<char> {
    dashes() + boundary
}

/// A boundary line is looked for by this text: a CRLF, then the delimiter.
pub open spec fn marker(boundary: Seq<char>) -> Seq<char> {
    crlf() + delimiter(boundary)
}

/// A line and what follows it: the text before the first line break, and the
/// text behind that line's terminator, a line feed or a CRLF. A text without
/// a terminator, or with a carriage return that no line feed follows, holds
/// no line.
pub open spec fn split_line(s: Seq<char>) -> Option<(Seq<char>, Seq<char>)> {
    let k = run_len(s, CharClass::LineBreak, false) as int;
    if k < s.len() && s[k] == '\n' {
        Some((s.take(k), s.skip(k + 1)))
    } else if k + 1 < s.len() && s[k] == '\r' && s[k + 1] == '\n' {
        Some((s.take(k), s.skip(k + 2)))
    } else {
        None
    }
}

/// What follows a line is shorter than the text that begins with the line.
pub proof fn lemma_split_line(s: Seq<char>)
    ensures
        split_line(s) matches Some((line, rest)) ==> line.len() < s.len() && rest.len() < s.len(),
{
    lemma_run_len(s, CharClass::LineBreak, false);
}

/// The continuation lines of a folded header value, which each begin with a
/// space or a tab: what they add to the value, a space and the trimmed line
/// for each, and the text behind the last of them.
pub open spec fn continuation(s: Seq<char>) -> (Seq<char>, Seq<char>)
    decreases s.len(),
{
    let b = run_len(s, CharClass::Blank, true) as int;
    if b == 0 {
        (Seq::empty(), s)
    } else {
        match split_line(s.skip(b)) {
            None => (Seq::empty(), s),
            Some((line, rest)) => {
                proof {
                    lemma_run_len(s, CharClass::Blank, true);
                    lemma_split_line(s.skip(b));
                }
                let (more, after) = continuation(rest);
                (seq![' '] + trimmed(line) + more, after)
            },
        }
    }
}

/// What follows the continuation lines is no longer than the text.
pub proof fn lemma_continuation(s: Seq<char>)
    ensures
        continuation(s).1.len() <= s.len(),
    decreases s.len(),
{
    let b = run_len(s, CharClass::Blank, true) as int;
    lemma_run_len(s, CharClass::Blank, true);
    if b > 0 {
        lemma_split_line(s.skip(b));
        match split_line(s.skip(b)) {
            None => {},
            Some((line, rest)) => {
                lemma_continuation(rest);
            },
        }
    }
}

/// One header at the front of `s`, and the text behind it. A header is a
/// name of one or more name characters, a colon, and a value that runs to the
/// end of the line and over the continuation lines that follow; spaces and
/// tabs behind the colon do not count, and the value is trimmed.
pub open spec fn one_header(s: Seq<char>) -> Option<(Header, Seq<char>)> {
    let n = run_len(s, CharClass::Name, true) as int;
    if n == 0 || n >= s.len() || s[n] != ':' {
        None
    } else {
        let after = s.skip(n + 1);
        match split_line(after.skip(run_len(after, CharClass::Blank, true) as int)) {
            None => None,
            Some((first, rest)) => {
                let (more, behind) = continuation(rest);
                Some(((s.take(n), trimmed(first) + more), behind))
            },
        }
    }
}

/// What follows a header is shorter than the text that begins with it.
pub proof fn lemma_one_header(s: Seq<char>)
    ensures
        one_header(s) matches Some((header, rest)) ==> rest.len() < s.len(),
{
    let n = run_len(s, CharClass::Name, true) as int;
    lemma_run_len(s, CharClass::Name, true);
    if !(n == 0 || n >= s.len() || s[n] != ':') {
        let after = s.skip(n + 1);
        lemma_run_len(after, CharClass::Blank, true);
        let line = after.skip(run_len(after, CharClass::Blank, true) as int);
        lemma_split_line(line);
        match split_line(line) {
            None => {},
            Some((first, rest)) => {
                lemma_continuation(rest);
            },
        }
    }
}

/// The header section at the front of `s`, which an empty line closes, and
/// the text behind that line.
pub open spec fn header_section(s: Seq<char>) -> Result<(Seq<Header>, Seq<char>), MimeError>
    decreases s.len(),
{
    if has_prefix(s, crlf()) {
        Ok((Seq::empty(), s.skip(2)))
    } else if has_prefix(s, seq!['\n']) {
        Ok((Seq::empty(), s.skip(1)))
    } else {
        match one_header(s) {
            None => Err(
                if s.len() == 0 {
                    MimeError::MissingSeparator
                } else {
                    MimeError::MalformedHeader
                },
            ),
            Some((header, rest)) => {
                proof {
                    lemma_one_header(s);
                }
                match header_section(rest) {
                    Ok((more, body)) => Ok((seq![header] + more, body)),
                    Err(e) => Err(e),
                }
            },
        }
    }
}

/// The body is shorter than the text that begins with the header section.
pub proof fn lemma_header_section(s: Seq<char>)
    ensures
        header_section(s) matches Ok((headers, body)) ==> body.len() < s.len(),
    decreases s.len(),
{
    if has_prefix(s, crlf()) {
    } else if has_prefix(s, seq!['\n']) {
    } else {
        lemma_one_header(s);
        match one_header(s) {
            None => {},
            Some((header, rest)) => {
                lemma_header_section(rest);
            },
        }
    }
}

/// The value of the first header whose name is `name` up to the case of
/// ASCII letters.
pub open spec fn header_value(headers: Seq<Header>, name: Seq<char>) -> Option<Seq<char>>
    decreases headers.len(),
{
    if headers.len() == 0 {
        None
    } else if same_ignoring_case(headers[0].0, name) {
        Some(headers[0].1)
    } else {
        header_value(headers.drop_first(), name)
    }
}

/// The name of the header that says what a container holds.
pub open spec fn content_type_name() -> Seq<char> {
    seq!['C', 'o', 'n', 't', 'e', 'n', 't', '-', 'T', 'y', 'p', 'e']
}

/// The text that opens the boundary parameter.
pub open spec fn boundary_key() -> Seq<char> {
    seq!['b', 'o', 'u', 'n', 'd', 'a', 'r', 'y', '=']
}

/// What the value of a multipart content type begins with.
pub open spec fn multipart_prefix() -> Seq<char> {
    seq!['m', 'u', 'l', 't', 'i', 'p', 'a', 'r', 't', '/']
}

/// `s` without the quotation marks at its front and at its back.
pub open spec fn unquoted(s: Seq<char>) -> Seq<char> {
    let t = s.skip(run_len(s, CharClass::Quote, true) as int);
    t.take(t.len() - trailing_run_len(t, CharClass::Quote, true))
}

/// The boundary that a content type names: what follows the first
/// `boundary=`, whatever the case of its letters, trimmed and without
/// quotation marks around it, up to the first double quotation mark,
/// semicolon or white space.
pub open spec fn boundary_param(content_type: Seq<char>) -> Option<Seq<char>> {
    match find(lowered(content_type), boundary_key()) {
        None => None,
        Some(p) => {
            let v = unquoted(trimmed(content_type.skip(p + boundary_key().len())));
            Some(v.take(run_len(v, CharClass::ValueEnd, false) as int))
        },
    }
}

/// The boundary that the first `Content-Type` header names, if it names one.
pub open spec fn declared_boundary(headers: Seq<Header>) -> Option<Seq<char>> {
    match header_value(headers, content_type_name()) {
        Some(ct) => boundary_param(ct),
        None => None,
    }
}

/// The boundary by which the body is cut into parts: the one that the first
/// `Content-Type` header names, where its value begins with `multipart/`,
/// whatever the case of its letters.
pub open spec fn multipart_boundary(headers: Seq<Header>) -> Option<Seq<char>> {
    match header_value(headers, content_type_name()) {
        Some(ct) => if has_prefix(lowered(ct), multipart_prefix()) {
            boundary_param(ct)
        } else {
            None
        },
        None => None,
    }
}

/// `s` without one line terminator at its end, a CRLF or a line feed.
pub open spec fn without_newline(s: Seq<char>) -> Seq<char> {
    if has_suffix(s, crlf()) {
        s.take(s.len() - 2)
    } else if has_suffix(s, seq!['\n']) {
        s.take(s.len() - 1)
    } else {
        s
    }
}

/// What follows the boundary on a boundary line that opens a part: spaces
/// and tabs, then a line terminator. Returns the text behind the line.
pub open spec fn boundary_line_end(s: Seq<char>) -> Option<Seq<char>> {
    let t = s.skip(run_len(s, CharClass::Blank, true) as int);
    if has_prefix(t, seq!['\n']) {
        Some(t.skip(1))
    } else if has_prefix(t, crlf()) {
        Some(t.skip(2))
    } else {
        None
    }
}

/// What follows a boundary line is shorter than the text that begins with
/// the end of that line.
pub proof fn lemma_boundary_line_end(s: Seq<char>)
    ensures
        boundary_line_end(s) matches Some(t) ==> t.len() < s.len(),
{
    lemma_run_len(s, CharClass::Blank, true);
}

/// A whole container: its header section, then its body.
pub open spec fn container_of(s: Seq<char>) -> Result<(Seq<char>, Container), MimeError>
    decreases s.len(), 3int,
{
    match header_section(s) {
        Err(e) => Err(e),
        Ok((headers, body)) => {
            proof {
                lemma_header_section(s);
            }
            body_of(body, headers)
        },
    }
}

/// The body of a container with the given headers. With a multipart
/// boundary the body is a preamble and parts. Without one, the whole text is
/// the body and nothing is left.
pub open spec fn body_of(s: Seq<char>, headers: Seq<Header>) -> Result<
    (Seq<char>, Container),
    MimeError,
>
    decreases s.len(), 2int,
{
    match multipart_boundary(headers) {
        None => Ok((Seq::empty(), Container { headers, body: s, parts: Seq::empty() })),
        Some(boundary) => multipart_of(s, boundary, headers),
    }
}

/// A multipart body: the preamble, which is the text before the first
/// marker, and the parts. The text behind the closing boundary line is
/// returned beside the container. A body that opens with the delimiter
/// itself, with no line break before it, is not accepted.
#[verifier::opaque]
pub open spec fn multipart_of(s: Seq<char>, boundary: Seq<char>, headers: Seq<Header>) -> Result<
    (Seq<char>, Container),
    MimeError,
>
    decreases s.len(), 1int,
{
    if has_prefix(s, delimiter(boundary)) {
        Err(MimeError::BoundaryNotFound)
    } else {
        match find(s, marker(boundary)) {
            None => Err(MimeError::BoundaryNotFound),
            Some(p) => {
                proof {
                    lemma_find_from(s, marker(boundary), 0);
                }
                match parts_of(s.skip(p), boundary) {
                    Err(e) => Err(e),
                    Ok((parts, rest)) => Ok((rest, Container { headers, body: s.take(p), parts })),
                }
            },
        }
    }
}

/// The parts of a multipart body from a boundary line on, up to the closing
/// boundary line, and the text behind that. `s` begins with the marker. A
/// boundary followed by two hyphens closes the body. Else the line must end
/// behind the boundary, and the part runs to the next marker; one line
/// terminator at its end does not belong to it.
#[verifier::opaque]
pub open spec fn parts_of(s: Seq<char>, boundary: Seq<char>) -> Result<
    (Seq<Container>, Seq<char>),
    MimeError,
>
    decreases s.len(), 0int,
{
    let m = marker(boundary);
    if !has_prefix(s, m) {
        Err(MimeError::BoundaryNotFound)
    } else {
        let after = s.skip(m.len() as int);
        if has_prefix(after, dashes()) {
            Ok((Seq::empty(), after.skip(2)))
        } else {
            match boundary_line_end(after) {
                None => Err(MimeError::BoundaryNotFound),
                Some(t) => match find(t, m) {
                    None => Err(MimeError::BoundaryNotFound),
                    Some(q) => {
                        proof {
                            lemma_boundary_line_end(after);
                            lemma_find_from(t, m, 0);
                        }
                        match container_of(without_newline(t.take(q))) {
                            Err(e) => Err(e),
                            Ok((_, part)) => match parts_of(t.skip(q), boundary) {
                                Err(e) => Err(e),
                                Ok((more, rest)) => Ok((seq![part] + more, rest)),
                            },
                        }
                    },
                },
            }
        }
    }
}

/// Finds the line that begins at `at`: the index at which its text ends and
/// the index behind its terminator.
pub fn line_end(s: &[char], at: usize) -> (r: Option<(usize, usize)>)
    requires
        at <= s@.len(),
    ensures
        match r {
            Some((end, next)) => {
                &&& at <= end < next <= s@.len()
                &&& split_line(s@.skip(at as int)) == Some(
                    (s@.subrange(at as int, end as int), s@.skip(next as int)),
                )
            },
            None => split_line(s@.skip(at as int)) is None,
        },
{
    let k = scan(s, at, CharClass::LineBreak, false);
    proof {
        let u = s@.skip(at as int);
        assert(u.take(k - at) =~= s@.subrange(at as int, k as int));
        if k < s@.len() {
            assert(u[k - at] == s@[k as int]);
            assert(u.skip(k - at + 1) =~= s@.skip(k + 1));
        }
        if k + 1 < s@.len() {
            assert(u[k - at + 1] == s@[k + 1]);
            assert(u.skip(k - at + 2) =~= s@.skip(k + 2));
        }
    }
    if k < s.len() && s[k] == '\n' {
        Some((k, k + 1))
    } else if k < s.len() && s.len() - k > 1 && s[k] == '\r' && s[k + 1] == '\n' {
        Some((k, k + 2))
    } else {
        None
    }
}

/// Parses the header that begins at `at`. Returns its name, its value with
/// the continuation lines folded in, and the index behind it.
pub fn parse_header(s: &[char], at: usize) -> (r: Option<(String, String, usize)>)
    requires
        at <= s@.len(),
    ensures
        match r {
            Some((name, value, next)) => {
                &&& at < next <= s@.len()
                &&& one_header(s@.skip(at as int)) == Some(
                    ((name@, value@), s@.skip(next as int)),
                )
            },
            None => one_header(s@.skip(at as int)) is None,
        },
{
    let ghost u = s@.skip(at as int);
    let name_end = scan(s, at, CharClass::Name, true);
    if name_end == at || name_end >= s.len() {
        return None;
    }
    assert(u[name_end - at] == s@[name_end as int]);
    if s[name_end] != ':' {
        return None;
    }
    let value_start = scan(s, name_end + 1, CharClass::Blank, true);
    proof {
        assert(u.skip(name_end - at + 1) =~= s@.skip(name_end + 1));
        assert(s@.skip(name_end + 1).skip(value_start - name_end - 1) =~= s@.skip(
            value_start as int,
        ));
        assert(u.take(name_end - at) =~= s@.subrange(at as int, name_end as int));
    }
    match line_end(s, value_start) {
        None => None,
        Some((end, next)) => {
            let (a, b) = trim_bounds(s, value_start, end);
            let mut value = string_of(s, a, b);
            let ghost first = s@.subrange(value_start as int, end as int);
            let mut cur: usize = next;
            loop
                invariant
                    next <= cur <= s@.len(),
                    trimmed(first) + continuation(s@.skip(next as int)).0 == value@
                        + continuation(s@.skip(cur as int)).0,
                    continuation(s@.skip(next as int)).1 == continuation(s@.skip(cur as int)).1,
                ensures
                    next <= cur <= s@.len(),
                    value@ == trimmed(first) + continuation(s@.skip(next as int)).0,
                    s@.skip(cur as int) == continuation(s@.skip(next as int)).1,
                decreases s@.len() - cur,
            {
                let ghost w = s@.skip(cur as int);
                let t = scan(s, cur, CharClass::Blank, true);
                if t == cur {
                    assert(value@ + Seq::<char>::empty() =~= value@);
                    break ;
                }
                assert(w.skip(t - cur) =~= s@.skip(t as int));
                match line_end(s, t) {
                    None => {
                        assert(value@ + Seq::<char>::empty() =~= value@);
                        break ;
                    },
                    Some((e, n)) => {
                        let (a2, b2) = trim_bounds(s, t, e);
                        let ghost before = value@;
                        value.push(' ');
                        push_chars(&mut value, s, a2, b2);
                        proof {
                            let line = s@.subrange(t as int, e as int);
                            let rest = s@.skip(n as int);
                            assert(continuation(w) == (
                                seq![' '] + trimmed(line) + continuation(rest).0,
                                continuation(rest).1,
                            ));
                            assert(value@ =~= before + seq![' '] + trimmed(line));
                            assert(before + (seq![' '] + trimmed(line) + continuation(rest).0)
                                =~= value@ + continuation(rest).0);
                        }
                        cur = n;
                    },
                }
            }
            Some((string_of(s, at, name_end), value, cur))
        },
    }
}

/// Parses the header section that begins at `at`, up to and with the empty
/// line that closes it. Returns the headers and the index at which the body
/// begins.
pub fn parse_headers(s: &[char], at: usize) -> (r: Result<(Vec<(String, String)>, usize), MimeError>)
    requires
        at <= s@.len(),
    ensures
        match r {
            Ok((headers, body)) => {
                &&& at < body <= s@.len()
                &&& header_section(s@.skip(at as int)) == Ok::<_, MimeError>(
                    (headers.deep_view(), s@.skip(body as int)),
                )
            },
            Err(e) => header_section(s@.skip(at as int)) == Err::<(Seq<Header>, Seq<char>), _>(e),
        },
{
    let mut headers: Vec<(String, String)> = Vec::new();
    let mut cur: usize = at;
    loop
        invariant
            at <= cur <= s@.len(),
            headers@.len() > 0 ==> at < cur,
            header_section(s@.skip(at as int)) == with_headers_before(
                headers.deep_view(),
                header_section(s@.skip(cur as int)),
            ),
        decreases s@.len() - cur,
    {
        let ghost w = s@.skip(cur as int);
        if cur < s.len() && s.len() - cur > 1 && s[cur] == '\r' && s[cur + 1] == '\n' {
            proof {
                assert(w.subrange(0, 2) =~= crlf());
                assert(w.skip(2) =~= s@.skip(cur + 2));
                assert(headers.deep_view() + Seq::<Header>::empty() =~= headers.deep_view());
            }
            return Ok((headers, cur + 2));
        }
        proof {
            if has_prefix(w, crlf()) {
                assert(w.subrange(0, 2)[0] == '\r');
                assert(w.subrange(0, 2)[1] == '\n');
            }
        }
        if cur < s.len() && s[cur] == '\n' {
            proof {
                assert(w.subrange(0, 1) =~= seq!['\n']);
                assert(w.skip(1) =~= s@.skip(cur + 1));
                assert(headers.deep_view() + Seq::<Header>::empty() =~= headers.deep_view());
            }
            return Ok((headers, cur + 1));
        }
        proof {
            if has_prefix(w, seq!['\n']) {
                assert(w.subrange(0, 1)[0] == '\n');
            }
        }
        match parse_header(s, cur) {
            None => {
                return Err(
                    if cur == s.len() {
                        MimeError::MissingSeparator
                    } else {
                        MimeError::MalformedHeader
                    },
                );
            },
            Some((name, value, next)) => {
                let ghost before = headers.deep_view();
                let ghost header = (name@, value@);
                headers.push((name, value));
                proof {
                    assert(headers.deep_view() =~= before.push(header));
                    let rest = header_section(s@.skip(next as int));
                    match rest {
                        Ok((more, body)) => {
                            assert(before + (seq![header] + more) =~= before.push(header)
                                + more);
                        },
                        Err(e) => {},
                    }
                }
                cur = next;
            },
        }
    }
}

/// The outcome `rest` of reading a header section, with `headers` read
/// before it.
pub open spec fn with_headers_before(
    headers: Seq<Header>,
    rest: Result<(Seq<Header>, Seq<char>), MimeError>,
) -> Result<(Seq<Header>, Seq<char>), MimeError> {
    match rest {
        Ok((more, body)) => Ok((headers + more, body)),
        Err(e) => Err(e),
    }
}

/// The value of the first header named `name`, whatever the case of its
/// letters.
pub fn find_value(headers: &Vec<(String, String)>, name: &str) -> (r: Option<String>)
    ensures
        match r {
            Some(v) => header_value(headers.deep_view(), name@) == Some(v@),
            None => header_value(headers.deep_view(), name@) is None,
        },
{
    let mut i: usize = 0;
    assert(headers.deep_view().skip(0) =~= headers.deep_view());
    while i < headers.len()
        invariant
            i <= headers@.len(),
            header_value(headers.deep_view(), name@) == header_value(
                headers.deep_view().skip(i as int),
                name@,
            ),
        decreases headers@.len() - i,
    {
        proof {
            let rest = headers.deep_view().skip(i as int);
            assert(rest[0] == headers.deep_view()[i as int]);
            assert(rest.drop_first() =~= headers.deep_view().skip(i + 1));
        }
        if eq_ignore_case(headers[i].0.as_str(), name) {
            return Some(headers[i].1.clone());
        }
        i += 1;
    }
    None
}

/// The value of the first `Content-Type` header.
pub fn get_content_type(headers: &Vec<(String, String)>) -> (r: Option<String>)
    ensures
        match r {
            Some(v) => header_value(headers.deep_view(), content_type_name()) == Some(v@),
            None => header_value(headers.deep_view(), content_type_name()) is None,
        },
{
    proof {
        reveal_strlit("Content-Type");
        assert("Content-Type"@ =~= content_type_name());
    }
    find_value(headers, "Content-Type")
}

/// The boundary parameter of a `Content-Type` value.
pub fn extract_boundary(content_type: &str) -> (r: Option<String>)
    ensures
        match r {
            Some(b) => boundary_param(content_type@) == Some(b@),
            None => boundary_param(content_type@) is None,
        },
{
    let cs = chars_of(content_type);
    let low = lowered_chars(cs.as_slice());
    let key: Vec<char> = vec!['b', 'o', 'u', 'n', 'd', 'a', 'r', 'y', '='];
    assert(key@ =~= boundary_key());
    match find_chars(low.as_slice(), key.as_slice(), 0) {
        None => None,
        Some(p) => {
            let n = cs.len();
            proof {
                lemma_find_from(low@, key@, 0);
                assert(occurs_at(low@, key@, p as int));
                assert(key@.len() == 9);
                assert(low@.len() == n);
            }
            let (a, b) = trim_bounds(cs.as_slice(), p + 9, n);
            let v = slice_subrange(cs.as_slice(), a, b);
            assert(cs@.subrange(p + 9, cs@.len() as int) =~= cs@.skip(p + 9));
            let q0 = scan(v, 0, CharClass::Quote, true);
            let q1 = scan_back(v, q0, v.len(), CharClass::Quote, true);
            let w = slice_subrange(v, q0, q1);
            proof {
                assert(v@.skip(0) =~= v@);
                let u = v@.skip(q0 as int);
                assert(v@.subrange(q0 as int, v@.len() as int) =~= u);
                assert(u.take(u.len() - trailing_run_len(u, CharClass::Quote, true)) =~= w@);
                assert(w@ == unquoted(v@));
                assert(w@.skip(0) =~= w@);
            }
            let e = scan(w, 0, CharClass::ValueEnd, false);
            assert(w@.subrange(0, e as int) =~= w@.take(e as int));
            Some(string_of(w, 0, e))
        },
    }
}

/// `s` without one line terminator at its end.
pub fn trim_newline(s: &[char]) -> (r: &[char])
    ensures
        r@ == without_newline(s@),
{
    let n = s.len();
    if n >= 2 && s[n - 2] == '\r' && s[n - 1] == '\n' {
        assert(s@.subrange(n - 2, n as int) =~= crlf());
        slice_subrange(s, 0, n - 2)
    } else {
        proof {
            if has_suffix(s@, crlf()) {
                assert(s@.subrange(n - 2, n as int)[0] == '\r');
                assert(s@.subrange(n - 2, n as int)[1] == '\n');
            }
        }
        if n >= 1 && s[n - 1] == '\n' {
            assert(s@.subrange(n - 1, n as int) =~= seq!['\n']);
            slice_subrange(s, 0, n - 1)
        } else {
            proof {
                if has_suffix(s@, seq!['\n']) {
                    assert(s@.subrange(n - 1, n as int)[0] == '\n');
                }
            }
            s
        }
    }
}

/// The boundary by which a body with these headers is cut into parts, if it
/// is a multipart body.
pub fn multipart_boundary_of(headers: &Vec<(String, String)>) -> (r: Option<Vec<char>>)
    ensures
        match r {
            Some(b) => multipart_boundary(headers.deep_view()) == Some(b@),
            None => multipart_boundary(headers.deep_view()) is None,
        },
{
    match get_content_type(headers) {
        None => None,
        Some(ct) => {
            let cs = chars_of(ct.as_str());
            let low = lowered_chars(cs.as_slice());
            let prefix: Vec<char> = vec!['m', 'u', 'l', 't', 'i', 'p', 'a', 'r', 't', '/'];
            assert(prefix@ =~= multipart_prefix());
            if matches_at(low.as_slice(), 0, prefix.as_slice()) {
                match extract_boundary(ct.as_str()) {
                    Some(b) => Some(chars_of(b.as_str())),
                    None => None,
                }
            } else {
                None
            }
        },
    }
}

/// What `multipart_of` says, step by step.
pub proof fn lemma_multipart_of(s: Seq<char>, boundary: Seq<char>, headers: Seq<Header>)
    ensures
        multipart_of(s, boundary, headers) == if has_prefix(s, delimiter(boundary)) {
            Err::<(Seq<char>, Container), _>(MimeError::BoundaryNotFound)
        } else {
            match find(s, marker(boundary)) {
                None => Err(MimeError::BoundaryNotFound),
                Some(p) => with_body_before(
                    headers,
                    s.take(p),
                    parts_of(s.skip(p), boundary),
                ),
            }
        },
{
    reveal(multipart_of);
    reveal(parts_of);
    lemma_find_from(s, marker(boundary), 0);
}

/// Parts begin with the marker.
pub proof fn lemma_parts_of_marker(s: Seq<char>, boundary: Seq<char>)
    requires
        !has_prefix(s, marker(boundary)),
    ensures
        parts_of(s, boundary) == Err::<(Seq<Container>, Seq<char>), _>(
            MimeError::BoundaryNotFound,
        ),
{
    reveal(parts_of);
}

/// Behind the marker, two hyphens close the multipart body.
pub proof fn lemma_parts_of_closing(s: Seq<char>, boundary: Seq<char>)
    requires
        has_prefix(s, marker(boundary)),
        has_prefix(s.skip(marker(boundary).len() as int), dashes()),
    ensures
        parts_of(s, boundary) == Ok::<_, MimeError>(
            (Seq::<Container>::empty(), s.skip(marker(boundary).len() as int + 2)),
        ),
{
    reveal(parts_of);
    let m = marker(boundary);
    assert(s.skip(m.len() as int).skip(2) =~= s.skip(m.len() as int + 2));
}

/// Behind the marker and without two hyphens, a part follows: the boundary
/// line ends, the part runs to the next marker, and more parts follow from
/// there.
pub proof fn lemma_parts_of_part(s: Seq<char>, boundary: Seq<char>)
    requires
        has_prefix(s, marker(boundary)),
        !has_prefix(s.skip(marker(boundary).len() as int), dashes()),
    ensures
        parts_of(s, boundary) == match boundary_line_end(s.skip(marker(boundary).len() as int)) {
            None => Err::<(Seq<Container>, Seq<char>), _>(MimeError::BoundaryNotFound),
            Some(t) => match find(t, marker(boundary)) {
                None => Err(MimeError::BoundaryNotFound),
                Some(q) => match container_of(without_newline(t.take(q))) {
                    Err(e) => Err(e),
                    Ok((_, part)) => with_parts_before(seq![part], parts_of(t.skip(q), boundary)),
                },
            },
        },
{
    reveal(parts_of);
    let m = marker(boundary);
    let after = s.skip(m.len() as int);
    lemma_run_len(after, CharClass::Blank, true);
    match boundary_line_end(after) {
        None => {},
        Some(t) => {
            lemma_find_from(t, m, 0);
        },
    }
}

/// The outcome `rest` of reading parts, with `parts` read before it.
pub open spec fn with_parts_before(
    parts: Seq<Container>,
    rest: Result<(Seq<Container>, Seq<char>), MimeError>,
) -> Result<(Seq<Container>, Seq<char>), MimeError> {
    match rest {
        Ok((more, behind)) => Ok((parts + more, behind)),
        Err(e) => Err(e),
    }
}

/// What a list of containers stands for.
pub open spec fn containers_view(parts: Seq<MimeContainer>) -> Seq<Container> {
    Seq::new(parts.len(), |i: int| parts[i]@)
}

/// Parses a complete container from characters: headers, then body. Returns
/// the index behind what was read, and the container.
pub fn parse_container(s: &[char]) -> (r: Result<(usize, MimeContainer), MimeError>)
    ensures
        match r {
            Ok((rest, c)) => rest <= s@.len() && container_of(s@) == Ok::<_, MimeError>(
                (s@.skip(rest as int), c@),
            ),
            Err(e) => container_of(s@) == Err::<(Seq<char>, Container), _>(e),
        },
    decreases s@.len(), 3int,
{
    assert(s@.skip(0) =~= s@);
    match parse_headers(s, 0) {
        Err(e) => Err(e),
        Ok((headers, start)) => {
            let body = slice_subrange(s, start, s.len());
            assert(body@ =~= s@.skip(start as int));
            match parse_body(body, headers) {
                Err(e) => Err(e),
                Ok((rest, c)) => {
                    assert(body@.skip(rest as int) =~= s@.skip(start + rest));
                    Ok((start + rest, c))
                },
            }
        },
    }
}

/// Parses the body of a container with the given headers. Returns the index
/// behind what was read, and the container.
pub fn parse_body(s: &[char], headers: Vec<(String, String)>) -> (r: Result<
    (usize, MimeContainer),
    MimeError,
>)
    ensures
        match r {
            Ok((rest, c)) => rest <= s@.len() && body_of(s@, headers.deep_view()) == Ok::<
                _,
                MimeError,
            >((s@.skip(rest as int), c@)),
            Err(e) => body_of(s@, headers.deep_view()) == Err::<(Seq<char>, Container), _>(e),
        },
    decreases s@.len(), 2int,
{
    let ghost hv = headers.deep_view();
    match multipart_boundary_of(&headers) {
        Some(boundary) => {
            proof {
                reveal(multipart_of);
            }
            parse_multipart_container(s, boundary.as_slice(), headers)
        },
        None => {
            let body = string_of(s, 0, s.len());
            let c = MimeContainer { headers, body, parts: Vec::new() };
            proof {
                assert(s@.subrange(0, s@.len() as int) =~= s@);
                assert(s@.skip(s@.len() as int) =~= Seq::<char>::empty());
                lemma_container_view(c);
                assert(c@.parts =~= Seq::<Container>::empty());
            }
            Ok((s.len(), c))
        },
    }
}

/// Parses a multipart body with the given boundary into the preamble, which
/// becomes the body of the container, and the parts.
pub fn parse_multipart_container(s: &[char], boundary: &[char], headers: Vec<(String, String)>) -> (r:
    Result<(usize, MimeContainer), MimeError>)
    ensures
        match r {
            Ok((rest, c)) => rest <= s@.len() && multipart_of(s@, boundary@, headers.deep_view())
                == Ok::<_, MimeError>((s@.skip(rest as int), c@)),
            Err(e) => multipart_of(s@, boundary@, headers.deep_view()) == Err::<
                (Seq<char>, Container),
                _,
            >(e),
        },
    decreases s@.len(), 1int,
{
    let mut m: Vec<char> = vec!['\r', '\n', '-', '-'];
    let mut i: usize = 0;
    while i < boundary.len()
        invariant
            i <= boundary@.len(),
            m@ == crlf() + dashes() + boundary@.take(i as int),
        decreases boundary@.len() - i,
    {
        m.push(boundary[i]);
        i += 1;
        assert(m@ =~= crlf() + dashes() + boundary@.take(i as int));
    }
    assert(boundary@.take(boundary@.len() as int) =~= boundary@);
    assert(m@ =~= marker(boundary@));
    let d = slice_subrange(m.as_slice(), 2, m.len());
    assert(d@ =~= delimiter(boundary@));
    proof {
        lemma_multipart_of(s@, boundary@, headers.deep_view());
    }
    if matches_at(s, 0, d) {
        return Err(MimeError::BoundaryNotFound);
    }
    let p = match find_chars(s, m.as_slice(), 0) {
        None => {
            return Err(MimeError::BoundaryNotFound);
        },
        Some(p) => p,
    };
    proof {
        lemma_find_from(s@, m@, 0);
    }
    let preamble = string_of(s, 0, p);
    let mut parts: Vec<MimeContainer> = Vec::new();
    let mut cur: usize = p;
    let n = s.len();
    proof {
        assert(s@.subrange(0, p as int) =~= s@.take(p as int));
        lemma_parts_prepend_nothing(parts_of(s@.skip(p as int), boundary@));
        assert(containers_view(parts@) =~= Seq::<Container>::empty());
    }
    loop
        invariant
            m@ == marker(boundary@),
            p <= cur <= s@.len() == n,
            occurs_at(s@, m@, cur as int),
            multipart_of(s@, boundary@, headers.deep_view()) == with_body_before(
                headers.deep_view(),
                preamble@,
                parts_of(s@.skip(p as int), boundary@),
            ),
            parts_of(s@.skip(p as int), boundary@) == with_parts_before(
                containers_view(parts@),
                parts_of(s@.skip(cur as int), boundary@),
            ),
        decreases s@.len() - cur,
    {
        let ghost w = s@.skip(cur as int);
        proof {
            lemma_occurs_at_skip(s@, m@, cur as int, 0);
            assert(w.skip(m@.len() as int) =~= s@.skip(cur + m@.len()));
        }
        let after = cur + m.len();
        if starts_with_dashes(s, after) {
            let ghost pv = containers_view(parts@);
            let c = MimeContainer { headers, body: preamble, parts };
            proof {
                lemma_parts_of_closing(w, boundary@);
                assert(w.skip(m@.len() as int + 2) =~= s@.skip(after + 2));
                assert(pv + Seq::<Container>::empty() =~= pv);
                lemma_container_view(c);
            }
            return Ok((after + 2, c));
        }
        proof {
            lemma_parts_of_part(w, boundary@);
        }
        let t = match after_boundary(s, after) {
            None => {
                return Err(MimeError::BoundaryNotFound);
            },
            Some(t) => t,
        };
        proof {
            lemma_find_skip(s@, m@, t as int);
            lemma_find_from(s@, m@, t as int);
        }
        let q = match find_chars(s, m.as_slice(), t) {
            None => {
                return Err(MimeError::BoundaryNotFound);
            },
            Some(q) => q,
        };
        let raw = slice_subrange(s, t, q);
        proof {
            assert(raw@ =~= s@.skip(t as int).take(q - t));
            assert(s@.skip(t as int).skip(q - t) =~= s@.skip(q as int));
        }
        let content = trim_newline(raw);
        match parse_container(content) {
            Err(e) => {
                return Err(e);
            },
            Ok((_, part)) => {
                let ghost before = containers_view(parts@);
                let ghost pv = part@;
                parts.push(part);
                proof {
                    assert(containers_view(parts@) =~= before.push(pv));
                    lemma_parts_prepend_one(before, pv, parts_of(s@.skip(q as int), boundary@));
                }
                cur = q;
            },
        }
    }
}

/// The first `n` containers of a list stand for as many models, each that
/// of the container at its place.
pub proof fn lemma_first_containers(parts: Vec<MimeContainer>, n: nat)
    requires
        n <= parts@.len(),
    ensures
        first_containers(parts, n) == containers_view(parts@.take(n as int)),
    decreases n,
{
    if n > 0 {
        lemma_first_containers(parts, (n - 1) as nat);
        let a = first_containers(parts, (n - 1) as nat);
        let b = containers_view(parts@.take(n as int));
        assert(first_containers(parts, n) == a.push(parts@[n - 1]@));
        assert(a.len() == n - 1);
        assert(b.len() == n);
        assert forall|i: int| 0 <= i < n implies a.push(parts@[n - 1]@)[i] == b[i] by {
            if i < n - 1 {
                assert(a[i] == parts@.take(n - 1)[i]@);
            }
            assert(b[i] == parts@.take(n as int)[i]@);
        }
        assert(first_containers(parts, n) =~= containers_view(parts@.take(n as int)));
    } else {
        assert(first_containers(parts, n) =~= containers_view(parts@.take(n as int)));
    }
}

/// A container stands for its headers, its body and its parts.
pub proof fn lemma_container_view(c: MimeContainer)
    ensures
        c@.headers == c.headers.deep_view(),
        c@.body == c.body@,
        c@.parts == containers_view(c.parts@),
{
    lemma_first_containers(c.parts, c.parts@.len());
    assert(c.parts@.take(c.parts@.len() as int) =~= c.parts@);
}

/// With no parts read before, the outcome stays.
proof fn lemma_parts_prepend_nothing(rest: Result<(Seq<Container>, Seq<char>), MimeError>)
    ensures
        with_parts_before(Seq::empty(), rest) == rest,
{
    match rest {
        Ok((more, behind)) => {
            assert(Seq::<Container>::empty() + more =~= more);
        },
        Err(e) => {},
    }
}

/// Reading `before`, then one part, then `rest`, is reading `before` with
/// that part, then `rest`.
proof fn lemma_parts_prepend_one(
    before: Seq<Container>,
    part: Container,
    rest: Result<(Seq<Container>, Seq<char>), MimeError>,
)
    ensures
        with_parts_before(before, with_parts_before(seq![part], rest)) == with_parts_before(
            before.push(part),
            rest,
        ),
{
    match rest {
        Ok((more, behind)) => {
            assert(before + (seq![part] + more) =~= before.push(part) + more);
        },
        Err(e) => {},
    }
}

/// The outcome `parts` of reading the parts of a multipart body, made into
/// the outcome for the container with these headers and this preamble.
pub open spec fn with_body_before(
    headers: Seq<Header>,
    preamble: Seq<char>,
    parts: Result<(Seq<Container>, Seq<char>), MimeError>,
) -> Result<(Seq<char>, Container), MimeError> {
    match parts {
        Ok((parts, rest)) => Ok((rest, Container { headers, body: preamble, parts })),
        Err(e) => Err(e),
    }
}

/// Whether two hyphens stand at `at`.
fn starts_with_dashes(s: &[char], at: usize) -> (r: bool)
    requires
        at <= s@.len(),
    ensures
        r == has_prefix(s@.skip(at as int), dashes()),
        r ==> at + 2 <= s@.len(),
{
    let ghost x = s@.skip(at as int);
    if s.len() - at >= 2 && s[at] == '-' && s[at + 1] == '-' {
        assert(x.subrange(0, 2) =~= dashes());
        true
    } else {
        proof {
            if has_prefix(x, dashes()) {
                assert(x.subrange(0, 2)[0] == '-');
                assert(x.subrange(0, 2)[1] == '-');
            }
        }
        false
    }
}

/// Reads the end of a boundary line that opens a part, from the index behind
/// the boundary: spaces and tabs, then a line terminator. Returns the index
/// at which the part begins.
fn after_boundary(s: &[char], at: usize) -> (r: Option<usize>)
    requires
        at <= s@.len(),
    ensures
        match r {
            Some(t) => at < t <= s@.len() && boundary_line_end(s@.skip(at as int)) == Some(
                s@.skip(t as int),
            ),
            None => boundary_line_end(s@.skip(at as int)) is None,
        },
{
    let b = scan(s, at, CharClass::Blank, true);
    let ghost y = s@.skip(b as int);
    assert(s@.skip(at as int).skip(b - at) =~= y);
    if b < s.len() && s[b] == '\n' {
        assert(y.subrange(0, 1) =~= seq!['\n']);
        assert(y.skip(1) =~= s@.skip(b + 1));
        Some(b + 1)
    } else {
        proof {
            if has_prefix(y, seq!['\n']) {
                assert(y.subrange(0, 1)[0] == '\n');
            }
        }
        if b < s.len() && s.len() - b >= 2 && s[b] == '\r' && s[b + 1] == '\n' {
            assert(y.subrange(0, 2) =~= crlf());
            assert(y.skip(2) =~= s@.skip(b + 2));
            Some(b + 2)
        } else {
            proof {
                if has_prefix(y, crlf()) {
                    assert(y.subrange(0, 2)[0] == '\r');
                    assert(y.subrange(0, 2)[1] == '\n');
                }
            }
            None
        }
    }
}

/// A header as it is written: name, colon, space, value, CRLF.
pub open spec fn header_line(h: Header) -> Seq<char> {
    h.0 + seq![':', ' '] + h.1 + crlf()
}

/// The headers as they are written, one line each.
pub open spec fn header_lines(headers: Seq<Header>) -> Seq<char>
    decreases headers.len(),
{
    if headers.len() == 0 {
        Seq::empty()
    } else {
        header_lines(headers.drop_last()) + header_line(headers.last())
    }
}

/// A part as it stands in a multipart body: the boundary line, the text of
/// the part, and a CRLF.
pub open spec fn framed(text: Seq<char>, boundary: Seq<char>) -> Seq<char> {
    delimiter(boundary) + crlf() + text + crlf()
}

/// The parts as they stand in a multipart body, one behind the other.
pub open spec fn framed_all(texts: Seq<Seq<char>>, boundary: Seq<char>) -> Seq<char>
    decreases texts.len(),
{
    if texts.len() == 0 {
        Seq::empty()
    } else {
        framed_all(texts.drop_last(), boundary) + framed(texts.last(), boundary)
    }
}

/// A multipart container as it is written: the headers, an empty line, the
/// preamble, a CRLF, the parts, and the closing boundary line.
pub open spec fn multipart_text(
    headers: Seq<Header>,
    preamble: Seq<char>,
    texts: Seq<Seq<char>>,
    boundary: Seq<char>,
) -> Seq<char> {
    header_lines(headers) + crlf() + preamble + crlf() + framed_all(texts, boundary) + delimiter(
        boundary,
    ) + dashes() + crlf()
}

/// A container without parts as it is written: the headers, an empty line,
/// and the body.
pub open spec fn single_text(headers: Seq<Header>, body: Seq<char>) -> Seq<char> {
    header_lines(headers) + crlf() + body
}

/// A lower-case hexadecimal digit.
pub open spec fn hex_digit(c: char) -> bool {
    '0' <= c <= '9' || 'a' <= c <= 'f'
}

/// The written form of a fresh identifier: 36 characters, lower-case
/// hexadecimal digits in groups of 8, 4, 4, 4 and 12 with hyphens between.
pub open spec fn hyphenated_id(s: Seq<char>) -> bool {
    &&& s.len() == 36
    &&& forall|i: int|
        0 <= i < 36 ==> if i == 8 || i == 13 || i == 18 || i == 23 {
            #[trigger] s[i] == '-'
        } else {
            hex_digit(s[i])
        }
}

/// Whether `boundary` may delimit the parts of a container with these
/// headers: it is the one that the headers declare, or, where they declare
/// none, a fresh identifier.
pub open spec fn boundary_fits(headers: Seq<Header>, boundary: Seq<char>) -> bool {
    match declared_boundary(headers) {
        Some(b) => boundary == b,
        None => hyphenated_id(boundary),
    }
}

/// Whether `text` is a written form of `c`. A container without parts has
/// one written form. One with parts is written with the boundary that its
/// headers declare, or with a fresh one, around written forms of its parts.
pub open spec fn renders(c: Container, text: Seq<char>) -> bool
    decreases c,
{
    if c.parts.len() == 0 {
        text == single_text(c.headers, c.body)
    } else {
        exists|boundary: Seq<char>, texts: Seq<Seq<char>>|
            {
                &&& boundary_fits(c.headers, boundary)
                &&& texts.len() == c.parts.len()
                &&& forall|i: int|
                    0 <= i < c.parts.len() ==> renders(c.parts[i], #[trigger] texts[i])
                &&& text == #[trigger] multipart_text(c.headers, c.body, texts, boundary)
            }
    }
}

/// Whether every container in `c` that has parts declares its boundary, so
/// that `c` has one written form.
pub open spec fn delimited(c: Container) -> bool
    decreases c,
{
    &&& c.parts.len() > 0 ==> declared_boundary(c.headers) is Some
    &&& forall|i: int| 0 <= i < c.parts.len() ==> delimited(#[trigger] c.parts[i])
}

/// The written form of a container in which every container with parts
/// declares its boundary.
pub open spec fn serialized(c: Container) -> Seq<char>
    decreases c, 0nat,
{
    if c.parts.len() == 0 {
        single_text(c.headers, c.body)
    } else {
        multipart_text(
            c.headers,
            c.body,
            serialized_first(c.parts, c.parts.len()),
            match declared_boundary(c.headers) {
                Some(b) => b,
                None => Seq::empty(),
            },
        )
    }
}

/// The written forms of the first `n` of `parts`.
pub open spec fn serialized_first(parts: Seq<Container>, n: nat) -> Seq<Seq<char>>
    decreases parts, n,
{
    if n == 0 || n > parts.len() {
        Seq::empty()
    } else {
        serialized_first(parts, (n - 1) as nat).push(serialized(parts[n - 1]))
    }
}

/// The written forms of the first `n` parts are as many texts, each the
/// written form of the part at its place.
pub proof fn lemma_serialized_first(parts: Seq<Container>, n: nat)
    requires
        n <= parts.len(),
    ensures
        serialized_first(parts, n).len() == n,
        forall|i: int|
            0 <= i < n ==> #[trigger] serialized_first(parts, n)[i] == serialized(parts[i]),
    decreases n,
{
    if n > 0 {
        lemma_serialized_first(parts, (n - 1) as nat);
    }
}

/// A container in which every container with parts declares its boundary
/// has no written form but `serialized`.
pub proof fn lemma_renders_serialized(c: Container, text: Seq<char>)
    requires
        delimited(c),
        renders(c, text),
    ensures
        text == serialized(c),
    decreases c,
{
    if c.parts.len() > 0 {
        let (boundary, texts) = choose|boundary: Seq<char>, texts: Seq<Seq<char>>|
            {
                &&& boundary_fits(c.headers, boundary)
                &&& texts.len() == c.parts.len()
                &&& forall|i: int|
                    0 <= i < c.parts.len() ==> renders(c.parts[i], #[trigger] texts[i])
                &&& text == #[trigger] multipart_text(c.headers, c.body, texts, boundary)
            };
        lemma_serialized_first(c.parts, c.parts.len());
        let written = serialized_first(c.parts, c.parts.len());
        assert forall|i: int| 0 <= i < c.parts.len() implies texts[i] == written[i] by {
            assert(delimited(c.parts[i]));
            lemma_renders_serialized(c.parts[i], texts[i]);
        }
        assert(texts =~= written);
    }
}

/// `Uuid::new_v4` of the `uuid` crate draws a random identifier, and
/// `to_string` writes it in its hyphenated lower-case form. Which identifier
/// comes is left open.
#[verifier::external_body]
fn fresh_boundary() -> (r: String)
    ensures
        hyphenated_id(r@),
{
    uuid::Uuid::new_v4().to_string()
}

/// The boundary that the headers declare, or a fresh one where they declare
/// none.
pub fn get_or_generate_boundary(headers: &Vec<(String, String)>) -> (r: String)
    ensures
        boundary_fits(headers.deep_view(), r@),
{
    if let Some(ct) = get_content_type(headers) {
        if let Some(boundary) = extract_boundary(ct.as_str()) {
            return boundary;
        }
    }
    fresh_boundary()
}

/// Appends a CRLF.
fn push_crlf(out: &mut String)
    ensures
        final(out)@ == old(out)@ + crlf(),
{
    out.push('\r');
    out.push('\n');
    assert(out@ =~= old(out)@ + crlf());
}

/// Appends two hyphens.
fn push_dashes(out: &mut String)
    ensures
        final(out)@ == old(out)@ + dashes(),
{
    out.push('-');
    out.push('-');
    assert(out@ =~= old(out)@ + dashes());
}

/// Appends the headers, one line each.
fn push_headers(out: &mut String, headers: &Vec<(String, String)>)
    ensures
        final(out)@ == old(out)@ + header_lines(headers.deep_view()),
{
    let mut i: usize = 0;
    assert(headers.deep_view().take(0) =~= Seq::<Header>::empty());
    assert(out@ =~= old(out)@ + Seq::<char>::empty());
    while i < headers.len()
        invariant
            i <= headers@.len(),
            out@ == old(out)@ + header_lines(headers.deep_view().take(i as int)),
        decreases headers@.len() - i,
    {
        let ghost before = out@;
        out.append(headers[i].0.as_str());
        out.push(':');
        out.push(' ');
        out.append(headers[i].1.as_str());
        push_crlf(out);
        proof {
            let hs = headers.deep_view();
            let next = hs.take(i + 1);
            assert(next.drop_last() =~= hs.take(i as int));
            assert(next.last() == hs[i as int]);
            assert(out@ =~= before + header_line(hs[i as int]));
            assert(out@ =~= old(out)@ + header_lines(next));
        }
        i += 1;
    }
    assert(headers.deep_view().take(headers@.len() as int) =~= headers.deep_view());
}

impl MimeContainer {
    /// Writes the container in MIME message form: the headers, an empty
    /// line, then the body, or for a container with parts the preamble and
    /// the parts between boundary lines.
    ///
    /// A container with parts is written with the boundary that its headers
    /// declare. Where they declare none, a fresh identifier is drawn for it.
    pub fn to_mime_string(&self) -> (out: String)
        ensures
            renders(self@, out@),
            delimited(self@) ==> out@ == serialized(self@),
        decreases self,
    {
        proof {
            lemma_container_view(*self);
        }
        let mut out = String::new();
        push_headers(&mut out, &self.headers);
        push_crlf(&mut out);
        out.append(self.body.as_str());
        assert(out@ =~= single_text(self@.headers, self@.body));
        if self.parts.len() > 0 {
            push_crlf(&mut out);
            let boundary = get_or_generate_boundary(&self.headers);
            let ghost head = out@;
            let ghost mut texts: Seq<Seq<char>> = Seq::empty();
            let mut i: usize = 0;
            assert(out@ =~= head + framed_all(texts, boundary@));
            while i < self.parts.len()
                invariant
                    i <= self.parts@.len(),
                    self@.parts == containers_view(self.parts@),
                    texts.len() == i,
                    forall|k: int| 0 <= k < i ==> renders(self@.parts[k], #[trigger] texts[k]),
                    out@ == head + framed_all(texts, boundary@),
                decreases self.parts@.len() - i,
            {
                let text = self.parts[i].to_mime_string();
                let ghost before = out@;
                push_dashes(&mut out);
                out.append(boundary.as_str());
                push_crlf(&mut out);
                out.append(text.as_str());
                push_crlf(&mut out);
                proof {
                    let more = texts.push(text@);
                    assert(more.drop_last() =~= texts);
                    assert(out@ =~= before + framed(text@, boundary@));
                    assert(out@ =~= head + framed_all(more, boundary@));
                    texts = more;
                }
                i += 1;
            }
            push_dashes(&mut out);
            out.append(boundary.as_str());
            push_dashes(&mut out);
            push_crlf(&mut out);
            proof {
                assert(out@ =~= multipart_text(self@.headers, self@.body, texts, boundary@));
            }
        }
        proof {
            if delimited(self@) {
                lemma_renders_serialized(self@, out@);
            }
        }
        out
    }

    /// The value of the first header named `header`, whatever the case of its
    /// letters.
    pub fn find_header_value(&self, header: &str) -> (r: Option<String>)
        ensures
            match r {
                Some(v) => header_value(self@.headers, header@) == Some(v@),
                None => header_value(self@.headers, header@) is None,
            },
    {
        find_value(&self.headers, header)
    }

    /// Parses the body of a container whose headers are known. Where the
    /// headers name a multipart boundary the text is cut into parts. Returns
    /// the text that is left behind the container, and the container.
    pub fn parse_mime_container_data(input: &str, headers: Vec<(String, String)>) -> (r: Result<
        (&str, MimeContainer),
        MimeError,
    >)
        ensures
            match r {
                Ok((rest, c)) => body_of(input@, headers.deep_view()) == Ok::<_, MimeError>(
                    (rest@, c@),
                ),
                Err(e) => body_of(input@, headers.deep_view()) == Err::<
                    (Seq<char>, Container),
                    _,
                >(e),
            },
    {
        let cs = chars_of(input);
        match parse_body(cs.as_slice(), headers) {
            Err(e) => Err(e),
            Ok((rest, c)) => {
                assert(cs@.subrange(rest as int, cs@.len() as int) =~= cs@.skip(rest as int));
                Ok((input.substring_char(rest, cs.len()), c))
            },
        }
    }

    /// Parses a complete container: headers, then body. Returns the text that
    /// is left behind the container, and the container.
    pub fn parse_mime_container(input: &str) -> (r: Result<(&str, MimeContainer), MimeError>)
        ensures
            match r {
                Ok((rest, c)) => container_of(input@) == Ok::<_, MimeError>((rest@, c@)),
                Err(e) => container_of(input@) == Err::<(Seq<char>, Container), _>(e),
            },
    {
        let cs = chars_of(input);
        match parse_container(cs.as_slice()) {
            Err(e) => Err(e),
            Ok((rest, c)) => {
                assert(cs@.subrange(rest as int, cs@.len() as int) =~= cs@.skip(rest as int));
                Ok((input.substring_char(rest, cs.len()), c))
            },
        }
    }
}

} // verus!

//! Character-level building blocks: character classes, runs, trimming,
//! ASCII case folding and substring search, each with its mathematical
//! counterpart on `Seq<char>`.

use vstd::prelude::*;
use vstd::std_specs::iter::IteratorSpec;

verus! {

/// `String::push` appends one character to the end of the string.
pub assume_specification[ String::push ](s: &mut String, c: char)
    ensures
        final(s)@ == old(s)@.push(c),
;

/// The characters of `s`, in order.
pub fn chars_of(s: &str) -> (v: Vec<char>)
    ensures
        v@ == s@,
{
    let mut v: Vec<char> = Vec::new();
    for c in it: s.chars()
        invariant
            v@ == it.seq().take(it.index()),
            it.seq() == s@,
    {
        v.push(c);
    }
    v
}

/// The string made of the characters `cs[from..to]`.
pub fn string_of(cs: &[char], from: usize, to: usize) -> (s: String)
    requires
        from <= to <= cs@.len(),
    ensures
        s@ == cs@.subrange(from as int, to as int),
{
    let mut s = String::new();
    let mut i: usize = from;
    while i < to
        invariant
            from <= i <= to <= cs@.len(),
            s@ == cs@.subrange(from as int, i as int),
        decreases to - i,
    {
        s.push(cs[i]);
        i += 1;
    }
    s
}

/// Characters with the Unicode `White_Space` property.
pub open spec fn whitespace(c: char) -> bool {
    let n = c as u32;
    ||| 0x09 <= n <= 0x0d
    ||| n == 0x20
    ||| n == 0x85
    ||| n == 0xa0
    ||| n == 0x1680
    ||| 0x2000 <= n <= 0x200a
    ||| n == 0x2028
    ||| n == 0x2029
    ||| n == 0x202f
    ||| n == 0x205f
    ||| n == 0x3000
}

/// Space or horizontal tab.
pub open spec fn blank(c: char) -> bool {
    c == ' ' || c == '\t'
}

/// Characters a header name is made of: ASCII letters, digits, `-` and `_`.
pub open spec fn name_char(c: char) -> bool {
    ||| 'a' <= c <= 'z'
    ||| 'A' <= c <= 'Z'
    ||| '0' <= c <= '9'
    ||| c == '-'
    ||| c == '_'
}

/// Carriage return or line feed.
pub open spec fn line_break(c: char) -> bool {
    c == '\r' || c == '\n'
}

/// Whether `c` is white space.
pub fn is_whitespace(c: char) -> (r: bool)
    ensures
        r == whitespace(c),
{
    let n: u32 = c as u32;
    (0x09 <= n && n <= 0x0d) || n == 0x20 || n == 0x85 || n == 0xa0 || n == 0x1680 || (0x2000
        <= n && n <= 0x200a) || n == 0x2028 || n == 0x2029 || n == 0x202f || n == 0x205f || n
        == 0x3000
}

/// A set of characters that a scan can ask about.
#[derive(Clone, Copy, Debug, PartialEq, Eq, Structural)]
pub enum CharClass {
    /// Unicode white space.
    Whitespace,
    /// Space or horizontal tab.
    Blank,
    /// Header-name characters.
    Name,
    /// Carriage return or line feed.
    LineBreak,
    /// Single or double quotation mark.
    Quote,
    /// What ends a parameter value: a double quotation mark, a semicolon or
    /// white space.
    ValueEnd,
    /// One given character.
    Only(char),
}

impl CharClass {
    /// Whether `c` belongs to the class.
    pub open spec fn holds(self, c: char) -> bool {
        match self {
            CharClass::Whitespace => whitespace(c),
            CharClass::Blank => blank(c),
            CharClass::Name => name_char(c),
            CharClass::LineBreak => line_break(c),
            CharClass::Quote => c == '"' || c == '\'',
            CharClass::ValueEnd => c == '"' || c == ';' || whitespace(c),
            CharClass::Only(d) => c == d,
        }
    }

    /// Whether `c` belongs to the class.
    pub fn contains(&self, c: char) -> (r: bool)
        ensures
            r == self.holds(c),
    {
        match self {
            CharClass::Whitespace => is_whitespace(c),
            CharClass::Quote => c == '"' || c == '\'',
            CharClass::ValueEnd => c == '"' || c == ';' || is_whitespace(c),
            CharClass::Blank => c == ' ' || c == '\t',
            CharClass::Name => {
                ('a' <= c && c <= 'z') || ('A' <= c && c <= 'Z') || ('0' <= c && c <= '9') || c
                    == '-' || c == '_'
            },
            CharClass::LineBreak => c == '\r' || c == '\n',
            CharClass::Only(d) => c == *d,
        }
    }
}

/// How many characters at the front of `s` agree with `want` on membership
/// in `class`: the length of the longest such prefix.
pub open spec fn run_len(s: Seq<char>, class: CharClass, want: bool) -> nat
    decreases s.len(),
{
    if s.len() > 0 && class.holds(s[0]) == want {
        1 + run_len(s.drop_first(), class, want)
    } else {
        0
    }
}

/// How many characters at the back of `s` agree with `want` on membership
/// in `class`.
pub open spec fn trailing_run_len(s: Seq<char>, class: CharClass, want: bool) -> nat
    decreases s.len(),
{
    if s.len() > 0 && class.holds(s.last()) == want {
        1 + trailing_run_len(s.drop_last(), class, want)
    } else {
        0
    }
}

/// `n` is the length of the leading run: every character before `n` agrees
/// with `want`, and the one at `n`, if any, does not.
pub open spec fn is_run_len(s: Seq<char>, class: CharClass, want: bool, n: int) -> bool {
    &&& 0 <= n <= s.len()
    &&& forall|i: int| 0 <= i < n ==> class.holds(#[trigger] s[i]) == want
    &&& n < s.len() ==> class.holds(s[n]) != want
}

/// `n` is the length of the trailing run.
pub open spec fn is_trailing_run_len(s: Seq<char>, class: CharClass, want: bool, n: int) -> bool {
    &&& 0 <= n <= s.len()
    &&& forall|i: int| s.len() - n <= i < s.len() ==> class.holds(#[trigger] s[i]) == want
    &&& n < s.len() ==> class.holds(s[s.len() - n - 1]) != want
}

/// The leading run is the one length that `is_run_len` describes.
pub proof fn lemma_run_len(s: Seq<char>, class: CharClass, want: bool)
    ensures
        is_run_len(s, class, want, run_len(s, class, want) as int),
    decreases s.len(),
{
    if s.len() > 0 && class.holds(s[0]) == want {
        let t = s.drop_first();
        lemma_run_len(t, class, want);
        let n = run_len(s, class, want) as int;
        assert forall|i: int| 0 <= i < n implies class.holds(#[trigger] s[i]) == want by {
            if i > 0 {
                assert(s[i] == t[i - 1]);
            }
        }
        if n < s.len() {
            assert(s[n] == t[n - 1]);
        }
    }
}

/// Any length that `is_run_len` accepts is the leading run.
pub proof fn lemma_run_len_unique(s: Seq<char>, class: CharClass, want: bool, n: int)
    requires
        is_run_len(s, class, want, n),
    ensures
        run_len(s, class, want) == n,
    decreases s.len(),
{
    if n > 0 {
        let t = s.drop_first();
        assert(class.holds(s[0]) == want);
        assert forall|i: int| 0 <= i < n - 1 implies class.holds(#[trigger] t[i]) == want by {
            assert(t[i] == s[i + 1]);
        }
        if n - 1 < t.len() {
            assert(t[n - 1] == s[n]);
        }
        lemma_run_len_unique(t, class, want, n - 1);
    }
}

/// The trailing run is the one length that `is_trailing_run_len` describes.
pub proof fn lemma_trailing_run_len(s: Seq<char>, class: CharClass, want: bool)
    ensures
        is_trailing_run_len(s, class, want, trailing_run_len(s, class, want) as int),
    decreases s.len(),
{
    if s.len() > 0 && class.holds(s.last()) == want {
        let t = s.drop_last();
        lemma_trailing_run_len(t, class, want);
        let n = trailing_run_len(s, class, want) as int;
        assert forall|i: int| s.len() - n <= i < s.len() implies class.holds(#[trigger] s[i])
            == want by {
            if i < s.len() - 1 {
                assert(s[i] == t[i]);
            }
        }
        if n < s.len() {
            assert(s[s.len() - n - 1] == t[t.len() - (n - 1) - 1]);
        }
    }
}

/// Any length that `is_trailing_run_len` accepts is the trailing run.
pub proof fn lemma_trailing_run_len_unique(s: Seq<char>, class: CharClass, want: bool, n: int)
    requires
        is_trailing_run_len(s, class, want, n),
    ensures
        trailing_run_len(s, class, want) == n,
    decreases s.len(),
{
    if n > 0 {
        let t = s.drop_last();
        assert(class.holds(s[s.len() - 1]) == want);
        assert forall|i: int| t.len() - (n - 1) <= i < t.len() implies class.holds(
            #[trigger] t[i],
        ) == want by {
            assert(t[i] == s[i]);
        }
        if n - 1 < t.len() {
            assert(t[t.len() - (n - 1) - 1] == s[s.len() - n - 1]);
        }
        lemma_trailing_run_len_unique(t, class, want, n - 1);
    }
}

/// Scans forward from `from` and returns the index at which the run of
/// characters agreeing with `want` ends.
pub fn scan(s: &[char], from: usize, class: CharClass, want: bool) -> (end: usize)
    requires
        from <= s@.len(),
    ensures
        from <= end <= s@.len(),
        end - from == run_len(s@.skip(from as int), class, want),
{
    let mut i: usize = from;
    while i < s.len() && class.contains(s[i]) == want
        invariant
            from <= i <= s@.len(),
            forall|k: int| from <= k < i ==> class.holds(#[trigger] s@[k]) == want,
        decreases s@.len() - i,
    {
        i += 1;
    }
    proof {
        let t = s@.skip(from as int);
        assert forall|k: int| 0 <= k < i - from implies class.holds(#[trigger] t[k]) == want by {
            assert(t[k] == s@[from + k]);
        }
        lemma_run_len_unique(t, class, want, i - from);
    }
    i
}

/// Scans backward from `to` (exclusive), not below `from`, and returns the
/// index at which the trailing run of characters agreeing with `want` starts.
pub fn scan_back(s: &[char], from: usize, to: usize, class: CharClass, want: bool) -> (start:
    usize)
    requires
        from <= to <= s@.len(),
    ensures
        from <= start <= to,
        to - start == trailing_run_len(s@.subrange(from as int, to as int), class, want),
{
    let mut i: usize = to;
    while i > from && class.contains(s[i - 1]) == want
        invariant
            from <= i <= to <= s@.len(),
            forall|k: int| i <= k < to ==> class.holds(#[trigger] s@[k]) == want,
        decreases i,
    {
        i -= 1;
    }
    proof {
        let t = s@.subrange(from as int, to as int);
        assert forall|k: int| t.len() - (to - i) <= k < t.len() implies class.holds(
            #[trigger] t[k],
        ) == want by {
            assert(t[k] == s@[from + k]);
        }
        if to - i < t.len() {
            assert(t[t.len() - (to - i) - 1] == s@[i - 1]);
        }
        lemma_trailing_run_len_unique(t, class, want, to - i);
    }
    i
}

/// `s` without its leading and trailing white space.
pub open spec fn trimmed(s: Seq<char>) -> Seq<char> {
    let t = s.skip(run_len(s, CharClass::Whitespace, true) as int);
    t.take(t.len() - trailing_run_len(t, CharClass::Whitespace, true))
}

/// The bounds of `s[from..to]` without its leading and trailing white space.
pub fn trim_bounds(s: &[char], from: usize, to: usize) -> (r: (usize, usize))
    requires
        from <= to <= s@.len(),
    ensures
        from <= r.0 <= r.1 <= to,
        s@.subrange(r.0 as int, r.1 as int) == trimmed(s@.subrange(from as int, to as int)),
{
    let sub = vstd::slice::slice_subrange(s, from, to);
    let a = scan(sub, 0, CharClass::Whitespace, true);
    let b = scan_back(sub, a, sub.len(), CharClass::Whitespace, true);
    proof {
        let u = s@.subrange(from as int, to as int);
        assert(u.skip(0) == u);
        let t = u.skip(a as int);
        assert(u.subrange(a as int, u.len() as int) == t);
        assert(t.take(b - a) == s@.subrange(from + a, from + b));
    }
    (from + a, from + b)
}

/// The ASCII lower-case form of `c`; characters other than `A` to `Z` stay.
pub open spec fn lower(c: char) -> char {
    if 'A' <= c <= 'Z' {
        ((c as u8) + 32) as char
    } else {
        c
    }
}

/// `s` with every ASCII capital letter replaced by its lower-case form.
pub open spec fn lowered(s: Seq<char>) -> Seq<char> {
    Seq::new(s.len(), |i: int| lower(s[i]))
}

/// Whether `a` and `b` are equal up to the case of ASCII letters.
pub open spec fn same_ignoring_case(a: Seq<char>, b: Seq<char>) -> bool {
    lowered(a) == lowered(b)
}

/// The ASCII lower-case form of `c`.
pub fn to_lower(c: char) -> (r: char)
    ensures
        r == lower(c),
{
    if 'A' <= c && c <= 'Z' {
        ((c as u8) + 32) as char
    } else {
        c
    }
}

/// A copy of `s` in ASCII lower case.
pub fn lowered_chars(s: &[char]) -> (v: Vec<char>)
    ensures
        v@ == lowered(s@),
{
    let mut v: Vec<char> = Vec::new();
    let mut i: usize = 0;
    while i < s.len()
        invariant
            i <= s@.len(),
            v@ == lowered(s@.take(i as int)),
        decreases s@.len() - i,
    {
        v.push(to_lower(s[i]));
        proof {
            assert(v@ =~= lowered(s@.take(i + 1)));
        }
        i += 1;
    }
    proof {
        assert(s@.take(s@.len() as int) == s@);
    }
    v
}

/// Whether `a` and `b` are equal up to the case of ASCII letters.
pub fn chars_eq_ignore_case(a: &[char], b: &[char]) -> (r: bool)
    ensures
        r == same_ignoring_case(a@, b@),
{
    if a.len() != b.len() {
        proof {
            assert(lowered(a@).len() != lowered(b@).len());
        }
        return false;
    }
    let mut i: usize = 0;
    while i < a.len()
        invariant
            i <= a@.len(),
            a@.len() == b@.len(),
            forall|k: int| 0 <= k < i ==> lower(#[trigger] a@[k]) == lower(b@[k]),
        decreases a@.len() - i,
    {
        if to_lower(a[i]) != to_lower(b[i]) {
            proof {
                assert(lowered(a@)[i as int] != lowered(b@)[i as int]);
            }
            return false;
        }
        i += 1;
    }
    proof {
        assert(lowered(a@) =~= lowered(b@));
    }
    true
}

/// Whether `a` and `b` are equal up to the case of ASCII letters.
pub fn eq_ignore_case(a: &str, b: &str) -> (r: bool)
    ensures
        r == same_ignoring_case(a@, b@),
{
    let x = chars_of(a);
    let y = chars_of(b);
    chars_eq_ignore_case(x.as_slice(), y.as_slice())
}

/// Appends the characters `cs[from..to]` to `out`.
pub fn push_chars(out: &mut String, cs: &[char], from: usize, to: usize)
    requires
        from <= to <= cs@.len(),
    ensures
        final(out)@ == old(out)@ + cs@.subrange(from as int, to as int),
{
    let mut i: usize = from;
    while i < to
        invariant
            from <= i <= to <= cs@.len(),
            out@ == old(out)@ + cs@.subrange(from as int, i as int),
        decreases to - i,
    {
        out.push(cs[i]);
        i += 1;
        assert(out@ =~= old(out)@ + cs@.subrange(from as int, i as int));
    }
}

/// Whether `pat` stands in `s` at index `i`.
pub open spec fn occurs_at(s: Seq<char>, pat: Seq<char>, i: int) -> bool {
    &&& 0 <= i
    &&& i + pat.len() <= s.len()
    &&& s.subrange(i, i + pat.len()) == pat
}

/// Whether `s` begins with `pat`.
pub open spec fn has_prefix(s: Seq<char>, pat: Seq<char>) -> bool {
    occurs_at(s, pat, 0)
}

/// Whether `s` ends with `pat`.
pub open spec fn has_suffix(s: Seq<char>, pat: Seq<char>) -> bool {
    occurs_at(s, pat, s.len() - pat.len())
}

/// The first index at or after `from` at which `pat` stands in `s`.
pub open spec fn find_from(s: Seq<char>, pat: Seq<char>, from: int) -> Option<int>
    decreases s.len() - from,
{
    if from < 0 {
        None
    } else if occurs_at(s, pat, from) {
        Some(from)
    } else if from + pat.len() >= s.len() {
        None
    } else {
        find_from(s, pat, from + 1)
    }
}

/// The first index at which `pat` stands in `s`.
pub open spec fn find(s: Seq<char>, pat: Seq<char>) -> Option<int> {
    find_from(s, pat, 0)
}

/// `r` is the first occurrence of `pat` in `s` at or after `from`, or `None`
/// where there is none.
pub open spec fn is_find_from(s: Seq<char>, pat: Seq<char>, from: int, r: Option<int>) -> bool {
    match r {
        Some(i) => {
            &&& from <= i
            &&& occurs_at(s, pat, i)
            &&& forall|k: int| from <= k < i ==> !occurs_at(s, pat, k)
        },
        None => forall|k: int| from <= k ==> !occurs_at(s, pat, k),
    }
}

/// `find_from` returns the first occurrence.
pub proof fn lemma_find_from(s: Seq<char>, pat: Seq<char>, from: int)
    requires
        0 <= from,
    ensures
        is_find_from(s, pat, from, find_from(s, pat, from)),
    decreases s.len() - from,
{
    if occurs_at(s, pat, from) {
    } else if from + pat.len() >= s.len() {
    } else {
        lemma_find_from(s, pat, from + 1);
    }
}

/// Whatever `is_find_from` accepts is what `find_from` returns.
pub proof fn lemma_find_from_unique(s: Seq<char>, pat: Seq<char>, from: int, r: Option<int>)
    requires
        0 <= from,
        is_find_from(s, pat, from, r),
    ensures
        find_from(s, pat, from) == r,
{
    lemma_find_from(s, pat, from);
    let f = find_from(s, pat, from);
    match (f, r) {
        (Some(i), Some(j)) => {
            if i < j {
                assert(!occurs_at(s, pat, i));
            } else if j < i {
                assert(!occurs_at(s, pat, j));
            }
        },
        (Some(i), None) => {
            assert(!occurs_at(s, pat, i));
        },
        (None, Some(j)) => {
            assert(!occurs_at(s, pat, j));
        },
        (None, None) => {},
    }
}

/// An occurrence in `s.skip(from)` is one in `s`, moved by `from`.
pub proof fn lemma_occurs_at_skip(s: Seq<char>, pat: Seq<char>, from: int, k: int)
    requires
        0 <= from <= s.len(),
        0 <= k,
    ensures
        occurs_at(s.skip(from), pat, k) == occurs_at(s, pat, from + k),
{
    if k + pat.len() <= s.len() - from {
        assert(s.skip(from).subrange(k, k + pat.len()) =~= s.subrange(
            from + k,
            from + k + pat.len(),
        ));
    }
}

/// Searching `s` from `from` on is searching `s.skip(from)`.
pub proof fn lemma_find_skip(s: Seq<char>, pat: Seq<char>, from: int)
    requires
        0 <= from <= s.len(),
    ensures
        match find_from(s, pat, from) {
            Some(i) => from <= i && find(s.skip(from), pat) == Some(i - from),
            None => find(s.skip(from), pat) is None,
        },
{
    lemma_find_from(s, pat, from);
    let t = s.skip(from);
    match find_from(s, pat, from) {
        Some(i) => {
            lemma_occurs_at_skip(s, pat, from, i - from);
            assert forall|k: int| 0 <= k < i - from implies !occurs_at(t, pat, k) by {
                lemma_occurs_at_skip(s, pat, from, k);
            }
            lemma_find_from_unique(t, pat, 0, Some(i - from));
        },
        None => {
            assert forall|k: int| 0 <= k implies !occurs_at(t, pat, k) by {
                lemma_occurs_at_skip(s, pat, from, k);
            }
            lemma_find_from_unique(t, pat, 0, None);
        },
    }
}

/// The leading run of `a + b` is all of `a`, where every character of `a`
/// agrees with `want` and `b` is empty or begins with one that does not.
pub proof fn lemma_run_len_stops(a: Seq<char>, b: Seq<char>, class: CharClass, want: bool)
    requires
        forall|i: int| 0 <= i < a.len() ==> class.holds(#[trigger] a[i]) == want,
        b.len() > 0 ==> class.holds(b[0]) != want,
    ensures
        run_len(a + b, class, want) == a.len(),
{
    let s = a + b;
    assert forall|i: int| 0 <= i < a.len() implies class.holds(#[trigger] s[i]) == want by {
        assert(s[i] == a[i]);
    }
    if b.len() > 0 {
        assert(s[a.len() as int] == b[0]);
    }
    lemma_run_len_unique(s, class, want, a.len() as int);
}

/// The trimmed form of a text is a piece of it.
pub proof fn lemma_trimmed_is_piece(s: Seq<char>)
    ensures
        run_len(s, CharClass::Whitespace, true) + trimmed(s).len() <= s.len(),
        forall|i: int|
            0 <= i < trimmed(s).len() ==> #[trigger] trimmed(s)[i] == s[i + run_len(
                s,
                CharClass::Whitespace,
                true,
            )],
{
    lemma_run_len(s, CharClass::Whitespace, true);
    let t = s.skip(run_len(s, CharClass::Whitespace, true) as int);
    lemma_trailing_run_len(t, CharClass::Whitespace, true);
}

/// A text that is its own trimmed form does not begin or end with white
/// space.
pub proof fn lemma_trimmed_ends(v: Seq<char>)
    requires
        trimmed(v) == v,
        v.len() > 0,
    ensures
        !whitespace(v[0]),
        !whitespace(v.last()),
{
    lemma_run_len(v, CharClass::Whitespace, true);
    let t = v.skip(run_len(v, CharClass::Whitespace, true) as int);
    lemma_trailing_run_len(t, CharClass::Whitespace, true);
}

/// Where `pat` first stands in `a + pat` at the end of `a`, it first stands
/// there in `a + pat + rest` too.
pub proof fn lemma_find_extends(a: Seq<char>, pat: Seq<char>, rest: Seq<char>)
    requires
        find(a + pat, pat) == Some(a.len() as int),
    ensures
        find(a + pat + rest, pat) == Some(a.len() as int),
{
    let s = a + pat;
    let t = a + pat + rest;
    lemma_find_from(s, pat, 0);
    assert(t.subrange(a.len() as int, a.len() as int + pat.len()) =~= pat);
    assert forall|k: int| 0 <= k < a.len() implies !occurs_at(t, pat, k) by {
        assert(!occurs_at(s, pat, k));
        assert(t.subrange(k, k + pat.len()) =~= s.subrange(k, k + pat.len()));
    }
    lemma_find_from_unique(t, pat, 0, Some(a.len() as int));
}

/// Whether a text begins with `pat` is decided by its first characters.
pub proof fn lemma_prefix_extends(s: Seq<char>, rest: Seq<char>, pat: Seq<char>)
    requires
        pat.len() <= s.len(),
    ensures
        has_prefix(s + rest, pat) == has_prefix(s, pat),
{
    assert((s + rest).subrange(0, pat.len() as int) =~= s.subrange(0, pat.len() as int));
}

/// Whether `pat` stands in `s` at index `at`.
pub fn matches_at(s: &[char], at: usize, pat: &[char]) -> (r: bool)
    requires
        at <= s@.len(),
    ensures
        r == occurs_at(s@, pat@, at as int),
{
    if pat.len() > s.len() - at {
        return false;
    }
    let mut j: usize = 0;
    while j < pat.len()
        invariant
            j <= pat@.len(),
            at + pat@.len() <= s@.len() <= usize::MAX,
            forall|k: int| at <= k < at + j ==> #[trigger] s@[k] == pat@[k - at],
        decreases pat@.len() - j,
    {
        if s[at + j] != pat[j] {
            proof {
                assert(s@.subrange(at as int, at + pat@.len())[j as int] == s@[at + j]);
            }
            return false;
        }
        j += 1;
    }
    proof {
        assert(s@.subrange(at as int, at + pat@.len()) =~= pat@);
    }
    true
}

/// The first index at or after `from` at which `pat` stands in `s`.
pub fn find_chars(s: &[char], pat: &[char], from: usize) -> (r: Option<usize>)
    requires
        from <= s@.len(),
    ensures
        match r {
            Some(i) => find_from(s@, pat@, from as int) == Some(i as int),
            None => find_from(s@, pat@, from as int) is None,
        },
{
    let mut i: usize = from;
    while i < s.len()
        invariant
            from <= i <= s@.len(),
            forall|k: int| from <= k < i ==> !occurs_at(s@, pat@, k),
        decreases s@.len() - i,
    {
        if matches_at(s, i, pat) {
            proof {
                lemma_find_from_unique(s@, pat@, from as int, Some(i as int));
            }
            return Some(i);
        }
        i += 1;
    }
    if matches_at(s, i, pat) {
        proof {
            lemma_find_from_unique(s@, pat@, from as int, Some(i as int));
        }
        return Some(i);
    }
    proof {
        lemma_find_from_unique(s@, pat@, from as int, None);
    }
    None
}

} // verus!

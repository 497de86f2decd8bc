//! Extraction of the bare `local@domain` from an envelope address argument.
//!
//! An argument is either a bracketed form, with or without a display name
//! (`Jane Doe <jane@example.com>`, `<jane@example.com>`), or the bare address
//! itself; white space around it does not count.

use crate::text::{
    chars_of, lemma_run_len, lemma_run_len_unique, run_len, scan, trim_bounds, trimmed, whitespace,
    CharClass,
};
use vstd::prelude::*;
use vstd::string::StrSliceExecFns;

verus! {

/// The index of the first `>` after index `i`, or `t.len()` if there is none.
pub open spec fn closing_index(t: Seq<char>, i: int) -> int {
    i + 1 + run_len(t.skip(i + 1), CharClass::Only('>'), false)
}

/// A bracket group opens at `i`: a `<`, then at least one character other
/// than `>`, then a `>`.
pub open spec fn opens_group(t: Seq<char>, i: int) -> bool {
    &&& 0 <= i < t.len()
    &&& t[i] == '<'
    &&& i + 1 < closing_index(t, i) < t.len()
}

/// The index of the leftmost bracket group at or after `from`.
pub open spec fn group_from(t: Seq<char>, from: int) -> Option<int>
    decreases t.len() - from,
{
    if from < 0 || from >= t.len() {
        None
    } else if opens_group(t, from) {
        Some(from)
    } else {
        group_from(t, from + 1)
    }
}

/// Characters that cannot stand in a bare address.
pub open spec fn address_break(c: char) -> bool {
    c == '<' || c == '>' || whitespace(c)
}

/// A bare address: no angle bracket, no white space, and exactly one `@`,
/// which is neither the first nor the last character.
pub open spec fn bare_address(t: Seq<char>) -> bool {
    let at = run_len(t, CharClass::Only('@'), false) as int;
    &&& forall|k: int| 0 <= k < t.len() ==> !address_break(#[trigger] t[k])
    &&& 0 < at < t.len() - 1
    &&& forall|m: int| at < m < t.len() ==> #[trigger] t[m] != '@'
}

/// The address that an envelope argument holds, if it holds one: the content
/// of the leftmost bracket group of the trimmed argument; without any group,
/// the trimmed argument itself where it is a bare address.
pub open spec fn extracted(input: Seq<char>) -> Option<Seq<char>> {
    let t = trimmed(input);
    match group_from(t, 0) {
        Some(i) => Some(t.subrange(i + 1, closing_index(t, i))),
        None => if bare_address(t) {
            Some(t)
        } else {
            None
        },
    }
}

/// `group_from` returns the leftmost group.
pub proof fn lemma_group_from(t: Seq<char>, from: int)
    requires
        0 <= from,
    ensures
        match group_from(t, from) {
            Some(i) => from <= i && opens_group(t, i) && forall|k: int|
                from <= k < i ==> !opens_group(t, k),
            None => forall|k: int| from <= k ==> !opens_group(t, k),
        },
    decreases t.len() - from,
{
    if from < t.len() && !opens_group(t, from) {
        lemma_group_from(t, from + 1);
    }
}

/// Where no character from `from` on is a `<`, no group opens there.
pub proof fn lemma_no_group_without_bracket(t: Seq<char>, from: int)
    requires
        0 <= from,
        forall|k: int| from <= k < t.len() ==> #[trigger] t[k] != '<',
    ensures
        group_from(t, from) is None,
    decreases t.len() - from,
{
    if from < t.len() {
        lemma_no_group_without_bracket(t, from + 1);
    }
}

/// Where the text from `i + 1` on holds no `>`, no group opens at or after `i`.
proof fn lemma_no_group_without_closing(t: Seq<char>, i: int, k: int)
    requires
        0 <= i <= k < t.len(),
        closing_index(t, i) == t.len(),
    ensures
        !opens_group(t, k),
{
    lemma_run_len(t.skip(i + 1), CharClass::Only('>'), false);
    let u = t.skip(k + 1);
    assert forall|m: int| 0 <= m < u.len() implies CharClass::Only('>').holds(#[trigger] u[m])
        == false by {
        assert(u[m] == t.skip(i + 1)[m + k - i]);
    }
    lemma_run_len_unique(u, CharClass::Only('>'), false, u.len() as int);
}

/// Extracts the address from a sender or recipient argument.
///
/// Returns the content of the first bracket group of the trimmed argument; if
/// there is no group, the trimmed argument where it is a bare address; else
/// nothing.
pub fn extract_email(input: &str) -> (r: Option<&str>)
    ensures
        match r {
            Some(s) => extracted(input@) == Some(s@),
            None => extracted(input@) is None,
        },
{
    let cs = chars_of(input);
    let (a, b) = trim_bounds(cs.as_slice(), 0, cs.len());
    let t = vstd::slice::slice_subrange(cs.as_slice(), a, b);
    assert(cs@.subrange(0, cs@.len() as int) == cs@);
    assert(t@ == trimmed(input@));
    let mut i: usize = 0;
    while i < t.len()
        invariant
            i <= t@.len(),
            a <= b <= cs@.len() <= usize::MAX,
            cs@ == input@,
            t@ == cs@.subrange(a as int, b as int),
            t@ == trimmed(input@),
            forall|k: int| 0 <= k < i ==> !opens_group(t@, k),
        decreases t@.len() - i,
    {
        if t[i] == '<' {
            let j = scan(t, i + 1, CharClass::Only('>'), false);
            assert(j == closing_index(t@, i as int));
            if j == t.len() {
                // no `>` is left, so no group opens further on either
                proof {
                    assert forall|k: int| 0 <= k < t@.len() implies !opens_group(t@, k) by {
                        if k >= i {
                            lemma_no_group_without_closing(t@, i as int, k);
                        }
                    }
                }
                i = t.len();
            } else if i + 1 < j {
                proof {
                    lemma_group_from(t@, 0);
                    assert(opens_group(t@, i as int));
                    assert(group_from(t@, 0) == Some(i as int));
                    assert(cs@.subrange(a + i + 1, a + j) == t@.subrange(i + 1, j as int));
                }
                return Some(input.substring_char(a + i + 1, a + j));
            } else {
                i += 1;
            }
        } else {
            i += 1;
        }
    }
    proof {
        lemma_group_from(t@, 0);
    }
    if is_bare_address(t) {
        proof {
            assert(cs@.subrange(a as int, b as int) == t@);
        }
        Some(input.substring_char(a, b))
    } else {
        None
    }
}

/// Whether `t` is a bare address.
pub fn is_bare_address(t: &[char]) -> (r: bool)
    ensures
        r == bare_address(t@),
{
    let mut k: usize = 0;
    while k < t.len()
        invariant
            k <= t@.len(),
            forall|m: int| 0 <= m < k ==> !address_break(#[trigger] t@[m]),
        decreases t@.len() - k,
    {
        let c = t[k];
        if c == '<' || c == '>' || CharClass::Whitespace.contains(c) {
            assert(address_break(t@[k as int]));
            return false;
        }
        k += 1;
    }
    let at = scan(t, 0, CharClass::Only('@'), false);
    assert(t@.skip(0) == t@);
    if at == 0 || at >= t.len() - 1 {
        return false;
    }
    let rest = scan(t, at + 1, CharClass::Only('@'), false);
    proof {
        let u = t@.skip(at + 1);
        lemma_run_len(u, CharClass::Only('@'), false);
        if rest == t@.len() {
            assert forall|m: int| at < m < t@.len() implies #[trigger] t@[m] != '@' by {
                assert(t@[m] == u[m - at - 1]);
                assert(!CharClass::Only('@').holds(u[m - at - 1]));
            }
        } else {
            assert(t@[rest as int] == u[rest - at - 1]);
            assert(CharClass::Only('@').holds(u[rest - at - 1]));
        }
    }
    rest == t.len()
}

/// An extracted address is not empty.
pub proof fn lemma_extracted_not_empty(input: Seq<char>)
    ensures
        extracted(input) matches Some(e) ==> e.len() > 0,
{
    let t = trimmed(input);
    lemma_group_from(t, 0);
}

/// A bare address is its own trimmed form.
pub proof fn lemma_bare_address_is_trimmed(e: Seq<char>)
    requires
        bare_address(e),
    ensures
        trimmed(e) == e,
{
    assert(!address_break(e[0]));
    assert(!address_break(e[e.len() - 1]));
    assert(e.skip(0) == e);
    assert(e.take(e.len() as int) == e);
}

/// In `p + "<" + e + ">"`, where `p` holds no `<` and `e` is not empty and
/// holds no `>`, the leftmost group is the one around `e`.
proof fn lemma_group_around(p: Seq<char>, e: Seq<char>)
    requires
        forall|k: int| 0 <= k < p.len() ==> #[trigger] p[k] != '<',
        e.len() > 0,
        forall|k: int| 0 <= k < e.len() ==> #[trigger] e[k] != '>',
    ensures
        ({
            let t = p + seq!['<'] + e + seq!['>'];
            &&& group_from(t, 0) == Some(p.len() as int)
            &&& t.subrange(p.len() as int + 1, closing_index(t, p.len() as int)) == e
        }),
{
    let t = p + seq!['<'] + e + seq!['>'];
    let i = p.len() as int;
    let u = t.skip(i + 1);
    assert forall|m: int| 0 <= m < e.len() implies CharClass::Only('>').holds(#[trigger] u[m])
        == false by {
        assert(u[m] == e[m]);
    }
    assert(u[e.len() as int] == '>');
    lemma_run_len_unique(u, CharClass::Only('>'), false, e.len() as int);
    assert(closing_index(t, i) == i + 1 + e.len());
    assert(t[i] == '<');
    assert(opens_group(t, i));
    lemma_group_from(t, 0);
    assert forall|k: int| 0 <= k < i implies !opens_group(t, k) by {
        assert(t[k] == p[k]);
    }
    assert(t.subrange(i + 1, i + 1 + e.len()) =~= e);
}

/// Whatever stands before the leftmost `<`, the address in the group behind
/// it is what comes out: `p` holds no `<`, and `e` is not empty and holds no
/// `>`.
pub proof fn lemma_extracted_bracketed(p: Seq<char>, e: Seq<char>)
    requires
        forall|k: int| 0 <= k < p.len() ==> #[trigger] p[k] != '<',
        e.len() > 0,
        forall|k: int| 0 <= k < e.len() ==> #[trigger] e[k] != '>',
    ensures
        extracted(p + seq!['<'] + e + seq!['>']) == Some(e),
{
    let d = p + seq!['<'] + e + seq!['>'];
    let k = run_len(d, CharClass::Whitespace, true) as int;
    lemma_run_len(d, CharClass::Whitespace, true);
    assert(d[p.len() as int] == '<');
    assert(!whitespace('<') && !whitespace('>'));
    assert(k <= p.len());
    let t = d.skip(k);
    assert(t.last() == '>');
    assert(t.take(t.len() as int) == t);
    assert(trimmed(d) == t);
    let q = p.skip(k);
    assert(t =~= q + seq!['<'] + e + seq!['>']);
    lemma_group_around(q, e);
}

/// An address is found again in each of the three forms in which it may be
/// written: alone, in angle brackets, and in angle brackets behind a display
/// name that holds no `<`.
pub proof fn law_address_forms(name: Seq<char>, e: Seq<char>)
    requires
        bare_address(e),
        forall|k: int| 0 <= k < name.len() ==> #[trigger] name[k] != '<',
    ensures
        extracted(e) == Some(e),
        extracted(seq!['<'] + e + seq!['>']) == Some(e),
        extracted(name + seq![' ', '<'] + e + seq!['>']) == Some(e),
{
    assert forall|k: int| 0 <= k < e.len() implies #[trigger] e[k] != '>' && e[k] != '<' by {
        assert(!address_break(e[k]));
    }
    lemma_bare_address_is_trimmed(e);
    lemma_no_group_without_bracket(e, 0);
    let none = Seq::<char>::empty();
    assert(seq!['<'] + e + seq!['>'] =~= none + seq!['<'] + e + seq!['>']);
    lemma_extracted_bracketed(none, e);
    let p = name + seq![' '];
    assert(name + seq![' ', '<'] + e + seq!['>'] =~= p + seq!['<'] + e + seq!['>']);
    lemma_extracted_bracketed(p, e);
}

} // verus!

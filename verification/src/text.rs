//! The mathematical model of the text this library searches: simple case
//! folding, literal substring containment, and splitting a body of text into
//! lines, together with the executable character-level helpers.

use vstd::prelude::*;
use vstd::string::StrSliceExecFns;

verus! {

/// Simple, locale-independent lowercasing of one character: ASCII uppercase
/// letters map to their lowercase counterparts, every other character is
/// unchanged.
pub open spec fn lower_char(c: char) -> char {
    if 'A' <= c && c <= 'Z' {
        (((c as u32) + 32) as u8) as char
    } else {
        c
    }
}

/// A sequence of characters, lowercased character by character.
pub open spec fn lower_seq(s: Seq<char>) -> Seq<char> {
    s.map_values(|c: char| lower_char(c))
}

/// The text as the matching predicate sees it: folded to lowercase for a
/// case-insensitive search, untouched for a case-sensitive one.
pub open spec fn fold_case(s: Seq<char>, insensitive: bool) -> Seq<char> {
    if insensitive {
        lower_seq(s)
    } else {
        s
    }
}

/// `pat` occurs in `text` as a contiguous run starting at position `i`.
pub open spec fn occurs_at(text: Seq<char>, pat: Seq<char>, i: int) -> bool {
    0 <= i && i + pat.len() <= text.len() && text.subrange(i, i + pat.len()) == pat
}

/// `pat` occurs somewhere in `text` as a contiguous run (literal substring
/// containment; the empty pattern is contained in every text).
pub open spec fn contains_seq(text: Seq<char>, pat: Seq<char>) -> bool {
    exists|i: int| occurs_at(text, pat, i)
}

/// Position of the first newline character in `s`, or `s.len()` if there is
/// none.
pub open spec fn first_newline(s: Seq<char>) -> int
    decreases s.len(),
{
    if s.len() == 0 {
        0
    } else if s[0] == '\n' {
        0
    } else {
        1 + first_newline(s.drop_first())
    }
}

/// `first_newline` is what its name says: everything before it is not a
/// newline, and it points at a newline unless `s` has none.
pub proof fn lemma_first_newline(s: Seq<char>)
    ensures
        0 <= first_newline(s) <= s.len(),
        forall|j: int| 0 <= j < first_newline(s) ==> s[j] != '\n',
        first_newline(s) < s.len() ==> s[first_newline(s)] == '\n',
    decreases s.len(),
{
    if s.len() == 0 {
    } else if s[0] == '\n' {
    } else {
        lemma_first_newline(s.drop_first());
        assert forall|j: int| 0 <= j < first_newline(s) implies s[j] != '\n' by {
            if j > 0 {
                assert(s.drop_first()[j - 1] != '\n');
            }
        }
        if first_newline(s) < s.len() {
            assert(s[first_newline(s)] == s.drop_first()[first_newline(s) - 1]);
        }
    }
}

/// A position with the properties of `first_newline` is `first_newline`.
pub proof fn lemma_first_newline_unique(s: Seq<char>, k: int)
    requires
        0 <= k <= s.len(),
        forall|j: int| 0 <= j < k ==> s[j] != '\n',
        k < s.len() ==> s[k] == '\n',
    ensures
        first_newline(s) == k,
{
    lemma_first_newline(s);
    if first_newline(s) < k {
        assert(s[first_newline(s)] == '\n');
        assert(s[first_newline(s)] != '\n');
    }
    if k < first_newline(s) {
        assert(s[k] != '\n');
    }
}

/// `l` ends with a carriage return.
pub open spec fn ends_with_cr(l: Seq<char>) -> bool {
    l.len() > 0 && l.last() == '\r'
}

/// A line terminated by a newline loses one trailing carriage return, so that
/// both `\n` and `\r\n` act as line breaks.
pub open spec fn strip_cr(l: Seq<char>) -> Seq<char> {
    if l.len() > 0 && l.last() == '\r' {
        l.drop_last()
    } else {
        l
    }
}

/// The lines of `s`: the pieces between newline characters, in order. A piece
/// terminated by a newline loses one trailing carriage return; text ending at
/// a newline yields no trailing empty line; a final piece not terminated by a
/// newline is kept whole.
pub open spec fn spec_lines(s: Seq<char>) -> Seq<Seq<char>>
    decreases s.len(),
    via spec_lines_decreases
{
    if s.len() == 0 {
        Seq::empty()
    } else {
        let k = first_newline(s);
        if k == s.len() {
            seq![s]
        } else {
            seq![strip_cr(s.subrange(0, k))] + spec_lines(s.subrange(k + 1, s.len() as int))
        }
    }
}

#[via_fn]
proof fn spec_lines_decreases(s: Seq<char>) {
    lemma_first_newline(s);
}

/// The inverse of line splitting: the given lines joined by single newline
/// characters.
pub open spec fn join_lines(ls: Seq<Seq<char>>) -> Seq<char>
    decreases ls.len(),
{
    if ls.len() == 0 {
        Seq::empty()
    } else if ls.len() == 1 {
        ls[0]
    } else {
        ls[0] + seq!['\n'] + join_lines(ls.drop_first())
    }
}

/// `l` holds no newline character.
pub open spec fn no_newline(l: Seq<char>) -> bool {
    forall|j: int| 0 <= j < l.len() ==> l[j] != '\n'
}

/// No line produced by `spec_lines` holds a newline character.
pub proof fn lemma_lines_no_newline(s: Seq<char>)
    ensures
        forall|i: int|
            0 <= i < spec_lines(s).len() ==> no_newline(#[trigger] spec_lines(s)[i]),
    decreases s.len(),
{
    lemma_first_newline(s);
    if s.len() == 0 {
    } else {
        let k = first_newline(s);
        if k == s.len() {
            assert(no_newline(s));
        } else {
            lemma_lines_no_newline(s.subrange(k + 1, s.len() as int));
            let piece = s.subrange(0, k);
            assert(no_newline(piece));
            assert(no_newline(strip_cr(piece)));
            assert(forall|i: int|
                1 <= i < spec_lines(s).len() ==> #[trigger] spec_lines(s)[i] == spec_lines(
                    s.subrange(k + 1, s.len() as int),
                )[i - 1]);
        }
    }
}

/// Executable counterpart of `lower_char`.
pub fn to_lower_char(c: char) -> (r: char)
    ensures
        r == lower_char(c),
{
    if 'A' <= c && c <= 'Z' {
        (((c as u32) + 32) as u8) as char
    } else {
        c
    }
}

/// The characters of `s`, collected into a vector.
pub fn chars_of(s: &str) -> (v: Vec<char>)
    ensures
        v@ == s@,
{
    let n = s.unicode_len();
    let mut v: Vec<char> = Vec::new();
    let mut i: usize = 0;
    while i < n
        invariant
            i <= n,
            n == s@.len(),
            v@ == s@.subrange(0, i as int),
        decreases n - i,
    {
        let c = s.get_char(i);
        v.push(c);
        i = i + 1;
        proof {
            assert(v@ =~= s@.subrange(0, i as int));
        }
    }
    proof {
        assert(v@ =~= s@);
    }
    v
}

} // verus!

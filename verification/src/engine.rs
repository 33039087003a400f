//! The search engine: which lines of a body of text match a query, and the
//! executable scan that collects exactly those lines.

use vstd::prelude::*;
use vstd::string::StrSliceExecFns;

use crate::config::SearchSettings;
use crate::text::chars_of;
use crate::text::contains_seq;
use crate::text::fold_case;
use crate::text::lemma_first_newline;
use crate::text::occurs_at;
use crate::text::spec_lines;
use crate::text::strip_cr;
use crate::text::to_lower_char;

verus! {

/// Whether a mode folds case before matching.
pub open spec fn spec_is_insensitive(mode: SearchSettings) -> bool {
    mode is CaseInsensitive
}

/// The matching predicate for one line: the line contains the query as a
/// literal substring, both folded to lowercase in case-insensitive mode.
pub open spec fn line_matches(line: Seq<char>, query: Seq<char>, mode: SearchSettings) -> bool {
    contains_seq(
        fold_case(line, spec_is_insensitive(mode)),
        fold_case(query, spec_is_insensitive(mode)),
    )
}

/// The matching predicate, as a function of the line alone.
pub open spec fn matches_pred(query: Seq<char>, mode: SearchSettings) -> spec_fn(Seq<char>) -> bool {
    |l: Seq<char>| line_matches(l, query, mode)
}

/// The lines among `ls` that match the query, in order.
pub open spec fn filter_matching(
    ls: Seq<Seq<char>>,
    query: Seq<char>,
    mode: SearchSettings,
) -> Seq<Seq<char>> {
    ls.filter(matches_pred(query, mode))
}

/// What a search returns: exactly the matching lines of the content, in their
/// original order.
pub open spec fn spec_search(
    query: Seq<char>,
    content: Seq<char>,
    mode: SearchSettings,
) -> Seq<Seq<char>> {
    filter_matching(spec_lines(content), query, mode)
}

pub proof fn lemma_filter_matching_empty(query: Seq<char>, mode: SearchSettings)
    ensures
        filter_matching(Seq::empty(), query, mode) == Seq::<Seq<char>>::empty(),
{
    reveal(Seq::filter);
}

pub proof fn lemma_filter_matching_push(
    a: Seq<Seq<char>>,
    l: Seq<char>,
    query: Seq<char>,
    mode: SearchSettings,
)
    ensures
        filter_matching(a + seq![l], query, mode) == (if line_matches(l, query, mode) {
            filter_matching(a, query, mode).push(l)
        } else {
            filter_matching(a, query, mode)
        }),
{
    reveal(Seq::filter);
    let p = matches_pred(query, mode);
    Seq::filter_distributes_over_add(a, seq![l], p);
    assert(seq![l].drop_last() =~= Seq::<Seq<char>>::empty());
    assert(seq![l].last() == l);
    if line_matches(l, query, mode) {
        assert(seq![l].filter(p) =~= seq![l]);
        assert(a.filter(p) + seq![l] =~= a.filter(p).push(l));
    } else {
        assert(!p(l));
        assert(seq![l].filter(p) == seq![l].drop_last().filter(p));
        assert(Seq::<Seq<char>>::empty().filter(p) == Seq::<Seq<char>>::empty());
        assert(a.filter(p) + Seq::<Seq<char>>::empty() =~= a.filter(p));
    }
}

/// Whether the characters `text[at .. at + pat.len()]` equal the pattern,
/// after optional case folding of both sides.
fn occurs_here(
    text: &Vec<char>,
    start: usize,
    stop: usize,
    pat: &Vec<char>,
    at: usize,
    insensitive: bool,
) -> (b: bool)
    requires
        start <= stop <= text@.len(),
        start <= at,
        at + pat@.len() <= stop,
    ensures
        b == occurs_at(
            fold_case(text@.subrange(start as int, stop as int), insensitive),
            fold_case(pat@, insensitive),
            at - start,
        ),
{
    let ghost fl = fold_case(text@.subrange(start as int, stop as int), insensitive);
    let ghost fp = fold_case(pat@, insensitive);
    let ghost k: int = at - start;
    let m = pat.len();
    let mut j: usize = 0;
    while j < m
        invariant
            j <= m,
            m == pat@.len(),
            start <= at,
            at + m <= stop <= text@.len(),
            fl == fold_case(text@.subrange(start as int, stop as int), insensitive),
            fp == fold_case(pat@, insensitive),
            k == at - start,
            forall|t: int| 0 <= t < j ==> fl[k + t] == fp[t],
        decreases m - j,
    {
        let a = if insensitive {
            to_lower_char(text[at + j])
        } else {
            text[at + j]
        };
        let b = if insensitive {
            to_lower_char(pat[j])
        } else {
            pat[j]
        };
        proof {
            assert(fl[k + j] == a);
            assert(fp[j as int] == b);
        }
        if a != b {
            proof {
                assert(!occurs_at(fl, fp, k)) by {
                    if occurs_at(fl, fp, k) {
                        assert(fl.subrange(k, k + fp.len() as int)[j as int] == fp[j as int]);
                    }
                }
            }
            return false;
        }
        j = j + 1;
    }
    proof {
        assert(fl.subrange(k, k + fp.len() as int) =~= fp);
    }
    true
}

/// Whether the line `text[start .. stop]` contains the pattern as a literal
/// substring, after optional case folding of both sides.
fn line_contains(
    text: &Vec<char>,
    start: usize,
    stop: usize,
    pat: &Vec<char>,
    insensitive: bool,
) -> (b: bool)
    requires
        start <= stop <= text@.len(),
    ensures
        b == contains_seq(
            fold_case(text@.subrange(start as int, stop as int), insensitive),
            fold_case(pat@, insensitive),
        ),
{
    let ghost fl = fold_case(text@.subrange(start as int, stop as int), insensitive);
    let ghost fp = fold_case(pat@, insensitive);
    let m = pat.len();
    if m > stop - start {
        proof {
            assert(forall|i: int| !occurs_at(fl, fp, i));
        }
        return false;
    }
    if m == 0 {
        proof {
            assert(fl.subrange(0, 0) =~= fp);
            assert(occurs_at(fl, fp, 0));
        }
        return true;
    }
    let mut at: usize = start;
    while at <= stop - m
        invariant
            start <= at,
            at <= stop - m + 1,
            0 < m <= stop - start,
            stop <= text@.len(),
            m == pat@.len(),
            fl == fold_case(text@.subrange(start as int, stop as int), insensitive),
            fp == fold_case(pat@, insensitive),
            forall|k: int| 0 <= k < at - start ==> !occurs_at(fl, fp, k),
        decreases stop - at,
    {
        if occurs_here(text, start, stop, pat, at, insensitive) {
            proof {
                assert(occurs_at(fl, fp, at - start));
            }
            return true;
        }
        at = at + 1;
    }
    proof {
        assert forall|k: int| !occurs_at(fl, fp, k) by {
            if 0 <= k < at - start {
            } else if k >= at - start {
                assert(k + fp.len() > fl.len());
            }
        }
    }
    false
}

/// Returns, in their original order and with their original casing, exactly
/// the lines of `content` that contain `query` — compared exactly in
/// case-sensitive mode, and after simple lowercasing of both sides in
/// case-insensitive mode. An empty query matches every line.
pub fn search<'a>(query: &str, content: &'a str, settings: &SearchSettings) -> (r: Vec<&'a str>)
    ensures
        r.deep_view() == spec_search(query@, content@, *settings),
{
    let insensitive = match settings {
        SearchSettings::CaseInsensitive => true,
        SearchSettings::CaseSensitive => false,
    };
    let q = chars_of(query);
    let text = chars_of(content);
    let n = text.len();
    let mut result: Vec<&'a str> = Vec::new();
    let ghost mut done: Seq<Seq<char>> = Seq::empty();
    let mut start: usize = 0;
    proof {
        lemma_filter_matching_empty(query@, *settings);
        assert(result.deep_view() =~= Seq::<Seq<char>>::empty());
        assert(content@.subrange(0, n as int) =~= content@);
        assert(done + spec_lines(content@) =~= spec_lines(content@));
    }
    while start < n
        invariant
            start <= n,
            n == text@.len(),
            text@ == content@,
            q@ == query@,
            insensitive == spec_is_insensitive(*settings),
            spec_lines(content@) == done + spec_lines(
                content@.subrange(start as int, n as int),
            ),
            result.deep_view() == filter_matching(done, query@, *settings),
        decreases n - start,
    {
        let mut end: usize = start;
        while end < n && text[end] != '\n'
            invariant
                start <= end <= n,
                n == text@.len(),
                forall|j: int| start <= j < end ==> text@[j] != '\n',
            decreases n - end,
        {
            end = end + 1;
        }
        let stop = if end < n && end > start && text[end - 1] == '\r' {
            end - 1
        } else {
            end
        };
        let ghost s = content@.subrange(start as int, n as int);
        let ghost line = content@.subrange(start as int, stop as int);
        proof {
            lemma_first_newline(s);
            assert forall|j: int| 0 <= j < end - start implies s[j] != '\n' by {
                assert(text@[start + j] != '\n');
            }
            if end < n {
                assert(s[end - start] == '\n');
            }
            assert(crate::text::first_newline(s) == end - start);
            if end == n {
                assert(spec_lines(s) == seq![s]);
                assert(line == s);
            } else {
                let piece = s.subrange(0, end - start);
                assert(piece =~= content@.subrange(start as int, end as int));
                assert(s.subrange(end - start + 1, s.len() as int) =~= content@.subrange(
                    end + 1,
                    n as int,
                ));
                if end > start && content@[end - 1] == '\r' {
                    assert(piece.last() == '\r');
                    assert(strip_cr(piece) =~= line);
                } else {
                    assert(strip_cr(piece) =~= line);
                }
                assert(spec_lines(s) == seq![line] + spec_lines(
                    content@.subrange(end + 1, n as int),
                ));
            }
        }
        let matched = line_contains(&text, start, stop, &q, insensitive);
        proof {
            assert(matched == line_matches(line, query@, *settings));
        }
        if matched {
            let piece = content.substring_char(start, stop);
            result.push(piece);
        }
        proof {
            lemma_filter_matching_push(done, line, query@, *settings);
            if matched {
                assert(result.deep_view() =~= filter_matching(
                    done,
                    query@,
                    *settings,
                ).push(line));
            }
            done = done + seq![line];
            assert(result.deep_view() == filter_matching(done, query@, *settings));
            if end == n {
                assert(content@.subrange(n as int, n as int) =~= Seq::<char>::empty());
                assert(spec_lines(Seq::<char>::empty()) == Seq::<Seq<char>>::empty());
                assert(done + Seq::<Seq<char>>::empty() =~= done);
            } else {
                assert(spec_lines(content@) =~= done + spec_lines(
                    content@.subrange(end + 1, n as int),
                ));
            }
        }
        start = if end < n {
            end + 1
        } else {
            n
        };
    }
    proof {
        assert(content@.subrange(start as int, n as int) =~= Seq::<char>::empty());
        assert(spec_lines(content@) =~= done);
    }
    result
}

} // verus!

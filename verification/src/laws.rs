//! General properties of the search engine, stated and proved over its
//! mathematical model.

use vstd::prelude::*;

use crate::config::SearchSettings;
use crate::engine::filter_matching;
use crate::engine::line_matches;
use crate::engine::matches_pred;
use crate::engine::spec_search;
use crate::text::ends_with_cr;
use crate::text::first_newline;
use crate::text::fold_case;
use crate::text::join_lines;
use crate::text::lemma_first_newline_unique;
use crate::text::lemma_lines_no_newline;
use crate::text::lower_seq;
use crate::text::no_newline;
use crate::text::occurs_at;
use crate::text::spec_lines;
use crate::text::strip_cr;

verus! {

/// `sub` is a subsequence of `sup`: its elements appear in `sup` in the same
/// order, though not necessarily adjacently.
pub open spec fn is_subseq_of(sub: Seq<Seq<char>>, sup: Seq<Seq<char>>) -> bool
    decreases sup.len(),
{
    if sub.len() == 0 {
        true
    } else if sup.len() == 0 {
        false
    } else if sub.last() == sup.last() {
        is_subseq_of(sub.drop_last(), sup.drop_last())
    } else {
        is_subseq_of(sub, sup.drop_last())
    }
}

/// A subsequence stays one when its own last element is dropped.
proof fn lemma_subseq_drop_last(sub: Seq<Seq<char>>, sup: Seq<Seq<char>>)
    requires
        sub.len() > 0,
        is_subseq_of(sub, sup),
    ensures
        is_subseq_of(sub.drop_last(), sup),
    decreases sup.len(),
{
    let a = sub.drop_last();
    if sub.last() == sup.last() {
        if a.len() == 0 {
        } else if a.last() == sup.last() {
            lemma_subseq_drop_last(a, sup.drop_last());
        } else {
        }
    } else {
        lemma_subseq_drop_last(sub, sup.drop_last());
        if a.len() == 0 {
        } else if a.last() == sup.last() {
            lemma_subseq_drop_last(a, sup.drop_last());
        } else {
        }
    }
}

/// A subsequence stays one when the larger sequence grows at the end.
proof fn lemma_subseq_sup_push(sub: Seq<Seq<char>>, sup: Seq<Seq<char>>, x: Seq<char>)
    requires
        is_subseq_of(sub, sup),
    ensures
        is_subseq_of(sub, sup.push(x)),
{
    if sub.len() > 0 {
        assert(sup.push(x).drop_last() =~= sup);
        assert(sup.push(x).last() == x);
        if sub.last() == x {
            lemma_subseq_drop_last(sub, sup);
        }
    }
}

/// Every element of a subsequence is an element of the larger sequence.
proof fn lemma_subseq_contains(sub: Seq<Seq<char>>, sup: Seq<Seq<char>>, x: Seq<char>)
    requires
        is_subseq_of(sub, sup),
        sub.contains(x),
    ensures
        sup.contains(x),
    decreases sup.len(),
{
    if sub.last() == sup.last() {
        if x == sub.last() {
            assert(sup[sup.len() - 1] == x);
        } else {
            let i = choose|i: int| 0 <= i < sub.len() && sub[i] == x;
            assert(sub.drop_last()[i] == x);
            lemma_subseq_contains(sub.drop_last(), sup.drop_last(), x);
            let j = choose|j: int|
                0 <= j < sup.drop_last().len() && sup.drop_last()[j] == x;
            assert(sup[j] == x);
        }
    } else {
        lemma_subseq_contains(sub, sup.drop_last(), x);
        let j = choose|j: int| 0 <= j < sup.drop_last().len() && sup.drop_last()[j] == x;
        assert(sup[j] == x);
    }
}

/// What filtering keeps is a subsequence of what it was given.
proof fn lemma_filter_is_subseq(ls: Seq<Seq<char>>, query: Seq<char>, mode: SearchSettings)
    ensures
        is_subseq_of(filter_matching(ls, query, mode), ls),
    decreases ls.len(),
{
    reveal(Seq::filter);
    let p = matches_pred(query, mode);
    if ls.len() > 0 {
        lemma_filter_is_subseq(ls.drop_last(), query, mode);
        let f = ls.drop_last().filter(p);
        if p(ls.last()) {
            assert(ls.filter(p) == f.push(ls.last()));
            assert(f.push(ls.last()).drop_last() =~= f);
            assert(f.push(ls.last()).last() == ls.last());
        } else {
            lemma_subseq_sup_push(f, ls.drop_last(), ls.last());
            assert(ls.drop_last().push(ls.last()) =~= ls);
        }
    }
}

/// Every line returned by a search is a line literally present in the content,
/// and the returned lines keep their original order of appearance: the result
/// is a subsequence of the content's lines.
pub proof fn lemma_search_sound(query: Seq<char>, content: Seq<char>, mode: SearchSettings)
    ensures
        is_subseq_of(spec_search(query, content, mode), spec_lines(content)),
        forall|i: int|
            0 <= i < spec_search(query, content, mode).len() ==> spec_lines(content).contains(
                #[trigger] spec_search(query, content, mode)[i],
            ),
{
    lemma_filter_is_subseq(spec_lines(content), query, mode);
    let out = spec_search(query, content, mode);
    assert forall|i: int|
        0 <= i < out.len() implies spec_lines(content).contains(#[trigger] out[i]) by {
        assert(out.contains(out[i]));
        lemma_subseq_contains(out, spec_lines(content), out[i]);
    }
}

/// An exact match is still a match after both sides are lowercased.
proof fn lemma_match_survives_folding(l: Seq<char>, query: Seq<char>)
    requires
        line_matches(l, query, SearchSettings::CaseSensitive),
    ensures
        line_matches(l, query, SearchSettings::CaseInsensitive),
{
    let m = query.len() as int;
    let i = choose|i: int| occurs_at(l, query, i);
    assert(lower_seq(l).subrange(i, i + m) =~= lower_seq(query)) by {
        assert forall|t: int|
            0 <= t < m implies lower_seq(l).subrange(i, i + m)[t] == lower_seq(query)[t] by {
            assert(l.subrange(i, i + m)[t] == query[t]);
        }
    }
    assert(occurs_at(lower_seq(l), lower_seq(query), i));
}

/// The case-insensitive result is a superset of the case-sensitive result for
/// the same query and content.
pub proof fn lemma_insensitive_superset(query: Seq<char>, content: Seq<char>)
    ensures
        forall|l: Seq<char>|
            #[trigger] spec_search(query, content, SearchSettings::CaseSensitive).contains(l)
                ==> spec_search(query, content, SearchSettings::CaseInsensitive).contains(l),
{
    let lines = spec_lines(content);
    let sensitive = spec_search(query, content, SearchSettings::CaseSensitive);
    assert forall|l: Seq<char>|
        #[trigger] sensitive.contains(l) implies spec_search(
        query,
        content,
        SearchSettings::CaseInsensitive,
    ).contains(l) by {
        let i = choose|i: int| 0 <= i < sensitive.len() && sensitive[i] == l;
        lines.lemma_filter_pred(matches_pred(query, SearchSettings::CaseSensitive), i);
        lemma_search_sound(query, content, SearchSettings::CaseSensitive);
        let j = choose|j: int| 0 <= j < lines.len() && lines[j] == l;
        lemma_match_survives_folding(l, query);
        lines.lemma_filter_contains(matches_pred(query, SearchSettings::CaseInsensitive), j);
    }
}

/// Joining lines with newlines and splitting again gives the lines back,
/// provided no line holds a newline, no line but the last ends with a
/// carriage return, and the last line is not empty.
proof fn lemma_lines_of_join(ls: Seq<Seq<char>>)
    requires
        forall|i: int| 0 <= i < ls.len() ==> no_newline(#[trigger] ls[i]),
        forall|i: int| 0 <= i < ls.len() - 1 ==> !ends_with_cr(#[trigger] ls[i]),
        ls.len() > 0 ==> ls.last().len() > 0,
    ensures
        spec_lines(join_lines(ls)) == ls,
    decreases ls.len(),
{
    if ls.len() == 0 {
        assert(spec_lines(join_lines(ls)) =~= ls);
    } else if ls.len() == 1 {
        let j = join_lines(ls);
        assert(j == ls[0]);
        assert(ls.last() == ls[0]);
        assert(no_newline(ls[0]));
        lemma_first_newline_unique(j, j.len() as int);
        assert(spec_lines(j) == seq![j]);
        assert(seq![j] =~= ls);
    } else {
        let j = join_lines(ls);
        let head = ls[0];
        let rest = join_lines(ls.drop_first());
        let k = head.len() as int;
        assert(j == head + seq!['\n'] + rest);
        assert(j[k] == '\n');
        assert forall|t: int| 0 <= t < k implies j[t] != '\n' by {
            assert(j[t] == head[t]);
            assert(no_newline(head));
        }
        lemma_first_newline_unique(j, k);
        assert(first_newline(j) == k);
        assert(j.subrange(0, k) =~= head);
        assert(!ends_with_cr(head));
        assert(strip_cr(head) == head);
        assert(j.subrange(k + 1, j.len() as int) =~= rest);
        assert forall|i: int|
            0 <= i < ls.drop_first().len() implies no_newline(#[trigger] ls.drop_first()[i]) by {
            assert(ls.drop_first()[i] == ls[i + 1]);
        }
        assert forall|i: int|
            0 <= i < ls.drop_first().len() - 1 implies !ends_with_cr(
            #[trigger] ls.drop_first()[i],
        ) by {
            assert(ls.drop_first()[i] == ls[i + 1]);
        }
        assert(ls.drop_first().last() == ls.last());
        lemma_lines_of_join(ls.drop_first());
        assert(spec_lines(j) == seq![head] + ls.drop_first());
        assert(seq![head] + ls.drop_first() =~= ls);
    }
}

/// Case-sensitive search is idempotent: joining the returned lines back into
/// one text and searching it with the same query returns them unchanged. The
/// two premises exclude exactly the line lists that no text reproduces when
/// joined with single newlines: a non-final returned line ending in a
/// carriage return, or an empty final returned line.
pub proof fn lemma_case_sensitive_idempotent(query: Seq<char>, content: Seq<char>)
    requires
        forall|i: int|
            0 <= i < spec_search(query, content, SearchSettings::CaseSensitive).len() - 1
                ==> !ends_with_cr(
                #[trigger] spec_search(query, content, SearchSettings::CaseSensitive)[i],
            ),
        spec_search(query, content, SearchSettings::CaseSensitive).len() > 0 ==> spec_search(
            query,
            content,
            SearchSettings::CaseSensitive,
        ).last().len() > 0,
    ensures
        spec_search(
            query,
            join_lines(spec_search(query, content, SearchSettings::CaseSensitive)),
            SearchSettings::CaseSensitive,
        ) == spec_search(query, content, SearchSettings::CaseSensitive),
{
    let out = spec_search(query, content, SearchSettings::CaseSensitive);
    let lines = spec_lines(content);
    lemma_lines_no_newline(content);
    lemma_search_sound(query, content, SearchSettings::CaseSensitive);
    assert forall|i: int| 0 <= i < out.len() implies no_newline(#[trigger] out[i]) by {
        assert(lines.contains(out[i]));
        let j = choose|j: int| 0 <= j < lines.len() && lines[j] == out[i];
    }
    lemma_lines_of_join(out);
    assert forall|i: int|
        0 <= i < out.len() implies line_matches(#[trigger] out[i], query,
        SearchSettings::CaseSensitive) by {
        lines.lemma_filter_pred(matches_pred(query, SearchSettings::CaseSensitive), i);
    }
    lemma_filter_matching_all(out, query, SearchSettings::CaseSensitive);
}

/// Filtering keeps a sequence of lines unchanged when every line matches.
pub proof fn lemma_filter_matching_all(ls: Seq<Seq<char>>, query: Seq<char>, mode: SearchSettings)
    requires
        forall|i: int| 0 <= i < ls.len() ==> line_matches(#[trigger] ls[i], query, mode),
    ensures
        filter_matching(ls, query, mode) == ls,
    decreases ls.len(),
{
    reveal(Seq::filter);
    let p = matches_pred(query, mode);
    if ls.len() == 0 {
        assert(ls.filter(p) =~= ls);
    } else {
        assert forall|i: int|
            0 <= i < ls.drop_last().len() implies line_matches(
            #[trigger] ls.drop_last()[i],
            query,
            mode,
        ) by {
            assert(ls.drop_last()[i] == ls[i]);
        }
        lemma_filter_matching_all(ls.drop_last(), query, mode);
        assert(line_matches(ls.last(), query, mode));
        assert(ls.filter(p) == ls.drop_last().filter(p).push(ls.last()));
        assert(ls.drop_last().push(ls.last()) =~= ls);
    }
}

/// An empty query matches every line: a case-sensitive search for it returns
/// all lines of the content unchanged.
pub proof fn lemma_empty_query_returns_all(content: Seq<char>)
    ensures
        spec_search(Seq::empty(), content, SearchSettings::CaseSensitive) == spec_lines(content),
{
    let ls = spec_lines(content);
    assert forall|i: int|
        0 <= i < ls.len() implies line_matches(
        #[trigger] ls[i],
        Seq::empty(),
        SearchSettings::CaseSensitive,
    ) by {
        let l = ls[i];
        assert(fold_case(l, false).subrange(0, 0) =~= fold_case(
            Seq::empty(),
            false,
        ));
        assert(occurs_at(fold_case(l, false), fold_case(Seq::empty(), false), 0));
    }
    lemma_filter_matching_all(ls, Seq::empty(), SearchSettings::CaseSensitive);
}

} // verus!

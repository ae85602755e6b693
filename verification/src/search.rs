//! The two search functions and the laws that relate them.

use crate::config::Config;
use crate::text::contains_substr;
use crate::text::has_substring;
use crate::text::lemma_empty_pat_matches;
use crate::text::lines_of;
use crate::text::split_lines;
use vstd::prelude::*;

verus! {

/// What `str::to_lowercase` returns for a string with these characters.
pub uninterp spec fn lower_of(s: Seq<char>) -> Seq<char>;

/// Relies on `str::to_lowercase`: the result depends on the characters of
/// `s` alone, and lowering an empty string leaves it empty.
#[verifier::external_body]
fn to_lowercase_str(s: &str) -> (r: String)
    ensures
        r@ == lower_of(s@),
        s@.len() == 0 ==> r@.len() == 0,
{
    s.to_lowercase()
}

/// A line matches exactly when it has the query as a contiguous substring.
pub open spec fn line_matches_sensitive(line: Seq<char>, query: Seq<char>) -> bool {
    has_substring(line, query)
}

/// A line matches case-insensitively when its lowered characters have the
/// lowered query as a contiguous substring.
pub open spec fn line_matches_insensitive(line: Seq<char>, query: Seq<char>) -> bool {
    has_substring(lower_of(line), lower_of(query))
}

/// The lines of `content` that match `query` exactly, in their original order.
pub open spec fn sensitive_matches(query: Seq<char>, content: Seq<char>) -> Seq<Seq<char>> {
    lines_of(content).filter(|l: Seq<char>| line_matches_sensitive(l, query))
}

/// The lines of `content` that match `query` after lowering both, in their
/// original order.
pub open spec fn insensitive_matches(query: Seq<char>, content: Seq<char>) -> Seq<Seq<char>> {
    lines_of(content).filter(|l: Seq<char>| line_matches_insensitive(l, query))
}

/// Filtering keeps exactly the elements that satisfy the predicate; a
/// predicate that holds of every element keeps the whole sequence.
proof fn lemma_filter_all<A>(s: Seq<A>, p: spec_fn(A) -> bool)
    requires
        forall|i: int| 0 <= i < s.len() ==> p(#[trigger] s[i]),
    ensures
        s.filter(p) == s,
    decreases s.len(),
{
    reveal(Seq::filter);
    if s.len() == 0 {
        assert(s.filter(p) =~= s);
    } else {
        lemma_filter_all(s.drop_last(), p);
        assert(s.drop_last().push(s.last()) =~= s);
    }
}

/// Returns, in original order, every line of `content` that contains
/// `query_str` as a contiguous substring, with the exact characters.
/// An empty query matches every line.
pub fn search_case_sensitive<'a>(query_str: &str, content: &'a str) -> (res: Vec<&'a str>)
    ensures
        res.deep_view() == sensitive_matches(query_str@, content@),
        query_str@.len() == 0 ==> res.deep_view() == lines_of(content@),
{
    let ghost pred = |l: Seq<char>| line_matches_sensitive(l, query_str@);
    let lines = split_lines(content);
    let ghost all = lines.deep_view();
    let mut res: Vec<&'a str> = Vec::new();
    let mut i: usize = 0;
    proof {
        assert(res.deep_view() =~= Seq::<Seq<char>>::empty());
        assert(all.take(0) =~= Seq::<Seq<char>>::empty());
        reveal(Seq::filter);
    }
    while i < lines.len()
        invariant
            all == lines.deep_view(),
            all == lines_of(content@),
            i <= lines.len(),
            res.deep_view() == all.take(i as int).filter(pred),
            pred == (|l: Seq<char>| line_matches_sensitive(l, query_str@)),
        decreases lines.len() - i,
    {
        let line = lines[i];
        proof {
            assert(line@ == all[i as int]);
            assert(all.take(i as int + 1).drop_last() =~= all.take(i as int));
            assert(all.take(i as int + 1).last() == all[i as int]);
            reveal(Seq::filter);
        }
        let ghost old_dv = res.deep_view();
        if contains_substr(line, query_str) {
            res.push(line);
            proof {
                assert(res.deep_view() =~= old_dv.push(line@));
            }
        }
        i += 1;
    }
    proof {
        assert(all.take(lines.len() as int) =~= all);
        if query_str@.len() == 0 {
            assert forall|j: int| 0 <= j < all.len() implies pred(#[trigger] all[j]) by {
                lemma_empty_pat_matches(all[j], query_str@);
            }
            lemma_filter_all(all, pred);
        }
    }
    res
}

/// Returns, in original order, every line of `content` whose lowered
/// characters contain the lowered `query_str` as a contiguous substring; the
/// lines come back as they stand in `content`, not lowered. An empty query
/// matches every line.
pub fn search_case_insensitive<'a>(query_str: &str, content: &'a str) -> (res: Vec<&'a str>)
    ensures
        res.deep_view() == insensitive_matches(query_str@, content@),
        query_str@.len() == 0 ==> res.deep_view() == lines_of(content@),
{
    let ghost pred = |l: Seq<char>| line_matches_insensitive(l, query_str@);
    let query_lower = to_lowercase_str(query_str);
    let lines = split_lines(content);
    let ghost all = lines.deep_view();
    let mut res: Vec<&'a str> = Vec::new();
    let mut i: usize = 0;
    proof {
        assert(res.deep_view() =~= Seq::<Seq<char>>::empty());
        assert(all.take(0) =~= Seq::<Seq<char>>::empty());
        reveal(Seq::filter);
    }
    while i < lines.len()
        invariant
            all == lines.deep_view(),
            all == lines_of(content@),
            i <= lines.len(),
            res.deep_view() == all.take(i as int).filter(pred),
            pred == (|l: Seq<char>| line_matches_insensitive(l, query_str@)),
            query_lower@ == lower_of(query_str@),
        decreases lines.len() - i,
    {
        let line = lines[i];
        proof {
            assert(line@ == all[i as int]);
            assert(all.take(i as int + 1).drop_last() =~= all.take(i as int));
            assert(all.take(i as int + 1).last() == all[i as int]);
            reveal(Seq::filter);
        }
        let line_lower = to_lowercase_str(line);
        let ghost old_dv = res.deep_view();
        if contains_substr(line_lower.as_str(), query_lower.as_str()) {
            res.push(line);
            proof {
                assert(res.deep_view() =~= old_dv.push(line@));
            }
        }
        i += 1;
    }
    proof {
        assert(all.take(lines.len() as int) =~= all);
        if query_str@.len() == 0 {
            assert(lower_of(query_str@).len() == 0);
            assert forall|j: int| 0 <= j < all.len() implies pred(#[trigger] all[j]) by {
                lemma_empty_pat_matches(lower_of(all[j]), lower_of(query_str@));
            }
            lemma_filter_all(all, pred);
        }
    }
    res
}

/// `at` lists, one per element of `xs`, strictly increasing positions in
/// `ys` at which the elements of `xs` stand.
pub open spec fn valid_index_map<A>(at: Seq<int>, xs: Seq<A>, ys: Seq<A>) -> bool {
    &&& at.len() == xs.len()
    &&& forall|i: int|
        0 <= i < at.len() ==> 0 <= #[trigger] at[i] < ys.len() && ys[at[i]] == xs[i]
    &&& forall|i: int, j: int| 0 <= i < j < at.len() ==> #[trigger] at[i] < #[trigger] at[j]
}

/// `xs` is a subsequence of `ys`: each element of `xs` appears in `ys`, at
/// strictly increasing positions, so in the same relative order and without
/// introducing duplicates.
pub open spec fn subsequence_of<A>(xs: Seq<A>, ys: Seq<A>) -> bool {
    exists|at: Seq<int>| valid_index_map(at, xs, ys)
}

/// Filtering a sequence yields a subsequence of it.
proof fn lemma_filter_subsequence<A>(s: Seq<A>, p: spec_fn(A) -> bool)
    ensures
        subsequence_of(s.filter(p), s),
    decreases s.len(),
{
    reveal(Seq::filter);
    if s.len() == 0 {
        let at = Seq::<int>::empty();
        assert(valid_index_map(at, s.filter(p), s));
    } else {
        let s0 = s.drop_last();
        lemma_filter_subsequence(s0, p);
        let at0 = choose|at: Seq<int>| valid_index_map(at, s0.filter(p), s0);
        if p(s.last()) {
            let at = at0.push(s.len() - 1);
            assert(valid_index_map(at, s.filter(p), s)) by {
                assert forall|i: int|
                    0 <= i < at.len() implies 0 <= #[trigger] at[i] < s.len() && s[at[i]]
                    == s.filter(p)[i] by {
                    if i < at0.len() {
                        assert(s0[at0[i]] == s[at0[i]]);
                        assert(s.filter(p)[i] == s0.filter(p)[i]);
                    }
                }
            }
        } else {
            assert(valid_index_map(at0, s.filter(p), s)) by {
                assert forall|i: int|
                    0 <= i < at0.len() implies 0 <= #[trigger] at0[i] < s.len() && s[at0[i]]
                    == s.filter(p)[i] by {
                    assert(s0[at0[i]] == s[at0[i]]);
                }
            }
        }
    }
}

/// Every line that the case-sensitive search returns contains the query as a
/// contiguous substring, and the returned lines stand in the same relative
/// order as in the content.
pub proof fn lemma_sensitive_search_sound(query: Seq<char>, content: Seq<char>)
    ensures
        forall|i: int|
            0 <= i < sensitive_matches(query, content).len() ==> has_substring(
                #[trigger] sensitive_matches(query, content)[i],
                query,
            ),
        subsequence_of(sensitive_matches(query, content), lines_of(content)),
{
    broadcast use vstd::seq_lib::group_filter_ensures;

    let pred = |l: Seq<char>| line_matches_sensitive(l, query);
    let all = lines_of(content);
    assert forall|i: int|
        0 <= i < sensitive_matches(query, content).len() implies has_substring(
        #[trigger] sensitive_matches(query, content)[i],
        query,
    ) by {
        assert(pred(all.filter(pred)[i]));
    }
    lemma_filter_subsequence(all, pred);
}

/// Every line that the case-insensitive search returns matches the query
/// after lowering both, and the returned lines stand in the same relative
/// order as in the content.
pub proof fn lemma_insensitive_search_sound(query: Seq<char>, content: Seq<char>)
    ensures
        forall|i: int|
            0 <= i < insensitive_matches(query, content).len() ==> has_substring(
                lower_of(#[trigger] insensitive_matches(query, content)[i]),
                lower_of(query),
            ),
        subsequence_of(insensitive_matches(query, content), lines_of(content)),
{
    broadcast use vstd::seq_lib::group_filter_ensures;

    let pred = |l: Seq<char>| line_matches_insensitive(l, query);
    let all = lines_of(content);
    assert forall|i: int|
        0 <= i < insensitive_matches(query, content).len() implies has_substring(
        lower_of(#[trigger] insensitive_matches(query, content)[i]),
        lower_of(query),
    ) by {
        assert(pred(all.filter(pred)[i]));
    }
    lemma_filter_subsequence(all, pred);
}

/// A filter with a weaker predicate keeps at least as many elements.
proof fn lemma_filter_implies_len<A>(s: Seq<A>, p1: spec_fn(A) -> bool, p2: spec_fn(A) -> bool)
    requires
        forall|i: int| 0 <= i < s.len() && p1(#[trigger] s[i]) ==> p2(s[i]),
    ensures
        s.filter(p1).len() <= s.filter(p2).len(),
    decreases s.len(),
{
    reveal(Seq::filter);
    if s.len() > 0 {
        let s0 = s.drop_last();
        assert forall|i: int| 0 <= i < s0.len() && p1(#[trigger] s0[i]) implies p2(s0[i]) by {
            assert(s0[i] == s[i]);
        }
        lemma_filter_implies_len(s0, p1, p2);
    }
}

/// Lowering only relaxes matching: whenever every line of the content that
/// matches the query exactly also matches it after lowering, the
/// case-insensitive search returns at least as many lines as the
/// case-sensitive one. The premise is stated rather than assumed because the
/// lowered form of a character can depend on the characters around it, so a
/// line and a query may each lower to forms that no longer line up.
pub proof fn lemma_insensitive_superset(query: Seq<char>, content: Seq<char>)
    requires
        forall|i: int|
            0 <= i < lines_of(content).len() && line_matches_sensitive(
                #[trigger] lines_of(content)[i],
                query,
            ) ==> line_matches_insensitive(lines_of(content)[i], query),
    ensures
        sensitive_matches(query, content).len() <= insensitive_matches(query, content).len(),
{
    let p1 = |l: Seq<char>| line_matches_sensitive(l, query);
    let p2 = |l: Seq<char>| line_matches_insensitive(l, query);
    lemma_filter_implies_len(lines_of(content), p1, p2);
}

/// Running either search twice on identical inputs yields identical results:
/// each result is determined by the query and the content alone.
pub proof fn lemma_search_idempotent(
    query: Seq<char>,
    content: Seq<char>,
    first: Seq<Seq<char>>,
    second: Seq<Seq<char>>,
)
    requires
        first == sensitive_matches(query, content) && second == sensitive_matches(query, content)
            || first == insensitive_matches(query, content) && second == insensitive_matches(
            query,
            content,
        ),
    ensures
        first == second,
{
}

/// A filter whose predicate holds of no element keeps nothing.
proof fn lemma_filter_none<A>(s: Seq<A>, p: spec_fn(A) -> bool)
    requires
        forall|i: int| 0 <= i < s.len() ==> !p(#[trigger] s[i]),
    ensures
        s.filter(p).len() == 0,
    decreases s.len(),
{
    reveal(Seq::filter);
    if s.len() > 0 {
        lemma_filter_none(s.drop_last(), p);
    }
}

/// A query that contains a line break matches no line: the content is split
/// at line breaks before matching, so the case-sensitive search returns
/// nothing for such a query.
pub proof fn lemma_newline_query_matches_nothing(query: Seq<char>, content: Seq<char>)
    requires
        exists|k: int| 0 <= k < query.len() && query[k] == '\n',
    ensures
        sensitive_matches(query, content).len() == 0,
{
    let pred = |l: Seq<char>| line_matches_sensitive(l, query);
    let all = lines_of(content);
    crate::text::lemma_lines_no_newline(content);
    let k = choose|k: int| 0 <= k < query.len() && query[k] == '\n';
    assert forall|j: int| 0 <= j < all.len() implies !pred(#[trigger] all[j]) by {
        if pred(all[j]) {
            let i = choose|i: int| crate::text::match_at(all[j], query, i);
            assert(all[j].subrange(i, i + query.len() as int)[k] == all[j][i + k]);
            assert(all[j][i + k] != '\n');
        }
    }
    lemma_filter_none(all, pred);
}

/// An empty query matches every line: the case-sensitive search returns all
/// lines of the content.
pub proof fn lemma_empty_query_returns_all(query: Seq<char>, content: Seq<char>)
    requires
        query.len() == 0,
    ensures
        sensitive_matches(query, content) == lines_of(content),
{
    let pred = |l: Seq<char>| line_matches_sensitive(l, query);
    let all = lines_of(content);
    assert forall|j: int| 0 <= j < all.len() implies pred(#[trigger] all[j]) by {
        lemma_empty_pat_matches(all[j], query);
    }
    lemma_filter_all(all, pred);
}

/// The lines that `config` selects from `content`: the exact matches when
/// `config.case_sensitive` is set, the matches after lowering otherwise.
pub open spec fn selected_matches(config: Config, content: Seq<char>) -> Seq<Seq<char>> {
    if config.case_sensitive {
        sensitive_matches(config.query_str@, content)
    } else {
        insensitive_matches(config.query_str@, content)
    }
}

/// Returns the lines of `content` that `config` selects, in original order:
/// the search the case-sensitivity choice of `config` calls for.
pub fn matching_lines<'a>(config: &Config, content: &'a str) -> (res: Vec<&'a str>)
    ensures
        res.deep_view() == selected_matches(*config, content@),
{
    if config.case_sensitive {
        search_case_sensitive(config.query_str.as_str(), content)
    } else {
        search_case_insensitive(config.query_str.as_str(), content)
    }
}

} // verus!

//! The search engine: line splitting and substring matching.

use vstd::prelude::*;

use crate::config::Config;

verus! {

/// `needle` occurs contiguously somewhere inside `hay`.
///
/// The empty needle occurs in every haystack, at position zero.
pub open spec fn contains_seq(hay: Seq<char>, needle: Seq<char>) -> bool {
    exists|i: int|
        0 <= i && i + needle.len() <= hay.len() && #[trigger] hay.subrange(i, i + needle.len())
            == needle
}

/// Does `needle` occur in `hay` starting exactly at position `at`?
fn matches_at(hay: &str, at: usize, needle: &str) -> (r: bool)
    requires
        at + needle@.len() <= hay@.len(),
        hay@.len() <= usize::MAX,
    ensures
        r == (hay@.subrange(at as int, at + needle@.len()) == needle@),
{
    let n = needle.unicode_len();
    let mut j: usize = 0;
    while j < n
        invariant
            n == needle@.len(),
            at + n <= hay@.len(),
            hay@.len() <= usize::MAX,
            j <= n,
            forall|k: int| 0 <= k < j ==> hay@[at + k] == needle@[k],
        decreases n - j,
    {
        if hay.get_char(at + j) != needle.get_char(j) {
            proof {
                assert(hay@.subrange(at as int, at + n)[j as int] == hay@[at + j]);
            }
            return false;
        }
        j += 1;
    }
    proof {
        assert(hay@.subrange(at as int, at + n) =~= needle@);
    }
    true
}

/// Exact substring containment: does `needle` occur anywhere in `hay`?
pub fn str_contains(hay: &str, needle: &str) -> (r: bool)
    ensures
        r == contains_seq(hay@, needle@),
{
    let hay_len = hay.unicode_len();
    let needle_len = needle.unicode_len();
    if needle_len > hay_len {
        return false;
    }
    if needle_len == 0 {
        proof {
            assert(hay@.subrange(0, 0 + needle@.len() as int) =~= needle@);
        }
        return true;
    }
    let mut i: usize = 0;
    while i <= hay_len - needle_len
        invariant
            hay_len == hay@.len(),
            needle_len == needle@.len(),
            0 < needle_len <= hay_len,
            i <= hay_len - needle_len + 1,
            forall|k: int|
                0 <= k < i ==> #[trigger] hay@.subrange(k, k + needle@.len()) != needle@,
        decreases hay_len - needle_len - i + 1,
    {
        if matches_at(hay, i, needle) {
            return true;
        }
        i += 1;
    }
    false
}

/// Index of the first line feed in `s` at or after `from`, or `s.len()` when
/// none remains.
pub open spec fn find_line_feed(s: Seq<char>, from: int) -> int
    recommends
        0 <= from <= s.len(),
    decreases s.len() - from,
    when 0 <= from
{
    if from >= s.len() {
        s.len() as int
    } else if s[from] == '\n' {
        from
    } else {
        find_line_feed(s, from + 1)
    }
}

/// `find_line_feed` lands between `from` and the end of the text, skips no
/// line feed, and stops only at a line feed or at the end.
pub proof fn lemma_find_line_feed_bounds(s: Seq<char>, from: int)
    requires
        0 <= from <= s.len(),
    ensures
        from <= find_line_feed(s, from) <= s.len(),
        forall|k: int| from <= k < find_line_feed(s, from) ==> s[k] != '\n',
        find_line_feed(s, from) < s.len() ==> s[find_line_feed(s, from)] == '\n',
    decreases s.len() - from,
{
    if from < s.len() && s[from] != '\n' {
        lemma_find_line_feed_bounds(s, from + 1);
    }
}

/// `find_line_feed` is pinned down by its characterisation: no line feed
/// before `j`, and `j` is either a line feed or the end of the text.
pub proof fn lemma_find_line_feed_unique(s: Seq<char>, from: int, j: int)
    requires
        0 <= from <= j <= s.len(),
        forall|k: int| from <= k < j ==> s[k] != '\n',
        j < s.len() ==> s[j] == '\n',
    ensures
        find_line_feed(s, from) == j,
    decreases j - from,
{
    if from < j {
        lemma_find_line_feed_unique(s, from + 1, j);
    }
}

/// A line as `str::lines` yields it when it was terminated by a line feed:
/// one carriage return immediately before the line feed is removed.
pub open spec fn strip_trailing_cr(l: Seq<char>) -> Seq<char> {
    if l.len() > 0 && l.last() == '\r' {
        l.drop_last()
    } else {
        l
    }
}

/// The lines of `s` from position `from` on: the text is split at each line
/// feed, a carriage return immediately before a line feed is removed, the
/// final piece keeps any trailing carriage return, and a text that ends with
/// a line feed yields no empty final line.  This matches `str::lines`.
pub open spec fn lines_from(s: Seq<char>, from: int) -> Seq<Seq<char>>
    recommends
        0 <= from <= s.len(),
    decreases s.len() - from,
    when 0 <= from
    via lines_from_decreases
{
    if from >= s.len() {
        Seq::empty()
    } else {
        let j = find_line_feed(s, from);
        if j < s.len() {
            seq![strip_trailing_cr(s.subrange(from, j))] + lines_from(s, j + 1)
        } else {
            seq![s.subrange(from, j)]
        }
    }
}

#[via_fn]
proof fn lines_from_decreases(s: Seq<char>, from: int) {
    if from < s.len() {
        lemma_find_line_feed_bounds(s, from);
    }
}

/// The lines of a whole text, as `str::lines` yields them.
pub open spec fn spec_lines(s: Seq<char>) -> Seq<Seq<char>> {
    lines_from(s, 0)
}

/// The character sequences behind a sequence of string slices.
pub open spec fn line_views(lines: Seq<&str>) -> Seq<Seq<char>> {
    lines.map_values(|l: &str| l@)
}

/// Split a text into its lines, exactly as `str::lines` does: pieces end at
/// each line feed, a carriage return immediately before a line feed is
/// dropped, and there is no empty final line after a terminating line feed.
pub fn split_lines<'a>(contents: &'a str) -> (lines: Vec<&'a str>)
    ensures
        line_views(lines@) == spec_lines(contents@),
{
    let n = contents.unicode_len();
    let mut lines: Vec<&'a str> = Vec::new();
    proof {
        assert(line_views(lines@) =~= Seq::<Seq<char>>::empty());
        assert(line_views(lines@) + lines_from(contents@, 0) =~= lines_from(contents@, 0));
    }
    let mut start: usize = 0;
    while start < n
        invariant
            n == contents@.len(),
            start <= n,
            line_views(lines@) + lines_from(contents@, start as int) == spec_lines(contents@),
        decreases n - start,
    {
        let mut j: usize = start;
        while j < n && contents.get_char(j) != '\n'
            invariant
                n == contents@.len(),
                start <= j <= n,
                forall|k: int| start <= k < j ==> contents@[k] != '\n',
            decreases n - j,
        {
            j += 1;
        }
        proof {
            lemma_find_line_feed_unique(contents@, start as int, j as int);
        }
        let line_end: usize = if j < n && j > start && contents.get_char(j - 1) == '\r' {
            j - 1
        } else {
            j
        };
        let line = contents.substring_char(start, line_end);
        proof {
            let seg = contents@.subrange(start as int, j as int);
            if j < n {
                if j > start && contents@[j - 1] == '\r' {
                    assert(seg.last() == contents@[j - 1]);
                    assert(seg.drop_last() =~= contents@.subrange(start as int, j - 1));
                }
                assert(strip_trailing_cr(seg) =~= contents@.subrange(
                    start as int,
                    line_end as int,
                ));
                assert(line@ == strip_trailing_cr(seg));
            } else {
                assert(line@ == seg);
            }
        }
        let ghost views_before = line_views(lines@);
        lines.push(line);
        proof {
            assert(line_views(lines@) =~= views_before.push(line@));
        }
        let next: usize = if j < n {
            j + 1
        } else {
            n
        };
        proof {
            assert(lines_from(contents@, start as int) == seq![line@] + lines_from(
                contents@,
                next as int,
            ));
            assert(line_views(lines@) + lines_from(contents@, next as int) =~= views_before + (
            seq![line@] + lines_from(contents@, next as int)));
            assert(views_before + (seq![line@] + lines_from(contents@, next as int))
                =~= views_before + lines_from(contents@, start as int));
        }
        start = next;
    }
    proof {
        assert(lines_from(contents@, start as int) =~= Seq::<Seq<char>>::empty());
        assert(line_views(lines@) =~= line_views(lines@) + lines_from(contents@, start as int));
    }
    lines
}

/// The lowercase form that `str::to_lowercase` gives a character sequence.
pub uninterp spec fn lower_of(s: Seq<char>) -> Seq<char>;

/// Relies on str::to_lowercase: the lowercase form of a string, which
/// depends on its characters alone.
#[verifier::external_body]
fn to_lowercase(s: &str) -> (r: String)
    ensures
        r@ == lower_of(s@),
{
    s.to_lowercase()
}

/// The predicate `search` keeps a line by: the line contains the query.
pub open spec fn line_matches(query: Seq<char>) -> spec_fn(Seq<char>) -> bool {
    |l: Seq<char>| contains_seq(l, query)
}

/// The predicate `search_case_insensitive` keeps a line by: the lowercase
/// form of the line contains the lowercase form of the query.
pub open spec fn line_matches_ci(query: Seq<char>) -> spec_fn(Seq<char>) -> bool {
    |l: Seq<char>| contains_seq(lower_of(l), lower_of(query))
}

/// What `search` returns: the lines of `contents` that contain `query`,
/// kept in their original order.
pub open spec fn spec_search(query: Seq<char>, contents: Seq<char>) -> Seq<Seq<char>> {
    spec_lines(contents).filter(line_matches(query))
}

/// What `search_case_insensitive` returns: the lines of `contents` whose
/// lowercase form contains the lowercase form of `query`, kept in their
/// original order.  Each returned line is the original line, not its
/// lowered copy.
pub open spec fn spec_search_case_insensitive(query: Seq<char>, contents: Seq<char>) -> Seq<
    Seq<char>,
> {
    spec_lines(contents).filter(line_matches_ci(query))
}

/// Filtering a sequence extended by one element keeps the old filtered
/// prefix and appends the element exactly when the predicate holds of it.
proof fn lemma_filter_push<A>(s: Seq<A>, x: A, pred: spec_fn(A) -> bool)
    ensures
        s.push(x).filter(pred) == if pred(x) {
            s.filter(pred).push(x)
        } else {
            s.filter(pred)
        },
{
    reveal(Seq::filter);
    assert(s.push(x).drop_last() =~= s);
    assert(s.push(x).last() == x);
}

/// Case-sensitive search: the lines of `contents` that contain `query`, in
/// their original order.  Each returned slice borrows from `contents`.
pub fn search<'a>(query: &str, contents: &'a str) -> (results: Vec<&'a str>)
    ensures
        line_views(results@) == spec_search(query@, contents@),
{
    let lines = split_lines(contents);
    let mut results: Vec<&'a str> = Vec::new();
    proof {
        reveal(Seq::filter);
        assert(spec_lines(contents@).take(0) =~= Seq::<Seq<char>>::empty());
        assert(line_views(results@) =~= spec_lines(contents@).take(0).filter(
            line_matches(query@),
        ));
    }
    let mut i: usize = 0;
    while i < lines.len()
        invariant
            line_views(lines@) == spec_lines(contents@),
            i <= lines.len(),
            line_views(results@) == spec_lines(contents@).take(i as int).filter(
                line_matches(query@),
            ),
        decreases lines.len() - i,
    {
        let line = lines[i];
        proof {
            assert(line@ == line_views(lines@)[i as int]);
        }
        let ghost views_before = line_views(results@);
        if str_contains(line, query) {
            results.push(line);
            proof {
                assert(line_views(results@) =~= views_before.push(line@));
            }
        }
        proof {
            assert(spec_lines(contents@).take(i + 1) =~= spec_lines(contents@).take(
                i as int,
            ).push(line@));
            lemma_filter_push(spec_lines(contents@).take(i as int), line@, line_matches(query@));
        }
        i += 1;
    }
    proof {
        assert(spec_lines(contents@).take(lines.len() as int) =~= spec_lines(contents@));
    }
    results
}

/// Case-insensitive search: the lines of `contents` whose lowercase form
/// contains the lowercase form of `query`, in their original order.  The
/// returned slices are the original lines, borrowed from `contents`.
pub fn search_case_insensitive<'a>(query: &str, contents: &'a str) -> (results: Vec<&'a str>)
    ensures
        line_views(results@) == spec_search_case_insensitive(query@, contents@),
{
    let query_lower = to_lowercase(query);
    let lines = split_lines(contents);
    let mut results: Vec<&'a str> = Vec::new();
    proof {
        reveal(Seq::filter);
        assert(spec_lines(contents@).take(0) =~= Seq::<Seq<char>>::empty());
        assert(line_views(results@) =~= spec_lines(contents@).take(0).filter(
            line_matches_ci(query@),
        ));
    }
    let mut i: usize = 0;
    while i < lines.len()
        invariant
            query_lower@ == lower_of(query@),
            line_views(lines@) == spec_lines(contents@),
            i <= lines.len(),
            line_views(results@) == spec_lines(contents@).take(i as int).filter(
                line_matches_ci(query@),
            ),
        decreases lines.len() - i,
    {
        let line = lines[i];
        proof {
            assert(line@ == line_views(lines@)[i as int]);
        }
        let line_lower = to_lowercase(line);
        let ghost views_before = line_views(results@);
        if str_contains(line_lower.as_str(), query_lower.as_str()) {
            results.push(line);
            proof {
                assert(line_views(results@) =~= views_before.push(line@));
            }
        }
        proof {
            assert(spec_lines(contents@).take(i + 1) =~= spec_lines(contents@).take(
                i as int,
            ).push(line@));
            lemma_filter_push(
                spec_lines(contents@).take(i as int),
                line@,
                line_matches_ci(query@),
            );
        }
        i += 1;
    }
    proof {
        assert(spec_lines(contents@).take(lines.len() as int) =~= spec_lines(contents@));
    }
    results
}

/// What `run_search` returns: the result of whichever search the
/// configuration selects.
pub open spec fn spec_run_search(query: Seq<char>, case_sensitive: bool, contents: Seq<char>) -> Seq<
    Seq<char>,
> {
    if case_sensitive {
        spec_search(query, contents)
    } else {
        spec_search_case_insensitive(query, contents)
    }
}

/// The search step of a run: scan `contents` for the configured query,
/// case-sensitively or not as the configuration says, and hand back the
/// matching lines in their original order.
pub fn run_search<'a>(config: &Config, contents: &'a str) -> (results: Vec<&'a str>)
    ensures
        line_views(results@) == spec_run_search(
            config.query@,
            config.case_sensitive,
            contents@,
        ),
{
    if config.case_sensitive {
        search(config.query.as_str(), contents)
    } else {
        search_case_insensitive(config.query.as_str(), contents)
    }
}

/// Filtering with a predicate that holds of every element keeps the
/// sequence unchanged.
proof fn lemma_filter_all<A>(s: Seq<A>, pred: spec_fn(A) -> bool)
    requires
        forall|i: int| 0 <= i < s.len() ==> pred(#[trigger] s[i]),
    ensures
        s.filter(pred) == s,
    decreases s.len(),
{
    reveal(Seq::filter);
    if s.len() > 0 {
        assert(forall|i: int| 0 <= i < s.drop_last().len() ==> #[trigger] s.drop_last()[i] == s[i]);
        lemma_filter_all(s.drop_last(), pred);
        assert(s.filter(pred) =~= s);
    }
}

/// Every element of a filtered sequence comes from the original sequence
/// and satisfies the predicate.
proof fn lemma_filter_member<A>(s: Seq<A>, pred: spec_fn(A) -> bool, x: A)
    requires
        s.filter(pred).contains(x),
    ensures
        s.contains(x),
        pred(x),
    decreases s.len(),
{
    reveal(Seq::filter);
    if s.len() > 0 {
        let sub = s.drop_last().filter(pred);
        let filtered = s.filter(pred);
        let j = choose|j: int| 0 <= j < filtered.len() && filtered[j] == x;
        if pred(s.last()) && j == filtered.len() - 1 {
            assert(x == s.last());
            assert(s[s.len() - 1] == x);
        } else {
            assert(sub[j] == x);
            assert(sub.contains(x));
            lemma_filter_member(s.drop_last(), pred, x);
            let k = choose|k: int| 0 <= k < s.drop_last().len() && s.drop_last()[k] == x;
            assert(s[k] == x);
        }
    }
}

/// The empty query matches every line: searching for it returns all lines
/// of the text, in order.
pub proof fn lemma_empty_query_matches_every_line(contents: Seq<char>)
    ensures
        spec_search(Seq::empty(), contents) == spec_lines(contents),
{
    let pred = line_matches(Seq::empty());
    assert forall|i: int| 0 <= i < spec_lines(contents).len() implies pred(
        #[trigger] spec_lines(contents)[i],
    ) by {
        let l = spec_lines(contents)[i];
        assert(l.subrange(0, 0 + Seq::<char>::empty().len() as int) =~= Seq::<char>::empty());
        assert(contains_seq(l, Seq::empty()));
    }
    lemma_filter_all(spec_lines(contents), pred);
}

/// Searching is deterministic: any two result sequences that the contract
/// of `search` allows for the same query and the same contents are equal.
pub proof fn lemma_search_deterministic(
    query: Seq<char>,
    contents: Seq<char>,
    r1: Seq<Seq<char>>,
    r2: Seq<Seq<char>>,
)
    requires
        r1 == spec_search(query, contents),
        r2 == spec_search(query, contents),
    ensures
        r1 == r2,
{
}

/// A line matches both ways: it contains the query, and its lowercase form
/// contains the query's lowercase form.
pub open spec fn line_matches_both(query: Seq<char>) -> spec_fn(Seq<char>) -> bool {
    |l: Seq<char>| contains_seq(l, query) && contains_seq(lower_of(l), lower_of(query))
}

/// Filtering a filtered sequence once more keeps exactly the elements that
/// pass both predicates, here given as one combined predicate.
proof fn lemma_filter_filter<A>(
    s: Seq<A>,
    p1: spec_fn(A) -> bool,
    p2: spec_fn(A) -> bool,
    both: spec_fn(A) -> bool,
)
    requires
        forall|x: A| #[trigger] both(x) <==> p1(x) && p2(x),
    ensures
        s.filter(p2).filter(p1) == s.filter(both),
    decreases s.len(),
{
    reveal(Seq::filter);
    if s.len() > 0 {
        let d = s.drop_last();
        let x = s.last();
        lemma_filter_filter(d, p1, p2, both);
        if p2(x) {
            lemma_filter_push(d.filter(p2), x, p1);
        }
    }
}

/// Two predicates that agree on every element of a sequence filter it to
/// the same result.
proof fn lemma_filter_agrees<A>(s: Seq<A>, p1: spec_fn(A) -> bool, p2: spec_fn(A) -> bool)
    requires
        forall|i: int| 0 <= i < s.len() ==> (p1(#[trigger] s[i]) <==> p2(s[i])),
    ensures
        s.filter(p1) == s.filter(p2),
    decreases s.len(),
{
    reveal(Seq::filter);
    if s.len() > 0 {
        assert(forall|i: int| 0 <= i < s.drop_last().len() ==> #[trigger] s.drop_last()[i] == s[i]);
        lemma_filter_agrees(s.drop_last(), p1, p2);
    }
}

/// Case-insensitive matching is never stricter than case-sensitive
/// matching: the result of `search` is exactly the result of
/// `search_case_insensitive` narrowed to the lines that contain the query
/// verbatim, so every line of the first appears in the second, in the same
/// relative order.  This holds for every query and text in which lowering
/// preserves each matching line's match.  (Lowering can move a match: the
/// Greek capital sigma lowers differently at a word's end than inside one,
/// so a line and a query may lower to forms that no longer align; such
/// inputs are excluded here.)
pub proof fn lemma_case_insensitive_superset(query: Seq<char>, contents: Seq<char>)
    requires
        forall|i: int|
            0 <= i < spec_lines(contents).len() && contains_seq(
                #[trigger] spec_lines(contents)[i],
                query,
            ) ==> contains_seq(lower_of(spec_lines(contents)[i]), lower_of(query)),
    ensures
        spec_search(query, contents) == spec_search_case_insensitive(query, contents).filter(
            line_matches(query),
        ),
        forall|l: Seq<char>|
            #[trigger] spec_search(query, contents).contains(l) ==> spec_search_case_insensitive(
                query,
                contents,
            ).contains(l),
{
    let lines = spec_lines(contents);
    lemma_filter_filter(
        lines,
        line_matches(query),
        line_matches_ci(query),
        line_matches_both(query),
    );
    lemma_filter_agrees(lines, line_matches_both(query), line_matches(query));
    assert forall|l: Seq<char>| #[trigger] spec_search(query, contents).contains(
        l,
    ) implies spec_search_case_insensitive(query, contents).contains(l) by {
        lemma_filter_member(
            spec_search_case_insensitive(query, contents),
            line_matches(query),
            l,
        );
    }
}

} // verus!

//! The line scanner: which lines of a text hold a query, under a case policy.

use vstd::prelude::*;
use crate::config::Config;
use crate::fold::{fold, folded};
use crate::lines::{
    after_first_line,
    first_line_of,
    lines_of,
    split_line,
    texts,
};
use crate::substring::{contains, is_substring, occurs_at};

verus! {

/// Whether `line` holds `query`: as the two stand when case matters, and in
/// their folded forms when it does not.
pub open spec fn line_matches(query: Seq<char>, line: Seq<char>, case_sensitive: bool) -> bool {
    if case_sensitive {
        is_substring(query, line)
    } else {
        is_substring(folded(query), folded(line))
    }
}

/// `line_matches` for a fixed query and policy, as a predicate on lines.
pub open spec fn matcher(query: Seq<char>, case_sensitive: bool) -> spec_fn(Seq<char>) -> bool {
    |line: Seq<char>| line_matches(query, line, case_sensitive)
}

/// The lines of `body` that hold `query`, in the order in which they stand in
/// `body`, each as it stands there.
pub open spec fn matching_lines(query: Seq<char>, body: Seq<char>, case_sensitive: bool) -> Seq<
    Seq<char>,
> {
    lines_of(body).filter(matcher(query, case_sensitive))
}

/// The lines of `contents` that hold `query` exactly as it is written, in the
/// order of `contents`. The empty query is held by every line.
pub fn search<'a>(query: &str, contents: &'a str) -> (found: Vec<&'a str>)
    ensures
        texts(found@) == matching_lines(query@, contents@, true),
        query@.len() == 0 ==> texts(found@) == lines_of(contents@),
{
    scan(query, contents, true)
}

/// The lines of `contents` whose folded form holds the folded form of
/// `query`, in the order of `contents` and as they stand there. The empty
/// query is held by every line.
pub fn search_case_insensitive<'a>(query: &str, contents: &'a str) -> (found: Vec<&'a str>)
    ensures
        texts(found@) == matching_lines(query@, contents@, false),
        query@.len() == 0 ==> texts(found@) == lines_of(contents@),
{
    scan(query, contents, false)
}

/// The lines to write out for a run of `config` over the contents of its
/// file, in the order in which to write them.
pub fn run<'a>(config: &Config, contents: &'a str) -> (found: Vec<&'a str>)
    ensures
        texts(found@) == matching_lines(config.query@, contents@, config.case_sensitive),
        config.query@.len() == 0 ==> texts(found@) == lines_of(contents@),
{
    if config.case_sensitive {
        search(config.query.as_str(), contents)
    } else {
        search_case_insensitive(config.query.as_str(), contents)
    }
}

/// The one traversal behind both searches: a single pass over the lines of
/// `contents`, keeping those that hold `query` under the given case policy.
fn scan<'a>(query: &str, contents: &'a str, case_sensitive: bool) -> (found: Vec<&'a str>)
    ensures
        texts(found@) == matching_lines(query@, contents@, case_sensitive),
        query@.len() == 0 ==> texts(found@) == lines_of(contents@),
{
    let folded_query: Option<String> = if case_sensitive {
        None
    } else {
        Some(fold(query))
    };
    let mut found: Vec<&'a str> = Vec::new();
    let mut rest: &'a str = contents;
    loop
        invariant
            texts(found@) + matching_lines(query@, rest@, case_sensitive) == matching_lines(
                query@,
                contents@,
                case_sensitive,
            ),
            match folded_query {
                None => case_sensitive,
                Some(form) => !case_sensitive && form@ == folded(query@),
            },
        decreases rest@.len(),
    {
        match split_line(rest) {
            None => {
                proof {
                    assert(matching_lines(query@, rest@, case_sensitive) =~= Seq::<
                        Seq<char>,
                    >::empty()) by {
                        reveal(Seq::filter);
                    }
                    if query@.len() == 0 {
                        assert(query@ =~= Seq::<char>::empty());
                        lemma_empty_query_matches_every_line(contents@, case_sensitive);
                    }
                }
                return found;
            },
            Some((line, next)) => {
                let holds = match &folded_query {
                    None => contains(line, query),
                    Some(form) => contains(fold(line).as_str(), form.as_str()),
                };
                proof {
                    lemma_matching_lines_step(query@, rest@, case_sensitive);
                }
                if holds {
                    found.push(line);
                }
                rest = next;
            },
        }
    }
}

/// A search returns lines of the body only, each of which holds the query;
/// and every line of the body that holds the query is returned.
pub proof fn lemma_matching_lines_sound_and_complete(
    query: Seq<char>,
    body: Seq<char>,
    case_sensitive: bool,
)
    ensures
        forall|line: Seq<char>| #[trigger]
            matching_lines(query, body, case_sensitive).contains(line) <==> lines_of(
                body,
            ).contains(line) && line_matches(query, line, case_sensitive),
{
    let all = lines_of(body);
    let keep = matcher(query, case_sensitive);
    assert forall|line: Seq<char>| #[trigger]
        all.filter(keep).contains(line) <==> all.contains(line) && line_matches(
            query,
            line,
            case_sensitive,
        ) by {
        if all.filter(keep).contains(line) {
            let i: int = choose|i: int|
                0 <= i < all.filter(keep).len() && all.filter(keep)[i] == line;
            all.lemma_filter_pred(keep, i);
            all.lemma_filter_contains_rev(keep, line);
        }
        if all.contains(line) && line_matches(query, line, case_sensitive) {
            let i: int = choose|i: int| 0 <= i < all.len() && all[i] == line;
            all.lemma_filter_contains(keep, i);
        }
    }
}

/// The empty query is held by every line: a search for it, under either
/// policy, returns all the lines of the body, in order.
pub proof fn lemma_empty_query_matches_every_line(body: Seq<char>, case_sensitive: bool)
    ensures
        matching_lines(Seq::empty(), body, case_sensitive) == lines_of(body),
{
    let all = lines_of(body);
    let keep = matcher(Seq::empty(), case_sensitive);
    assert forall|i: int| 0 <= i < all.len() implies keep(#[trigger] all[i]) by {
        let line = if case_sensitive {
            all[i]
        } else {
            folded(all[i])
        };
        assert(line.subrange(0, 0) =~= Seq::<char>::empty());
        assert(occurs_at(Seq::<char>::empty(), line, 0));
    }
    lemma_filter_keeps_all(all, keep);
}

/// Where folding never takes the query out of a line of `body` that holds
/// it, the case-sensitive search returns the lines of the case-insensitive
/// search that hold the query as written: the same lines in the same order,
/// with the others left out.
pub proof fn lemma_case_insensitive_search_is_wider(query: Seq<char>, body: Seq<char>)
    requires
        forall|k: int|
            0 <= k < lines_of(body).len() && is_substring(query, #[trigger] lines_of(body)[k])
                ==> is_substring(folded(query), folded(lines_of(body)[k])),
    ensures
        matching_lines(query, body, true) == matching_lines(query, body, false).filter(
            matcher(query, true),
        ),
        forall|line: Seq<char>| #[trigger]
            matching_lines(query, body, true).contains(line) ==> matching_lines(
                query,
                body,
                false,
            ).contains(line),
{
    let all = lines_of(body);
    lemma_filter_of_wider_filter(all, matcher(query, true), matcher(query, false));
    assert forall|line: Seq<char>| #[trigger]
        matching_lines(query, body, true).contains(line) implies matching_lines(
        query,
        body,
        false,
    ).contains(line) by {
        all.filter(matcher(query, false)).lemma_filter_contains_rev(matcher(query, true), line);
    }
}

/// Two queries with the same folded form select the same lines when case is
/// not to matter.
pub proof fn lemma_case_of_query_is_ignored(first: Seq<char>, second: Seq<char>, body: Seq<char>)
    requires
        folded(first) == folded(second),
    ensures
        matching_lines(first, body, false) == matching_lines(second, body, false),
{
    assert(matcher(first, false) == matcher(second, false)) by {
        assert forall|line: Seq<char>| #[trigger]
            matcher(first, false)(line) == matcher(second, false)(line) by {}
    }
}

/// A search is a function of the texts of its inputs: two answers to the same
/// question are the same lines in the same order.
pub proof fn lemma_search_is_repeatable(
    query: Seq<char>,
    body: Seq<char>,
    case_sensitive: bool,
    first: Seq<&str>,
    second: Seq<&str>,
)
    requires
        texts(first) == matching_lines(query, body, case_sensitive),
        texts(second) == matching_lines(query, body, case_sensitive),
    ensures
        texts(first) == texts(second),
{
}

/// The matching lines of a non-empty body are its first line, if that one
/// matches, and then the matching lines of what follows it.
proof fn lemma_matching_lines_step(query: Seq<char>, body: Seq<char>, case_sensitive: bool)
    requires
        body.len() > 0,
    ensures
        matching_lines(query, body, case_sensitive) == if line_matches(
            query,
            first_line_of(body),
            case_sensitive,
        ) {
            seq![first_line_of(body)] + matching_lines(
                query,
                after_first_line(body),
                case_sensitive,
            )
        } else {
            matching_lines(query, after_first_line(body), case_sensitive)
        },
{
    let keep = matcher(query, case_sensitive);
    let first = seq![first_line_of(body)];
    let others = lines_of(after_first_line(body));
    Seq::filter_distributes_over_add(first, others, keep);
    Seq::<Seq<char>>::empty().lemma_filter_push(first_line_of(body), keep);
    assert(Seq::<Seq<char>>::empty().filter(keep) =~= Seq::<Seq<char>>::empty()) by {
        reveal(Seq::filter);
    }
}

/// A filter that every item passes keeps the sequence as it is.
proof fn lemma_filter_keeps_all<T>(items: Seq<T>, keep: spec_fn(T) -> bool)
    requires
        forall|i: int| 0 <= i < items.len() ==> keep(#[trigger] items[i]),
    ensures
        items.filter(keep) == items,
    decreases items.len(),
{
    reveal(Seq::filter);
    if items.len() > 0 {
        lemma_filter_keeps_all(items.drop_last(), keep);
    }
}

/// Filtering what a wider filter kept gives what the narrower filter keeps.
proof fn lemma_filter_of_wider_filter<T>(
    items: Seq<T>,
    narrow: spec_fn(T) -> bool,
    wide: spec_fn(T) -> bool,
)
    requires
        forall|i: int| 0 <= i < items.len() && narrow(#[trigger] items[i]) ==> wide(items[i]),
    ensures
        items.filter(wide).filter(narrow) == items.filter(narrow),
    decreases items.len(),
{
    reveal(Seq::filter);
    if items.len() > 0 {
        let init = items.drop_last();
        let last = items.last();
        lemma_filter_of_wider_filter(init, narrow, wide);
        init.filter(wide).lemma_filter_push(last, narrow);
    }
}

} // verus!

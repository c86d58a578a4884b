use vstd::prelude::*;

use crate::flags::Flag;
use crate::text::{chars_of, contains_chars, contains_seq, lemma_lower_of_concat, lower_of, lowercase_chars, occurs_at};

verus! {

/// The numbered lines `v` as numbers and character sequences.
pub open spec fn records(v: Seq<(usize, String)>) -> Seq<(usize, Seq<char>)> {
    v.map_values(|p: (usize, String)| (p.0, p.1@))
}

/// Whether `line` matches `query`: it contains the query, after both are
/// lowercased when `ignore_case` is set.
pub open spec fn line_matches(line: Seq<char>, query: Seq<char>, ignore_case: bool) -> bool {
    if ignore_case {
        contains_seq(lower_of(line), lower_of(query))
    } else {
        contains_seq(line, query)
    }
}

/// The lines of `recs` that match `query`, in their order.
pub open spec fn matching(recs: Seq<(usize, Seq<char>)>, query: Seq<char>, ignore_case: bool) -> Seq<
    (usize, Seq<char>),
> {
    recs.filter(|p: (usize, Seq<char>)| line_matches(p.1, query, ignore_case))
}

/// The first `max` elements of `s`, or all of them when `max` is 0.
pub open spec fn limited<A>(s: Seq<A>, max: u8) -> Seq<A> {
    if max != 0 && (max as int) < s.len() {
        s.take(max as int)
    } else {
        s
    }
}

/// The lines of `recs` that the options `flag` select for `query`.
pub open spec fn selected(recs: Seq<(usize, Seq<char>)>, query: Seq<char>, flag: Flag) -> Seq<
    (usize, Seq<char>),
> {
    limited(matching(recs, query, flag.ignore_case), flag.max_count)
}

/// The numbers of the lines in `recs` strictly increase.
pub open spec fn increasing(recs: Seq<(usize, Seq<char>)>) -> bool {
    forall|a: int, b: int| 0 <= a < b < recs.len() ==> recs[a].0 < recs[b].0
}

proof fn lemma_filter_increasing(s: Seq<(usize, Seq<char>)>, pred: spec_fn((usize, Seq<char>)) -> bool)
    requires
        increasing(s),
    ensures
        increasing(s.filter(pred)),
    decreases s.len(),
{
    reveal(Seq::filter);
    if s.len() > 0 {
        let front = s.drop_last();
        let sub = front.filter(pred);
        assert(increasing(front));
        lemma_filter_increasing(front, pred);
        if pred(s.last()) {
            assert forall|a: int| 0 <= a < sub.len() implies sub[a].0 < s.last().0 by {
                assert(sub.contains(sub[a]));
                front.lemma_filter_contains_rev(pred, sub[a]);
                let k = choose|k: int| 0 <= k < front.len() && front[k] == sub[a];
                assert(s[k] == sub[a]);
            }
            assert(increasing(sub.push(s.last())));
        }
    }
}

proof fn lemma_filter_all(s: Seq<(usize, Seq<char>)>, pred: spec_fn((usize, Seq<char>)) -> bool)
    requires
        forall|i: int| 0 <= i < s.len() ==> pred(#[trigger] s[i]),
    ensures
        s.filter(pred) == s,
    decreases s.len(),
{
    reveal(Seq::filter);
    if s.len() > 0 {
        let front = s.drop_last();
        assert forall|i: int| 0 <= i < front.len() implies pred(#[trigger] front[i]) by {
            assert(front[i] == s[i]);
        }
        lemma_filter_all(front, pred);
        assert(pred(s[s.len() - 1]));
        assert(front.push(s.last()) =~= s);
    }
}

/// Whatever the query and the options, the selected lines keep the order of
/// the text: where the line numbers strictly increase in the input, they
/// strictly increase in the selection.
pub proof fn lemma_order_kept(recs: Seq<(usize, Seq<char>)>, query: Seq<char>, flag: Flag)
    requires
        increasing(recs),
    ensures
        increasing(selected(recs, query, flag)),
{
    lemma_filter_increasing(recs, |p: (usize, Seq<char>)| line_matches(p.1, query, flag.ignore_case));
}

/// The selection holds no more lines than the input, and no more than the
/// max count when that is not 0.
pub proof fn lemma_selection_size(recs: Seq<(usize, Seq<char>)>, query: Seq<char>, flag: Flag)
    ensures
        selected(recs, query, flag).len() <= recs.len(),
        flag.max_count != 0 ==> selected(recs, query, flag).len() <= flag.max_count,
{
    recs.lemma_filter_len(|p: (usize, Seq<char>)| line_matches(p.1, query, flag.ignore_case));
}

/// Selecting again, with the same query and options, from the lines that
/// were selected gives those lines back unchanged.
pub proof fn lemma_selection_idempotent(recs: Seq<(usize, Seq<char>)>, query: Seq<char>, flag: Flag)
    ensures
        selected(selected(recs, query, flag), query, flag) == selected(recs, query, flag),
{
    let pred = |p: (usize, Seq<char>)| line_matches(p.1, query, flag.ignore_case);
    let m = recs.filter(pred);
    let once = selected(recs, query, flag);
    assert forall|i: int| 0 <= i < once.len() implies pred(#[trigger] once[i]) by {
        assert(once[i] == m[i]);
        recs.lemma_filter_pred(pred, i);
    }
    lemma_filter_all(once, pred);
}

/// A line that contains the query exactly also contains it once both are
/// lowercased: matching without regard to case never matches fewer lines.
pub proof fn lemma_exact_match_survives_lowercasing(line: Seq<char>, query: Seq<char>)
    ensures
        line_matches(line, query, false) ==> line_matches(line, query, true),
{
    if contains_seq(line, query) {
        let i = choose|i: int| occurs_at(line, query, i);
        let a = line.take(i);
        let b = line.skip(i + query.len());
        assert(line =~= a + query + b);
        lemma_lower_of_concat(a + query, b);
        lemma_lower_of_concat(a, query);
        let la = lower_of(a);
        let lq = lower_of(query);
        let lower_line = lower_of(line);
        assert(lower_line == la + lq + lower_of(b));
        assert(lower_line.subrange(la.len() as int, (la.len() + lq.len()) as int) =~= lq);
        assert(occurs_at(lower_line, lq, la.len() as int));
    }
}

/// An empty query selects every line, up to the max count.
pub proof fn lemma_empty_query_selects_all(recs: Seq<(usize, Seq<char>)>, flag: Flag)
    ensures
        selected(recs, Seq::empty(), flag) == limited(recs, flag.max_count),
{
    let pred = |p: (usize, Seq<char>)| line_matches(p.1, Seq::empty(), flag.ignore_case);
    assert(lower_of(Seq::<char>::empty()) == Seq::<char>::empty());
    assert forall|k: int| 0 <= k < recs.len() implies pred(#[trigger] recs[k]) by {
        let hay = if flag.ignore_case {
            lower_of(recs[k].1)
        } else {
            recs[k].1
        };
        assert(hay.subrange(0, 0) =~= Seq::<char>::empty());
        assert(occurs_at(hay, Seq::empty(), 0));
    }
    lemma_filter_all(recs, pred);
}

/// The characters that a line or query is compared by.
fn compared_form(s: &str, ignore_case: bool) -> (r: Vec<char>)
    ensures
        r@ == (if ignore_case {
            lower_of(s@)
        } else {
            s@
        }),
        s@.len() == 0 ==> r@.len() == 0,
{
    if ignore_case {
        let cs = chars_of(s);
        lowercase_chars(&cs)
    } else {
        chars_of(s)
    }
}

/// The lines of `contents` that match `query`, at most `max` of them when
/// `max` is not 0. Stops reading once it has `max`.
fn select(query: &str, contents: &Vec<(usize, String)>, ignore_case: bool, max: u8) -> (r: Vec<
    (usize, String),
>)
    ensures
        records(r@) == limited(matching(records(contents@), query@, ignore_case), max),
        query@.len() == 0 ==> records(r@) == limited(records(contents@), max),
{
    let ghost recs = records(contents@);
    let ghost pred = |p: (usize, Seq<char>)| line_matches(p.1, query@, ignore_case);
    let q = compared_form(query, ignore_case);
    let mut out: Vec<(usize, String)> = Vec::new();
    let mut i: usize = 0;
    assert(recs.take(0) =~= Seq::<(usize, Seq<char>)>::empty());
    proof {
        reveal(Seq::filter);
    }
    while i < contents.len() && (max == 0 || out.len() < max as usize)
        invariant
            i <= contents.len(),
            recs == records(contents@),
            q@ == (if ignore_case {
                lower_of(query@)
            } else {
                query@
            }),
            pred == (|p: (usize, Seq<char>)| line_matches(p.1, query@, ignore_case)),
            records(out@) == recs.take(i as int).filter(pred),
            max != 0 ==> out.len() <= max,
        decreases contents.len() - i,
    {
        let hay = compared_form(contents[i].1.as_str(), ignore_case);
        assert(recs.take(i + 1).drop_last() =~= recs.take(i as int));
        assert(recs.take(i + 1).last() == recs[i as int]);
        proof {
            reveal(Seq::filter);
        }
        if contains_chars(&hay, &q) {
            let line = contents[i].1.clone();
            out.push((contents[i].0, line));
            assert(records(out@) =~= recs.take(i as int).filter(pred).push(recs[i as int]));
        }
        i += 1;
    }
    proof {
        let all = recs.filter(pred);
        let done = recs.take(i as int).filter(pred);
        assert(recs =~= recs.take(i as int) + recs.skip(i as int));
        Seq::filter_distributes_over_add(recs.take(i as int), recs.skip(i as int), pred);
        assert(all == done + recs.skip(i as int).filter(pred));
        if i < contents.len() {
            assert(done.len() == max);
            assert(all.take(max as int) =~= done);
        } else {
            assert(recs.take(i as int) =~= recs);
        }
        if query@.len() == 0 {
            assert forall|k: int| 0 <= k < recs.len() implies pred(#[trigger] recs[k]) by {
                let line = recs[k].1;
                let hay = if ignore_case {
                    lower_of(line)
                } else {
                    line
                };
                assert(hay.subrange(0, 0) =~= q@);
                assert(occurs_at(hay, q@, 0));
            }
            lemma_filter_all(recs, pred);
        }
    }
    out
}

/// The lines of `contents` that contain `query`, in their order.
pub fn search(query: &str, contents: Vec<(usize, String)>) -> (r: Vec<(usize, String)>)
    ensures
        records(r@) == matching(records(contents@), query@, false),
        query@.len() == 0 ==> records(r@) == records(contents@),
{
    select(query, &contents, false, 0)
}

/// The lines of `contents` that contain `query` when both are lowercased,
/// in their order.
pub fn search_ignore_case(query: &str, contents: Vec<(usize, String)>) -> (r: Vec<(usize, String)>)
    ensures
        records(r@) == matching(records(contents@), query@, true),
        query@.len() == 0 ==> records(r@) == records(contents@),
{
    select(query, &contents, true, 0)
}

/// The lines of `contents` that the options `flag` select for `query`: those
/// that match, in their order, and only the first `flag.max_count` of them
/// when it is not 0.
pub fn filter_lines(query: &str, flag: &Flag, contents: &Vec<(usize, String)>) -> (r: Vec<
    (usize, String),
>)
    ensures
        records(r@) == selected(records(contents@), query@, *flag),
        query@.len() == 0 ==> records(r@) == limited(records(contents@), flag.max_count),
{
    select(query, contents, flag.ignore_case, flag.max_count)
}

} // verus!

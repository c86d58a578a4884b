use vstd::prelude::*;

use crate::config::Config;
use crate::flags::Flag;
use crate::search::{filter_lines, lemma_empty_query_selects_all, limited, records, selected};
use crate::text::{decimal, lines_of, number_colon_text, split_lines, views};

verus! {

/// The lines `lines`, each with its 0-based position.
pub open spec fn numbered(lines: Seq<Seq<char>>) -> Seq<(usize, Seq<char>)> {
    lines.map(|i: int, l: Seq<char>| (i as usize, l))
}

/// How a selected line is shown: its text, after its number and a colon
/// when `line_number` is set.
pub open spec fn shown(rec: (usize, Seq<char>), line_number: bool) -> Seq<char> {
    if line_number {
        decimal(rec.0 as nat) + seq![':'] + rec.1
    } else {
        rec.1
    }
}

/// The output for the text `contents` searched for `query` with the options
/// `flag`: one entry per selected line, in order.
pub open spec fn report(query: Seq<char>, flag: Flag, contents: Seq<char>) -> Seq<Seq<char>> {
    selected(numbered(lines_of(contents)), query, flag).map_values(
        |rec: (usize, Seq<char>)| shown(rec, flag.line_number),
    )
}

/// Pairs each of `lines` with its 0-based position.
pub fn number_lines(lines: Vec<String>) -> (r: Vec<(usize, String)>)
    ensures
        records(r@) == numbered(views(lines@)),
{
    let mut out: Vec<(usize, String)> = Vec::new();
    let mut i: usize = 0;
    while i < lines.len()
        invariant
            i <= lines.len(),
            records(out@) =~= numbered(views(lines@)).take(i as int),
        decreases lines.len() - i,
    {
        let ghost before = records(out@);
        out.push((i, lines[i].clone()));
        assert(records(out@) =~= before.push((i, lines@[i as int]@)));
        assert(numbered(views(lines@))[i as int] == (i, lines@[i as int]@));
        i += 1;
    }
    assert(numbered(views(lines@)).take(i as int) =~= numbered(views(lines@)));
    out
}

/// The text that shows the line `rec`, with its number when `line_number`
/// is set.
pub fn format_match(rec: &(usize, String), line_number: bool) -> (r: String)
    ensures
        r@ == shown((rec.0, rec.1@), line_number),
{
    if line_number {
        number_colon_text(rec.0, rec.1.as_str())
    } else {
        rec.1.clone()
    }
}

/// Searches the text `contents` as `config` says and returns the lines to
/// show, in order.
pub fn search_text(config: &Config, contents: &str) -> (r: Vec<String>)
    ensures
        views(r@) == report(config.query@, config.flag, contents@),
        config.query@.len() == 0 ==> views(r@) == limited(
            numbered(lines_of(contents@)),
            config.flag.max_count,
        ).map_values(|rec: (usize, Seq<char>)| shown(rec, config.flag.line_number)),
{
    let lines = split_lines(contents);
    let numbered_lines = number_lines(lines);
    let found = filter_lines(config.query.as_str(), &config.flag, &numbered_lines);
    let ghost want = report(config.query@, config.flag, contents@);
    let mut out: Vec<String> = Vec::new();
    let mut i: usize = 0;
    while i < found.len()
        invariant
            i <= found.len(),
            records(found@) == selected(numbered(lines_of(contents@)), config.query@, config.flag),
            want == report(config.query@, config.flag, contents@),
            views(out@) =~= want.take(i as int),
        decreases found.len() - i,
    {
        let line = format_match(&found[i], config.flag.line_number);
        let ghost before = views(out@);
        out.push(line);
        assert(views(out@) =~= before.push(line@));
        assert(records(found@)[i as int] == (found@[i as int].0, found@[i as int].1@));
        i += 1;
    }
    assert(want.take(i as int) =~= want);
    proof {
        if config.query@.len() == 0 {
            assert(config.query@ == Seq::<char>::empty());
            lemma_empty_query_selects_all(numbered(lines_of(contents@)), config.flag);
        }
    }
    out
}

} // verus!

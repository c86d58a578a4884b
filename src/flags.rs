use vstd::prelude::*;

use crate::text::{chars_of, views};

verus! {

/// A decimal digit.
pub open spec fn is_digit(c: char) -> bool {
    '0' <= c && c <= '9'
}

/// The value of a decimal digit.
pub open spec fn digit_value(c: char) -> int {
    c as int - '0' as int
}

/// The value of a sequence of decimal digits, most significant first.
pub open spec fn digits_value(s: Seq<char>) -> int
    decreases s.len(),
{
    if s.len() == 0 {
        0
    } else {
        digits_value(s.drop_last()) * 10 + digit_value(s.last())
    }
}

/// Every character of `s` is a decimal digit.
pub open spec fn all_digits(s: Seq<char>) -> bool {
    forall|i: int| 0 <= i < s.len() ==> is_digit(#[trigger] s[i])
}

/// `s` without one leading `+`, if it has one.
pub open spec fn unsigned_part(s: Seq<char>) -> Seq<char> {
    if s.len() > 0 && s[0] == '+' {
        s.drop_first()
    } else {
        s
    }
}

/// The number that `s` spells as a count: an optional `+`, then at least one
/// decimal digit, with a value that fits in a `u8`.
pub open spec fn count_value(s: Seq<char>) -> Option<u8> {
    let d = unsigned_part(s);
    if d.len() > 0 && all_digits(d) && digits_value(d) <= 255 {
        Some(digits_value(d) as u8)
    } else {
        None
    }
}

proof fn lemma_digits_value_nonneg(s: Seq<char>)
    requires
        all_digits(s),
    ensures
        digits_value(s) >= 0,
    decreases s.len(),
{
    if s.len() > 0 {
        lemma_digits_value_nonneg(s.drop_last());
    }
}

/// Reads `s[from..to]` as a count, as `count_value` describes.
fn parse_count(s: &Vec<char>, from: usize, to: usize) -> (r: Option<u8>)
    requires
        from <= to <= s.len(),
    ensures
        r == count_value(s@.subrange(from as int, to as int)),
{
    let ghost whole = s@.subrange(from as int, to as int);
    let mut start = from;
    if from < to && s[from] == '+' {
        start = from + 1;
    }
    let ghost d = s@.subrange(start as int, to as int);
    assert(d == unsigned_part(whole));
    if start == to {
        return None;
    }
    let mut value: u32 = 0;
    let mut too_big = false;
    let mut i = start;
    while i < to
        invariant
            from <= start <= i <= to <= s.len(),
            d == s@.subrange(start as int, to as int),
            whole == s@.subrange(from as int, to as int),
            d == unsigned_part(whole),
            d.len() > 0,
            forall|k: int| 0 <= k < i - start ==> is_digit(#[trigger] d[k]),
            too_big ==> digits_value(d.take(i - start)) > 255,
            !too_big ==> value == digits_value(d.take(i - start)) && value <= 255,
        decreases to - i,
    {
        let c = s[i];
        if !('0' <= c && c <= '9') {
            assert(d[i - start] == c);
            assert(!is_digit(d[i - start]));
            return None;
        }
        let ghost k = i - start;
        assert(d.take(k + 1).drop_last() =~= d.take(k));
        assert(d.take(k + 1).last() == c);
        if !too_big {
            value = value * 10 + (c as u32 - '0' as u32);
            if value > 255 {
                too_big = true;
            }
        } else {
            proof {
                lemma_digits_value_nonneg(d.take(k));
            }
        }
        i += 1;
    }
    assert(d.take(to - start) =~= d);
    if too_big {
        None
    } else {
        Some(value as u8)
    }
}


/// The options that the flags set.
#[derive(Clone, Copy, Debug, PartialEq, Eq, Structural)]
pub struct Flag {
    /// Match without regard to letter case.
    pub ignore_case: bool,
    /// Prefix each shown line with its 0-based number.
    pub line_number: bool,
    /// Show at most this many matches; 0 means no limit.
    pub max_count: u8,
}

impl Flag {
    /// The options before any flag is read.
    pub open spec fn initial() -> Flag {
        Flag { ignore_case: false, line_number: false, max_count: 0 }
    }

    /// These options with `ignore_case` set to `v`.
    pub open spec fn with_ignore_case(self, v: bool) -> Flag {
        Flag { ignore_case: v, ..self }
    }

    /// These options with `line_number` set.
    pub open spec fn with_line_number(self) -> Flag {
        Flag { line_number: true, ..self }
    }

    /// These options with the max count `n`.
    pub open spec fn with_max_count(self, n: u8) -> Flag {
        Flag { max_count: n, ..self }
    }
}

impl Default for Flag {
    fn default() -> (r: Flag)
        ensures
            r == Flag::initial(),
    {
        Flag { ignore_case: false, line_number: false, max_count: 0 }
    }
}

/// Why a list of arguments was refused.
#[derive(Debug, PartialEq, Eq)]
pub enum ParseError {
    /// A short flag that is not known.
    UnknownOption(char),
    /// A long flag that is not known; holds the whole argument.
    UnknownLongOption(String),
    /// A max count that is missing or is not a number from 0 to 255.
    InvalidMaxCount,
    /// A `=value` on a long flag that takes none.
    UnexpectedValue,
    /// Fewer than two positional arguments.
    MissingPositional,
}

/// The mathematical value of a `ParseError`.
pub enum ParseErrorView {
    UnknownOption(char),
    UnknownLongOption(Seq<char>),
    InvalidMaxCount,
    UnexpectedValue,
    MissingPositional,
}

impl View for ParseError {
    type V = ParseErrorView;

    open spec fn view(&self) -> ParseErrorView {
        match self {
            ParseError::UnknownOption(c) => ParseErrorView::UnknownOption(*c),
            ParseError::UnknownLongOption(s) => ParseErrorView::UnknownLongOption(s@),
            ParseError::InvalidMaxCount => ParseErrorView::InvalidMaxCount,
            ParseError::UnexpectedValue => ParseErrorView::UnexpectedValue,
            ParseError::MissingPositional => ParseErrorView::MissingPositional,
        }
    }
}

/// What a flag that expects a count does: `inline` is a value written in the
/// same argument, `next` the argument that follows. On success, the new
/// options and whether `next` was consumed.
pub open spec fn take_count(f: Flag, inline: Option<Seq<char>>, next: Option<Seq<char>>) -> Result<
    (Flag, bool),
    ParseErrorView,
> {
    match inline {
        Some(v) => match count_value(v) {
            Some(n) => Ok((f.with_max_count(n), false)),
            None => Err(ParseErrorView::InvalidMaxCount),
        },
        None => match next {
            Some(v) => match count_value(v) {
                Some(n) => Ok((f.with_max_count(n), true)),
                None => Err(ParseErrorView::InvalidMaxCount),
            },
            None => Err(ParseErrorView::InvalidMaxCount),
        },
    }
}

/// What a cluster of short flags (an argument without its one leading `-`)
/// does to `f`, with `next` the argument that follows.
pub open spec fn short_cluster(f: Flag, cl: Seq<char>, next: Option<Seq<char>>) -> Result<
    (Flag, bool),
    ParseErrorView,
>
    decreases cl.len(),
{
    if cl.len() == 0 {
        Ok((f, false))
    } else if cl[0] == 'i' {
        short_cluster(f.with_ignore_case(true), cl.drop_first(), next)
    } else if cl[0] == 'n' {
        short_cluster(f.with_line_number(), cl.drop_first(), next)
    } else if cl[0] == 'm' {
        let rest = cl.drop_first();
        take_count(
            f,
            if rest.len() > 0 {
                Some(rest)
            } else {
                None
            },
            next,
        )
    } else {
        Err(ParseErrorView::UnknownOption(cl[0]))
    }
}

/// The position of the first `c` in `s`, or the length of `s` if there is none.
pub open spec fn index_of(s: Seq<char>, c: char) -> nat
    decreases s.len(),
{
    if s.len() == 0 {
        0
    } else if s[0] == c {
        0
    } else {
        1 + index_of(s.drop_first(), c)
    }
}

/// The name of a long flag: the argument up to its first `=`.
pub open spec fn long_name(t: Seq<char>) -> Seq<char> {
    t.take(index_of(t, '=') as int)
}

/// The value of a long flag: what follows its first `=`, if it has one.
pub open spec fn long_value(t: Seq<char>) -> Option<Seq<char>> {
    if index_of(t, '=') < t.len() {
        Some(t.skip(index_of(t, '=') + 1 as int))
    } else {
        None
    }
}

/// What a long flag `t` (an argument that starts with `--`) does to `f`,
/// with `next` the argument that follows.
pub open spec fn long_flag(f: Flag, t: Seq<char>, next: Option<Seq<char>>) -> Result<
    (Flag, bool),
    ParseErrorView,
> {
    let name = long_name(t);
    if name == "--max-count"@ {
        take_count(f, long_value(t), next)
    } else if name == "--ignore-case"@ || name == "--no-ignore-case"@ || name
        == "--line-number"@ {
        if long_value(t) is Some {
            Err(ParseErrorView::UnexpectedValue)
        } else if name == "--ignore-case"@ {
            Ok((f.with_ignore_case(true), false))
        } else if name == "--no-ignore-case"@ {
            Ok((f.with_ignore_case(false), false))
        } else {
            Ok((f.with_line_number(), false))
        }
    } else {
        Err(ParseErrorView::UnknownLongOption(t))
    }
}

/// An argument that starts with `-` is a flag; any other is positional.
pub open spec fn is_flag(t: Seq<char>) -> bool {
    t.len() > 0 && t[0] == '-'
}

/// An argument that starts with `--` is a long flag.
pub open spec fn is_long(t: Seq<char>) -> bool {
    t.len() > 1 && t[0] == '-' && t[1] == '-'
}

/// What the flag `t` does to `f`, with `next` the argument that follows.
pub open spec fn flag_step(f: Flag, t: Seq<char>, next: Option<Seq<char>>) -> Result<
    (Flag, bool),
    ParseErrorView,
> {
    if is_long(t) {
        long_flag(f, t, next)
    } else {
        short_cluster(f, t.drop_first(), next)
    }
}

/// The first element of `s`, if any.
pub open spec fn head(s: Seq<Seq<char>>) -> Option<Seq<char>> {
    if s.len() > 0 {
        Some(s[0])
    } else {
        None
    }
}

/// Reads the arguments `toks` left to right, starting from the options `f`:
/// the options they set and the positional arguments in their order, or the
/// first error.
pub open spec fn parse_args(toks: Seq<Seq<char>>, f: Flag) -> Result<
    (Flag, Seq<Seq<char>>),
    ParseErrorView,
>
    decreases toks.len(),
{
    if toks.len() == 0 {
        Ok((f, Seq::empty()))
    } else {
        let t = toks[0];
        let rest = toks.drop_first();
        if !is_flag(t) {
            match parse_args(rest, f) {
                Ok((g, ps)) => Ok((g, seq![t] + ps)),
                Err(e) => Err(e),
            }
        } else {
            match flag_step(f, t, head(rest)) {
                Ok((g, used)) => parse_args(
                    if used && rest.len() > 0 {
                        rest.drop_first()
                    } else {
                        rest
                    },
                    g,
                ),
                Err(e) => Err(e),
            }
        }
    }
}


/// The argument at position `p` of `args`, if there is one.
pub open spec fn arg_at(args: Seq<String>, p: int) -> Option<Seq<char>> {
    if 0 <= p < args.len() {
        Some(args[p]@)
    } else {
        None
    }
}

/// The views of a list of borrowed strings.
pub open spec fn ref_views(v: Seq<&String>) -> Seq<Seq<char>> {
    v.map_values(|s: &String| s@)
}

/// `r` with `pre` put before its positional arguments.
pub open spec fn after_positionals(
    r: Result<(Flag, Seq<Seq<char>>), ParseErrorView>,
    pre: Seq<Seq<char>>,
) -> Result<(Flag, Seq<Seq<char>>), ParseErrorView> {
    match r {
        Ok((g, ps)) => Ok((g, pre + ps)),
        Err(e) => Err(e),
    }
}

/// A step of the parser that was to have the outcome `expected` returned
/// `r`, left the options `new_flag`, and moved the cursor from `p` to `new_p`:
/// on success the options are those expected and the cursor moved past the
/// argument that was consumed, if any; on failure the error is the one
/// expected and the cursor did not move.
pub open spec fn step_done(
    expected: Result<(Flag, bool), ParseErrorView>,
    r: Result<(), ParseError>,
    new_flag: Flag,
    p: usize,
    new_p: usize,
) -> bool {
    match expected {
        Ok((g, used)) => r is Ok && new_flag == g && new_p == p + (if used {
            1int
        } else {
            0int
        }),
        Err(e) => r is Err && r->Err_0@ == e && new_p == p,
    }
}

proof fn lemma_index_of(s: Seq<char>, c: char)
    ensures
        index_of(s, c) <= s.len(),
        index_of(s, c) < s.len() ==> s[index_of(s, c) as int] == c,
        forall|k: int| 0 <= k < index_of(s, c) ==> s[k] != c,
    decreases s.len(),
{
    if s.len() > 0 && s[0] != c {
        lemma_index_of(s.drop_first(), c);
        assert forall|k: int| 0 <= k < index_of(s, c) implies s[k] != c by {
            if k > 0 {
                assert(s[k] == s.drop_first()[k - 1]);
            }
        }
    }
}

/// The position of the first `c` in `s`, or the length of `s`.
fn find_char(s: &Vec<char>, c: char) -> (r: usize)
    ensures
        r == index_of(s@, c),
{
    let mut i: usize = 0;
    while i < s.len() && s[i] != c
        invariant
            i <= s.len(),
            forall|k: int| 0 <= k < i ==> s@[k] != c,
        decreases s.len() - i,
    {
        i += 1;
    }
    proof {
        lemma_index_of(s@, c);
        let k = index_of(s@, c) as int;
        if k < i {
            assert(s@[k] != c);
        }
        if i < k {
            assert(s@[i as int] != c);
        }
    }
    i
}

/// Whether the first `len` characters of `s` are exactly `word`.
fn prefix_is(s: &Vec<char>, len: usize, word: &str) -> (r: bool)
    requires
        len <= s.len(),
    ensures
        r == (s@.take(len as int) == word@),
{
    let w = chars_of(word);
    if w.len() != len {
        assert(s@.take(len as int).len() != word@.len());
        return false;
    }
    let mut i: usize = 0;
    while i < len
        invariant
            i <= len <= s.len(),
            w.len() == len,
            w@ == word@,
            forall|k: int| 0 <= k < i ==> s@[k] == w@[k],
        decreases len - i,
    {
        if s[i] != w[i] {
            assert(s@.take(len as int)[i as int] != w@[i as int]);
            return false;
        }
        i += 1;
    }
    assert(s@.take(len as int) =~= w@);
    true
}

impl Flag {
    /// Sets the max count from the argument at `*pos`, which is consumed.
    fn count_from_next(&mut self, args: &Vec<String>, pos: &mut usize) -> (r: Result<(), ParseError>)
        requires
            *old(pos) <= args.len(),
        ensures
            step_done(
                take_count(*old(self), None, arg_at(args@, *old(pos) as int)),
                r,
                *final(self),
                *old(pos),
                *final(pos),
            ),
            *final(pos) <= args.len(),
            r is Err ==> *final(self) == *old(self),
    {
        if *pos < args.len() {
            let v = chars_of(args[*pos].as_str());
            assert(v@.subrange(0, v@.len() as int) =~= v@);
            match parse_count(&v, 0, v.len()) {
                Some(n) => {
                    self.max_count = n;
                    *pos = *pos + 1;
                    Ok(())
                },
                None => Err(ParseError::InvalidMaxCount),
            }
        } else {
            Err(ParseError::InvalidMaxCount)
        }
    }

    /// Applies a cluster of short flags `cs` (an argument that starts with
    /// one `-`). A count that the cluster does not hold itself is read from
    /// the argument at `*pos` of `args`, which is then consumed.
    fn short_parse(&mut self, cs: &Vec<char>, args: &Vec<String>, pos: &mut usize) -> (r: Result<
        (),
        ParseError,
    >)
        requires
            cs.len() > 0,
            *old(pos) <= args.len(),
        ensures
            step_done(
                short_cluster(*old(self), cs@.drop_first(), arg_at(args@, *old(pos) as int)),
                r,
                *final(self),
                *old(pos),
                *final(pos),
            ),
            *final(pos) <= args.len(),
    {
        let ghost next = arg_at(args@, *pos as int);
        let mut j: usize = 1;
        assert(cs@.skip(1) =~= cs@.drop_first());
        while j < cs.len()
            invariant
                1 <= j <= cs.len(),
                *pos == *old(pos),
                *old(pos) <= args.len(),
                next == arg_at(args@, *old(pos) as int),
                short_cluster(*old(self), cs@.drop_first(), next) == short_cluster(
                    *self,
                    cs@.skip(j as int),
                    next,
                ),
            decreases cs.len() - j,
        {
            let c = cs[j];
            assert(cs@.skip(j as int)[0] == c);
            assert(cs@.skip(j as int).drop_first() =~= cs@.skip(j + 1));
            if c == 'i' {
                self.ignore_case = true;
            } else if c == 'n' {
                self.line_number = true;
            } else if c == 'm' {
                if j + 1 < cs.len() {
                    assert(cs@.skip(j + 1) =~= cs@.subrange(j + 1, cs.len() as int));
                    match parse_count(cs, j + 1, cs.len()) {
                        Some(n) => {
                            self.max_count = n;
                            return Ok(());
                        },
                        None => {
                            return Err(ParseError::InvalidMaxCount);
                        },
                    }
                } else {
                    return self.count_from_next(args, pos);
                }
            } else {
                return Err(ParseError::UnknownOption(c));
            }
            j += 1;
        }
        Ok(())
    }

    /// Applies a long flag `long_str` (an argument that starts with `--`),
    /// whose characters are `cs`. A count that the flag does not hold itself
    /// is read from the argument at `*pos` of `args`, which is then consumed.
    fn long_parse(
        &mut self,
        long_str: &String,
        cs: &Vec<char>,
        args: &Vec<String>,
        pos: &mut usize,
    ) -> (r: Result<(), ParseError>)
        requires
            cs@ == long_str@,
            *old(pos) <= args.len(),
        ensures
            step_done(
                long_flag(*old(self), cs@, arg_at(args@, *old(pos) as int)),
                r,
                *final(self),
                *old(pos),
                *final(pos),
            ),
            *final(pos) <= args.len(),
            r is Err ==> *final(self) == *old(self),
    {
        let eq = find_char(cs, '=');
        proof {
            lemma_index_of(cs@, '=');
        }
        let has_value = eq < cs.len();
        if prefix_is(cs, eq, "--max-count") {
            if has_value {
                assert(cs@.skip(eq + 1) =~= cs@.subrange(eq + 1, cs.len() as int));
                match parse_count(cs, eq + 1, cs.len()) {
                    Some(n) => {
                        self.max_count = n;
                        Ok(())
                    },
                    None => Err(ParseError::InvalidMaxCount),
                }
            } else {
                self.count_from_next(args, pos)
            }
        } else {
            let ic = prefix_is(cs, eq, "--ignore-case");
            let nic = prefix_is(cs, eq, "--no-ignore-case");
            let ln = prefix_is(cs, eq, "--line-number");
            if !(ic || nic || ln) {
                Err(ParseError::UnknownLongOption(long_str.clone()))
            } else if has_value {
                Err(ParseError::UnexpectedValue)
            } else {
                if ic {
                    self.ignore_case = true;
                } else if nic {
                    self.ignore_case = false;
                } else {
                    self.line_number = true;
                }
                Ok(())
            }
        }
    }

    /// Reads the arguments `flag_strs` left to right: the options that the
    /// flags among them set, and the other arguments in their order.
    pub fn from_vec(flag_strs: &Vec<String>) -> (r: Result<(Flag, Vec<&String>), ParseError>)
        ensures
            match parse_args(views(flag_strs@), Flag::initial()) {
                Ok((f, ps)) => r is Ok && r->Ok_0.0 == f && ref_views(r->Ok_0.1@) == ps,
                Err(e) => r is Err && r->Err_0@ == e,
            },
    {
        let ghost all = views(flag_strs@);
        let mut flags = Flag::default();
        let mut arguments: Vec<&String> = Vec::new();
        let mut i: usize = 0;
        assert(all.skip(0) =~= all);
        assert(ref_views(arguments@) + Seq::<Seq<char>>::empty() =~= Seq::<Seq<char>>::empty());
        while i < flag_strs.len()
            invariant
                i <= flag_strs.len(),
                all == views(flag_strs@),
                parse_args(all, Flag::initial()) == after_positionals(
                    parse_args(all.skip(i as int), flags),
                    ref_views(arguments@),
                ),
            decreases flag_strs.len() - i,
        {
            let flag_str = &flag_strs[i];
            let cs = chars_of(flag_str.as_str());
            let ghost rest = all.skip(i + 1);
            assert(all.skip(i as int)[0] == cs@);
            assert(all.skip(i as int).drop_first() =~= rest);
            i = i + 1;
            if !(cs.len() > 0 && cs[0] == '-') {
                let ghost pre = ref_views(arguments@);
                arguments.push(flag_str);
                proof {
                    assert(ref_views(arguments@) =~= pre.push(cs@));
                    match parse_args(rest, flags) {
                        Ok((g, ps)) => {
                            assert(pre + (seq![cs@] + ps) =~= pre.push(cs@) + ps);
                        },
                        Err(e) => {},
                    }
                }
            } else {
                let ghost before = flags;
                let ghost p0 = i;
                assert(head(rest) == arg_at(flag_strs@, i as int));
                let step = if cs.len() > 1 && cs[1] == '-' {
                    flags.long_parse(flag_str, &cs, flag_strs, &mut i)
                } else {
                    flags.short_parse(&cs, flag_strs, &mut i)
                };
                assert(step_done(flag_step(before, cs@, head(rest)), step, flags, p0, i));
                match step {
                    Ok(()) => {
                        proof {
                            if i > p0 {
                                assert(rest.drop_first() =~= all.skip(i as int));
                            }
                        }
                    },
                    Err(e) => {
                        return Err(e);
                    },
                }
            }
        }
        assert(all.skip(i as int) =~= Seq::<Seq<char>>::empty());
        assert(ref_views(arguments@) + Seq::<Seq<char>>::empty() =~= ref_views(arguments@));
        Ok((flags, arguments))
    }
}


proof fn lemma_no_equals(t: Seq<char>)
    requires
        forall|k: int| 0 <= k < t.len() ==> t[k] != '=',
    ensures
        index_of(t, '=') == t.len(),
        long_name(t) == t,
        long_value(t) is None,
    decreases t.len(),
{
    if t.len() > 0 {
        lemma_no_equals(t.drop_first());
    }
    assert(t.take(t.len() as int) =~= t);
}

/// The short flags `i` and `n` have the same effect bundled in one argument
/// (`-in`), written as two (`-i -n`), or written in their long forms
/// (`--ignore-case --line-number`), whatever options were set before and
/// whatever arguments follow.
proof fn lemma_bundled_flags(f: Flag, rest: Seq<Seq<char>>)
    ensures
        parse_args(seq!["-in"@] + rest, f) == parse_args(seq!["-i"@, "-n"@] + rest, f),
        parse_args(seq!["-in"@] + rest, f) == parse_args(
            seq!["--ignore-case"@, "--line-number"@] + rest,
            f,
        ),
{
    reveal_strlit("-in");
    reveal_strlit("-i");
    reveal_strlit("-n");
    reveal_strlit("--ignore-case");
    reveal_strlit("--line-number");
    reveal_strlit("--no-ignore-case");
    reveal_strlit("--max-count");
    let g = f.with_ignore_case(true).with_line_number();
    let one = seq!["-in"@] + rest;
    let two = seq!["-i"@, "-n"@] + rest;
    let long = seq!["--ignore-case"@, "--line-number"@] + rest;
    assert(one.drop_first() =~= rest);
    assert(two.drop_first() =~= seq!["-n"@] + rest);
    assert((seq!["-n"@] + rest).drop_first() =~= rest);
    assert(long.drop_first() =~= seq!["--line-number"@] + rest);
    assert((seq!["--line-number"@] + rest).drop_first() =~= rest);

    // -in
    assert("-in"@.drop_first() =~= seq!['i', 'n']);
    assert(seq!['i', 'n'].drop_first() =~= seq!['n']);
    assert(seq!['n'].drop_first() =~= Seq::<char>::empty());
    assert(short_cluster(g, Seq::<char>::empty(), head(rest)) == Ok::<(Flag, bool), ParseErrorView>((g, false)));
    assert(short_cluster(f.with_ignore_case(true), seq!['n'], head(rest)) == short_cluster(g, Seq::<char>::empty(), head(rest)));
    assert(short_cluster(f, seq!['i', 'n'], head(rest)) == Ok::<(Flag, bool), ParseErrorView>((g, false)));
    assert(parse_args(one, f) == parse_args(rest, g));

    // -i -n
    assert("-i"@.drop_first() =~= seq!['i']);
    assert(seq!['i'].drop_first() =~= Seq::<char>::empty());
    assert("-n"@.drop_first() =~= seq!['n']);
    assert(two[0] == "-i"@);
    assert((seq!["-n"@] + rest)[0] == "-n"@);
    assert(short_cluster(f.with_ignore_case(true), Seq::<char>::empty(), head(seq!["-n"@] + rest)) == Ok::<(Flag, bool), ParseErrorView>((f.with_ignore_case(true), false)));
    assert(short_cluster(f, seq!['i'], head(seq!["-n"@] + rest)) == Ok::<(Flag, bool), ParseErrorView>((f.with_ignore_case(true), false)));
    assert(short_cluster(g, Seq::<char>::empty(), head(rest)) == Ok::<(Flag, bool), ParseErrorView>((g, false)));
    assert(short_cluster(f.with_ignore_case(true), seq!['n'], head(rest)) == Ok::<(Flag, bool), ParseErrorView>((g, false)));
    assert(parse_args(two, f) == parse_args(seq!["-n"@] + rest, f.with_ignore_case(true)));
    assert(parse_args(two, f) == parse_args(rest, g));

    // --ignore-case --line-number
    lemma_no_equals("--ignore-case"@);
    lemma_no_equals("--line-number"@);
    assert(parse_args(long, f) == parse_args(seq!["--line-number"@] + rest, f.with_ignore_case(true)));
    assert(parse_args(long, f) == parse_args(rest, g));
}


proof fn lemma_flag_is_no_count(t: Seq<char>)
    requires
        is_flag(t),
    ensures
        count_value(t) is None,
{
    assert(unsigned_part(t) == t);
    assert(!is_digit(t[0]));
}

proof fn lemma_take_count_ignores_bad_next(
    f: Flag,
    inline: Option<Seq<char>>,
    n1: Seq<char>,
    n2: Seq<char>,
)
    requires
        count_value(n1) is None,
        count_value(n2) is None,
    ensures
        take_count(f, inline, Some(n1)) == take_count(f, inline, Some(n2)),
        take_count(f, inline, Some(n1)) is Ok ==> !take_count(f, inline, Some(n1))->Ok_0.1,
{
}

proof fn lemma_short_cluster_ignores_bad_next(f: Flag, cl: Seq<char>, n1: Seq<char>, n2: Seq<char>)
    requires
        count_value(n1) is None,
        count_value(n2) is None,
    ensures
        short_cluster(f, cl, Some(n1)) == short_cluster(f, cl, Some(n2)),
        short_cluster(f, cl, Some(n1)) is Ok ==> !short_cluster(f, cl, Some(n1))->Ok_0.1,
    decreases cl.len(),
{
    if cl.len() > 0 {
        if cl[0] == 'i' {
            lemma_short_cluster_ignores_bad_next(f.with_ignore_case(true), cl.drop_first(), n1, n2);
        } else if cl[0] == 'n' {
            lemma_short_cluster_ignores_bad_next(f.with_line_number(), cl.drop_first(), n1, n2);
        } else if cl[0] == 'm' {
            let rest = cl.drop_first();
            lemma_take_count_ignores_bad_next(
                f,
                if rest.len() > 0 {
                    Some(rest)
                } else {
                    None
                },
                n1,
                n2,
            );
        }
    }
}

proof fn lemma_flag_step_ignores_bad_next(f: Flag, t: Seq<char>, n1: Seq<char>, n2: Seq<char>)
    requires
        count_value(n1) is None,
        count_value(n2) is None,
    ensures
        flag_step(f, t, Some(n1)) == flag_step(f, t, Some(n2)),
        flag_step(f, t, Some(n1)) is Ok ==> !flag_step(f, t, Some(n1))->Ok_0.1,
{
    if is_long(t) {
        lemma_take_count_ignores_bad_next(f, long_value(t), n1, n2);
    } else {
        lemma_short_cluster_ignores_bad_next(f, t.drop_first(), n1, n2);
    }
}

/// Two groups of flags `x` and `y` that have the same effect in front of
/// `b`, whatever the options before them, have the same effect after any
/// arguments `a` too.
proof fn lemma_same_effect_in_context(
    a: Seq<Seq<char>>,
    x: Seq<Seq<char>>,
    y: Seq<Seq<char>>,
    b: Seq<Seq<char>>,
    f: Flag,
)
    requires
        x.len() > 0 && is_flag(x[0]),
        y.len() > 0 && is_flag(y[0]),
        forall|g: Flag| #[trigger] parse_args(x + b, g) == parse_args(y + b, g),
    ensures
        parse_args(a + x + b, f) == parse_args(a + y + b, f),
    decreases a.len(),
{
    if a.len() == 0 {
        assert(a + x + b =~= x + b);
        assert(a + y + b =~= y + b);
        assert(parse_args(x + b, f) == parse_args(y + b, f));
    } else {
        let t = a[0];
        let a1 = a.drop_first();
        let sx = a + x + b;
        let sy = a + y + b;
        assert(sx[0] == t && sy[0] == t);
        assert(sx.drop_first() =~= a1 + x + b);
        assert(sy.drop_first() =~= a1 + y + b);
        if !is_flag(t) {
            lemma_same_effect_in_context(a1, x, y, b, f);
        } else if a1.len() > 0 {
            assert(head(a1 + x + b) == Some(a1[0]));
            assert(head(a1 + y + b) == Some(a1[0]));
            assert((a1 + x + b).drop_first() =~= a1.drop_first() + x + b);
            assert((a1 + y + b).drop_first() =~= a1.drop_first() + y + b);
            match flag_step(f, t, Some(a1[0])) {
                Ok((g, used)) => {
                    lemma_same_effect_in_context(a1, x, y, b, g);
                    lemma_same_effect_in_context(a1.drop_first(), x, y, b, g);
                },
                Err(e) => {},
            }
        } else {
            assert(a1 + x + b =~= x + b);
            assert(a1 + y + b =~= y + b);
            assert(head(x + b) == Some(x[0]));
            assert(head(y + b) == Some(y[0]));
            lemma_flag_is_no_count(x[0]);
            lemma_flag_is_no_count(y[0]);
            lemma_flag_step_ignores_bad_next(f, t, x[0], y[0]);
            match flag_step(f, t, Some(x[0])) {
                Ok((g, used)) => {
                    assert(parse_args(x + b, g) == parse_args(y + b, g));
                },
                Err(e) => {},
            }
        }
    }
}

/// The short flags `i` and `n` have the same effect bundled in one argument
/// (`-in`), written as two (`-i -n`), or written in their long forms
/// (`--ignore-case --line-number`), wherever they stand among the arguments
/// and whatever the options before the first argument.
pub proof fn lemma_bundled_flags_anywhere(a: Seq<Seq<char>>, b: Seq<Seq<char>>, f: Flag)
    ensures
        parse_args(a + seq!["-in"@] + b, f) == parse_args(a + seq!["-i"@, "-n"@] + b, f),
        parse_args(a + seq!["-in"@] + b, f) == parse_args(
            a + seq!["--ignore-case"@, "--line-number"@] + b,
            f,
        ),
{
    reveal_strlit("-in");
    reveal_strlit("-i");
    reveal_strlit("--ignore-case");
    let one = seq!["-in"@];
    let two = seq!["-i"@, "-n"@];
    let long = seq!["--ignore-case"@, "--line-number"@];
    assert forall|g: Flag| #[trigger] parse_args(one + b, g) == parse_args(two + b, g) by {
        lemma_bundled_flags(g, b);
    }
    assert forall|g: Flag| #[trigger] parse_args(one + b, g) == parse_args(long + b, g) by {
        lemma_bundled_flags(g, b);
    }
    lemma_same_effect_in_context(a, one, two, b, f);
    lemma_same_effect_in_context(a, one, long, b, f);
}


/// The flag that sets the option of the short flag `c` (`i` or `n`) on its
/// own: `-c`, or its long form when `long` is set.
pub open spec fn single_flag(c: char, long: bool) -> Seq<char> {
    if !long {
        seq!['-', c]
    } else if c == 'i' {
        "--ignore-case"@
    } else {
        "--line-number"@
    }
}

/// The short flags of the cluster `cs`, each as a flag of its own.
pub open spec fn separate_flags(cs: Seq<char>, long: bool) -> Seq<Seq<char>> {
    cs.map_values(|c: char| single_flag(c, long))
}

/// Every character of `cs` is `i` or `n`.
pub open spec fn only_i_and_n(cs: Seq<char>) -> bool {
    forall|k: int| 0 <= k < cs.len() ==> (#[trigger] cs[k] == 'i' || cs[k] == 'n')
}

proof fn lemma_separate_flags(cs: Seq<char>, long: bool, b: Seq<Seq<char>>, f: Flag, n: Option<Seq<char>>)
    requires
        only_i_and_n(cs),
    ensures
        short_cluster(f, cs, n) is Ok,
        !short_cluster(f, cs, n)->Ok_0.1,
        parse_args(separate_flags(cs, long) + b, f) == parse_args(b, short_cluster(f, cs, n)->Ok_0.0),
    decreases cs.len(),
{
    reveal_strlit("--ignore-case");
    reveal_strlit("--line-number");
    reveal_strlit("--no-ignore-case");
    reveal_strlit("--max-count");
    if cs.len() == 0 {
        assert(separate_flags(cs, long) + b =~= b);
    } else {
        let c = cs[0];
        let rest = cs.drop_first();
        let g = if c == 'i' {
            f.with_ignore_case(true)
        } else {
            f.with_line_number()
        };
        assert(only_i_and_n(rest)) by {
            assert forall|k: int| 0 <= k < rest.len() implies (#[trigger] rest[k] == 'i' || rest[k]
                == 'n') by {
                assert(rest[k] == cs[k + 1]);
            }
        }
        lemma_separate_flags(rest, long, b, g, n);
        let toks = separate_flags(cs, long) + b;
        let t = single_flag(c, long);
        assert(toks[0] == t);
        assert(toks.drop_first() =~= separate_flags(rest, long) + b);
        if long {
            lemma_no_equals(t);
        } else {
            assert(t.drop_first() =~= seq![c]);
            assert(seq![c].drop_first() =~= Seq::<char>::empty());
            assert(short_cluster(g, Seq::<char>::empty(), head(toks.drop_first())) == Ok::<
                (Flag, bool),
                ParseErrorView,
            >((g, false)));
        }
        assert(flag_step(f, t, head(toks.drop_first())) == Ok::<(Flag, bool), ParseErrorView>(
            (g, false),
        ));
    }
}

/// A cluster of the short flags `i` and `n` (`-in`, `-nin`, ...) has the same
/// effect as its flags written one by one (`-i -n`, ...), or written in their
/// long forms (`--ignore-case --line-number`, ...), wherever the cluster
/// stands among the arguments and whatever the options before the first.
pub proof fn lemma_cluster_splits(
    cs: Seq<char>,
    long: bool,
    a: Seq<Seq<char>>,
    b: Seq<Seq<char>>,
    f: Flag,
)
    requires
        cs.len() > 0,
        only_i_and_n(cs),
    ensures
        parse_args(a + seq![seq!['-'] + cs] + b, f) == parse_args(
            a + separate_flags(cs, long) + b,
            f,
        ),
{
    reveal_strlit("--ignore-case");
    reveal_strlit("--line-number");
    let x = seq![seq!['-'] + cs];
    let y = separate_flags(cs, long);
    assert forall|g: Flag| #[trigger] parse_args(x + b, g) == parse_args(y + b, g) by {
        let toks = x + b;
        assert(toks[0] == seq!['-'] + cs);
        assert(toks.drop_first() =~= b);
        assert((seq!['-'] + cs).drop_first() =~= cs);
        assert(!is_long(seq!['-'] + cs)) by {
            assert((seq!['-'] + cs)[1] == cs[0]);
        }
        lemma_separate_flags(cs, long, b, g, head(b));
    }
    assert(is_flag(y[0])) by {
        assert(y[0] == single_flag(cs[0], long));
    }
    lemma_same_effect_in_context(a, x, y, b, f);
}

} // verus!

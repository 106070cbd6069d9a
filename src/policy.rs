//! The run's configuration and the rule that decides whether a line is new.
use vstd::prelude::*;
use crate::lineset::LineSet;

verus! {

/// The configuration of one run.
pub struct Options {
    /// Do not echo admitted lines.
    pub quiet_mode: bool,
    /// Defer all writing to one final pass in natural order.
    pub sort: bool,
    /// Compare lines with surrounding whitespace removed.
    pub trim: bool,
    /// Rewrite the destination without its duplicates before reading input.
    pub rewrite: bool,
    /// Never change the destination.
    pub dry_run: bool,
    /// The destination file.
    pub filepath: String,
}

/// Whether `c` has the Unicode `White_Space` property.
pub open spec fn is_white_space(c: char) -> bool {
    ('\u{9}' <= c && c <= '\u{d}') || c == ' ' || c == '\u{85}' || c == '\u{a0}' || c
        == '\u{1680}' || ('\u{2000}' <= c && c <= '\u{200a}') || c == '\u{2028}' || c
        == '\u{2029}' || c == '\u{202f}' || c == '\u{205f}' || c == '\u{3000}'
}

/// `s` without its leading whitespace.
pub open spec fn trim_start(s: Seq<char>) -> Seq<char>
    decreases s.len(),
{
    if s.len() > 0 && is_white_space(s[0]) {
        trim_start(s.drop_first())
    } else {
        s
    }
}

/// `s` without its trailing whitespace.
pub open spec fn trim_end(s: Seq<char>) -> Seq<char>
    decreases s.len(),
{
    if s.len() > 0 && is_white_space(s.last()) {
        trim_end(s.drop_last())
    } else {
        s
    }
}

/// `s` without its leading and trailing whitespace.
pub open spec fn trimmed(s: Seq<char>) -> Seq<char> {
    trim_end(trim_start(s))
}

/// Relies on `str::trim`: the slice without leading and trailing characters
/// that have the Unicode `White_Space` property.
#[verifier::external_body]
pub(crate) fn trim_str<'a>(s: &'a str) -> (r: &'a str)
    ensures
        r@ == trimmed(s@),
{
    s.trim()
}

/// The key under which a line is looked up: the line itself, or the line
/// trimmed when trimming is on.
pub open spec fn line_key(line: Seq<char>, trim: bool) -> Seq<char> {
    if trim {
        trimmed(line)
    } else {
        line
    }
}

/// The keys of the lines `set` holds.
pub open spec fn set_keys(set: Seq<Seq<char>>, trim: bool) -> Seq<Seq<char>> {
    set.map_values(|e: Seq<char>| line_key(e, trim))
}

/// Whether `line` is admitted into a run whose set holds `set`: its key is
/// not empty, and no line held has the same key.
pub open spec fn admits(set: Seq<Seq<char>>, line: Seq<char>, trim: bool) -> bool {
    let key = line_key(line, trim);
    key.len() > 0 && !set_keys(set, trim).contains(key)
}

/// The set after `line` is offered: an admitted line is added as it is
/// (not trimmed).
pub open spec fn admit_step(set: Seq<Seq<char>>, line: Seq<char>, trim: bool) -> Seq<Seq<char>> {
    if admits(set, line, trim) {
        set.push(line)
    } else {
        set
    }
}

/// Decides whether `line` is new to `lines`.
pub fn should_add_line(args: &Options, lines: &LineSet, line: &str) -> (r: bool)
    requires
        lines.wf(args.trim),
    ensures
        r == admits(lines@, line@, args.trim),
{
    proof {
        assert(lines.keys() =~= set_keys(lines@, args.trim));
    }
    let key: &str = if args.trim {
        trim_str(line)
    } else {
        line
    };
    !key.is_empty() && !lines.contains(key)
}

proof fn lemma_trim_all_white_space(s: Seq<char>)
    requires
        forall|i: int| 0 <= i < s.len() ==> is_white_space(#[trigger] s[i]),
    ensures
        trimmed(s).len() == 0,
    decreases s.len(),
{
    if s.len() > 0 {
        assert forall|i: int| 0 <= i < s.drop_first().len() implies is_white_space(
            #[trigger] s.drop_first()[i],
        ) by {
            assert(s.drop_first()[i] == s[i + 1]);
        }
        lemma_trim_all_white_space(s.drop_first());
    }
}

/// A line made only of whitespace is never admitted while trimming, whatever
/// the set holds.
pub proof fn lemma_blank_line_rejected(set: Seq<Seq<char>>, line: Seq<char>)
    requires
        forall|i: int| 0 <= i < line.len() ==> is_white_space(#[trigger] line[i]),
    ensures
        !admits(set, line, true),
{
    lemma_trim_all_white_space(line);
}

/// While trimming, a line is rejected when a line held has the same trimmed
/// form, whether that line was held trimmed or not.
pub proof fn lemma_trimmed_duplicate_rejected(set: Seq<Seq<char>>, line: Seq<char>, i: int)
    requires
        0 <= i < set.len(),
        trimmed(set[i]) == trimmed(line),
    ensures
        !admits(set, line, true),
{
    assert(set_keys(set, true)[i] == trimmed(line));
}

/// Offering the same line twice leaves the set as offering it once does,
/// and the second offer is always rejected.
pub proof fn lemma_admit_idempotent(set: Seq<Seq<char>>, line: Seq<char>, trim: bool)
    ensures
        !admits(admit_step(set, line, trim), line, trim),
        admit_step(admit_step(set, line, trim), line, trim) == admit_step(set, line, trim),
{
    let once = admit_step(set, line, trim);
    if admits(set, line, trim) {
        assert(set_keys(once, trim)[set.len() as int] == line_key(line, trim));
    }
}

} // verus!

//! One run: loading the destination's lines, deciding what happens to each
//! input line, and the two passes that rewrite the destination.
use vstd::prelude::*;
use core::cmp::Ordering;
use crate::lineset::LineSet;
use crate::natsort::{compare, lemma_compare_equal_iff_identical, natural_cmp};
use crate::policy::{admit_step, admits, set_keys, should_add_line, Options};

verus! {

/// The text of each string.
pub open spec fn line_views(v: Seq<String>) -> Seq<Seq<char>> {
    v.map_values(|x: String| x@)
}

/// The set after offering each of `lines` in turn, starting from `set`.
pub open spec fn admit_all(set: Seq<Seq<char>>, lines: Seq<Seq<char>>, trim: bool) -> Seq<
    Seq<char>,
>
    decreases lines.len(),
{
    if lines.len() == 0 {
        set
    } else {
        admit_step(admit_all(set, lines.drop_last(), trim), lines.last(), trim)
    }
}

/// Whether the rewrite pass runs.
pub open spec fn rewrites(args: Options) -> bool {
    args.rewrite && !args.dry_run
}

/// Whether an admitted input line is appended at once.
pub open spec fn appends(args: Options, admitted: bool) -> bool {
    admitted && !args.sort && !args.dry_run
}

/// Whether the final sorted pass runs.
pub open spec fn writes_sorted(args: Options) -> bool {
    args.sort && !args.dry_run
}

/// `s` is in non-decreasing natural order (case-sensitive).
pub open spec fn sorted_naturally(s: Seq<Seq<char>>) -> bool {
    forall|i: int, j: int|
        0 <= i < j < s.len() ==> natural_cmp(s[i], s[j], false) != Ordering::Greater
}

/// `s` is in strictly increasing natural order (case-sensitive).
pub open spec fn strictly_sorted_naturally(s: Seq<Seq<char>>) -> bool {
    forall|i: int, j: int|
        0 <= i < j < s.len() ==> natural_cmp(s[i], s[j], false) == Ordering::Less
}

/// What happens to one input line.
pub struct LineOutcome {
    /// The line was admitted.
    pub admitted: bool,
    /// The line is echoed to standard output.
    pub echo: bool,
    /// The line is appended to the destination at once.
    pub append: bool,
}

/// Builds the set from the destination's existing lines, applying the same
/// rule as to input, so that the file's own duplicates are dropped.
pub fn load_file(args: &Options, file_lines: &Vec<String>) -> (r: LineSet)
    ensures
        r.wf(args.trim),
        r@ == admit_all(Seq::empty(), line_views(file_lines@), args.trim),
{
    let mut lines = LineSet::new();
    let mut i: usize = 0;
    while i < file_lines.len()
        invariant
            i <= file_lines.len(),
            lines.wf(args.trim),
            lines@ == admit_all(Seq::empty(), line_views(file_lines@).take(i as int), args.trim),
        decreases file_lines.len() - i,
    {
        let line = &file_lines[i];
        proof {
            assert(lines.keys() =~= set_keys(lines@, args.trim));
        }
        if should_add_line(args, &lines, line.as_str()) {
            lines.insert(line.clone(), args.trim);
        }
        proof {
            let views = line_views(file_lines@);
            assert(views.take(i + 1).drop_last() =~= views.take(i as int));
            assert(views.take(i + 1).last() == line@);
        }
        i += 1;
    }
    proof {
        assert(line_views(file_lines@).take(file_lines.len() as int) =~= line_views(file_lines@));
    }
    lines
}

/// Offers one input line to the set and says what to do with it: an admitted
/// line is echoed unless quiet, and appended at once unless sorting or in a
/// dry run.
pub fn ingest_line(args: &Options, lines: &mut LineSet, line: &str) -> (r: LineOutcome)
    requires
        old(lines).wf(args.trim),
    ensures
        final(lines).wf(args.trim),
        final(lines)@ == admit_step(old(lines)@, line@, args.trim),
        r.admitted == admits(old(lines)@, line@, args.trim),
        r.echo == (r.admitted && !args.quiet_mode),
        r.append == appends(*args, r.admitted),
{
    proof {
        assert(lines.keys() =~= set_keys(lines@, args.trim));
    }
    let admitted = should_add_line(args, lines, line);
    if admitted {
        lines.insert(line.to_owned(), args.trim);
    }
    LineOutcome { admitted, echo: admitted && !args.quiet_mode, append: admitted && !args.sort && !args.dry_run }
}

/// The content of the rewrite pass: the set in insertion order, or `None`
/// where no rewrite is made.
pub fn rewrite_content(args: &Options, lines: &LineSet) -> (r: Option<Vec<String>>)
    ensures
        r is Some <==> rewrites(*args),
        r is Some ==> line_views(r->0@) == lines@,
{
    if args.rewrite && !args.dry_run {
        Some(lines.lines())
    } else {
        None
    }
}

/// Relies on `slice::sort_by`: with `compare`, which is a total order, the
/// result holds the same lines in non-decreasing natural order.
#[verifier::external_body]
fn sort_naturally(v: &mut Vec<String>)
    ensures
        line_views(final(v)@).to_multiset() == line_views(old(v)@).to_multiset(),
        sorted_naturally(line_views(final(v)@)),
{
    v.sort_by(|a, b| compare(a, b, false))
}

/// The content of the final pass: every line of the set in natural order, or
/// `None` where lines are not sorted.
pub fn sorted_content(args: &Options, lines: &LineSet) -> (r: Option<Vec<String>>)
    requires
        lines.wf(args.trim),
    ensures
        r is Some <==> writes_sorted(*args),
        r is Some ==> line_views(r->0@).to_multiset() == lines@.to_multiset(),
        r is Some ==> strictly_sorted_naturally(line_views(r->0@)),
{
    if args.sort && !args.dry_run {
        let mut v = lines.lines();
        sort_naturally(&mut v);
        proof {
            let s = line_views(v@);
            lines.lemma_no_duplicate_lines(args.trim);
            lines@.lemma_multiset_has_no_duplicates();
            s.lemma_multiset_has_no_duplicates_conv();
            assert forall|i: int, j: int| 0 <= i < j < s.len() implies natural_cmp(
                s[i],
                s[j],
                false,
            ) == Ordering::Less by {
                lemma_compare_equal_iff_identical(s[i], s[j]);
            }
        }
        Some(v)
    } else {
        None
    }
}

/// In a dry run nothing is written: no rewrite, no append, no sorted pass.
pub proof fn lemma_dry_run_writes_nothing(args: Options, admitted: bool)
    requires
        args.dry_run,
    ensures
        !rewrites(args),
        !appends(args, admitted),
        !writes_sorted(args),
{
}

/// When sorting (without a rewrite or a dry run), the destination is written
/// once: no line is appended as it is admitted, and the sorted pass runs.
pub proof fn lemma_sort_writes_once(args: Options, admitted: bool)
    requires
        args.sort,
        !args.rewrite,
        !args.dry_run,
    ensures
        !rewrites(args),
        !appends(args, admitted),
        writes_sorted(args),
{
}

} // verus!

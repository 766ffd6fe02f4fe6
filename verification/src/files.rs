//! Tracked files and the line rewriter: the first line whose content matches
//! the tracked expression has its first capture group replaced by the new
//! version; every other line is copied verbatim, and each line is re-emitted
//! terminated by a single line feed.

use vstd::prelude::*;

use crate::re::{compile_expr, expr_ok, line_capture, regex_capture_line, regex_pattern};
use crate::semver::copy_range;
use crate::VersionError;

verus! {

/// ASCII line feed.
pub const LF: u8 = 10;
/// ASCII carriage return.
pub const CR: u8 = 13;

/// A tracked file: a path and a regular expression with at least one capture
/// group; the first capture group identifies the substring replaced on
/// update. Both are byte strings; path handling is the caller's business.
#[derive(Debug, Clone, PartialEq, Eq)]
pub struct TrackedFiles {
    pub file: Vec<u8>,
    pub expr: Vec<u8>,
}

/// The mathematical model of a tracked file.
pub ghost struct TrackedFileView {
    pub file: Seq<u8>,
    pub expr: Seq<u8>,
}

impl View for TrackedFiles {
    type V = TrackedFileView;

    open spec fn view(&self) -> TrackedFileView {
        TrackedFileView { file: self.file@, expr: self.expr@ }
    }
}

impl TrackedFiles {
    pub fn new(file: Vec<u8>, expr: Vec<u8>) -> (r: TrackedFiles)
        ensures
            r@ == (TrackedFileView { file: file@, expr: expr@ }),
    {
        TrackedFiles { file, expr }
    }

    /// Like `new`; the path is taken as the bytes the caller resolved.
    pub fn new_from_path(file: Vec<u8>, expr: Vec<u8>) -> (r: TrackedFiles)
        ensures
            r@ == (TrackedFileView { file: file@, expr: expr@ }),
    {
        TrackedFiles { file, expr }
    }
}

/// The line list a vector of byte vectors stands for.
pub open spec fn lines_view(v: Seq<Vec<u8>>) -> Seq<Seq<u8>> {
    Seq::new(v.len(), |i: int| v[i]@)
}

/// Whether the pattern matches the line with a participating first group.
pub open spec fn line_matches(pattern: Seq<u8>, line: Seq<u8>) -> bool {
    line_capture(pattern, line) is Some
}

/// The line with the first capture span replaced by `v`.
pub open spec fn spec_rewrite_line(line: Seq<u8>, span: (int, int), v: Seq<u8>) -> Seq<u8> {
    line.subrange(0, span.0) + v + line.subrange(span.1, line.len() as int)
}

/// The index of the first matching line at or after `from`, or the length.
pub open spec fn first_match_at(pattern: Seq<u8>, lines: Seq<Seq<u8>>, from: int) -> int
    decreases lines.len() - from,
{
    if from >= lines.len() {
        lines.len() as int
    } else if line_matches(pattern, lines[from]) {
        from
    } else {
        first_match_at(pattern, lines, from + 1)
    }
}

pub proof fn lemma_first_match_at_spec(pattern: Seq<u8>, lines: Seq<Seq<u8>>, from: int)
    requires
        0 <= from <= lines.len(),
    ensures
        from <= first_match_at(pattern, lines, from) <= lines.len(),
        forall|k: int| from <= k < first_match_at(pattern, lines, from) ==> !line_matches(
            pattern, #[trigger] lines[k]),
        first_match_at(pattern, lines, from) < lines.len() ==> line_matches(
            pattern, lines[first_match_at(pattern, lines, from)]),
    decreases lines.len() - from,
{
    if from < lines.len() && !line_matches(pattern, lines[from]) {
        lemma_first_match_at_spec(pattern, lines, from + 1);
    }
}

/// The rewritten line list: the first matching line has its first capture
/// span replaced by `v`; every other line is kept as it is.
pub open spec fn spec_rewrite_lines(pattern: Seq<u8>, lines: Seq<Seq<u8>>, v: Seq<u8>) -> Seq<
    Seq<u8>,
> {
    let f = first_match_at(pattern, lines, 0);
    if f >= lines.len() {
        lines
    } else {
        match line_capture(pattern, lines[f]) {
            Some(span) => lines.update(f, spec_rewrite_line(lines[f], span, v)),
            None => lines,
        }
    }
}

/// Locality: an update changes exactly the first matching line, and no line
/// at all when none matches.
pub proof fn lemma_rewrite_locality(pattern: Seq<u8>, lines: Seq<Seq<u8>>, v: Seq<u8>)
    ensures
        spec_rewrite_lines(pattern, lines, v).len() == lines.len(),
        forall|k: int| 0 <= k < lines.len() && k != first_match_at(pattern, lines, 0) ==> #[trigger]
            spec_rewrite_lines(pattern, lines, v)[k] == lines[k],
        (forall|k: int| 0 <= k < lines.len() ==> !line_matches(pattern, #[trigger] lines[k]))
            ==> spec_rewrite_lines(pattern, lines, v) == lines,
        first_match_at(pattern, lines, 0) < lines.len() ==> spec_rewrite_lines(pattern, lines, v)[
            first_match_at(pattern, lines, 0)
        ] == spec_rewrite_line(
            lines[first_match_at(pattern, lines, 0)],
            line_capture(pattern, lines[first_match_at(pattern, lines, 0)])->Some_0,
            v,
        ),
{
    lemma_first_match_at_spec(pattern, lines, 0);
    let f = first_match_at(pattern, lines, 0);
    if f < lines.len() {
        assert(line_matches(pattern, lines[f]));
    } else {
        if exists|k: int| 0 <= k < lines.len() && line_matches(pattern, #[trigger] lines[k]) {
            let k = choose|k: int| 0 <= k < lines.len() && line_matches(
                pattern, #[trigger] lines[k]);
            assert(!line_matches(pattern, lines[k]));
        }
    }
}

/// Idempotence: rewriting a second time changes nothing, provided the
/// rewritten line still matches with its first capture span lying exactly on
/// the inserted version. (Without that proviso a second pass can pick a
/// different line: with the pattern `(0\.1\.0)` and the version `2.0.0`, the
/// rewritten line no longer matches and a later matching line would be
/// rewritten instead.)
pub proof fn lemma_rewrite_idempotent(pattern: Seq<u8>, lines: Seq<Seq<u8>>, v: Seq<u8>)
    requires
        ({
            let f = first_match_at(pattern, lines, 0);
            f < lines.len() ==> {
                let span = line_capture(pattern, lines[f])->Some_0;
                &&& 0 <= span.0 <= span.1 <= lines[f].len()
                &&& line_capture(pattern, spec_rewrite_line(lines[f], span, v)) == Some(
                    (span.0, span.0 + v.len()),
                )
            }
        }),
    ensures
        spec_rewrite_lines(pattern, spec_rewrite_lines(pattern, lines, v), v)
            == spec_rewrite_lines(pattern, lines, v),
{
    lemma_first_match_at_spec(pattern, lines, 0);
    let f = first_match_at(pattern, lines, 0);
    let once = spec_rewrite_lines(pattern, lines, v);
    if f >= lines.len() {
        lemma_first_match_at_spec(pattern, once, 0);
    } else {
        let span = line_capture(pattern, lines[f])->Some_0;
        let new_line = spec_rewrite_line(lines[f], span, v);
        assert(once == lines.update(f, new_line));
        assert(once[f] == new_line);
        assert(line_matches(pattern, new_line));
        assert forall|k: int| 0 <= k < f implies !line_matches(pattern, #[trigger] once[k]) by {
            assert(once[k] == lines[k]);
        }
        lemma_first_match_at_of_run(pattern, once, 0, f);
        let span2 = line_capture(pattern, new_line)->Some_0;
        assert(span2 == ((span.0, span.0 + v.len() as int)));
        let twice_line = spec_rewrite_line(new_line, span2, v);
        assert(twice_line =~= new_line) by {
            assert(new_line.subrange(0, span.0) =~= lines[f].subrange(0, span.0));
            assert(new_line.subrange(span.0 + v.len(), new_line.len() as int) =~= lines[
                f
            ].subrange(span.1, lines[f].len() as int));
        }
        assert(spec_rewrite_lines(pattern, once, v) == once.update(f, twice_line));
        assert(once.update(f, twice_line) =~= once);
    }
}

/// `first_match_at` lands on a known first matching position.
pub proof fn lemma_first_match_at_of_run(pattern: Seq<u8>, lines: Seq<Seq<u8>>, from: int, pos: int)
    requires
        0 <= from <= pos <= lines.len(),
        forall|k: int| from <= k < pos ==> !line_matches(pattern, #[trigger] lines[k]),
        pos < lines.len() ==> line_matches(pattern, lines[pos]),
    ensures
        first_match_at(pattern, lines, from) == pos,
{
    lemma_first_match_at_spec(pattern, lines, from);
    let f = first_match_at(pattern, lines, from);
    if f < pos {
        assert(line_matches(pattern, lines[f]));
    } else if pos < f {
        assert(!line_matches(pattern, lines[pos]));
    }
}

/// A line as re-emitted: the trailing carriage return of a CRLF ending is
/// dropped (the terminating line feed is already gone).
pub open spec fn strip_cr(line: Seq<u8>) -> Seq<u8> {
    if line.len() > 0 && line.last() == CR {
        line.drop_last()
    } else {
        line
    }
}

/// The lines of `c` from position `from` on: split at line feeds, each line
/// stripped of a trailing carriage return; a trailing line feed ends the
/// last line rather than opening an empty one.
pub open spec fn spec_split_from(c: Seq<u8>, from: int) -> Seq<Seq<u8>>
    recommends
        0 <= from <= c.len(),
    decreases c.len() - from when 0 <= from <= c.len() via spec_split_from_decreases
{
    if from >= c.len() {
        Seq::empty()
    } else {
        let e = crate::grammar::find_from(c, from, LF);
        if e >= c.len() {
            seq![strip_cr(c.subrange(from, c.len() as int))]
        } else {
            seq![strip_cr(c.subrange(from, e))] + spec_split_from(c, e + 1)
        }
    }
}

#[via_fn]
proof fn spec_split_from_decreases(c: Seq<u8>, from: int) {
    crate::grammar::lemma_find_from_spec(c, from, LF);
}

/// The lines of a whole content.
pub open spec fn spec_split(c: Seq<u8>) -> Seq<Seq<u8>> {
    spec_split_from(c, 0)
}

/// The content the lines are written back as: every line terminated by a
/// single line feed.
pub open spec fn spec_join(lines: Seq<Seq<u8>>) -> Seq<u8>
    decreases lines.len(),
{
    if lines.len() == 0 {
        Seq::empty()
    } else {
        lines[0] + seq![LF] + spec_join(lines.drop_first())
    }
}

proof fn lemma_join_push(lines: Seq<Seq<u8>>, x: Seq<u8>)
    ensures
        spec_join(lines.push(x)) == spec_join(lines) + x + seq![LF],
    decreases lines.len(),
{
    if lines.len() == 0 {
        assert(lines.push(x)[0] == x);
        assert(lines.push(x).drop_first() =~= Seq::<Seq<u8>>::empty());
        assert(spec_join(Seq::<Seq<u8>>::empty()) == Seq::<u8>::empty());
        assert(spec_join(lines.push(x)) =~= spec_join(lines) + x + seq![LF]);
    } else {
        assert(lines.push(x).drop_first() =~= lines.drop_first().push(x));
        lemma_join_push(lines.drop_first(), x);
        assert(lines.push(x)[0] == lines[0]);
        assert(spec_join(lines.push(x)) == lines[0] + seq![LF] + (spec_join(lines.drop_first())
            + x + seq![LF]));
        assert(lines[0] + seq![LF] + (spec_join(lines.drop_first()) + x + seq![LF]) =~= spec_join(
            lines) + x + seq![LF]);
    }
}

/// Splits content into its lines.
pub fn split_lines(c: &[u8]) -> (r: Vec<Vec<u8>>)
    ensures
        lines_view(r@) == spec_split(c@),
{
    let len = c.len();
    let mut out: Vec<Vec<u8>> = Vec::new();
    let mut pos: usize = 0;
    while pos < len
        invariant
            0 <= pos <= len == c@.len(),
            spec_split(c@) =~= lines_view(out@) + spec_split_from(c@, pos as int),
        decreases len - pos,
    {
        let ghost opos = pos as int;
        let e = crate::semver::scan_for(c, pos, LF);
        let end: usize = if e > pos && c[e - 1] == CR {
            e - 1
        } else {
            e
        };
        let line = copy_range(c, pos, end);
        proof {
            crate::grammar::lemma_find_from_spec(c@, pos as int, LF);
            assert(line@ =~= strip_cr(c@.subrange(pos as int, e as int))) by {
                let full = c@.subrange(pos as int, e as int);
                if e > pos && c@[e - 1] == CR {
                    assert(full.last() == c@[e - 1]);
                    assert(line@ =~= full.drop_last());
                } else {
                    if full.len() > 0 {
                        assert(full.last() == c@[e - 1]);
                    }
                }
            }
        }
        let ghost prev = out@;
        out.push(line);
        proof {
            assert(lines_view(out@) =~= lines_view(prev).push(line@)) by {
                assert(prev.len() == lines_view(prev).len());
                lemma_lines_view_push(prev, lines_view(prev), line@, prev.len() as int);
            }
            assert(lines_view(prev).push(line@) =~= lines_view(prev) + seq![line@]);
        }
        if e == len {
            pos = len;
        } else {
            pos = e + 1;
        }
        proof {
            assert(spec_split_from(c@, opos) =~= seq![line@] + spec_split_from(c@, pos as int))
                by {
                if e == len {
                    assert(spec_split_from(c@, pos as int) =~= Seq::<Seq<u8>>::empty());
                    assert(spec_split_from(c@, opos) =~= seq![line@]);
                }
            }
            assert(lines_view(prev) + seq![line@] + spec_split_from(c@, pos as int)
                =~= lines_view(prev) + (seq![line@] + spec_split_from(c@, pos as int)));
            assert(spec_split(c@) =~= lines_view(out@) + spec_split_from(c@, pos as int));
        }
    }
    proof {
        assert(spec_split_from(c@, pos as int) =~= Seq::<Seq<u8>>::empty());
        assert(lines_view(out@) =~= spec_split(c@));
    }
    out
}

/// Joins lines back into content, each line terminated by a line feed.
pub fn join_lines(lines: &Vec<Vec<u8>>) -> (r: Vec<u8>)
    ensures
        r@ == spec_join(lines_view(lines@)),
{
    let ghost lv = lines_view(lines@);
    let mut out: Vec<u8> = Vec::new();
    let mut i: usize = 0;
    let n = lines.len();
    while i < n
        invariant
            0 <= i <= n == lines.len(),
            lv == lines_view(lines@),
            out@ == spec_join(lv.take(i as int)),
        decreases n - i,
    {
        let src = &lines[i];
        let mut chunk = copy_range(src.as_slice(), 0, src.len());
        out.append(&mut chunk);
        out.push(LF);
        proof {
            lemma_join_push(lv.take(i as int), lv[i as int]);
            assert(lv.take(i as int).push(lv[i as int]) =~= lv.take(i + 1));
            assert(src@.subrange(0, src@.len() as int) =~= lv[i as int]);
            assert(out@ =~= spec_join(lv.take(i + 1)));
        }
        i = i + 1;
    }
    proof {
        assert(lv.take(n as int) =~= lv);
    }
    out
}

/// Appending one vector whose view is the next line extends the viewed list.
proof fn lemma_lines_view_push(prev: Seq<Vec<u8>>, shown: Seq<Seq<u8>>, next: Seq<u8>, i: int)
    requires
        lines_view(prev) == shown,
        i == prev.len(),
    ensures
        forall|x: Vec<u8>| x@ == next ==> lines_view(#[trigger] prev.push(x)) =~= shown.push(next),
{
    assert forall|x: Vec<u8>| x@ == next implies lines_view(#[trigger] prev.push(x))
        =~= shown.push(next) by {
        let lhs = lines_view(prev.push(x));
        let rhs = shown.push(next);
        assert(lhs.len() == rhs.len());
        assert forall|k: int| 0 <= k < lhs.len() implies lhs[k] == rhs[k] by {
            if k < i {
                assert(lhs[k] == prev.push(x)[k]@);
                assert(prev.push(x)[k] == prev[k]);
                assert(lines_view(prev)[k] == prev[k]@);
            } else {
                assert(prev.push(x)[k] == x);
            }
        }
    }
}

/// Rewrites the line list with a compiled expression.
pub fn rewrite_lines(re: &regex::bytes::Regex, lines: &Vec<Vec<u8>>, v: &[u8]) -> (r: Vec<Vec<u8>>)
    ensures
        lines_view(r@) == spec_rewrite_lines(regex_pattern(*re), lines_view(lines@), v@),
{
    let ghost pattern = regex_pattern(*re);
    let ghost lv = lines_view(lines@);
    let ghost rewritten = spec_rewrite_lines(pattern, lv, v@);
    proof {
        lemma_first_match_at_spec(pattern, lv, 0);
        lemma_rewrite_locality(pattern, lv, v@);
    }
    let mut out: Vec<Vec<u8>> = Vec::new();
    let mut done: bool = false;
    let mut i: usize = 0;
    let n = lines.len();
    while i < n
        invariant
            0 <= i <= n == lines.len(),
            lv == lines_view(lines@),
            rewritten == spec_rewrite_lines(regex_pattern(*re), lv, v@),
            pattern == regex_pattern(*re),
            rewritten.len() == lv.len(),
            lines_view(out@) =~= rewritten.take(i as int),
            done <==> first_match_at(pattern, lv, 0) < i,
            forall|k: int| 0 <= k < first_match_at(pattern, lv, 0) ==> !line_matches(
                pattern, #[trigger] lv[k]),
            first_match_at(pattern, lv, 0) < lv.len() ==> line_matches(
                pattern, lv[first_match_at(pattern, lv, 0)]),
            forall|k: int| 0 <= k < lv.len() && k != first_match_at(pattern, lv, 0)
                ==> #[trigger] rewritten[k] == lv[k],
            first_match_at(pattern, lv, 0) < lv.len() ==> rewritten[first_match_at(pattern, lv, 0)]
                == spec_rewrite_line(
                lv[first_match_at(pattern, lv, 0)],
                line_capture(pattern, lv[first_match_at(pattern, lv, 0)])->Some_0,
                v@,
            ),
        decreases n - i,
    {
        proof {
            assert(lines@[i as int]@ == lv[i as int]);
        }
        if done {
            let src = &lines[i];
            let copied = copy_range(src.as_slice(), 0, src.len());
            let ghost prev = out@;
            proof {
                assert(copied@ =~= lv[i as int]);
            }
            out.push(copied);
            proof {
                assert(prev.len() == lines_view(prev).len());
                lemma_lines_view_push(prev, rewritten.take(i as int), rewritten[i as int], i as int);
                assert(rewritten.take(i as int).push(rewritten[i as int]) =~= rewritten.take(
                    i + 1));
            }
        } else {
            let line = &lines[i];
            match regex_capture_line(re, line.as_slice()) {
                Some((s, e)) => {
                    // this is the first matching line: splice in the version
                    let mut new_line = copy_range(line.as_slice(), 0, s);
                    let mut mid = copy_range(v, 0, v.len());
                    new_line.append(&mut mid);
                    let mut tail = copy_range(line.as_slice(), e, line.len());
                    new_line.append(&mut tail);
                    proof {
                        assert(v@.subrange(0, v@.len() as int) =~= v@);
                        assert(first_match_at(pattern, lv, 0) == i as int);
                        assert(new_line@ =~= spec_rewrite_line(
                            lv[i as int], line_capture(pattern, lv[i as int])->Some_0, v@));
                    }
                    let ghost prev = out@;
                    out.push(new_line);
                    done = true;
                    proof {
                        assert(prev.len() == lines_view(prev).len());
                        lemma_lines_view_push(prev, rewritten.take(i as int), rewritten[i as int],
                            i as int);
                        assert(rewritten.take(i as int).push(rewritten[i as int])
                            =~= rewritten.take(i + 1));
                    }
                },
                None => {
                    proof {
                        assert(first_match_at(pattern, lv, 0) != i as int);
                    }
                    let copied = copy_range(line.as_slice(), 0, line.len());
                    let ghost prev = out@;
                    proof {
                        assert(copied@ =~= lv[i as int]);
                    }
                    out.push(copied);
                    proof {
                        assert(prev.len() == lines_view(prev).len());
                        lemma_lines_view_push(prev, rewritten.take(i as int), rewritten[i as int],
                            i as int);
                        assert(rewritten.take(i as int).push(rewritten[i as int])
                            =~= rewritten.take(i + 1));
                    }
                },
            }
        }
        i = i + 1;
    }
    proof {
        assert(rewritten.take(n as int) =~= rewritten);
    }
    out
}

/// What a tracked-file update leaves in the file: the first matching line
/// rewritten, every other line kept, each line terminated by a line feed.
pub open spec fn spec_update_content(expr: Seq<u8>, content: Seq<u8>, v: Seq<u8>) -> Seq<u8> {
    spec_join(spec_rewrite_lines(expr, spec_split(content), v))
}

/// Rewrites a whole file content for a tracked expression, rejecting an
/// unusable expression with `RegexError` (see `compile_expr`).
pub fn update_file_content(expr: &[u8], content: &[u8], version: &[u8]) -> (r: Result<
    Vec<u8>,
    VersionError,
>)
    ensures
        match r {
            Ok(out) => expr_ok(expr@) && out@ == spec_update_content(expr@, content@, version@),
            Err(e) => !expr_ok(expr@) && e == VersionError::RegexError,
        },
{
    let re = match compile_expr(expr) {
        Ok(re) => re,
        Err(e) => {
            return Err(e);
        },
    };
    let lines = split_lines(content);
    let rewritten = rewrite_lines(&re, &lines, version);
    Ok(join_lines(&rewritten))
}

/// Splitting from a position is splitting the suffix.
pub proof fn lemma_split_from_shift(c: Seq<u8>, from: int)
    requires
        0 <= from <= c.len(),
    ensures
        spec_split_from(c, from) == spec_split(c.subrange(from, c.len() as int)),
    decreases c.len() - from,
{
    let d = c.subrange(from, c.len() as int);
    if from >= c.len() {
        assert(d.len() == 0);
    } else {
        let e = crate::grammar::find_from(c, from, LF);
        crate::grammar::lemma_find_from_spec(c, from, LF);
        assert(crate::grammar::find_from(d, 0, LF) == e - from) by {
            assert(forall|k: int| 0 <= k < e - from ==> #[trigger] d[k] == c[from + k]);
            if e < c.len() {
                assert(d[e - from] == c[e]);
            }
            crate::grammar::lemma_find_from_of_run(d, 0, LF, e - from);
        }
        assert(d.subrange(0, e - from) =~= c.subrange(from, e));
        if e >= c.len() {
            assert(d.subrange(0, d.len() as int) =~= c.subrange(from, c.len() as int));
        } else {
            lemma_split_from_shift(c, e + 1);
            lemma_split_from_shift(d, e - from + 1);
            assert(d.subrange(e - from + 1, d.len() as int) =~= c.subrange(
                e + 1, c.len() as int));
        }
    }
}

/// Round trip: joining lines and splitting again yields the same lines, for
/// lines that hold no line feed and do not end in a carriage return.
pub proof fn lemma_split_join(lines: Seq<Seq<u8>>)
    requires
        forall|i: int| 0 <= i < lines.len() ==> forall|k: int| 0 <= k < (#[trigger] lines[i]).len()
            ==> lines[i][k] != LF,
        forall|i: int| 0 <= i < lines.len() && (#[trigger] lines[i]).len() > 0 ==> lines[i].last()
            != CR,
    ensures
        spec_split(spec_join(lines)) == lines,
    decreases lines.len(),
{
    if lines.len() == 0 {
        assert(spec_join(lines).len() == 0);
        assert(spec_split(spec_join(lines)) =~= lines);
    } else {
        let l0 = lines[0];
        let rest = lines.drop_first();
        let j = spec_join(lines);
        assert(j == l0 + seq![LF] + spec_join(rest));
        assert(forall|k: int| 0 <= k < l0.len() ==> #[trigger] j[k] == l0[k]);
        assert(j[l0.len() as int] == LF);
        crate::grammar::lemma_find_from_of_run(j, 0, LF, l0.len() as int);
        let e = l0.len() as int;
        assert(e < j.len());
        assert(j.subrange(0, e) =~= l0);
        assert(strip_cr(l0) == l0);
        lemma_split_from_shift(j, e + 1);
        assert(j.subrange(e + 1, j.len() as int) =~= spec_join(rest));
        lemma_split_join(rest);
        assert(forall|i: int| 0 <= i < rest.len() ==> #[trigger] rest[i] == lines[i + 1]);
        assert(spec_split(j) =~= seq![l0] + rest);
        assert(seq![l0] + rest =~= lines);
    }
}

/// Split lines hold no line feed.
pub proof fn lemma_split_lines_no_lf(c: Seq<u8>, from: int)
    requires
        0 <= from <= c.len(),
    ensures
        forall|i: int, k: int| 0 <= i < spec_split_from(c, from).len() && 0 <= k
            < spec_split_from(c, from)[i].len() ==> #[trigger] spec_split_from(c, from)[i][k]
            != LF,
    decreases c.len() - from,
{
    if from < c.len() {
        let e = crate::grammar::find_from(c, from, LF);
        crate::grammar::lemma_find_from_spec(c, from, LF);
        let raw = if e >= c.len() {
            c.subrange(from, c.len() as int)
        } else {
            c.subrange(from, e)
        };
        assert(forall|k: int| 0 <= k < raw.len() ==> #[trigger] raw[k] == c[from + k]);
        assert(forall|k: int| 0 <= k < strip_cr(raw).len() ==> #[trigger] strip_cr(raw)[k]
            == raw[k]);
        if e < c.len() {
            lemma_split_lines_no_lf(c, e + 1);
            let rest = spec_split_from(c, e + 1);
            assert forall|i: int, k: int|
                0 <= i < spec_split_from(c, from).len() && 0 <= k < spec_split_from(
                    c, from)[i].len() implies #[trigger] spec_split_from(c, from)[i][k] != LF by {
                if i == 0 {
                    assert(spec_split_from(c, from)[0] == strip_cr(raw));
                } else {
                    assert(spec_split_from(c, from)[i] == rest[i - 1]);
                }
            }
        }
    }
}

/// Idempotence at the whole-file level: updating a file's content twice with
/// the same version leaves what one update left, under the same proviso as
/// the line-level law, as long as no input line ends in a carriage return
/// (a CR-CR-LF ending is re-split differently after the first pass) and the
/// version bytes are printable.
pub proof fn lemma_update_content_idempotent(expr: Seq<u8>, content: Seq<u8>, v: Seq<u8>)
    requires
        ({
            let lines = spec_split(content);
            let f = first_match_at(expr, lines, 0);
            f < lines.len() ==> {
                let span = line_capture(expr, lines[f])->Some_0;
                &&& 0 <= span.0 <= span.1 <= lines[f].len()
                &&& line_capture(expr, spec_rewrite_line(lines[f], span, v)) == Some(
                    (span.0, span.0 + v.len()),
                )
            }
        }),
        forall|i: int| 0 <= i < spec_split(content).len() && (#[trigger] spec_split(
            content)[i]).len() > 0 ==> spec_split(content)[i].last() != CR,
        v.len() > 0,
        forall|k: int| 0 <= k < v.len() ==> 32 <= #[trigger] v[k],
    ensures
        spec_update_content(expr, spec_update_content(expr, content, v), v)
            == spec_update_content(expr, content, v),
{
    let lines = spec_split(content);
    let rewritten = spec_rewrite_lines(expr, lines, v);
    lemma_split_lines_no_lf(content, 0);
    lemma_rewrite_locality(expr, lines, v);
    lemma_first_match_at_spec(expr, lines, 0);
    let f = first_match_at(expr, lines, 0);
    assert forall|i: int, k: int|
        0 <= i < rewritten.len() && 0 <= k < rewritten[i].len() implies #[trigger] rewritten[i][k]
        != LF by {
        if i == f && f < lines.len() {
            let span = line_capture(expr, lines[f])->Some_0;
            let nl = spec_rewrite_line(lines[f], span, v);
            assert(rewritten[i] == nl);
            if k < span.0 {
                assert(nl[k] == lines[f].subrange(0, span.0)[k]);
                assert(lines[f].subrange(0, span.0)[k] == lines[f][k]);
            } else if k < span.0 + v.len() {
                assert(nl[k] == v[k - span.0]);
            } else {
                assert(nl[k] == lines[f].subrange(span.1, lines[f].len() as int)[k - span.0
                    - v.len()]);
                assert(lines[f].subrange(span.1, lines[f].len() as int)[k - span.0 - v.len()]
                    == lines[f][span.1 + k - span.0 - v.len()]);
            }
        } else {
            assert(rewritten[i] == lines[i]);
        }
    }
    assert forall|i: int| 0 <= i < rewritten.len() && (#[trigger] rewritten[i]).len() > 0 implies
        rewritten[i].last() != CR by {
        if i == f && f < lines.len() {
            let span = line_capture(expr, lines[f])->Some_0;
            let nl = spec_rewrite_line(lines[f], span, v);
            assert(rewritten[i] == nl);
            let tail = lines[f].subrange(span.1, lines[f].len() as int);
            if tail.len() > 0 {
                assert(nl.last() == tail.last());
                assert(tail.last() == lines[f].last());
                assert(lines[f].len() > 0);
            } else {
                assert(nl.last() == v.last());
            }
        } else {
            assert(rewritten[i] == lines[i]);
        }
    }
    lemma_split_join(rewritten);
    lemma_rewrite_idempotent(expr, lines, v);
}

} // verus!

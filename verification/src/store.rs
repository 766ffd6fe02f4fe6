//! The persistence format of the document: a small TOML shape, written and
//! read line by line.
//!
//! ```text
//! version = "M.m.p[-pre][+build]"
//! files = [{ file = "…", expr = "…" }, …]
//! [package."<name>"]
//! version = "…"
//! files = […]
//! ```
//!
//! Strings are quoted with the escaping of `quoting`; package names are
//! always written in the quoted key form. The reader accepts exactly this
//! shape (with CRLF line endings tolerated), and reading back what was
//! written yields an equal document.

use vstd::prelude::*;

use crate::document::{files_list_view, packages_view, DocView, Package, PackageView, VersionFile};
use crate::files::{lines_view, spec_join, spec_split, split_lines, join_lines, TrackedFileView,
    TrackedFiles, CR, LF};
use crate::quoting::{append_escaped, clean, clean_byte, esc, is_clean, lemma_scan_esc,
    lemma_scan_string_bounds, read_string, scan_string, QUOTE};
use crate::semver::{spec_format, spec_parse, wf_version, Version, VersionView};
use crate::VersionError;

verus! {

/// `version = "` — the version key and its opening quote.
pub open spec fn vkey() -> Seq<u8> {
    seq![118u8, 101u8, 114u8, 115u8, 105u8, 111u8, 110u8, 32u8, 61u8, 32u8, 34u8]
}

/// `files = [` — the files key up to its opening bracket.
pub open spec fn fkey() -> Seq<u8> {
    seq![102u8, 105u8, 108u8, 101u8, 115u8, 32u8, 61u8, 32u8, 91u8]
}

/// `{ file = "` — an inline table up to the opening quote of the path.
pub open spec fn item_open() -> Seq<u8> {
    seq![123u8, 32u8, 102u8, 105u8, 108u8, 101u8, 32u8, 61u8, 32u8, 34u8]
}

/// `, expr = "` — between the path's closing quote and the expression.
pub open spec fn item_mid() -> Seq<u8> {
    seq![44u8, 32u8, 101u8, 120u8, 112u8, 114u8, 32u8, 61u8, 32u8, 34u8]
}

/// ` }` — after the expression's closing quote.
pub open spec fn item_end() -> Seq<u8> {
    seq![32u8, 125u8]
}

/// `[package."` — a package header up to the opening quote of the name.
pub open spec fn hkey() -> Seq<u8> {
    seq![91u8, 112u8, 97u8, 99u8, 107u8, 97u8, 103u8, 101u8, 46u8, 34u8]
}

/// The `version = "…"` line of a version.
pub open spec fn ser_version_line(v: VersionView) -> Seq<u8> {
    vkey() + esc(spec_format(v)) + seq![QUOTE]
}

/// One `{ file = "…", expr = "…" }` inline table.
pub open spec fn ser_item(t: TrackedFileView) -> Seq<u8> {
    item_open() + esc(t.file) + seq![QUOTE] + item_mid() + esc(t.expr) + seq![QUOTE] + item_end()
}

pub open spec fn ser_items(fs: Seq<TrackedFileView>) -> Seq<u8>
    decreases fs.len(),
{
    if fs.len() == 0 {
        Seq::empty()
    } else if fs.len() == 1 {
        ser_item(fs[0])
    } else {
        ser_item(fs[0]) + seq![44u8, 32u8] + ser_items(fs.drop_first())
    }
}

/// The `files = […]` line of a scope.
pub open spec fn ser_files_line(fs: Seq<TrackedFileView>) -> Seq<u8> {
    fkey() + ser_items(fs) + seq![93u8]
}

/// The `[package."…"]` header line.
pub open spec fn ser_header_line(name: Seq<u8>) -> Seq<u8> {
    hkey() + esc(name) + seq![QUOTE, 93u8]
}

/// The three lines of one package section.
pub open spec fn ser_pkg(entry: (Seq<u8>, PackageView)) -> Seq<Seq<u8>> {
    seq![ser_header_line(entry.0), ser_version_line(entry.1.version), ser_files_line(
        entry.1.files)]
}

pub open spec fn ser_pkgs(ps: Seq<(Seq<u8>, PackageView)>) -> Seq<Seq<u8>>
    decreases ps.len(),
{
    if ps.len() == 0 {
        Seq::empty()
    } else {
        ser_pkg(ps[0]) + ser_pkgs(ps.drop_first())
    }
}

/// All the lines of the stored document.
pub open spec fn ser_lines(d: DocView) -> Seq<Seq<u8>> {
    seq![ser_version_line(d.version), ser_files_line(d.files)] + ser_pkgs(d.packages)
}

/// The stored bytes: every line terminated by a line feed.
pub open spec fn spec_ser_doc(d: DocView) -> Seq<u8> {
    spec_join(ser_lines(d))
}

/// A document the store can write: every string free of control bytes.
pub open spec fn serializable(d: DocView) -> bool {
    &&& forall|i: int| 0 <= i < d.files.len() ==> clean((#[trigger] d.files[i]).file) && clean(
        d.files[i].expr)
    &&& forall|i: int| 0 <= i < d.packages.len() ==> clean((#[trigger] d.packages[i]).0)
    &&& forall|i: int, j: int| 0 <= i < d.packages.len() && 0 <= j < d.packages[i].1.files.len()
        ==> clean((#[trigger] d.packages[i].1.files[j]).file) && clean(d.packages[i].1.files[j].expr)
}

/// Reads a `version = "…"` line.
pub open spec fn parse_version_line(l: Seq<u8>) -> Option<VersionView> {
    if l.len() >= 11 && l.subrange(0, 11) == vkey() {
        match scan_string(l, 11) {
            Some(te) => {
                if te.1 == l.len() {
                    spec_parse(te.0)
                } else {
                    None
                }
            },
            None => None,
        }
    } else {
        None
    }
}

/// Reads the inline tables of a `files` line, starting at `pos`, up to and
/// including the closing bracket, which must end the line.
pub open spec fn parse_items(l: Seq<u8>, pos: int) -> Option<(Seq<TrackedFileView>, int)>
    recommends
        0 <= pos,
    decreases l.len() - pos when 0 <= pos via parse_items_decreases
{
    if pos + 10 > l.len() || l.subrange(pos, pos + 10) != item_open() {
        None
    } else {
        match scan_string(l, pos + 10) {
            Some(fe) => {
                let p1 = fe.1;
                if p1 + 10 > l.len() || l.subrange(p1, p1 + 10) != item_mid() {
                    None
                } else {
                    match scan_string(l, p1 + 10) {
                        Some(xe) => {
                            let p2 = xe.1;
                            if p2 + 2 > l.len() || l.subrange(p2, p2 + 2) != item_end() {
                                None
                            } else {
                                let q = p2 + 2;
                                let tf = TrackedFileView { file: fe.0, expr: xe.0 };
                                if q + 1 == l.len() && l[q] == 93 {
                                    Some((seq![tf], q + 1))
                                } else if q + 2 <= l.len() && l.subrange(q, q + 2) == seq![44u8,
                                    32u8] {
                                    match parse_items(l, q + 2) {
                                        Some(re) => Some((seq![tf] + re.0, re.1)),
                                        None => None,
                                    }
                                } else {
                                    None
                                }
                            }
                        },
                        None => None,
                    }
                }
            },
            None => None,
        }
    }
}

#[via_fn]
proof fn parse_items_decreases(l: Seq<u8>, pos: int) {
    if pos + 10 <= l.len() && scan_string(l, pos + 10) is Some {
        lemma_scan_string_bounds(l, pos + 10);
        let p1 = scan_string(l, pos + 10)->Some_0.1;
        if p1 + 10 <= l.len() && scan_string(l, p1 + 10) is Some {
            lemma_scan_string_bounds(l, p1 + 10);
        }
    }
}

/// Reads a `files = […]` line.
pub open spec fn parse_files_line(l: Seq<u8>) -> Option<Seq<TrackedFileView>> {
    if l.len() >= 9 && l.subrange(0, 9) == fkey() {
        if l.len() == 10 && l[9] == 93 {
            Some(Seq::empty())
        } else {
            match parse_items(l, 9) {
                Some(re) => {
                    if re.1 == l.len() {
                        Some(re.0)
                    } else {
                        None
                    }
                },
                None => None,
            }
        }
    } else {
        None
    }
}

/// Reads a `[package."…"]` header line; the name must be non-empty.
pub open spec fn parse_header_line(l: Seq<u8>) -> Option<Seq<u8>> {
    if l.len() >= 10 && l.subrange(0, 10) == hkey() {
        match scan_string(l, 10) {
            Some(te) => {
                if te.1 + 1 == l.len() && l[te.1] == 93 && te.0.len() > 0 {
                    Some(te.0)
                } else {
                    None
                }
            },
            None => None,
        }
    } else {
        None
    }
}

/// Reads the package sections from line `i` on, three lines each.
pub open spec fn parse_pkgs(ls: Seq<Seq<u8>>, i: int) -> Option<Seq<(Seq<u8>, PackageView)>>
    recommends
        0 <= i,
    decreases ls.len() - i,
{
    if i >= ls.len() {
        Some(Seq::empty())
    } else if i + 3 > ls.len() {
        None
    } else {
        match parse_header_line(ls[i]) {
            Some(name) => match parse_version_line(ls[i + 1]) {
                Some(v) => match parse_files_line(ls[i + 2]) {
                    Some(fs) => match parse_pkgs(ls, i + 3) {
                        Some(rest) => Some(
                            seq![(name, PackageView { version: v, files: fs })] + rest,
                        ),
                        None => None,
                    },
                    None => None,
                },
                None => None,
            },
            None => None,
        }
    }
}

/// Distinct package names (non-emptiness comes from the header grammar).
pub open spec fn names_ok(ps: Seq<(Seq<u8>, PackageView)>) -> bool {
    forall|i: int, j: int| 0 <= i < j < ps.len() ==> (#[trigger] ps[i]).0 != (#[trigger] ps[j]).0
}

/// Reads a whole document from its lines.
pub open spec fn parse_lines(ls: Seq<Seq<u8>>) -> Option<DocView> {
    if ls.len() < 2 {
        None
    } else {
        match parse_version_line(ls[0]) {
            Some(v) => match parse_files_line(ls[1]) {
                Some(fs) => match parse_pkgs(ls, 2) {
                    Some(ps) => {
                        if names_ok(ps) {
                            Some(DocView { version: v, files: fs, packages: ps })
                        } else {
                            None
                        }
                    },
                    None => None,
                },
                None => None,
            },
            None => None,
        }
    }
}

/// Reads a whole document from stored bytes.
pub open spec fn spec_parse_doc(c: Seq<u8>) -> Option<DocView> {
    parse_lines(spec_split(c))
}

/// A part of a known chunk of `l` is itself a chunk of `l`.
proof fn lemma_chunk(l: Seq<u8>, a: int, big: Seq<u8>, off: int, part: Seq<u8>)
    requires
        0 <= a,
        a + big.len() <= l.len(),
        l.subrange(a, a + big.len() as int) == big,
        0 <= off,
        off + part.len() <= big.len(),
        big.subrange(off, off + part.len() as int) == part,
    ensures
        l.subrange(a + off, a + off + part.len() as int) == part,
{
    assert forall|k: int| 0 <= k < part.len() implies #[trigger] l.subrange(
        a + off, a + off + part.len() as int)[k] == part[k] by {
        assert(l.subrange(a, a + big.len() as int)[off + k] == l[a + off + k]);
        assert(big.subrange(off, off + part.len() as int)[k] == big[off + k]);
    }
    assert(l.subrange(a + off, a + off + part.len() as int) =~= part);
}

/// A single byte of a known chunk of `l`.
proof fn lemma_chunk_byte(l: Seq<u8>, a: int, big: Seq<u8>, off: int)
    requires
        0 <= a,
        a + big.len() <= l.len(),
        l.subrange(a, a + big.len() as int) == big,
        0 <= off < big.len(),
    ensures
        l[a + off] == big[off],
{
    assert(l.subrange(a, a + big.len() as int)[off] == l[a + off]);
}

/// Round trip of a version line.
proof fn lemma_rt_version_line(v: VersionView)
    requires
        wf_version(v),
    ensures
        parse_version_line(ser_version_line(v)) == Some(v),
{
    let vb = spec_format(v);
    let l = ser_version_line(v);
    crate::semver::lemma_format_clean(v);
    assert(l.subrange(0, 11) =~= vkey());
    assert(l.subrange(11, 11 + esc(vb).len() as int) =~= esc(vb));
    assert(l[11 + esc(vb).len() as int] == QUOTE);
    lemma_scan_esc(l, vb, 11);
    crate::semver::lemma_parse_format(v);
}

/// Round trip of one or more serialized inline tables followed by the
/// closing bracket that ends the line.
#[verifier::rlimit(60)]
proof fn lemma_rt_items(l: Seq<u8>, fs: Seq<TrackedFileView>, pos: int)
    requires
        fs.len() > 0,
        forall|i: int| 0 <= i < fs.len() ==> clean((#[trigger] fs[i]).file) && clean(fs[i].expr),
        0 <= pos,
        pos + ser_items(fs).len() + 1 == l.len(),
        l.subrange(pos, pos + ser_items(fs).len() as int) == ser_items(fs),
        l[l.len() - 1] == 93,
    ensures
        parse_items(l, pos) == Some((fs, l.len() as int)),
    decreases fs.len(),
{
    let t = fs[0];
    let it = ser_item(t);
    let its = ser_items(fs);
    let ef = esc(t.file);
    let ex = esc(t.expr);
    assert(it == item_open() + ef + seq![QUOTE] + item_mid() + ex + seq![QUOTE] + item_end());
    assert(its.subrange(0, it.len() as int) =~= it);
    lemma_chunk(l, pos, its, 0, it);
    // the item's own pieces, as chunks of `l`
    assert(it.subrange(0, 10) =~= item_open());
    lemma_chunk(l, pos, it, 0, item_open());
    assert(it.subrange(10, 10 + ef.len() as int) =~= ef);
    lemma_chunk(l, pos, it, 10, ef);
    lemma_chunk_byte(l, pos, it, 10 + ef.len() as int);
    assert(it[10 + ef.len() as int] == QUOTE);
    let p1 = pos + 10 + ef.len() + 1;
    lemma_scan_esc(l, t.file, pos + 10);
    assert(scan_string(l, pos + 10) == Some((t.file, p1 as int)));
    assert(it.subrange(11 + ef.len() as int, 21 + ef.len() as int) =~= item_mid());
    lemma_chunk(l, pos, it, 11 + ef.len() as int, item_mid());
    assert(it.subrange(21 + ef.len() as int, 21 + ef.len() + ex.len() as int) =~= ex);
    lemma_chunk(l, pos, it, 21 + ef.len() as int, ex);
    lemma_chunk_byte(l, pos, it, 21 + ef.len() + ex.len() as int);
    assert(it[21 + ef.len() + ex.len() as int] == QUOTE);
    lemma_scan_esc(l, t.expr, p1 + 10);
    let p2 = p1 + 10 + ex.len() + 1;
    assert(scan_string(l, p1 + 10) == Some((t.expr, p2 as int)));
    assert(it.subrange(22 + ef.len() + ex.len() as int, 24 + ef.len() + ex.len() as int) =~= item_end());
    lemma_chunk(l, pos, it, 22 + ef.len() + ex.len() as int, item_end());
    let q = p2 + 2;
    assert(q == pos + it.len());
    if fs.len() == 1 {
        assert(its == it);
        assert(q + 1 == l.len() && l[q] == 93);
        assert(seq![t] =~= fs);
    } else {
        let rest = fs.drop_first();
        assert(its == it + seq![44u8, 32u8] + ser_items(rest));
        assert(its.subrange(it.len() as int, it.len() + 2 as int) =~= seq![44u8, 32u8]);
        lemma_chunk(l, pos, its, it.len() as int, seq![44u8, 32u8]);
        assert(q + 1 != l.len()) by {
            assert(ser_items(rest).len() > 0) by {
                if rest.len() == 1 {
                } else {
                }
            }
        }
        assert(its.subrange(it.len() + 2 as int, its.len() as int) =~= ser_items(rest));
        lemma_chunk(l, pos, its, it.len() + 2 as int, ser_items(rest));
        assert(forall|i: int| 0 <= i < rest.len() ==> #[trigger] rest[i] == fs[i + 1]);
        lemma_rt_items(l, rest, q + 2);
        assert(seq![t] + rest =~= fs);
    }
}

/// Round trip of a files line.
proof fn lemma_rt_files_line(fs: Seq<TrackedFileView>)
    requires
        forall|i: int| 0 <= i < fs.len() ==> clean((#[trigger] fs[i]).file) && clean(fs[i].expr),
    ensures
        parse_files_line(ser_files_line(fs)) == Some(fs),
{
    let l = ser_files_line(fs);
    assert(l.subrange(0, 9) =~= fkey());
    if fs.len() == 0 {
        assert(ser_items(fs) == Seq::<u8>::empty());
        assert(l.len() == 10 && l[9] == 93);
        assert(Seq::<TrackedFileView>::empty() =~= fs);
    } else {
        assert(ser_item(fs[0]).len() >= 24);
        assert(ser_items(fs).len() >= 24) by {
            if fs.len() == 1 {
            } else {
            }
        }
        assert(l.len() > 10);
        assert(l.subrange(9, 9 + ser_items(fs).len() as int) =~= ser_items(fs));
        assert(l[l.len() - 1] == 93);
        lemma_rt_items(l, fs, 9);
    }
}

/// Round trip of a package header line.
proof fn lemma_rt_header_line(name: Seq<u8>)
    requires
        clean(name),
        name.len() > 0,
    ensures
        parse_header_line(ser_header_line(name)) == Some(name),
{
    let l = ser_header_line(name);
    assert(l.subrange(0, 10) =~= hkey());
    assert(l.subrange(10, 10 + esc(name).len() as int) =~= esc(name));
    assert(l[10 + esc(name).len() as int] == QUOTE);
    lemma_scan_esc(l, name, 10);
    assert(l[l.len() - 1] == 93);
}

/// The serialized package sections, counted and indexed.
proof fn lemma_ser_pkgs_shape(ps: Seq<(Seq<u8>, PackageView)>)
    ensures
        ser_pkgs(ps).len() == 3 * ps.len(),
        forall|k: int| 0 <= k < ps.len() ==> #[trigger] ser_pkgs(ps)[3 * k] == ser_header_line(
            ps[k].0) && ser_pkgs(ps)[3 * k + 1] == ser_version_line(ps[k].1.version) && ser_pkgs(
            ps)[3 * k + 2] == ser_files_line(ps[k].1.files),
    decreases ps.len(),
{
    if ps.len() > 0 {
        let rest = ps.drop_first();
        lemma_ser_pkgs_shape(rest);
        assert forall|k: int| 0 <= k < ps.len() implies #[trigger] ser_pkgs(ps)[3 * k]
            == ser_header_line(ps[k].0) && ser_pkgs(ps)[3 * k + 1] == ser_version_line(
            ps[k].1.version) && ser_pkgs(ps)[3 * k + 2] == ser_files_line(ps[k].1.files) by {
            if k == 0 {
                assert(ser_pkgs(ps)[0] == ser_pkg(ps[0])[0]);
                assert(ser_pkgs(ps)[1] == ser_pkg(ps[0])[1]);
                assert(ser_pkgs(ps)[2] == ser_pkg(ps[0])[2]);
            } else {
                assert(rest[k - 1] == ps[k]);
                assert(ser_pkgs(ps)[3 * k] == ser_pkgs(rest)[3 * (k - 1)]);
                assert(ser_pkgs(ps)[3 * k + 1] == ser_pkgs(rest)[3 * (k - 1) + 1]);
                assert(ser_pkgs(ps)[3 * k + 2] == ser_pkgs(rest)[3 * (k - 1) + 2]);
            }
        }
    }
}

/// Round trip of the package sections.
proof fn lemma_rt_pkgs(ls: Seq<Seq<u8>>, ps: Seq<(Seq<u8>, PackageView)>, i: int)
    requires
        0 <= i,
        ls.len() == i + 3 * ps.len(),
        forall|k: int| 0 <= k < ps.len() ==> #[trigger] ls[i + 3 * k] == ser_header_line(ps[k].0)
            && ls[i + 3 * k + 1] == ser_version_line(ps[k].1.version) && ls[i + 3 * k + 2]
            == ser_files_line(ps[k].1.files),
        forall|k: int| 0 <= k < ps.len() ==> clean((#[trigger] ps[k]).0) && ps[k].0.len() > 0
            && wf_version(ps[k].1.version),
        forall|k: int, j: int| 0 <= k < ps.len() && 0 <= j < ps[k].1.files.len() ==> clean(
            (#[trigger] ps[k].1.files[j]).file) && clean(ps[k].1.files[j].expr),
    ensures
        parse_pkgs(ls, i) == Some(ps),
    decreases ps.len(),
{
    if ps.len() == 0 {
        assert(Seq::<(Seq<u8>, PackageView)>::empty() =~= ps);
    } else {
        lemma_rt_header_line(ps[0].0);
        lemma_rt_version_line(ps[0].1.version);
        lemma_rt_files_line(ps[0].1.files);
        assert(ls[i + 3 * 0] == ser_header_line(ps[0].0));
        assert(ls[i + 3 * 0 + 1] == ser_version_line(ps[0].1.version));
        assert(ls[i + 3 * 0 + 2] == ser_files_line(ps[0].1.files));
        assert(ls[i] == ser_header_line(ps[0].0));
        assert(ls[i + 1] == ser_version_line(ps[0].1.version));
        assert(ls[i + 2] == ser_files_line(ps[0].1.files));
        let rest = ps.drop_first();
        assert(forall|k: int| 0 <= k < rest.len() ==> #[trigger] rest[k] == ps[k + 1]);
        assert forall|k: int| 0 <= k < rest.len() implies #[trigger] ls[i + 3 + 3 * k]
            == ser_header_line(rest[k].0) && ls[i + 3 + 3 * k + 1] == ser_version_line(
            rest[k].1.version) && ls[i + 3 + 3 * k + 2] == ser_files_line(rest[k].1.files) by {
            assert(ls[i + 3 * (k + 1)] == ser_header_line(ps[k + 1].0));
            assert(ls[i + 3 * (k + 1) + 1] == ser_version_line(ps[k + 1].1.version));
            assert(ls[i + 3 * (k + 1) + 2] == ser_files_line(ps[k + 1].1.files));
            assert(i + 3 + 3 * k == i + 3 * (k + 1));
        }
        lemma_rt_pkgs(ls, rest, i + 3);
        assert(seq![(ps[0].0, PackageView { version: ps[0].1.version, files: ps[0].1.files })]
            + rest =~= ps);
    }
}

/// Every stored line is clean: free of line feeds, carriage returns and all
/// other control bytes.
proof fn lemma_ser_line_clean(d: DocView)
    requires
        wf_doc_strings(d),
    ensures
        forall|i: int| 0 <= i < ser_lines(d).len() ==> clean(#[trigger] ser_lines(d)[i]),
{
    let ls = ser_lines(d);
    lemma_ser_pkgs_shape(d.packages);
    assert forall|i: int| 0 <= i < ls.len() implies clean(#[trigger] ls[i]) by {
        if i == 0 {
            lemma_version_line_clean(d.version);
        } else if i == 1 {
            lemma_files_line_clean(d.files);
        } else {
            let k = (i - 2) / 3;
            let j = (i - 2) % 3;
            assert(i - 2 == 3 * k + j) by (nonlinear_arith)
                requires
                    k == (i - 2) / 3 && j == (i - 2) % 3 && i >= 2,
            ;
            assert(0 <= k < d.packages.len()) by (nonlinear_arith)
                requires
                    k == (i - 2) / 3 && 0 <= i - 2 < 3 * d.packages.len(),
            ;
            assert(ls[i] == ser_pkgs(d.packages)[3 * k + j]);
            assert(ser_pkgs(d.packages)[3 * k] == ser_header_line(d.packages[k].0));
            if j == 0 {
                assert(ls[i] == ser_header_line(d.packages[k].0));
                lemma_header_line_clean(d.packages[k].0);
            } else if j == 1 {
                assert(ls[i] == ser_version_line(d.packages[k].1.version));
                lemma_version_line_clean(d.packages[k].1.version);
            } else {
                assert(ls[i] == ser_files_line(d.packages[k].1.files));
                lemma_files_line_clean(d.packages[k].1.files);
            }
        }
    }
}

/// The string-related half of what the round trip needs of a document.
pub open spec fn wf_doc_strings(d: DocView) -> bool {
    &&& wf_version(d.version)
    &&& serializable(d)
    &&& forall|k: int| 0 <= k < d.packages.len() ==> wf_version(
        (#[trigger] d.packages[k]).1.version) && d.packages[k].0.len() > 0
}

proof fn lemma_version_line_clean(v: VersionView)
    requires
        wf_version(v),
    ensures
        clean(ser_version_line(v)),
{
    crate::semver::lemma_format_clean(v);
    crate::quoting::lemma_esc_clean(spec_format(v));
    let l = ser_version_line(v);
    assert forall|k: int| 0 <= k < l.len() implies clean_byte(#[trigger] l[k]) by {
        if k < 11 {
            assert(l[k] == vkey()[k]);
            lemma_vkey_clean();
        } else if k < 11 + esc(spec_format(v)).len() {
            assert(l[k] == esc(spec_format(v))[k - 11]);
        } else {
            assert(l[k] == QUOTE);
        }
    }
}

proof fn lemma_vkey_clean()
    ensures
        forall|k: int| 0 <= k < vkey().len() ==> clean_byte(#[trigger] vkey()[k]),
        forall|k: int| 0 <= k < fkey().len() ==> clean_byte(#[trigger] fkey()[k]),
        forall|k: int| 0 <= k < hkey().len() ==> clean_byte(#[trigger] hkey()[k]),
        forall|k: int| 0 <= k < item_open().len() ==> clean_byte(#[trigger] item_open()[k]),
        forall|k: int| 0 <= k < item_mid().len() ==> clean_byte(#[trigger] item_mid()[k]),
        forall|k: int| 0 <= k < item_end().len() ==> clean_byte(#[trigger] item_end()[k]),
{
    assert forall|k: int| 0 <= k < vkey().len() implies clean_byte(#[trigger] vkey()[k]) by {
        let c = vkey();
        assert(c[0] >= 32 && c[1] >= 32 && c[2] >= 32 && c[3] >= 32 && c[4] >= 32 && c[5] >= 32
            && c[6] >= 32 && c[7] >= 32 && c[8] >= 32 && c[9] >= 32 && c[10] >= 32);
    }
    assert forall|k: int| 0 <= k < fkey().len() implies clean_byte(#[trigger] fkey()[k]) by {
        let c = fkey();
        assert(c[0] >= 32 && c[1] >= 32 && c[2] >= 32 && c[3] >= 32 && c[4] >= 32 && c[5] >= 32
            && c[6] >= 32 && c[7] >= 32 && c[8] >= 32);
    }
    assert forall|k: int| 0 <= k < hkey().len() implies clean_byte(#[trigger] hkey()[k]) by {
        let c = hkey();
        assert(c[0] >= 32 && c[1] >= 32 && c[2] >= 32 && c[3] >= 32 && c[4] >= 32 && c[5] >= 32
            && c[6] >= 32 && c[7] >= 32 && c[8] >= 32 && c[9] >= 32);
    }
    assert forall|k: int| 0 <= k < item_open().len() implies clean_byte(
        #[trigger] item_open()[k]) by {
        let c = item_open();
        assert(c[0] >= 32 && c[1] >= 32 && c[2] >= 32 && c[3] >= 32 && c[4] >= 32 && c[5] >= 32
            && c[6] >= 32 && c[7] >= 32 && c[8] >= 32 && c[9] >= 32);
    }
    assert forall|k: int| 0 <= k < item_mid().len() implies clean_byte(
        #[trigger] item_mid()[k]) by {
        let c = item_mid();
        assert(c[0] >= 32 && c[1] >= 32 && c[2] >= 32 && c[3] >= 32 && c[4] >= 32 && c[5] >= 32
            && c[6] >= 32 && c[7] >= 32 && c[8] >= 32 && c[9] >= 32);
    }
    assert forall|k: int| 0 <= k < item_end().len() implies clean_byte(
        #[trigger] item_end()[k]) by {
        let c = item_end();
        assert(c[0] >= 32 && c[1] >= 32);
    }
}

proof fn lemma_header_line_clean(name: Seq<u8>)
    requires
        clean(name),
    ensures
        clean(ser_header_line(name)),
{
    lemma_vkey_clean();
    crate::quoting::lemma_esc_clean(name);
    let l = ser_header_line(name);
    assert forall|k: int| 0 <= k < l.len() implies clean_byte(#[trigger] l[k]) by {
        if k < 10 {
            assert(l[k] == hkey()[k]);
        } else if k < 10 + esc(name).len() {
            assert(l[k] == esc(name)[k - 10]);
        } else if k == 10 + esc(name).len() {
            assert(l[k] == QUOTE);
        } else {
            assert(l[k] == 93u8);
        }
    }
}

proof fn lemma_files_line_clean(fs: Seq<TrackedFileView>)
    requires
        forall|i: int| 0 <= i < fs.len() ==> clean((#[trigger] fs[i]).file) && clean(fs[i].expr),
    ensures
        clean(ser_files_line(fs)),
{
    lemma_vkey_clean();
    lemma_items_clean(fs);
    let l = ser_files_line(fs);
    assert forall|k: int| 0 <= k < l.len() implies clean_byte(#[trigger] l[k]) by {
        if k < 9 {
            assert(l[k] == fkey()[k]);
        } else if k < 9 + ser_items(fs).len() {
            assert(l[k] == ser_items(fs)[k - 9]);
        } else {
            assert(l[k] == 93u8);
        }
    }
}

proof fn lemma_items_clean(fs: Seq<TrackedFileView>)
    requires
        forall|i: int| 0 <= i < fs.len() ==> clean((#[trigger] fs[i]).file) && clean(fs[i].expr),
    ensures
        clean(ser_items(fs)),
    decreases fs.len(),
{
    lemma_vkey_clean();
    if fs.len() == 0 {
    } else {
        lemma_item_clean(fs[0]);
        if fs.len() == 1 {
        } else {
            let rest = fs.drop_first();
            assert(forall|i: int| 0 <= i < rest.len() ==> #[trigger] rest[i] == fs[i + 1]);
            lemma_items_clean(rest);
            let l = ser_items(fs);
            assert forall|k: int| 0 <= k < l.len() implies clean_byte(#[trigger] l[k]) by {
                if k < ser_item(fs[0]).len() {
                    assert(l[k] == ser_item(fs[0])[k]);
                } else if k < ser_item(fs[0]).len() + 2 {
                    assert(l[k] == seq![44u8, 32u8][k - ser_item(fs[0]).len()]);
                } else {
                    assert(l[k] == ser_items(rest)[k - ser_item(fs[0]).len() - 2]);
                }
            }
        }
    }
}

proof fn lemma_item_clean(t: TrackedFileView)
    requires
        clean(t.file),
        clean(t.expr),
    ensures
        clean(ser_item(t)),
{
    lemma_vkey_clean();
    crate::quoting::lemma_esc_clean(t.file);
    crate::quoting::lemma_esc_clean(t.expr);
    let l = ser_item(t);
    let ef = esc(t.file);
    let ex = esc(t.expr);
    assert forall|k: int| 0 <= k < l.len() implies clean_byte(#[trigger] l[k]) by {
        if k < 10 {
            assert(l[k] == item_open()[k]);
        } else if k < 10 + ef.len() {
            assert(l[k] == ef[k - 10]);
        } else if k == 10 + ef.len() {
            assert(l[k] == QUOTE);
        } else if k < 21 + ef.len() {
            assert(l[k] == item_mid()[k - 11 - ef.len()]);
        } else if k < 21 + ef.len() + ex.len() {
            assert(l[k] == ex[k - 21 - ef.len()]);
        } else if k == 21 + ef.len() + ex.len() {
            assert(l[k] == QUOTE);
        } else {
            assert(l[k] == item_end()[k - 22 - ef.len() - ex.len()]);
        }
    }
}

/// Persistence round trip: reading back a stored well-formed document yields
/// an equal document.
#[verifier::rlimit(60)]
pub proof fn lemma_store_round_trip(d: DocView)
    requires
        crate::document::wf_doc(d),
        serializable(d),
    ensures
        spec_parse_doc(spec_ser_doc(d)) == Some(d),
{
    let ls = ser_lines(d);
    assert(wf_doc_strings(d));
    lemma_ser_line_clean(d);
    assert forall|i: int| 0 <= i < ls.len() implies (forall|k: int| 0 <= k < (
    #[trigger] ls[i]).len() ==> ls[i][k] != LF) && (ls[i].len() > 0 ==> ls[i].last() != CR) by {
        assert(clean(ls[i]));
        assert(forall|k: int| 0 <= k < ls[i].len() ==> clean_byte(#[trigger] ls[i][k]));
        if ls[i].len() > 0 {
            assert(clean_byte(ls[i].last()));
        }
    }
    crate::files::lemma_split_join(ls);
    lemma_ser_pkgs_shape(d.packages);
    lemma_rt_version_line(d.version);
    lemma_rt_files_line(d.files);
    assert(ls[0] == ser_version_line(d.version));
    assert(ls[1] == ser_files_line(d.files));
    assert forall|k: int| 0 <= k < d.packages.len() implies #[trigger] ls[2 + 3 * k]
        == ser_header_line(d.packages[k].0) && ls[2 + 3 * k + 1] == ser_version_line(
        d.packages[k].1.version) && ls[2 + 3 * k + 2] == ser_files_line(
        d.packages[k].1.files) by {
        assert(ser_pkgs(d.packages)[3 * k] == ser_header_line(d.packages[k].0));
        assert(ls[2 + 3 * k] == ser_pkgs(d.packages)[3 * k]);
        assert(ls[2 + 3 * k + 1] == ser_pkgs(d.packages)[3 * k + 1]);
        assert(ls[2 + 3 * k + 2] == ser_pkgs(d.packages)[3 * k + 2]);
    }
    lemma_rt_pkgs(ls, d.packages, 2);
    assert(parse_lines(ls) == Some(DocView { version: d.version, files: d.files, packages: d.packages }));
    assert((DocView { version: d.version, files: d.files, packages: d.packages }) == d);
}

fn vkey_bytes() -> (r: Vec<u8>)
    ensures
        r@ == vkey(),
{
    let mut out: Vec<u8> = Vec::new();
    out.push(118);
    out.push(101);
    out.push(114);
    out.push(115);
    out.push(105);
    out.push(111);
    out.push(110);
    out.push(32);
    out.push(61);
    out.push(32);
    out.push(34);
    proof {
        assert(out@ =~= vkey());
    }
    out
}

fn fkey_bytes() -> (r: Vec<u8>)
    ensures
        r@ == fkey(),
{
    let mut out: Vec<u8> = Vec::new();
    out.push(102);
    out.push(105);
    out.push(108);
    out.push(101);
    out.push(115);
    out.push(32);
    out.push(61);
    out.push(32);
    out.push(91);
    proof {
        assert(out@ =~= fkey());
    }
    out
}

fn item_open_bytes() -> (r: Vec<u8>)
    ensures
        r@ == item_open(),
{
    let mut out: Vec<u8> = Vec::new();
    out.push(123);
    out.push(32);
    out.push(102);
    out.push(105);
    out.push(108);
    out.push(101);
    out.push(32);
    out.push(61);
    out.push(32);
    out.push(34);
    proof {
        assert(out@ =~= item_open());
    }
    out
}

fn item_mid_bytes() -> (r: Vec<u8>)
    ensures
        r@ == item_mid(),
{
    let mut out: Vec<u8> = Vec::new();
    out.push(44);
    out.push(32);
    out.push(101);
    out.push(120);
    out.push(112);
    out.push(114);
    out.push(32);
    out.push(61);
    out.push(32);
    out.push(34);
    proof {
        assert(out@ =~= item_mid());
    }
    out
}

fn hkey_bytes() -> (r: Vec<u8>)
    ensures
        r@ == hkey(),
{
    let mut out: Vec<u8> = Vec::new();
    out.push(91);
    out.push(112);
    out.push(97);
    out.push(99);
    out.push(107);
    out.push(97);
    out.push(103);
    out.push(101);
    out.push(46);
    out.push(34);
    proof {
        assert(out@ =~= hkey());
    }
    out
}

/// Appends a chunk to `out`.
fn append_bytes(out: &mut Vec<u8>, chunk: &Vec<u8>)
    ensures
        final(out)@ == old(out)@ + chunk@,
{
    let n = chunk.len();
    let mut i: usize = 0;
    while i < n
        invariant
            0 <= i <= n == chunk@.len(),
            out@ == old(out)@ + chunk@.take(i as int),
        decreases n - i,
    {
        out.push(chunk[i]);
        proof {
            assert(old(out)@ + chunk@.take(i as int + 1) =~= (old(out)@ + chunk@.take(
                i as int)).push(chunk@[i as int]));
        }
        i = i + 1;
    }
    proof {
        assert(chunk@.take(n as int) =~= chunk@);
    }
}

/// Renders the `version = "…"` line.
fn version_line_bytes(v: &Version) -> (r: Vec<u8>)
    ensures
        r@ == ser_version_line(v@),
{
    let mut out = vkey_bytes();
    let vb = v.format();
    append_escaped(&mut out, vb.as_slice());
    out.push(QUOTE);
    proof {
        assert(out@ =~= ser_version_line(v@));
    }
    out
}

/// Appends one `{ file = "…", expr = "…" }` inline table.
fn append_item(out: &mut Vec<u8>, t: &TrackedFiles)
    ensures
        final(out)@ == old(out)@ + ser_item(t@),
{
    let open = item_open_bytes();
    append_bytes(out, &open);
    append_escaped(out, t.file.as_slice());
    out.push(QUOTE);
    let mid = item_mid_bytes();
    append_bytes(out, &mid);
    append_escaped(out, t.expr.as_slice());
    out.push(QUOTE);
    out.push(32);
    out.push(125);
    proof {
        assert(out@ =~= old(out)@ + ser_item(t@));
    }
}

proof fn lemma_ser_items_push(fs: Seq<TrackedFileView>, x: TrackedFileView)
    ensures
        ser_items(fs.push(x)) == if fs.len() == 0 {
            ser_item(x)
        } else {
            ser_items(fs) + seq![44u8, 32u8] + ser_item(x)
        },
    decreases fs.len(),
{
    if fs.len() == 0 {
        assert(fs.push(x)[0] == x);
        assert(fs.push(x).len() == 1);
    } else if fs.len() == 1 {
        assert(fs.push(x)[0] == fs[0]);
        assert(fs.push(x).drop_first() =~= seq![x]);
        assert(ser_items(seq![x]) == ser_item(x));
        assert(ser_items(fs) == ser_item(fs[0]));
    } else {
        assert(fs.push(x).drop_first() =~= fs.drop_first().push(x));
        lemma_ser_items_push(fs.drop_first(), x);
        assert(fs.push(x)[0] == fs[0]);
        assert(ser_item(fs[0]) + seq![44u8, 32u8] + (ser_items(fs.drop_first()) + seq![44u8, 32u8]
            + ser_item(x)) =~= (ser_item(fs[0]) + seq![44u8, 32u8] + ser_items(fs.drop_first()))
            + seq![44u8, 32u8] + ser_item(x));
    }
}

/// Renders the `files = […]` line of a scope.
fn files_line_bytes(files: &Vec<TrackedFiles>) -> (r: Vec<u8>)
    ensures
        r@ == ser_files_line(files_list_view(files@)),
{
    let ghost fv = files_list_view(files@);
    let mut out = fkey_bytes();
    let n = files.len();
    let mut i: usize = 0;
    proof {
        assert(fv.take(0) =~= Seq::<TrackedFileView>::empty());
        assert(out@ =~= fkey() + ser_items(fv.take(0)));
    }
    while i < n
        invariant
            0 <= i <= n == files@.len(),
            fv == files_list_view(files@),
            out@ == fkey() + ser_items(fv.take(i as int)),
        decreases n - i,
    {
        if i > 0 {
            out.push(44);
            out.push(32);
        }
        let entry = &files[i];
        append_item(&mut out, entry);
        proof {
            lemma_ser_items_push(fv.take(i as int), fv[i as int]);
            assert(fv.take(i as int).push(fv[i as int]) =~= fv.take(i + 1));
            assert(entry@ == fv[i as int]);
            assert(out@ =~= fkey() + ser_items(fv.take(i + 1)));
        }
        i = i + 1;
    }
    out.push(93);
    proof {
        assert(fv.take(n as int) =~= fv);
        assert(out@ =~= ser_files_line(fv));
    }
    out
}

/// Renders a `[package."…"]` header line.
fn header_line_bytes(name: &[u8]) -> (r: Vec<u8>)
    ensures
        r@ == ser_header_line(name@),
{
    let mut out = hkey_bytes();
    append_escaped(&mut out, name);
    out.push(QUOTE);
    out.push(93);
    proof {
        assert(out@ =~= ser_header_line(name@));
    }
    out
}

/// Decides whether the store can hold every string of the document.
fn doc_serializable(doc: &VersionFile) -> (r: bool)
    ensures
        r == serializable(doc@),
{
    let n = doc.files.len();
    let mut i: usize = 0;
    while i < n
        invariant
            0 <= i <= n == doc.files@.len(),
            forall|k: int| 0 <= k < i ==> clean((#[trigger] doc@.files[k]).file) && clean(
                doc@.files[k].expr),
        decreases n - i,
    {
        let entry = &doc.files[i];
        if !is_clean(entry.file.as_slice()) || !is_clean(entry.expr.as_slice()) {
            proof {
                assert(doc@.files[i as int] == entry@);
            }
            return false;
        }
        proof {
            assert(doc@.files[i as int] == entry@);
        }
        i = i + 1;
    }
    let np = doc.package.len();
    let mut p: usize = 0;
    while p < np
        invariant
            0 <= p <= np == doc.package@.len(),
            forall|k: int| 0 <= k < doc@.files.len() ==> clean((#[trigger] doc@.files[k]).file)
                && clean(doc@.files[k].expr),
            forall|k: int| 0 <= k < p ==> clean((#[trigger] doc@.packages[k]).0),
            forall|k: int, j: int| 0 <= k < p && 0 <= j < doc@.packages[k].1.files.len() ==> clean(
                (#[trigger] doc@.packages[k].1.files[j]).file) && clean(
                doc@.packages[k].1.files[j].expr),
        decreases np - p,
    {
        let entry = &doc.package[p];
        proof {
            assert(doc@.packages[p as int] == (entry.0@, entry.1@));
        }
        if !is_clean(entry.0.as_slice()) {
            return false;
        }
        let fn_ = entry.1.files.len();
        let mut j: usize = 0;
        while j < fn_
            invariant
                0 <= j <= fn_ == entry.1.files@.len(),
                doc@.packages[p as int] == (entry.0@, entry.1@),
                0 <= p < doc@.packages.len(),
                forall|k: int| 0 <= k < j ==> clean(
                    (#[trigger] entry.1@.files[k]).file) && clean(entry.1@.files[k].expr),
            decreases fn_ - j,
        {
            let tf = &entry.1.files[j];
            if !is_clean(tf.file.as_slice()) || !is_clean(tf.expr.as_slice()) {
                proof {
                    assert(doc@.packages[p as int].1.files[j as int] == tf@);
                }
                return false;
            }
            proof {
                assert(entry.1@.files[j as int] == tf@);
            }
            j = j + 1;
        }
        proof {
            assert forall|j2: int| 0 <= j2 < doc@.packages[p as int].1.files.len() implies clean(
                (#[trigger] doc@.packages[p as int].1.files[j2]).file) && clean(
                doc@.packages[p as int].1.files[j2].expr) by {
                assert(doc@.packages[p as int].1.files[j2] == entry.1@.files[j2]);
            }
        }
        p = p + 1;
    }
    true
}

proof fn lemma_ser_pkgs_push(ps: Seq<(Seq<u8>, PackageView)>, x: (Seq<u8>, PackageView))
    ensures
        ser_pkgs(ps.push(x)) == ser_pkgs(ps) + ser_pkg(x),
    decreases ps.len(),
{
    if ps.len() == 0 {
        assert(ps.push(x)[0] == x);
        assert(ps.push(x).drop_first() =~= Seq::<(Seq<u8>, PackageView)>::empty());
        assert(ser_pkgs(Seq::<(Seq<u8>, PackageView)>::empty()) == Seq::<Seq<u8>>::empty());
        assert(ser_pkgs(ps.push(x)) =~= ser_pkgs(ps) + ser_pkg(x));
    } else {
        assert(ps.push(x).drop_first() =~= ps.drop_first().push(x));
        lemma_ser_pkgs_push(ps.drop_first(), x);
        assert(ps.push(x)[0] == ps[0]);
        assert(ser_pkg(ps[0]) + (ser_pkgs(ps.drop_first()) + ser_pkg(x)) =~= (ser_pkg(ps[0])
            + ser_pkgs(ps.drop_first())) + ser_pkg(x));
    }
}

/// Writes the document in the store's TOML shape. A document holding a
/// control byte in any of its strings is rejected with `TomlSerError`.
pub fn serialize_document(doc: &VersionFile) -> (r: Result<Vec<u8>, VersionError>)
    ensures
        match r {
            Ok(out) => serializable(doc@) && out@ == spec_ser_doc(doc@),
            Err(e) => e == VersionError::TomlSerError && !serializable(doc@),
        },
{
    if !doc_serializable(doc) {
        return Err(VersionError::TomlSerError);
    }
    let ghost pv = doc@.packages;
    let mut lines: Vec<Vec<u8>> = Vec::new();
    lines.push(version_line_bytes(&doc.version));
    lines.push(files_line_bytes(&doc.files));
    proof {
        assert(ser_pkgs(pv.take(0)) =~= Seq::<Seq<u8>>::empty());
        assert(lines_view(lines@) =~= seq![ser_version_line(doc@.version), ser_files_line(
            doc@.files)] + ser_pkgs(pv.take(0)));
    }
    let np = doc.package.len();
    let mut p: usize = 0;
    while p < np
        invariant
            0 <= p <= np == doc.package@.len(),
            pv == doc@.packages,
            lines_view(lines@) == seq![ser_version_line(doc@.version), ser_files_line(doc@.files)]
                + ser_pkgs(pv.take(p as int)),
        decreases np - p,
    {
        let entry = &doc.package[p];
        proof {
            assert(pv[p as int] == (entry.0@, entry.1@));
        }
        let ghost before = lines_view(lines@);
        lines.push(header_line_bytes(entry.0.as_slice()));
        lines.push(version_line_bytes(&entry.1.version));
        lines.push(files_line_bytes(&entry.1.files));
        proof {
            lemma_ser_pkgs_push(pv.take(p as int), pv[p as int]);
            assert(pv.take(p as int).push(pv[p as int]) =~= pv.take(p + 1));
            assert(lines_view(lines@) =~= before + ser_pkg(pv[p as int]));
            assert(lines_view(lines@) =~= seq![ser_version_line(doc@.version), ser_files_line(
                doc@.files)] + ser_pkgs(pv.take(p + 1)));
        }
        p = p + 1;
    }
    proof {
        assert(pv.take(np as int) =~= pv);
        assert(lines_view(lines@) =~= ser_lines(doc@));
    }
    Ok(join_lines(&lines))
}

/// Whether `l` starts with `chunk`.
fn has_prefix(l: &[u8], chunk: &Vec<u8>) -> (r: bool)
    ensures
        r == (l@.len() >= chunk@.len() && l@.subrange(0, chunk@.len() as int) == chunk@),
{
    if l.len() < chunk.len() {
        return false;
    }
    let head = vstd::slice::slice_subrange(l, 0, chunk.len());
    crate::semver::bytes_eq(head, chunk.as_slice())
}

/// Reads a `version = "…"` line.
fn parse_version_line_exec(l: &[u8]) -> (r: Option<Version>)
    ensures
        match r {
            Some(v) => parse_version_line(l@) == Some(v@) && wf_version(v@),
            None => parse_version_line(l@) is None,
        },
{
    let key = vkey_bytes();
    if !has_prefix(l, &key) {
        return None;
    }
    let (content, end) = match read_string(l, 11) {
        Some(p) => p,
        None => {
            return None;
        },
    };
    if end != l.len() {
        return None;
    }
    match Version::parse(content.as_slice()) {
        Ok(v) => Some(v),
        Err(_) => None,
    }
}

/// Reads the inline tables of a `files` line from `pos` to the closing
/// bracket that must end the line.
fn parse_items_exec(l: &[u8], pos: usize) -> (r: Option<(Vec<TrackedFiles>, usize)>)
    requires
        0 <= pos <= l@.len(),
    ensures
        match r {
            Some(p) => parse_items(l@, pos as int) == Some(
                (files_list_view(p.0@), p.1 as int),
            ) && pos < p.1 <= l@.len(),
            None => parse_items(l@, pos as int) is None,
        },
    decreases l@.len() - pos,
{
    let open = item_open_bytes();
    if l.len() - pos < 10 {
        return None;
    }
    let head = vstd::slice::slice_subrange(l, pos, pos + 10);
    if !crate::semver::bytes_eq(head, open.as_slice()) {
        return None;
    }
    let (file, p1) = match read_string(l, pos + 10) {
        Some(p) => p,
        None => {
            return None;
        },
    };
    let mid = item_mid_bytes();
    if l.len() - p1 < 10 {
        return None;
    }
    let head2 = vstd::slice::slice_subrange(l, p1, p1 + 10);
    if !crate::semver::bytes_eq(head2, mid.as_slice()) {
        return None;
    }
    let (expr, p2) = match read_string(l, p1 + 10) {
        Some(p) => p,
        None => {
            return None;
        },
    };
    if l.len() - p2 < 2 {
        return None;
    }
    if !(l[p2] == 32 && l[p2 + 1] == 125) {
        proof {
            let sub = l@.subrange(p2 as int, p2 + 2);
            assert(sub[0] == l@[p2 as int] && sub[1] == l@[p2 + 1]);
            assert(item_end()[0] == 32 && item_end()[1] == 125);
        }
        return None;
    }
    proof {
        assert(l@.subrange(p2 as int, p2 + 2) =~= item_end());
    }
    let q = p2 + 2;
    let tf = TrackedFiles { file, expr };
    if l.len() - q == 1 && l[q] == 93 {
        let mut out: Vec<TrackedFiles> = Vec::new();
        out.push(tf);
        proof {
            assert(files_list_view(out@) =~= seq![
                TrackedFileView { file: file@, expr: expr@ },
            ]);
        }
        return Some((out, q + 1));
    }
    if l.len() - q >= 2 && l[q] == 44 && l[q + 1] == 32 {
        proof {
            assert(l@.subrange(q as int, q + 2) =~= seq![44u8, 32u8]);
        }
        let (rest, e) = match parse_items_exec(l, q + 2) {
            Some(p) => p,
            None => {
                return None;
            },
        };
        let mut out = rest;
        out.insert(0, tf);
        proof {
            assert(files_list_view(out@) =~= seq![TrackedFileView { file: file@, expr: expr@ }]
                + files_list_view(out@.drop_first()));
            assert(out@.drop_first() =~= out@.subrange(1, out@.len() as int));
        }
        return Some((out, e));
    }
    proof {
        if q + 1 == l@.len() {
            assert(l@[q as int] != 93);
        }
        if q + 2 <= l@.len() {
            let sub = l@.subrange(q as int, q + 2);
            assert(sub[0] == l@[q as int] && sub[1] == l@[q + 1]);
        }
    }
    None
}

/// Reads a `files = […]` line.
fn parse_files_line_exec(l: &[u8]) -> (r: Option<Vec<TrackedFiles>>)
    ensures
        match r {
            Some(fs) => parse_files_line(l@) == Some(files_list_view(fs@)),
            None => parse_files_line(l@) is None,
        },
{
    let key = fkey_bytes();
    if !has_prefix(l, &key) {
        return None;
    }
    if l.len() == 10 && l[9] == 93 {
        let out: Vec<TrackedFiles> = Vec::new();
        proof {
            assert(files_list_view(out@) =~= Seq::<TrackedFileView>::empty());
        }
        return Some(out);
    }
    match parse_items_exec(l, 9) {
        Some((fs, e)) => {
            if e == l.len() {
                Some(fs)
            } else {
                None
            }
        },
        None => None,
    }
}

/// Reads a `[package."…"]` header line.
fn parse_header_line_exec(l: &[u8]) -> (r: Option<Vec<u8>>)
    ensures
        match r {
            Some(name) => parse_header_line(l@) == Some(name@) && name@.len() > 0,
            None => parse_header_line(l@) is None,
        },
{
    let key = hkey_bytes();
    if !has_prefix(l, &key) {
        return None;
    }
    let (name, end) = match read_string(l, 10) {
        Some(p) => p,
        None => {
            return None;
        },
    };
    if l.len() - end == 1 && l[end] == 93 && name.len() > 0 {
        Some(name)
    } else {
        None
    }
}

/// Reads the package sections from line `i` on.
fn parse_pkgs_exec(lines: &Vec<Vec<u8>>, i: usize) -> (r: Option<Vec<(Vec<u8>, Package)>>)
    requires
        0 <= i <= lines@.len(),
    ensures
        match r {
            Some(ps) => parse_pkgs(lines_view(lines@), i as int) == Some(packages_view(ps@)) && (
            forall|k: int| 0 <= k < ps@.len() ==> wf_version(
                (#[trigger] packages_view(ps@)[k]).1.version) && packages_view(ps@)[k].0.len() > 0),
            None => parse_pkgs(lines_view(lines@), i as int) is None,
        },
    decreases lines@.len() - i,
{
    let n = lines.len();
    if i == n {
        let out: Vec<(Vec<u8>, Package)> = Vec::new();
        proof {
            assert(packages_view(out@) =~= Seq::<(Seq<u8>, PackageView)>::empty());
        }
        return Some(out);
    }
    if n - i < 3 {
        return None;
    }
    proof {
        assert(lines_view(lines@)[i as int] == lines@[i as int]@);
        assert(lines_view(lines@)[i + 1] == lines@[i + 1]@);
        assert(lines_view(lines@)[i + 2] == lines@[i + 2]@);
    }
    let name = match parse_header_line_exec(lines[i].as_slice()) {
        Some(name) => name,
        None => {
            return None;
        },
    };
    let v = match parse_version_line_exec(lines[i + 1].as_slice()) {
        Some(v) => v,
        None => {
            return None;
        },
    };
    let fs = match parse_files_line_exec(lines[i + 2].as_slice()) {
        Some(fs) => fs,
        None => {
            return None;
        },
    };
    let rest = match parse_pkgs_exec(lines, i + 3) {
        Some(rest) => rest,
        None => {
            return None;
        },
    };
    let ghost rv = rest@;
    let ghost ev = (name@, PackageView { version: v@, files: files_list_view(fs@) });
    let mut out = rest;
    out.insert(0, (name, Package { version: v, files: fs }));
    proof {
        assert(out@ == rv.insert(0, out@[0]));
        assert((out@[0].0@, out@[0].1@) == ev);
        assert(packages_view(out@) =~= seq![ev] + packages_view(rv)) by {
            assert(forall|k: int| 1 <= k < out@.len() ==> #[trigger] out@[k] == rv[k - 1]);
        }
    }
    Some(out)
}

/// Whether the parsed package names are pairwise distinct.
fn check_names(pkgs: &Vec<(Vec<u8>, Package)>) -> (r: bool)
    ensures
        r == names_ok(packages_view(pkgs@)),
{
    let ghost pv = packages_view(pkgs@);
    let n = pkgs.len();
    let mut j: usize = 0;
    while j < n
        invariant
            0 <= j <= n == pkgs@.len(),
            pv == packages_view(pkgs@),
            forall|a: int, b: int| 0 <= a < b < j ==> (#[trigger] pv[a]).0 != (#[trigger] pv[b]).0,
        decreases n - j,
    {
        let mut k: usize = 0;
        while k < j
            invariant
                0 <= k <= j < n == pkgs@.len(),
                pv == packages_view(pkgs@),
                forall|a: int| 0 <= a < k ==> (#[trigger] pv[a]).0 != pv[j as int].0,
            decreases j - k,
        {
            if crate::semver::bytes_eq(pkgs[k].0.as_slice(), pkgs[j].0.as_slice()) {
                proof {
                    assert(pv[k as int].0 == pkgs@[k as int].0@);
                    assert(pv[j as int].0 == pkgs@[j as int].0@);
                }
                return false;
            }
            proof {
                assert(pv[k as int].0 == pkgs@[k as int].0@);
                assert(pv[j as int].0 == pkgs@[j as int].0@);
            }
            k = k + 1;
        }
        j = j + 1;
    }
    true
}

/// Reads a whole stored document; anything outside the store's shape is
/// rejected with `TomlDeError`.
pub fn parse_document(content: &[u8]) -> (r: Result<VersionFile, VersionError>)
    ensures
        match r {
            Ok(doc) => spec_parse_doc(content@) == Some(doc@) && crate::document::wf_doc(doc@),
            Err(e) => e == VersionError::TomlDeError && spec_parse_doc(content@) is None,
        },
{
    let lines = split_lines(content);
    let ghost ls = spec_split(content@);
    if lines.len() < 2 {
        return Err(VersionError::TomlDeError);
    }
    proof {
        assert(lines_view(lines@)[0] == lines@[0]@);
        assert(lines_view(lines@)[1] == lines@[1]@);
    }
    let version = match parse_version_line_exec(lines[0].as_slice()) {
        Some(v) => v,
        None => {
            return Err(VersionError::TomlDeError);
        },
    };
    let files = match parse_files_line_exec(lines[1].as_slice()) {
        Some(fs) => fs,
        None => {
            return Err(VersionError::TomlDeError);
        },
    };
    let package = match parse_pkgs_exec(&lines, 2) {
        Some(ps) => ps,
        None => {
            return Err(VersionError::TomlDeError);
        },
    };
    if !check_names(&package) {
        return Err(VersionError::TomlDeError);
    }
    let doc = VersionFile { version, files, package };
    Ok(doc)
}

} // verus!

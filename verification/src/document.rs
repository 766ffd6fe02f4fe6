//! The persistent document: the root version with its tracked files, and the
//! named sub-packages, each with a version and tracked files of its own.

use vstd::prelude::*;

use crate::files::{TrackedFileView, TrackedFiles};
use crate::quoting::{append_escaped, esc};
use crate::semver::{bytes_eq, wf_version, Version, VersionView};
use crate::VersionError;

verus! {

/// A named sub-package scope.
#[derive(Debug, Clone, PartialEq, Eq)]
pub struct Package {
    pub version: Version,
    pub files: Vec<TrackedFiles>,
}

/// The whole persistent document: the root scope and the packages.
#[derive(Debug, Clone, PartialEq, Eq)]
pub struct VersionFile {
    pub version: Version,
    pub files: Vec<TrackedFiles>,
    pub package: Vec<(Vec<u8>, Package)>,
}

pub ghost struct PackageView {
    pub version: VersionView,
    pub files: Seq<TrackedFileView>,
}

pub ghost struct DocView {
    pub version: VersionView,
    pub files: Seq<TrackedFileView>,
    pub packages: Seq<(Seq<u8>, PackageView)>,
}

/// The tracked-file list a vector stands for.
pub open spec fn files_list_view(v: Seq<TrackedFiles>) -> Seq<TrackedFileView> {
    Seq::new(v.len(), |i: int| v[i]@)
}

/// The package list a vector stands for.
pub open spec fn packages_view(v: Seq<(Vec<u8>, Package)>) -> Seq<(Seq<u8>, PackageView)> {
    Seq::new(v.len(), |i: int| (v[i].0@, v[i].1@))
}

impl View for Package {
    type V = PackageView;

    open spec fn view(&self) -> PackageView {
        PackageView { version: self.version@, files: files_list_view(self.files@) }
    }
}

impl View for VersionFile {
    type V = DocView;

    open spec fn view(&self) -> DocView {
        DocView {
            version: self.version@,
            files: files_list_view(self.files@),
            packages: packages_view(self.package@),
        }
    }
}

pub open spec fn wf_package(p: PackageView) -> bool {
    wf_version(p.version)
}

/// Document well-formedness: the versions obey the grammar and the package
/// names are non-empty and pairwise distinct.
pub open spec fn wf_doc(d: DocView) -> bool {
    &&& wf_version(d.version)
    &&& forall|i: int| 0 <= i < d.packages.len() ==> wf_package(#[trigger] d.packages[i].1)
    &&& forall|i: int| 0 <= i < d.packages.len() ==> (#[trigger] d.packages[i].0).len() > 0
    &&& forall|i: int, j: int| 0 <= i < j < d.packages.len() ==> d.packages[i].0 != d.packages[
        j
    ].0
}

impl Default for Package {
    /// A fresh package: version `0.1.0`, no tracked files.
    fn default() -> (r: Package)
        ensures
            r@ == (PackageView {
                version: VersionView { major: 0, minor: 1, patch: 0, pre: None, build: None },
                files: Seq::empty(),
            }),
    {
        let r = Package { version: Version::default(), files: Vec::new() };
        proof {
            assert(files_list_view(Seq::<TrackedFiles>::empty()) =~= Seq::<
                TrackedFileView,
            >::empty());
        }
        r
    }
}

impl Default for VersionFile {
    /// A fresh document: version `0.1.0`, no tracked files, no packages.
    fn default() -> (r: VersionFile)
        ensures
            r@ == (DocView {
                version: VersionView { major: 0, minor: 1, patch: 0, pre: None, build: None },
                files: Seq::empty(),
                packages: Seq::empty(),
            }),
            wf_doc(r@),
    {
        let r = VersionFile { version: Version::default(), files: Vec::new(), package: Vec::new() };
        proof {
            assert(files_list_view(Seq::<TrackedFiles>::empty()) =~= Seq::<
                TrackedFileView,
            >::empty());
            assert(packages_view(Seq::<(Vec<u8>, Package)>::empty()) =~= Seq::<
                (Seq<u8>, PackageView),
            >::empty());
        }
        r
    }
}

/// The index of the first package with the given name, or the length.
pub open spec fn pkg_index_at(ps: Seq<(Seq<u8>, PackageView)>, name: Seq<u8>, from: int) -> int
    decreases ps.len() - from,
{
    if from >= ps.len() {
        ps.len() as int
    } else if ps[from].0 == name {
        from
    } else {
        pkg_index_at(ps, name, from + 1)
    }
}

pub open spec fn pkg_index(ps: Seq<(Seq<u8>, PackageView)>, name: Seq<u8>) -> int {
    pkg_index_at(ps, name, 0)
}

pub proof fn lemma_pkg_index_spec(ps: Seq<(Seq<u8>, PackageView)>, name: Seq<u8>, from: int)
    requires
        0 <= from <= ps.len(),
    ensures
        from <= pkg_index_at(ps, name, from) <= ps.len(),
        forall|k: int| from <= k < pkg_index_at(ps, name, from) ==> (#[trigger] ps[k]).0 != name,
        pkg_index_at(ps, name, from) < ps.len() ==> ps[pkg_index_at(ps, name, from)].0 == name,
    decreases ps.len() - from,
{
    if from < ps.len() && ps[from].0 != name {
        lemma_pkg_index_spec(ps, name, from + 1);
    }
}

impl VersionFile {
    /// The position of the named package, if it exists.
    pub fn find_package(&self, name: &[u8]) -> (r: Option<usize>)
        ensures
            match r {
                Some(i) => i == pkg_index(self@.packages, name@) && i < self@.packages.len()
                    && self@.packages[i as int].0 == name@,
                None => pkg_index(self@.packages, name@) == self@.packages.len(),
            },
    {
        let n = self.package.len();
        let mut i: usize = 0;
        while i < n
            invariant
                0 <= i <= n == self.package@.len(),
                forall|k: int| 0 <= k < i ==> (#[trigger] packages_view(self.package@)[k]).0
                    != name@,
            decreases n - i,
        {
            let entry = &self.package[i];
            if bytes_eq(entry.0.as_slice(), name) {
                proof {
                    lemma_pkg_index_of_run(self@.packages, name@, i as int);
                }
                return Some(i);
            }
            i = i + 1;
        }
        proof {
            lemma_pkg_index_of_run(self@.packages, name@, n as int);
        }
        None
    }

    /// The named package; unknown names are rejected with `InvalidCommand`.
    pub fn get_package(&self, name: &[u8]) -> (r: Result<&Package, VersionError>)
        ensures
            match r {
                Ok(p) => pkg_index(self@.packages, name@) < self@.packages.len() && p@
                    == self@.packages[pkg_index(self@.packages, name@)].1,
                Err(e) => e == VersionError::InvalidCommand && pkg_index(self@.packages, name@)
                    == self@.packages.len(),
            },
    {
        match self.find_package(name) {
            Some(i) => Ok(&self.package[i].1),
            None => Err(VersionError::InvalidCommand),
        }
    }
}

pub proof fn lemma_pkg_index_of_run(ps: Seq<(Seq<u8>, PackageView)>, name: Seq<u8>, pos: int)
    requires
        0 <= pos <= ps.len(),
        forall|k: int| 0 <= k < pos ==> (#[trigger] ps[k]).0 != name,
        pos < ps.len() ==> ps[pos].0 == name,
    ensures
        pkg_index(ps, name) == pos,
{
    lemma_pkg_index_spec(ps, name, 0);
    let f = pkg_index(ps, name);
    if f < pos {
        assert(ps[f].0 == name);
    } else if pos < f {
        assert(ps[pos].0 != name);
    }
}

/// The tracked-file list with every entry of the given path removed,
/// keeping the order of the rest.
pub open spec fn remove_path(s: Seq<TrackedFileView>, p: Seq<u8>) -> Seq<TrackedFileView>
    decreases s.len(),
{
    if s.len() == 0 {
        Seq::empty()
    } else if s[0].file == p {
        remove_path(s.drop_first(), p)
    } else {
        seq![s[0]] + remove_path(s.drop_first(), p)
    }
}

proof fn lemma_remove_path_push(s: Seq<TrackedFileView>, p: Seq<u8>, x: TrackedFileView)
    ensures
        remove_path(s.push(x), p) == if x.file == p {
            remove_path(s, p)
        } else {
            remove_path(s, p) + seq![x]
        },
    decreases s.len(),
{
    if s.len() == 0 {
        assert(s.push(x)[0] == x);
        assert(s.push(x).drop_first() =~= Seq::<TrackedFileView>::empty());
        assert(remove_path(Seq::<TrackedFileView>::empty(), p) == Seq::<TrackedFileView>::empty());
        if x.file == p {
            assert(remove_path(s.push(x), p) =~= remove_path(s, p));
        } else {
            assert(remove_path(s.push(x), p) =~= remove_path(s, p) + seq![x]);
        }
    } else {
        assert(s.push(x).drop_first() =~= s.drop_first().push(x));
        lemma_remove_path_push(s.drop_first(), p, x);
        assert(s.push(x)[0] == s[0]);
        if s[0].file == p {
        } else {
            if x.file == p {
            } else {
                assert(seq![s[0]] + (remove_path(s.drop_first(), p) + seq![x]) =~= (seq![s[0]]
                    + remove_path(s.drop_first(), p)) + seq![x]);
            }
        }
    }
}

/// Appends a tracked file to a scope's list; duplicates are allowed.
pub fn add_tracked_file(files: &mut Vec<TrackedFiles>, tf: TrackedFiles)
    ensures
        files_list_view(final(files)@) == files_list_view(old(files)@).push(tf@),
{
    let ghost prev = files@;
    files.push(tf);
    proof {
        assert(files_list_view(files@) =~= files_list_view(prev).push(files@[prev.len() as int]@));
    }
}

/// Removes every entry whose stored path equals the argument, by byte
/// equality on the stored path.
pub fn remove_tracked_file(files: &mut Vec<TrackedFiles>, path: &[u8])
    ensures
        files_list_view(final(files)@) == remove_path(files_list_view(old(files)@), path@),
{
    let ghost fv = files_list_view(files@);
    let mut out: Vec<TrackedFiles> = Vec::new();
    let mut i: usize = 0;
    let n = files.len();
    proof {
        assert(fv.take(0) =~= Seq::<TrackedFileView>::empty());
        assert(files_list_view(out@) =~= remove_path(fv.take(0), path@));
    }
    while i < n
        invariant
            0 <= i <= n == files@.len(),
            fv == files_list_view(files@),
            files_list_view(out@) == remove_path(fv.take(i as int), path@),
        decreases n - i,
    {
        let entry = &files[i];
        let ghost prev_out = out@;
        if !bytes_eq(entry.file.as_slice(), path) {
            let kept = TrackedFiles {
                file: crate::semver::slice_to_vec_u8(entry.file.as_slice()),
                expr: crate::semver::slice_to_vec_u8(entry.expr.as_slice()),
            };
            proof {
                assert(kept@ == fv[i as int]);
            }
            out.push(kept);
            proof {
                assert(files_list_view(out@) =~= files_list_view(prev_out).push(fv[i as int]));
            }
        }
        proof {
            lemma_remove_path_push(fv.take(i as int), path@, fv[i as int]);
            assert(fv.take(i as int).push(fv[i as int]) =~= fv.take(i + 1));
            if fv[i as int].file == path@ {
            } else {
                assert(files_list_view(out@) =~= remove_path(fv.take(i as int), path@) + seq![
                    fv[i as int]
                ]);
            }
        }
        i = i + 1;
    }
    proof {
        assert(fv.take(n as int) =~= fv);
    }
    *files = out;
}

/// The file listing as one JSON line: an array of objects with the stored
/// path under "file" and the expression under "expr", quoted with the
/// store's escaping.
pub open spec fn json_item(t: TrackedFileView) -> Seq<u8> {
    seq![123u8, 34u8, 102u8, 105u8, 108u8, 101u8, 34u8, 58u8, 34u8] + esc(t.file) + seq![34u8,
        44u8, 34u8, 101u8, 120u8, 112u8, 114u8, 34u8, 58u8, 34u8] + esc(t.expr) + seq![34u8, 125u8]
}

pub open spec fn json_inner(fs: Seq<TrackedFileView>) -> Seq<u8>
    decreases fs.len(),
{
    if fs.len() == 0 {
        Seq::empty()
    } else if fs.len() == 1 {
        json_item(fs[0])
    } else {
        json_item(fs[0]) + seq![44u8] + json_inner(fs.drop_first())
    }
}

pub open spec fn spec_json_files(fs: Seq<TrackedFileView>) -> Seq<u8> {
    seq![91u8] + json_inner(fs) + seq![93u8]
}

proof fn lemma_json_inner_push(fs: Seq<TrackedFileView>, x: TrackedFileView)
    ensures
        json_inner(fs.push(x)) == if fs.len() == 0 {
            json_item(x)
        } else {
            json_inner(fs) + seq![44u8] + json_item(x)
        },
    decreases fs.len(),
{
    if fs.len() == 0 {
        assert(fs.push(x)[0] == x);
        assert(fs.push(x).len() == 1);
    } else if fs.len() == 1 {
        assert(fs.push(x)[0] == fs[0]);
        assert(fs.push(x).drop_first() =~= seq![x]);
        assert(json_inner(seq![x]) == json_item(x));
        assert(json_inner(fs) == json_item(fs[0]));
    } else {
        assert(fs.push(x).drop_first() =~= fs.drop_first().push(x));
        lemma_json_inner_push(fs.drop_first(), x);
        assert(fs.push(x)[0] == fs[0]);
        assert(json_item(fs[0]) + seq![44u8] + (json_inner(fs.drop_first()) + seq![44u8]
            + json_item(x)) =~= (json_item(fs[0]) + seq![44u8] + json_inner(fs.drop_first()))
            + seq![44u8] + json_item(x));
    }
}

fn append_json_item(out: &mut Vec<u8>, t: &TrackedFiles)
    ensures
        final(out)@ == old(out)@ + json_item(t@),
{
    out.push(123);
    out.push(34);
    out.push(102);
    out.push(105);
    out.push(108);
    out.push(101);
    out.push(34);
    out.push(58);
    out.push(34);
    append_escaped(out, t.file.as_slice());
    out.push(34);
    out.push(44);
    out.push(34);
    out.push(101);
    out.push(120);
    out.push(112);
    out.push(114);
    out.push(34);
    out.push(58);
    out.push(34);
    append_escaped(out, t.expr.as_slice());
    out.push(34);
    out.push(125);
    proof {
        assert(out@ =~= old(out)@ + json_item(t@));
    }
}

/// Renders the tracked files of a scope as one JSON line.
pub fn json_files_line(files: &Vec<TrackedFiles>) -> (r: Vec<u8>)
    ensures
        r@ == spec_json_files(files_list_view(files@)),
{
    let ghost fv = files_list_view(files@);
    let mut out: Vec<u8> = Vec::new();
    out.push(91);
    let n = files.len();
    let mut i: usize = 0;
    proof {
        assert(fv.take(0) =~= Seq::<TrackedFileView>::empty());
        assert(out@ =~= seq![91u8] + json_inner(fv.take(0)));
    }
    while i < n
        invariant
            0 <= i <= n == files@.len(),
            fv == files_list_view(files@),
            out@ == seq![91u8] + json_inner(fv.take(i as int)),
        decreases n - i,
    {
        if i > 0 {
            out.push(44);
        }
        let entry = &files[i];
        append_json_item(&mut out, entry);
        proof {
            lemma_json_inner_push(fv.take(i as int), fv[i as int]);
            assert(fv.take(i as int).push(fv[i as int]) =~= fv.take(i + 1));
            assert(entry@ == fv[i as int]);
            assert(out@ =~= seq![91u8] + json_inner(fv.take(i + 1)));
        }
        i = i + 1;
    }
    out.push(93);
    proof {
        assert(fv.take(n as int) =~= fv);
        assert(out@ =~= spec_json_files(fv));
    }
    out
}

} // verus!

//! The scope dispatcher: routes an operation to the root version or a named
//! package, applies the operator-validity rules, and records what is to be
//! printed and which tracked files are to be rewritten. It is a pure
//! function of the scope and the document; the caller performs the prints
//! and the file rewrites it hands back.

use vstd::prelude::*;

use crate::digits::dec_digits;
use crate::document::{add_tracked_file, files_list_view, json_files_line, remove_path,
    remove_tracked_file, spec_json_files, Package, VersionFile};
use crate::files::{TrackedFileView, TrackedFiles};
use crate::ops::{Operator, Scope, SetTypes};
use crate::prerelease::{decoded, spec_encode, spec_inc_num, Channel};
use crate::semver::{bytes_eq, slice_to_vec_u8, spec_format, spec_parse, wf_version, Version,
    VersionView};
use crate::VersionError;

verus! {

/// One pending tracked-file rewrite: which file, to which version string.
#[derive(Debug, Clone, PartialEq, Eq)]
pub struct SyncItem {
    pub file: TrackedFiles,
    pub version: Vec<u8>,
}

pub ghost struct SyncItemView {
    pub file: TrackedFileView,
    pub version: Seq<u8>,
}

impl View for SyncItem {
    type V = SyncItemView;

    open spec fn view(&self) -> SyncItemView {
        SyncItemView { file: self.file@, version: self.version@ }
    }
}

pub open spec fn syncs_view(v: Seq<SyncItem>) -> Seq<SyncItemView> {
    Seq::new(v.len(), |i: int| v[i]@)
}

/// What a dispatched operation asks the caller to do afterwards: lines to
/// print, in order, and tracked-file rewrites to perform, in order.
#[derive(Debug, Clone, PartialEq, Eq)]
pub struct Effects {
    pub prints: Vec<Vec<u8>>,
    pub syncs: Vec<SyncItem>,
}

pub ghost struct EffectsView {
    pub prints: Seq<Seq<u8>>,
    pub syncs: Seq<SyncItemView>,
}

impl View for Effects {
    type V = EffectsView;

    open spec fn view(&self) -> EffectsView {
        EffectsView { prints: crate::files::lines_view(self.prints@), syncs: syncs_view(
            self.syncs@) }
    }
}

impl Effects {
    pub fn new() -> (r: Effects)
        ensures
            r@ == (EffectsView { prints: Seq::empty(), syncs: Seq::empty() }),
    {
        let r = Effects { prints: Vec::new(), syncs: Vec::new() };
        proof {
            assert(crate::files::lines_view(Seq::<Vec<u8>>::empty()) =~= Seq::<Seq<u8>>::empty());
            assert(syncs_view(Seq::<SyncItem>::empty()) =~= Seq::<SyncItemView>::empty());
        }
        r
    }
}

/// A numeric version component.
#[derive(Debug, Clone, Copy, PartialEq, Eq)]
pub enum NumField {
    Major,
    Minor,
    Patch,
}

pub open spec fn field_val(m: VersionView, f: NumField) -> u64 {
    match f {
        NumField::Major => m.major,
        NumField::Minor => m.minor,
        NumField::Patch => m.patch,
    }
}

pub open spec fn with_field(m: VersionView, f: NumField, x: u64) -> VersionView {
    match f {
        NumField::Major => VersionView { major: x, ..m },
        NumField::Minor => VersionView { minor: x, ..m },
        NumField::Patch => VersionView { patch: x, ..m },
    }
}

/// The reset cascade: resetting a component zeroes the lower numeric
/// components and clears the prerelease and the build.
pub open spec fn reset_at(m: VersionView, f: NumField) -> VersionView {
    match f {
        NumField::Major => VersionView { major: m.major, minor: 0, patch: 0, pre: None, build: None },
        NumField::Minor => VersionView {
            major: m.major,
            minor: m.minor,
            patch: 0,
            pre: None,
            build: None,
        },
        NumField::Patch => VersionView { pre: None, build: None, ..m },
    }
}

/// The three columns of the operator-validity matrix.
pub ghost enum TargetKind {
    Numeric,
    Chan,
    BuildMeta,
}

/// The operator-validity matrix: which operator a target accepts. Every
/// combination outside it is rejected with `InvalidOperation`.
pub open spec fn cell_allowed(t: TargetKind, op: Operator) -> bool {
    match op {
        Operator::Get => true,
        Operator::SetTo(st) => match st {
            SetTypes::Number(_) => !(t is BuildMeta),
            SetTypes::AddNumber => !(t is BuildMeta),
            SetTypes::SubNumber => !(t is BuildMeta),
            SetTypes::String(_) => t is BuildMeta,
            SetTypes::NewFile(_) => false,
        },
        Operator::Rm => !(t is Numeric),
        Operator::Reset => !(t is BuildMeta),
        _ => false,
    }
}

/// Whether an operator on a version target changes the version.
pub open spec fn op_mutates(op: Operator) -> bool {
    !(op is Get)
}

/// The rewrites that bring a scope's tracked files to version `vb`.
pub open spec fn sync_plan(fs: Seq<TrackedFileView>, vb: Seq<u8>) -> Seq<SyncItemView> {
    Seq::new(fs.len(), |i: int| SyncItemView { file: fs[i], version: vb })
}

/// What a numeric-target operation does: the matrix row for major, minor
/// and patch, with the reset cascade and `NoNegatives` on decrementing zero.
pub open spec fn numeric_spec(
    f: NumField,
    op: Operator,
    m0: VersionView,
    r: Result<(), VersionError>,
    m1: VersionView,
    p0: Seq<Seq<u8>>,
    p1: Seq<Seq<u8>>,
) -> bool {
    match r {
        Ok(()) => match op {
            Operator::Get => m1 == m0 && p1 == p0.push(dec_digits(field_val(m0, f) as nat)),
            Operator::SetTo(st) => p1 == p0 && match st {
                SetTypes::Number(n) => m1 == with_field(m0, f, n),
                SetTypes::AddNumber => field_val(m0, f) < u64::MAX && m1 == with_field(
                    m0, f, (field_val(m0, f) + 1) as u64),
                SetTypes::SubNumber => field_val(m0, f) > 0 && m1 == with_field(
                    m0, f, (field_val(m0, f) - 1) as u64),
                _ => false,
            },
            Operator::Reset => p1 == p0 && m1 == reset_at(m0, f),
            _ => false,
        },
        Err(e) => m1 == m0 && p1 == p0 && if op == Operator::SetTo(SetTypes::SubNumber) {
            e == VersionError::NoNegatives && field_val(m0, f) == 0
        } else {
            e == VersionError::InvalidOperation && !cell_allowed(TargetKind::Numeric, op)
        },
    }
}

/// What a channel-target operation does: the matrix row for the prerelease
/// channels, with the monotone counter and disappear-on-zero rules.
pub open spec fn channel_spec(
    c: Channel,
    op: Operator,
    m0: VersionView,
    r: Result<(), VersionError>,
    m1: VersionView,
    p0: Seq<Seq<u8>>,
    p1: Seq<Seq<u8>>,
) -> bool {
    match r {
        Ok(()) => match op {
            Operator::Get => m1 == m0 && p1 == p0.push(
                match m0.pre {
                    Some(p) => p,
                    None => Seq::empty(),
                },
            ),
            Operator::SetTo(st) => p1 == p0 && match st {
                SetTypes::Number(n) => m1 == (VersionView { pre: Some(spec_encode(c, n)), ..m0 }),
                SetTypes::AddNumber => m1 == (VersionView {
                    pre: Some(spec_encode(c, spec_inc_num(m0))),
                    ..m0
                }),
                SetTypes::SubNumber => match decoded(m0) {
                    Some(dk) => dk.1 >= 1 && m1 == (VersionView {
                        pre: if dk.1 == 1 {
                            None
                        } else {
                            Some(spec_encode(c, (dk.1 - 1) as u64))
                        },
                        ..m0
                    }),
                    None => false,
                },
                _ => false,
            },
            Operator::Rm => p1 == p0 && m1 == (VersionView { pre: None, ..m0 }),
            Operator::Reset => p1 == p0 && m1 == (VersionView { build: None, ..m0 }),
            _ => false,
        },
        Err(e) => m1 == m0 && p1 == p0 && if op == Operator::SetTo(SetTypes::SubNumber) {
            match decoded(m0) {
                Some(dk) => dk.1 == 0 && e == VersionError::NoNegatives,
                None => e matches VersionError::InvalidPrerelease(b) && b@ == match m0.pre {
                    Some(pb) => pb,
                    None => Seq::<u8>::empty(),
                },
            }
        } else {
            e == VersionError::InvalidOperation && !cell_allowed(TargetKind::Chan, op)
        },
    }
}

/// What a build-target operation does: the matrix row for the build
/// metadata, whose only writes are a validated set and a removal.
pub open spec fn build_spec(
    op: Operator,
    m0: VersionView,
    r: Result<(), VersionError>,
    m1: VersionView,
    p0: Seq<Seq<u8>>,
    p1: Seq<Seq<u8>>,
) -> bool {
    match r {
        Ok(()) => match op {
            Operator::Get => m1 == m0 && p1 == p0.push(
                match m0.build {
                    Some(b) => b,
                    None => Seq::empty(),
                },
            ),
            Operator::SetTo(st) => p1 == p0 && match st {
                SetTypes::String(b) => crate::grammar::valid_build(b@) && m1 == (VersionView {
                    build: Some(b@),
                    ..m0
                }),
                _ => false,
            },
            Operator::Rm => p1 == p0 && m1 == (VersionView { build: None, ..m0 }),
            _ => false,
        },
        Err(e) => m1 == m0 && p1 == p0 && match op {
            Operator::SetTo(st) => match st {
                SetTypes::String(b) => !crate::grammar::valid_build(b@) && (
                e matches VersionError::InvalidVersion(eb) && eb@ == b@),
                _ => e == VersionError::InvalidOperation,
            },
            _ => e == VersionError::InvalidOperation && !cell_allowed(TargetKind::BuildMeta, op),
        },
    }
}

/// Applies a numeric-target operation.
fn run_numeric(version: &mut Version, f: NumField, op: Operator, effects: &mut Effects) -> (r:
    Result<(), VersionError>)
    requires
        op == Operator::SetTo(SetTypes::AddNumber) ==> field_val(old(version)@, f) < u64::MAX,
    ensures
        numeric_spec(
            f,
            op,
            old(version)@,
            r,
            final(version)@,
            old(effects)@.prints,
            final(effects)@.prints,
        ),
        final(effects)@.syncs == old(effects)@.syncs,
        !cell_allowed(TargetKind::Numeric, op) ==> r == Err::<(), VersionError>(
            VersionError::InvalidOperation,
        ),
{
    match op {
        Operator::Get => {
            let value: u64 = match f {
                NumField::Major => version.major,
                NumField::Minor => version.minor,
                NumField::Patch => version.patch,
            };
            push_print(effects, crate::digits::u64_to_dec(value));
            Ok(())
        },
        Operator::SetTo(st) => match st {
            SetTypes::Number(n) => {
                match f {
                    NumField::Major => version.set_major(n),
                    NumField::Minor => version.set_minor(n),
                    NumField::Patch => version.set_patch(n),
                }
                Ok(())
            },
            SetTypes::AddNumber => {
                match f {
                    NumField::Major => version.inc_major(),
                    NumField::Minor => version.inc_minor(),
                    NumField::Patch => version.inc_patch(),
                }
                Ok(())
            },
            SetTypes::SubNumber => match f {
                NumField::Major => version.dec_major(),
                NumField::Minor => version.dec_minor(),
                NumField::Patch => version.dec_patch(),
            },
            _ => Err(VersionError::InvalidOperation),
        },
        Operator::Reset => {
            match f {
                NumField::Major => version.reset_major(),
                NumField::Minor => version.reset_minor(),
                NumField::Patch => version.reset_patch(),
            }
            Ok(())
        },
        _ => Err(VersionError::InvalidOperation),
    }
}

/// Applies a channel-target operation.
fn run_channel(version: &mut Version, c: Channel, op: Operator, effects: &mut Effects) -> (r:
    Result<(), VersionError>)
    requires
        op == Operator::SetTo(SetTypes::AddNumber) ==> match decoded(old(version)@) {
            Some(dk) => dk.1 < u64::MAX,
            None => true,
        },
    ensures
        channel_spec(
            c,
            op,
            old(version)@,
            r,
            final(version)@,
            old(effects)@.prints,
            final(effects)@.prints,
        ),
        final(effects)@.syncs == old(effects)@.syncs,
        wf_version(old(version)@) ==> wf_version(final(version)@),
        !cell_allowed(TargetKind::Chan, op) ==> r == Err::<(), VersionError>(
            VersionError::InvalidOperation,
        ),
{
    match op {
        Operator::Get => {
            let line: Vec<u8> = match &version.pre {
                Some(p) => slice_to_vec_u8(p.as_slice()),
                None => Vec::new(),
            };
            push_print(effects, line);
            Ok(())
        },
        Operator::SetTo(st) => match st {
            SetTypes::Number(n) => {
                version.set_channel(c, n);
                Ok(())
            },
            SetTypes::AddNumber => {
                version.inc_channel(c);
                Ok(())
            },
            SetTypes::SubNumber => version.dec_channel(c),
            _ => Err(VersionError::InvalidOperation),
        },
        Operator::Rm => {
            version.rm_prerelease();
            Ok(())
        },
        Operator::Reset => {
            version.reset_channel();
            Ok(())
        },
        _ => Err(VersionError::InvalidOperation),
    }
}

/// Applies a build-target operation.
fn run_build(version: &mut Version, op: Operator, effects: &mut Effects) -> (r: Result<
    (),
    VersionError,
>)
    ensures
        build_spec(
            op,
            old(version)@,
            r,
            final(version)@,
            old(effects)@.prints,
            final(effects)@.prints,
        ),
        final(effects)@.syncs == old(effects)@.syncs,
        wf_version(old(version)@) ==> wf_version(final(version)@),
        !cell_allowed(TargetKind::BuildMeta, op) ==> r == Err::<(), VersionError>(
            VersionError::InvalidOperation,
        ),
{
    match op {
        Operator::Get => {
            let line: Vec<u8> = match &version.build {
                Some(b) => slice_to_vec_u8(b.as_slice()),
                None => Vec::new(),
            };
            push_print(effects, line);
            Ok(())
        },
        Operator::SetTo(st) => match st {
            SetTypes::String(b) => version.set_build(b),
            _ => Err(VersionError::InvalidOperation),
        },
        Operator::Rm => {
            version.rm_build();
            Ok(())
        },
        _ => Err(VersionError::InvalidOperation),
    }
}

/// Records one line to print.
fn push_print(effects: &mut Effects, line: Vec<u8>)
    ensures
        final(effects)@.prints == old(effects)@.prints.push(line@),
        final(effects)@.syncs == old(effects)@.syncs,
{
    let ghost prev = effects.prints@;
    effects.prints.push(line);
    proof {
        assert(crate::files::lines_view(effects.prints@) =~= crate::files::lines_view(prev).push(
            effects.prints@[prev.len() as int]@));
        assert(syncs_view(effects.syncs@) == syncs_view(effects.syncs@));
    }
}

/// Records the rewrites that bring every file of the scope to `version`.
fn append_sync_all(files: &Vec<TrackedFiles>, version: &Version, effects: &mut Effects)
    ensures
        final(effects)@.prints == old(effects)@.prints,
        final(effects)@.syncs == old(effects)@.syncs + sync_plan(
            files_list_view(files@),
            spec_format(version@),
        ),
{
    let ghost fv = files_list_view(files@);
    let ghost base = effects@.syncs;
    let ghost vb = spec_format(version@);
    let n = files.len();
    let mut i: usize = 0;
    proof {
        assert(effects@.syncs =~= base + sync_plan(fv, vb).take(0));
    }
    while i < n
        invariant
            0 <= i <= n == files@.len(),
            fv == files_list_view(files@),
            vb == spec_format(version@),
            syncs_view(effects.syncs@) == base + sync_plan(fv, vb).take(i as int),
            crate::files::lines_view(effects.prints@) == old(effects)@.prints,
        decreases n - i,
    {
        let entry = &files[i];
        let item = SyncItem {
            file: crate::files::TrackedFiles {
                file: slice_to_vec_u8(entry.file.as_slice()),
                expr: slice_to_vec_u8(entry.expr.as_slice()),
            },
            version: version.format(),
        };
        let ghost prev = effects.syncs@;
        effects.syncs.push(item);
        proof {
            assert(syncs_view(effects.syncs@) =~= syncs_view(prev).push(
                effects.syncs@[prev.len() as int]@));
            assert(sync_plan(fv, vb).take(i as int).push(sync_plan(fv, vb)[i as int])
                =~= sync_plan(fv, vb).take(i + 1));
            assert(syncs_view(effects.syncs@) =~= base + sync_plan(fv, vb).take(i + 1));
        }
        i = i + 1;
    }
    proof {
        assert(sync_plan(fv, vb).take(n as int) =~= sync_plan(fv, vb));
    }
}

/// The index of the first tracked file with the given path, or the length.
pub open spec fn tf_index_at(fs: Seq<TrackedFileView>, p: Seq<u8>, from: int) -> int
    decreases fs.len() - from,
{
    if from >= fs.len() {
        fs.len() as int
    } else if fs[from].file == p {
        from
    } else {
        tf_index_at(fs, p, from + 1)
    }
}

pub open spec fn tf_index(fs: Seq<TrackedFileView>, p: Seq<u8>) -> int {
    tf_index_at(fs, p, 0)
}

proof fn lemma_tf_index_of_run(fs: Seq<TrackedFileView>, p: Seq<u8>, pos: int)
    requires
        0 <= pos <= fs.len(),
        forall|k: int| 0 <= k < pos ==> (#[trigger] fs[k]).file != p,
        pos < fs.len() ==> fs[pos].file == p,
    ensures
        tf_index(fs, p) == pos,
{
    lemma_tf_index_spec(fs, p, 0);
    let f = tf_index(fs, p);
    if f < pos {
        assert(fs[f].file == p);
    } else if pos < f {
        assert(fs[pos].file != p);
    }
}

proof fn lemma_tf_index_spec(fs: Seq<TrackedFileView>, p: Seq<u8>, from: int)
    requires
        0 <= from <= fs.len(),
    ensures
        from <= tf_index_at(fs, p, from) <= fs.len(),
        forall|k: int| from <= k < tf_index_at(fs, p, from) ==> (#[trigger] fs[k]).file != p,
        tf_index_at(fs, p, from) < fs.len() ==> fs[tf_index_at(fs, p, from)].file == p,
    decreases fs.len() - from,
{
    if from < fs.len() && fs[from].file != p {
        lemma_tf_index_spec(fs, p, from + 1);
    }
}

/// The operators the file scope accepts.
pub open spec fn file_op_allowed(op: Operator) -> bool {
    match op {
        Operator::AddFile(st) => st is NewFile,
        Operator::Update(_) => true,
        Operator::RmFile(_) => true,
        Operator::UpdateAll => true,
        Operator::ListFiles => true,
        _ => false,
    }
}

/// What a file-scope operation does: track appends, removal is by stored
/// path, a single update rewrites the first entry of that path, update-all
/// rewrites every entry, and the listing prints one JSON line.
pub open spec fn files_spec(
    op: Operator,
    vb: Seq<u8>,
    fs0: Seq<TrackedFileView>,
    r: Result<bool, VersionError>,
    fs1: Seq<TrackedFileView>,
    p0: Seq<Seq<u8>>,
    p1: Seq<Seq<u8>>,
    sy0: Seq<SyncItemView>,
    sy1: Seq<SyncItemView>,
) -> bool {
    match r {
        Ok(changed) => match op {
            Operator::AddFile(st) => match st {
                SetTypes::NewFile(tf) => fs1 == fs0.push(tf@) && p1 == p0 && sy1 == sy0 && changed,
                _ => false,
            },
            Operator::Update(path) => fs1 == fs0 && p1 == p0 && !changed && {
                let idx = tf_index(fs0, path@);
                if idx < fs0.len() {
                    sy1 == sy0.push(SyncItemView { file: fs0[idx], version: vb })
                } else {
                    sy1 == sy0
                }
            },
            Operator::RmFile(path) => fs1 == remove_path(fs0, path@) && p1 == p0 && sy1 == sy0
                && changed,
            Operator::UpdateAll => fs1 == fs0 && p1 == p0 && sy1 == sy0 + sync_plan(fs0, vb)
                && !changed,
            Operator::ListFiles => fs1 == fs0 && p1 == p0.push(spec_json_files(fs0)) && sy1 == sy0
                && !changed,
            _ => false,
        },
        Err(e) => fs1 == fs0 && p1 == p0 && sy1 == sy0 && e == VersionError::InvalidOperation
            && !file_op_allowed(op),
    }
}

/// Applies a file-scope operation; the returned flag says whether the
/// tracked-file list itself changed.
fn run_files(files: &mut Vec<TrackedFiles>, version: &Version, op: Operator, effects: &mut Effects)
    -> (r: Result<bool, VersionError>)
    ensures
        files_spec(
            op,
            spec_format(version@),
            files_list_view(old(files)@),
            r,
            files_list_view(final(files)@),
            old(effects)@.prints,
            final(effects)@.prints,
            old(effects)@.syncs,
            final(effects)@.syncs,
        ),
{
    match op {
        Operator::AddFile(st) => match st {
            SetTypes::NewFile(tf) => {
                add_tracked_file(files, tf);
                Ok(true)
            },
            _ => Err(VersionError::InvalidOperation),
        },
        Operator::Update(path) => {
            let ghost fv = files_list_view(files@);
            let n = files.len();
            let mut i: usize = 0;
            while i < n
                invariant
                    0 <= i <= n == files@.len(),
                    op == Operator::Update(path),
                    files@ == old(files)@,
                    effects@ == old(effects)@,
                    fv == files_list_view(files@),
                    forall|k: int| 0 <= k < i ==> (#[trigger] fv[k]).file != path@,
                decreases n - i,
            {
                let entry = &files[i];
                if bytes_eq(entry.file.as_slice(), path.as_slice()) {
                    proof {
                        lemma_tf_index_of_run(fv, path@, i as int);
                    }
                    let item = SyncItem {
                        file: TrackedFiles {
                            file: slice_to_vec_u8(entry.file.as_slice()),
                            expr: slice_to_vec_u8(entry.expr.as_slice()),
                        },
                        version: version.format(),
                    };
                    let ghost prev = effects.syncs@;
                    proof {
                        assert(fv[i as int] == files@[i as int]@);
                        assert(item@ == (SyncItemView {
                            file: fv[i as int],
                            version: spec_format(version@),
                        }));
                    }
                    effects.syncs.push(item);
                    proof {
                        assert(syncs_view(effects.syncs@) =~= syncs_view(prev).push(
                            effects.syncs@[prev.len() as int]@));
                        assert(effects@.syncs =~= old(effects)@.syncs.push(
                            SyncItemView { file: fv[i as int], version: spec_format(version@) },
                        ));
                    }
                    return Ok(false);
                }
                i = i + 1;
            }
            proof {
                lemma_tf_index_of_run(fv, path@, n as int);
            }
            Ok(false)
        },
        Operator::RmFile(path) => {
            remove_tracked_file(files, path.as_slice());
            Ok(true)
        },
        Operator::UpdateAll => {
            append_sync_all(files, version, effects);
            Ok(false)
        },
        Operator::ListFiles => {
            let line = json_files_line(files);
            push_print(effects, line);
            Ok(false)
        },
        _ => Err(VersionError::InvalidOperation),
    }
}

/// An increment on a channel needs a counter with room to grow.
pub open spec fn chan_inc_ok(m: VersionView) -> bool {
    match decoded(m) {
        Some(dk) => dk.1 < u64::MAX,
        None => true,
    }
}

/// The machine-limit preconditions of a scope against the version it acts
/// on: an increment must not overflow the counter.
pub open spec fn scope_requires_root(s: Scope, m: VersionView) -> bool {
    match s {
        Scope::Major(op) => op == Operator::SetTo(SetTypes::AddNumber) ==> m.major < u64::MAX,
        Scope::Minor(op) => op == Operator::SetTo(SetTypes::AddNumber) ==> m.minor < u64::MAX,
        Scope::Patch(op) => op == Operator::SetTo(SetTypes::AddNumber) ==> m.patch < u64::MAX,
        Scope::Alpha(op) => op == Operator::SetTo(SetTypes::AddNumber) ==> chan_inc_ok(m),
        Scope::Beta(op) => op == Operator::SetTo(SetTypes::AddNumber) ==> chan_inc_ok(m),
        Scope::Pre(op) => op == Operator::SetTo(SetTypes::AddNumber) ==> chan_inc_ok(m),
        Scope::RC(op) => op == Operator::SetTo(SetTypes::AddNumber) ==> chan_inc_ok(m),
        _ => true,
    }
}

/// A version-target case of the dispatcher: the family transition plus the
/// synchronizer run on the scope's files after every mutation.
pub open spec fn numeric_case(
    f: NumField,
    op: Operator,
    m0: VersionView,
    fs0: Seq<TrackedFileView>,
    p0: Seq<Seq<u8>>,
    sy0: Seq<SyncItemView>,
    r: Result<Option<(Vec<u8>, Scope)>, VersionError>,
    m1: VersionView,
    fs1: Seq<TrackedFileView>,
    p1: Seq<Seq<u8>>,
    sy1: Seq<SyncItemView>,
) -> bool {
    fs1 == fs0 && match r {
        Ok(o) => o is None && numeric_spec(f, op, m0, Ok(()), m1, p0, p1) && sy1 == if op_mutates(
            op,
        ) {
            sy0 + sync_plan(fs0, spec_format(m1))
        } else {
            sy0
        },
        Err(e) => numeric_spec(f, op, m0, Err(e), m1, p0, p1) && sy1 == sy0,
    }
}

pub open spec fn channel_case(
    c: Channel,
    op: Operator,
    m0: VersionView,
    fs0: Seq<TrackedFileView>,
    p0: Seq<Seq<u8>>,
    sy0: Seq<SyncItemView>,
    r: Result<Option<(Vec<u8>, Scope)>, VersionError>,
    m1: VersionView,
    fs1: Seq<TrackedFileView>,
    p1: Seq<Seq<u8>>,
    sy1: Seq<SyncItemView>,
) -> bool {
    fs1 == fs0 && match r {
        Ok(o) => o is None && channel_spec(c, op, m0, Ok(()), m1, p0, p1) && sy1 == if op_mutates(
            op,
        ) {
            sy0 + sync_plan(fs0, spec_format(m1))
        } else {
            sy0
        },
        Err(e) => channel_spec(c, op, m0, Err(e), m1, p0, p1) && sy1 == sy0,
    }
}

pub open spec fn build_case(
    op: Operator,
    m0: VersionView,
    fs0: Seq<TrackedFileView>,
    p0: Seq<Seq<u8>>,
    sy0: Seq<SyncItemView>,
    r: Result<Option<(Vec<u8>, Scope)>, VersionError>,
    m1: VersionView,
    fs1: Seq<TrackedFileView>,
    p1: Seq<Seq<u8>>,
    sy1: Seq<SyncItemView>,
) -> bool {
    fs1 == fs0 && match r {
        Ok(o) => o is None && build_spec(op, m0, Ok(()), m1, p0, p1) && sy1 == if op_mutates(op) {
            sy0 + sync_plan(fs0, spec_format(m1))
        } else {
            sy0
        },
        Err(e) => build_spec(op, m0, Err(e), m1, p0, p1) && sy1 == sy0,
    }
}

pub open spec fn files_case(
    op: Operator,
    m0: VersionView,
    fs0: Seq<TrackedFileView>,
    p0: Seq<Seq<u8>>,
    sy0: Seq<SyncItemView>,
    r: Result<Option<(Vec<u8>, Scope)>, VersionError>,
    m1: VersionView,
    fs1: Seq<TrackedFileView>,
    p1: Seq<Seq<u8>>,
    sy1: Seq<SyncItemView>,
) -> bool {
    m1 == m0 && match r {
        Ok(o) => o is None && match op {
            Operator::AddFile(st) => match st {
                SetTypes::NewFile(tf) => fs1 == fs0.push(tf@) && p1 == p0 && sy1 == sy0
                    + sync_plan(fs1, spec_format(m0)),
                _ => false,
            },
            Operator::Update(path) => fs1 == fs0 && p1 == p0 && {
                let idx = tf_index(fs0, path@);
                if idx < fs0.len() {
                    sy1 == sy0.push(SyncItemView { file: fs0[idx], version: spec_format(m0) })
                } else {
                    sy1 == sy0
                }
            },
            Operator::RmFile(path) => fs1 == remove_path(fs0, path@) && p1 == p0 && sy1 == sy0
                + sync_plan(fs1, spec_format(m0)),
            Operator::UpdateAll => fs1 == fs0 && p1 == p0 && sy1 == sy0 + sync_plan(
                fs0, spec_format(m0)),
            Operator::ListFiles => fs1 == fs0 && p1 == p0.push(spec_json_files(fs0)) && sy1 == sy0,
            _ => false,
        },
        Err(e) => fs1 == fs0 && p1 == p0 && sy1 == sy0 && e == VersionError::InvalidOperation
            && !file_op_allowed(op),
    }
}

/// The whole dispatcher contract, per scope.
pub open spec fn scope_spec(
    s: Scope,
    m0: VersionView,
    fs0: Seq<TrackedFileView>,
    p0: Seq<Seq<u8>>,
    sy0: Seq<SyncItemView>,
    r: Result<Option<(Vec<u8>, Scope)>, VersionError>,
    m1: VersionView,
    fs1: Seq<TrackedFileView>,
    p1: Seq<Seq<u8>>,
    sy1: Seq<SyncItemView>,
) -> bool {
    match s {
        Scope::Major(op) => numeric_case(NumField::Major, op, m0, fs0, p0, sy0, r, m1, fs1, p1, sy1),
        Scope::Minor(op) => numeric_case(NumField::Minor, op, m0, fs0, p0, sy0, r, m1, fs1, p1, sy1),
        Scope::Patch(op) => numeric_case(NumField::Patch, op, m0, fs0, p0, sy0, r, m1, fs1, p1, sy1),
        Scope::Alpha(op) => channel_case(Channel::Alpha, op, m0, fs0, p0, sy0, r, m1, fs1, p1, sy1),
        Scope::Beta(op) => channel_case(Channel::Beta, op, m0, fs0, p0, sy0, r, m1, fs1, p1, sy1),
        Scope::Pre(op) => channel_case(Channel::Pre, op, m0, fs0, p0, sy0, r, m1, fs1, p1, sy1),
        Scope::RC(op) => channel_case(Channel::Rc, op, m0, fs0, p0, sy0, r, m1, fs1, p1, sy1),
        Scope::Build(op) => build_case(op, m0, fs0, p0, sy0, r, m1, fs1, p1, sy1),
        Scope::Get => m1 == m0 && fs1 == fs0 && sy1 == sy0 && (r matches Ok(o) && o is None) && p1
            == p0.push(spec_format(m0)),
        Scope::Version => m1 == m0 && fs1 == fs0 && sy1 == sy0 && (r matches Ok(o) && o is None)
            && p1 == p0.push(spec_format(VersionView { pre: None, build: None, ..m0 })),
        Scope::Revision => m1 == m0 && fs1 == fs0 && sy1 == sy0 && (r matches Ok(o) && o is None)
            && p1 == p0.push(
            match m0.pre {
                Some(p) => p,
                None => Seq::empty(),
            },
        ),
        Scope::SetFull(op) => fs1 == fs0 && match r {
            Ok(o) => o is None && p1 == p0 && match op {
                Operator::SetVersion(sv) => spec_parse(sv@) == Some(m1) && sy1 == sy0 + sync_plan(
                    fs0, spec_format(m1)),
                _ => false,
            },
            Err(e) => m1 == m0 && p1 == p0 && sy1 == sy0 && match op {
                Operator::SetVersion(sv) => spec_parse(sv@) is None && if sv@.len() == 0 {
                    e == VersionError::EmptyVersion
                } else {
                    e matches VersionError::InvalidVersion(b) && b@ == sv@
                },
                _ => e == VersionError::InvalidOperation,
            },
        },
        Scope::File(op) => files_case(op, m0, fs0, p0, sy0, r, m1, fs1, p1, sy1),
        Scope::Package(name, inner) => m1 == m0 && fs1 == fs0 && p1 == p0 && sy1 == sy0 && (
        r matches Ok(o) && o matches Some(pair) && pair.0@ == name@ && pair.1 == *inner),
        Scope::ListPackages => m1 == m0 && fs1 == fs0 && p1 == p0 && sy1 == sy0 && r == Err::<
            Option<(Vec<u8>, Scope)>,
            VersionError,
        >(VersionError::InvalidOperation),
        Scope::RmPackage => m1 == m0 && fs1 == fs0 && p1 == p0 && sy1 == sy0 && r == Err::<
            Option<(Vec<u8>, Scope)>,
            VersionError,
        >(VersionError::InvalidOperation),
    }
}

/// Routes one scope against a version and its tracked files. A `Package`
/// scope is handed back to the caller for package routing; everything else
/// is applied here, and every mutation is followed by a synchronizer plan
/// for the scope's files at the new version.
pub fn run_scopes(scope: Scope, version: &mut Version, files: &mut Vec<TrackedFiles>, effects:
    &mut Effects) -> (r: Result<Option<(Vec<u8>, Scope)>, VersionError>)
    requires
        scope_requires_root(scope, old(version)@),
    ensures
        scope_spec(
            scope,
            old(version)@,
            files_list_view(old(files)@),
            old(effects)@.prints,
            old(effects)@.syncs,
            r,
            final(version)@,
            files_list_view(final(files)@),
            final(effects)@.prints,
            final(effects)@.syncs,
        ),
        wf_version(old(version)@) ==> wf_version(final(version)@),
{
    match scope {
        Scope::Major(op) => run_version_target(version, files, effects, VersionTarget::Num(
            NumField::Major), op),
        Scope::Minor(op) => run_version_target(version, files, effects, VersionTarget::Num(
            NumField::Minor), op),
        Scope::Patch(op) => run_version_target(version, files, effects, VersionTarget::Num(
            NumField::Patch), op),
        Scope::Alpha(op) => run_version_target(version, files, effects, VersionTarget::Chan(
            Channel::Alpha), op),
        Scope::Beta(op) => run_version_target(version, files, effects, VersionTarget::Chan(
            Channel::Beta), op),
        Scope::Pre(op) => run_version_target(version, files, effects, VersionTarget::Chan(
            Channel::Pre), op),
        Scope::RC(op) => run_version_target(version, files, effects, VersionTarget::Chan(
            Channel::Rc), op),
        Scope::Build(op) => run_version_target(version, files, effects, VersionTarget::Meta, op),
        Scope::Get => {
            let line = version.format();
            push_print(effects, line);
            Ok(None)
        },
        Scope::Version => {
            let bare = Version {
                major: version.major,
                minor: version.minor,
                patch: version.patch,
                pre: None,
                build: None,
            };
            let line = bare.format();
            push_print(effects, line);
            Ok(None)
        },
        Scope::Revision => {
            let line: Vec<u8> = match &version.pre {
                Some(p) => slice_to_vec_u8(p.as_slice()),
                None => Vec::new(),
            };
            push_print(effects, line);
            Ok(None)
        },
        Scope::SetFull(op) => match op {
            Operator::SetVersion(sv) => match Version::parse(sv.as_slice()) {
                Ok(v) => {
                    *version = v;
                    append_sync_all(files, version, effects);
                    Ok(None)
                },
                Err(e) => Err(e),
            },
            _ => Err(VersionError::InvalidOperation),
        },
        Scope::File(op) => {
            let changed = match run_files(files, version, op, effects) {
                Ok(changed) => changed,
                Err(e) => {
                    return Err(e);
                },
            };
            if changed {
                append_sync_all(files, version, effects);
            }
            Ok(None)
        },
        Scope::Package(name, inner) => Ok(Some((name, *inner))),
        Scope::ListPackages => Err(VersionError::InvalidOperation),
        Scope::RmPackage => Err(VersionError::InvalidOperation),
    }
}

/// One of the three matrix rows.
#[derive(Debug, Clone, Copy, PartialEq, Eq)]
enum VersionTarget {
    Num(NumField),
    Chan(Channel),
    Meta,
}

/// Applies a version-target operation and, after a mutation, plans the
/// synchronizer run over the scope's files at the new version.
fn run_version_target(
    version: &mut Version,
    files: &mut Vec<TrackedFiles>,
    effects: &mut Effects,
    t: VersionTarget,
    op: Operator,
) -> (r: Result<Option<(Vec<u8>, Scope)>, VersionError>)
    requires
        op == Operator::SetTo(SetTypes::AddNumber) ==> match t {
            VersionTarget::Num(f) => field_val(old(version)@, f) < u64::MAX,
            VersionTarget::Chan(_) => chan_inc_ok(old(version)@),
            VersionTarget::Meta => true,
        },
    ensures
        files_list_view(final(files)@) == files_list_view(old(files)@),
        wf_version(old(version)@) ==> wf_version(final(version)@),
        match t {
            VersionTarget::Num(f) => numeric_case(
                f,
                op,
                old(version)@,
                files_list_view(old(files)@),
                old(effects)@.prints,
                old(effects)@.syncs,
                r,
                final(version)@,
                files_list_view(final(files)@),
                final(effects)@.prints,
                final(effects)@.syncs,
            ),
            VersionTarget::Chan(c) => channel_case(
                c,
                op,
                old(version)@,
                files_list_view(old(files)@),
                old(effects)@.prints,
                old(effects)@.syncs,
                r,
                final(version)@,
                files_list_view(final(files)@),
                final(effects)@.prints,
                final(effects)@.syncs,
            ),
            VersionTarget::Meta => build_case(
                op,
                old(version)@,
                files_list_view(old(files)@),
                old(effects)@.prints,
                old(effects)@.syncs,
                r,
                final(version)@,
                files_list_view(final(files)@),
                final(effects)@.prints,
                final(effects)@.syncs,
            ),
        },
{
    let mutated: bool = match &op {
        Operator::Get => false,
        _ => true,
    };
    let applied = match t {
        VersionTarget::Num(f) => run_numeric(version, f, op, effects),
        VersionTarget::Chan(c) => run_channel(version, c, op, effects),
        VersionTarget::Meta => run_build(version, op, effects),
    };
    match applied {
        Ok(()) => {
            if mutated {
                append_sync_all(files, version, effects);
            }
            Ok(None)
        },
        Err(e) => Err(e),
    }
}

/// The numeric matrix row is exhaustive: outside its marked cells the
/// operation is rejected with `InvalidOperation` and nothing changes.
pub proof fn lemma_numeric_matrix(
    f: NumField,
    op: Operator,
    m0: VersionView,
    r: Result<(), VersionError>,
    m1: VersionView,
    p0: Seq<Seq<u8>>,
    p1: Seq<Seq<u8>>,
)
    requires
        numeric_spec(f, op, m0, r, m1, p0, p1),
        !cell_allowed(TargetKind::Numeric, op),
    ensures
        r == Err::<(), VersionError>(VersionError::InvalidOperation),
        m1 == m0,
        p1 == p0,
{
}

/// The channel matrix row is exhaustive in the same way.
pub proof fn lemma_channel_matrix(
    c: Channel,
    op: Operator,
    m0: VersionView,
    r: Result<(), VersionError>,
    m1: VersionView,
    p0: Seq<Seq<u8>>,
    p1: Seq<Seq<u8>>,
)
    requires
        channel_spec(c, op, m0, r, m1, p0, p1),
        !cell_allowed(TargetKind::Chan, op),
    ensures
        r == Err::<(), VersionError>(VersionError::InvalidOperation),
        m1 == m0,
        p1 == p0,
{
}

/// The build matrix row is exhaustive in the same way.
pub proof fn lemma_build_matrix(
    op: Operator,
    m0: VersionView,
    r: Result<(), VersionError>,
    m1: VersionView,
    p0: Seq<Seq<u8>>,
    p1: Seq<Seq<u8>>,
)
    requires
        build_spec(op, m0, r, m1, p0, p1),
        !cell_allowed(TargetKind::BuildMeta, op),
    ensures
        r == Err::<(), VersionError>(VersionError::InvalidOperation),
        m1 == m0,
        p1 == p0,
{
}

/// The `name: version` lines that a package listing prints, in list order.
pub open spec fn pkg_lines(ps: Seq<(Seq<u8>, crate::document::PackageView)>) -> Seq<Seq<u8>> {
    Seq::new(ps.len(), |i: int| ps[i].0 + seq![58u8, 32u8] + spec_format(ps[i].1.version))
}

pub open spec fn default_package_view() -> crate::document::PackageView {
    crate::document::PackageView {
        version: VersionView { major: 0, minor: 1, patch: 0, pre: None, build: None },
        files: Seq::empty(),
    }
}

/// The preconditions of a whole run: the machine limits of the scope against
/// the version it will act on, and a well-formed document.
pub open spec fn process_requires(s: Scope, d: crate::document::DocView) -> bool {
    &&& crate::document::wf_doc(d)
    &&& scope_requires_root(s, d.version)
    &&& match s {
        Scope::Package(name, inner) => {
            let idx = crate::document::pkg_index(d.packages, name@);
            let pm = if idx < d.packages.len() {
                d.packages[idx].1.version
            } else {
                default_package_view().version
            };
            scope_requires_root(*inner, pm)
        },
        _ => true,
    }
}

/// What a whole run does to the document and what it asks to be printed and
/// rewritten. The dispatcher is stateless: everything lives in the document.
pub open spec fn process_spec(
    scope: Scope,
    d0: crate::document::DocView,
    r: Result<(VersionFile, Effects), VersionError>,
) -> bool {
    match r {
        Ok(pair) => {
            let d1 = pair.0@;
            let eff = pair.1@;
            match scope {
                Scope::Package(name, inner) => match *inner {
                    Scope::ListPackages => d1 == d0 && eff.syncs == Seq::<SyncItemView>::empty()
                        && eff.prints == pkg_lines(d0.packages),
                    Scope::RmPackage => eff.prints == Seq::<Seq<u8>>::empty() && eff.syncs == Seq::<
                        SyncItemView,
                    >::empty() && d1.version == d0.version && d1.files == d0.files && d1.packages
                        == {
                        let idx = crate::document::pkg_index(d0.packages, name@);
                        if idx < d0.packages.len() {
                            d0.packages.remove(idx)
                        } else {
                            d0.packages
                        }
                    },
                    _ => name@.len() > 0 && {
                        let idx = crate::document::pkg_index(d0.packages, name@);
                        let base = if idx < d0.packages.len() {
                            d0.packages
                        } else {
                            d0.packages.push((name@, default_package_view()))
                        };
                        let p0 = base[idx].1;
                        &&& d1.version == d0.version
                        &&& d1.files == d0.files
                        &&& d1.packages.len() == base.len()
                        &&& 0 <= idx < base.len()
                        &&& d1.packages == base.update(idx, (name@, d1.packages[idx].1))
                        &&& match *inner {
                            Scope::Package(_, _) => d1.packages == base && eff.prints == Seq::<
                                Seq<u8>,
                            >::empty() && eff.syncs == Seq::<SyncItemView>::empty(),
                            _ => scope_spec(
                                *inner,
                                p0.version,
                                p0.files,
                                Seq::empty(),
                                Seq::empty(),
                                Ok(None),
                                d1.packages[idx].1.version,
                                d1.packages[idx].1.files,
                                eff.prints,
                                eff.syncs,
                            ),
                        }
                    },
                },
                _ => d1.packages == d0.packages && scope_spec(
                    scope,
                    d0.version,
                    d0.files,
                    Seq::empty(),
                    Seq::empty(),
                    Ok(None),
                    d1.version,
                    d1.files,
                    eff.prints,
                    eff.syncs,
                ),
            }
        },
        Err(e) => match scope {
            Scope::Package(name, inner) => match *inner {
                Scope::ListPackages => false,
                Scope::RmPackage => false,
                _ => if name@.len() == 0 {
                    e == VersionError::PackageNameRequired
                } else {
                    let idx = crate::document::pkg_index(d0.packages, name@);
                    let p0 = if idx < d0.packages.len() {
                        d0.packages[idx].1
                    } else {
                        default_package_view()
                    };
                    scope_spec(
                        *inner,
                        p0.version,
                        p0.files,
                        Seq::empty(),
                        Seq::empty(),
                        Err(e),
                        p0.version,
                        p0.files,
                        Seq::empty(),
                        Seq::empty(),
                    )
                },
            },
            _ => scope_spec(
                scope,
                d0.version,
                d0.files,
                Seq::empty(),
                Seq::empty(),
                Err(e),
                d0.version,
                d0.files,
                Seq::empty(),
                Seq::empty(),
            ),
        },
    }
}

/// Records the `name: version` line of every package, in list order.
fn print_packages(doc: &VersionFile, effects: &mut Effects)
    ensures
        final(effects)@.prints == old(effects)@.prints + pkg_lines(doc@.packages),
        final(effects)@.syncs == old(effects)@.syncs,
{
    let ghost pv = doc@.packages;
    let ghost base = effects@.prints;
    let n = doc.package.len();
    let mut i: usize = 0;
    proof {
        assert(effects@.prints =~= base + pkg_lines(pv).take(0));
    }
    while i < n
        invariant
            0 <= i <= n == doc.package@.len(),
            pv == doc@.packages,
            crate::files::lines_view(effects.prints@) == base + pkg_lines(pv).take(i as int),
            syncs_view(effects.syncs@) == old(effects)@.syncs,
        decreases n - i,
    {
        let entry = &doc.package[i];
        let mut line = slice_to_vec_u8(entry.0.as_slice());
        line.push(58);
        line.push(32);
        let mut vb = entry.1.version.format();
        line.append(&mut vb);
        proof {
            assert(pv[i as int] == (doc.package@[i as int].0@, doc.package@[i as int].1@));
            assert(line@ =~= pkg_lines(pv)[i as int]);
        }
        push_print(effects, line);
        proof {
            assert(pkg_lines(pv).take(i as int).push(pkg_lines(pv)[i as int]) =~= pkg_lines(
                pv).take(i + 1));
            assert(crate::files::lines_view(effects.prints@) =~= base + pkg_lines(pv).take(i + 1));
        }
        i = i + 1;
    }
    proof {
        assert(pkg_lines(pv).take(n as int) =~= pkg_lines(pv));
    }
}

/// Runs one scope against a document: the root scope directly, a package
/// scope against the named package, creating it at the default version when
/// it is unknown. Stateless between invocations: the returned document and
/// effects are the whole outcome.
pub fn process_run(scope: Scope, ver: VersionFile) -> (r: Result<
    (VersionFile, Effects),
    VersionError,
>)
    requires
        process_requires(scope, ver@),
    ensures
        process_spec(scope, ver@, r),
        r matches Ok(pair) ==> crate::document::wf_doc(pair.0@),
{
    let ghost d0 = ver@;
    let mut doc = ver;
    let mut effects = Effects::new();
    let routed = match run_scopes(scope, &mut doc.version, &mut doc.files, &mut effects) {
        Ok(o) => o,
        Err(e) => {
            return Err(e);
        },
    };
    let (name, inner) = match routed {
        None => {
            proof {
                lemma_packages_same(d0, doc@);
            }
            return Ok((doc, effects));
        },
        Some(pair) => pair,
    };
    match inner {
        Scope::ListPackages => {
            print_packages(&doc, &mut effects);
            Ok((doc, effects))
        },
        Scope::RmPackage => {
            match doc.find_package(name.as_slice()) {
                Some(i) => {
                    let ghost pre_pkgs = doc@.packages;
                    doc.package.remove(i);
                    proof {
                        assert(doc@.packages =~= pre_pkgs.remove(i as int));
                        lemma_wf_doc_remove(d0, pre_pkgs, i as int, doc@);
                    }
                },
                None => {},
            }
            Ok((doc, effects))
        },
        other => {
            if name.len() == 0 {
                return Err(VersionError::PackageNameRequired);
            }
            let ghost idx0 = crate::document::pkg_index(d0.packages, name@);
            let idx: usize = match doc.find_package(name.as_slice()) {
                Some(i) => i,
                None => {
                    let ghost pre_pkgs = doc@.packages;
                    doc.package.push((slice_to_vec_u8(name.as_slice()), Package::default()));
                    proof {
                        assert(doc@.packages =~= pre_pkgs.push((name@, default_package_view())));
                    }
                    doc.package.len() - 1
                },
            };
            let ghost base = doc@.packages;
            let (pname, mut pkg) = doc.package.remove(idx);
            let routed2 = match run_scopes(other, &mut pkg.version, &mut pkg.files, &mut effects) {
                Ok(o) => o,
                Err(e) => {
                    return Err(e);
                },
            };
            let ghost mid_pkgs = doc@.packages;
            doc.package.insert(idx, (pname, pkg));
            proof {
                assert(doc@.packages =~= mid_pkgs.insert(idx as int, (pname@, pkg@)));
                assert(mid_pkgs =~= base.remove(idx as int));
                assert(doc@.packages =~= base.update(idx as int, (name@, doc@.packages[idx as int].1)));
                if other is Package {
                    assert(pkg@.version == base[idx as int].1.version);
                    assert(pkg@.files == base[idx as int].1.files);
                    assert(doc@.packages =~= base);
                }
                lemma_wf_doc_package_update(d0, base, idx as int, doc@);
            }
            Ok((doc, effects))
        },
    }
}

/// A run that was not routed to a package leaves the package list alone.
proof fn lemma_packages_same(d0: crate::document::DocView, d1: crate::document::DocView)
    requires
        d0.packages == d1.packages,
        crate::document::wf_doc(d0),
        crate::semver::wf_version(d1.version),
        forall|i: int| 0 <= i < d1.packages.len() ==> #[trigger] d1.packages[i]
            == d0.packages[i],
    ensures
        crate::document::wf_doc(d1),
{
}

/// Removing a package keeps the document well-formed.
proof fn lemma_wf_doc_remove(
    d0: crate::document::DocView,
    pre: Seq<(Seq<u8>, crate::document::PackageView)>,
    i: int,
    d1: crate::document::DocView,
)
    requires
        crate::document::wf_doc(d0),
        pre == d0.packages,
        0 <= i < pre.len(),
        d1.version == d0.version,
        d1.packages == pre.remove(i),
    ensures
        crate::document::wf_doc(d1),
{
    let ps = d1.packages;
    assert forall|k: int| 0 <= k < ps.len() implies crate::document::wf_package(
        #[trigger] ps[k].1) && ps[k].0.len() > 0 by {
        if k < i {
            assert(ps[k] == pre[k]);
        } else {
            assert(ps[k] == pre[k + 1]);
        }
    }
    assert forall|k: int, j: int| 0 <= k < j < ps.len() implies ps[k].0 != ps[j].0 by {
        let k0 = if k < i { k } else { k + 1 };
        let j0 = if j < i { j } else { j + 1 };
        assert(ps[k] == pre[k0] && ps[j] == pre[j0]);
    }
}

/// Updating or creating one package keeps the document well-formed, as long
/// as the updated package's version is well-formed and its name is kept.
proof fn lemma_wf_doc_package_update(
    d0: crate::document::DocView,
    base: Seq<(Seq<u8>, crate::document::PackageView)>,
    i: int,
    d1: crate::document::DocView,
)
    requires
        crate::document::wf_doc(d0),
        0 <= i < base.len(),
        base == d0.packages || (base == d0.packages.push(
            (base[i].0, default_package_view()),
        ) && i == d0.packages.len() && base[i].0.len() > 0
            && crate::document::pkg_index(d0.packages, base[i].0) == d0.packages.len()),
        d1.version == d0.version,
        d1.packages == base.update(i, (base[i].0, d1.packages[i].1)),
        crate::semver::wf_version(d1.packages[i].1.version),
    ensures
        crate::document::wf_doc(d1),
{
    let ps = d1.packages;
    if base != d0.packages {
        crate::document::lemma_pkg_index_spec(d0.packages, base[i].0, 0);
    }
    assert forall|k: int| 0 <= k < ps.len() implies crate::document::wf_package(
        #[trigger] ps[k].1) && ps[k].0.len() > 0 by {
        if k != i {
            assert(ps[k] == base[k]);
            if base == d0.packages {
                assert(base[k] == d0.packages[k]);
            } else {
                if k < d0.packages.len() {
                    assert(base[k] == d0.packages[k]);
                }
            }
        } else {
            assert(ps[i].0 == base[i].0);
            if base == d0.packages {
                assert(base[i] == d0.packages[i]);
            }
        }
    }
    assert forall|k: int, j: int| 0 <= k < j < ps.len() implies ps[k].0 != ps[j].0 by {
        assert(ps[k].0 == base[k].0 && ps[j].0 == base[j].0);
        if base == d0.packages {
        } else {
            if j < d0.packages.len() {
            } else {
                assert(base[j].0 == base[i].0);
                assert(base[k].0 == d0.packages[k].0);
            }
        }
    }
}

} // verus!

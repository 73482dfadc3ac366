use vstd::prelude::*;

use crate::bytes::{bytes_eq, extend_from, is_dev_null};
use crate::error::{Error, ErrorKind};
use crate::kw;
use crate::model::{spec_has_content_changes, spec_source_file, Patch, PatchView};

verus! {

/// What patching a file does on disk, once the patch is known.
#[derive(Debug, Clone, Copy, PartialEq, Eq, Structural)]
pub enum FileAction {
    /// The patch is applied to the source and its output dropped (so that a
    /// patch that does not apply is reported); then the source is removed
    /// when `remove_source`.
    Delete { remove_source: bool },
    /// The patch is applied to the source and its output written to the
    /// target, which must not exist beforehand when `must_not_exist`; then
    /// the source is removed when `remove_source` (a source already gone is
    /// no error).
    Write { must_not_exist: bool, remove_source: bool },
    /// The source is renamed to the target.
    Rename,
    /// The source is copied to the target.
    Copy,
    /// The target, which must not exist, is created empty.
    Create,
    /// Nothing is done to the contents.
    Keep,
}

/// The steps that patching one file takes: the action, the file it reads,
/// the file it writes, the mode that the written file gets at the end, and
/// whether the hunks are read while they are applied.
#[derive(Debug, Clone)]
pub struct FilePlan {
    pub action: FileAction,
    pub source: Vec<u8>,
    pub target: Vec<u8>,
    pub mode: Option<u32>,
    pub streamed: bool,
}

/// The action of patching a file with `p` whose hunks are all known.
pub open spec fn spec_file_action(p: PatchView) -> FileAction {
    let source = spec_source_file(p);
    if p.new_file == kw::dev_null() {
        FileAction::Delete { remove_source: source != kw::dev_null() }
    } else if spec_has_content_changes(p) {
        FileAction::Write {
            must_not_exist: p.old_file == kw::dev_null(),
            remove_source: p.rename_to is Some && p.new_file != source,
        }
    } else if p.rename_to is Some {
        FileAction::Rename
    } else if p.copy_to is Some {
        FileAction::Copy
    } else if p.old_file == kw::dev_null() {
        FileAction::Create
    } else {
        FileAction::Keep
    }
}

/// The mode that the new file gets once the patch is applied: none when the
/// file is deleted.
pub open spec fn spec_final_mode(p: PatchView) -> Option<u32> {
    if p.new_file == kw::dev_null() {
        None
    } else {
        p.new_mode
    }
}

/// Whether a plan carries out `action` for `p`.
pub open spec fn plan_for(plan: FilePlan, p: PatchView, action: FileAction, streamed: bool) -> bool {
    &&& plan.action == action
    &&& plan.source@ == spec_source_file(p)
    &&& plan.target@ == p.new_file
    &&& plan.mode == spec_final_mode(p)
    &&& plan.streamed == streamed
}

/// Whether `p` is a binary patch that also has text hunks, which cannot be applied.
pub open spec fn is_mixed_binary(p: PatchView) -> bool {
    p.binary && p.hunks.len() > 0
}

fn copy_bytes(s: &[u8]) -> (r: Vec<u8>)
    ensures
        r@ == s@,
{
    let mut out: Vec<u8> = Vec::new();
    extend_from(&mut out, s);
    out
}

fn final_mode(patch: &Patch) -> (r: Option<u32>)
    ensures
        r == spec_final_mode(patch@),
{
    if is_dev_null(patch.new_file.as_slice()) {
        None
    } else {
        patch.new_mode
    }
}

/// What patching a file with `patch` does, once all its hunks are read.
/// A binary patch with text hunks is `UnsupportedBinaryPatch`.
pub fn plan_file_change(patch: &Patch) -> (r: Result<FilePlan, Error>)
    ensures
        r is Err <==> is_mixed_binary(patch@),
        r matches Err(e) ==> e == (Error { line: None, kind: ErrorKind::UnsupportedBinaryPatch }),
        r matches Ok(plan) ==> plan_for(plan, patch@, spec_file_action(patch@), false),
{
    if patch.binary && patch.hunks.len() > 0 {
        return Err(Error::new(ErrorKind::UnsupportedBinaryPatch));
    }
    let source = patch.source_file();
    let target = patch.new_file.as_slice();
    let action = if is_dev_null(target) {
        FileAction::Delete { remove_source: !is_dev_null(source) }
    } else if patch.has_content_changes() {
        FileAction::Write {
            must_not_exist: is_dev_null(patch.old_file.as_slice()),
            remove_source: patch.rename_to.is_some() && !bytes_eq(target, source),
        }
    } else if patch.rename_to.is_some() {
        FileAction::Rename
    } else if patch.copy_to.is_some() {
        FileAction::Copy
    } else if is_dev_null(patch.old_file.as_slice()) {
        FileAction::Create
    } else {
        FileAction::Keep
    };
    Ok(FilePlan {
        action,
        source: copy_bytes(source),
        target: copy_bytes(target),
        mode: final_mode(patch),
        streamed: false,
    })
}

/// The action of patching a file with `p` while its hunks are read: a
/// deletion, a binary patch (all of it is known), or a write of the output.
pub open spec fn spec_streamed_action(p: PatchView) -> FileAction {
    let source = spec_source_file(p);
    if p.new_file == kw::dev_null() {
        FileAction::Delete { remove_source: source != kw::dev_null() }
    } else if p.binary_fragments.len() > 0 {
        spec_file_action(p)
    } else {
        FileAction::Write { must_not_exist: false, remove_source: p.rename_to is Some && p.new_file != source }
    }
}

/// What patching a file with the patch whose header `patch` holds does
/// while its hunks are read as they are applied. A binary patch is known
/// whole, and is planned as `plan_file_change` plans it.
pub fn plan_streamed_change(patch: &Patch) -> (r: Result<FilePlan, Error>)
    ensures
        r is Err <==> (patch@.new_file != kw::dev_null() && patch@.binary_fragments.len() > 0
            && is_mixed_binary(patch@)),
        r matches Err(e) ==> e == (Error { line: None, kind: ErrorKind::UnsupportedBinaryPatch }),
        r matches Ok(plan) ==> plan_for(
            plan,
            patch@,
            spec_streamed_action(patch@),
            !(patch@.new_file != kw::dev_null() && patch@.binary_fragments.len() > 0),
        ),
{
    let source = patch.source_file();
    let target = patch.new_file.as_slice();
    let action = if is_dev_null(target) {
        FileAction::Delete { remove_source: !is_dev_null(source) }
    } else if patch.binary_fragments.len() > 0 {
        return plan_file_change(patch);
    } else {
        FileAction::Write {
            must_not_exist: false,
            remove_source: patch.rename_to.is_some() && !bytes_eq(target, source),
        }
    };
    Ok(FilePlan {
        action,
        source: copy_bytes(source),
        target: copy_bytes(target),
        mode: final_mode(patch),
        streamed: true,
    })
}

/// A patch that renames its file and changes its contents writes the new
/// file and then removes the old one, when the two differ; whether its hunks
/// are all known or read as they are applied.
pub proof fn lemma_rename_removes_source(p: PatchView)
    requires
        spec_has_content_changes(p),
        p.rename_to is Some,
        p.new_file != kw::dev_null(),
        p.new_file != (match p.copy_from {
            Some(f) => f,
            None => p.old_file,
        }),
    ensures
        spec_file_action(p) == (FileAction::Write { must_not_exist: p.old_file == kw::dev_null(), remove_source: true }),
        p.binary_fragments.len() == 0 ==> spec_streamed_action(p) == (FileAction::Write {
            must_not_exist: false,
            remove_source: true,
        }),
{
}

/// A patch that writes its output removes its source only when it renames
/// the file to another path: an edit in place, or a copy, keeps the source.
pub proof fn lemma_write_keeps_source_unless_renamed(p: PatchView)
    ensures
        spec_file_action(p) matches FileAction::Write { remove_source, .. } ==> (remove_source <==> (p.rename_to is Some
            && p.new_file != spec_source_file(p))),
        spec_streamed_action(p) matches FileAction::Write { remove_source, .. } ==> (remove_source <==> (p.rename_to
            is Some && p.new_file != spec_source_file(p))),
{
}

} // verus!

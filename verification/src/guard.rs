//! The path guard: which directory a client may watch, and which relative
//! paths a store may touch.

use vstd::prelude::*;
use crate::path::{
    append_bytes, escapes_root, is_absolute, is_under, normalize, normalized, path_is_absolute,
    path_is_under, view_of, SEPARATOR,
};

verus! {

/// Why a path was turned away.
#[derive(Clone, Copy, Debug, PartialEq, Eq, Structural)]
pub enum GuardError {
    /// The path names nothing that could be used: it does not exist, or it
    /// names the root itself where a file is asked for.
    InvalidPath,
    /// The path leads out of the root, or was given as an absolute path.
    PathEscapesRoot,
}

/// `target` appended to `dir`, with a separator between them unless `dir` is
/// empty or ends in one already.
pub open spec fn joined(dir: Seq<u8>, target: Seq<u8>) -> Seq<u8> {
    if dir.len() == 0 || dir.last() == SEPARATOR {
        dir + target
    } else {
        dir.push(SEPARATOR) + target
    }
}

/// What the guard of a store makes of a relative path: its resolved form,
/// or the reason why it is turned away.
pub open spec fn located(file_path: Seq<u8>) -> Result<Seq<u8>, GuardError> {
    match normalized(file_path) {
        None => Err(GuardError::PathEscapesRoot),
        Some(p) => if p.len() == 0 {
            Err(GuardError::InvalidPath)
        } else {
            Ok(p)
        },
    }
}

/// What the guard of a client makes of the canonical form of a watched
/// directory, `None` standing for a target that does not exist.
pub open spec fn admitted(working_dir: Seq<u8>, canonical: Option<Seq<u8>>) -> Result<
    Seq<u8>,
    GuardError,
> {
    match canonical {
        None => Err(GuardError::InvalidPath),
        Some(c) => if is_under(working_dir, c) {
            Ok(c)
        } else {
            Err(GuardError::PathEscapesRoot)
        },
    }
}

/// The first half of the guard. An absolute `target` is turned away; a
/// relative one is appended to the working directory, to be made canonical
/// by the caller.
pub fn join_target(working_dir: &[u8], target: &[u8]) -> (result: Result<Vec<u8>, GuardError>)
    ensures
        match result {
            Ok(p) => !is_absolute(target@) && p@ == joined(working_dir@, target@),
            Err(e) => is_absolute(target@) && e == GuardError::PathEscapesRoot,
        },
{
    if path_is_absolute(target) {
        return Err(GuardError::PathEscapesRoot);
    }
    let mut path: Vec<u8> = Vec::new();
    append_bytes(&mut path, working_dir);
    if working_dir.len() > 0 && working_dir[working_dir.len() - 1] != SEPARATOR {
        path.push(SEPARATOR);
    }
    append_bytes(&mut path, target);
    assert(path@ =~= joined(working_dir@, target@));
    Ok(path)
}

/// The second half of the guard. `canonical` is the canonical form of the
/// joined path, `None` if it does not exist. It is admitted exactly if it is
/// the working directory or lies under it.
pub fn admit_canonical(working_dir: &[u8], canonical: Option<Vec<u8>>) -> (result: Result<
    Vec<u8>,
    GuardError,
>)
    ensures
        match result {
            Ok(p) => admitted(working_dir@, view_of(canonical)) == Ok::<Seq<u8>, GuardError>(p@),
            Err(e) => admitted(working_dir@, view_of(canonical)) == Err::<Seq<u8>, GuardError>(e),
        },
{
    match canonical {
        None => Err(GuardError::InvalidPath),
        Some(c) => {
            if path_is_under(working_dir, c.as_slice()) {
                Ok(c)
            } else {
                Err(GuardError::PathEscapesRoot)
            }
        },
    }
}

/// The guard of a store. A relative path is resolved without looking at the
/// file system; it is turned away if it escapes the root or names the root
/// itself.
pub fn locate(file_path: &[u8]) -> (result: Result<Vec<u8>, GuardError>)
    ensures
        match result {
            Ok(p) => located(file_path@) == Ok::<Seq<u8>, GuardError>(p@),
            Err(e) => located(file_path@) == Err::<Seq<u8>, GuardError>(e),
        },
        result == Err::<Vec<u8>, GuardError>(GuardError::PathEscapesRoot) <==> escapes_root(
            file_path@,
        ),
{
    match normalize(file_path) {
        None => Err(GuardError::PathEscapesRoot),
        Some(p) => {
            if p.len() == 0 {
                Err(GuardError::InvalidPath)
            } else {
                Ok(p)
            }
        },
    }
}

/// Every relative path that escapes the root is turned away by the store's
/// guard, and so is every canonical path outside the working directory by
/// the client's.
pub proof fn lemma_escaping_paths_rejected(
    file_path: Seq<u8>,
    working_dir: Seq<u8>,
    canonical: Seq<u8>,
)
    ensures
        escapes_root(file_path) <==> located(file_path) == Err::<Seq<u8>, GuardError>(
            GuardError::PathEscapesRoot,
        ),
        !is_under(working_dir, canonical) <==> admitted(working_dir, Some(canonical)) == Err::<
            Seq<u8>,
            GuardError,
        >(GuardError::PathEscapesRoot),
{
    crate::path::lemma_normalized_none_iff_escapes(file_path);
}

/// The resolved path that the store's guard returns is admitted again, as
/// itself.
pub proof fn lemma_located_is_fixed(file_path: Seq<u8>)
    ensures
        located(file_path) matches Ok(path) ==> located(path) == Ok::<Seq<u8>, GuardError>(path),
{
    crate::path::lemma_normalized_is_fixed(file_path);
}

} // verus!

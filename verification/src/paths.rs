//! The files of a data directory.
use vstd::prelude::*;
use vstd::string::*;

use crate::fault::{because, fault, Fault, FaultKind, FaultView};
use crate::prose::{append_number, number_text};
use crate::text::{number_in, read_number, same_text};
use crate::words::{ahead, behind, chars_of, pieces, split, strip_prefix, strip_suffix, texts};

verus! {

/// A relative path under a directory.
pub open spec fn joined(dir: Seq<char>, rest: Seq<char>) -> Seq<char> {
    if dir.len() == 0 {
        rest
    } else if dir.last() == '/' {
        dir + rest
    } else {
        dir + "/"@ + rest
    }
}

/// Joins a directory and a relative path.
pub fn join(dir: &str, rest: &str) -> (path: String)
    ensures
        path@ == joined(dir@, rest@),
{
    let size: usize = dir.unicode_len();
    let mut path = dir.to_owned();
    if size != 0 && dir.get_char(size - 1) != '/' {
        path.append("/");
    }
    path.append(rest);
    assert(size == 0 ==> path@ =~= rest@);
    path
}

/// Where the identity of a data directory stands.
pub fn identity_path(data_dir: &str) -> (path: String)
    ensures
        path@ == joined(data_dir@, "identity.ccid"@),
{
    join(data_dir, "identity.ccid")
}

/// The name of a numbered file.
pub open spec fn numbered(prefix: &str, number: u64, suffix: &str) -> Seq<char> {
    prefix@ + number_text(number as nat) + suffix@
}

fn numbered_name(prefix: &str, number: u64, suffix: &str) -> (name: String)
    ensures
        name@ == numbered(prefix, number, suffix),
{
    let mut name = prefix.to_owned();
    append_number(&mut name, number);
    name.append(suffix);
    name
}

/// Where a published checkpoint stands.
pub open spec fn checkpoint_at(data_dir: Seq<char>, generation: u64) -> Seq<char> {
    joined(joined(data_dir, "snapshots"@), numbered("snapshot.", generation, ".ccsn"))
}

/// Where a published checkpoint stands.
pub fn published_snapshot_path(data_dir: &str, generation: u64) -> (path: String)
    ensures
        path@ == checkpoint_at(data_dir@, generation),
{
    let snapshots = join(data_dir, "snapshots");
    join(snapshots.as_str(), numbered_name("snapshot.", generation, ".ccsn").as_str())
}

/// Where the manifest of a generation stands.
pub open spec fn manifest_at(data_dir: Seq<char>, generation: u64) -> Seq<char> {
    joined(joined(data_dir, "store"@), numbered("manifest.", generation, ".ccmf"))
}

/// Where the manifest of a generation stands.
pub fn manifest_path(data_dir: &str, generation: u64) -> (path: String)
    ensures
        path@ == manifest_at(data_dir@, generation),
{
    let store = join(data_dir, "store");
    join(store.as_str(), numbered_name("manifest.", generation, ".ccmf").as_str())
}

/// A file as the engine names it.
#[derive(Clone, Copy, Debug, PartialEq, Eq, Structural)]
pub enum FileId {
    Wal { segment: u64 },
    StoreWal { segment: u64 },
    Snapshot { generation: u64 },
    Manifest { generation: u64 },
    Sst { file_no: u64 },
    Temp { sequence: u64 },
    Meta,
}

/// Whether a file is one of the two logs that are appended to in place.
pub open spec fn is_log(file: FileId) -> bool {
    file == (FileId::Wal { segment: 0 }) || file == (FileId::StoreWal { segment: 0 })
}

/// Where a file stands.
pub open spec fn file_at(data_dir: Seq<char>, file: FileId) -> Result<Seq<char>, FaultView> {
    match file {
        FileId::Temp { sequence } => Ok(
            joined(
                joined(joined(data_dir, "snapshots"@), "staging"@),
                numbered("stage.", sequence, ".ccsn"),
            ),
        ),
        FileId::Snapshot { generation } => Ok(checkpoint_at(data_dir, generation)),
        FileId::Manifest { generation } => Ok(manifest_at(data_dir, generation)),
        FileId::Meta => Ok(joined(data_dir, "store/META"@)),
        FileId::Sst { file_no } => Ok(
            joined(joined(data_dir, "store"@), numbered("sst.", file_no, ".ccst")),
        ),
        FileId::Wal { segment } => if segment == 0 {
            Ok(joined(data_dir, "raft/wal.0"@))
        } else {
            Err(because(FaultKind::InvalidInput, "unexpected logical snapshot file"))
        },
        FileId::StoreWal { segment } => if segment == 0 {
            Ok(joined(data_dir, "store/wal.0"@))
        } else {
            Err(because(FaultKind::InvalidInput, "unexpected logical snapshot file"))
        },
    }
}

/// Where a file stands.
pub fn snapshot_stage_path(data_dir: &str, file: FileId) -> (result: Result<String, Fault>)
    ensures
        match result {
            Ok(path) => file_at(data_dir@, file) == Ok::<Seq<char>, FaultView>(path@),
            Err(error) => file_at(data_dir@, file) == Err::<Seq<char>, FaultView>(error@),
        },
{
    match file {
        FileId::Temp { sequence } => {
            let snapshots = join(data_dir, "snapshots");
            let staging = join(snapshots.as_str(), "staging");
            Ok(join(staging.as_str(), numbered_name("stage.", sequence, ".ccsn").as_str()))
        },
        FileId::Snapshot { generation } => Ok(published_snapshot_path(data_dir, generation)),
        FileId::Manifest { generation } => Ok(manifest_path(data_dir, generation)),
        FileId::Meta => Ok(join(data_dir, "store/META")),
        FileId::Sst { file_no } => {
            let store = join(data_dir, "store");
            Ok(join(store.as_str(), numbered_name("sst.", file_no, ".ccst").as_str()))
        },
        FileId::Wal { segment } => if segment == 0 {
            Ok(join(data_dir, "raft/wal.0"))
        } else {
            Err(fault(FaultKind::InvalidInput, "unexpected logical snapshot file"))
        },
        FileId::StoreWal { segment } => if segment == 0 {
            Ok(join(data_dir, "store/wal.0"))
        } else {
            Err(fault(FaultKind::InvalidInput, "unexpected logical snapshot file"))
        },
    }
}

/// Whether a character is an ASCII digit.
pub open spec fn digit(c: char) -> bool {
    '0' <= c <= '9'
}

/// What stands between a prefix and a suffix.
pub open spec fn between(name: Seq<char>, prefix: &str, suffix: &str) -> Option<Seq<char>> {
    match behind(name, prefix@) {
        None => None,
        Some(rest) => ahead(rest, suffix@),
    }
}

/// Whether a name is that of a staged transfer.
pub open spec fn staged(name: Seq<char>) -> bool {
    match between(name, "stage.", ".ccsn") {
        None => false,
        Some(number) => number.len() > 0 && forall|i: int|
            0 <= i < number.len() ==> digit(#[trigger] number[i]),
    }
}

fn find_between<'a>(name: &'a str, prefix: &str, suffix: &str) -> (middle: Option<&'a str>)
    ensures
        match middle {
            Some(middle) => between(name@, prefix, suffix) == Some(middle@),
            None => between(name@, prefix, suffix) is None,
        },
{
    match strip_prefix(name, prefix) {
        Some(rest) => strip_suffix(rest, suffix),
        None => None,
    }
}

/// Whether a file of the staging directory is left over from a transfer and
/// goes at boot.
pub fn is_staged_transfer(name: &str) -> (r: bool)
    ensures
        r == staged(name@),
{
    let number = match find_between(name, "stage.", ".ccsn") {
        Some(number) => number,
        None => return false,
    };
    let chars = chars_of(number);
    let mut i: usize = 0;
    while i < chars.len()
        invariant
            i <= chars@.len(),
            chars@ == number@,
            between(name@, "stage.", ".ccsn") == Some(number@),
            forall|k: int| 0 <= k < i ==> digit(#[trigger] number@[k]),
        decreases chars@.len() - i,
    {
        if chars[i] < '0' || chars[i] > '9' {
            assert(!digit(number@[i as int]));
            return false;
        }
        i += 1;
    }
    chars.len() != 0
}

/// The generation of a published checkpoint's name.
#[verifier::opaque]
pub open spec fn generation_of(name: Seq<char>) -> Option<u64> {
    match between(name, "snapshot.", ".ccsn") {
        None => None,
        Some(number) => match number_in(number) {
            None => None,
            Some(generation) => if generation == 0 {
                None
            } else {
                Some(generation)
            },
        },
    }
}

/// The newest generation among the first `n` names of a directory.
pub open spec fn newest(names: Seq<Seq<char>>, n: int) -> Option<u64>
    decreases n,
{
    if n <= 0 {
        None
    } else {
        let before = newest(names, n - 1);
        match generation_of(names[n - 1]) {
            None => before,
            Some(generation) => if before is None || generation > before->0 {
                Some(generation)
            } else {
                before
            },
        }
    }
}

/// Finds the newest published checkpoint among the names of a directory.
pub fn latest_published_generation(names: &[String]) -> (generation: Option<u64>)
    ensures
        generation == newest(texts(names@), names@.len() as int),
{
    let ghost all = texts(names@);
    let mut found: Option<u64> = None;
    let mut i: usize = 0;
    while i < names.len()
        invariant
            i <= names@.len(),
            all == texts(names@),
            found == newest(all, i as int),
        decreases names@.len() - i,
    {
        reveal(generation_of);
        assert(all[i as int] == names@[i as int]@);
        if let Some(number) = find_between(names[i].as_str(), "snapshot.", ".ccsn") {
            if let Some(generation) = read_number(number) {
                if generation != 0 {
                    let newer = match found {
                        None => true,
                        Some(current) => generation > current,
                    };
                    if newer {
                        found = Some(generation);
                    }
                }
            }
        }
        i += 1;
    }
    found
}

/// What a rename does where its target may stand already.
#[derive(Clone, Copy, Debug, PartialEq, Eq, Structural)]
pub enum RenameStep {
    /// The same bytes stand there already: drop the source.
    DropSource,
    /// Move the source, and go on with the file that it replaced.
    Move,
}

/// Decides a rename. A log is replaced; any other file is written once, and a
/// repetition with the same bytes is no news.
pub open spec fn rename_of(target: FileId, target_exists: bool, identical: bool) -> Result<
    RenameStep,
    FaultView,
> {
    if target_exists && !is_log(target) {
        if identical {
            Ok(RenameStep::DropSource)
        } else {
            Err(
                because(
                    FaultKind::AlreadyExists,
                    "durable snapshot generation already exists with different bytes",
                ),
            )
        }
    } else {
        Ok(RenameStep::Move)
    }
}

/// Decides a rename.
pub fn rename_step(target: FileId, target_exists: bool, identical: bool) -> (result: Result<
    RenameStep,
    Fault,
>)
    ensures
        match result {
            Ok(step) => rename_of(target, target_exists, identical) == Ok::<RenameStep, FaultView>(
                step,
            ),
            Err(error) => rename_of(target, target_exists, identical) == Err::<
                RenameStep,
                FaultView,
            >(error@),
        },
{
    let log = match target {
        FileId::Wal { segment } => segment == 0,
        FileId::StoreWal { segment } => segment == 0,
        _ => false,
    };
    if target_exists && !log {
        if identical {
            return Ok(RenameStep::DropSource);
        }
        return Err(
            fault(
                FaultKind::AlreadyExists,
                "durable snapshot generation already exists with different bytes",
            ),
        );
    }
    Ok(RenameStep::Move)
}

/// A published generation never changes: a rename over one that stands there
/// either finds the same bytes and leaves it, or is refused.
pub proof fn law_generations_are_written_once(target: FileId, identical: bool)
    requires
        !is_log(target),
    ensures
        rename_of(target, true, identical) == Ok::<RenameStep, FaultView>(RenameStep::DropSource)
            || rename_of(target, true, identical) is Err,
        rename_of(target, true, identical) is Ok ==> identical,
{
}

/// The steps of a path among its first `n` pieces: empty ones are none, and
/// neither is `.` but at the start.
pub open spec fn steps(parts: Seq<Seq<char>>, n: int) -> Seq<Seq<char>>
    decreases n,
{
    if n <= 0 {
        seq![]
    } else {
        let part = parts[n - 1];
        if part.len() == 0 || (part == "."@ && n > 1) {
            steps(parts, n - 1)
        } else {
            steps(parts, n - 1).push(part)
        }
    }
}

/// Where a path leads: whether from the root, and by which steps.
pub open spec fn leads(path: Seq<char>) -> (bool, Seq<Seq<char>>) {
    (path.len() > 0 && path[0] == '/', steps(pieces(path, '/'), pieces(path, '/').len() as int))
}

fn path_steps(path: &str) -> (found: Vec<String>)
    ensures
        texts(found@) == leads(path@).1,
{
    let parts = split(path, '/');
    let ghost all = texts(parts@);
    let mut found: Vec<String> = Vec::new();
    let mut i: usize = 0;
    assert(texts(found@) =~= seq![]);
    while i < parts.len()
        invariant
            i <= parts@.len(),
            all == texts(parts@),
            texts(found@) == steps(all, i as int),
        decreases parts@.len() - i,
    {
        assert(all[i as int] == parts@[i as int]@);
        let ghost before = texts(found@);
        let part = parts[i].as_str();
        if part.unicode_len() != 0 && !(same_text(part, ".") && i > 0) {
            found.push(part.to_owned());
            assert(texts(found@) =~= before.push(part@));
        }
        i += 1;
    }
    found
}

/// Whether two paths lead to the same place.
pub fn same_path(a: &str, b: &str) -> (r: bool)
    ensures
        r == (leads(a@) == leads(b@)),
{
    let rooted_a = a.unicode_len() > 0 && a.get_char(0) == '/';
    let rooted_b = b.unicode_len() > 0 && b.get_char(0) == '/';
    let left = path_steps(a);
    let right = path_steps(b);
    if rooted_a != rooted_b || left.len() != right.len() {
        assert(texts(left@).len() == left@.len());
        assert(texts(right@).len() == right@.len());
        return false;
    }
    let mut i: usize = 0;
    while i < left.len()
        invariant
            i <= left@.len() == right@.len(),
            texts(left@) == leads(a@).1,
            texts(right@) == leads(b@).1,
            forall|k: int| 0 <= k < i ==> texts(left@)[k] == texts(right@)[k],
        decreases left@.len() - i,
    {
        assert(texts(left@)[i as int] == left@[i as int]@);
        assert(texts(right@)[i as int] == right@[i as int]@);
        if !same_text(left[i].as_str(), right[i].as_str()) {
            return false;
        }
        i += 1;
    }
    assert(texts(left@) =~= texts(right@));
    true
}

} // verus!

//! Where files stand, and what may be done to them.
use vstd::prelude::*;
use vstd::string::*;

use crate::fault::{FaultKind, FaultView};
use crate::files::{
    backup_write_refusal, checked_dir_refusal, identity_write_refusal, initialize_refusal,
    join_dir_refusal, Place,
};
use crate::hex::zero_id;
use crate::host::record_path_refusal;
use crate::legacy::archive_refusal;
use crate::paths::{
    between, digit, file_at, generation_of, newest, numbered, rename_of, staged, FileId, RenameStep,
};
use crate::prose::number_text;
use crate::restore::restore_request_refusal;
use crate::status_laws::{decimal_char, law_numbers_read_back, lemma_number_text};

verus! {

/// The number of a numbered file stands between its prefix and its suffix.
proof fn lemma_number_between(prefix: &str, number: u64, suffix: &str)
    ensures
        between(numbered(prefix, number, suffix), prefix, suffix) == Some(number_text(number as nat)),
{
    let digits = number_text(number as nat);
    let name = numbered(prefix, number, suffix);
    let rest = digits + suffix@;
    assert(name =~= prefix@ + rest);
    assert(prefix@.is_prefix_of(name)) by {
        assert(name.subrange(0, prefix@.len() as int) =~= prefix@);
    }
    assert(name.skip(prefix@.len() as int) =~= rest);
    assert(suffix@.is_suffix_of(rest)) by {
        assert(rest.subrange(rest.len() - suffix@.len(), rest.len() as int) =~= suffix@);
    }
    assert(rest.take(rest.len() - suffix@.len()) =~= digits);
}

/// A published checkpoint is found again by its name, as the generation that it was
/// published as; and the name of a staged transfer is known as one.
pub proof fn law_published_names_read_back(generation: u64, sequence: u64)
    requires
        generation != 0,
    ensures
        generation_of(numbered("snapshot.", generation, ".ccsn")) == Some(generation),
        staged(numbered("stage.", sequence, ".ccsn")),
{
    reveal(generation_of);
    lemma_number_between("snapshot.", generation, ".ccsn");
    law_numbers_read_back(generation);
    lemma_number_between("stage.", sequence, ".ccsn");
    lemma_number_text(sequence as nat);
    let digits = number_text(sequence as nat);
    assert forall|i: int| 0 <= i < digits.len() implies digit(#[trigger] digits[i]) by {
        assert(decimal_char(digits[i]));
    }
}

/// The newest checkpoint of a directory is one of those that stand there, and none of
/// them is newer. There is none only where none stands there.
pub proof fn law_the_newest_checkpoint_is_found(names: Seq<Seq<char>>, n: int)
    requires
        0 <= n <= names.len(),
    ensures
        newest(names, n) matches Some(generation) ==> exists|i: int|
            0 <= i < n && generation_of(#[trigger] names[i]) == Some(generation),
        forall|i: int|
            0 <= i < n ==> (generation_of(#[trigger] names[i]) matches Some(generation) ==> (newest(
                names,
                n,
            ) matches Some(found) && generation <= found)),
    decreases n,
{
    if n > 0 {
        law_the_newest_checkpoint_is_found(names, n - 1);
        if newest(names, n) == newest(names, n - 1) && newest(names, n) is Some {
            let found = newest(names, n)->0;
            let i = choose|i: int|
                0 <= i < n - 1 && generation_of(#[trigger] names[i]) == Some(found);
            assert(generation_of(names[i]) == Some(found));
        } else {
            assert(generation_of(names[n - 1]) == newest(names, n) || newest(names, n) is None);
        }
    }
}

/// A file that does not stand yet is moved to its place, and so is a log over the one
/// that it replaces. Any other file that stands already stays: the same bytes are
/// dropped, and other bytes are refused.
pub proof fn law_renames_replace_only_logs(target: FileId, exists_already: bool, identical: bool)
    ensures
        ({
            let log = target == (FileId::Wal { segment: 0 }) || target == (FileId::StoreWal {
                segment: 0,
            });
            let step = rename_of(target, exists_already, identical);
            &&& !exists_already || log ==> step == Ok::<RenameStep, FaultView>(RenameStep::Move)
            &&& exists_already && !log && identical ==> step == Ok::<RenameStep, FaultView>(
                RenameStep::DropSource,
            )
            &&& exists_already && !log && !identical ==> (step matches Err(fault) && fault.kind
                == FaultKind::AlreadyExists)
        }),
{
}

/// A directory is initialized, joined from or checked exactly where nothing is in the
/// way: nothing is written through a link or over what is there, and what is there
/// already stays.
pub proof fn law_nothing_is_written_over(
    node: u64,
    path: Seq<char>,
    parent: Seq<char>,
    is_link: bool,
    holds_files: bool,
    place: Place,
)
    ensures
        initialize_refusal(node, path, is_link, holds_files) is None <==> node != 0 && !is_link
            && !holds_files,
        join_dir_refusal(path, is_link, holds_files) is None <==> !is_link && !holds_files,
        backup_write_refusal(parent, place) is None <==> !place.parent_is_link && !place.taken,
        identity_write_refusal(Some(parent), path, place) is None <==> !place.parent_is_link
            && !place.is_link && !place.taken,
        identity_write_refusal(None, path, place) is Some,
        forall|is_dir: bool, configured: bool|
            #[trigger] checked_dir_refusal(is_dir, configured) is None <==> is_dir && configured,
        node != 0 && !is_link && holds_files ==> (initialize_refusal(
            node,
            path,
            is_link,
            holds_files,
        ) matches Some(fault) && fault.kind == FaultKind::AlreadyExists),
        !place.parent_is_link && place.taken ==> (backup_write_refusal(parent, place) matches Some(
            fault,
        ) && fault.kind == FaultKind::AlreadyExists),
{
}

/// Where the files of a node stand below its data directory.
pub open spec fn layout(file: FileId) -> Seq<char> {
    match file {
        FileId::Wal { .. } => "raft/wal.0"@,
        FileId::StoreWal { .. } => "store/wal.0"@,
        FileId::Snapshot { generation } => "snapshots/snapshot."@ + number_text(generation as nat)
            + ".ccsn"@,
        FileId::Manifest { generation } => "store/manifest."@ + number_text(generation as nat)
            + ".ccmf"@,
        FileId::Sst { file_no } => "store/sst."@ + number_text(file_no as nat) + ".ccst"@,
        FileId::Temp { sequence } => "snapshots/staging/stage."@ + number_text(sequence as nat)
            + ".ccsn"@,
        FileId::Meta => "store/META"@,
    }
}

/// Every file of a node stands in its place below the data directory. A log of another
/// segment than the first has none.
pub proof fn law_files_stand_in_their_places(data_dir: Seq<char>, file: FileId)
    requires
        data_dir.len() > 0,
        data_dir.last() != '/',
    ensures
        match file {
            FileId::Wal { segment } => segment != 0 ==> file_at(data_dir, file) is Err,
            FileId::StoreWal { segment } => segment != 0 ==> file_at(data_dir, file) is Err,
            _ => true,
        },
        (file matches FileId::Wal { segment } ==> segment == 0) && (file matches FileId::StoreWal {
            segment,
        } ==> segment == 0) ==> file_at(data_dir, file) == Ok::<Seq<char>, FaultView>(
            data_dir + "/"@ + layout(file),
        ),
{
    reveal_strlit("/");
    reveal_strlit("snapshots");
    reveal_strlit("store");
    reveal_strlit("staging");
    let snapshots = data_dir + "/"@ + "snapshots"@;
    assert(snapshots.last() == 's');
    let store = data_dir + "/"@ + "store"@;
    assert(store.last() == 'e');
    let staging = snapshots + "/"@ + "staging"@;
    assert(staging.last() == 'g');
    match file {
        FileId::Snapshot { generation } => {
            let n = number_text(generation as nat);
            assert("snapshots"@ + "/"@ + "snapshot."@ =~= "snapshots/snapshot."@) by {
                reveal_strlit("snapshot.");
                reveal_strlit("snapshots/snapshot.");
            }
            lemma_placed(data_dir, "/"@, "snapshots"@, "snapshot."@, n, ".ccsn"@);
        },
        FileId::Manifest { generation } => {
            let n = number_text(generation as nat);
            assert("store"@ + "/"@ + "manifest."@ =~= "store/manifest."@) by {
                reveal_strlit("manifest.");
                reveal_strlit("store/manifest.");
            }
            lemma_placed(data_dir, "/"@, "store"@, "manifest."@, n, ".ccmf"@);
        },
        FileId::Sst { file_no } => {
            let n = number_text(file_no as nat);
            assert("store"@ + "/"@ + "sst."@ =~= "store/sst."@) by {
                reveal_strlit("sst.");
                reveal_strlit("store/sst.");
            }
            lemma_placed(data_dir, "/"@, "store"@, "sst."@, n, ".ccst"@);
        },
        FileId::Temp { sequence } => {
            let n = number_text(sequence as nat);
            let inner = "snapshots"@ + "/"@ + "staging"@;
            assert(inner + "/"@ + "stage."@ =~= "snapshots/staging/stage."@) by {
                reveal_strlit("stage.");
                reveal_strlit("snapshots/staging/stage.");
            }
            assert(staging =~= data_dir + "/"@ + inner);
            lemma_placed(data_dir, "/"@, inner, "stage."@, n, ".ccsn"@);
        },
        _ => {},
    }
}

proof fn lemma_placed(
    dir: Seq<char>,
    slash: Seq<char>,
    inner: Seq<char>,
    prefix: Seq<char>,
    number: Seq<char>,
    suffix: Seq<char>,
)
    ensures
        dir + slash + inner + slash + (prefix + number + suffix) == dir + slash + (inner + slash
            + prefix + number + suffix),
{
    assert(dir + slash + inner + slash + (prefix + number + suffix) =~= dir + slash + (inner + slash
        + prefix + number + suffix));
}

/// A restore looks at its input exactly where it is to make a node with a number, of a
/// cluster with an identity, in a place where nothing stands. A recording begins exactly
/// where nothing stands and its directory is no link.
pub proof fn law_new_places_are_empty(
    cluster: Seq<u8>,
    node: u64,
    taken: bool,
    has_parent: bool,
    parent_is_symlink: bool,
)
    ensures
        restore_request_refusal(cluster, node, taken) is None <==> !zero_id(cluster) && node != 0
            && !taken,
        record_path_refusal(taken, has_parent, parent_is_symlink) is None <==> !taken && has_parent
            && !parent_is_symlink,
        taken ==> (record_path_refusal(taken, has_parent, parent_is_symlink) matches Some(fault)
            && fault.kind == FaultKind::AlreadyExists),
{
}

/// The files of a node are archived where its log is whole and none is larger than an
/// archive holds.
pub proof fn law_whole_nodes_are_archived(
    identity: Seq<u8>,
    config: Seq<u8>,
    wal: Seq<u8>,
    wal_is_whole: bool,
)
    ensures
        archive_refusal(identity, config, wal, wal_is_whole) is None <==> {
            &&& identity.len() <= 1_073_741_824
            &&& config.len() <= 1_073_741_824
            &&& wal.len() <= 1_073_741_824
            &&& wal.len() == 0 || wal_is_whole
        },
{
}

} // verus!

//! The backup bundle: a logical checkpoint with its provenance, and the checks
//! that guard it.
use vstd::prelude::*;
use vstd::string::*;

use crate::crc::{crc32c, crc_of};
use crate::fault::{because, fault, fault_of, handed_on, Fault, FaultKind, FaultView};
use crate::hex::{to_array16, zero_id, ClusterId};
use crate::identity::MIN_SEMANTIC_READER;
use crate::ids::{LogIndex, Term, Time};
use crate::text::{copy_bytes, write_bytes};
use crate::wire::{
    le16, le32, le64, lemma_le_len, lemma_stands_split, lemma_u16_at, lemma_u32_at, lemma_u64_at,
    read_u16, read_u32, read_u64, stands_at, u16_at, u32_at, u64_at, write_u16, write_u32,
    write_u64,
};

verus! {

/// The version of a bundle that holds a logical checkpoint.
pub const BACKUP_VERSION: u16 = 2;

/// The version of an archive that clones a node's files.
pub const LEGACY_BACKUP_VERSION: u16 = 1;

pub const BACKUP_V2_HEADER_BYTES: usize = 80;

pub const BACKUP_V2_FOOTER_BYTES: usize = 8;

/// The largest checkpoint or archived file.
pub const BACKUP_MAX_FILE: usize = 1024 * 1024 * 1024;

/// Where the state of a bundle comes from.
#[derive(Clone, Copy, Debug, PartialEq, Eq, Structural)]
pub enum BackupProvenance {
    LogicalCluster,
    LegacyNode,
}

/// A checkpoint of a cluster and where it was taken.
#[derive(Clone, Debug, PartialEq, Eq)]
pub struct BackupV2 {
    pub source_cluster_id: ClusterId,
    pub source_index: LogIndex,
    pub source_term: Term,
    pub source_last_leader_time: Time,
    pub source_policy_hash: u64,
    pub source_min_semantic: u16,
    pub source_active_features: u64,
    pub checkpoint: Vec<u8>,
    pub provenance: BackupProvenance,
}

#[verifier::ext_equal]
pub struct BackupView {
    pub source_cluster_id: Seq<u8>,
    pub source_index: LogIndex,
    pub source_term: Term,
    pub source_last_leader_time: Time,
    pub source_policy_hash: u64,
    pub source_min_semantic: u16,
    pub source_active_features: u64,
    pub checkpoint: Seq<u8>,
    pub provenance: BackupProvenance,
}

impl View for BackupV2 {
    type V = BackupView;

    open spec fn view(&self) -> BackupView {
        BackupView {
            source_cluster_id: self.source_cluster_id@,
            source_index: self.source_index,
            source_term: self.source_term,
            source_last_leader_time: self.source_last_leader_time,
            source_policy_hash: self.source_policy_hash,
            source_min_semantic: self.source_min_semantic,
            source_active_features: self.source_active_features,
            checkpoint: self.checkpoint@,
            provenance: self.provenance,
        }
    }
}

pub open spec fn backup_magic() -> Seq<u8> {
    seq![67u8, 67u8, 66u8, 75u8]
}

pub open spec fn footer_magic() -> Seq<u8> {
    seq![67u8, 66u8, 75u8, 69u8]
}

/// The header of a bundle without its checksum.
pub open spec fn backup_fields(backup: BackupView) -> Seq<u8> {
    backup_magic() + le16(BACKUP_VERSION) + backup.source_cluster_id + le64(backup.source_index.0)
        + le64(backup.source_term.0) + le64(backup.source_last_leader_time.0) + le64(
        backup.source_policy_hash,
    ) + le16(backup.source_min_semantic) + le64(backup.source_active_features) + le64(
        backup.checkpoint.len() as u64,
    ) + le32(crc_of(backup.checkpoint))
}

/// The checksum of a header: that of the header with a checksum of zero.
pub open spec fn header_checksum(fields: Seq<u8>) -> u32 {
    crc_of(fields + le32(0))
}

/// The header of a bundle and its checkpoint.
pub open spec fn backup_body(backup: BackupView) -> Seq<u8> {
    backup_fields(backup) + le32(header_checksum(backup_fields(backup))) + backup.checkpoint
}

/// The checksum of a bundle: that of the bundle with a checksum of zero.
pub open spec fn bundle_checksum(body: Seq<u8>) -> u32 {
    crc_of(body + le32(0) + footer_magic())
}

/// The bytes of a bundle.
pub open spec fn backup_bytes(backup: BackupView) -> Seq<u8> {
    backup_body(backup) + le32(bundle_checksum(backup_body(backup))) + footer_magic()
}

/// Whether the provenance of a bundle makes sense.
pub open spec fn backup_sound(backup: BackupView) -> bool {
    &&& !zero_id(backup.source_cluster_id)
    &&& backup.source_index.0 != 0
    &&& backup.source_term.0 != 0
    &&& 0 < backup.source_min_semantic <= MIN_SEMANTIC_READER
}

/// Whether a bundle can be written.
pub open spec fn backup_writable(backup: BackupView) -> bool {
    &&& backup_sound(backup)
    &&& 0 < backup.checkpoint.len() <= BACKUP_MAX_FILE
}

/// The fields of a header.
pub open spec fn header_fields(bytes: Seq<u8>) -> BackupView {
    BackupView {
        source_cluster_id: bytes.subrange(6, 22),
        source_index: LogIndex(u64_at(bytes, 22)->0),
        source_term: Term(u64_at(bytes, 30)->0),
        source_last_leader_time: Time(u64_at(bytes, 38)->0),
        source_policy_hash: u64_at(bytes, 46)->0,
        source_min_semantic: u16_at(bytes, 54)->0,
        source_active_features: u64_at(bytes, 56)->0,
        checkpoint: bytes.subrange(80, bytes.len() - 8),
        provenance: BackupProvenance::LogicalCluster,
    }
}

/// The bundle that bytes hold, or what is wrong with them.
pub open spec fn bundle_of(bytes: Seq<u8>) -> Result<BackupView, FaultView> {
    let footer = bytes.len() - BACKUP_V2_FOOTER_BYTES;
    if bytes.len() < BACKUP_V2_HEADER_BYTES + BACKUP_V2_FOOTER_BYTES {
        Err(because(FaultKind::UnexpectedEof, "truncated backup"))
    } else if !stands_at(bytes, 0, backup_magic()) {
        Err(because(FaultKind::InvalidData, "invalid backup magic"))
    } else if u16_at(bytes, 4) == Some(LEGACY_BACKUP_VERSION) {
        Err(
            because(
                FaultKind::InvalidData,
                "legacy node backup requires an explicit legacy importer",
            ),
        )
    } else if u16_at(bytes, 4) != Some(BACKUP_VERSION) {
        Err(because(FaultKind::InvalidData, "unsupported backup version"))
    } else if u32_at(bytes, 76) != Some(header_checksum(bytes.take(76))) {
        Err(because(FaultKind::InvalidData, "backup header checksum"))
    } else if !stands_at(bytes, footer + 4, footer_magic()) {
        Err(because(FaultKind::InvalidData, "backup footer magic"))
    } else if u32_at(bytes, footer) != Some(bundle_checksum(bytes.take(footer))) {
        Err(because(FaultKind::InvalidData, "backup bundle checksum"))
    } else if u64_at(bytes, 64)->0 > usize::MAX {
        Err(because(FaultKind::InvalidData, "backup checkpoint length"))
    } else if u64_at(bytes, 64)->0 == 0 || u64_at(bytes, 64)->0 > BACKUP_MAX_FILE {
        Err(because(FaultKind::InvalidData, "backup checkpoint limit"))
    } else if 80 + u64_at(bytes, 64)->0 != footer {
        Err(because(FaultKind::InvalidData, "backup trailing bytes"))
    } else if u32_at(bytes, 72) != Some(crc_of(header_fields(bytes).checkpoint)) || !backup_sound(
        header_fields(bytes),
    ) {
        Err(because(FaultKind::InvalidData, "invalid backup checkpoint"))
    } else {
        Ok(header_fields(bytes))
    }
}

/// What stands in bytes that start with the header of a bundle.
proof fn lemma_fields_stand(bytes: Seq<u8>, backup: BackupView)
    requires
        backup.source_cluster_id.len() == 16,
    ensures
        backup_fields(backup).len() == 76,
        stands_at(bytes, 0, backup_fields(backup)) <==> {
            &&& stands_at(bytes, 0, backup_magic())
            &&& u16_at(bytes, 4) == Some(BACKUP_VERSION)
            &&& stands_at(bytes, 6, backup.source_cluster_id)
            &&& u64_at(bytes, 22) == Some(backup.source_index.0)
            &&& u64_at(bytes, 30) == Some(backup.source_term.0)
            &&& u64_at(bytes, 38) == Some(backup.source_last_leader_time.0)
            &&& u64_at(bytes, 46) == Some(backup.source_policy_hash)
            &&& u16_at(bytes, 54) == Some(backup.source_min_semantic)
            &&& u64_at(bytes, 56) == Some(backup.source_active_features)
            &&& u64_at(bytes, 64) == Some(backup.checkpoint.len() as u64)
            &&& u32_at(bytes, 72) == Some(crc_of(backup.checkpoint))
        },
{
    let size = backup.checkpoint.len() as u64;
    let sum = crc_of(backup.checkpoint);
    lemma_le_len(BACKUP_VERSION as nat, 2);
    lemma_le_len(backup.source_index.0 as nat, 8);
    lemma_le_len(backup.source_term.0 as nat, 8);
    lemma_le_len(backup.source_last_leader_time.0 as nat, 8);
    lemma_le_len(backup.source_policy_hash as nat, 8);
    lemma_le_len(backup.source_min_semantic as nat, 2);
    lemma_le_len(backup.source_active_features as nat, 8);
    lemma_le_len(size as nat, 8);
    lemma_le_len(sum as nat, 4);
    let p1 = backup_magic();
    let p2 = p1 + le16(BACKUP_VERSION);
    let p3 = p2 + backup.source_cluster_id;
    let p4 = p3 + le64(backup.source_index.0);
    let p5 = p4 + le64(backup.source_term.0);
    let p6 = p5 + le64(backup.source_last_leader_time.0);
    let p7 = p6 + le64(backup.source_policy_hash);
    let p8 = p7 + le16(backup.source_min_semantic);
    let p9 = p8 + le64(backup.source_active_features);
    let p10 = p9 + le64(size);
    lemma_stands_split(bytes, 0, p10, le32(sum));
    lemma_stands_split(bytes, 0, p9, le64(size));
    lemma_stands_split(bytes, 0, p8, le64(backup.source_active_features));
    lemma_stands_split(bytes, 0, p7, le16(backup.source_min_semantic));
    lemma_stands_split(bytes, 0, p6, le64(backup.source_policy_hash));
    lemma_stands_split(bytes, 0, p5, le64(backup.source_last_leader_time.0));
    lemma_stands_split(bytes, 0, p4, le64(backup.source_term.0));
    lemma_stands_split(bytes, 0, p3, le64(backup.source_index.0));
    lemma_stands_split(bytes, 0, p2, backup.source_cluster_id);
    lemma_stands_split(bytes, 0, p1, le16(BACKUP_VERSION));
    lemma_u16_at(bytes, 4);
    lemma_u64_at(bytes, 22);
    lemma_u64_at(bytes, 30);
    lemma_u64_at(bytes, 38);
    lemma_u64_at(bytes, 46);
    lemma_u16_at(bytes, 54);
    lemma_u64_at(bytes, 56);
    lemma_u64_at(bytes, 64);
    lemma_u32_at(bytes, 72);
}

/// Where the parts of a bundle stand.
proof fn lemma_bundle_parts(
    fields: Seq<u8>,
    sum: Seq<u8>,
    checkpoint: Seq<u8>,
    total: Seq<u8>,
    end: Seq<u8>,
)
    requires
        fields.len() == 76,
        sum.len() == 4,
        total.len() == 4,
        end.len() == 4,
    ensures
        ({
            let bytes = fields + sum + checkpoint + total + end;
            let footer = (80 + checkpoint.len()) as int;
            &&& bytes.len() == footer + 8
            &&& stands_at(bytes, 0, fields)
            &&& bytes.take(76) == fields
            &&& stands_at(bytes, 76, sum)
            &&& bytes.subrange(80, footer) == checkpoint
            &&& bytes.take(footer) == fields + sum + checkpoint
            &&& stands_at(bytes, footer, total)
            &&& stands_at(bytes, footer + 4, end)
        }),
{
    let bytes = fields + sum + checkpoint + total + end;
    let footer = (80 + checkpoint.len()) as int;
    assert(bytes.subrange(0, 76) =~= fields);
    assert(bytes.take(76) =~= fields);
    assert(bytes.subrange(76, 80) =~= sum);
    assert(bytes.subrange(80, footer) =~= checkpoint);
    assert(bytes.take(footer) =~= fields + sum + checkpoint);
    assert(bytes.subrange(footer, footer + 4) =~= total);
    assert(bytes.subrange(footer + 4, footer + 8) =~= end);
}

/// Opening a bundle gives back what was written.
pub proof fn law_backup_reads_back(backup: BackupView)
    requires
        backup.source_cluster_id.len() == 16,
        backup.provenance == BackupProvenance::LogicalCluster,
        backup_writable(backup),
    ensures
        bundle_of(backup_bytes(backup)) == Ok::<BackupView, FaultView>(backup),
{
    let fields = backup_fields(backup);
    let sum = header_checksum(fields);
    let body = backup_body(backup);
    let total = bundle_checksum(body);
    let bytes = backup_bytes(backup);
    let footer = bytes.len() - 8;
    lemma_fields_stand(bytes, backup);
    lemma_le_len(sum as nat, 4);
    lemma_le_len(total as nat, 4);
    lemma_bundle_parts(fields, le32(sum), backup.checkpoint, le32(total), footer_magic());
    assert(bytes == fields + le32(sum) + backup.checkpoint + le32(total) + footer_magic());
    assert(u32_at(bytes, 76) == Some(sum)) by {
        lemma_u32_at(bytes, 76);
        assert(stands_at(bytes, 76, le32(sum)));
    }
    assert(u32_at(bytes, footer) == Some(total)) by {
        lemma_u32_at(bytes, footer);
        assert(stands_at(bytes, footer, le32(total)));
    }
    let found = header_fields(bytes);
    assert(stands_at(bytes, 6, backup.source_cluster_id));
    assert(found.checkpoint == backup.checkpoint);
    assert(found == backup);
}

/// A bundle that opens is the one that is written: no other bytes hold it.
pub proof fn law_backup_bytes_are_canonical(bytes: Seq<u8>)
    ensures
        bundle_of(bytes) matches Ok(backup) ==> bytes == backup_bytes(backup) && backup_writable(
            backup,
        ),
{
    if let Ok(backup) = bundle_of(bytes) {
        let footer = bytes.len() - 8;
        assert(u64_at(bytes, 22) is Some && u64_at(bytes, 30) is Some && u64_at(bytes, 38) is Some);
        assert(u64_at(bytes, 46) is Some && u16_at(bytes, 54) is Some && u64_at(bytes, 56) is Some);
        assert(u64_at(bytes, 64) is Some);
        lemma_fields_stand(bytes, backup);
        let fields = backup_fields(backup);
        assert(stands_at(bytes, 0, fields));
        assert(bytes.take(76) =~= fields);
        lemma_u32_at(bytes, 76);
        let sum = le32(header_checksum(fields));
        lemma_le_len(header_checksum(fields) as nat, 4);
        assert(stands_at(bytes, 76, sum));
        let body = backup_body(backup);
        assert(bytes.take(footer) =~= body) by {
            assert(bytes.take(footer) =~= bytes.subrange(0, 76) + bytes.subrange(76, 80)
                + bytes.subrange(80, footer));
        }
        lemma_u32_at(bytes, footer);
        let total = le32(bundle_checksum(body));
        lemma_le_len(bundle_checksum(body) as nat, 4);
        assert(stands_at(bytes, footer, total));
        assert(bytes =~= bytes.take(footer) + bytes.subrange(footer, footer + 4) + bytes.subrange(
            footer + 4,
            footer + 8,
        ));
    }
}

/// The checksum that the first 76 bytes call for.
fn header_sum(bytes: &[u8]) -> (sum: u32)
    requires
        bytes@.len() >= 76,
    ensures
        sum == header_checksum(bytes@.take(76)),
{
    let mut whole = copy_bytes(vstd::slice::slice_subrange(bytes, 0, 76));
    write_u32(0, &mut whole);
    assert(whole@ =~= bytes@.take(76) + le32(0));
    crc32c(whole.as_slice())
}

/// Appends the last word of a bundle.
fn write_footer_magic(bytes: &mut Vec<u8>)
    ensures
        final(bytes)@ == old(bytes)@ + footer_magic(),
{
    let ghost before = bytes@;
    bytes.push(67);
    bytes.push(66);
    bytes.push(75);
    bytes.push(69);
    assert(bytes@ =~= before + footer_magic());
}

/// The checksum that the bytes before a footer call for.
fn bundle_sum(bytes: &[u8], footer: usize) -> (sum: u32)
    requires
        footer <= bytes@.len(),
    ensures
        sum == bundle_checksum(bytes@.take(footer as int)),
{
    let mut whole = copy_bytes(vstd::slice::slice_subrange(bytes, 0, footer));
    write_u32(0, &mut whole);
    write_footer_magic(&mut whole);
    assert(whole@ =~= bytes@.take(footer as int) + le32(0) + footer_magic());
    crc32c(whole.as_slice())
}

/// Writes a bundle.
pub fn encode_backup_v2(backup: &BackupV2) -> (result: Result<Vec<u8>, Fault>)
    ensures
        match result {
            Ok(bytes) => backup_writable(backup@) && bytes@ == backup_bytes(backup@),
            Err(error) => !backup_writable(backup@) && error@ == because(
                FaultKind::InvalidData,
                "invalid backup metadata",
            ),
        },
{
    if backup.source_cluster_id.is_zero() || backup.source_index.get() == 0
        || backup.source_term.get() == 0 || backup.source_min_semantic == 0
        || backup.source_min_semantic > MIN_SEMANTIC_READER || backup.checkpoint.len() == 0
        || backup.checkpoint.len() > BACKUP_MAX_FILE {
        return Err(fault(FaultKind::InvalidData, "invalid backup metadata"));
    }
    let mut bytes: Vec<u8> = Vec::new();
    bytes.push(67);
    bytes.push(67);
    bytes.push(66);
    bytes.push(75);
    assert(bytes@ =~= backup_magic());
    write_u16(BACKUP_VERSION, &mut bytes);
    write_bytes(backup.source_cluster_id.bytes.as_slice(), &mut bytes);
    write_u64(backup.source_index.get(), &mut bytes);
    write_u64(backup.source_term.get(), &mut bytes);
    write_u64(backup.source_last_leader_time.as_nanos(), &mut bytes);
    write_u64(backup.source_policy_hash, &mut bytes);
    write_u16(backup.source_min_semantic, &mut bytes);
    write_u64(backup.source_active_features, &mut bytes);
    write_u64(backup.checkpoint.len() as u64, &mut bytes);
    write_u32(crc32c(backup.checkpoint.as_slice()), &mut bytes);
    proof {
        lemma_fields_stand(bytes@, backup@);
        assert(bytes@ == backup_fields(backup@));
        assert(bytes@.take(76) =~= bytes@);
    }
    let sum: u32 = header_sum(bytes.as_slice());
    write_u32(sum, &mut bytes);
    write_bytes(backup.checkpoint.as_slice(), &mut bytes);
    assert(bytes@ == backup_body(backup@));
    assert(bytes@.take(bytes@.len() as int) =~= bytes@);
    let size: usize = bytes.len();
    let total: u32 = bundle_sum(bytes.as_slice(), size);
    write_u32(total, &mut bytes);
    write_footer_magic(&mut bytes);
    Ok(bytes)
}

/// Opens a bundle: its frame, checksums and provenance. What its checkpoint
/// says is another matter.
pub fn open_backup_v2(bytes: &[u8]) -> (result: Result<BackupV2, Fault>)
    ensures
        match result {
            Ok(backup) => bundle_of(bytes@) == Ok::<BackupView, FaultView>(backup@),
            Err(error) => bundle_of(bytes@) == Err::<BackupView, FaultView>(error@),
        },
{
    let size: usize = bytes.len();
    if size < 88 {
        return Err(fault(FaultKind::UnexpectedEof, "truncated backup"));
    }
    if bytes[0] != 67 || bytes[1] != 67 || bytes[2] != 66 || bytes[3] != 75 {
        proof {
            if stands_at(bytes@, 0, backup_magic()) {
                assert(bytes@.subrange(0, 4)[0] == 67 && bytes@.subrange(0, 4)[1] == 67);
                assert(bytes@.subrange(0, 4)[2] == 66 && bytes@.subrange(0, 4)[3] == 75);
            }
        }
        return Err(fault(FaultKind::InvalidData, "invalid backup magic"));
    }
    assert(bytes@.subrange(0, 4) =~= backup_magic());
    let version: Option<u16> = read_u16(bytes, 4);
    if version == Some(LEGACY_BACKUP_VERSION) {
        return Err(
            fault(
                FaultKind::InvalidData,
                "legacy node backup requires an explicit legacy importer",
            ),
        );
    }
    if version != Some(BACKUP_VERSION) {
        return Err(fault(FaultKind::InvalidData, "unsupported backup version"));
    }
    let header: u32 = header_sum(bytes);
    let expected: Option<u32> = read_u32(bytes, 76);
    if expected != Some(header) {
        return Err(fault(FaultKind::InvalidData, "backup header checksum"));
    }
    let footer: usize = size - 8;
    if bytes[footer + 4] != 67 || bytes[footer + 5] != 66 || bytes[footer + 6] != 75 || bytes[footer
        + 7] != 69 {
        proof {
            if stands_at(bytes@, footer + 4, footer_magic()) {
                let end = bytes@.subrange(footer + 4, footer + 8);
                assert(end[0] == 67 && end[1] == 66 && end[2] == 75 && end[3] == 69);
            }
        }
        return Err(fault(FaultKind::InvalidData, "backup footer magic"));
    }
    assert(bytes@.subrange(footer + 4, footer + 8) =~= footer_magic());
    let total: u32 = bundle_sum(bytes, footer);
    let expected: Option<u32> = read_u32(bytes, footer);
    if expected != Some(total) {
        return Err(fault(FaultKind::InvalidData, "backup bundle checksum"));
    }
    let length: u64 = match read_u64(bytes, 64) {
        Some(length) => length,
        None => 0,
    };
    if length > usize::MAX as u64 {
        return Err(fault(FaultKind::InvalidData, "backup checkpoint length"));
    }
    if length == 0 || length > BACKUP_MAX_FILE as u64 {
        return Err(fault(FaultKind::InvalidData, "backup checkpoint limit"));
    }
    if 80 + length != footer as u64 {
        return Err(fault(FaultKind::InvalidData, "backup trailing bytes"));
    }
    let checkpoint = copy_bytes(vstd::slice::slice_subrange(bytes, 80, footer));
    let source_index: u64 = match read_u64(bytes, 22) {
        Some(value) => value,
        None => 0,
    };
    let source_term: u64 = match read_u64(bytes, 30) {
        Some(value) => value,
        None => 0,
    };
    let time: u64 = match read_u64(bytes, 38) {
        Some(value) => value,
        None => 0,
    };
    let source_policy_hash: u64 = match read_u64(bytes, 46) {
        Some(value) => value,
        None => 0,
    };
    let source_min_semantic: u16 = match read_u16(bytes, 54) {
        Some(value) => value,
        None => 0,
    };
    let source_active_features: u64 = match read_u64(bytes, 56) {
        Some(value) => value,
        None => 0,
    };
    let sum: u32 = crc32c(checkpoint.as_slice());
    let backup = BackupV2 {
        source_cluster_id: ClusterId::new(to_array16(bytes, 6)),
        source_index: LogIndex::new(source_index),
        source_term: Term::new(source_term),
        source_last_leader_time: Time::from_nanos(time),
        source_policy_hash,
        source_min_semantic,
        source_active_features,
        checkpoint,
        provenance: BackupProvenance::LogicalCluster,
    };
    assert(backup@ =~= header_fields(bytes@));
    let expected: Option<u32> = read_u32(bytes, 72);
    if expected != Some(sum) || backup.source_cluster_id.is_zero() || source_index == 0
        || source_term == 0 || source_min_semantic == 0 || source_min_semantic
        > MIN_SEMANTIC_READER {
        return Err(fault(FaultKind::InvalidData, "invalid backup checkpoint"));
    }
    Ok(backup)
}

/// What the checkpoint of a bundle says of itself.
#[derive(Clone, Copy, Debug, PartialEq, Eq, Structural)]
pub struct CheckpointFacts {
    pub applied_index: LogIndex,
    pub applied_term: Term,
    pub last_leader_time: Time,
    pub policy_hash: u64,
    pub active_features: u64,
}

/// Whether a checkpoint is the one that a bundle speaks of.
pub open spec fn checkpoint_agrees(backup: BackupView, facts: CheckpointFacts) -> bool {
    &&& facts.applied_index == backup.source_index
    &&& facts.applied_term == backup.source_term
    &&& facts.last_leader_time == backup.source_last_leader_time
    &&& facts.policy_hash == backup.source_policy_hash
    &&& facts.active_features == backup.source_active_features
}

/// The bundle that bytes hold, where `facts` is what its checkpoint says of
/// itself, or the reason why it cannot be read, which is handed on.
pub open spec fn backup_of(bytes: Seq<u8>, facts: Result<CheckpointFacts, String>) -> Result<
    BackupView,
    FaultView,
> {
    match bundle_of(bytes) {
        Err(fault) => Err(fault),
        Ok(backup) => match facts {
            Err(reason) => Err(handed_on(reason@)),
            Ok(facts) => if checkpoint_agrees(backup, facts) {
                Ok(backup)
            } else {
                Err(because(FaultKind::InvalidData, "backup checkpoint metadata"))
            },
        },
    }
}

/// Reads a bundle, whose checkpoint has been read already.
pub fn decode_backup_v2(bytes: &[u8], facts: Result<CheckpointFacts, String>) -> (result: Result<
    BackupV2,
    Fault,
>)
    ensures
        match result {
            Ok(backup) => backup_of(bytes@, facts) == Ok::<BackupView, FaultView>(backup@),
            Err(error) => backup_of(bytes@, facts) == Err::<BackupView, FaultView>(error@),
        },
{
    let backup = match open_backup_v2(bytes) {
        Ok(backup) => backup,
        Err(error) => return Err(error),
    };
    match facts {
        Err(reason) => Err(fault_of(FaultKind::Other, reason)),
        Ok(facts) => {
            if facts.applied_index != backup.source_index || facts.applied_term
                != backup.source_term || facts.last_leader_time != backup.source_last_leader_time
                || facts.policy_hash != backup.source_policy_hash || facts.active_features
                != backup.source_active_features {
                return Err(fault(FaultKind::InvalidData, "backup checkpoint metadata"));
            }
            Ok(backup)
        },
    }
}

impl BackupV2 {
    /// Whether a bundle stands for a whole cluster.
    pub fn counts_as_cluster_complete(&self) -> (r: bool)
        ensures
            r == (self.provenance == BackupProvenance::LogicalCluster),
    {
        match self.provenance {
            BackupProvenance::LogicalCluster => true,
            BackupProvenance::LegacyNode => false,
        }
    }
}

/// What a bundle holds is one consistent state: its header says what its
/// checkpoint says.
pub proof fn law_backups_are_consistent(bytes: Seq<u8>, facts: Result<CheckpointFacts, String>)
    ensures
        backup_of(bytes, facts) matches Ok(backup) ==> facts is Ok && checkpoint_agrees(
            backup,
            facts->Ok_0,
        ) && backup_writable(backup),
{
    law_backup_bytes_are_canonical(bytes);
}

} // verus!

//! The identity of a data directory: whose it is, which readers may open it,
//! and whether its node still belongs to the cluster.
use vstd::prelude::*;
use vstd::string::*;

use crate::crc::{crc32c, crc_of, law_checksum_tells_a_changed_byte};
use crate::fault::{because, fault, fault_of, outcome_is, Fault, FaultKind, FaultView};
use crate::hex::{to_array16, zero_id, ClusterId};
use crate::prose::{append_number, number_text};
use crate::text::{copy_bytes, write_bytes};
use crate::wire::{
    le16, le32, le64, lemma_le_len, lemma_stands_byte, lemma_stands_split, lemma_u16_at,
    lemma_u32_at, lemma_u64_at, read_u16, read_u32, read_u64, stands_at, u16_at, u32_at, u64_at,
    write_u16, write_u32, write_u64,
};

verus! {

pub const IDENTITY_VERSION: u16 = 1;

pub const IDENTITY_LEN: usize = 55;

pub const IDENTITY_ACTIVE: u8 = 1;

pub const IDENTITY_JOINING: u8 = 2;

pub const IDENTITY_REMOVED: u8 = 3;

/// The latest storage format that this build reads.
pub const MIN_STORAGE_READER: u16 = 2;

/// The latest message vocabulary that this build reads.
pub const MIN_SEMANTIC_READER: u16 = 3;

#[derive(Clone, Copy, Debug, PartialEq, Eq)]
pub struct DiskIdentity {
    pub cluster_id: ClusterId,
    pub node_id: u64,
    pub lifecycle: u8,
    pub policy_hash: u64,
    pub min_storage_reader: u16,
    pub min_semantic_reader: u16,
    pub migration_epoch: u64,
}

/// An identity as mathematics.
#[verifier::ext_equal]
pub struct IdentityView {
    pub cluster_id: Seq<u8>,
    pub node_id: u64,
    pub lifecycle: u8,
    pub policy_hash: u64,
    pub min_storage_reader: u16,
    pub min_semantic_reader: u16,
    pub migration_epoch: u64,
}

impl View for DiskIdentity {
    type V = IdentityView;

    open spec fn view(&self) -> IdentityView {
        IdentityView {
            cluster_id: self.cluster_id@,
            node_id: self.node_id,
            lifecycle: self.lifecycle,
            policy_hash: self.policy_hash,
            min_storage_reader: self.min_storage_reader,
            min_semantic_reader: self.min_semantic_reader,
            migration_epoch: self.migration_epoch,
        }
    }
}

pub open spec fn identity_magic() -> Seq<u8> {
    seq![67u8, 67u8, 73u8, 68u8]
}

/// Everything but the checksum.
pub open spec fn identity_body(identity: IdentityView) -> Seq<u8> {
    identity_magic() + le16(IDENTITY_VERSION) + identity.cluster_id + le64(identity.node_id)
        + seq![identity.lifecycle] + le64(identity.policy_hash) + le16(identity.min_storage_reader)
        + le16(identity.min_semantic_reader) + le64(identity.migration_epoch)
}

/// The checksum of a body: that of the whole file with a checksum of zero.
pub open spec fn identity_checksum(body: Seq<u8>) -> u32 {
    crc_of(body + le32(0))
}

/// The bytes of an identity on disk.
pub open spec fn identity_bytes(identity: IdentityView) -> Seq<u8> {
    identity_body(identity) + le32(identity_checksum(identity_body(identity)))
}

pub open spec fn known_lifecycle(lifecycle: u8) -> bool {
    lifecycle == IDENTITY_ACTIVE || lifecycle == IDENTITY_JOINING || lifecycle == IDENTITY_REMOVED
}

/// Whether the fields of an identity make sense.
pub open spec fn identity_valid(identity: IdentityView) -> bool {
    &&& !zero_id(identity.cluster_id)
    &&& identity.node_id != 0
    &&& known_lifecycle(identity.lifecycle)
    &&& identity.min_storage_reader != 0
    &&& identity.min_semantic_reader != 0
}

/// The fields that bytes of the right length hold.
pub open spec fn identity_fields(bytes: Seq<u8>) -> IdentityView {
    IdentityView {
        cluster_id: bytes.subrange(6, 22),
        node_id: u64_at(bytes, 22)->0,
        lifecycle: bytes[30],
        policy_hash: u64_at(bytes, 31)->0,
        min_storage_reader: u16_at(bytes, 39)->0,
        min_semantic_reader: u16_at(bytes, 41)->0,
        migration_epoch: u64_at(bytes, 43)->0,
    }
}

/// The identity that bytes hold, or what is wrong with them.
pub open spec fn identity_of(bytes: Seq<u8>) -> Result<IdentityView, FaultView> {
    if bytes.len() != IDENTITY_LEN {
        Err(because(FaultKind::InvalidData, "CCID must be exactly 55 bytes"))
    } else if !stands_at(bytes, 0, identity_magic()) {
        Err(because(FaultKind::InvalidData, "invalid CCID magic"))
    } else if u16_at(bytes, 4) != Some(IDENTITY_VERSION) {
        Err(because(FaultKind::InvalidData, "unsupported CCID format version"))
    } else if u32_at(bytes, 51) != Some(identity_checksum(bytes.take(51))) {
        Err(because(FaultKind::InvalidData, "CCID checksum mismatch"))
    } else if !identity_valid(identity_fields(bytes)) {
        Err(because(FaultKind::InvalidData, "invalid CCID fields"))
    } else {
        Ok(identity_fields(bytes))
    }
}

/// What stands in bytes that start with the body of an identity.
proof fn lemma_body_stands(bytes: Seq<u8>, identity: IdentityView)
    requires
        identity.cluster_id.len() == 16,
    ensures
        identity_body(identity).len() == 51,
        stands_at(bytes, 0, identity_body(identity)) <==> {
            &&& stands_at(bytes, 0, identity_magic())
            &&& u16_at(bytes, 4) == Some(IDENTITY_VERSION)
            &&& stands_at(bytes, 6, identity.cluster_id)
            &&& u64_at(bytes, 22) == Some(identity.node_id)
            &&& 30 < bytes.len() && bytes[30] == identity.lifecycle
            &&& u64_at(bytes, 31) == Some(identity.policy_hash)
            &&& u16_at(bytes, 39) == Some(identity.min_storage_reader)
            &&& u16_at(bytes, 41) == Some(identity.min_semantic_reader)
            &&& u64_at(bytes, 43) == Some(identity.migration_epoch)
        },
{
    lemma_le_len(IDENTITY_VERSION as nat, 2);
    lemma_le_len(identity.node_id as nat, 8);
    lemma_le_len(identity.policy_hash as nat, 8);
    lemma_le_len(identity.min_storage_reader as nat, 2);
    lemma_le_len(identity.min_semantic_reader as nat, 2);
    lemma_le_len(identity.migration_epoch as nat, 8);
    let p1 = identity_magic();
    let p2 = p1 + le16(IDENTITY_VERSION);
    let p3 = p2 + identity.cluster_id;
    let p4 = p3 + le64(identity.node_id);
    let p5 = p4 + seq![identity.lifecycle];
    let p6 = p5 + le64(identity.policy_hash);
    let p7 = p6 + le16(identity.min_storage_reader);
    let p8 = p7 + le16(identity.min_semantic_reader);
    lemma_stands_split(bytes, 0, p8, le64(identity.migration_epoch));
    lemma_stands_split(bytes, 0, p7, le16(identity.min_semantic_reader));
    lemma_stands_split(bytes, 0, p6, le16(identity.min_storage_reader));
    lemma_stands_split(bytes, 0, p5, le64(identity.policy_hash));
    lemma_stands_split(bytes, 0, p4, seq![identity.lifecycle]);
    lemma_stands_split(bytes, 0, p3, le64(identity.node_id));
    lemma_stands_split(bytes, 0, p2, identity.cluster_id);
    lemma_stands_split(bytes, 0, p1, le16(IDENTITY_VERSION));
    lemma_stands_byte(bytes, 30, identity.lifecycle);
    lemma_u16_at(bytes, 4);
    lemma_u64_at(bytes, 22);
    lemma_u64_at(bytes, 31);
    lemma_u16_at(bytes, 39);
    lemma_u16_at(bytes, 41);
    lemma_u64_at(bytes, 43);
}

/// Reading an identity gives back what was written.
pub proof fn law_identity_reads_back(identity: IdentityView)
    requires
        identity.cluster_id.len() == 16,
        identity_valid(identity),
    ensures
        identity_of(identity_bytes(identity)) == Ok::<IdentityView, FaultView>(identity),
{
    let body = identity_body(identity);
    let sum = le32(identity_checksum(body));
    let bytes = identity_bytes(identity);
    lemma_body_stands(bytes, identity);
    lemma_le_len(identity_checksum(body) as nat, 4);
    assert(bytes.subrange(0, 51) =~= body);
    assert(bytes.take(51) =~= body);
    assert(bytes.subrange(51, 55) =~= sum);
    assert(stands_at(bytes, 51, sum));
    lemma_u32_at(bytes, 51);
    assert(identity_fields(bytes) =~= identity);
}

/// No two files hold the same identity: one that is read is the one that is
/// written.
pub proof fn law_identity_bytes_are_canonical(bytes: Seq<u8>)
    ensures
        identity_of(bytes) matches Ok(identity) ==> bytes == identity_bytes(identity),
{
    if let Ok(identity) = identity_of(bytes) {
        lemma_body_stands(bytes, identity);
        let body = identity_body(identity);
        assert(u64_at(bytes, 22) is Some && u64_at(bytes, 31) is Some && u64_at(bytes, 43) is Some);
        assert(u16_at(bytes, 39) is Some && u16_at(bytes, 41) is Some);
        assert(stands_at(bytes, 0, body));
        assert(bytes.take(51) =~= body);
        lemma_u32_at(bytes, 51);
        let sum = le32(identity_checksum(body));
        lemma_le_len(identity_checksum(body) as nat, 4);
        assert(stands_at(bytes, 51, sum));
        assert(bytes =~= bytes.subrange(0, 51) + bytes.subrange(51, 55));
    }
}

/// A body and its checksum no longer fit each other once a byte has changed.
proof fn lemma_damage_shows(body: Seq<u8>, checksum: u32, at: int, byte: u8)
    requires
        body.len() == 51,
        checksum == identity_checksum(body),
        0 <= at < IDENTITY_LEN,
        byte != (body + le32(checksum))[at],
    ensures
        ({
            let changed = (body + le32(checksum)).update(at, byte);
            u32_at(changed, 51) != Some(identity_checksum(changed.take(51)))
        }),
{
    let sum = le32(checksum);
    let bytes = body + sum;
    let changed = bytes.update(at, byte);
    let found = changed.take(51);
    lemma_le_len(checksum as nat, 4);
    lemma_u32_at(changed, 51);
    let tail = changed.subrange(51, 55);
    if at < 51 {
        assert(tail =~= sum);
        assert(stands_at(changed, 51, sum));
        lemma_le_len(0, 4);
        assert(found + le32(0) =~= (body + le32(0)).update(at, byte));
        law_checksum_tells_a_changed_byte(body + le32(0), at, byte);
    } else {
        assert(found =~= body);
        assert(tail[at - 51] == byte && sum[at - 51] != byte);
        assert(!stands_at(changed, 51, sum));
    }
}

/// Bytes of any other length are refused, and so is what is left of an
/// identity once any single byte of it has changed.
pub proof fn law_damaged_identities_are_refused(
    identity: IdentityView,
    at: int,
    byte: u8,
    other: Seq<u8>,
)
    requires
        identity.cluster_id.len() == 16,
    ensures
        identity_bytes(identity).len() == IDENTITY_LEN,
        0 <= at < IDENTITY_LEN && byte != identity_bytes(identity)[at] ==> (identity_of(
            identity_bytes(identity).update(at, byte),
        ) matches Err(fault) && fault.kind == FaultKind::InvalidData),
        other.len() != IDENTITY_LEN ==> (identity_of(other) matches Err(fault) && fault.kind
            == FaultKind::InvalidData),
{
    let bytes = identity_bytes(identity);
    let body = identity_body(identity);
    let sum = le32(identity_checksum(body));
    assert(body.len() == 51) by {
        lemma_body_stands(bytes, identity);
    }
    lemma_le_len(identity_checksum(body) as nat, 4);
    assert(bytes =~= body + sum);
    if 0 <= at < IDENTITY_LEN && byte != bytes[at] {
        lemma_damage_shows(body, identity_checksum(body), at, byte);
    }
}

/// The checksum that the first 51 bytes call for.
fn checksum_of(bytes: &[u8]) -> (sum: u32)
    requires
        bytes@.len() >= 51,
    ensures
        sum == identity_checksum(bytes@.take(51)),
{
    let body = vstd::slice::slice_subrange(bytes, 0, 51);
    let mut whole = copy_bytes(body);
    write_u32(0, &mut whole);
    assert(whole@ =~= bytes@.take(51) + le32(0));
    crc32c(whole.as_slice())
}

impl DiskIdentity {
    /// The identity of a new data directory.
    pub fn fresh(cluster_id: ClusterId, node_id: u64, policy_hash: u64) -> (identity: Self)
        ensures
            identity@ == (IdentityView {
                cluster_id: cluster_id@,
                node_id,
                lifecycle: IDENTITY_ACTIVE,
                policy_hash,
                min_storage_reader: MIN_STORAGE_READER,
                min_semantic_reader: MIN_SEMANTIC_READER,
                migration_epoch: 0,
            }),
    {
        DiskIdentity {
            cluster_id,
            node_id,
            lifecycle: IDENTITY_ACTIVE,
            policy_hash,
            min_storage_reader: MIN_STORAGE_READER,
            min_semantic_reader: MIN_SEMANTIC_READER,
            migration_epoch: 0,
        }
    }

    /// The bytes of this identity on disk.
    pub fn encode(&self) -> (bytes: Vec<u8>)
        ensures
            bytes@ == identity_bytes(self@),
            bytes@.len() == IDENTITY_LEN,
            identity_valid(self@) ==> identity_of(bytes@) == Ok::<IdentityView, FaultView>(self@),
    {
        let mut bytes: Vec<u8> = Vec::new();
        bytes.push(67);
        bytes.push(67);
        bytes.push(73);
        bytes.push(68);
        assert(bytes@ =~= identity_magic());
        write_u16(IDENTITY_VERSION, &mut bytes);
        write_bytes(self.cluster_id.bytes.as_slice(), &mut bytes);
        write_u64(self.node_id, &mut bytes);
        let ghost so_far = bytes@;
        bytes.push(self.lifecycle);
        assert(bytes@ =~= so_far + seq![self.lifecycle]);
        write_u64(self.policy_hash, &mut bytes);
        write_u16(self.min_storage_reader, &mut bytes);
        write_u16(self.min_semantic_reader, &mut bytes);
        write_u64(self.migration_epoch, &mut bytes);
        proof {
            lemma_body_stands(bytes@, self@);
            lemma_le_len(identity_checksum(identity_body(self@)) as nat, 4);
            assert(bytes@ == identity_body(self@));
            assert(bytes@.take(51) =~= bytes@);
        }
        let sum: u32 = checksum_of(bytes.as_slice());
        write_u32(sum, &mut bytes);
        proof {
            if identity_valid(self@) {
                law_identity_reads_back(self@);
            }
        }
        bytes
    }

    /// The identity that bytes hold.
    pub fn decode(bytes: &[u8]) -> (result: Result<DiskIdentity, Fault>)
        ensures
            match result {
                Ok(identity) => identity_of(bytes@) == Ok::<IdentityView, FaultView>(identity@),
                Err(error) => identity_of(bytes@) == Err::<IdentityView, FaultView>(error@),
            },
    {
        let size: usize = bytes.len();
        if size != IDENTITY_LEN {
            return Err(fault(FaultKind::InvalidData, "CCID must be exactly 55 bytes"));
        }
        if bytes[0] != 67 || bytes[1] != 67 || bytes[2] != 73 || bytes[3] != 68 {
            proof {
                if stands_at(bytes@, 0, identity_magic()) {
                    assert(bytes@.subrange(0, 4)[0] == 67 && bytes@.subrange(0, 4)[1] == 67);
                    assert(bytes@.subrange(0, 4)[2] == 73 && bytes@.subrange(0, 4)[3] == 68);
                }
            }
            return Err(fault(FaultKind::InvalidData, "invalid CCID magic"));
        }
        assert(bytes@.subrange(0, 4) =~= identity_magic());
        let version: Option<u16> = read_u16(bytes, 4);
        if version != Some(IDENTITY_VERSION) {
            return Err(fault(FaultKind::InvalidData, "unsupported CCID format version"));
        }
        let expected: Option<u32> = read_u32(bytes, 51);
        let actual: u32 = checksum_of(bytes);
        if expected != Some(actual) {
            return Err(fault(FaultKind::InvalidData, "CCID checksum mismatch"));
        }
        let node_id: u64 = match read_u64(bytes, 22) {
            Some(value) => value,
            None => 0,
        };
        let policy_hash: u64 = match read_u64(bytes, 31) {
            Some(value) => value,
            None => 0,
        };
        let min_storage_reader: u16 = match read_u16(bytes, 39) {
            Some(value) => value,
            None => 0,
        };
        let min_semantic_reader: u16 = match read_u16(bytes, 41) {
            Some(value) => value,
            None => 0,
        };
        let migration_epoch: u64 = match read_u64(bytes, 43) {
            Some(value) => value,
            None => 0,
        };
        let identity = DiskIdentity {
            cluster_id: ClusterId::new(to_array16(bytes, 6)),
            node_id,
            lifecycle: bytes[30],
            policy_hash,
            min_storage_reader,
            min_semantic_reader,
            migration_epoch,
        };
        assert(identity@ =~= identity_fields(bytes@));
        let known = identity.lifecycle == IDENTITY_ACTIVE || identity.lifecycle == IDENTITY_JOINING
            || identity.lifecycle == IDENTITY_REMOVED;
        if identity.cluster_id.is_zero() || node_id == 0 || !known || min_storage_reader == 0
            || min_semantic_reader == 0 {
            return Err(fault(FaultKind::InvalidData, "invalid CCID fields"));
        }
        Ok(identity)
    }
}

/// The identity with the next epoch, where there is one.
pub open spec fn next_epoch(identity: IdentityView) -> Result<Option<IdentityView>, FaultView> {
    if identity.migration_epoch == u64::MAX {
        Err(because(FaultKind::InvalidData, "CCID epoch overflow"))
    } else {
        Ok(
            Some(
                IdentityView { migration_epoch: (identity.migration_epoch + 1) as u64, ..identity },
            ),
        )
    }
}

/// The identity to write for a new lifecycle, if any. Removal is final.
pub open spec fn lifecycle_marked(identity: IdentityView, lifecycle: u8) -> Result<
    Option<IdentityView>,
    FaultView,
> {
    if identity.lifecycle == IDENTITY_REMOVED && lifecycle != IDENTITY_REMOVED {
        Err(because(FaultKind::PermissionDenied, "CCID lifecycle Removed is terminal"))
    } else if identity.lifecycle == lifecycle {
        Ok(None)
    } else {
        next_epoch(IdentityView { lifecycle, ..identity })
    }
}

pub open spec fn raised(floor: u16, minimum: Option<u16>) -> u16 {
    match minimum {
        Some(value) => if value > floor {
            value
        } else {
            floor
        },
        None => floor,
    }
}

/// The identity to write for raised reader floors, if any.
pub open spec fn floors_raised(
    identity: IdentityView,
    storage: Option<u16>,
    semantic: Option<u16>,
) -> Result<Option<IdentityView>, FaultView> {
    if storage matches Some(minimum) && (minimum == 0 || minimum > MIN_STORAGE_READER) {
        Err(because(FaultKind::InvalidInput, "unsupported storage reader floor"))
    } else if semantic matches Some(minimum) && (minimum == 0 || minimum > MIN_SEMANTIC_READER) {
        Err(because(FaultKind::InvalidInput, "unsupported semantic reader floor"))
    } else {
        let next_storage = raised(identity.min_storage_reader, storage);
        let next_semantic = raised(identity.min_semantic_reader, semantic);
        if next_storage == identity.min_storage_reader && next_semantic
            == identity.min_semantic_reader {
            Ok(None)
        } else {
            next_epoch(
                IdentityView {
                    min_storage_reader: next_storage,
                    min_semantic_reader: next_semantic,
                    ..identity
                },
            )
        }
    }
}

/// Whether a replacement is the one that its specification gives.
pub open spec fn replacement_is(
    result: Result<Option<DiskIdentity>, Fault>,
    expected: Result<Option<IdentityView>, FaultView>,
) -> bool {
    match result {
        Ok(Some(identity)) => expected == Ok::<Option<IdentityView>, FaultView>(Some(identity@)),
        Ok(None) => expected == Ok::<Option<IdentityView>, FaultView>(None),
        Err(error) => expected == Err::<Option<IdentityView>, FaultView>(error@),
    }
}

fn with_next_epoch(identity: DiskIdentity) -> (result: Result<Option<DiskIdentity>, Fault>)
    ensures
        replacement_is(result, next_epoch(identity@)),
{
    if identity.migration_epoch == u64::MAX {
        return Err(fault(FaultKind::InvalidData, "CCID epoch overflow"));
    }
    let mut next = identity;
    next.migration_epoch = identity.migration_epoch + 1;
    Ok(Some(next))
}

/// Decides what to write for a new lifecycle.
pub fn mark_identity_lifecycle(identity: &DiskIdentity, lifecycle: u8) -> (result: Result<
    Option<DiskIdentity>,
    Fault,
>)
    ensures
        replacement_is(result, lifecycle_marked(identity@, lifecycle)),
{
    if identity.lifecycle == IDENTITY_REMOVED && lifecycle != IDENTITY_REMOVED {
        return Err(fault(FaultKind::PermissionDenied, "CCID lifecycle Removed is terminal"));
    }
    if identity.lifecycle == lifecycle {
        return Ok(None);
    }
    let mut next = *identity;
    next.lifecycle = lifecycle;
    with_next_epoch(next)
}

fn raise(floor: u16, minimum: Option<u16>) -> (r: u16)
    ensures
        r == raised(floor, minimum),
{
    match minimum {
        Some(value) => if value > floor {
            value
        } else {
            floor
        },
        None => floor,
    }
}

/// Decides what to write for raised reader floors. The floors are raised
/// before anything that an older reader would misread is written.
pub fn raise_identity_reader_floor(
    identity: &DiskIdentity,
    storage: Option<u16>,
    semantic: Option<u16>,
) -> (result: Result<Option<DiskIdentity>, Fault>)
    ensures
        replacement_is(result, floors_raised(identity@, storage, semantic)),
{
    if let Some(minimum) = storage {
        if minimum == 0 || minimum > MIN_STORAGE_READER {
            return Err(fault(FaultKind::InvalidInput, "unsupported storage reader floor"));
        }
    }
    if let Some(minimum) = semantic {
        if minimum == 0 || minimum > MIN_SEMANTIC_READER {
            return Err(fault(FaultKind::InvalidInput, "unsupported semantic reader floor"));
        }
    }
    let next_storage: u16 = raise(identity.min_storage_reader, storage);
    let next_semantic: u16 = raise(identity.min_semantic_reader, semantic);
    if next_storage == identity.min_storage_reader && next_semantic
        == identity.min_semantic_reader {
        return Ok(None);
    }
    let mut next = *identity;
    next.min_storage_reader = next_storage;
    next.min_semantic_reader = next_semantic;
    with_next_epoch(next)
}

/// What a build may read, and whom it runs as.
#[derive(Clone, Copy, Debug, PartialEq, Eq)]
pub struct Reader {
    pub node_id: u64,
    pub cluster_id: ClusterId,
    pub policy_hash: u64,
    pub max_storage_reader: u16,
    pub max_semantic_reader: u16,
}

/// Why a reader may not open a data directory, if it may not.
pub open spec fn identity_refusal(
    legacy_journal: bool,
    wal_present: bool,
    bytes: Seq<u8>,
    reader: Reader,
) -> Option<FaultView> {
    if legacy_journal && !wal_present {
        Some(
            because(
                FaultKind::InvalidData,
                "pre-N1 data directory found (commands.log); migration is intentionally unsupported",
            ),
        )
    } else {
        match identity_of(bytes) {
            Err(fault) => Some(fault),
            Ok(identity) => if identity.node_id != reader.node_id {
                Some(
                    FaultView {
                        kind: FaultKind::InvalidData,
                        message: "data-dir identity mismatch: config id="@ + number_text(
                            reader.node_id as nat,
                        ) + " CCID node id="@ + number_text(identity.node_id as nat),
                    },
                )
            } else if identity.cluster_id != reader.cluster_id@ {
                Some(
                    because(
                        FaultKind::InvalidData,
                        "data-dir cluster identity does not match node.cluster_id",
                    ),
                )
            } else if identity.lifecycle == IDENTITY_REMOVED {
                Some(
                    because(
                        FaultKind::PermissionDenied,
                        "CCID lifecycle Removed is terminal for this data directory",
                    ),
                )
            } else if identity.policy_hash != reader.policy_hash {
                Some(
                    because(
                        FaultKind::InvalidData,
                        "CCID policy hash does not match configured cluster policy",
                    ),
                )
            } else if identity.min_storage_reader > reader.max_storage_reader
                || identity.min_semantic_reader > reader.max_semantic_reader {
                Some(
                    because(
                        FaultKind::InvalidData,
                        "CCID requires an unsupported storage or semantic reader",
                    ),
                )
            } else {
                None
            },
        }
    }
}

/// Decides whether a reader may open a data directory. A directory that only
/// holds the journal of an old build is refused before its identity is read.
pub fn validate_identity_for_readers(
    legacy_journal: bool,
    wal_present: bool,
    bytes: &[u8],
    reader: &Reader,
) -> (result: Result<(), Fault>)
    ensures
        outcome_is(result, identity_refusal(legacy_journal, wal_present, bytes@, *reader)),
{
    if legacy_journal && !wal_present {
        return Err(
            fault(
                FaultKind::InvalidData,
                "pre-N1 data directory found (commands.log); migration is intentionally unsupported",
            ),
        );
    }
    let identity = match DiskIdentity::decode(bytes) {
        Ok(identity) => identity,
        Err(error) => return Err(error),
    };
    if identity.node_id != reader.node_id {
        let mut message = "data-dir identity mismatch: config id=".to_owned();
        append_number(&mut message, reader.node_id);
        message.append(" CCID node id=");
        append_number(&mut message, identity.node_id);
        return Err(fault_of(FaultKind::InvalidData, message));
    }
    if !identity.cluster_id.same(&reader.cluster_id) {
        return Err(
            fault(
                FaultKind::InvalidData,
                "data-dir cluster identity does not match node.cluster_id",
            ),
        );
    }
    if identity.lifecycle == IDENTITY_REMOVED {
        return Err(
            fault(
                FaultKind::PermissionDenied,
                "CCID lifecycle Removed is terminal for this data directory",
            ),
        );
    }
    if identity.policy_hash != reader.policy_hash {
        return Err(
            fault(
                FaultKind::InvalidData,
                "CCID policy hash does not match configured cluster policy",
            ),
        );
    }
    if identity.min_storage_reader > reader.max_storage_reader || identity.min_semantic_reader
        > reader.max_semantic_reader {
        return Err(
            fault(
                FaultKind::InvalidData,
                "CCID requires an unsupported storage or semantic reader",
            ),
        );
    }
    Ok(())
}

/// What the host does with its lifecycle once membership was applied.
#[derive(Clone, Copy, Debug, PartialEq, Eq, Structural)]
pub enum LifecycleStep {
    Keep,
    MarkActive,
    MarkRemoved,
    Stop,
}

/// A joining node becomes active once it is a member; an active one that is no
/// longer a member is removed for good; a removed one stops.
pub open spec fn lifecycle_step(lifecycle: u8, present: bool) -> LifecycleStep {
    if present && lifecycle == IDENTITY_JOINING {
        LifecycleStep::MarkActive
    } else if !present && lifecycle == IDENTITY_ACTIVE {
        LifecycleStep::MarkRemoved
    } else if lifecycle == IDENTITY_REMOVED {
        LifecycleStep::Stop
    } else {
        LifecycleStep::Keep
    }
}

/// Decides what the host does with its lifecycle.
pub fn enforce_membership_lifecycle(lifecycle: u8, present: bool) -> (step: LifecycleStep)
    ensures
        step == lifecycle_step(lifecycle, present),
{
    if present && lifecycle == IDENTITY_JOINING {
        LifecycleStep::MarkActive
    } else if !present && lifecycle == IDENTITY_ACTIVE {
        LifecycleStep::MarkRemoved
    } else if lifecycle == IDENTITY_REMOVED {
        LifecycleStep::Stop
    } else {
        LifecycleStep::Keep
    }
}

/// Whether clients are served: only by an active member that is not stopping.
/// `lifecycle` is missing where the identity could not be read.
pub open spec fn served(stopping: bool, lifecycle: Option<u8>, present: bool) -> bool {
    !stopping && lifecycle == Some(IDENTITY_ACTIVE) && present
}

/// Decides whether clients are served.
pub fn serves_clients(stopping: bool, lifecycle: Option<u8>, present: bool) -> (r: bool)
    ensures
        r == served(stopping, lifecycle, present),
{
    match lifecycle {
        Some(lifecycle) => !stopping && lifecycle == IDENTITY_ACTIVE && present,
        None => false,
    }
}

/// Removal is final: no lifecycle leads out of it.
pub proof fn law_removed_is_terminal(identity: IdentityView, lifecycle: u8)
    requires
        identity.lifecycle == IDENTITY_REMOVED,
    ensures
        lifecycle_marked(identity, lifecycle) matches Ok(next) ==> next is None,
        lifecycle != IDENTITY_REMOVED ==> lifecycle_marked(identity, lifecycle) is Err,
{
}

/// Reader floors never fall, and every change moves the epoch by one.
pub proof fn law_reader_floors_never_fall(
    identity: IdentityView,
    storage: Option<u16>,
    semantic: Option<u16>,
)
    ensures
        floors_raised(identity, storage, semantic) matches Ok(Some(next)) ==> {
            &&& identity.min_storage_reader <= next.min_storage_reader
            &&& identity.min_semantic_reader <= next.min_semantic_reader
            &&& next.migration_epoch == identity.migration_epoch + 1
            &&& next.lifecycle == identity.lifecycle
            &&& storage matches Some(minimum) ==> next.min_storage_reader >= minimum
            &&& semantic matches Some(minimum) ==> next.min_semantic_reader >= minimum
        },
{
}

} // verus!

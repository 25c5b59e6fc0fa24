//! The archive of a node's files that came before logical backups.
use vstd::prelude::*;
use vstd::string::*;
use vstd::utf8::{encode_utf8, valid_utf8};

use crate::backup::{backup_magic, BACKUP_MAX_FILE, LEGACY_BACKUP_VERSION};
use crate::crc::{crc32c, crc_of};
use crate::fault::{because, fault, Fault, FaultKind, FaultView};
use crate::text::{copy_bytes, same_bytes, utf8_text, write_bytes};
use crate::wire::{
    le16, le32, le64, lemma_le_len, lemma_u16_at, lemma_u32_at, lemma_u64_at, read_u16, read_u32,
    read_u64, stands_at, u16_at, u32_at, u64_at, write_u16, write_u32, write_u64,
};

verus! {

/// What taking the next `length` bytes gives: them, and where to go on.
pub open spec fn taken(input: Seq<u8>, cursor: int, length: int) -> Result<
    (Seq<u8>, int),
    FaultView,
> {
    if cursor + length > usize::MAX {
        Err(because(FaultKind::InvalidData, "backup length overflow"))
    } else if cursor + length > input.len() {
        Err(because(FaultKind::UnexpectedEof, "truncated backup"))
    } else {
        Ok((input.subrange(cursor, cursor + length), cursor + length))
    }
}

/// Takes the next bytes.
pub fn take_bytes<'a>(input: &'a [u8], cursor: &mut usize, length: usize) -> (result: Result<
    &'a [u8],
    Fault,
>)
    ensures
        match result {
            Ok(bytes) => taken(input@, *old(cursor) as int, length as int) == Ok::<
                (Seq<u8>, int),
                FaultView,
            >((bytes@, *final(cursor) as int)),
            Err(error) => *final(cursor) == *old(cursor) && taken(
                input@,
                *old(cursor) as int,
                length as int,
            ) == Err::<(Seq<u8>, int), FaultView>(error@),
        },
{
    let start: usize = *cursor;
    if length > usize::MAX - start {
        return Err(fault(FaultKind::InvalidData, "backup length overflow"));
    }
    let end: usize = start + length;
    if end > input.len() {
        return Err(fault(FaultKind::UnexpectedEof, "truncated backup"));
    }
    *cursor = end;
    Ok(vstd::slice::slice_subrange(input, start, end))
}

/// What taking a number of `length` bytes gives.
pub open spec fn taken16(input: Seq<u8>, cursor: int) -> Result<(u16, int), FaultView> {
    match taken(input, cursor, 2) {
        Ok((bytes, next)) => Ok((u16_at(bytes, 0)->0, next)),
        Err(fault) => Err(fault),
    }
}

pub open spec fn taken32(input: Seq<u8>, cursor: int) -> Result<(u32, int), FaultView> {
    match taken(input, cursor, 4) {
        Ok((bytes, next)) => Ok((u32_at(bytes, 0)->0, next)),
        Err(fault) => Err(fault),
    }
}

pub open spec fn taken64(input: Seq<u8>, cursor: int) -> Result<(u64, int), FaultView> {
    match taken(input, cursor, 8) {
        Ok((bytes, next)) => Ok((u64_at(bytes, 0)->0, next)),
        Err(fault) => Err(fault),
    }
}

/// Takes the next `u16`.
pub fn take_u16(input: &[u8], cursor: &mut usize) -> (result: Result<u16, Fault>)
    ensures
        match result {
            Ok(value) => taken16(input@, *old(cursor) as int) == Ok::<(u16, int), FaultView>(
                (value, *final(cursor) as int),
            ),
            Err(error) => *final(cursor) == *old(cursor) && taken16(input@, *old(cursor) as int)
                == Err::<(u16, int), FaultView>(error@),
        },
{
    match take_bytes(input, cursor, 2) {
        Ok(bytes) => match read_u16(bytes, 0) {
            Some(value) => Ok(value),
            None => Ok(0),
        },
        Err(error) => Err(error),
    }
}

/// Takes the next `u32`.
pub fn take_u32(input: &[u8], cursor: &mut usize) -> (result: Result<u32, Fault>)
    ensures
        match result {
            Ok(value) => taken32(input@, *old(cursor) as int) == Ok::<(u32, int), FaultView>(
                (value, *final(cursor) as int),
            ),
            Err(error) => *final(cursor) == *old(cursor) && taken32(input@, *old(cursor) as int)
                == Err::<(u32, int), FaultView>(error@),
        },
{
    match take_bytes(input, cursor, 4) {
        Ok(bytes) => match read_u32(bytes, 0) {
            Some(value) => Ok(value),
            None => Ok(0),
        },
        Err(error) => Err(error),
    }
}

/// Takes the next `u64`.
pub fn take_u64(input: &[u8], cursor: &mut usize) -> (result: Result<u64, Fault>)
    ensures
        match result {
            Ok(value) => taken64(input@, *old(cursor) as int) == Ok::<(u64, int), FaultView>(
                (value, *final(cursor) as int),
            ),
            Err(error) => *final(cursor) == *old(cursor) && taken64(input@, *old(cursor) as int)
                == Err::<(u64, int), FaultView>(error@),
        },
{
    match take_bytes(input, cursor, 8) {
        Ok(bytes) => match read_u64(bytes, 0) {
            Some(value) => Ok(value),
            None => Ok(0),
        },
        Err(error) => Err(error),
    }
}

/// The files that an archive has so far.
#[derive(Clone, Debug, PartialEq, Eq)]
pub struct LegacyFiles {
    pub identity: Option<Vec<u8>>,
    pub config: Option<Vec<u8>>,
    pub wal: Option<Vec<u8>>,
}

#[verifier::ext_equal]
pub struct FilesView {
    pub identity: Option<Seq<u8>>,
    pub config: Option<Seq<u8>>,
    pub wal: Option<Seq<u8>>,
}

pub open spec fn content(file: Option<Vec<u8>>) -> Option<Seq<u8>> {
    match file {
        Some(bytes) => Some(bytes@),
        None => None,
    }
}

impl View for LegacyFiles {
    type V = FilesView;

    open spec fn view(&self) -> FilesView {
        FilesView {
            identity: content(self.identity),
            config: content(self.config),
            wal: content(self.wal),
        }
    }
}

/// Which of the three files a name is.
#[derive(Clone, Copy, Debug, PartialEq, Eq, Structural)]
pub enum LegacyFile {
    Identity,
    Config,
    Wal,
}

pub open spec fn file_named(name: Seq<u8>) -> Option<LegacyFile> {
    if name == encode_utf8("identity.ccid"@) {
        Some(LegacyFile::Identity)
    } else if name == encode_utf8("ccdb.toml"@) {
        Some(LegacyFile::Config)
    } else if name == encode_utf8("raft/wal.0"@) {
        Some(LegacyFile::Wal)
    } else {
        None
    }
}

fn name_file(name: &[u8]) -> (file: Option<LegacyFile>)
    ensures
        file == file_named(name@),
{
    if same_bytes(name, "identity.ccid".as_bytes()) {
        Some(LegacyFile::Identity)
    } else if same_bytes(name, "ccdb.toml".as_bytes()) {
        Some(LegacyFile::Config)
    } else if same_bytes(name, "raft/wal.0".as_bytes()) {
        Some(LegacyFile::Wal)
    } else {
        None
    }
}

impl FilesView {
    pub open spec fn file(self, file: LegacyFile) -> Option<Seq<u8>> {
        match file {
            LegacyFile::Identity => self.identity,
            LegacyFile::Config => self.config,
            LegacyFile::Wal => self.wal,
        }
    }

    pub open spec fn with(self, file: LegacyFile, body: Seq<u8>) -> FilesView {
        match file {
            LegacyFile::Identity => FilesView { identity: Some(body), ..self },
            LegacyFile::Config => FilesView { config: Some(body), ..self },
            LegacyFile::Wal => FilesView { wal: Some(body), ..self },
        }
    }

    pub open spec fn count(self) -> int {
        (if self.identity is Some {
            1int
        } else {
            0
        }) + (if self.config is Some {
            1int
        } else {
            0
        }) + (if self.wal is Some {
            1int
        } else {
            0
        })
    }
}

/// The files with the one at `cursor`, and where to go on.
pub open spec fn file_taken(input: Seq<u8>, cursor: int, files: FilesView) -> Result<
    (FilesView, int),
    FaultView,
> {
    match taken16(input, cursor) {
        Err(fault) => Err(fault),
        Ok((name_len, at)) => match taken(input, at, name_len as int) {
            Err(fault) => Err(fault),
            Ok((name, at)) => if !valid_utf8(name) {
                Err(because(FaultKind::InvalidData, "legacy backup path"))
            } else {
                match taken64(input, at) {
                    Err(fault) => Err(fault),
                    Ok((length, at)) => if length > usize::MAX {
                        Err(because(FaultKind::InvalidData, "legacy backup length"))
                    } else {
                        match file_named(name) {
                            None => Err(because(FaultKind::InvalidData, "legacy backup entry")),
                            Some(file) => if length > BACKUP_MAX_FILE || files.file(
                                file,
                            ) is Some {
                                Err(because(FaultKind::InvalidData, "legacy backup entry"))
                            } else {
                                body_taken(input, at, length as int, file, files)
                            },
                        }
                    },
                }
            },
        },
    }
}

/// The files with the body at `cursor`, and where to go on.
pub open spec fn body_taken(
    input: Seq<u8>,
    cursor: int,
    length: int,
    file: LegacyFile,
    files: FilesView,
) -> Result<(FilesView, int), FaultView> {
    match taken32(input, cursor) {
        Err(fault) => Err(fault),
        Ok((expected, at)) => match taken(input, at, length) {
            Err(fault) => Err(fault),
            Ok((body, at)) => if crc_of(body) != expected {
                Err(because(FaultKind::InvalidData, "legacy backup entry checksum"))
            } else {
                Ok((files.with(file, body), at))
            },
        },
    }
}

/// The files of `count` entries from `cursor` on.
pub open spec fn files_taken(input: Seq<u8>, cursor: int, files: FilesView, count: nat) -> Result<
    (FilesView, int),
    FaultView,
>
    decreases count,
{
    if count == 0 {
        Ok((files, cursor))
    } else {
        match file_taken(input, cursor, files) {
            Err(fault) => Err(fault),
            Ok((files, cursor)) => files_taken(input, cursor, files, (count - 1) as nat),
        }
    }
}

pub open spec fn no_files() -> FilesView {
    FilesView { identity: None, config: None, wal: None }
}

/// The files of an archive, or what is wrong with it.
pub open spec fn archive_of(input: Seq<u8>) -> Result<FilesView, FaultView> {
    match taken(input, 0, 4) {
        Err(fault) => Err(fault),
        Ok((magic, at)) => if magic != backup_magic() {
            Err(because(FaultKind::InvalidData, "invalid legacy backup"))
        } else {
            match taken16(input, at) {
                Err(fault) => Err(fault),
                Ok((version, at)) => if version != LEGACY_BACKUP_VERSION {
                    Err(because(FaultKind::InvalidData, "invalid legacy backup"))
                } else {
                    match taken32(input, at) {
                        Err(fault) => Err(fault),
                        Ok((count, at)) => if count != 3 {
                            Err(because(FaultKind::InvalidData, "legacy backup file count"))
                        } else {
                            match files_taken(input, at, no_files(), 3) {
                                Err(fault) => Err(fault),
                                Ok((files, end)) => if end != input.len() {
                                    Err(
                                        because(
                                            FaultKind::InvalidData,
                                            "legacy backup trailing bytes",
                                        ),
                                    )
                                } else {
                                    Ok(files)
                                },
                            }
                        },
                    }
                },
            }
        },
    }
}

/// Takes one entry of an archive.
fn take_file(input: &[u8], cursor: &mut usize, files: &mut LegacyFiles) -> (result: Result<(), Fault>)
    ensures
        match result {
            Ok(_) => file_taken(input@, *old(cursor) as int, old(files)@) == Ok::<
                (FilesView, int),
                FaultView,
            >((final(files)@, *final(cursor) as int)),
            Err(error) => file_taken(input@, *old(cursor) as int, old(files)@) == Err::<
                (FilesView, int),
                FaultView,
            >(error@),
        },
{
    let name_len: usize = match take_u16(input, cursor) {
        Ok(length) => length as usize,
        Err(error) => return Err(error),
    };
    let name = match take_bytes(input, cursor, name_len) {
        Ok(name) => name,
        Err(error) => return Err(error),
    };
    if utf8_text(name).is_none() {
        return Err(fault(FaultKind::InvalidData, "legacy backup path"));
    }
    let length: u64 = match take_u64(input, cursor) {
        Ok(length) => length,
        Err(error) => return Err(error),
    };
    if length > usize::MAX as u64 {
        return Err(fault(FaultKind::InvalidData, "legacy backup length"));
    }
    let file = match name_file(name) {
        Some(file) => file,
        None => return Err(fault(FaultKind::InvalidData, "legacy backup entry")),
    };
    let present = match file {
        LegacyFile::Identity => files.identity.is_some(),
        LegacyFile::Config => files.config.is_some(),
        LegacyFile::Wal => files.wal.is_some(),
    };
    if length > BACKUP_MAX_FILE as u64 || present {
        return Err(fault(FaultKind::InvalidData, "legacy backup entry"));
    }
    let expected: u32 = match take_u32(input, cursor) {
        Ok(expected) => expected,
        Err(error) => return Err(error),
    };
    let body = match take_bytes(input, cursor, length as usize) {
        Ok(body) => body,
        Err(error) => return Err(error),
    };
    if crc32c(body) != expected {
        return Err(fault(FaultKind::InvalidData, "legacy backup entry checksum"));
    }
    let copy = copy_bytes(body);
    match file {
        LegacyFile::Identity => files.identity = Some(copy),
        LegacyFile::Config => files.config = Some(copy),
        LegacyFile::Wal => files.wal = Some(copy),
    }
    assert(files@ =~= old(files)@.with(file, body@));
    Ok(())
}

/// The files of a whole archive.
#[derive(Clone, Debug, PartialEq, Eq)]
pub struct LegacyArchive {
    pub identity: Vec<u8>,
    pub config: Vec<u8>,
    pub wal: Vec<u8>,
}

impl View for LegacyArchive {
    type V = FilesView;

    open spec fn view(&self) -> FilesView {
        FilesView {
            identity: Some(self.identity@),
            config: Some(self.config@),
            wal: Some(self.wal@),
        }
    }
}

/// Each entry of an archive brings a file that was not there.
proof fn lemma_files_add(input: Seq<u8>, cursor: int, files: FilesView, count: nat)
    ensures
        files_taken(input, cursor, files, count) matches Ok(found) ==> found.0.count()
            == files.count() + count,
    decreases count,
{
    if count > 0 {
        if let Ok((next, at)) = file_taken(input, cursor, files) {
            lemma_files_add(input, at, next, (count - 1) as nat);
        }
    }
}

/// Reads the archive of a node's files.
pub fn read_legacy_archive(input: &[u8]) -> (result: Result<LegacyArchive, Fault>)
    ensures
        match result {
            Ok(archive) => archive_of(input@) == Ok::<FilesView, FaultView>(archive@),
            Err(error) => archive_of(input@) == Err::<FilesView, FaultView>(error@),
        },
{
    let mut cursor: usize = 0;
    let magic = match take_bytes(input, &mut cursor, 4) {
        Ok(magic) => magic,
        Err(error) => return Err(error),
    };
    let right = magic[0] == 67 && magic[1] == 67 && magic[2] == 66 && magic[3] == 75;
    proof {
        if right {
            assert(magic@ =~= backup_magic());
        } else {
            assert(magic@ != backup_magic()) by {
                if magic@ == backup_magic() {
                    assert(magic@[0] == 67 && magic@[1] == 67 && magic@[2] == 66 && magic@[3]
                        == 75);
                }
            }
        }
    }
    if !right {
        return Err(fault(FaultKind::InvalidData, "invalid legacy backup"));
    }
    let version: u16 = match take_u16(input, &mut cursor) {
        Ok(version) => version,
        Err(error) => return Err(error),
    };
    if version != LEGACY_BACKUP_VERSION {
        return Err(fault(FaultKind::InvalidData, "invalid legacy backup"));
    }
    let count: u32 = match take_u32(input, &mut cursor) {
        Ok(count) => count,
        Err(error) => return Err(error),
    };
    if count != 3 {
        return Err(fault(FaultKind::InvalidData, "legacy backup file count"));
    }
    let mut files = LegacyFiles { identity: None, config: None, wal: None };
    let ghost start = cursor as int;
    assert(files@ =~= no_files());
    let mut left: usize = 3;
    while left > 0
        invariant
            left <= 3,
            files_taken(input@, start, no_files(), 3) == files_taken(
                input@,
                cursor as int,
                files@,
                left as nat,
            ),
            archive_of(input@) == (match files_taken(input@, start, no_files(), 3) {
                Err(fault) => Err(fault),
                Ok((files, end)) => if end != input@.len() {
                    Err(because(FaultKind::InvalidData, "legacy backup trailing bytes"))
                } else {
                    Ok(files)
                },
            }),
        decreases left,
    {
        match take_file(input, &mut cursor, &mut files) {
            Ok(_) => {},
            Err(error) => return Err(error),
        }
        left -= 1;
    }
    if cursor != input.len() {
        return Err(fault(FaultKind::InvalidData, "legacy backup trailing bytes"));
    }
    proof {
        lemma_files_add(input@, start, no_files(), 3);
    }
    let LegacyFiles { identity, config, wal } = files;
    match (identity, config, wal) {
        (Some(identity), Some(config), Some(wal)) => Ok(LegacyArchive { identity, config, wal }),
        _ => {
            assert(false);
            Err(fault(FaultKind::InvalidData, "legacy backup entry"))
        },
    }
}

/// The bytes of one entry of an archive.
pub open spec fn file_bytes(name: &str, body: Seq<u8>) -> Seq<u8> {
    le16(encode_utf8(name@).len() as u16) + encode_utf8(name@) + le64(body.len() as u64) + le32(
        crc_of(body),
    ) + body
}

/// The bytes of an archive.
pub open spec fn archive_bytes(identity: Seq<u8>, config: Seq<u8>, wal: Seq<u8>) -> Seq<u8> {
    backup_magic() + le16(LEGACY_BACKUP_VERSION) + le32(3) + file_bytes("identity.ccid", identity)
        + file_bytes("ccdb.toml", config) + file_bytes("raft/wal.0", wal)
}

fn write_file(name: &str, body: &[u8], output: &mut Vec<u8>)
    requires
        name@.len() < 100,
    ensures
        final(output)@ == old(output)@ + file_bytes(name, body@),
{
    let ghost before = output@;
    let size: usize = name.as_bytes().len();
    #[verifier::truncate]
    let short: u16 = size as u16;
    write_u16(short, output);
    write_bytes(name.as_bytes(), output);
    write_u64(body.len() as u64, output);
    write_u32(crc32c(body), output);
    write_bytes(body, output);
    assert(output@ =~= before + file_bytes(name, body@));
}

/// What a file of a node is to an archive, or why there is none.
pub open spec fn archive_refusal(
    identity: Seq<u8>,
    config: Seq<u8>,
    wal: Seq<u8>,
    wal_is_whole: bool,
) -> Option<FaultView> {
    if identity.len() > BACKUP_MAX_FILE || config.len() > BACKUP_MAX_FILE || wal.len()
        > BACKUP_MAX_FILE {
        Some(because(FaultKind::InvalidData, "backup file exceeds limit"))
    } else if wal.len() > 0 && !wal_is_whole {
        Some(because(FaultKind::InvalidData, "backup refuses a torn WAL"))
    } else {
        None
    }
}

/// Archives a node's files. `wal_is_whole` says that the log recovers to its
/// last byte.
pub fn backup_legacy_node_clone(
    identity: &[u8],
    config: &[u8],
    wal: &[u8],
    wal_is_whole: bool,
) -> (result: Result<Vec<u8>, Fault>)
    ensures
        match result {
            Ok(bytes) => archive_refusal(identity@, config@, wal@, wal_is_whole) is None && bytes@
                == archive_bytes(identity@, config@, wal@),
            Err(error) => archive_refusal(identity@, config@, wal@, wal_is_whole) == Some(error@),
        },
{
    if identity.len() > BACKUP_MAX_FILE || config.len() > BACKUP_MAX_FILE || wal.len()
        > BACKUP_MAX_FILE {
        return Err(fault(FaultKind::InvalidData, "backup file exceeds limit"));
    }
    if wal.len() > 0 && !wal_is_whole {
        return Err(fault(FaultKind::InvalidData, "backup refuses a torn WAL"));
    }
    let mut bytes: Vec<u8> = Vec::new();
    bytes.push(67);
    bytes.push(67);
    bytes.push(66);
    bytes.push(75);
    assert(bytes@ =~= backup_magic());
    write_u16(LEGACY_BACKUP_VERSION, &mut bytes);
    write_u32(3, &mut bytes);
    proof {
        reveal_strlit("identity.ccid");
        reveal_strlit("ccdb.toml");
        reveal_strlit("raft/wal.0");
    }
    write_file("identity.ccid", identity, &mut bytes);
    write_file("ccdb.toml", config, &mut bytes);
    write_file("raft/wal.0", wal, &mut bytes);
    Ok(bytes)
}

proof fn lemma_taken(before: Seq<u8>, part: Seq<u8>, after: Seq<u8>)
    requires
        (before + part + after).len() <= usize::MAX,
    ensures
        taken(before + part + after, before.len() as int, part.len() as int) == Ok::<
            (Seq<u8>, int),
            FaultView,
        >((part, (before.len() + part.len()) as int)),
{
    let input = before + part + after;
    assert(input.subrange(before.len() as int, (before.len() + part.len()) as int) =~= part);
}

proof fn lemma_number_read(value16: u16, value32: u32, value64: u64)
    ensures
        le16(value16).len() == 2,
        le32(value32).len() == 4,
        le64(value64).len() == 8,
        u16_at(le16(value16), 0) == Some(value16),
        u32_at(le32(value32), 0) == Some(value32),
        u64_at(le64(value64), 0) == Some(value64),
{
    lemma_le_len(value16 as nat, 2);
    lemma_le_len(value32 as nat, 4);
    lemma_le_len(value64 as nat, 8);
    lemma_u16_at(le16(value16), 0);
    lemma_u32_at(le32(value32), 0);
    lemma_u64_at(le64(value64), 0);
    assert(le16(value16).subrange(0, 2) =~= le16(value16));
    assert(le32(value32).subrange(0, 4) =~= le32(value32));
    assert(le64(value64).subrange(0, 8) =~= le64(value64));
    assert(stands_at(le16(value16), 0, le16(value16)));
    assert(stands_at(le32(value32), 0, le32(value32)));
    assert(stands_at(le64(value64), 0, le64(value64)));
}

/// An entry reads back from where it stands.
proof fn lemma_file_read(
    before: Seq<u8>,
    name: &str,
    file: LegacyFile,
    body: Seq<u8>,
    after: Seq<u8>,
    files: FilesView,
)
    requires
        (before + file_bytes(name, body) + after).len() <= usize::MAX,
        encode_utf8(name@).len() < 100,
        file_named(encode_utf8(name@)) == Some(file),
        body.len() <= BACKUP_MAX_FILE,
        files.file(file) is None,
    ensures
        file_taken(before + file_bytes(name, body) + after, before.len() as int, files) == Ok::<
            (FilesView, int),
            FaultView,
        >((files.with(file, body), (before.len() + file_bytes(name, body).len()) as int)),
{
    let bytes = encode_utf8(name@);
    let input = before + file_bytes(name, body) + after;
    let size = bytes.len() as u16;
    let length = body.len() as u64;
    let sum = crc_of(body);
    lemma_number_read(size, sum, length);
    vstd::utf8::encode_utf8_valid_utf8(name@);
    let p1 = before + le16(size);
    let p2 = p1 + bytes;
    let p3 = p2 + le64(length);
    let p4 = p3 + le32(sum);
    let s4 = body + after;
    let s3 = le32(sum) + s4;
    let s2 = le64(length) + s3;
    let s1 = bytes + s2;
    assert(input =~= before + le16(size) + s1);
    lemma_taken(before, le16(size), s1);
    assert(input =~= p1 + bytes + s2);
    lemma_taken(p1, bytes, s2);
    assert(input =~= p2 + le64(length) + s3);
    lemma_taken(p2, le64(length), s3);
    assert(input =~= p3 + le32(sum) + s4);
    lemma_taken(p3, le32(sum), s4);
    assert(input =~= p4 + body + after);
    lemma_taken(p4, body, after);
}

/// What precedes the entries of an archive.
spec fn archive_head() -> Seq<u8> {
    backup_magic() + le16(LEGACY_BACKUP_VERSION) + le32(3)
}

/// An archive is read as its entries are.
proof fn lemma_archive_head(rest: Seq<u8>)
    requires
        (archive_head() + rest).len() <= usize::MAX,
    ensures
        archive_head().len() == 10,
        archive_of(archive_head() + rest) == (match files_taken(
            archive_head() + rest,
            10,
            no_files(),
            3,
        ) {
            Err(fault) => Err(fault),
            Ok((files, end)) => if end != (archive_head() + rest).len() {
                Err(because(FaultKind::InvalidData, "legacy backup trailing bytes"))
            } else {
                Ok(files)
            },
        }),
{
    let input = archive_head() + rest;
    let none = Seq::<u8>::empty();
    let head = backup_magic() + le16(LEGACY_BACKUP_VERSION);
    lemma_number_read(LEGACY_BACKUP_VERSION, 3, 0);
    assert(input =~= none + backup_magic() + (le16(LEGACY_BACKUP_VERSION) + le32(3) + rest));
    lemma_taken(none, backup_magic(), le16(LEGACY_BACKUP_VERSION) + le32(3) + rest);
    assert(input =~= backup_magic() + le16(LEGACY_BACKUP_VERSION) + (le32(3) + rest));
    lemma_taken(backup_magic(), le16(LEGACY_BACKUP_VERSION), le32(3) + rest);
    assert(input =~= head + le32(3) + rest);
    lemma_taken(head, le32(3), rest);
}

/// The parts of a sum, each between what precedes and what follows it.
proof fn lemma_three_parts(start: Seq<u8>, a: Seq<u8>, b: Seq<u8>, c: Seq<u8>)
    ensures
        start + (a + b + c) == start + a + (b + c),
        start + (a + b + c) == (start + a) + b + c,
        start + (a + b + c) == (start + a + b) + c + Seq::<u8>::empty(),
{
    assert(start + (a + b + c) =~= start + a + (b + c));
    assert(start + (a + b + c) =~= (start + a) + b + c);
    assert(start + (a + b + c) =~= (start + a + b) + c + Seq::<u8>::empty());
}

/// Reading an archive gives back the files that went into it.
pub proof fn law_legacy_archive_reads_back(identity: Seq<u8>, config: Seq<u8>, wal: Seq<u8>)
    requires
        identity.len() <= BACKUP_MAX_FILE,
        config.len() <= BACKUP_MAX_FILE,
        wal.len() <= BACKUP_MAX_FILE,
        archive_bytes(identity, config, wal).len() <= usize::MAX,
    ensures
        archive_of(archive_bytes(identity, config, wal)) == Ok::<FilesView, FaultView>(
            FilesView { identity: Some(identity), config: Some(config), wal: Some(wal) },
        ),
{
    let a = file_bytes("identity.ccid", identity);
    let b = file_bytes("ccdb.toml", config);
    let c = file_bytes("raft/wal.0", wal);
    let start = archive_head();
    let input = start + (a + b + c);
    lemma_three_parts(start, a, b, c);
    assert(archive_bytes(identity, config, wal) == start + a + b + c);
    assert(input == archive_bytes(identity, config, wal)) by {
        assert((start + a + b) + c + Seq::<u8>::empty() =~= start + a + b + c);
    }
    lemma_archive_head(a + b + c);
    lemma_archive_files(start, identity, config, wal);
}

/// Three entries read back from where they stand.
proof fn lemma_archive_files(start: Seq<u8>, identity: Seq<u8>, config: Seq<u8>, wal: Seq<u8>)
    requires
        identity.len() <= BACKUP_MAX_FILE,
        config.len() <= BACKUP_MAX_FILE,
        wal.len() <= BACKUP_MAX_FILE,
        (start + (file_bytes("identity.ccid", identity) + file_bytes("ccdb.toml", config)
            + file_bytes("raft/wal.0", wal))).len() <= usize::MAX,
    ensures
        ({
            let input = start + (file_bytes("identity.ccid", identity) + file_bytes(
                "ccdb.toml",
                config,
            ) + file_bytes("raft/wal.0", wal));
            files_taken(input, start.len() as int, no_files(), 3) == Ok::<
                (FilesView, int),
                FaultView,
            >(
                (
                    FilesView { identity: Some(identity), config: Some(config), wal: Some(wal) },
                    input.len() as int,
                ),
            )
        }),
{
    let a = file_bytes("identity.ccid", identity);
    let b = file_bytes("ccdb.toml", config);
    let c = file_bytes("raft/wal.0", wal);
    let input = start + (a + b + c);
    let none = Seq::<u8>::empty();
    lemma_names_short();
    lemma_three_parts(start, a, b, c);
    let f0 = no_files();
    let f1 = f0.with(LegacyFile::Identity, identity);
    let f2 = f1.with(LegacyFile::Config, config);
    let f3 = f2.with(LegacyFile::Wal, wal);
    lemma_file_read(start, "identity.ccid", LegacyFile::Identity, identity, b + c, f0);
    lemma_file_read(start + a, "ccdb.toml", LegacyFile::Config, config, c, f1);
    lemma_file_read(start + a + b, "raft/wal.0", LegacyFile::Wal, wal, none, f2);
    let i0 = start.len() as int;
    let i1 = i0 + a.len();
    let i2 = i1 + b.len();
    let i3 = i2 + c.len();
    assert(files_taken(input, i3, f3, 0) == Ok::<(FilesView, int), FaultView>((f3, i3)));
    assert(files_taken(input, i2, f2, 1) == files_taken(input, i3, f3, 0));
    assert(files_taken(input, i1, f1, 2) == files_taken(input, i2, f2, 1));
    assert(files_taken(input, i0, f0, 3) == files_taken(input, i1, f1, 2));
}

proof fn lemma_names_short()
    ensures
        encode_utf8("identity.ccid"@).len() == 13,
        encode_utf8("ccdb.toml"@).len() == 9,
        encode_utf8("raft/wal.0"@).len() == 10,
{
    reveal_strlit("identity.ccid");
    reveal_strlit("ccdb.toml");
    reveal_strlit("raft/wal.0");
    vstd::utf8::is_ascii_chars_encode_utf8("identity.ccid"@);
    vstd::utf8::is_ascii_chars_encode_utf8("ccdb.toml"@);
    vstd::utf8::is_ascii_chars_encode_utf8("raft/wal.0"@);
}

} // verus!

//! Change files: a hashed part, an unhashed part, and contents, each of them
//! compressed, after a row of offsets.

use vstd::prelude::*;

use crate::bytes;
use crate::entry::SerializedHash;
use crate::zstd;

verus! {

/// The number of bytes that the offsets take.
pub const OFFSETS_SIZE: u64 = 56;

/// What a change file starts with.
#[derive(Clone, Copy, Debug, PartialEq, Eq, Structural)]
pub struct Offsets {
    pub version: u64,
    /// The number of bytes of the hashed part.
    pub hashed_len: u64,
    /// Where the unhashed part starts.
    pub unhashed_off: u64,
    /// The number of bytes of the unhashed part.
    pub unhashed_len: u64,
    /// Where the contents start.
    pub contents_off: u64,
    /// The number of bytes of the contents.
    pub contents_len: u64,
    pub total: u64,
}

/// The versions of change files that can be read.
#[derive(Clone, Copy)]
pub struct Versions {
    /// That of the files that are written.
    pub current: u64,
    /// That of the files written before texts had encodings.
    pub noenc: u64,
}

/// What an unhashed part says.
#[verifier::external_type_specification]
#[verifier::external_body]
pub struct ExTomlValue(toml::Value);

/// Why a change file could not be read.
pub enum ChangeError {
    /// The file of a change could not be opened.
    IoHash { hash: SerializedHash },
    /// The file could not be read, or ended too early.
    Io,
    /// The file has a version that cannot be read.
    VersionMismatch { got: u64 },
    /// A part could not be decompressed.
    Zstd(zstd_seekable::Error),
    /// The hashed part is corrupt.
    Bincode,
    /// The file has no contents.
    MissingContents { hash: SerializedHash },
}

/// The offsets that the bytes start with.
pub open spec fn offsets_at(s: Seq<u8>) -> Offsets {
    Offsets {
        version: bytes::word_at(s, 0),
        hashed_len: bytes::word_at(s, 1),
        unhashed_off: bytes::word_at(s, 2),
        unhashed_len: bytes::word_at(s, 3),
        contents_off: bytes::word_at(s, 4),
        contents_len: bytes::word_at(s, 5),
        total: bytes::word_at(s, 6),
    }
}

/// `bincode::deserialize`, on the numbers of a change file. With its default
/// configuration numbers are little-endian and of fixed size, an array has no
/// marks of its own, and bytes that follow are ignored.
#[verifier::external_body]
fn deserialize(s: &[u8]) -> (r: Result<[u64; 7], bincode::Error>)
    ensures
        r is Ok == (s@.len() >= OFFSETS_SIZE),
        r matches Ok(words) ==> words@ == bytes::words_at(s@, 7),
{
    bincode::deserialize(s)
}

/// What an unhashed part with these bytes says, if it can be read.
pub uninterp spec fn unhashed_value(bytes: Seq<u8>) -> Option<toml::Value>;

/// `serde_json::from_slice`, for a `toml::Value`, where an error counts as
/// nothing read. What it gives depends on the bytes alone.
#[verifier::external_body]
fn parse_unhashed(s: &[u8]) -> (r: Option<toml::Value>)
    ensures
        r == unhashed_value(s@),
{
    serde_json::from_slice(s).ok()
}

/// Reads the offsets that the bytes start with.
pub fn read_offsets(s: &[u8]) -> (r: Option<Offsets>)
    ensures
        r == if s@.len() >= OFFSETS_SIZE {
            Some(offsets_at(s@))
        } else {
            None
        },
{
    match deserialize(s) {
        Ok(w) => Some(
            Offsets {
                version: w[0],
                hashed_len: w[1],
                unhashed_off: w[2],
                unhashed_len: w[3],
                contents_off: w[4],
                contents_len: w[5],
                total: w[6],
            },
        ),
        Err(_) => None,
    }
}

/// Whether the version can be read.
pub open spec fn readable(version: u64, versions: Versions) -> bool {
    version == versions.current || version == versions.noenc
}

/// Whether the hashed part ends after the offsets, and a buffer can hold it.
pub open spec fn hashed_in_place(o: Offsets) -> bool {
    OFFSETS_SIZE <= o.unhashed_off && o.hashed_len <= usize::MAX
}

/// Whether the unhashed part ends after it starts, and a buffer can hold it.
pub open spec fn unhashed_in_place(o: Offsets) -> bool {
    o.unhashed_off <= o.contents_off && o.unhashed_len <= usize::MAX
}

/// Whether the hashed part ends after the offsets, and a buffer can hold it.
pub fn is_hashed_in_place(o: &Offsets) -> (r: bool)
    ensures
        r == hashed_in_place(*o),
{
    OFFSETS_SIZE <= o.unhashed_off && o.hashed_len <= usize::MAX as u64
}

/// Whether the unhashed part ends after it starts, and a buffer can hold it.
pub fn is_unhashed_in_place(o: &Offsets) -> (r: bool)
    ensures
        r == unhashed_in_place(*o),
{
    o.unhashed_off <= o.contents_off && o.unhashed_len <= usize::MAX as u64
}

/// What a part is read as, into a buffer that held `before`: it must stand
/// between `from` and `to`, and decompress.
pub enum Part {
    /// The file ends before the part does.
    CutOff,
    /// The part does not decompress.
    Corrupt,
    Bytes(Seq<u8>),
}

/// How the part between `from` and `to` is read, into a buffer that held
/// `before`.
pub open spec fn part(file: Seq<u8>, from: u64, to: u64, before: Seq<u8>) -> Part {
    if from < to && to > file.len() {
        Part::CutOff
    } else {
        let packed = if from < to {
            file.subrange(from as int, to as int)
        } else {
            Seq::empty()
        };
        if !zstd::seekable_ok(packed) {
            Part::Corrupt
        } else {
            match zstd::decompressed(packed, 0, before).0 {
                Some(_) => Part::Bytes(zstd::decompressed(packed, 0, before).1),
                None => Part::Corrupt,
            }
        }
    }
}

/// The bytes with zeros behind them, or without the last ones, so that there
/// are `n`.
pub open spec fn resized(s: Seq<u8>, n: nat) -> Seq<u8> {
    Seq::new(
        n,
        |i: int|
            if i < s.len() {
                s[i]
            } else {
                0u8
            },
    )
}

/// Reads the part between `from` and `to`, into a buffer.
fn read_part(file: &Vec<u8>, from: u64, to: u64, buf: Vec<u8>) -> (r: Result<Vec<u8>, ChangeError>)
    requires
        from <= to,
    ensures
        match part(file@, from, to, buf@) {
            Part::CutOff => r matches Err(e) && e == ChangeError::Io,
            Part::Corrupt => r matches Err(e) && e is Zstd,
            Part::Bytes(s) => r matches Ok(out) && out@ == s,
        },
{
    let packed: Vec<u8>;
    if from < to {
        if to > file.len() as u64 {
            return Err(ChangeError::Io);
        }
        let slice = vstd::slice::slice_subrange(file.as_slice(), from as usize, to as usize);
        packed = vstd::slice::slice_to_vec(slice);
    } else {
        packed = Vec::new();
        assert(packed@ =~= Seq::empty());
    }
    let s = match zstd::init_buf(&packed) {
        Ok(s) => s,
        Err(e) => {
            return Err(ChangeError::Zstd(e));
        },
    };
    assert(buf.len() == buf@.len());
    let (read, out) = zstd::decompress(s, 0, buf);
    match read {
        Ok(_) => Ok(out),
        Err(e) => Err(ChangeError::Zstd(e)),
    }
}

/// A change file of which the hashed part was read.
pub struct HashedPart {
    pub offsets: Offsets,
    /// Whether the file was written before texts had encodings.
    pub noenc: bool,
    /// The bytes of the hashed part.
    pub bytes: Vec<u8>,
}

/// How the hashed part is read.
pub open spec fn hashed_part(file: Seq<u8>) -> Part {
    let o = offsets_at(file);
    part(file, OFFSETS_SIZE, o.unhashed_off, resized(Seq::empty(), o.hashed_len as nat))
}

/// How the unhashed part is read, after a hashed part with these bytes.
pub open spec fn unhashed_part(file: Seq<u8>, hashed: Seq<u8>) -> Part {
    let o = offsets_at(file);
    part(file, o.unhashed_off, o.contents_off, resized(hashed, o.unhashed_len as nat))
}

/// What reading the offsets and the hashed part of a change file gives.
pub open spec fn hashed_read(
    file: Seq<u8>,
    versions: Versions,
    r: Result<HashedPart, ChangeError>,
) -> bool {
    if file.len() < OFFSETS_SIZE {
        r matches Err(e) && e == ChangeError::Io
    } else if !readable(offsets_at(file).version, versions) {
        r matches Err(e) && e == (ChangeError::VersionMismatch { got: offsets_at(file).version })
    } else {
        match hashed_part(file) {
            Part::CutOff => r matches Err(e) && e == ChangeError::Io,
            Part::Corrupt => r matches Err(e) && e is Zstd,
            Part::Bytes(s) => {
                &&& r matches Ok(h)
                &&& h.offsets == offsets_at(file)
                &&& h.noenc == (h.offsets.version != versions.current)
                &&& h.bytes@ == s
            },
        }
    }
}

/// Reads the offsets and the hashed part of a change file.
pub fn read_hashed(file: &Vec<u8>, versions: &Versions) -> (r: Result<HashedPart, ChangeError>)
    requires
        file@.len() >= OFFSETS_SIZE && readable(offsets_at(file@).version, *versions)
            ==> hashed_in_place(offsets_at(file@)),
    ensures
        hashed_read(file@, *versions, r),
{
    let offsets = match read_offsets(file.as_slice()) {
        Some(offsets) => offsets,
        None => {
            return Err(ChangeError::Io);
        },
    };
    if offsets.version != versions.current && offsets.version != versions.noenc {
        return Err(ChangeError::VersionMismatch { got: offsets.version });
    }
    let buf = crate::tag::zeros(offsets.hashed_len as usize);
    assert(buf@ =~= resized(Seq::empty(), offsets.hashed_len as nat));
    match read_part(file, OFFSETS_SIZE, offsets.unhashed_off, buf) {
        Ok(bytes) => Ok(
            HashedPart { offsets, noenc: offsets.version != versions.current, bytes },
        ),
        Err(e) => Err(e),
    }
}

/// An open change file.
pub struct ChangeFile {
    contents: Option<Vec<u8>>,
    hashed: Vec<u8>,
    hash: SerializedHash,
    unhashed: Option<toml::Value>,
}

/// The bytes that the contents are decompressed from, table of frames included,
/// if the file has any. The table is that of the whole file. Where it starts
/// before the contents do, the whole file stands behind them, so that the table
/// is found from the end, and the frames from the start.
pub open spec fn packed_contents(file: Seq<u8>) -> Option<Seq<u8>> {
    let from = offsets_at(file).contents_off;
    if from >= file.len() {
        None
    } else if zstd::seekable_ok(file.skip(from as int)) {
        Some(file.skip(from as int))
    } else {
        Some(file.skip(from as int) + file)
    }
}

/// What the unhashed part says, if there is one and it can be read. One that
/// is empty is not looked at.
pub open spec fn read_unhashed(file: Seq<u8>, hashed: Seq<u8>) -> Option<toml::Value> {
    if offsets_at(file).unhashed_off == offsets_at(file).contents_off {
        None
    } else {
        match unhashed_part(file, hashed) {
            Part::Bytes(s) => unhashed_value(s),
            _ => None,
        }
    }
}

/// What opening the rest of a change file gives, after a hashed part with these
/// bytes.
pub open spec fn opens_as(
    hash: SerializedHash,
    file: Seq<u8>,
    hashed: Seq<u8>,
    r: Result<ChangeFile, ChangeError>,
) -> bool {
    let o = offsets_at(file);
    if o.unhashed_off < o.contents_off && unhashed_part(file, hashed) is CutOff {
        r matches Err(e) && e == ChangeError::Io
    } else if o.unhashed_off < o.contents_off && unhashed_part(file, hashed) is Corrupt {
        r matches Err(e) && e is Zstd
    } else if o.contents_off < file.len() && !zstd::seekable_ok(file) {
        r matches Err(e) && e is Zstd && !zstd::seekable_ok(file.skip(o.contents_off as int))
    } else {
        r matches Ok(f) && f.is_open(hash, file, hashed)
    }
}

/// What opening a change file gives.
pub open spec fn opened(
    hash: SerializedHash,
    file: Seq<u8>,
    versions: Versions,
    r: Result<ChangeFile, ChangeError>,
) -> bool {
    let o = offsets_at(file);
    if file.len() < OFFSETS_SIZE {
        r matches Err(e) && e == ChangeError::Io
    } else if !readable(o.version, versions) {
        r matches Err(e) && e == (ChangeError::VersionMismatch { got: o.version })
    } else {
        match hashed_part(file) {
            Part::CutOff => r matches Err(e) && e == ChangeError::Io,
            Part::Corrupt => r matches Err(e) && e is Zstd,
            Part::Bytes(hashed) => opens_as(hash, file, hashed, r),
        }
    }
}

/// What a read of the contents at an offset gives, and leaves in a buffer that
/// held `before`.
pub open spec fn contents_read(
    f: ChangeFile,
    offset: u64,
    before: Seq<u8>,
    after: Seq<u8>,
    r: Result<usize, ChangeError>,
) -> bool {
    match f.packed() {
        None => {
            &&& r matches Err(e)
            &&& e == (ChangeError::MissingContents { hash: f.hash_of() })
            &&& after == before
        },
        Some(packed) => {
            let out = zstd::decompressed(packed, offset, before);
            &&& after == out.1
            &&& match out.0 {
                Some(n) => r matches Ok(m) && m == n,
                None => r matches Err(e) && e is Zstd,
            }
        },
    }
}

impl ChangeFile {
    /// The bytes that the contents are decompressed from.
    pub closed spec fn packed(&self) -> Option<Seq<u8>> {
        match self.contents {
            Some(c) => Some(c@),
            None => None,
        }
    }

    /// The bytes of the hashed part.
    pub closed spec fn hashed_bytes(&self) -> Seq<u8> {
        self.hashed@
    }

    /// The hash of the change.
    pub closed spec fn hash_of(&self) -> SerializedHash {
        self.hash
    }

    /// What the unhashed part says.
    pub closed spec fn unhashed_says(&self) -> Option<toml::Value> {
        self.unhashed
    }

    #[verifier::type_invariant]
    spec fn wf(self) -> bool {
        self.contents matches Some(c) ==> zstd::seekable_ok(c@)
    }

    /// Whether this is the change with the given hash, in a file with these
    /// bytes, whose hashed part was read.
    pub open spec fn is_open(&self, hash: SerializedHash, file: Seq<u8>, hashed: Seq<u8>) -> bool {
        &&& self.hash_of() == hash
        &&& self.hashed_bytes() == hashed
        &&& self.unhashed_says() == read_unhashed(file, hashed)
        &&& self.packed() == packed_contents(file)
    }

    /// Opens the rest of a change file, whose hashed part was read.
    pub fn open_rest(hash: SerializedHash, file: &Vec<u8>, hashed: HashedPart) -> (r: Result<
        ChangeFile,
        ChangeError,
    >)
        requires
            file@.len() >= OFFSETS_SIZE,
            hashed.offsets == offsets_at(file@),
            unhashed_in_place(hashed.offsets),
        ensures
            opens_as(hash, file@, hashed.bytes@, r),
    {
        let o = hashed.offsets;
        let mut unhashed: Option<toml::Value> = None;
        if o.unhashed_off < o.contents_off {
            let mut buf = clone_bytes(&hashed.bytes);
            buf.resize(o.unhashed_len as usize, 0u8);
            assert(buf@ =~= resized(hashed.bytes@, o.unhashed_len as nat));
            let s = read_part(file, o.unhashed_off, o.contents_off, buf)?;
            unhashed = parse_unhashed(s.as_slice());
        }
        let mut contents: Option<Vec<u8>> = None;
        if o.contents_off < file.len() as u64 {
            let slice = vstd::slice::slice_subrange(
                file.as_slice(),
                o.contents_off as usize,
                file.len(),
            );
            assert(slice@ =~= file@.skip(o.contents_off as int));
            if let Err(e) = zstd::init_buf(file.as_slice()) {
                return Err(ChangeError::Zstd(e));
            }
            let mut packed = vstd::slice::slice_to_vec(slice);
            if zstd::init_buf(slice).is_err() {
                let mut whole = clone_bytes(file);
                packed.append(&mut whole);
                assert(packed@ =~= slice@ + file@);
                assert(packed@.skip(slice@.len() as int) =~= file@);
                if let Err(e) = zstd::init_buf(packed.as_slice()) {
                    return Err(ChangeError::Zstd(e));
                }
            }
            contents = Some(packed);
        }
        Ok(ChangeFile { contents, hashed: hashed.bytes, hash, unhashed })
    }

    /// Opens the rest of a change file, after its hashed part was looked into,
    /// if it could be decoded.
    pub fn open_decoded(
        hash: SerializedHash,
        file: &Vec<u8>,
        hashed: HashedPart,
        decoded: bool,
    ) -> (r: Result<ChangeFile, ChangeError>)
        requires
            file@.len() >= OFFSETS_SIZE,
            hashed.offsets == offsets_at(file@),
            decoded ==> unhashed_in_place(hashed.offsets),
        ensures
            if decoded {
                opens_as(hash, file@, hashed.bytes@, r)
            } else {
                r matches Err(e) && e == ChangeError::Bincode
            },
    {
        if decoded {
            ChangeFile::open_rest(hash, file, hashed)
        } else {
            Err(ChangeError::Bincode)
        }
    }

    /// Opens a change file with these bytes. The hashed part is not looked
    /// into.
    pub fn open(hash: SerializedHash, file: &Vec<u8>, versions: &Versions) -> (r: Result<
        ChangeFile,
        ChangeError,
    >)
        requires
            file@.len() >= OFFSETS_SIZE && readable(offsets_at(file@).version, *versions)
                ==> hashed_in_place(offsets_at(file@)) && (hashed_part(file@) is Bytes
                ==> unhashed_in_place(offsets_at(file@))),
        ensures
            opened(hash, file@, *versions, r),
    {
        let hashed = read_hashed(file, versions)?;
        ChangeFile::open_rest(hash, file, hashed)
    }

    /// Opens a change file with these bytes, unless its parts are not in place
    /// where they are needed.
    pub fn open_in_place(hash: SerializedHash, file: &Vec<u8>, versions: &Versions) -> (r: Result<
        Option<ChangeFile>,
        ChangeError,
    >)
        ensures
            ({
                let o = offsets_at(file@);
                if file@.len() < OFFSETS_SIZE {
                    r matches Err(e) && e == ChangeError::Io
                } else if !readable(o.version, *versions) {
                    r matches Err(e) && e == (ChangeError::VersionMismatch { got: o.version })
                } else if !hashed_in_place(o) {
                    r == Ok::<Option<ChangeFile>, ChangeError>(None)
                } else {
                    match hashed_part(file@) {
                        Part::CutOff => r matches Err(e) && e == ChangeError::Io,
                        Part::Corrupt => r matches Err(e) && e is Zstd,
                        Part::Bytes(hashed) => if !unhashed_in_place(o) {
                            r == Ok::<Option<ChangeFile>, ChangeError>(None)
                        } else {
                            match r {
                                Ok(Some(f)) => opens_as(hash, file@, hashed, Ok(f)),
                                Ok(None) => false,
                                Err(e) => opens_as(hash, file@, hashed, Err(e)),
                            }
                        },
                    }
                }
            }),
    {
        if let Some(o) = read_offsets(file.as_slice()) {
            if o.version == versions.current || o.version == versions.noenc {
                if !is_hashed_in_place(&o) {
                    return Ok(None);
                }
                let hashed = read_hashed(file, versions)?;
                if !is_unhashed_in_place(&hashed.offsets) {
                    return Ok(None);
                }
            }
        }
        match ChangeFile::open(hash, file, versions) {
            Ok(f) => Ok(Some(f)),
            Err(e) => Err(e),
        }
    }

    /// Whether the file has contents.
    pub fn has_contents(&self) -> (r: bool)
        ensures
            r == (self.packed() is Some),
    {
        self.contents.is_some()
    }

    /// Reads the contents at an offset into `buf`, and gives the number of
    /// bytes read. The bounds of the contents are not checked.
    pub fn read_contents(&self, offset: u64, buf: &mut Vec<u8>) -> (r: Result<usize, ChangeError>)
        requires
            self.packed() is Some ==> offset + old(buf)@.len() <= u64::MAX,
        ensures
            contents_read(*self, offset, old(buf)@, final(buf)@, r),
    {
        proof {
            use_type_invariant(self);
        }
        match &self.contents {
            Some(packed) => {
                let s = match zstd::init_buf(packed.as_slice()) {
                    Ok(s) => s,
                    Err(e) => {
                        return Err(ChangeError::Zstd(e));
                    },
                };
                let mut given: Vec<u8> = Vec::new();
                std::mem::swap(&mut given, buf);
                let (read, out) = zstd::decompress(s, offset, given);
                *buf = out;
                match read {
                    Ok(n) => Ok(n),
                    Err(e) => Err(ChangeError::Zstd(e)),
                }
            },
            None => Err(ChangeError::MissingContents { hash: self.hash }),
        }
    }

    /// The bytes of the hashed part.
    pub fn hashed(&self) -> (r: &Vec<u8>)
        ensures
            r@ == self.hashed_bytes(),
    {
        &self.hashed
    }

    /// What the unhashed part says, if there is one and it can be read.
    pub fn unhashed(&self) -> (r: &Option<toml::Value>)
        ensures
            *r == self.unhashed_says(),
    {
        &self.unhashed
    }
}

fn clone_bytes(s: &Vec<u8>) -> (r: Vec<u8>)
    ensures
        r@ == s@,
{
    vstd::slice::slice_to_vec(s.as_slice())
}

/// Where to go in a file.
#[derive(Clone, Copy, Debug, PartialEq, Eq, Structural)]
pub enum SeekFrom {
    Start(u64),
    End(i64),
    Current(i64),
}

/// A part of a file, from a given place to the end.
pub struct OffFile {
    pub start: u64,
}

/// The place in the whole file for a place in the part.
pub open spec fn shifted(from: SeekFrom, start: u64) -> SeekFrom {
    match from {
        SeekFrom::Start(s) => SeekFrom::Start((s + start) as u64),
        c => c,
    }
}

impl OffFile {
    /// The place in the whole file for a place in the part.
    pub fn seek(&self, from: SeekFrom) -> (r: SeekFrom)
        requires
            from matches SeekFrom::Start(s) ==> s + self.start <= u64::MAX,
        ensures
            r == shifted(from, self.start),
    {
        match from {
            SeekFrom::Start(s) => SeekFrom::Start(s + self.start),
            c => c,
        }
    }
}

/// The bytes that the contents are decompressed from are those of the file, at
/// the places that a part of the file gives: from the start, the byte number
/// `i` is the one at the shifted place, and from the end, the last `j` bytes are
/// those of the file, as far as the contents go.
pub proof fn law_contents_are_a_part(file: Seq<u8>, i: u64, j: nat)
    requires
        offsets_at(file).contents_off + i < file.len() <= u64::MAX,
        j <= file.len() - offsets_at(file).contents_off || !zstd::seekable_ok(
            file.skip(offsets_at(file).contents_off as int),
        ) && j <= file.len(),
    ensures
        packed_contents(file) matches Some(c) && {
            &&& shifted(SeekFrom::Start(i), offsets_at(file).contents_off) matches SeekFrom::Start(
                place,
            ) && c[i as int] == file[place as int]
            &&& c.skip(c.len() - j) == file.skip(file.len() - j)
        },
{
    let c = packed_contents(file)->0;
    assert(c.skip(c.len() - j) =~= file.skip(file.len() - j));
}

/// A change file whose contents end with a table of frames of their own opens,
/// if its unhashed part does.
pub proof fn law_contents_open(
    hash: SerializedHash,
    file: Seq<u8>,
    hashed: Seq<u8>,
    r: Result<ChangeFile, ChangeError>,
)
    requires
        opens_as(hash, file, hashed, r),
        offsets_at(file).unhashed_off < offsets_at(file).contents_off ==> unhashed_part(
            file,
            hashed,
        ) is Bytes,
        offsets_at(file).contents_off < file.len() ==> zstd::seekable_ok(
            file.skip(offsets_at(file).contents_off as int),
        ),
    ensures
        r matches Ok(f) && f.packed() == (if offsets_at(file).contents_off < file.len() {
            Some(file.skip(offsets_at(file).contents_off as int))
        } else {
            None
        }),
{
}

/// A read of contents that a compressor has written, at any offset and into a
/// buffer of any size, as long as it does not go beyond the contents, fills the
/// buffer with the bytes from that offset on.
pub proof fn law_contents_come_back(f: ChangeFile, data: Seq<u8>, offset: u64, buf: Seq<u8>)
    requires
        f.packed() matches Some(packed) && zstd::reads_back(packed, data),
        offset + buf.len() <= data.len(),
    ensures
        zstd::decompressed(f.packed()->0, offset, buf) == (
            Some(buf.len() as usize),
            data.subrange(offset as int, offset + buf.len()),
        ),
{
}

/// The offsets of a change file are its first seven words, in this order.
pub proof fn law_offsets_in_a_file(s: Seq<u8>)
    ensures
        offsets_at(s).version == bytes::word_at(s, 0),
        offsets_at(s).hashed_len == bytes::word_at(s, 1),
        offsets_at(s).unhashed_off == bytes::word_at(s, 2),
        offsets_at(s).unhashed_len == bytes::word_at(s, 3),
        offsets_at(s).contents_off == bytes::word_at(s, 4),
        offsets_at(s).contents_len == bytes::word_at(s, 5),
        offsets_at(s).total == bytes::word_at(s, 6),
{
}

/// The parts of a file are in place exactly if each one starts where the one
/// before it ends or later, and a buffer can hold them.
pub proof fn law_parts_in_place(o: Offsets)
    ensures
        hashed_in_place(o) && unhashed_in_place(o) <==> 56 <= o.unhashed_off <= o.contents_off
            && o.hashed_len <= usize::MAX && o.unhashed_len <= usize::MAX,
        hashed_in_place(o) <==> 56 <= o.unhashed_off && o.hashed_len <= usize::MAX,
{
}

/// The hashed part of a change file of either version is what was compressed
/// between the offsets and the unhashed part, as far as the file says that there
/// is any.
pub proof fn law_hashed_parts_come_back(
    file: Vec<u8>,
    versions: Versions,
    data: Seq<u8>,
    r: Result<HashedPart, ChangeError>,
)
    requires
        call_ensures(read_hashed, (&file, &versions), r),
        bytes::word_at(file@, 0) == versions.current || bytes::word_at(file@, 0) == versions.noenc,
        56 < bytes::word_at(file@, 2) <= file@.len(),
        zstd::reads_back(file@.subrange(56, bytes::word_at(file@, 2) as int), data),
        bytes::word_at(file@, 1) <= data.len(),
        bytes::word_at(file@, 1) <= usize::MAX,
    ensures
        r matches Ok(h) && {
            &&& h.bytes@ == data.take(bytes::word_at(file@, 1) as int)
            &&& bytes::word_at(file@, 1) == data.len() ==> h.bytes@ == data
            &&& h.noenc == (bytes::word_at(file@, 0) != versions.current)
            &&& h.offsets == offsets_at(file@)
        },
{
    let n = bytes::word_at(file@, 1);
    let packed = file@.subrange(56, bytes::word_at(file@, 2) as int);
    let before = resized(Seq::empty(), n as nat);
    assert(zstd::decompressed(packed, 0, before) == (
        Some(before.len() as usize),
        data.subrange(0, before.len() as int),
    ));
    assert(data.subrange(0, n as int) =~= data.take(n as int));
    assert(data.take(data.len() as int) =~= data);
}

/// A file that is too short for its offsets or its hashed part, or that has a
/// version that cannot be read, is not opened, nor is one whose hashed part has
/// no table of frames. If the hashed part is read, the rest of the file decides.
pub proof fn law_unreadable_files(
    hash: SerializedHash,
    file: Vec<u8>,
    versions: Versions,
    r: Result<HashedPart, ChangeError>,
    o: Result<ChangeFile, ChangeError>,
)
    requires
        call_ensures(read_hashed, (&file, &versions), r),
        call_ensures(ChangeFile::open, (hash, &file, &versions), o),
    ensures
        r matches Err(e) ==> (o matches Err(d) && (e == d || e is Zstd && d is Zstd)),
        r matches Ok(h) ==> opens_as(hash, file@, h.bytes@, o),
        file@.len() < 56 ==> (r matches Err(e) && e == ChangeError::Io),
        file@.len() >= 56 && bytes::word_at(file@, 0) != versions.current && bytes::word_at(file@, 0)
            != versions.noenc ==> (r matches Err(e) && e == (ChangeError::VersionMismatch {
            got: bytes::word_at(file@, 0),
        })),
        file@.len() >= 56 && (bytes::word_at(file@, 0) == versions.current || bytes::word_at(file@, 0)
            == versions.noenc) ==> {
            let end = bytes::word_at(file@, 2);
            &&& 56 < end && file@.len() < end <==> (r matches Err(e) && e == ChangeError::Io)
            &&& !(r matches Err(e) && e is VersionMismatch)
            &&& 56 < end <= file@.len() && !zstd::seekable_ok(file@.subrange(56, end as int)) ==> (
            r matches Err(e) && e is Zstd)
        },
{
}

/// The unhashed part of a change file says what was compressed between its
/// start and the contents, as far as the file says that there is any, whatever
/// the hashed part is. The hashed part stays as it was read.
pub proof fn law_unhashed_parts_come_back(
    hash: SerializedHash,
    file: Vec<u8>,
    part: HashedPart,
    data: Seq<u8>,
    r: Result<ChangeFile, ChangeError>,
)
    requires
        call_ensures(ChangeFile::open_rest, (hash, &file, part), r),
        bytes::word_at(file@, 2) < bytes::word_at(file@, 4) <= file@.len(),
        zstd::reads_back(
            file@.subrange(bytes::word_at(file@, 2) as int, bytes::word_at(file@, 4) as int),
            data,
        ),
        bytes::word_at(file@, 3) <= data.len(),
        bytes::word_at(file@, 4) == file@.len() || zstd::seekable_ok(file@),
    ensures
        r matches Ok(f) && {
            &&& f.unhashed_says() == unhashed_value(data.take(bytes::word_at(file@, 3) as int))
            &&& bytes::word_at(file@, 3) == data.len() ==> f.unhashed_says() == unhashed_value(data)
            &&& f.hashed_bytes() == part.bytes@
            &&& f.hash_of() == hash
            &&& f.packed() is Some <==> bytes::word_at(file@, 4) < file@.len()
        },
{
    let n = bytes::word_at(file@, 3);
    let packed = file@.subrange(bytes::word_at(file@, 2) as int, bytes::word_at(file@, 4) as int);
    let before = resized(part.bytes@, n as nat);
    assert(zstd::decompressed(packed, 0, before) == (
        Some(before.len() as usize),
        data.subrange(0, before.len() as int),
    ));
    assert(data.subrange(0, n as int) =~= data.take(n as int));
    assert(data.take(data.len() as int) =~= data);
}

/// A change file without an unhashed part opens too, and says nothing there.
pub proof fn law_unhashed_parts_may_be_missing(
    hash: SerializedHash,
    file: Vec<u8>,
    part: HashedPart,
    r: Result<ChangeFile, ChangeError>,
)
    requires
        call_ensures(ChangeFile::open_rest, (hash, &file, part), r),
        bytes::word_at(file@, 2) == bytes::word_at(file@, 4),
        bytes::word_at(file@, 4) >= file@.len() || zstd::seekable_ok(file@),
    ensures
        r matches Ok(f) && {
            &&& f.unhashed_says() is None
            &&& f.hashed_bytes() == part.bytes@
            &&& f.hash_of() == hash
            &&& f.packed() is Some <==> bytes::word_at(file@, 4) < file@.len()
        },
{
}

/// A file that ends inside its unhashed part, or whose unhashed part or contents
/// have no table of frames, is not opened.
pub proof fn law_files_that_do_not_open(
    hash: SerializedHash,
    file: Vec<u8>,
    part: HashedPart,
    r: Result<ChangeFile, ChangeError>,
)
    requires
        call_ensures(ChangeFile::open_rest, (hash, &file, part), r),
        bytes::word_at(file@, 2) <= bytes::word_at(file@, 4),
    ensures
        ({
            let from = bytes::word_at(file@, 2);
            let to = bytes::word_at(file@, 4);
            &&& from < to && file@.len() < to <==> (r matches Err(e) && e == ChangeError::Io)
            &&& from < to <= file@.len() && !zstd::seekable_ok(file@.subrange(from as int, to as int))
                ==> (r matches Err(e) && e is Zstd)
            &&& to < file@.len() && !zstd::seekable_ok(file@) && (from == to || to <= file@.len()) ==> (
            r matches Err(e) && e is Zstd)
            &&& r is Ok && to < file@.len() ==> zstd::seekable_ok(file@)
        }),
{
}

/// Contents that were compressed behind the other parts of a change file are
/// read back from it, at every offset, and as often as they are read. The
/// buffer is filled, and nothing beyond it is read.
pub proof fn law_contents_of_a_file(
    hash: SerializedHash,
    file: Seq<u8>,
    hashed: Seq<u8>,
    f: ChangeFile,
    data: Seq<u8>,
    offset: u64,
    buf: &mut Vec<u8>,
    r: Result<usize, ChangeError>,
)
    requires
        f.is_open(hash, file, hashed),
        bytes::word_at(file, 4) < file.len(),
        zstd::reads_back(file.skip(bytes::word_at(file, 4) as int), data),
        offset + old(buf)@.len() <= data.len(),
        old(buf)@.len() <= usize::MAX,
        call_ensures(ChangeFile::read_contents, (&f, offset, buf), r),
    ensures
        r matches Ok(n) && n == old(buf)@.len(),
        final(buf)@ == data.subrange(offset as int, offset + old(buf)@.len()),
{
    assert(f.packed() == Some(file.skip(bytes::word_at(file, 4) as int)));
    law_contents_come_back(f, data, offset, old(buf)@);
}

/// A file has contents exactly if there is something behind its other parts. A
/// read of contents that are missing changes nothing.
pub proof fn law_missing_contents(
    hash: SerializedHash,
    file: Seq<u8>,
    hashed: Seq<u8>,
    f: ChangeFile,
    offset: u64,
    buf: &mut Vec<u8>,
    has: bool,
    r: Result<usize, ChangeError>,
)
    requires
        f.is_open(hash, file, hashed),
        call_ensures(ChangeFile::read_contents, (&f, offset, buf), r),
        call_ensures(ChangeFile::has_contents, (&f,), has),
    ensures
        bytes::word_at(file, 4) >= file.len() <==> (r matches Err(e) && e
            == (ChangeError::MissingContents { hash })),
        bytes::word_at(file, 4) >= file.len() ==> final(buf)@ == old(buf)@,
        has <==> bytes::word_at(file, 4) < file.len(),
{
}

/// A buffer keeps what it held when it is made longer or shorter, and is filled
/// with zeros.
pub proof fn law_resized_buffers(s: Seq<u8>, n: nat, i: int)
    requires
        0 <= i < n,
    ensures
        resized(s, n).len() == n,
        i < s.len() ==> resized(s, n)[i] == s[i],
        i >= s.len() ==> resized(s, n)[i] == 0,
{
}

/// A place counted from the start of a part is as far behind the start of the
/// part in the whole file. Other places stay as they are.
pub proof fn law_places_in_a_part(place: u64, by: i64, start: u64)
    requires
        place + start <= u64::MAX,
    ensures
        shifted(SeekFrom::Start(place), start) matches SeekFrom::Start(p) && p - start == place,
        shifted(SeekFrom::End(by), start) == SeekFrom::End(by),
        shifted(SeekFrom::Current(by), start) == SeekFrom::Current(by),
{
}

/// A hashed part is whatever its bytes decompress to, in a buffer of zeros of
/// the size that the file says. One that does not decompress is not read.
pub proof fn law_hashed_parts_are_decompressed(
    file: Vec<u8>,
    versions: Versions,
    zeros: Seq<u8>,
    r: Result<HashedPart, ChangeError>,
)
    requires
        call_ensures(read_hashed, (&file, &versions), r),
        bytes::word_at(file@, 0) == versions.current || bytes::word_at(file@, 0) == versions.noenc,
        56 < bytes::word_at(file@, 2) <= file@.len(),
        zstd::seekable_ok(file@.subrange(56, bytes::word_at(file@, 2) as int)),
        zeros.len() == bytes::word_at(file@, 1),
        forall|i: int| 0 <= i < zeros.len() ==> #[trigger] zeros[i] == 0,
    ensures
        ({
            let packed = file@.subrange(56, bytes::word_at(file@, 2) as int);
            match zstd::decompressed(packed, 0, zeros).0 {
                Some(_) => r matches Ok(h) && h.bytes@ == zstd::decompressed(packed, 0, zeros).1,
                None => r matches Err(e) && e is Zstd,
            }
        }),
{
    assert(zeros =~= resized(Seq::empty(), bytes::word_at(file@, 1) as nat));
}

/// An unhashed part is whatever its bytes decompress to, in a buffer of the size
/// that the file says, which starts with the hashed part, and is then zeros. A
/// file whose unhashed part does not decompress is not opened.
pub proof fn law_unhashed_parts_are_decompressed(
    hash: SerializedHash,
    file: Vec<u8>,
    part: HashedPart,
    before: Seq<u8>,
    r: Result<ChangeFile, ChangeError>,
)
    requires
        call_ensures(ChangeFile::open_rest, (hash, &file, part), r),
        bytes::word_at(file@, 2) < bytes::word_at(file@, 4) <= file@.len(),
        zstd::seekable_ok(
            file@.subrange(bytes::word_at(file@, 2) as int, bytes::word_at(file@, 4) as int),
        ),
        bytes::word_at(file@, 4) == file@.len() || zstd::seekable_ok(file@),
        before.len() == bytes::word_at(file@, 3),
        forall|i: int|
            0 <= i < before.len() ==> #[trigger] before[i] == if i < part.bytes@.len() {
                part.bytes@[i]
            } else {
                0u8
            },
    ensures
        ({
            let packed = file@.subrange(
                bytes::word_at(file@, 2) as int,
                bytes::word_at(file@, 4) as int,
            );
            let out = zstd::decompressed(packed, 0, before);
            match out.0 {
                Some(_) => r matches Ok(f) && f.unhashed_says() == unhashed_value(out.1),
                None => r matches Err(e) && e is Zstd,
            }
        }),
{
    assert(before =~= resized(part.bytes@, bytes::word_at(file@, 3) as nat));
}

/// A change file whose parts were compressed is opened with what they were: its
/// hashed part, what its unhashed part says, and its contents at every offset.
pub proof fn law_change_files_come_back(
    hash: SerializedHash,
    file: Vec<u8>,
    versions: Versions,
    hashed: Seq<u8>,
    unhashed: Seq<u8>,
    contents: Seq<u8>,
    r: Result<ChangeFile, ChangeError>,
)
    requires
        call_ensures(ChangeFile::open, (hash, &file, &versions), r),
        bytes::word_at(file@, 0) == versions.current || bytes::word_at(file@, 0) == versions.noenc,
        56 < bytes::word_at(file@, 2) < bytes::word_at(file@, 4) < file@.len(),
        zstd::reads_back(file@.subrange(56, bytes::word_at(file@, 2) as int), hashed),
        zstd::reads_back(
            file@.subrange(bytes::word_at(file@, 2) as int, bytes::word_at(file@, 4) as int),
            unhashed,
        ),
        zstd::reads_back(file@.skip(bytes::word_at(file@, 4) as int), contents),
        bytes::word_at(file@, 1) == hashed.len() <= usize::MAX,
        bytes::word_at(file@, 3) == unhashed.len() <= usize::MAX,
    ensures
        r matches Ok(f) && {
            &&& f.hash_of() == hash
            &&& f.hashed_bytes() == hashed
            &&& f.unhashed_says() == unhashed_value(unhashed)
            &&& f.packed() matches Some(packed) && zstd::reads_back(packed, contents)
        },
{
    let n = bytes::word_at(file@, 1);
    let zeros = resized(Seq::empty(), n as nat);
    let packed = file@.subrange(56, bytes::word_at(file@, 2) as int);
    zstd::law_reading_back(packed, hashed, 0, zeros);
    assert(hashed.subrange(0, hashed.len() as int) =~= hashed);
    assert(hashed_part(file@) == Part::Bytes(hashed));
    let buf = resized(hashed, bytes::word_at(file@, 3) as nat);
    let rest = file@.subrange(
        bytes::word_at(file@, 2) as int,
        bytes::word_at(file@, 4) as int,
    );
    zstd::law_reading_back(rest, unhashed, 0, buf);
    assert(unhashed.subrange(0, unhashed.len() as int) =~= unhashed);
}

/// A change file is opened after its hashed part was decoded, and not if it
/// could not be.
pub proof fn law_decoded_files(
    hash: SerializedHash,
    file: Vec<u8>,
    part: HashedPart,
    decoded: bool,
    r: Result<ChangeFile, ChangeError>,
)
    requires
        call_ensures(ChangeFile::open_decoded, (hash, &file, part, decoded), r),
    ensures
        !decoded ==> (r matches Err(e) && e == ChangeError::Bincode),
        decoded ==> opens_as(hash, file@, part.bytes@, r),
{
}

/// The offsets of a change file are read exactly if there are enough bytes, each
/// from its own word.
pub proof fn law_offsets_are_read(s: &[u8], r: Option<Offsets>)
    requires
        call_ensures(read_offsets, (s,), r),
    ensures
        r is Some <==> s@.len() >= 56,
        r matches Some(o) ==> {
            &&& o.version == bytes::word_at(s@, 0)
            &&& o.hashed_len == bytes::word_at(s@, 1)
            &&& o.unhashed_off == bytes::word_at(s@, 2)
            &&& o.unhashed_len == bytes::word_at(s@, 3)
            &&& o.contents_off == bytes::word_at(s@, 4)
            &&& o.contents_len == bytes::word_at(s@, 5)
            &&& o.total == bytes::word_at(s@, 6)
        },
{
}

/// An open change file gives the bytes of its hashed part, and what its unhashed
/// part says.
pub proof fn law_parts_of_an_open_file(
    hash: SerializedHash,
    file: Seq<u8>,
    hashed: Seq<u8>,
    f: ChangeFile,
    a: &Vec<u8>,
    b: &Option<toml::Value>,
)
    requires
        f.is_open(hash, file, hashed),
        call_ensures(ChangeFile::hashed, (&f,), a),
        call_ensures(ChangeFile::unhashed, (&f,), b),
    ensures
        a@ == hashed,
        *b == read_unhashed(file, hashed),
        f.hash_of() == hash,
{
}

/// A place in a part of a file is shifted by where the part starts, if it is
/// counted from the start.
pub proof fn law_seeking(part: OffFile, from: SeekFrom, r: SeekFrom)
    requires
        call_ensures(OffFile::seek, (&part, from), r),
        from matches SeekFrom::Start(s) ==> s + part.start <= u64::MAX,
    ensures
        match from {
            SeekFrom::Start(s) => r matches SeekFrom::Start(p) && p == s + part.start,
            SeekFrom::End(_) => r == from,
            SeekFrom::Current(_) => r == from,
        },
{
}

/// The parts of a file are said to be in place exactly if they are.
pub proof fn law_parts_are_in_place(o: Offsets, hashed: bool, unhashed: bool)
    requires
        call_ensures(is_hashed_in_place, (&o,), hashed),
        call_ensures(is_unhashed_in_place, (&o,), unhashed),
    ensures
        hashed <==> 56 <= o.unhashed_off && o.hashed_len <= usize::MAX,
        unhashed <==> o.unhashed_off <= o.contents_off && o.unhashed_len <= usize::MAX,
{
}

/// Opening a file whose parts may be out of place gives nothing exactly where
/// they are, and what opening it gives otherwise.
pub proof fn law_files_in_place(
    hash: SerializedHash,
    file: Vec<u8>,
    versions: Versions,
    r: Result<Option<ChangeFile>, ChangeError>,
)
    requires
        call_ensures(ChangeFile::open_in_place, (hash, &file, &versions), r),
    ensures
        match r {
            Ok(Some(f)) => opened(hash, file@, versions, Ok(f)),
            Err(e) => opened(hash, file@, versions, Err(e)),
            Ok(None) => {
                let o = offsets_at(file@);
                &&& file@.len() >= 56
                &&& o.unhashed_off < 56 || o.hashed_len > usize::MAX || o.contents_off
                    < o.unhashed_off || o.unhashed_len > usize::MAX
            },
        },
{
}

} // verus!

//! Tag files: the state of a channel, frozen into one file.
//!
//! A tag file starts with a header of fixed size, which holds the offsets of
//! what follows: a description of the tag, and then the pages of the channel,
//! compressed. A short tag file ends after the description.

use vstd::prelude::*;

use crate::bytes;
use crate::pages::BLOCK_SIZE;
use crate::zstd;

verus! {

/// The version of the files written here.
pub const VERSION: u64 = 7;

/// The version of the files written before texts had encodings.
pub const VERSION_NOENC: u64 = 5;

/// The number of bytes that a header takes in a file.
pub const HEADER_SIZE: u64 = 148;

/// The number of bytes read to get a header: what a header takes in memory,
/// where a state is a point of a curve in 160 bytes.
pub const READ_SIZE: usize = 272;

/// The state of a channel.
#[derive(Clone, Copy)]
pub enum Merkle {
    /// A compressed point of the curve.
    Ed25519([u8; 32]),
}

impl View for Merkle {
    type V = Seq<u8>;

    open spec fn view(&self) -> Seq<u8> {
        match self {
            Merkle::Ed25519(point) => point@,
        }
    }
}

impl Merkle {
    /// Whether two states are the same.
    pub fn same(&self, other: &Merkle) -> (r: bool)
        ensures
            r == (self@ == other@),
            r == (*self == *other),
    {
        let Merkle::Ed25519(a) = self;
        let Merkle::Ed25519(b) = other;
        let mut i: usize = 0;
        while i < 32
            invariant
                i <= 32,
                self@ == a@,
                other@ == b@,
                forall|j: int| 0 <= j < i ==> a@[j] == b@[j],
            decreases 32 - i,
        {
            if a[i] != b[i] {
                return false;
            }
            i = i + 1;
        }
        assert(a@ =~= b@);
        assert(a =~= b);
        true
    }
}

/// Where the roots of the tables are among the pages of a tag file.
#[derive(Clone, Copy)]
pub struct DbOffsets {
    pub internal: u64,
    pub external: u64,
    pub graph: u64,
    pub changes: u64,
    pub revchanges: u64,
    pub states: u64,
    pub tags: u64,
    pub apply_counter: u64,
    /// The number of bytes that the pages take.
    pub size: u64,
}

impl Default for DbOffsets {
    fn default() -> (r: DbOffsets)
        ensures
            r == (DbOffsets {
                internal: 0,
                external: 0,
                graph: 0,
                changes: 0,
                revchanges: 0,
                states: 0,
                tags: 0,
                apply_counter: 0,
                size: 0,
            }),
    {
        DbOffsets {
            internal: 0,
            external: 0,
            graph: 0,
            changes: 0,
            revchanges: 0,
            states: 0,
            tags: 0,
            apply_counter: 0,
            size: 0,
        }
    }
}

/// The header of a tag file.
#[derive(Clone, Copy)]
pub struct FileHeader {
    pub version: u64,
    /// Where the description starts.
    pub header: u64,
    /// Where the pages start.
    pub channel: u64,
    /// Where the pages end.
    pub unhashed: u64,
    pub total: u64,
    pub offsets: DbOffsets,
    pub state: Merkle,
}

/// An error of the `bincode` crate.
#[verifier::external_type_specification]
#[verifier::external_body]
pub struct ExErrorKind(bincode::ErrorKind);

/// Why a tag file could not be read or written.
pub enum TagError {
    /// Version mismatch.
    VersionMismatch,
    /// The file could not be read or written, or ended too early.
    Io,
    /// A header could not be turned into bytes.
    Bincode(bincode::Error),
    /// The tag file is corrupt.
    BincodeDe,
    /// The pages could not be decompressed.
    Zstd(zstd_seekable::Error),
    /// The database could not be read or written.
    Txn,
    /// The compressor and the pages got out of step.
    Sync,
    /// The file holds another state.
    WrongHash { expected: Merkle, got: Merkle },
}

impl TagError {
    /// What is said of the error, unless it is for the error in it to say. The
    /// two states are given as texts.
    pub fn message(&self, expected: &str, got: &str) -> (r: Option<String>)
        ensures
            text_of(r) == match self {
                TagError::VersionMismatch => Some("Version mismatch"@),
                TagError::BincodeDe => Some("Tag file is corrupt"@),
                TagError::Sync => Some("Synchronisation error"@),
                TagError::WrongHash { .. } => Some(
                    "Wrong state, expected "@ + expected@ + ", got "@ + got@,
                ),
                _ => None,
            },
    {
        match self {
            TagError::VersionMismatch => Some("Version mismatch".to_owned()),
            TagError::BincodeDe => Some("Tag file is corrupt".to_owned()),
            TagError::Sync => Some("Synchronisation error".to_owned()),
            TagError::WrongHash { .. } => Some(
                "Wrong state, expected ".to_owned().concat(expected).concat(", got ").concat(got),
            ),
            _ => None,
        }
    }
}

/// The view of a text that may be missing.
pub open spec fn text_of(s: Option<String>) -> Option<Seq<char>> {
    match s {
        Some(t) => Some(t@),
        None => None,
    }
}

/// The numbers of a header, in the order in which a file holds them.
pub open spec fn header_words(h: FileHeader) -> Seq<u64> {
    seq![
        h.version,
        h.header,
        h.channel,
        h.unhashed,
        h.total,
        h.offsets.internal,
        h.offsets.external,
        h.offsets.graph,
        h.offsets.changes,
        h.offsets.revchanges,
        h.offsets.states,
        h.offsets.tags,
        h.offsets.apply_counter,
        h.offsets.size,
    ]
}

/// A header as the bytes of a file: its numbers, then the number of the
/// variant of its state, then the state.
pub open spec fn header_bytes(h: FileHeader) -> Seq<u8> {
    bytes::words_bytes(header_words(h)) + bytes::le_bytes(0, 4) + h.state@
}

/// Whether the bytes start with a header.
pub open spec fn header_ok(s: Seq<u8>) -> bool {
    s.len() >= HEADER_SIZE && bytes::le_value(s.subrange(112, 116)) == 0
}

/// Whether the bytes start with the header `h`.
pub open spec fn starts_with_header(s: Seq<u8>, h: FileHeader) -> bool {
    &&& header_ok(s)
    &&& header_words(h) == bytes::words_at(s, 14)
    &&& h.state@ == s.subrange(116, 148)
}

/// `bincode::deserialize`, on the numbers of a header, the number of the
/// variant of a state, and the state. With its default configuration numbers
/// are little-endian and of fixed size, arrays and tuples have no marks of
/// their own, and bytes that follow are ignored.
#[verifier::external_body]
fn deserialize(s: &[u8]) -> (r: Result<([u64; 14], u32, [u8; 32]), bincode::Error>)
    ensures
        r is Ok == (s@.len() >= HEADER_SIZE),
        r matches Ok((words, variant, point)) ==> {
            &&& words@ == bytes::words_at(s@, 14)
            &&& variant == bytes::le_value(s@.subrange(112, 116))
            &&& point@ == s@.subrange(116, 148)
        },
{
    bincode::deserialize(s)
}

/// `bincode::serialize`, on the same values, and so in the same form.
#[verifier::external_body]
fn serialize(words: &[u64; 14], variant: u32, point: &[u8; 32]) -> (r: Result<
    Vec<u8>,
    bincode::Error,
>)
    ensures
        r is Ok,
        r matches Ok(s) ==> s@ == bytes::words_bytes(words@) + bytes::le_bytes(variant as nat, 4)
            + point@,
{
    bincode::serialize(&(words, variant, point))
}

/// `bincode::serialized_size`, on the same values: the number of bytes of that
/// form.
#[verifier::external_body]
fn serialized_size(words: &[u64; 14], variant: u32, point: &[u8; 32]) -> (r: Result<
    u64,
    bincode::Error,
>)
    ensures
        r is Ok,
        r matches Ok(n) ==> n == HEADER_SIZE,
{
    bincode::serialized_size(&(words, variant, point))
}

impl FileHeader {
    fn words(&self) -> (r: [u64; 14])
        ensures
            r@ == header_words(*self),
    {
        let r: [u64; 14] = [
            self.version,
            self.header,
            self.channel,
            self.unhashed,
            self.total,
            self.offsets.internal,
            self.offsets.external,
            self.offsets.graph,
            self.offsets.changes,
            self.offsets.revchanges,
            self.offsets.states,
            self.offsets.tags,
            self.offsets.apply_counter,
            self.offsets.size,
        ];
        assert(r@ =~= header_words(*self));
        r
    }

    /// The number of bytes that the header takes in a file.
    pub fn size(&self) -> (r: Result<u64, TagError>)
        ensures
            r matches Ok(n) && n == HEADER_SIZE && n == header_bytes(*self).len(),
    {
        proof {
            lemma_header_len(*self);
        }
        let Merkle::Ed25519(point) = &self.state;
        match serialized_size(&self.words(), 0, point) {
            Ok(n) => Ok(n),
            Err(e) => Err(TagError::Bincode(e)),
        }
    }

    /// The header as the bytes of a file.
    pub fn to_bytes(&self) -> (r: Result<Vec<u8>, TagError>)
        ensures
            r matches Ok(s) && s@ == header_bytes(*self),
    {
        let Merkle::Ed25519(point) = &self.state;
        match serialize(&self.words(), 0, point) {
            Ok(s) => Ok(s),
            Err(e) => Err(TagError::Bincode(e)),
        }
    }

    /// Reads the header that the bytes start with.
    pub fn from_bytes(s: &[u8]) -> (r: Result<FileHeader, TagError>)
        ensures
            match r {
                Ok(h) => starts_with_header(s@, h),
                Err(e) => !header_ok(s@) && e == TagError::BincodeDe,
            },
    {
        match deserialize(s) {
            Ok((w, variant, point)) => {
                if variant != 0 {
                    return Err(TagError::BincodeDe);
                }
                let h = FileHeader {
                    version: w[0],
                    header: w[1],
                    channel: w[2],
                    unhashed: w[3],
                    total: w[4],
                    offsets: DbOffsets {
                        internal: w[5],
                        external: w[6],
                        graph: w[7],
                        changes: w[8],
                        revchanges: w[9],
                        states: w[10],
                        tags: w[11],
                        apply_counter: w[12],
                        size: w[13],
                    },
                    state: Merkle::Ed25519(point),
                };
                assert(header_words(h) =~= w@);
                Ok(h)
            },
            Err(_) => Err(TagError::BincodeDe),
        }
    }
}

pub proof fn lemma_header_len(h: FileHeader)
    ensures
        header_bytes(h).len() == HEADER_SIZE,
{
    bytes::lemma_words_len(header_words(h));
    bytes::lemma_le_len(0, 4);
}

/// What is read from the bytes of a header, whatever follows them, is the
/// header.
pub proof fn law_header_round_trip(h: FileHeader, rest: Seq<u8>, read: FileHeader)
    ensures
        starts_with_header(header_bytes(h) + rest, h),
        starts_with_header(header_bytes(h) + rest, read) ==> read == h,
{
    let words = header_words(h);
    let s = header_bytes(h) + rest;
    let tail = bytes::le_bytes(0, 4) + h.state@ + rest;
    lemma_header_len(h);
    bytes::lemma_words_len(words);
    bytes::lemma_le_len(0, 4);
    assert(s =~= bytes::words_bytes(words) + tail);
    bytes::lemma_words_round_trip(words, tail);
    assert(s.subrange(112, 116) =~= bytes::le_bytes(0, 4));
    bytes::lemma_u32_fits(0);
    bytes::lemma_le_round_trip(0, 4);
    assert(s.subrange(116, 148) =~= h.state@);
    if starts_with_header(s, read) {
        lemma_same_header(h, read);
    }
}

/// A header is given by its numbers and its state.
proof fn lemma_same_header(a: FileHeader, b: FileHeader)
    requires
        header_words(a) == header_words(b),
        a.state@ == b.state@,
    ensures
        a == b,
{
    let u = header_words(a);
    let v = header_words(b);
    assert(u[0] == v[0] && u[1] == v[1] && u[2] == v[2] && u[3] == v[3] && u[4] == v[4]);
    assert(u[5] == v[5] && u[6] == v[6] && u[7] == v[7] && u[8] == v[8] && u[9] == v[9]);
    assert(u[10] == v[10] && u[11] == v[11] && u[12] == v[12] && u[13] == v[13]);
    let Merkle::Ed25519(p) = a.state;
    let Merkle::Ed25519(q) = b.state;
    assert(p =~= q);
}

/// An open tag file.
pub struct OpenTagFile {
    pub header: FileHeader,
    /// The bytes of the file.
    pub file: Vec<u8>,
}

/// The `n` bytes from `from` on, if the file has them.
pub open spec fn section(file: Seq<u8>, from: u64, n: nat) -> Option<Seq<u8>> {
    if n == 0 {
        Some(Seq::empty())
    } else if from + n <= file.len() {
        Some(file.subrange(from as int, from + n))
    } else {
        None
    }
}

/// What follows `from` in the file.
pub open spec fn following(file: Seq<u8>, from: u64) -> Seq<u8> {
    if from <= file.len() {
        file.skip(from as int)
    } else {
        Seq::empty()
    }
}

/// Reads `n` bytes of the file from `from` on.
fn read_section(file: &Vec<u8>, from: u64, n: u64) -> (r: Result<Vec<u8>, TagError>)
    ensures
        match r {
            Ok(s) => section(file@, from, n as nat) == Some(s@),
            Err(e) => section(file@, from, n as nat) is None && e == TagError::Io,
        },
{
    if n == 0 {
        let empty: Vec<u8> = Vec::new();
        assert(empty@ =~= Seq::empty());
        return Ok(empty);
    }
    let len: u64 = file.len() as u64;
    if n > len || from > len - n {
        return Err(TagError::Io);
    }
    let part = vstd::slice::slice_subrange(file.as_slice(), from as usize, (from + n) as usize);
    Ok(vstd::slice::slice_to_vec(part))
}

/// Reads the file from `from` on.
fn read_following(file: &Vec<u8>, from: u64) -> (r: Vec<u8>)
    ensures
        r@ == following(file@, from),
{
    if from > file.len() as u64 {
        let empty: Vec<u8> = Vec::new();
        assert(empty@ =~= Seq::empty());
        return empty;
    }
    let part = vstd::slice::slice_subrange(file.as_slice(), from as usize, file.len());
    assert(part@ =~= file@.skip(from as int));
    vstd::slice::slice_to_vec(part)
}

/// Whether a tag file with these bytes opens, for the given state, with the
/// given header.
pub open spec fn opens(file: Seq<u8>, expected: Merkle, h: FileHeader) -> bool {
    &&& file.len() >= READ_SIZE
    &&& starts_with_header(file, h)
    &&& h.state == expected
}

/// Whether opening a file with these bytes, for the given state, fails thus.
pub open spec fn fails_to_open(file: Seq<u8>, expected: Merkle, e: TagError) -> bool {
    if file.len() < READ_SIZE {
        e == TagError::Io
    } else if !header_ok(file) {
        e == TagError::BincodeDe
    } else {
        &&& e matches TagError::WrongHash { expected: wanted, got }
        &&& wanted == expected
        &&& got@ == file.subrange(116, 148)
        &&& got != expected
    }
}

/// Reads the header of a file, which must hold the expected state.
fn read_header(file: &Vec<u8>, expected: &Merkle) -> (r: Result<FileHeader, TagError>)
    ensures
        match r {
            Ok(h) => opens(file@, *expected, h),
            Err(e) => fails_to_open(file@, *expected, e),
        },
{
    if file.len() < READ_SIZE {
        return Err(TagError::Io);
    }
    let start = vstd::slice::slice_subrange(file.as_slice(), 0, READ_SIZE);
    proof {
        assert(start@.subrange(112, 116) =~= file@.subrange(112, 116));
        assert(start@.subrange(116, 148) =~= file@.subrange(116, 148));
        assert forall|i: int| 0 <= i < 14 implies bytes::word_at(start@, i) == bytes::word_at(
            file@,
            i,
        ) by {
            assert(start@.subrange(8 * i, 8 * i + 8) =~= file@.subrange(8 * i, 8 * i + 8));
        }
        assert(bytes::words_at(start@, 14) =~= bytes::words_at(file@, 14));
    }
    match FileHeader::from_bytes(start) {
        Ok(h) => {
            if h.state.same(expected) {
                Ok(h)
            } else {
                Err(TagError::WrongHash { expected: *expected, got: h.state })
            }
        },
        Err(e) => Err(e),
    }
}

impl OpenTagFile {
    /// Opens a tag file with these bytes, which must hold the expected state.
    pub fn open(file: Vec<u8>, expected: &Merkle) -> (r: Result<OpenTagFile, TagError>)
        ensures
            match r {
                Ok(t) => opens(file@, *expected, t.header) && t.file@ == file@,
                Err(e) => fails_to_open(file@, *expected, e),
            },
    {
        match read_header(&file, expected) {
            Ok(header) => Ok(OpenTagFile { header, file }),
            Err(e) => Err(e),
        }
    }

    /// The bytes that the description of the tag starts with.
    pub fn header(&self) -> (r: Vec<u8>)
        ensures
            r@ == following(self.file@, self.header.header),
    {
        read_following(&self.file, self.header.header)
    }

    /// The state that the tag is for.
    pub fn state(&self) -> (r: Merkle)
        ensures
            r == self.header.state,
    {
        self.header.state
    }

    /// The bytes of the short form of the file.
    pub fn short(&self) -> (r: Result<Vec<u8>, TagError>)
        requires
            self.header.header <= self.header.channel,
            self.file@.len() + HEADER_SIZE <= u64::MAX,
        ensures
            shortened(self.file@, self.header, r),
    {
        let n: u64 = self.header.channel - self.header.header;
        let header_buf = read_section(&self.file, self.header.header, n)?;
        let mut off = FileHeader {
            version: VERSION,
            header: 0,
            channel: 0,
            unhashed: 0,
            total: 0,
            offsets: DbOffsets::default(),
            state: self.header.state,
        };
        off.header = off.size()?;
        off.channel = off.header + header_buf.len() as u64;
        off.total = off.channel;
        let mut out = off.to_bytes()?;
        let mut rest = header_buf;
        out.append(&mut rest);
        Ok(out)
    }
}

/// What the short form of a tag file with this header is.
pub open spec fn shortened(file: Seq<u8>, h: FileHeader, r: Result<Vec<u8>, TagError>) -> bool {
    let n = (h.channel - h.header) as nat;
    match section(file, h.header, n) {
        Some(s) => r matches Ok(out) && out@ == header_bytes(short_header(h.state, n)) + s,
        None => r matches Err(e) && e == TagError::Io,
    }
}

/// The pages of a tag file, as a decompressor left them.
pub struct Unpacked {
    /// The number of bytes that the decompressor gave, or why it failed.
    pub read: Result<usize, zstd_seekable::Error>,
    /// The bytes of the pages.
    pub pages: Vec<u8>,
}

/// The compressed pages of a tag file with this header.
pub open spec fn packed_pages(file: Seq<u8>, h: FileHeader) -> Option<Seq<u8>> {
    section(file, h.channel, (h.unhashed - h.channel) as nat)
}

/// What a decompressor makes of the pages of a tag file with this header.
pub open spec fn unpacked_pages(packed: Seq<u8>, h: FileHeader) -> (Option<usize>, Seq<u8>) {
    zstd::decompressed(packed, 0, Seq::new(h.offsets.size as nat, |i: int| 0u8))
}

/// What decompressing the pages of a tag file with this header gives.
pub open spec fn unpacked(file: Seq<u8>, h: FileHeader, r: Result<Unpacked, TagError>) -> bool {
    match packed_pages(file, h) {
        None => r matches Err(e) && e == TagError::Io,
        Some(packed) => if !zstd::seekable_ok(packed) {
            r matches Err(e) && e is Zstd
        } else {
            &&& r matches Ok(u)
            &&& u.pages@ == unpacked_pages(packed, h).1
            &&& match unpacked_pages(packed, h).0 {
                Some(n) => u.read == Ok::<usize, zstd_seekable::Error>(n),
                None => u.read is Err,
            }
        },
    }
}

impl OpenTagFile {
    /// Decompresses the pages of the channel.
    pub fn unpack(&self) -> (r: Result<Unpacked, TagError>)
        requires
            self.header.channel <= self.header.unhashed,
            self.header.offsets.size <= usize::MAX,
        ensures
            unpacked(self.file@, self.header, r),
    {
        let comp = read_section(
            &self.file,
            self.header.channel,
            self.header.unhashed - self.header.channel,
        )?;
        let buf = zeros(self.header.offsets.size as usize);
        let s = match zstd::init_buf(&comp) {
            Ok(s) => s,
            Err(e) => {
                return Err(TagError::Zstd(e));
            },
        };
        let (read, pages) = zstd::decompress(s, 0, buf);
        Ok(Unpacked { read, pages })
    }
}

/// A buffer of `n` zeros.
pub(crate) fn zeros(n: usize) -> (r: Vec<u8>)
    ensures
        r@ == Seq::new(n as nat, |i: int| 0u8),
{
    let mut buf: Vec<u8> = Vec::new();
    buf.resize(n, 0u8);
    assert(buf@ =~= Seq::new(n as nat, |i: int| 0u8));
    buf
}

/// The header of a short tag file, whose description takes `n` bytes.
pub open spec fn short_header(state: Merkle, n: nat) -> FileHeader {
    FileHeader {
        version: VERSION,
        header: HEADER_SIZE,
        channel: (HEADER_SIZE + n) as u64,
        unhashed: 0,
        total: (HEADER_SIZE + n) as u64,
        offsets: DbOffsets {
            internal: 0,
            external: 0,
            graph: 0,
            changes: 0,
            revchanges: 0,
            states: 0,
            tags: 0,
            apply_counter: 0,
            size: 0,
        },
        state,
    }
}

/// What reading the description of a tag, from a file with these bytes, gives.
pub open spec fn described(
    file: Seq<u8>,
    expected: Merkle,
    r: Result<Vec<u8>, TagError>,
) -> bool {
    match r {
        Ok(s) => exists|h: FileHeader| #[trigger]
            opens(file, expected, h) && s@ == following(file, h.header),
        Err(e) => fails_to_open(file, expected, e),
    }
}

/// The bytes that the description starts with, in a tag file or in its short
/// form, which must hold the expected state.
pub fn read_short(file: &Vec<u8>, expected: &Merkle) -> (r: Result<Vec<u8>, TagError>)
    ensures
        described(file@, *expected, r),
{
    match read_header(file, expected) {
        Ok(header) => Ok(read_following(file, header.header)),
        Err(e) => Err(e),
    }
}

/// The header of a tag file with a description of `n` bytes, and pages of `m`
/// bytes once compressed.
pub open spec fn full_header(offsets: DbOffsets, state: Merkle, n: nat, m: nat) -> FileHeader {
    FileHeader {
        version: VERSION,
        header: HEADER_SIZE,
        channel: (HEADER_SIZE + n) as u64,
        unhashed: (HEADER_SIZE + n + m) as u64,
        total: (HEADER_SIZE + n + m) as u64,
        offsets,
        state,
    }
}

/// A tag file with the given description and compressed pages.
pub open spec fn tag_file(
    offsets: DbOffsets,
    state: Merkle,
    description: Seq<u8>,
    out: Seq<u8>,
) -> Seq<u8> {
    header_bytes(full_header(offsets, state, description.len(), out.len())) + description + out
}

/// What making a tag file gives: its bytes, and the state that it is for.
pub open spec fn tagged(
    offsets: DbOffsets,
    state: Merkle,
    description: Seq<u8>,
    out: Seq<u8>,
    r: Result<(Vec<u8>, Merkle), TagError>,
) -> bool {
    r matches Ok((file, s)) && file@ == tag_file(offsets, state, description, out) && s == state
}

/// The bytes of a tag file, from the description of the tag, the compressed
/// pages and what is known of them, and the state of the channel, which is
/// given as well.
pub fn from_channel(
    offsets: DbOffsets,
    state: Merkle,
    header_buf: &Vec<u8>,
    out: &Vec<u8>,
) -> (r: Result<(Vec<u8>, Merkle), TagError>)
    requires
        HEADER_SIZE + header_buf@.len() + out@.len() <= u64::MAX,
    ensures
        tagged(offsets, state, header_buf@, out@, r),
{
    let mut off = FileHeader {
        version: VERSION,
        header: 0,
        channel: 0,
        unhashed: 0,
        total: 0,
        offsets,
        state,
    };
    off.header = off.size()?;
    off.channel = off.header + header_buf.len() as u64;
    off.unhashed = off.channel + out.len() as u64;
    off.total = off.unhashed;
    let mut file = off.to_bytes()?;
    file.extend_from_slice(header_buf);
    file.extend_from_slice(out);
    assert(file@ =~= tag_file(offsets, state, header_buf@, out@));
    Ok((file, off.state))
}

/// A tag file opens for the state that it was made for, with its own header,
/// and for no other state. What is read of it is the description, and then the
/// compressed pages.
pub proof fn law_tag_files_open(
    offsets: DbOffsets,
    state: Merkle,
    description: Seq<u8>,
    out: Seq<u8>,
    other: Merkle,
    read: FileHeader,
)
    requires
        READ_SIZE <= HEADER_SIZE + description.len() + out.len() <= u64::MAX,
    ensures
        ({
            let file = tag_file(offsets, state, description, out);
            let h = full_header(offsets, state, description.len(), out.len());
            &&& opens(file, other, read) <==> other == state && read == h
            &&& following(file, h.header) == description + out
            &&& packed_pages(file, h) == Some(out)
        }),
{
    let file = tag_file(offsets, state, description, out);
    let h = full_header(offsets, state, description.len(), out.len());
    lemma_header_len(h);
    assert(file =~= header_bytes(h) + (description + out));
    law_header_round_trip(h, description + out, read);
    assert(following(file, h.header) =~= description + out);
    if out.len() > 0 {
        assert(file.subrange(h.channel as int, h.channel + out.len()) =~= out);
    } else {
        assert(out =~= Seq::empty());
    }
}

/// The pages of a channel come back from a tag file as they were compressed.
pub proof fn law_pages_come_back(
    offsets: DbOffsets,
    state: Merkle,
    description: Seq<u8>,
    out: Seq<u8>,
    pages: Seq<u8>,
)
    requires
        READ_SIZE <= HEADER_SIZE + description.len() + out.len() <= u64::MAX,
        zstd::reads_back(out, pages),
        offsets.size == pages.len(),
    ensures
        ({
            let file = tag_file(offsets, state, description, out);
            let h = full_header(offsets, state, description.len(), out.len());
            &&& packed_pages(file, h) == Some(out)
            &&& zstd::seekable_ok(out)
            &&& unpacked_pages(out, h) == (Some(pages.len() as usize), pages)
        }),
{
    let h = full_header(offsets, state, description.len(), out.len());
    law_tag_files_open(offsets, state, description, out, state, h);
    let zeros = Seq::new(h.offsets.size as nat, |i: int| 0u8);
    assert(zeros.len() == pages.len());
    assert(pages.subrange(0, pages.len() as int) =~= pages);
    assert(zstd::decompressed(out, 0, zeros) == (Some(pages.len() as usize), pages));
}

/// Each page that was compressed comes back from a tag file at the offset of
/// its number.
pub proof fn law_each_page_comes_back(
    offsets: DbOffsets,
    state: Merkle,
    description: Seq<u8>,
    out: Seq<u8>,
    pages: Seq<Vec<u8>>,
    i: int,
)
    requires
        READ_SIZE <= HEADER_SIZE + description.len() + out.len() <= u64::MAX,
        forall|j: int| 0 <= j < pages.len() ==> (#[trigger] pages[j])@.len() == BLOCK_SIZE,
        zstd::reads_back(out, zstd::joined(pages)),
        offsets.size == BLOCK_SIZE * pages.len(),
        0 <= i < pages.len(),
    ensures
        ({
            let h = full_header(offsets, state, description.len(), out.len());
            unpacked_pages(out, h).1.subrange(BLOCK_SIZE * i, BLOCK_SIZE * i + BLOCK_SIZE)
                == pages[i]@
        }),
{
    zstd::law_pages_in_a_row(pages, i);
    law_pages_come_back(offsets, state, description, out, zstd::joined(pages));
}

/// The short form of a tag file opens for the same state, and the description
/// is read back from it, unless the short form has fewer bytes than are read
/// to get a header.
pub proof fn law_short_files_open(
    file: Seq<u8>,
    h: FileHeader,
    other: Merkle,
    read: FileHeader,
)
    requires
        h.header <= h.channel,
        section(file, h.header, (h.channel - h.header) as nat) is Some,
        READ_SIZE <= HEADER_SIZE + (h.channel - h.header) <= u64::MAX,
    ensures
        ({
            let n = (h.channel - h.header) as nat;
            let description = section(file, h.header, n)->0;
            let short = header_bytes(short_header(h.state, n)) + description;
            &&& opens(short, other, read) <==> other == h.state && read == short_header(h.state, n)
            &&& following(short, short_header(h.state, n).header) == description
        }),
{
    let n = (h.channel - h.header) as nat;
    let description = section(file, h.header, n)->0;
    let sh = short_header(h.state, n);
    let short = header_bytes(sh) + description;
    lemma_header_len(sh);
    law_header_round_trip(sh, description, read);
    assert(following(short, sh.header) =~= description);
}

/// The place of each field in the bytes of a header.
pub proof fn law_places_in_a_header(h: FileHeader)
    ensures
        ({
            let s = header_bytes(h);
            &&& s.len() == 148
            &&& s.subrange(0, 8) == bytes::le_bytes(h.version as nat, 8)
            &&& s.subrange(8, 16) == bytes::le_bytes(h.header as nat, 8)
            &&& s.subrange(16, 24) == bytes::le_bytes(h.channel as nat, 8)
            &&& s.subrange(24, 32) == bytes::le_bytes(h.unhashed as nat, 8)
            &&& s.subrange(32, 40) == bytes::le_bytes(h.total as nat, 8)
            &&& s.subrange(40, 48) == bytes::le_bytes(h.offsets.internal as nat, 8)
            &&& s.subrange(48, 56) == bytes::le_bytes(h.offsets.external as nat, 8)
            &&& s.subrange(56, 64) == bytes::le_bytes(h.offsets.graph as nat, 8)
            &&& s.subrange(64, 72) == bytes::le_bytes(h.offsets.changes as nat, 8)
            &&& s.subrange(72, 80) == bytes::le_bytes(h.offsets.revchanges as nat, 8)
            &&& s.subrange(80, 88) == bytes::le_bytes(h.offsets.states as nat, 8)
            &&& s.subrange(88, 96) == bytes::le_bytes(h.offsets.tags as nat, 8)
            &&& s.subrange(96, 104) == bytes::le_bytes(h.offsets.apply_counter as nat, 8)
            &&& s.subrange(104, 112) == bytes::le_bytes(h.offsets.size as nat, 8)
            &&& s.subrange(112, 116) == seq![0u8, 0u8, 0u8, 0u8]
            &&& s.subrange(116, 148) == h.state@
        }),
{
    let s = header_bytes(h);
    lemma_header_len(h);
    bytes::lemma_words_len(header_words(h));
    bytes::lemma_le_len(0, 4);
    lemma_word_of_a_header(h, 0);
    lemma_word_of_a_header(h, 1);
    lemma_word_of_a_header(h, 2);
    lemma_word_of_a_header(h, 3);
    lemma_word_of_a_header(h, 4);
    lemma_word_of_a_header(h, 5);
    lemma_word_of_a_header(h, 6);
    lemma_word_of_a_header(h, 7);
    lemma_word_of_a_header(h, 8);
    lemma_word_of_a_header(h, 9);
    lemma_word_of_a_header(h, 10);
    lemma_word_of_a_header(h, 11);
    lemma_word_of_a_header(h, 12);
    lemma_word_of_a_header(h, 13);
    let zeros = bytes::le_bytes(0, 4);
    reveal_with_fuel(bytes::le_bytes, 5);
    assert(zeros =~= seq![0u8, 0u8, 0u8, 0u8]);
    assert(s.subrange(112, 116) =~= zeros);
    assert(s.subrange(116, 148) =~= h.state@);
}

proof fn lemma_word_of_a_header(h: FileHeader, k: int)
    requires
        0 <= k < 14,
    ensures
        header_bytes(h).subrange(8 * k, 8 * k + 8) == bytes::le_bytes(
            header_words(h)[k] as nat,
            8,
        ),
{
    let w = header_words(h);
    bytes::law_words_in_a_row(w, k);
    assert(header_bytes(h).subrange(8 * k, 8 * k + 8) =~= bytes::words_bytes(w).subrange(
        8 * k,
        8 * k + 8,
    ));
}

/// Four bytes are read as 0 only if each of them is 0.
proof fn lemma_zero(s: Seq<u8>)
    requires
        s.len() == 4,
    ensures
        bytes::le_value(s) == 0 <==> s[0] == 0 && s[1] == 0 && s[2] == 0 && s[3] == 0,
{
    reveal_with_fuel(bytes::le_value, 5);
    assert(s.skip(1).skip(1) =~= s.skip(2));
    assert(s.skip(2).skip(1) =~= s.skip(3));
    assert(s.skip(3).skip(1) =~= Seq::empty());
}

/// A header is read field by field: each of them is the word at its place, and
/// the state is behind them, after four bytes that must be 0. Nothing else is
/// asked of the bytes.
pub proof fn law_fields_of_a_header(s: Seq<u8>, h: FileHeader)
    ensures
        starts_with_header(s, h) <==> {
            &&& s.len() >= 148
            &&& h.version == bytes::word_at(s, 0)
            &&& h.header == bytes::word_at(s, 1)
            &&& h.channel == bytes::word_at(s, 2)
            &&& h.unhashed == bytes::word_at(s, 3)
            &&& h.total == bytes::word_at(s, 4)
            &&& h.offsets.internal == bytes::word_at(s, 5)
            &&& h.offsets.external == bytes::word_at(s, 6)
            &&& h.offsets.graph == bytes::word_at(s, 7)
            &&& h.offsets.changes == bytes::word_at(s, 8)
            &&& h.offsets.revchanges == bytes::word_at(s, 9)
            &&& h.offsets.states == bytes::word_at(s, 10)
            &&& h.offsets.tags == bytes::word_at(s, 11)
            &&& h.offsets.apply_counter == bytes::word_at(s, 12)
            &&& h.offsets.size == bytes::word_at(s, 13)
            &&& s[112] == 0 && s[113] == 0 && s[114] == 0 && s[115] == 0
            &&& h.state@ == s.subrange(116, 148)
        },
{
    let w = header_words(h);
    let r = bytes::words_at(s, 14);
    if s.len() >= 148 {
        lemma_zero(s.subrange(112, 116));
    }
    if starts_with_header(s, h) {
        assert(w[0] == r[0] && w[1] == r[1] && w[2] == r[2] && w[3] == r[3] && w[4] == r[4]);
        assert(w[5] == r[5] && w[6] == r[6] && w[7] == r[7] && w[8] == r[8] && w[9] == r[9]);
        assert(w[10] == r[10] && w[11] == r[11] && w[12] == r[12] && w[13] == r[13]);
    }
    if s.len() >= 148 && h.version == bytes::word_at(s, 0) && h.header == bytes::word_at(s, 1)
        && h.channel == bytes::word_at(s, 2) && h.unhashed == bytes::word_at(s, 3) && h.total
        == bytes::word_at(s, 4) && h.offsets.internal == bytes::word_at(s, 5) && h.offsets.external
        == bytes::word_at(s, 6) && h.offsets.graph == bytes::word_at(s, 7) && h.offsets.changes
        == bytes::word_at(s, 8) && h.offsets.revchanges == bytes::word_at(s, 9)
        && h.offsets.states == bytes::word_at(s, 10) && h.offsets.tags == bytes::word_at(s, 11)
        && h.offsets.apply_counter == bytes::word_at(s, 12) && h.offsets.size == bytes::word_at(
        s,
        13,
    ) {
        assert(w =~= r);
    }
}

/// Opening a file gives a header exactly if it has the bytes for one, and some
/// more, and its state is the expected one. Otherwise the error says which of
/// these is missing.
pub proof fn law_opening(file: Seq<u8>, expected: Merkle, h: FileHeader, e: TagError)
    ensures
        opens(file, expected, h) <==> file.len() >= 272 && starts_with_header(file, h) && h.state@
            == expected@,
        opens(file, expected, h) ==> file.subrange(116, 148) == expected@,
        fails_to_open(file, expected, e) ==> {
            &&& !opens(file, expected, h)
            &&& match e {
                TagError::Io => file.len() < 272,
                TagError::BincodeDe => file.len() >= 272 && !(file[112] == 0 && file[113] == 0
                    && file[114] == 0 && file[115] == 0),
                TagError::WrongHash { expected: wanted, got } => {
                    &&& file.len() >= 272
                    &&& file[112] == 0 && file[113] == 0 && file[114] == 0 && file[115] == 0
                    &&& wanted@ == expected@
                    &&& got@ == file.subrange(116, 148)
                    &&& got@ != expected@
                },
                _ => false,
            }
        },
{
    law_fields_of_a_header(file, h);
    lemma_same_state(h.state, expected);
    if file.len() >= 148 {
        lemma_zero(file.subrange(112, 116));
    }
    if let TagError::WrongHash { expected: wanted, got } = e {
        lemma_same_state(got, expected);
    }
}

proof fn lemma_same_state(a: Merkle, b: Merkle)
    ensures
        a@ == b@ <==> a == b,
{
    let Merkle::Ed25519(p) = a;
    let Merkle::Ed25519(q) = b;
    if p@ == q@ {
        assert(p =~= q);
    }
}

/// What follows a place in a file is all that stands there, byte by byte.
pub proof fn law_rest_of_a_file(file: Seq<u8>, from: u64, i: int)
    ensures
        following(file, from).len() == (if from <= file.len() {
            file.len() - from
        } else {
            0
        }),
        0 <= i && from + i < file.len() ==> following(file, from)[i] == file[from + i],
{
}

/// What is read of a tag file, or of its short form, starts where the second
/// word of the file says, and goes on to the end. It is read exactly if the file
/// opens for the state.
pub proof fn law_descriptions(bytes: Vec<u8>, expected: Merkle, r: Result<Vec<u8>, TagError>)
    requires
        call_ensures(read_short, (&bytes, &expected), r),
    ensures
        ({
            let file = bytes@;
            &&& match r {
                Ok(s) => {
                    &&& file.len() >= 272
                    &&& file.subrange(116, 148) == expected@
                    &&& s@ == if bytes::word_at(file, 1) <= file.len() {
                        file.skip(bytes::word_at(file, 1) as int)
                    } else {
                        Seq::empty()
                    }
                },
                Err(e) => fails_to_open(file, expected, e),
            }
            &&& file.len() >= 272 && file[112] == 0 && file[113] == 0 && file[114] == 0
                && file[115] == 0 && file.subrange(116, 148) == expected@ ==> r is Ok
        }),
{
    let file = bytes@;
    match r {
        Ok(s) => {
            let h = choose|h: FileHeader| #[trigger]
                opens(file, expected, h) && s@ == following(file, h.header);
            law_fields_of_a_header(file, h);
        },
        Err(e) => {
            let any = FileHeader {
                version: 0,
                header: 0,
                channel: 0,
                unhashed: 0,
                total: 0,
                offsets: arbitrary(),
                state: expected,
            };
            law_opening(file, expected, any, e);
        },
    }
}

/// The bytes of a tag file: its header, with where each part starts and ends,
/// where the tables are, and the state that it is for, then the description, and
/// then the compressed pages.
pub proof fn law_bytes_of_a_tag_file(
    offsets: DbOffsets,
    state: Merkle,
    header_buf: Vec<u8>,
    packed: Vec<u8>,
    r: Result<(Vec<u8>, Merkle), TagError>,
)
    requires
        148 + header_buf@.len() + packed@.len() <= u64::MAX,
        call_ensures(from_channel, (offsets, state, &header_buf, &packed), r),
    ensures
        r matches Ok((file, m)) && {
            let description = header_buf@;
            let out = packed@;
            &&& m@ == state@
            &&& file@.len() == 148 + description.len() + out.len()
            &&& bytes::word_at(file@, 0) == 7
            &&& bytes::word_at(file@, 1) == 148
            &&& bytes::word_at(file@, 2) == 148 + description.len()
            &&& bytes::word_at(file@, 3) == file@.len()
            &&& bytes::word_at(file@, 4) == file@.len()
            &&& bytes::word_at(file@, 5) == offsets.internal
            &&& bytes::word_at(file@, 6) == offsets.external
            &&& bytes::word_at(file@, 7) == offsets.graph
            &&& bytes::word_at(file@, 8) == offsets.changes
            &&& bytes::word_at(file@, 9) == offsets.revchanges
            &&& bytes::word_at(file@, 10) == offsets.states
            &&& bytes::word_at(file@, 11) == offsets.tags
            &&& bytes::word_at(file@, 12) == offsets.apply_counter
            &&& bytes::word_at(file@, 13) == offsets.size
            &&& file@[112] == 0 && file@[113] == 0 && file@[114] == 0 && file@[115] == 0
            &&& file@.subrange(116, 148) == state@
            &&& file@.subrange(148, 148 + description.len() as int) == description
            &&& file@.skip(148 + description.len() as int) == out
        },
{
    let description = header_buf@;
    let out = packed@;
    let h = full_header(offsets, state, description.len(), out.len());
    let file = r->Ok_0.0@;
    lemma_header_len(h);
    assert(file =~= header_bytes(h) + (description + out));
    law_header_round_trip(h, description + out, h);
    law_fields_of_a_header(file, h);
    assert(file.subrange(148, 148 + description.len() as int) =~= description);
    assert(file.skip(148 + description.len() as int) =~= out);
}

/// The bytes of the short form of a tag file: a header of the same version and
/// for the same state, without pages and tables, and then the description, as it
/// stands in the file. There is none if the file ends before its description.
pub proof fn law_bytes_of_a_short_file(
    t: OpenTagFile,
    r: Result<Vec<u8>, TagError>,
)
    requires
        t.header.header <= t.header.channel,
        t.file@.len() + 148 <= u64::MAX,
        call_ensures(OpenTagFile::short, (&t,), r),
    ensures
        r is Err <==> t.header.header < t.header.channel && t.file@.len() < t.header.channel,
        r matches Err(e) ==> e == TagError::Io,
        r matches Ok(out) ==> {
            &&& out@.len() == 148 + (t.header.channel - t.header.header)
            &&& bytes::word_at(out@, 0) == 7
            &&& bytes::word_at(out@, 1) == 148
            &&& bytes::word_at(out@, 2) == out@.len()
            &&& bytes::word_at(out@, 3) == 0
            &&& bytes::word_at(out@, 4) == out@.len()
            &&& forall|k: int| 5 <= k < 14 ==> #[trigger] bytes::word_at(out@, k) == 0
            &&& out@[112] == 0 && out@[113] == 0 && out@[114] == 0 && out@[115] == 0
            &&& out@.subrange(116, 148) == t.header.state@
            &&& forall|i: int|
                0 <= i < t.header.channel - t.header.header ==> #[trigger] out@[148 + i]
                    == t.file@[t.header.header + i]
        },
{
    let h = t.header;
    let file = t.file@;
    if let Ok(out) = r {
        let n = (h.channel - h.header) as nat;
        let sh = short_header(h.state, n);
        let description = section(file, h.header, n)->0;
        lemma_header_len(sh);
        law_header_round_trip(sh, description, sh);
        law_fields_of_a_header(out@, sh);
        assert forall|k: int| 5 <= k < 14 implies #[trigger] bytes::word_at(out@, k) == 0 by {
            assert(header_words(sh)[k] == bytes::words_at(out@, 14)[k]);
        }
    }
}

/// A short file opens for the state of its tag file, with a header that says
/// what the file holds.
pub proof fn law_short_headers(
    t: OpenTagFile,
    short: Vec<u8>,
    expected: Merkle,
    opened: OpenTagFile,
)
    requires
        t.header.header <= t.header.channel,
        t.file@.len() + 148 <= u64::MAX,
        call_ensures(OpenTagFile::short, (&t,), Ok(short)),
        call_ensures(OpenTagFile::open, (short, &expected), Ok(opened)),
    ensures
        expected@ == t.header.state@,
        opened.header.version == 7,
        opened.header.header == 148,
        opened.header.channel == short@.len(),
        opened.header.unhashed == 0,
        opened.header.total == short@.len(),
        opened.header.offsets == (DbOffsets {
            internal: 0,
            external: 0,
            graph: 0,
            changes: 0,
            revchanges: 0,
            states: 0,
            tags: 0,
            apply_counter: 0,
            size: 0,
        }),
{
    law_bytes_of_a_short_file(t, Ok(short));
    law_fields_of_a_header(short@, opened.header);
}

/// Decompressing the pages of a tag file gives back what was compressed, as far
/// as the header says that there are pages. It fails to read them exactly if the
/// file ends before they do.
pub proof fn law_unpacking(
    t: OpenTagFile,
    data: Seq<u8>,
    r: Result<Unpacked, TagError>,
)
    requires
        t.header.channel <= t.header.unhashed,
        t.header.offsets.size <= usize::MAX,
        call_ensures(OpenTagFile::unpack, (&t,), r),
    ensures
        (r matches Err(e) && e == TagError::Io) <==> t.header.channel < t.header.unhashed && t.file@.len()
            < t.header.unhashed,
        ({
            let packed = if t.header.channel < t.header.unhashed {
                t.file@.subrange(t.header.channel as int, t.header.unhashed as int)
            } else {
                Seq::empty()
            };
            let zeros = Seq::new(t.header.offsets.size as nat, |i: int| 0u8);
            let out = zstd::decompressed(packed, 0, zeros);
            t.header.channel == t.header.unhashed || t.header.unhashed <= t.file@.len() ==> if zstd::seekable_ok(packed) {
                &&& r matches Ok(u)
                &&& u.pages@ == out.1
                &&& out.0 matches Some(n) ==> u.read == Ok::<usize, zstd_seekable::Error>(n)
                &&& out.0 is None ==> u.read is Err
            } else {
                r matches Err(e) && e is Zstd
            }
        }),
        t.header.channel < t.header.unhashed <= t.file@.len() && zstd::reads_back(
            t.file@.subrange(t.header.channel as int, t.header.unhashed as int),
            data,
        ) && t.header.offsets.size <= data.len() ==> {
            &&& r matches Ok(u)
            &&& u.read == Ok::<usize, zstd_seekable::Error>(t.header.offsets.size as usize)
            &&& u.pages@ == data.take(t.header.offsets.size as int)
        },
{
    let h = t.header;
    let file = t.file@;
    if h.channel < h.unhashed <= file.len() {
        let packed = file.subrange(h.channel as int, h.unhashed as int);
        assert(packed_pages(file, h) == Some(packed));
        if zstd::reads_back(packed, data) && h.offsets.size <= data.len() {
            let zeros = Seq::new(h.offsets.size as nat, |i: int| 0u8);
            assert(zstd::decompressed(packed, 0, zeros) == (
                Some(zeros.len() as usize),
                data.subrange(0, zeros.len() as int),
            ));
            assert(data.subrange(0, zeros.len() as int) =~= data.take(h.offsets.size as int));
        }
    }
}

/// A state is its point, and a text that may be missing says what it says when
/// it is there.
pub proof fn law_views(point: [u8; 32], text: String)
    ensures
        Merkle::Ed25519(point)@ == point@,
        text_of(Some(text)) == Some(text@),
        text_of(None) is None,
{
}

/// Reading a header gives each field from its place, and fails exactly if there
/// are too few bytes, or the number of the variant is not 0.
pub proof fn law_headers_are_read(s: &[u8], r: Result<FileHeader, TagError>)
    requires
        call_ensures(FileHeader::from_bytes, (s,), r),
    ensures
        r is Ok <==> s@.len() >= 148 && s@[112] == 0 && s@[113] == 0 && s@[114] == 0 && s@[115]
            == 0,
        r matches Err(e) ==> e == TagError::BincodeDe,
        r matches Ok(h) ==> {
            &&& h.version == bytes::word_at(s@, 0)
            &&& h.header == bytes::word_at(s@, 1)
            &&& h.channel == bytes::word_at(s@, 2)
            &&& h.unhashed == bytes::word_at(s@, 3)
            &&& h.total == bytes::word_at(s@, 4)
            &&& h.offsets.internal == bytes::word_at(s@, 5)
            &&& h.offsets.external == bytes::word_at(s@, 6)
            &&& h.offsets.graph == bytes::word_at(s@, 7)
            &&& h.offsets.changes == bytes::word_at(s@, 8)
            &&& h.offsets.revchanges == bytes::word_at(s@, 9)
            &&& h.offsets.states == bytes::word_at(s@, 10)
            &&& h.offsets.tags == bytes::word_at(s@, 11)
            &&& h.offsets.apply_counter == bytes::word_at(s@, 12)
            &&& h.offsets.size == bytes::word_at(s@, 13)
            &&& h.state@ == s@.subrange(116, 148)
        },
{
    if let Ok(h) = r {
        law_fields_of_a_header(s@, h);
    }
    if s@.len() >= 148 {
        lemma_zero(s@.subrange(112, 116));
    }
}

/// A header is written so that each field is read from its place again.
pub proof fn law_headers_are_written(
    h: FileHeader,
    r: Result<Vec<u8>, TagError>,
    size: Result<u64, TagError>,
)
    requires
        call_ensures(FileHeader::to_bytes, (&h,), r),
        call_ensures(FileHeader::size, (&h,), size),
    ensures
        size == Ok::<u64, TagError>(148),
        r matches Ok(s) && {
            &&& s@.len() == 148
            &&& h.version == bytes::word_at(s@, 0)
            &&& h.header == bytes::word_at(s@, 1)
            &&& h.channel == bytes::word_at(s@, 2)
            &&& h.unhashed == bytes::word_at(s@, 3)
            &&& h.total == bytes::word_at(s@, 4)
            &&& h.offsets.internal == bytes::word_at(s@, 5)
            &&& h.offsets.external == bytes::word_at(s@, 6)
            &&& h.offsets.graph == bytes::word_at(s@, 7)
            &&& h.offsets.changes == bytes::word_at(s@, 8)
            &&& h.offsets.revchanges == bytes::word_at(s@, 9)
            &&& h.offsets.states == bytes::word_at(s@, 10)
            &&& h.offsets.tags == bytes::word_at(s@, 11)
            &&& h.offsets.apply_counter == bytes::word_at(s@, 12)
            &&& h.offsets.size == bytes::word_at(s@, 13)
            &&& s@.subrange(112, 116) == seq![0u8, 0u8, 0u8, 0u8]
            &&& s@.subrange(116, 148) == h.state@
        },
{
    let s = r->Ok_0@;
    law_places_in_a_header(h);
    law_header_round_trip(h, Seq::empty(), h);
    assert(header_bytes(h) + Seq::<u8>::empty() =~= s);
    law_fields_of_a_header(s, h);
}

/// Opening a tag file keeps its bytes, and reads its header. It must hold the
/// expected state.
pub proof fn law_opened_files(
    file: Vec<u8>,
    expected: Merkle,
    r: Result<OpenTagFile, TagError>,
)
    requires
        call_ensures(OpenTagFile::open, (file, &expected), r),
    ensures
        r is Ok <==> file@.len() >= 272 && file@[112] == 0 && file@[113] == 0 && file@[114] == 0
            && file@[115] == 0 && file@.subrange(116, 148) == expected@,
        r matches Err(e) ==> match e {
            TagError::Io => file@.len() < 272,
            TagError::BincodeDe => file@.len() >= 272 && !(file@[112] == 0 && file@[113] == 0
                && file@[114] == 0 && file@[115] == 0),
            TagError::WrongHash { expected: wanted, got } => {
                &&& file@.len() >= 272
                &&& wanted@ == expected@
                &&& got@ == file@.subrange(116, 148)
                &&& got@ != expected@
            },
            _ => false,
        },
        r matches Ok(t) ==> {
            let h = t.header;
            &&& t.file@ == file@
            &&& h.version == bytes::word_at(file@, 0)
            &&& h.header == bytes::word_at(file@, 1)
            &&& h.channel == bytes::word_at(file@, 2)
            &&& h.unhashed == bytes::word_at(file@, 3)
            &&& h.total == bytes::word_at(file@, 4)
            &&& h.offsets.internal == bytes::word_at(file@, 5)
            &&& h.offsets.external == bytes::word_at(file@, 6)
            &&& h.offsets.graph == bytes::word_at(file@, 7)
            &&& h.offsets.changes == bytes::word_at(file@, 8)
            &&& h.offsets.revchanges == bytes::word_at(file@, 9)
            &&& h.offsets.states == bytes::word_at(file@, 10)
            &&& h.offsets.tags == bytes::word_at(file@, 11)
            &&& h.offsets.apply_counter == bytes::word_at(file@, 12)
            &&& h.offsets.size == bytes::word_at(file@, 13)
            &&& h.state@ == expected@
        },
{
    match r {
        Ok(t) => {
            law_fields_of_a_header(file@, t.header);
        },
        Err(e) => {
            law_opening(file@, expected, arbitrary(), e);
        },
    }
    if file@.len() >= 148 {
        lemma_zero(file@.subrange(112, 116));
    }
}

/// What is read of an open tag file is what stands in it from the start of the
/// description on, and its state is that of its header.
pub proof fn law_reading_a_tag(t: OpenTagFile, r: Vec<u8>, state: Merkle)
    requires
        call_ensures(OpenTagFile::header, (&t,), r),
        call_ensures(OpenTagFile::state, (&t,), state),
    ensures
        r@.len() == (if t.header.header <= t.file@.len() {
            t.file@.len() - t.header.header
        } else {
            0
        }),
        forall|i: int|
            0 <= i < r@.len() ==> #[trigger] r@[i] == t.file@[t.header.header + i],
        state@ == t.header.state@,
{
}

/// Two states are the same exactly if their bytes are.
pub proof fn law_same_states(a: Merkle, b: Merkle, r: bool)
    requires
        call_ensures(Merkle::same, (&a, &b), r),
    ensures
        r <==> a@ == b@,
{
}

/// What is said of an error, with both states where they differ. What another
/// library says of its own errors is left to it. Offsets are all 0 at first.
pub proof fn law_messages_and_defaults(
    e: TagError,
    expected: &str,
    got: &str,
    r: Option<String>,
    o: DbOffsets,
)
    requires
        call_ensures(TagError::message, (&e, expected, got), r),
        call_ensures(DbOffsets::default, (), o),
    ensures
        match e {
            TagError::VersionMismatch => r matches Some(s) && s@ == "Version mismatch"@,
            TagError::BincodeDe => r matches Some(s) && s@ == "Tag file is corrupt"@,
            TagError::Sync => r matches Some(s) && s@ == "Synchronisation error"@,
            TagError::WrongHash { .. } => r matches Some(s) && s@ == "Wrong state, expected "@
                + expected@ + ", got "@ + got@,
            TagError::Io => r is None,
            TagError::Bincode(_) => r is None,
            TagError::Zstd(_) => r is None,
            TagError::Txn => r is None,
        },
        o.internal == 0 && o.external == 0 && o.graph == 0 && o.changes == 0 && o.revchanges == 0,
        o.states == 0 && o.tags == 0 && o.apply_counter == 0 && o.size == 0,
{
}

} // verus!

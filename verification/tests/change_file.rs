use pijul::change_file::{
    is_hashed_in_place, is_unhashed_in_place, read_hashed, read_offsets, ChangeError, ChangeFile,
    OffFile, SeekFrom, Versions,
};
use pijul::entry::SerializedHash;
use std::io::{Cursor, Read, Seek};

const VERSIONS: Versions = Versions { current: 6, noenc: 4 };
const HASH: SerializedHash = SerializedHash([3; 33]);

fn packed(data: &[u8]) -> Vec<u8> {
    let mut c = zstd_seekable::SeekableCStream::new(10, 256).unwrap();
    let mut out = Vec::new();
    let mut buf = [0; 4096];
    let mut done = 0;
    while done < data.len() {
        let (a, b) = c.compress(&mut buf, &data[done..]).unwrap();
        out.extend_from_slice(&buf[..a]);
        done += b;
    }
    loop {
        let n = c.end_stream(&mut buf).unwrap();
        if n == 0 {
            return out;
        }
        out.extend_from_slice(&buf[..n]);
    }
}

fn file(version: u64, hashed: &[u8], unhashed: Option<&[u8]>, contents: Option<&[u8]>) -> Vec<u8> {
    let h = packed(hashed);
    let u = unhashed.map(packed).unwrap_or_default();
    let c = contents.map(packed).unwrap_or_default();
    let unhashed_off = 56 + h.len() as u64;
    let contents_off = unhashed_off + u.len() as u64;
    let words = [
        version,
        hashed.len() as u64,
        unhashed_off,
        unhashed.map(|u| u.len()).unwrap_or(0) as u64,
        contents_off,
        contents.map(|c| c.len()).unwrap_or(0) as u64,
        contents_off + c.len() as u64,
    ];
    let mut out = Vec::new();
    for w in words {
        out.extend_from_slice(&w.to_le_bytes());
    }
    out.extend_from_slice(&h);
    out.extend_from_slice(&u);
    out.extend_from_slice(&c);
    out
}

#[test]
fn offsets_are_little_endian() {
    let f = file(6, b"hashed", None, None);
    let o = read_offsets(&f).unwrap();
    assert_eq!(o.version, 6);
    assert_eq!(o.hashed_len, 6);
    assert_eq!(o.unhashed_len, 0);
    assert_eq!(o.unhashed_off, o.contents_off);
    assert_eq!(o.total, f.len() as u64);
    assert!(is_hashed_in_place(&o) && is_unhashed_in_place(&o));
    assert!(read_offsets(&f[..55]).is_none());
}

#[test]
fn change_files_open() {
    let contents: Vec<u8> = (0..1000).map(|i| (i % 7) as u8).collect();
    let f = file(6, b"the hashed part", Some(b"{\"key\": \"value\"}"), Some(&contents));
    let c = ChangeFile::open(HASH, &f, &VERSIONS).ok().unwrap();
    assert_eq!(c.hashed(), b"the hashed part");
    let u = c.unhashed().as_ref().unwrap();
    assert_eq!(u["key"].as_str(), Some("value"));
    assert!(c.has_contents());
    let mut buf = vec![0; 1000];
    assert_eq!(c.read_contents(0, &mut buf).ok().unwrap(), 1000);
    assert_eq!(buf, contents);
    let mut buf = vec![0; 10];
    assert_eq!(c.read_contents(300, &mut buf).ok().unwrap(), 10);
    assert_eq!(&buf[..], &contents[300..310]);
    // Fewer bytes are read at the end, and the rest of the buffer stays.
    let mut buf = vec![9; 10];
    assert_eq!(c.read_contents(995, &mut buf).ok().unwrap(), 5);
    assert_eq!(&buf[..5], &contents[995..]);
    assert_eq!(&buf[5..], &[9; 5]);
}

#[test]
fn older_change_files_open() {
    let f = file(4, b"abc", None, Some(b"contents"));
    let h = read_hashed(&f, &VERSIONS).ok().unwrap();
    assert!(h.noenc);
    assert_eq!(h.bytes, b"abc");
    let c = ChangeFile::open_rest(HASH, &f, h).ok().unwrap();
    assert!(c.unhashed().is_none());
    assert!(c.has_contents());
    assert!(!read_hashed(&file(6, b"abc", None, None), &VERSIONS).ok().unwrap().noenc);
}

#[test]
fn contents_can_be_missing() {
    let f = file(6, b"abc", Some(b"{}"), None);
    let c = ChangeFile::open(HASH, &f, &VERSIONS).ok().unwrap();
    assert!(!c.has_contents());
    let mut buf = vec![1, 2];
    match c.read_contents(0, &mut buf) {
        Err(ChangeError::MissingContents { hash }) => assert_eq!(hash.0, HASH.0),
        _ => panic!("read contents that are missing"),
    }
    assert_eq!(buf, vec![1, 2]);
}

#[test]
fn unreadable_unhashed_parts_are_dropped() {
    let f = file(6, b"abc", Some(b"not json"), None);
    let c = ChangeFile::open(HASH, &f, &VERSIONS).ok().unwrap();
    assert!(c.unhashed().is_none());
}

#[test]
fn change_files_that_do_not_open() {
    let f = file(6, b"abc", Some(b"{}"), Some(b"contents"));
    assert!(matches!(
        ChangeFile::open(HASH, &f[..40].to_vec(), &VERSIONS),
        Err(ChangeError::Io)
    ));
    assert!(matches!(
        ChangeFile::open(HASH, &f[..60].to_vec(), &VERSIONS),
        Err(ChangeError::Io)
    ));
    let o = read_offsets(&f).unwrap();
    let cut = f[..o.contents_off as usize - 1].to_vec();
    assert!(matches!(ChangeFile::open(HASH, &cut, &VERSIONS), Err(ChangeError::Io)));
    let cut = f[..f.len() - 1].to_vec();
    assert!(matches!(ChangeFile::open(HASH, &cut, &VERSIONS), Err(ChangeError::Zstd(_))));
    assert!(matches!(
        ChangeFile::open(HASH, &file(5, b"abc", None, None), &VERSIONS),
        Err(ChangeError::VersionMismatch { got: 5 })
    ));
    let mut bad = f.clone();
    bad[o.unhashed_off as usize - 1] ^= 1;
    assert!(matches!(ChangeFile::open(HASH, &bad, &VERSIONS), Err(ChangeError::Zstd(_))));
}

#[test]
fn parts_must_be_in_order() {
    let mut o = read_offsets(&file(6, b"abc", None, None)).unwrap();
    o.unhashed_off = 55;
    assert!(!is_hashed_in_place(&o));
    assert!(is_unhashed_in_place(&o));
    o.unhashed_off = o.contents_off + 1;
    assert!(is_hashed_in_place(&o));
    assert!(!is_unhashed_in_place(&o));
}

#[test]
fn parts_are_looked_at_when_they_are_needed() {
    let f = file(6, b"abc", None, Some(b"contents"));
    let with = |i: usize, word: u64, mut f: Vec<u8>| {
        f[8 * i..8 * i + 8].copy_from_slice(&word.to_le_bytes());
        f
    };
    let open = |f: &Vec<u8>| ChangeFile::open_in_place(HASH, f, &VERSIONS);
    assert!(matches!(open(&f), Ok(Some(_))));
    assert!(matches!(open(&with(2, 55, f.clone())), Ok(None)));
    let before = with(4, 60, f.clone());
    assert!(matches!(open(&before), Ok(None)));
    // A hashed part that is cut off or corrupt comes first.
    assert!(matches!(open(&before[..60].to_vec()), Err(ChangeError::Io)));
    assert!(matches!(read_hashed(&before[..60].to_vec(), &VERSIONS), Err(ChangeError::Io)));
    let o = read_offsets(&f).unwrap();
    let mut bad = before.clone();
    bad[o.unhashed_off as usize - 1] ^= 1;
    assert!(matches!(open(&bad), Err(ChangeError::Zstd(_))));
    // So does a version that cannot be read.
    let other = with(0, 5, before);
    assert!(matches!(open(&other), Err(ChangeError::VersionMismatch { got: 5 })));
    assert!(matches!(open(&f[..10].to_vec()), Err(ChangeError::Io)));
}

#[test]
fn every_range_of_the_contents_comes_back() {
    let contents: Vec<u8> = (0..700).map(|i| (i * i % 251) as u8).collect();
    let f = file(6, b"abc", None, Some(&contents));
    let c = ChangeFile::open(HASH, &f, &VERSIONS).ok().unwrap();
    for from in [0, 1, 255, 256, 257, 511, 699, 700] {
        for n in [0, 1, 2, 256, 300] {
            if from + n <= 700 {
                let mut buf = vec![0xee; n];
                assert_eq!(c.read_contents(from as u64, &mut buf).ok().unwrap(), n);
                assert_eq!(&buf[..], &contents[from..from + n]);
            }
        }
    }
}

#[test]
fn parts_of_files() {
    let f = OffFile { start: 100 };
    assert_eq!(f.seek(SeekFrom::Start(5)), SeekFrom::Start(105));
    assert_eq!(f.seek(SeekFrom::End(-5)), SeekFrom::End(-5));
    assert_eq!(f.seek(SeekFrom::Current(5)), SeekFrom::Current(5));
}

#[test]
fn contents_are_a_part_of_the_file() {
    let f = file(6, b"abc", None, Some(b"contents"));
    let o = read_offsets(&f).unwrap();
    let part = OffFile { start: o.contents_off };
    let c = packed(b"contents");
    for (i, b) in c.iter().enumerate() {
        match part.seek(SeekFrom::Start(i as u64)) {
            SeekFrom::Start(place) => assert_eq!(f[place as usize], *b),
            _ => panic!("another kind of place"),
        }
    }
    assert_eq!(part.seek(SeekFrom::End(-3)), SeekFrom::End(-3));
    assert_eq!(c[c.len() - 3..], f[f.len() - 3..]);
}

#[test]
fn missing_contents_are_missing_everywhere() {
    let f = file(6, b"hashed", None, None);
    let c = ChangeFile::open(HASH, &f, &VERSIONS).ok().unwrap();
    for offset in [0, 5, u64::MAX] {
        for n in [0, 1, 7] {
            let mut buf = vec![9; n];
            let r = c.read_contents(offset, &mut buf);
            assert!(matches!(r, Err(ChangeError::MissingContents { hash }) if hash.0 == HASH.0));
            assert_eq!(buf, vec![9; n]);
        }
    }
}

#[test]
fn hashed_parts_must_be_decoded() {
    let f = file(6, b"hashed", None, Some(b"contents"));
    let part = read_hashed(&f, &VERSIONS).ok().unwrap();
    let r = ChangeFile::open_decoded(HASH, &f, part, false);
    assert!(matches!(r, Err(ChangeError::Bincode)));
    let part = read_hashed(&f, &VERSIONS).ok().unwrap();
    let c = ChangeFile::open_decoded(HASH, &f, part, true).ok().unwrap();
    assert_eq!(c.hashed(), b"hashed");
    assert!(c.has_contents());
}

/// A part of a file, from `start` on. Places from the end are those of the
/// whole file.
struct Part {
    f: Cursor<Vec<u8>>,
    start: u64,
}

impl Read for Part {
    fn read(&mut self, buf: &mut [u8]) -> Result<usize, std::io::Error> {
        self.f.read(buf)
    }
}

impl Seek for Part {
    fn seek(&mut self, from: std::io::SeekFrom) -> Result<u64, std::io::Error> {
        self.f.seek(match from {
            std::io::SeekFrom::Start(s) => std::io::SeekFrom::Start(s + self.start),
            c => c,
        })
    }
}

/// A change file whose contents start inside the table of frames at its end,
/// with `contents` there, and the size that the first frame has by the table.
fn contents_in_the_table(contents: impl Fn(u8) -> Vec<u8>) -> (Vec<u8>, u64, u8) {
    let h = packed(b"hashed");
    // The table of the hashed part has one frame, and is among the entries of
    // the last table.
    let entry = if h[h.len() - 5] & 128 != 0 { 12 } else { 8 };
    let (frames, table) = h.split_at(h.len() - 17 - entry);
    let size = table[4];
    let contents = contents(size);
    let mut entries = table.to_vec();
    entries.extend_from_slice(&contents);
    while entries.len() % 8 != 0 {
        entries.push(0);
    }
    let n = (entries.len() / 8) as u32;
    let off = (56 + frames.len() + 8 + table.len()) as u64;
    let mut f = Vec::new();
    for w in [6, 6, off, 0, off, contents.len() as u64, 0] {
        f.extend_from_slice(&w.to_le_bytes());
    }
    f.extend_from_slice(frames);
    f.extend_from_slice(&[0x5e, 0x2a, 0x4d, 0x18]);
    f.extend_from_slice(&(8 * n + 9).to_le_bytes());
    f.extend_from_slice(&entries);
    f.extend_from_slice(&n.to_le_bytes());
    f.extend_from_slice(&[0, 0xb1, 0xea, 0x92, 0x8f]);
    (f, off, size)
}

#[test]
fn contents_can_start_inside_the_table() {
    // Contents that are no frame.
    let (f, off, _) = contents_in_the_table(|_| vec![0; 7]);
    let c = ChangeFile::open(HASH, &f, &VERSIONS).ok().unwrap();
    assert_eq!(c.hashed(), b"hashed");
    assert!(c.has_contents());
    let on_file = || {
        let part = Part { f: Cursor::new(f.clone()), start: off };
        zstd_seekable::Seekable::init(Box::new(part)).ok().unwrap()
    };
    assert!(on_file().decompress(&mut [0; 3], 0).is_err());
    assert!(matches!(c.read_contents(0, &mut vec![0; 3]), Err(ChangeError::Zstd(_))));
    // A frame with one block of bytes as they are, as long as the table says.
    let data = |n: u8| (b'a'..b'a' + n).collect::<Vec<u8>>();
    let (f, off, size) = contents_in_the_table(|n| {
        let mut frame = vec![0x28, 0xb5, 0x2f, 0xfd, 0x20, n, n << 3 | 1, 0, 0];
        frame.extend(data(n));
        frame
    });
    let c = ChangeFile::open(HASH, &f, &VERSIONS).ok().unwrap();
    let part = Part { f: Cursor::new(f.clone()), start: off };
    let mut on_file = zstd_seekable::Seekable::init(Box::new(part)).ok().unwrap();
    let mut expected = vec![0; size as usize];
    assert_eq!(on_file.decompress(&mut expected, 0).ok().unwrap(), size as usize);
    let mut buf = vec![0; size as usize];
    assert_eq!(c.read_contents(0, &mut buf).ok().unwrap(), size as usize);
    assert_eq!(buf, expected);
    assert_eq!(buf, data(size));
    // A last table that is none.
    let mut f = f;
    let n = f.len();
    f[n - 1] ^= 1;
    assert!(matches!(ChangeFile::open(HASH, &f, &VERSIONS), Err(ChangeError::Zstd(_))));
}

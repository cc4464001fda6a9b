use pijul::pages::BLOCK_SIZE;
use pijul::tag::{
    from_channel, read_short, DbOffsets, FileHeader, Merkle, OpenTagFile, TagError, HEADER_SIZE,
    READ_SIZE, VERSION, VERSION_NOENC,
};
use pijul::zstd::{
    after_compress, after_end, compress_pages, load_page, CompressError, Ended, Outcome,
    PageCompressor, Progress,
};

fn offsets(size: u64) -> DbOffsets {
    DbOffsets {
        internal: 1,
        external: 2,
        graph: 3,
        changes: 4,
        revchanges: 5,
        states: 6,
        tags: 7,
        apply_counter: 8,
        size,
    }
}

fn state(b: u8) -> Merkle {
    Merkle::Ed25519([b; 32])
}

fn pages(n: usize) -> Vec<Vec<u8>> {
    (0..n)
        .map(|p| (0..BLOCK_SIZE).map(|i| ((i / 16) * (p + 3) % 251) as u8).collect())
        .collect()
}

fn noise(n: usize, mut x: u64) -> Vec<Vec<u8>> {
    (0..n)
        .map(|_| {
            (0..BLOCK_SIZE)
                .map(|_| {
                    x = x.wrapping_mul(6364136223846793005).wrapping_add(1442695040888963407);
                    (x >> 33) as u8
                })
                .collect()
        })
        .collect()
}

#[test]
fn versions() {
    assert_eq!(VERSION, 7);
    assert_eq!(VERSION_NOENC, 5);
}

#[test]
fn headers_are_little_endian() {
    let h = FileHeader {
        version: 7,
        header: 148,
        channel: 0x0102,
        unhashed: 0,
        total: 0xff00000000000000,
        offsets: offsets(9),
        state: state(0xab),
    };
    let s = h.to_bytes().ok().unwrap();
    assert_eq!(s.len() as u64, HEADER_SIZE);
    assert_eq!(h.size().ok().unwrap(), 148);
    assert_eq!(&s[0..8], &[7, 0, 0, 0, 0, 0, 0, 0]);
    assert_eq!(&s[16..24], &[2, 1, 0, 0, 0, 0, 0, 0]);
    assert_eq!(&s[32..40], &[0, 0, 0, 0, 0, 0, 0, 0xff]);
    assert_eq!(&s[104..112], &[9, 0, 0, 0, 0, 0, 0, 0]);
    assert_eq!(&s[112..116], &[0, 0, 0, 0]);
    assert_eq!(&s[116..148], &[0xab; 32]);
}

#[test]
fn headers_round_trip() {
    let h = FileHeader {
        version: 1,
        header: 2,
        channel: 3,
        unhashed: 4,
        total: u64::MAX,
        offsets: offsets(77),
        state: state(5),
    };
    let mut s = h.to_bytes().ok().unwrap();
    s.extend_from_slice(b"whatever");
    let r = FileHeader::from_bytes(&s).ok().unwrap();
    assert_eq!((r.version, r.header, r.channel, r.unhashed, r.total), (1, 2, 3, 4, u64::MAX));
    assert_eq!((r.offsets.internal, r.offsets.tags, r.offsets.size), (1, 7, 77));
    assert!(r.state.same(&state(5)));
    assert!(!r.state.same(&state(6)));
    s[112] = 1;
    assert!(matches!(FileHeader::from_bytes(&s), Err(TagError::BincodeDe)));
    assert!(matches!(FileHeader::from_bytes(&s[..147]), Err(TagError::BincodeDe)));
}

#[test]
fn tag_files_open() {
    let description = vec![1u8; 200];
    let (file, s) = from_channel(offsets(0), state(9), &description, &vec![2, 3, 4]).ok().unwrap();
    assert!(s.same(&state(9)));
    assert_eq!(file.len(), 148 + 200 + 3);
    let t = OpenTagFile::open(file.clone(), &state(9)).ok().unwrap();
    assert!(t.state().same(&state(9)));
    assert_eq!(
        (t.header.version, t.header.header, t.header.channel, t.header.unhashed, t.header.total),
        (7, 148, 348, 351, 351)
    );
    let d = t.header();
    assert_eq!(&d[..200], &description[..]);
    assert_eq!(&d[200..], &[2, 3, 4]);
    match OpenTagFile::open(file, &state(8)) {
        Err(TagError::WrongHash { expected, got }) => {
            assert!(expected.same(&state(8)));
            assert!(got.same(&state(9)));
        }
        _ => panic!("opened for another state"),
    }
}

#[test]
fn tags_of_one_channel_give_one_state() {
    let tag = |description: &Vec<u8>, out: &Vec<u8>| {
        from_channel(offsets(7), state(3), description, out).ok().unwrap()
    };
    let (first, a) = tag(&vec![1; 150], &vec![2, 3]);
    let (second, b) = tag(&vec![4; 200], &vec![5]);
    assert!(a.same(&b) && a.same(&state(3)));
    assert_ne!(first, second);
    assert_eq!(first[116..148], second[116..148]);
}

#[test]
fn short_and_corrupt_tag_files_do_not_open() {
    let (mut file, _) = from_channel(offsets(0), state(9), &vec![0; 200], &vec![]).ok().unwrap();
    assert!(matches!(
        OpenTagFile::open(file[..READ_SIZE - 1].to_vec(), &state(9)),
        Err(TagError::Io)
    ));
    assert!(OpenTagFile::open(file[..READ_SIZE].to_vec(), &state(9)).is_ok());
    file[113] = 1;
    assert!(matches!(OpenTagFile::open(file, &state(9)), Err(TagError::BincodeDe)));
}

#[test]
fn short_files_hold_the_description() {
    let description: Vec<u8> = (0..200).map(|i| i as u8).collect();
    let (file, _) = from_channel(offsets(5), state(9), &description, &vec![2; 50]).ok().unwrap();
    let t = OpenTagFile::open(file.clone(), &state(9)).ok().unwrap();
    let short = t.short().ok().unwrap();
    assert_eq!(short.len(), 148 + 200);
    assert_eq!(read_short(&short, &state(9)).ok().unwrap(), description);
    assert_eq!(&read_short(&file, &state(9)).ok().unwrap()[..200], &description[..]);
    let s = OpenTagFile::open(short.clone(), &state(9)).ok().unwrap();
    assert_eq!((s.header.header, s.header.channel, s.header.unhashed, s.header.total), (148, 348, 0, 348));
    assert_eq!(s.header.offsets.size, 0);
    assert!(matches!(read_short(&short, &state(1)), Err(TagError::WrongHash { .. })));
    assert!(matches!(read_short(&short[..200].to_vec(), &state(9)), Err(TagError::Io)));
}

#[test]
fn small_descriptions_make_unreadable_short_files() {
    let (file, _) = from_channel(offsets(5), state(9), &vec![1; 100], &vec![2; 50]).ok().unwrap();
    let t = OpenTagFile::open(file, &state(9)).ok().unwrap();
    let short = t.short().ok().unwrap();
    assert_eq!(short.len(), 248);
    assert!(matches!(read_short(&short, &state(9)), Err(TagError::Io)));
}

#[test]
fn cut_files_have_no_short_form() {
    let (file, _) = from_channel(offsets(5), state(9), &vec![1; 300], &vec![2; 50]).ok().unwrap();
    let t = OpenTagFile::open(file[..300].to_vec(), &state(9)).ok().unwrap();
    assert!(matches!(t.short(), Err(TagError::Io)));
    assert!(matches!(t.unpack(), Err(TagError::Io)));
}

#[test]
fn pages_come_back_from_a_tag_file() {
    let pages = pages(9);
    let (out, n, complete) = compress_pages(&pages).ok().unwrap();
    assert!(complete);
    assert_eq!(n, 9 * 4096);
    assert!(out.len() < 9 * 4096);
    let (file, _) = from_channel(offsets(n), state(1), &vec![0; 10], &out).ok().unwrap();
    let t = OpenTagFile::open(file, &state(1)).ok().unwrap();
    let u = t.unpack().ok().unwrap();
    assert_eq!(u.read.ok().unwrap(), 9 * 4096);
    assert_eq!(u.pages, pages.concat());
    for (i, p) in pages.iter().enumerate() {
        assert_eq!(load_page(&u.pages, 4096 * i as u64).unwrap(), &p[..]);
    }
    assert!(load_page(&u.pages, 9 * 4096).is_none());
    assert!(load_page(&u.pages, 8 * 4096 + 1).is_none());
    assert!(load_page(&u.pages, u64::MAX).is_none());
}

#[test]
fn pages_of_noise_come_back() {
    for n in [1, 2, 17, 100] {
        let pages = noise(n, 42);
        let (out, size, complete) = compress_pages(&pages).ok().unwrap();
        assert!(complete);
        assert_eq!(size, 4096 * n as u64);
        let (file, _) = from_channel(offsets(size), state(1), &vec![], &out).ok().unwrap();
        let t = OpenTagFile::open(file, &state(1)).ok().unwrap();
        assert_eq!(t.unpack().ok().unwrap().pages, pages.concat());
    }
}

#[test]
fn no_pages_come_back() {
    let (out, n, complete) = compress_pages(&vec![]).ok().unwrap();
    assert!(complete);
    assert_eq!(n, 0);
    let (file, _) = from_channel(offsets(0), state(1), &vec![0; 200], &out).ok().unwrap();
    let u = OpenTagFile::open(file, &state(1)).ok().unwrap().unpack().ok().unwrap();
    assert_eq!(u.read.ok().unwrap(), 0);
    assert!(u.pages.is_empty());
}

#[test]
fn pages_must_be_compressed() {
    let (file, _) = from_channel(offsets(10), state(1), &vec![0; 200], &vec![9; 40]).ok().unwrap();
    let t = OpenTagFile::open(file, &state(1)).ok().unwrap();
    assert!(matches!(t.unpack(), Err(TagError::Zstd(_))));
}

#[test]
fn damaged_frames_are_noticed() {
    let pages = noise(1, 7);
    let (mut out, n, _) = compress_pages(&pages).ok().unwrap();
    for b in out[10..2000].iter_mut() {
        *b ^= 0x55;
    }
    let (file, _) = from_channel(offsets(n), state(1), &vec![0; 200], &out).ok().unwrap();
    let u = OpenTagFile::open(file, &state(1)).ok().unwrap().unpack().ok().unwrap();
    assert!(u.read.is_err());
}

#[test]
fn compressors_take_page_after_page() {
    let pages = pages(2);
    let c = PageCompressor::new().ok().unwrap();
    let c = c.page(&pages[0]).ok().unwrap();
    let c = c.page(&pages[1]).ok().unwrap();
    let (out, complete) = c.end();
    assert!(complete);
    assert_eq!(out, compress_pages(&pages).ok().unwrap().0);
}

#[test]
fn progress_of_a_page() {
    let p = Progress { input: 0, output: 0 };
    match after_compress(p, 5, 4000) {
        Outcome::Again(p) => {
            assert_eq!((p.input, p.output), (4000, 5));
            assert!(matches!(after_compress(p, 0, 96), Outcome::Finished(_)));
        }
        _ => panic!("the page is not finished"),
    }
    assert!(matches!(
        after_compress(Progress { input: 1, output: 2 }, 0, 0),
        Outcome::Stalled
    ));
    assert!(matches!(CompressError::Stalled, CompressError::Stalled));
}

#[test]
fn ends_of_a_stream() {
    assert!(matches!(after_end(vec![1], Some(vec![2])), Ended::Partly(s) if s == vec![1, 2]));
    assert!(matches!(after_end(vec![1], Some(vec![])), Ended::Wholly(s) if s == vec![1]));
    assert!(matches!(after_end(vec![1], None), Ended::Cut(s) if s == vec![1]));
}

#[test]
fn error_messages() {
    let m = |e: TagError| e.message("A", "B");
    assert_eq!(m(TagError::VersionMismatch).unwrap(), "Version mismatch");
    assert_eq!(m(TagError::BincodeDe).unwrap(), "Tag file is corrupt");
    assert_eq!(m(TagError::Sync).unwrap(), "Synchronisation error");
    let wrong = TagError::WrongHash { expected: state(1), got: state(2) };
    assert_eq!(m(wrong).unwrap(), "Wrong state, expected A, got B");
    assert!(m(TagError::Io).is_none());
    assert!(m(TagError::Txn).is_none());
}

#[test]
fn compressors_get_the_rest_of_a_page_and_of_a_block() {
    for pages in [pages(5), noise(5, 3), vec![]] {
        let mut c = zstd_seekable::SeekableCStream::new(10, BLOCK_SIZE).unwrap();
        let mut expected = Vec::new();
        let mut out = [0; BLOCK_SIZE];
        for page in &pages {
            let (mut i, mut o) = (0, 0);
            while i < BLOCK_SIZE {
                let (a, b) = c.compress(&mut out[o..], &page[i..]).unwrap();
                o += a;
                i += b;
            }
            expected.extend_from_slice(&out[..o]);
        }
        while let Ok(n) = c.end_stream(&mut out) {
            if n == 0 {
                break;
            }
            expected.extend_from_slice(&out[..n]);
        }
        assert_eq!(compress_pages(&pages).ok().unwrap(), (expected, 4096 * pages.len() as u64, true));
    }
}

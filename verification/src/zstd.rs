//! Seekable Zstandard streams, which hold the pages of a channel and the
//! sections of a change.

use vstd::prelude::*;

use crate::pages::BLOCK_SIZE;

verus! {

/// The compression level.
pub const LEVEL: usize = 10;

/// A compressor.
#[verifier::external_type_specification]
#[verifier::external_body]
pub struct ExSeekableCStream(zstd_seekable::SeekableCStream);

/// A decompressor.
#[verifier::external_type_specification]
#[verifier::external_body]
#[verifier::reject_recursive_types(R)]
pub struct ExSeekable<'a, R>(zstd_seekable::Seekable<'a, R>);

/// An error of a compressor or a decompressor.
#[verifier::external_type_specification]
#[verifier::external_body]
pub struct ExZstdError(zstd_seekable::Error);

/// The level and the frame size that a compressor was made with.
pub uninterp spec fn made_with(s: zstd_seekable::SeekableCStream) -> (usize, usize);

/// All the bytes that a compressor has taken in.
pub uninterp spec fn taken(s: zstd_seekable::SeekableCStream) -> Seq<u8>;

/// All the bytes that a compressor has given out.
pub uninterp spec fn emitted(s: zstd_seekable::SeekableCStream) -> Seq<u8>;

/// Whether a compressor was told to end its stream.
pub uninterp spec fn ending(s: zstd_seekable::SeekableCStream) -> bool;

/// Whether a compressor can have the given level and frame size.
pub uninterp spec fn stream_ok(level: usize, frame_size: usize) -> bool;

/// What a compressor does with an input and room for so many bytes of output,
/// if it does not fail: the compressor afterwards, what it has written, and how
/// many bytes of the input it has taken in.
pub uninterp spec fn compressed(
    s: zstd_seekable::SeekableCStream,
    room: usize,
    input: Seq<u8>,
) -> Option<(zstd_seekable::SeekableCStream, Seq<u8>, usize)>;

/// What a compressor does to end its stream with room for so many bytes of
/// output, if it does not fail: the compressor afterwards, and what it has
/// written.
pub uninterp spec fn flushed(s: zstd_seekable::SeekableCStream, room: usize) -> Option<
    (zstd_seekable::SeekableCStream, Seq<u8>),
>;

/// Whether the bytes end with a table of frames that a decompressor accepts.
pub uninterp spec fn seekable_ok(bytes: Seq<u8>) -> bool;

/// The bytes that a decompressor reads.
pub uninterp spec fn source(s: zstd_seekable::Seekable<'_, ()>) -> Seq<u8>;

/// What decompressing `bytes` from `offset` on gives, and what it leaves in a
/// buffer that held `before`.
pub uninterp spec fn decompressed(bytes: Seq<u8>, offset: u64, before: Seq<u8>) -> (
    Option<usize>,
    Seq<u8>,
);

/// Whether a decompressor reads `data` back from `bytes`, at every offset.
pub open spec fn reads_back(bytes: Seq<u8>, data: Seq<u8>) -> bool {
    &&& seekable_ok(bytes)
    &&& forall|offset: u64, before: Seq<u8>|
        offset + before.len() <= data.len() ==> #[trigger] decompressed(bytes, offset, before) == (
            Some(before.len() as usize),
            data.subrange(offset as int, offset + before.len()),
        )
}

/// `zstd_seekable::SeekableCStream::new`. Whether it succeeds depends on the
/// level and the frame size, as long as there is memory for the compressor. A
/// new compressor has those that were asked for, and has taken in and given out
/// nothing.
#[verifier::external_body]
fn new_stream(level: usize, frame_size: usize) -> (r: Result<
    zstd_seekable::SeekableCStream,
    zstd_seekable::Error,
>)
    ensures
        r is Ok == stream_ok(level, frame_size),
        r matches Ok(s) ==> {
            &&& made_with(s) == (level, frame_size)
            &&& taken(s) == Seq::<u8>::empty()
            &&& emitted(s) == Seq::<u8>::empty()
            &&& !ending(s)
        },
{
    zstd_seekable::SeekableCStream::new(level, frame_size)
}

/// `zstd_seekable::SeekableCStream::compress`, with room for `room` bytes of
/// output. Gives what was written, and how many bytes of the input were taken
/// in: as many as the compressor chose, from the first on. What comes depends
/// on the compressor, on the room and on the input. A compressor that fails is
/// dropped.
#[verifier::external_body]
fn compress(s: zstd_seekable::SeekableCStream, room: usize, input: &[u8]) -> (r: Result<
    (zstd_seekable::SeekableCStream, Vec<u8>, usize),
    zstd_seekable::Error,
>)
    requires
        !ending(s),
    ensures
        match r {
            Ok((t, written, n)) => compressed(s, room, input@) == Some((t, written@, n)),
            Err(_) => compressed(s, room, input@) is None,
        },
        r matches Ok((t, written, n)) ==> {
            &&& written@.len() <= room
            &&& n <= input@.len()
            &&& taken(t) == taken(s) + input@.take(n as int)
            &&& emitted(t) == emitted(s) + written@
            &&& made_with(t) == made_with(s)
            &&& !ending(t)
        },
{
    let mut s = s;
    let mut out = vec![0; room];
    let (written, n) = s.compress(&mut out, input)?;
    out.truncate(written);
    Ok((s, out, n))
}

/// `zstd_seekable::SeekableCStream::end_stream`, with room for `room` bytes of
/// output. Gives what was written. Once it writes nothing though there is
/// room, the stream is complete: a decompressor reads all that was taken in
/// back from all that was given out. What comes depends on the compressor and on
/// the room. A compressor that fails is dropped.
#[verifier::external_body]
fn end_stream(s: zstd_seekable::SeekableCStream, room: usize) -> (r: Result<
    (zstd_seekable::SeekableCStream, Vec<u8>),
    zstd_seekable::Error,
>)
    ensures
        match r {
            Ok((t, written)) => flushed(s, room) == Some((t, written@)),
            Err(_) => flushed(s, room) is None,
        },
        r matches Ok((t, written)) ==> {
            &&& written@.len() <= room
            &&& taken(t) == taken(s)
            &&& emitted(t) == emitted(s) + written@
            &&& made_with(t) == made_with(s)
            &&& ending(t)
            &&& room > 0 && written@.len() == 0 ==> reads_back(emitted(t), taken(t))
        },
{
    let mut s = s;
    let mut out = vec![0; room];
    let written = s.end_stream(&mut out)?;
    out.truncate(written);
    Ok((s, out))
}

/// `zstd_seekable::Seekable::init_buf`. Whether it succeeds depends on the
/// bytes alone, as long as there is memory for the decompressor. The table of
/// frames is looked for from the end of the bytes, and what stands before it is
/// not looked at, so that a table is found behind any other bytes too.
#[verifier::external_body]
pub(crate) fn init_buf<'a>(bytes: &'a [u8]) -> (r: Result<
    zstd_seekable::Seekable<'a, ()>,
    zstd_seekable::Error,
>)
    ensures
        r is Ok == seekable_ok(bytes@),
        r matches Ok(s) ==> source(s) == bytes@,
        r is Err ==> forall|k: int|
            0 <= k <= bytes@.len() ==> !seekable_ok(#[trigger] bytes@.skip(k)),
{
    zstd_seekable::Seekable::init_buf(bytes)
}

/// `zstd_seekable::Seekable::decompress`, once. The number that it gives, and
/// what it leaves in `buf`, depend on the bytes that the decompressor reads,
/// on the offset and on what `buf` held, as long as there is memory. The number
/// can be larger than `buf` where the offset is beyond the data. An offset so
/// large that the end of the read is no number is left out: the call would not
/// return.
#[verifier::external_body]
pub(crate) fn decompress(s: zstd_seekable::Seekable<'_, ()>, offset: u64, buf: Vec<u8>) -> (r: (
    Result<usize, zstd_seekable::Error>,
    Vec<u8>,
))
    requires
        offset + buf@.len() <= u64::MAX,
    ensures
        r.1@ == decompressed(source(s), offset, buf@).1,
        r.1@.len() == buf@.len(),
        match decompressed(source(s), offset, buf@).0 {
            Some(n) => r.0 == Ok::<usize, zstd_seekable::Error>(n),
            None => r.0 is Err,
        },
{
    let mut s = s;
    let mut buf = buf;
    let result = s.decompress(&mut buf, offset);
    (result, buf)
}

/// Why pages could not be compressed.
pub enum CompressError {
    /// The compressor failed.
    Zstd(zstd_seekable::Error),
    /// The compressor neither took a byte in nor gave one out.
    Stalled,
}

/// How much of a page was compressed, and how much was written for it.
pub struct Progress {
    pub input: usize,
    pub output: usize,
}

/// What to do after a call of the compressor.
pub enum Outcome {
    /// Hand it the rest of the page.
    Again(Progress),
    /// The page was taken in.
    Finished(Progress),
    /// The call did nothing, so that no other one would.
    Stalled,
}

/// What to do after a call that wrote `written` bytes and took `consumed` in.
pub fn after_compress(p: Progress, written: usize, consumed: usize) -> (r: Outcome)
    requires
        p.input + consumed <= BLOCK_SIZE,
        p.output + written <= BLOCK_SIZE,
    ensures
        r == if written == 0 && consumed == 0 {
            Outcome::Stalled
        } else {
            let next = Progress {
                input: (p.input + consumed) as usize,
                output: (p.output + written) as usize,
            };
            if p.input + consumed == BLOCK_SIZE {
                Outcome::Finished(next)
            } else {
                Outcome::Again(next)
            }
        },
{
    if written == 0 && consumed == 0 {
        return Outcome::Stalled;
    }
    let next = Progress { input: p.input + consumed, output: p.output + written };
    if next.input < BLOCK_SIZE {
        Outcome::Again(next)
    } else {
        Outcome::Finished(next)
    }
}

/// How compressing pages ends.
pub enum PageEnd {
    /// They were taken in: the compressor afterwards, and all that was written.
    Taken(zstd_seekable::SeekableCStream, Seq<u8>),
    /// The compressor failed.
    Failed,
    /// The compressor neither took a byte in nor gave one out.
    Stalled,
}

/// How compressing the rest of a page ends, after what was written before. The
/// compressor gets what it has not taken in yet, and the room that is left in a
/// block for this page, until the page is taken in or a call does nothing.
pub open spec fn page_end(
    s: zstd_seekable::SeekableCStream,
    output: Seq<u8>,
    page: Seq<u8>,
    p: Progress,
) -> PageEnd
    decreases 2 * BLOCK_SIZE - p.input - p.output,
{
    match compressed(s, (BLOCK_SIZE - p.output) as usize, page.skip(p.input as int)) {
        None => PageEnd::Failed,
        Some((t, written, n)) => {
            let next = Progress {
                input: (p.input + n) as usize,
                output: (p.output + written.len()) as usize,
            };
            if written.len() == 0 && n == 0 {
                PageEnd::Stalled
            } else if p.input + n == BLOCK_SIZE {
                PageEnd::Taken(t, output + written)
            } else if p.input + n < BLOCK_SIZE && p.output + written.len() <= BLOCK_SIZE {
                page_end(t, output + written, page, next)
            } else {
                // No call takes in or writes more than that.
                arbitrary()
            }
        },
    }
}

/// How compressing whole pages ends, after what was written before.
pub open spec fn pages_end(
    s: zstd_seekable::SeekableCStream,
    output: Seq<u8>,
    pages: Seq<Vec<u8>>,
) -> PageEnd
    decreases pages.len(),
{
    if pages.len() == 0 {
        PageEnd::Taken(s, output)
    } else {
        match page_end(s, output, pages[0]@, Progress { input: 0, output: 0 }) {
            PageEnd::Taken(t, more) => pages_end(t, more, pages.skip(1)),
            end => end,
        }
    }
}

/// All that is written once a stream has ended, after what was written before,
/// and whether it is complete: the compressor is asked for a block at a time,
/// until it writes nothing more or fails.
pub open spec fn stream_end(s: zstd_seekable::SeekableCStream, output: Seq<u8>) -> (Seq<u8>, bool)
    decreases usize::MAX - output.len(),
{
    match flushed(s, BLOCK_SIZE) {
        None => (output, false),
        Some((t, written)) => if written.len() == 0 {
            (output, true)
        } else if output.len() + written.len() <= usize::MAX {
            stream_end(t, output + written)
        } else {
            // No buffer holds as many bytes.
            arbitrary()
        },
    }
}

/// Whether a compressor is one for pages that has not seen any.
pub open spec fn unused(s: zstd_seekable::SeekableCStream) -> bool {
    &&& made_with(s) == (LEVEL, BLOCK_SIZE)
    &&& taken(s) == Seq::<u8>::empty()
    &&& emitted(s) == Seq::<u8>::empty()
    &&& !ending(s)
}

/// What compressing all the pages with this compressor gives.
pub open spec fn compressed_with(
    s: zstd_seekable::SeekableCStream,
    pages: Seq<Vec<u8>>,
    r: Result<(Vec<u8>, u64, bool), CompressError>,
) -> bool {
    match pages_end(s, Seq::empty(), pages) {
        PageEnd::Taken(t, output) => {
            &&& r matches Ok((out, n, complete))
            &&& n == BLOCK_SIZE * pages.len()
            &&& (out@, complete) == stream_end(t, output)
        },
        PageEnd::Failed => r matches Err(e) && e is Zstd,
        PageEnd::Stalled => r matches Err(e) && e == CompressError::Stalled,
    }
}

/// The bytes of a stream after a call that ends it.
pub enum Ended {
    /// More will come.
    Partly(Vec<u8>),
    /// Everything was written.
    Wholly(Vec<u8>),
    /// The compressor failed, and nothing more will come.
    Cut(Vec<u8>),
}

/// The bytes of a stream after a call that gave some more of them, or failed.
pub fn after_end(output: Vec<u8>, written: Option<Vec<u8>>) -> (r: Ended)
    ensures
        match written {
            None => r == Ended::Cut(output),
            Some(w) => if w@.len() == 0 {
                r == Ended::Wholly(output)
            } else {
                r matches Ended::Partly(out) && out@ == output@ + w@
            },
        },
{
    match written {
        None => Ended::Cut(output),
        Some(w) => if w.len() == 0 {
            Ended::Wholly(output)
        } else {
            let mut output = output;
            let mut w = w;
            output.append(&mut w);
            Ended::Partly(output)
        },
    }
}

/// A compressor of pages.
pub struct PageCompressor {
    stream: zstd_seekable::SeekableCStream,
    output: Vec<u8>,
}

impl PageCompressor {
    /// The bytes compressed so far.
    pub closed spec fn input(&self) -> Seq<u8> {
        taken(self.stream)
    }

    /// The compressor.
    pub closed spec fn compressor(&self) -> zstd_seekable::SeekableCStream {
        self.stream
    }

    /// What was written so far.
    pub closed spec fn written(&self) -> Seq<u8> {
        self.output@
    }

    #[verifier::type_invariant]
    spec fn wf(self) -> bool {
        &&& made_with(self.stream) == (LEVEL, BLOCK_SIZE)
        &&& emitted(self.stream) == self.output@
        &&& !ending(self.stream)
    }

    /// A compressor that has not seen a page.
    pub fn new() -> (r: Result<PageCompressor, CompressError>)
        ensures
            match r {
                Ok(c) => {
                    &&& stream_ok(LEVEL, BLOCK_SIZE)
                    &&& c.input() == Seq::<u8>::empty()
                    &&& unused(c.compressor())
                    &&& c.written() == Seq::<u8>::empty()
                },
                Err(e) => !stream_ok(LEVEL, BLOCK_SIZE) && e is Zstd,
            },
    {
        match new_stream(LEVEL, BLOCK_SIZE) {
            Ok(stream) => {
                let output: Vec<u8> = Vec::new();
                assert(emitted(stream) =~= output@);
                Ok(PageCompressor { stream, output })
            },
            Err(e) => Err(CompressError::Zstd(e)),
        }
    }

    /// Compresses a page. What is written for a page fits in a block.
    pub fn page(self, page: &Vec<u8>) -> (r: Result<PageCompressor, CompressError>)
        requires
            page@.len() == BLOCK_SIZE,
        ensures
            match page_end(
                self.compressor(),
                self.written(),
                page@,
                Progress { input: 0, output: 0 },
            ) {
                PageEnd::Taken(t, output) => {
                    &&& r matches Ok(c)
                    &&& c.compressor() == t
                    &&& c.written() == output
                    &&& c.input() == self.input() + page@
                },
                PageEnd::Failed => r matches Err(e) && e is Zstd,
                PageEnd::Stalled => r matches Err(e) && e == CompressError::Stalled,
            },
            r matches Err(e) ==> exists|s: zstd_seekable::SeekableCStream, room: usize, k: int|
                {
                    let call = #[trigger] compressed(s, room, page@.skip(k));
                    &&& 0 <= k < BLOCK_SIZE
                    &&& taken(s) == self.input() + page@.take(k)
                    &&& e is Zstd ==> call is None
                    &&& e is Stalled ==> (call matches Some((_, w, n)) && w.len() == 0 && n == 0)
                },
    {
        proof {
            use_type_invariant(&self);
        }
        let ghost before = self.input();
        let mut stream = self.stream;
        let mut output = self.output;
        let mut p = Progress { input: 0, output: 0 };
        let ghost end = page_end(stream, output@, page@, p);
        assert(before + page@.take(0) =~= before);
        loop
            invariant
                page@.len() == BLOCK_SIZE,
                before == self.input(),
                end == page_end(
                    self.compressor(),
                    self.written(),
                    page@,
                    Progress { input: 0, output: 0 },
                ),
                end == page_end(stream, output@, page@, p),
                p.input < BLOCK_SIZE,
                p.output <= BLOCK_SIZE,
                taken(stream) == before + page@.take(p.input as int),
                emitted(stream) == output@,
                made_with(stream) == (LEVEL, BLOCK_SIZE),
                !ending(stream),
            decreases 2 * BLOCK_SIZE - p.input - p.output,
        {
            let rest = vstd::slice::slice_subrange(page.as_slice(), p.input, BLOCK_SIZE);
            assert(rest@ =~= page@.skip(p.input as int));
            match compress(stream, BLOCK_SIZE - p.output, rest) {
                Ok((next, written, n)) => {
                    proof {
                        assert(page@.take(p.input as int) + rest@.take(n as int) =~= page@.take(
                            p.input + n,
                        ));
                        assert(taken(next) =~= before + page@.take(p.input + n));
                        assert(page@.take(BLOCK_SIZE as int) =~= page@);
                    }
                    let ghost so_far = output@;
                    stream = next;
                    output.extend_from_slice(&written);
                    assert(emitted(stream) =~= output@);
                    assert(output@ =~= so_far + written@);
                    match after_compress(p, written.len(), n) {
                        Outcome::Again(next) => {
                            p = next;
                        },
                        Outcome::Finished(_) => {
                            return Ok(PageCompressor { stream, output });
                        },
                        Outcome::Stalled => {
                            return Err(CompressError::Stalled);
                        },
                    }
                },
                Err(e) => {
                    return Err(CompressError::Zstd(e));
                },
            }
        }
    }

    /// Ends the stream, and gives the compressed bytes, and whether they are
    /// complete. A compressor that fails is no longer asked, and the bytes so
    /// far are given.
    pub fn end(self) -> (r: (Vec<u8>, bool))
        ensures
            (r.0@, r.1) == stream_end(self.compressor(), self.written()),
            r.1 ==> reads_back(r.0@, self.input()),
            !r.1 ==> exists|s: zstd_seekable::SeekableCStream|
                {
                    &&& #[trigger] flushed(s, BLOCK_SIZE) is None
                    &&& taken(s) == self.input()
                    &&& emitted(s) == r.0@
                },
    {
        proof {
            use_type_invariant(&self);
        }
        let ghost before = self.input();
        let mut stream = self.stream;
        let mut output = self.output;
        loop
            invariant
                before == self.input(),
                stream_end(self.compressor(), self.written()) == stream_end(stream, output@),
                taken(stream) == before,
                emitted(stream) == output@,
            decreases usize::MAX - output.len(),
        {
            match end_stream(stream, BLOCK_SIZE) {
                Ok((next, written)) => {
                    let ghost so_far = output@;
                    match after_end(output, Some(written)) {
                        Ended::Partly(out) => {
                            assert(out@.len() == out.len());
                            stream = next;
                            output = out;
                        },
                        Ended::Wholly(out) => {
                            assert(emitted(next) =~= so_far);
                            return (out, true);
                        },
                        Ended::Cut(out) => {
                            return (out, false);
                        },
                    }
                },
                Err(_) => {
                    assert(flushed(stream, BLOCK_SIZE) is None);
                    return (output, false);
                },
            }
        }
    }
}

/// The bytes of all the pages, in order.
pub open spec fn joined(pages: Seq<Vec<u8>>) -> Seq<u8>
    decreases pages.len(),
{
    if pages.len() == 0 {
        Seq::empty()
    } else {
        joined(pages.drop_last()) + pages.last()@
    }
}

/// Compresses the pages. Gives the compressed bytes, the number of bytes that
/// were compressed, and whether the compressed bytes are complete.
pub fn compress_pages(pages: &Vec<Vec<u8>>) -> (r: Result<(Vec<u8>, u64, bool), CompressError>)
    requires
        forall|i: int| 0 <= i < pages@.len() ==> (#[trigger] pages@[i])@.len() == BLOCK_SIZE,
        BLOCK_SIZE * pages@.len() <= u64::MAX,
    ensures
        if stream_ok(LEVEL, BLOCK_SIZE) {
            exists|s: zstd_seekable::SeekableCStream| #[trigger]
                unused(s) && compressed_with(s, pages@, r)
        } else {
            r matches Err(e) && e is Zstd
        },
        r matches Ok((out, n, complete)) ==> {
            &&& n == BLOCK_SIZE * pages@.len()
            &&& complete ==> reads_back(out@, joined(pages@))
            &&& !complete ==> exists|s: zstd_seekable::SeekableCStream|
                {
                    &&& #[trigger] flushed(s, BLOCK_SIZE) is None
                    &&& taken(s) == joined(pages@)
                    &&& emitted(s) == out@
                }
        },
        r matches Err(CompressError::Zstd(_)) && stream_ok(LEVEL, BLOCK_SIZE) ==> exists|
            s: zstd_seekable::SeekableCStream,
            room: usize,
            input: Seq<u8>,
        | input.len() > 0 && #[trigger] compressed(s, room, input) is None,
        r matches Err(CompressError::Stalled) ==> exists|
            s: zstd_seekable::SeekableCStream,
            room: usize,
            input: Seq<u8>,
        |
            input.len() > 0 && (#[trigger] compressed(s, room, input) matches Some((_, w, n))
                && w.len() == 0 && n == 0),
{
    let mut compressor = PageCompressor::new()?;
    let mut n: u64 = 0;
    let mut i: usize = 0;
    let ghost s = compressor.compressor();
    assert(pages@.take(0) =~= Seq::empty());
    assert(pages@.skip(0) =~= pages@);
    while i < pages.len()
        invariant
            i <= pages@.len(),
            forall|i: int| 0 <= i < pages@.len() ==> (#[trigger] pages@[i])@.len() == BLOCK_SIZE,
            BLOCK_SIZE * pages@.len() <= u64::MAX,
            n == BLOCK_SIZE * i,
            compressor.input() == joined(pages@.take(i as int)),
            stream_ok(LEVEL, BLOCK_SIZE),
            unused(s),
            pages_end(s, Seq::empty(), pages@) == pages_end(
                compressor.compressor(),
                compressor.written(),
                pages@.skip(i as int),
            ),
        decreases pages.len() - i,
    {
        proof {
            assert(pages@.take(i + 1).drop_last() =~= pages@.take(i as int));
            assert(pages@.skip(i as int).skip(1) =~= pages@.skip(i + 1));
        }
        match compressor.page(&pages[i]) {
            Ok(c) => {
                compressor = c;
            },
            Err(e) => {
                let r = Err(e);
                assert(compressed_with(s, pages@, r));
                return r;
            },
        }
        n = n + BLOCK_SIZE as u64;
        i = i + 1;
    }
    assert(pages@.take(i as int) =~= pages@);
    let (out, complete) = compressor.end();
    let r = Ok((out, n, complete));
    assert(compressed_with(s, pages@, r));
    r
}

/// The page at an offset among pages in a row, if it is there.
pub fn load_page<'a>(pages: &'a [u8], off: u64) -> (r: Option<&'a [u8]>)
    ensures
        match r {
            Some(page) => off + BLOCK_SIZE <= pages@.len() && page@ == pages@.subrange(
                off as int,
                off + BLOCK_SIZE,
            ),
            None => off + BLOCK_SIZE > pages@.len(),
        },
{
    let len: u64 = pages.len() as u64;
    if len < BLOCK_SIZE as u64 || off > len - BLOCK_SIZE as u64 {
        return None;
    }
    Some(vstd::slice::slice_subrange(pages, off as usize, off as usize + BLOCK_SIZE))
}

/// Each page is at the offset of its number among the bytes of all of them.
pub proof fn law_pages_in_a_row(pages: Seq<Vec<u8>>, i: int)
    requires
        forall|j: int| 0 <= j < pages.len() ==> (#[trigger] pages[j])@.len() == BLOCK_SIZE,
        0 <= i < pages.len(),
    ensures
        joined(pages).len() == BLOCK_SIZE * pages.len(),
        joined(pages).subrange(BLOCK_SIZE * i, BLOCK_SIZE * i + BLOCK_SIZE) == pages[i]@,
    decreases pages.len(),
{
    reveal_with_fuel(joined, 2);
    let rest = pages.drop_last();
    assert(pages[pages.len() - 1]@.len() == BLOCK_SIZE);
    if rest.len() > 0 {
        assert forall|j: int| 0 <= j < rest.len() implies (#[trigger] rest[j])@.len()
            == BLOCK_SIZE by {
            assert(rest[j] == pages[j]);
        }
        law_pages_in_a_row(
            rest,
            if i < rest.len() {
                i
            } else {
                0
            },
        );
    }
    if i < rest.len() {
        assert(joined(pages).subrange(BLOCK_SIZE * i, BLOCK_SIZE * i + BLOCK_SIZE) =~= joined(
            rest,
        ).subrange(BLOCK_SIZE * i, BLOCK_SIZE * i + BLOCK_SIZE));
    } else {
        assert(joined(pages).subrange(BLOCK_SIZE * i, BLOCK_SIZE * i + BLOCK_SIZE)
            =~= pages.last()@);
    }
}

/// A stream ends with the first call that writes nothing, or that fails: all
/// that the calls before it wrote is given, one after the other, whatever their
/// number, and the stream is complete unless the last call failed. The
/// compressor is at `states[i]` when it is asked for the block number `i`, with
/// room for a page.
pub proof fn law_streams_end(
    states: Seq<zstd_seekable::SeekableCStream>,
    blocks: Seq<Seq<u8>>,
    output: Seq<u8>,
    complete: bool,
)
    requires
        states.len() == blocks.len() + 1,
        forall|i: int|
            0 <= i < blocks.len() ==> (#[trigger] blocks[i]).len() > 0 && flushed(states[i], 4096)
                == Some((states[i + 1], blocks[i])),
        complete ==> (flushed(states.last(), 4096) matches Some((_, last)) && last.len() == 0),
        !complete ==> flushed(states.last(), 4096) is None,
        output.len() + blocks.flatten().len() <= usize::MAX,
    ensures
        stream_end(states[0], output) == (output + blocks.flatten(), complete),
    decreases blocks.len(),
{
    if blocks.len() == 0 {
        assert(blocks.flatten() =~= Seq::empty());
        assert(output + blocks.flatten() =~= output);
    } else {
        let first = blocks[0];
        let rest = blocks.drop_first();
        let after = states.drop_first();
        assert(blocks.flatten() == first + rest.flatten());
        assert(after.last() == states.last());
        assert forall|i: int| 0 <= i < rest.len() implies (#[trigger] rest[i]).len() > 0
            && flushed(after[i], 4096) == Some((after[i + 1], rest[i])) by {
            assert(rest[i] == blocks[i + 1]);
        }
        law_streams_end(after, rest, output + first, complete);
        assert(output + first + rest.flatten() =~= output + blocks.flatten());
        assert(flushed(states[0], 4096) == Some((states[1], first)));
    }
}

/// One call of a compressor: its state before the call, how much of the page was
/// taken in, and how much was written for it.
pub struct Call {
    pub stream: zstd_seekable::SeekableCStream,
    pub input: int,
    pub output: int,
}

/// Whether a call gets the rest of the page, and room for what is left of a
/// block, writes `w`, and leads to the call `d`.
pub open spec fn call_leads(c: Call, d: Call, w: Seq<u8>, page: Seq<u8>) -> bool {
    &&& 0 <= c.input < 4096
    &&& 0 <= c.output <= 4096
    &&& c.input <= d.input <= 4096
    &&& d.output == c.output + w.len() <= 4096
    &&& c.input < d.input || w.len() > 0
    &&& compressed(c.stream, (4096 - c.output) as usize, page.subrange(c.input, 4096)) == Some(
        (d.stream, w, (d.input - c.input) as usize),
    )
}

/// A page is compressed by as many calls as it takes. All that they write is
/// added, in order. If the last call leaves nothing of the page, it is taken in;
/// otherwise the next call has failed, or has done nothing.
pub proof fn law_pages_are_taken_in(
    calls: Seq<Call>,
    written: Seq<Seq<u8>>,
    page: Seq<u8>,
    output: Seq<u8>,
)
    requires
        page.len() == 4096,
        calls.len() == written.len() + 1,
        forall|i: int|
            0 <= i < written.len() ==> call_leads(
                calls[i],
                calls[i + 1],
                #[trigger] written[i],
                page,
            ),
        0 <= calls[0].input < 4096,
        0 <= calls[0].output <= 4096,
    ensures
        ({
            let p = Progress {
                input: calls[0].input as usize,
                output: calls[0].output as usize,
            };
            let last = calls.last();
            let next = compressed(
                last.stream,
                (4096 - last.output) as usize,
                page.subrange(last.input, 4096),
            );
            let end = page_end(calls[0].stream, output, page, p);
            if last.input == 4096 {
                end == PageEnd::Taken(last.stream, output + written.flatten())
            } else {
                &&& next is None ==> end == PageEnd::Failed
                &&& (next matches Some((_, w, n)) && w.len() == 0 && n == 0) ==> end
                    == PageEnd::Stalled
            }
        }),
    decreases written.len(),
{
    let c = calls[0];
    let p = Progress { input: c.input as usize, output: c.output as usize };
    assert(page.subrange(c.input, 4096) =~= page.skip(c.input));
    if written.len() == 0 {
        assert(calls.last() == c);
    } else {
        let first = written[0];
        let d = calls[1];
        assert(call_leads(c, d, first, page));
        let rest = written.drop_first();
        let after = calls.drop_first();
        assert(written.flatten() == first + rest.flatten());
        assert(after.last() == calls.last());
        if d.input == 4096 {
            if rest.len() > 0 {
                assert(call_leads(calls[1], calls[2], written[1], page));
            }
            assert(rest.flatten() =~= Seq::empty());
            assert(output + written.flatten() =~= output + first);
        } else {
            assert forall|i: int| 0 <= i < rest.len() implies call_leads(
                after[i],
                after[i + 1],
                #[trigger] rest[i],
                page,
            ) by {
                assert(rest[i] == written[i + 1]);
            }
            law_pages_are_taken_in(after, rest, page, output + first);
            assert(output + first + rest.flatten() =~= output + written.flatten());
        }
    }
}

/// Pages are compressed one after the other, each by the compressor that the one
/// before it has left, and behind what was written before. The first page that
/// is not taken in ends it.
pub proof fn law_pages_in_order(
    states: Seq<zstd_seekable::SeekableCStream>,
    outputs: Seq<Seq<u8>>,
    pages: Seq<Vec<u8>>,
    k: nat,
)
    requires
        states.len() == k + 1,
        outputs.len() == k + 1,
        k <= pages.len(),
        forall|i: int|
            0 <= i < k ==> page_end(
                states[i],
                #[trigger] outputs[i],
                pages[i]@,
                Progress { input: 0, output: 0 },
            ) == PageEnd::Taken(states[i + 1], outputs[i + 1]),
    ensures
        k == pages.len() ==> pages_end(states[0], outputs[0], pages) == PageEnd::Taken(
            states.last(),
            outputs.last(),
        ),
        k < pages.len() ==> {
            let end = page_end(
                states.last(),
                outputs.last(),
                pages[k as int]@,
                Progress { input: 0, output: 0 },
            );
            end is Taken || pages_end(states[0], outputs[0], pages) == end
        },
    decreases k,
{
    if k > 0 {
        let s = states.drop_first();
        let o = outputs.drop_first();
        let p = pages.skip(1);
        assert(outputs[0] == outputs[0]);
        assert(s.last() == states.last());
        assert(o.last() == outputs.last());
        assert forall|i: int| 0 <= i < k - 1 implies page_end(
            s[i],
            #[trigger] o[i],
            p[i]@,
            Progress { input: 0, output: 0 },
        ) == PageEnd::Taken(s[i + 1], o[i + 1]) by {
            assert(o[i] == outputs[i + 1]);
        }
        law_pages_in_order(s, o, p, (k - 1) as nat);
    }
}

/// A compressor that takes in every page gives all that it has written for them,
/// and then all that it writes to end its stream. They are said to be complete
/// unless a call that ends the stream has failed.
pub proof fn law_pages_are_compressed(
    states: Seq<zstd_seekable::SeekableCStream>,
    outputs: Seq<Seq<u8>>,
    pages: Seq<Vec<u8>>,
    ends: Seq<zstd_seekable::SeekableCStream>,
    blocks: Seq<Seq<u8>>,
    complete: bool,
    r: Result<(Vec<u8>, u64, bool), CompressError>,
)
    requires
        unused(states[0]),
        compressed_with(states[0], pages, r),
        states.len() == pages.len() + 1,
        outputs.len() == pages.len() + 1,
        outputs[0].len() == 0,
        forall|i: int|
            0 <= i < pages.len() ==> page_end(
                states[i],
                #[trigger] outputs[i],
                pages[i]@,
                Progress { input: 0, output: 0 },
            ) == PageEnd::Taken(states[i + 1], outputs[i + 1]),
        ends.len() == blocks.len() + 1,
        ends[0] == states.last(),
        forall|i: int|
            0 <= i < blocks.len() ==> (#[trigger] blocks[i]).len() > 0 && flushed(ends[i], 4096)
                == Some((ends[i + 1], blocks[i])),
        complete ==> (flushed(ends.last(), 4096) matches Some((_, last)) && last.len() == 0),
        !complete ==> flushed(ends.last(), 4096) is None,
        outputs.last().len() + blocks.flatten().len() <= usize::MAX,
    ensures
        made_with(states[0]) == (10usize, 4096usize),
        r matches Ok((out, n, c)) && {
            &&& out@ == outputs.last() + blocks.flatten()
            &&& n == 4096 * pages.len()
            &&& c == complete
        },
{
    assert(outputs[0] =~= Seq::empty());
    law_pages_in_order(states, outputs, pages, pages.len());
    law_streams_end(ends, blocks, outputs.last(), complete);
}

/// A compressor for pages has the level 10 and frames of one page, and has not
/// seen anything at first.
pub proof fn law_new_compressors(s: zstd_seekable::SeekableCStream)
    ensures
        unused(s) <==> made_with(s) == (10usize, 4096usize) && taken(s).len() == 0 && emitted(
            s,
        ).len() == 0 && !ending(s),
{
    if taken(s).len() == 0 {
        assert(taken(s) =~= Seq::empty());
    }
    if emitted(s).len() == 0 {
        assert(emitted(s) =~= Seq::empty());
    }
}

/// Nothing is given if a page is not taken in, whichever page it is, and the
/// error says whether the compressor failed or did nothing.
pub proof fn law_pages_that_are_not_taken_in(
    states: Seq<zstd_seekable::SeekableCStream>,
    outputs: Seq<Seq<u8>>,
    pages: Seq<Vec<u8>>,
    k: nat,
    r: Result<(Vec<u8>, u64, bool), CompressError>,
)
    requires
        compressed_with(states[0], pages, r),
        states.len() == k + 1,
        outputs.len() == k + 1,
        outputs[0].len() == 0,
        k < pages.len(),
        forall|i: int|
            0 <= i < k ==> page_end(
                states[i],
                #[trigger] outputs[i],
                pages[i]@,
                Progress { input: 0, output: 0 },
            ) == PageEnd::Taken(states[i + 1], outputs[i + 1]),
    ensures
        ({
            let end = page_end(
                states.last(),
                outputs.last(),
                pages[k as int]@,
                Progress { input: 0, output: 0 },
            );
            &&& end is Failed ==> (r matches Err(e) && e is Zstd)
            &&& end is Stalled ==> (r matches Err(e) && e == CompressError::Stalled)
        }),
{
    assert(outputs[0] =~= Seq::empty());
    law_pages_in_order(states, outputs, pages, k);
}

/// A decompressor reads data back exactly if the bytes end with a table of
/// frames, and every range of the data fills a buffer of its size.
pub proof fn law_reading_back(bytes: Seq<u8>, data: Seq<u8>, offset: u64, before: Seq<u8>)
    requires
        reads_back(bytes, data),
        offset + before.len() <= data.len(),
    ensures
        seekable_ok(bytes),
        decompressed(bytes, offset, before).0 == Some(before.len() as usize),
        decompressed(bytes, offset, before).1 == data.subrange(
            offset as int,
            offset + before.len(),
        ),
{
}

/// A new compressor has the level and the frames of pages, and has neither taken
/// anything in nor written anything.
pub proof fn law_making_a_compressor(r: Result<PageCompressor, CompressError>)
    requires
        call_ensures(PageCompressor::new, (), r),
    ensures
        r is Ok <==> stream_ok(10, 4096),
        r matches Ok(c) ==> {
            &&& made_with(c.compressor()) == (10usize, 4096usize)
            &&& c.input().len() == 0
            &&& c.written().len() == 0
        },
        r matches Err(e) ==> e is Zstd,
{
}

/// Compressing a page adds all that the calls for it write, and leaves the
/// compressor as the last of them does. The page was then taken in as a whole.
pub proof fn law_compressing_a_page(
    c: PageCompressor,
    page: Vec<u8>,
    calls: Seq<Call>,
    written: Seq<Seq<u8>>,
    r: Result<PageCompressor, CompressError>,
)
    requires
        call_ensures(PageCompressor::page, (c, &page), r),
        page@.len() == 4096,
        calls.len() == written.len() + 1,
        calls[0].stream == c.compressor(),
        calls[0].input == 0,
        calls[0].output == 0,
        forall|i: int|
            0 <= i < written.len() ==> call_leads(
                calls[i],
                calls[i + 1],
                #[trigger] written[i],
                page@,
            ),
    ensures
        ({
            let last = calls.last();
            let next = compressed(
                last.stream,
                (4096 - last.output) as usize,
                page@.subrange(last.input, 4096),
            );
            if last.input == 4096 {
                &&& r matches Ok(d)
                &&& d.compressor() == last.stream
                &&& d.written() == c.written() + written.flatten()
                &&& d.input() == c.input() + page@
            } else {
                &&& next is None ==> (r matches Err(e) && e is Zstd)
                &&& (next matches Some((_, w, n)) && w.len() == 0 && n == 0) ==> (r matches Err(e)
                    && e == CompressError::Stalled)
            }
        }),
{
    law_pages_are_taken_in(calls, written, page@, c.written());
}

/// Ending a stream gives all that was written before, and then all that the
/// calls that end it write, however many they are. It is complete unless the last
/// call fails, and what is complete can be read back at every offset.
pub proof fn law_ending_a_stream(
    c: PageCompressor,
    states: Seq<zstd_seekable::SeekableCStream>,
    blocks: Seq<Seq<u8>>,
    complete: bool,
    r: (Vec<u8>, bool),
)
    requires
        call_ensures(PageCompressor::end, (c,), r),
        states.len() == blocks.len() + 1,
        states[0] == c.compressor(),
        forall|i: int|
            0 <= i < blocks.len() ==> (#[trigger] blocks[i]).len() > 0 && flushed(states[i], 4096)
                == Some((states[i + 1], blocks[i])),
        complete ==> (flushed(states.last(), 4096) matches Some((_, last)) && last.len() == 0),
        !complete ==> flushed(states.last(), 4096) is None,
        c.written().len() + blocks.flatten().len() <= usize::MAX,
    ensures
        r.0@ == c.written() + blocks.flatten(),
        r.1 == complete,
        complete ==> reads_back(r.0@, c.input()),
{
    law_streams_end(states, blocks, c.written(), complete);
}

/// Pages are compressed, all of them and to the end, and each page is read back
/// at the offset of its number, unless a call of the compressor fails, or does
/// nothing though there is something left of a page.
pub proof fn law_compressed_pages_are_read_back(
    pages: Vec<Vec<u8>>,
    r: Result<(Vec<u8>, u64, bool), CompressError>,
    i: int,
    before: Seq<u8>,
)
    requires
        call_ensures(compress_pages, (&pages,), r),
        forall|j: int| 0 <= j < pages@.len() ==> (#[trigger] pages@[j])@.len() == 4096,
        4096 * pages@.len() <= u64::MAX,
        0 <= i < pages@.len(),
        before.len() == 4096,
    ensures
        match r {
            Ok((out, n, complete)) => {
                &&& n == 4096 * pages@.len()
                &&& complete ==> decompressed(out@, (4096 * i) as u64, before) == (
                    Some(4096usize),
                    pages@[i]@,
                )
                &&& !complete ==> exists|s: zstd_seekable::SeekableCStream|
                    {
                        &&& #[trigger] flushed(s, 4096) is None
                        &&& taken(s) == joined(pages@)
                        &&& emitted(s) == out@
                    }
            },
            Err(CompressError::Zstd(_)) => !stream_ok(10, 4096) || exists|
                s: zstd_seekable::SeekableCStream,
                room: usize,
                input: Seq<u8>,
            | input.len() > 0 && #[trigger] compressed(s, room, input) is None,
            Err(CompressError::Stalled) => exists|
                s: zstd_seekable::SeekableCStream,
                room: usize,
                input: Seq<u8>,
            |
                input.len() > 0 && (#[trigger] compressed(s, room, input) matches Some((_, w, n))
                    && w.len() == 0 && n == 0),
        },
{
    law_pages_in_a_row(pages@, i);
}

/// The page at an offset is the bytes from there on, as many as a page has, if
/// they are all there.
pub proof fn law_loading_a_page(pages: &[u8], off: u64, r: Option<&[u8]>)
    requires
        call_ensures(load_page, (pages, off), r),
    ensures
        r is Some <==> off + 4096 <= pages@.len(),
        r matches Some(page) ==> page@.len() == 4096 && forall|i: int|
            0 <= i < 4096 ==> #[trigger] page@[i] == pages@[off + i],
{
}

/// A call of a compressor is followed by another one until the page is taken in,
/// unless it has done nothing.
pub proof fn law_after_a_call(p: Progress, written: usize, consumed: usize, r: Outcome)
    requires
        call_ensures(after_compress, (p, written, consumed), r),
        p.input + consumed <= 4096,
        p.output + written <= 4096,
    ensures
        r is Stalled <==> written == 0 && consumed == 0,
        r is Finished <==> !(written == 0 && consumed == 0) && p.input + consumed == 4096,
        r matches Outcome::Again(q) ==> q.input == p.input + consumed < 4096 && q.output == p.output
            + written,
        r matches Outcome::Finished(q) ==> q.input == 4096 && q.output == p.output + written,
{
}

/// A call that ends a stream adds what it has written. The stream goes on after
/// it exactly if that is something.
pub proof fn law_after_an_end(output: Vec<u8>, written: Option<Vec<u8>>, r: Ended)
    requires
        call_ensures(after_end, (output, written), r),
    ensures
        match r {
            Ended::Partly(out) => written matches Some(w) && w@.len() > 0 && out@ == output@ + w@,
            Ended::Wholly(out) => written matches Some(w) && w@.len() == 0 && out@ == output@,
            Ended::Cut(out) => written is None && out@ == output@,
        },
{
}

} // verus!

//! Reading and writing, as the rest of the library sees it.
//!
//! A carrier is a [`ReadSeek`]: a file of fixed content that is read at explicit offsets. Bytes
//! that arrive in order come from a [`Read`], and output goes to a [`Write`]. A front end
//! implements the three for its files; in memory, [`MemoryFile`], [`RegionReader`] and `Vec<u8>`
//! do.
//!
//! Each trait has a `reliable` property: whether its operations always succeed. Contracts promise
//! exact results for reliable sources and sinks, and for the others that what succeeds is right.
//!
//! A front end is not verified and implements the methods alone. The properties have defaults for that
//! reason only. Such an implementation is to be read as having a content of its own (the bytes of its
//! file, what is still to come, what was written), of which its methods must keep what the trait says:
//! whatever is promised of the library is promised on that condition.

use crate::crypto::secret::wipe_buffer;
use crate::error::{ended_early, Fault, IoError, IoErrorKind, ZolalError};
use vstd::prelude::*;

verus! {

/// How much is copied at a time.
pub const COPY_BLOCK: usize = 65536;

/// How much room is made up front for a read, so that its buffer does not move while it fills.
pub const READ_ROOM: usize = 0x100_0000;

/// The bytes of `content` from `from` up to `to`, as far as they exist.
pub open spec fn clip(content: Seq<u8>, from: int, to: int) -> Seq<u8> {
    if 0 <= from < content.len() && from < to {
        content.subrange(from, if to < content.len() { to } else { content.len() as int })
    } else {
        Seq::empty()
    }
}

/// A file that is read at explicit offsets. Its content does not change while it is in use.
pub trait ReadSeek {
    /// The bytes of the file.
    open spec fn content(&self) -> Seq<u8> {
        Seq::empty()
    }

    /// Whether every operation succeeds.
    open spec fn reliable(&self) -> bool {
        false
    }

    /// The length of the file.
    fn size(&self) -> (r: Result<u64, IoError>)
        ensures
            r matches Ok(n) ==> n == self.content().len(),
            r matches Err(e) ==> !self.reliable() && e.cause is Message,
    ;

    /// Some bytes from `offset` on: at most `max`, and none only where there are none.
    fn read_at(&self, offset: u64, max: usize) -> (r: Result<Vec<u8>, IoError>)
        ensures
            r matches Ok(bytes) ==> {
                &&& bytes@.len() <= max
                &&& bytes@ == clip(self.content(), offset as int, offset + bytes@.len())
                &&& bytes@.len() == 0 ==> max == 0 || offset >= self.content().len()
                &&& self.content().len() <= u64::MAX
            },
            r matches Err(e) ==> !self.reliable() && e.cause is Message,
    ;
}

/// Bytes that arrive in order.
pub trait Read {
    /// The bytes that are still to come.
    open spec fn remaining(&self) -> Seq<u8> {
        Seq::empty()
    }

    /// What happens after the last of them: the end of the data, or an error.
    open spec fn ending(&self) -> Option<Fault> {
        None
    }

    /// Whether nothing can go wrong before that.
    open spec fn reliable(&self) -> bool {
        false
    }

    /// Some of the next bytes, at most `max`. None means that the data has ended (or that none
    /// were asked for).
    fn read(&mut self, max: usize) -> (r: Result<Vec<u8>, IoError>)
        ensures
            old(self).reliable() ==> final(self).reliable(),
            r matches Ok(bytes) ==> {
                &&& bytes@.len() <= max
                &&& bytes@.len() <= old(self).remaining().len()
                &&& bytes@ == old(self).remaining().take(bytes@.len() as int)
                &&& final(self).remaining() == old(self).remaining().skip(bytes@.len() as int)
                &&& final(self).ending() == old(self).ending()
                &&& bytes@.len() == 0 && max > 0 ==> old(self).remaining().len() == 0
                    && old(self).ending() is None
            },
            r matches Err(e) ==> old(self).reliable() ==> {
                &&& old(self).remaining().len() == 0
                &&& old(self).ending() == Some(crate::error::unwrapped(e)@)
            },
    ;
}

/// A destination for bytes. It can be handed up to 2^64 - 1 of them.
pub trait Write {
    /// Everything written so far.
    open spec fn written(&self) -> Seq<u8> {
        Seq::empty()
    }

    /// Whether every write succeeds.
    open spec fn reliable(&self) -> bool {
        false
    }

    /// Append all of `data`.
    fn write_all(&mut self, data: &[u8]) -> (r: Result<(), IoError>)
        requires
            old(self).written().len() + data@.len() <= u64::MAX,
        ensures
            final(self).reliable() == old(self).reliable(),
            r is Ok ==> final(self).written() == old(self).written() + data@,
            r is Err ==> !old(self).reliable(),
    ;
}

impl Write for Vec<u8> {
    open spec fn written(&self) -> Seq<u8> {
        self@
    }

    open spec fn reliable(&self) -> bool {
        true
    }

    fn write_all(&mut self, data: &[u8]) -> (r: Result<(), IoError>) {
        self.extend_from_slice(data);
        assert(self@ =~= old(self)@ + data@);
        Ok(())
    }
}

/// A file held in memory.
#[derive(Debug)]
pub struct MemoryFile {
    /// Its content.
    pub bytes: Vec<u8>,
}

impl MemoryFile {
    /// A file with the given content.
    pub fn new(bytes: Vec<u8>) -> (r: Self)
        ensures
            r.content() == bytes@,
            r.reliable(),
    {
        MemoryFile { bytes }
    }
}

impl ReadSeek for MemoryFile {
    open spec fn content(&self) -> Seq<u8> {
        self.bytes@
    }

    open spec fn reliable(&self) -> bool {
        true
    }

    fn size(&self) -> (r: Result<u64, IoError>) {
        Ok(self.bytes.len() as u64)
    }

    fn read_at(&self, offset: u64, max: usize) -> (r: Result<Vec<u8>, IoError>) {
        let len: usize = self.bytes.len();
        if offset >= len as u64 || max == 0 {
            return Ok(Vec::new());
        }
        let from: usize = offset as usize;
        let take: usize = if len - from < max { len - from } else { max };
        let part = vstd::slice::slice_subrange(self.bytes.as_slice(), from, from + take);
        let out = vstd::slice::slice_to_vec(part);
        assert(out@ =~= clip(self.content(), offset as int, offset + out@.len()));
        Ok(out)
    }
}

/// A [`Write`] that counts what passes through, so that an embedding can prove its region came
/// out at exactly the length it committed to.
pub struct CountingWriter<'a, W: Write> {
    /// Where the bytes go.
    pub inner: &'a mut W,
    /// How many went there.
    pub count: u64,
}

impl<'a, W: Write> CountingWriter<'a, W> {
    /// Everything written to the inner writer so far.
    pub open spec fn written(&self) -> Seq<u8> {
        (*self.inner).written()
    }

    /// Whether the inner writer always succeeds.
    pub open spec fn reliable(&self) -> bool {
        (*self.inner).reliable()
    }

    /// The count is of bytes that were written.
    pub open spec fn wf(&self) -> bool {
        self.count <= self.written().len()
    }

    /// `self` is `before` with `data` written to it.
    pub open spec fn extends(&self, before: Self, data: Seq<u8>) -> bool {
        &&& self.written() == before.written() + data
        &&& self.count == before.count + data.len()
    }

    /// Wrap `inner`.
    pub fn new(inner: &'a mut W) -> (r: Self)
        ensures
            *r.inner == *old(inner),
            *final(r.inner) == *final(inner),
            r.count == 0,
            r.wf(),
    {
        CountingWriter { inner, count: 0 }
    }

    /// Bytes written so far.
    pub fn count(&self) -> (r: u64)
        ensures
            r == self.count,
    {
        self.count
    }

    /// Append all of `data`.
    pub fn write_all(&mut self, data: &[u8]) -> (r: Result<(), IoError>)
        requires
            old(self).wf(),
            old(self).written().len() + data@.len() <= u64::MAX,
        ensures
            *final(final(self).inner) == *final(old(self).inner),
            final(self).reliable() == old(self).reliable(),
            r is Ok ==> final(self).wf() && final(self).extends(*old(self), data@),
            r is Err ==> !old(self).reliable(),
    {
        match self.inner.write_all(data) {
            Ok(()) => {
                self.count = self.count + (data.len() as u64);
                Ok(())
            },
            Err(e) => Err(e),
        }
    }
}

/// Copy `[from, to)` of `src` to `dst`. A source that ends early has been changed behind our
/// back; `changed` is the error for that.
pub fn copy_range<S: ReadSeek, W: Write>(
    src: &S,
    dst: &mut CountingWriter<W>,
    from: u64,
    to: u64,
    changed: ZolalError,
) -> (r: Result<(), ZolalError>)
    requires
        old(dst).wf(),
        old(dst).written().len() + clip(src.content(), from as int, to as int).len() <= u64::MAX,
        from < to ==> to <= src.content().len(),
    ensures
        *final(final(dst).inner) == *final(old(dst).inner),
        final(dst).reliable() == old(dst).reliable(),
        r is Ok ==> final(dst).wf() && final(dst).extends(
            *old(dst),
            clip(src.content(), from as int, to as int),
        ),
        r is Err ==> !(src.reliable() && old(dst).reliable()),
{
    let mut pos: u64 = from;
    let ghost content = src.content();
    let ghost whole = clip(content, from as int, to as int);
    proof {
        assert(dst.written() =~= old(dst).written() + clip(content, from as int, pos as int));
    }
    while pos < to
        invariant
            from <= pos,
            from < to ==> pos <= to <= content.len(),
            from >= to ==> pos == from,
            content == src.content(),
            whole == clip(content, from as int, to as int),
            old(dst).wf(),
            old(dst).written().len() + whole.len() <= u64::MAX,
            *final(dst.inner) == *final(old(dst).inner),
            dst.reliable() == old(dst).reliable(),
            dst.wf(),
            dst.extends(*old(dst), clip(content, from as int, pos as int)),
        decreases to - pos,
    {
        let left: u64 = to - pos;
        let max: usize = if left < COPY_BLOCK as u64 { left as usize } else { COPY_BLOCK };
        let block = match src.read_at(pos, max) {
            Ok(block) => block,
            Err(e) => {
                return Err(ZolalError::from_io(e));
            },
        };
        if block.len() == 0 {
            return Err(changed);
        }
        let ghost before = clip(content, from as int, pos as int);
        proof {
            assert(before + block@ =~= clip(content, from as int, pos + block@.len()));
            assert(whole.len() >= (before + block@).len());
        }
        match dst.write_all(block.as_slice()) {
            Ok(()) => {},
            Err(e) => {
                return Err(ZolalError::from_io(e));
            },
        }
        assert(dst.written() =~= old(dst).written() + (before + block@));
        pos = pos + block.len() as u64;
    }
    proof {
        assert(clip(content, from as int, pos as int) =~= whole);
    }
    Ok(())
}

/// The bytes of the given `(offset, length)` pieces of `content`, back to back.
pub open spec fn gathered(content: Seq<u8>, parts: Seq<(u64, u64)>) -> Seq<u8>
    decreases parts.len(),
{
    if parts.len() == 0 {
        Seq::empty()
    } else {
        clip(content, parts[0].0 as int, parts[0].0 + parts[0].1) + gathered(
            content,
            parts.drop_first(),
        )
    }
}

/// One piece alone.
pub proof fn lemma_gather_one(content: Seq<u8>, offset: u64, len: u64)
    ensures
        gathered(content, seq![(offset, len)]) == clip(content, offset as int, offset + len),
{
    let parts = seq![(offset, len)];
    assert(parts.drop_first() =~= Seq::<(u64, u64)>::empty());
    assert(gathered(content, parts.drop_first()) =~= Seq::<u8>::empty());
    assert(gathered(content, parts) =~= clip(content, offset as int, offset + len));
}

/// Reads pieces of a file back to back.
pub struct RegionReader<'a, S: ReadSeek> {
    src: &'a S,
    /// `(offset, length)` of each piece, in order.
    parts: Vec<(u64, u64)>,
    /// The first piece not yet begun.
    next: usize,
    /// Where the piece being read goes on, and how much of it is left.
    pos: u64,
    left: u64,
}

impl<'a, S: ReadSeek> RegionReader<'a, S> {
    #[verifier::type_invariant]
    closed spec fn inv(&self) -> bool {
        self.next <= self.parts@.len()
    }

    /// Read `parts` of `src` in order.
    pub fn new(src: &'a S, parts: Vec<(u64, u64)>) -> (r: Self)
        ensures
            r.remaining() == gathered(src.content(), parts@),
            r.ending() is None,
            r.reliable() == src.reliable(),
    {
        let r = RegionReader { src, parts, next: 0, pos: 0, left: 0 };
        assert(r.parts@.skip(0) =~= parts@);
        assert(r.remaining() =~= gathered(src.content(), parts@));
        r
    }
}

impl<'a, S: ReadSeek> Read for RegionReader<'a, S> {
    closed spec fn remaining(&self) -> Seq<u8> {
        clip(self.src.content(), self.pos as int, self.pos + self.left) + gathered(
            self.src.content(),
            self.parts@.skip(self.next as int),
        )
    }

    open spec fn ending(&self) -> Option<Fault> {
        None
    }

    closed spec fn reliable(&self) -> bool {
        self.src.reliable()
    }

    fn read(&mut self, max: usize) -> (r: Result<Vec<u8>, IoError>) {
        if max == 0 {
            assert(self.remaining().take(0) =~= Seq::<u8>::empty());
            assert(self.remaining().skip(0) =~= self.remaining());
            return Ok(Vec::new());
        }
        let ghost content = self.src.content();
        proof {
            use_type_invariant(&*self);
        }
        loop
            invariant
                max > 0,
                self.next <= self.parts@.len(),
                content == self.src.content(),
                self.src == old(self).src,
                self.remaining() == old(self).remaining(),
            decreases self.parts.len() - self.next, self.left,
        {
            if self.left > 0 {
                let want: usize = if self.left < max as u64 { self.left as usize } else { max };
                let bytes = match self.src.read_at(self.pos, want) {
                    Ok(bytes) => bytes,
                    Err(e) => {
                        return Err(e);
                    },
                };
                let ghost tail = gathered(content, self.parts@.skip(self.next as int));
                let ghost here = clip(content, self.pos as int, self.pos + self.left);
                if bytes.len() > 0 {
                    let n: u64 = bytes.len() as u64;
                    let ghost pos0 = self.pos;
                    let ghost left0 = self.left;
                    proof {
                        assert(here =~= bytes@ + clip(content, self.pos + n, self.pos + self.left));
                        assert(self.remaining() == here + tail);
                    }
                    match self.pos.checked_add(n) {
                        Some(pos) => {
                            self.pos = pos;
                            self.left = self.left - n;
                        },
                        None => {
                            self.left = 0;
                        },
                    }
                    proof {
                        assert(clip(content, self.pos as int, self.pos + self.left) =~= clip(
                            content,
                            pos0 + n,
                            pos0 + left0,
                        ));
                        let rest = clip(content, self.pos as int, self.pos + self.left) + tail;
                        assert(self.remaining() == rest);
                        assert(bytes@ =~= old(self).remaining().take(n as int));
                        assert(self.remaining() =~= old(self).remaining().skip(n as int));
                    }
                    return Ok(bytes);
                }
                self.left = 0;
                assert(self.remaining() =~= old(self).remaining());
            } else if self.next < self.parts.len() {
                let (offset, len) = self.parts[self.next];
                proof {
                    let here = self.parts@.skip(self.next as int);
                    assert(here.drop_first() =~= self.parts@.skip(self.next + 1));
                    assert(here[0] == (offset, len));
                }
                self.pos = offset;
                self.left = len;
                self.next = self.next + 1;
                assert(self.remaining() =~= old(self).remaining());
            } else {
                assert(self.remaining() =~= Seq::<u8>::empty());
                assert(self.remaining().take(0) =~= Seq::<u8>::empty());
                assert(self.remaining().skip(0) =~= self.remaining());
                return Ok(Vec::new());
            }
        }
    }
}

/// Exactly `n` bytes from `offset` on, or `None` where the file ends before that.
pub fn read_exactly<S: ReadSeek>(src: &S, offset: u64, n: usize) -> (r: Result<
    Option<Vec<u8>>,
    ZolalError,
>)
    ensures
        match r {
            Ok(Some(bytes)) => offset + n <= src.content().len() && bytes@ == src.content().subrange(
                offset as int,
                offset + n,
            ),
            Ok(None) => offset + n > src.content().len(),
            Err(e) => !src.reliable() && e is Io,
        },
{
    let mut out: Vec<u8> = Vec::new();
    let ghost c = src.content();
    if n == 0 {
        return match src.size() {
            Ok(len) => if offset <= len {
                assert(out@ =~= c.subrange(offset as int, offset + n));
                Ok(Some(out))
            } else {
                Ok(None)
            },
            Err(e) => Err(ZolalError::from_io(e)),
        };
    }
    while out.len() < n
        invariant
            c == src.content(),
            out@.len() <= n,
            n > 0,
            out@.len() == 0 || (c.len() <= u64::MAX && offset + out@.len() <= c.len() && out@
                == c.subrange(offset as int, offset + out@.len())),
        decreases n - out@.len(),
    {
        let done: usize = out.len();
        let at: u64 = match offset.checked_add(done as u64) {
            Some(at) => at,
            None => {
                return Ok(None);
            },
        };
        let block = match src.read_at(at, n - done) {
            Ok(block) => block,
            Err(e) => {
                return Err(ZolalError::from_io(e));
            },
        };
        if block.len() == 0 {
            return Ok(None);
        }
        out.extend_from_slice(block.as_slice());
        assert(out@ =~= c.subrange(offset as int, offset + out@.len()));
    }
    Ok(Some(out))
}

/// Exactly `n` bytes from `offset` on. `cut` is the error where the file ends before that, or its source
/// says that it does.
pub fn read_header<S: ReadSeek>(src: &S, offset: u64, n: usize, cut: ZolalError) -> (r: Result<
    Vec<u8>,
    ZolalError,
>)
    ensures
        match r {
            Ok(bytes) => offset + n <= src.content().len() && bytes@ == src.content().subrange(
                offset as int,
                offset + n,
            ),
            Err(e) => e == cut && (!src.reliable() || offset + n > src.content().len()) || (
            !src.reliable() && e is Io && !ended_early(e@)),
        },
{
    match read_exactly(src, offset, n) {
        Ok(Some(bytes)) => Ok(bytes),
        Ok(None) => Err(cut),
        Err(ZolalError::Io(inner)) => if inner.kind() == IoErrorKind::UnexpectedEof {
            Err(cut)
        } else {
            Err(ZolalError::Io(inner))
        },
        Err(e) => Err(e),
    }
}

/// The bytes from `offset` on, at most `max` of them. Fewer means that the file ends there.
pub fn read_window<S: ReadSeek>(src: &S, offset: u64, max: usize) -> (r: Result<
    Vec<u8>,
    ZolalError,
>)
    ensures
        match r {
            Ok(bytes) => bytes@ == clip(src.content(), offset as int, offset + max),
            Err(e) => !src.reliable() && e is Io,
        },
{
    let ghost c = src.content();
    let mut out: Vec<u8> = Vec::new();
    assert(out@ =~= clip(c, offset as int, offset + out@.len()));
    while out.len() < max
        invariant_except_break
            out@.len() <= max,
            out@ == clip(c, offset as int, offset + out@.len()),
        invariant
            c == src.content(),
        ensures
            out@ == clip(c, offset as int, offset + max),
        decreases max - out@.len(),
    {
        let done: usize = out.len();
        let at: u64 = match offset.checked_add(done as u64) {
            Some(at) => at,
            None => {
                // A file cannot reach this far: only one that has been read into could.
                match src.size() {
                    Ok(len) => {
                        assert(len <= u64::MAX);
                        assert(out@ =~= clip(c, offset as int, offset + max));
                        break;
                    },
                    Err(e) => {
                        return Err(ZolalError::from_io(e));
                    },
                }
            },
        };
        let block = match src.read_at(at, max - done) {
            Ok(block) => block,
            Err(e) => {
                return Err(ZolalError::from_io(e));
            },
        };
        if block.len() == 0 {
            assert(out@ =~= clip(c, offset as int, offset + max));
            break;
        }
        out.extend_from_slice(block.as_slice());
        assert(out@ =~= clip(c, offset as int, offset + out@.len()));
    }
    Ok(out)
}

/// Bytes in memory, read in order.
#[derive(Debug)]
pub struct BytesReader {
    /// All of them.
    pub bytes: Vec<u8>,
    /// How many have been read.
    pub pos: usize,
}

impl BytesReader {
    /// Read `bytes` from the beginning.
    pub fn new(bytes: Vec<u8>) -> (r: Self)
        ensures
            r.remaining() == bytes@,
            r.ending() is None,
            r.reliable(),
    {
        let r = BytesReader { bytes, pos: 0 };
        assert(r.remaining() =~= bytes@);
        r
    }
}

impl Read for BytesReader {
    open spec fn remaining(&self) -> Seq<u8> {
        if self.pos <= self.bytes@.len() {
            self.bytes@.skip(self.pos as int)
        } else {
            Seq::empty()
        }
    }

    open spec fn ending(&self) -> Option<Fault> {
        None
    }

    open spec fn reliable(&self) -> bool {
        true
    }

    fn read(&mut self, max: usize) -> (r: Result<Vec<u8>, IoError>) {
        let ghost before = self.remaining();
        if self.pos >= self.bytes.len() {
            assert(before =~= Seq::<u8>::empty());
            assert(before.take(0) =~= Seq::<u8>::empty());
            assert(before.skip(0) =~= before);
            return Ok(Vec::new());
        }
        let left: usize = self.bytes.len() - self.pos;
        let n: usize = if left < max { left } else { max };
        let out = vstd::slice::slice_to_vec(
            vstd::slice::slice_subrange(self.bytes.as_slice(), self.pos, self.pos + n),
        );
        self.pos = self.pos + n;
        assert(out@ =~= before.take(n as int));
        assert(self.remaining() =~= before.skip(n as int));
        Ok(out)
    }
}

/// Exactly the next `n` bytes, or `None` where the data ends before that. They may be plaintext, so no
/// other copy of them is left behind.
pub fn read_exact<R: Read>(src: &mut R, n: usize) -> (r: Result<Option<Vec<u8>>, IoError>)
    ensures
        old(src).reliable() ==> final(src).reliable(),
        r matches Ok(Some(bytes)) ==> {
            &&& n <= old(src).remaining().len()
            &&& bytes@ == old(src).remaining().take(n as int)
            &&& final(src).remaining() == old(src).remaining().skip(n as int)
            &&& final(src).ending() == old(src).ending()
        },
        r matches Ok(None) ==> old(src).remaining().len() < n && old(src).ending() is None,
        r matches Err(e) ==> old(src).reliable() ==> {
            &&& old(src).remaining().len() < n
            &&& old(src).ending() == Some(crate::error::unwrapped(e)@)
        },
{
    let ghost all = src.remaining();
    let room: usize = if n < READ_ROOM { n } else { READ_ROOM };
    let mut out: Vec<u8> = Vec::with_capacity(room);
    proof {
        assert(out@ =~= all.take(0));
        assert(all.skip(0) =~= all);
    }
    while out.len() < n
        invariant
            out@.len() <= n,
            out@.len() <= all.len(),
            all == old(src).remaining(),
            out@ == all.take(out@.len() as int),
            src.remaining() == all.skip(out@.len() as int),
            src.ending() == old(src).ending(),
            old(src).reliable() ==> src.reliable(),
        decreases n - out@.len(),
    {
        let done: usize = out.len();
        let mut block = match src.read(n - done) {
            Ok(block) => block,
            Err(e) => {
                wipe_buffer(&mut out);
                return Err(e);
            },
        };
        if block.len() == 0 {
            wipe_buffer(&mut out);
            return Ok(None);
        }
        out.extend_from_slice(block.as_slice());
        assert(out@ =~= all.take(out@.len() as int));
        assert(all.skip(done as int).skip(block@.len() as int) =~= all.skip(out@.len() as int));
        wipe_buffer(&mut block);
    }
    Ok(Some(out))
}

/// Copy everything that `src` has to `dst`.
pub fn copy_all<R: Read, W: Write>(src: &mut R, dst: &mut W) -> (r: Result<u64, ZolalError>)
    requires
        old(dst).written().len() + old(src).remaining().len() <= u64::MAX,
    ensures
        final(dst).reliable() == old(dst).reliable(),
        r matches Ok(n) ==> {
            &&& old(src).ending() is None
            &&& n == old(src).remaining().len()
            &&& final(dst).written() == old(dst).written() + old(src).remaining()
        },
        r matches Err(e) ==> old(src).reliable() && old(dst).reliable() ==> {
            &&& old(src).ending() == Some(e@)
            &&& final(dst).written() == old(dst).written() + old(src).remaining()
        },
{
    let ghost all = src.remaining();
    let ghost start = dst.written();
    let mut done: u64 = 0;
    proof {
        assert(start + all.take(0) =~= start);
        assert(all.skip(0) =~= all);
    }
    loop
        invariant
            all == old(src).remaining(),
            start == old(dst).written(),
            start.len() + all.len() <= u64::MAX,
            done <= all.len(),
            src.remaining() == all.skip(done as int),
            src.ending() == old(src).ending(),
            old(src).reliable() ==> src.reliable(),
            dst.reliable() == old(dst).reliable(),
            dst.written() == start + all.take(done as int),
        decreases all.len() - done,
    {
        let block = match src.read(COPY_BLOCK) {
            Ok(block) => block,
            Err(e) => {
                assert(all.take(done as int) =~= all || !old(src).reliable());
                return Err(ZolalError::from_io(e));
            },
        };
        if block.len() == 0 {
            assert(all.take(done as int) =~= all);
            return Ok(done);
        }
        let ghost before = done as int;
        match dst.write_all(block.as_slice()) {
            Ok(()) => {},
            Err(e) => {
                return Err(ZolalError::from_io(e));
            },
        }
        done = done + block.len() as u64;
        proof {
            assert(all.take(before) + block@ =~= all.take(done as int));
            assert(dst.written() =~= start + all.take(done as int));
            assert(all.skip(before).skip(block@.len() as int) =~= all.skip(done as int));
        }
    }
}

} // verus!

//! Byte sources and the buffered block device over a raw volume handle.
//!
//! `ByteSource` is the byte-granular surface that the content readers
//! consume: a cursor over an immutable sequence of bytes. `RawDevice` is a
//! raw volume handle, whose seeks must land on a sector boundary. `Volume`
//! turns a `RawDevice` into a `ByteSource` by buffering: it only ever seeks
//! the raw handle to multiples of 512 and absorbs the alignment, so its
//! callers see a byte-granular cursor.
use vstd::prelude::*;

use crate::error::Error;

verus! {

/// Seek origin for the readers of this crate.
#[derive(Debug, Clone, Copy, PartialEq, Eq, Structural)]
pub enum SeekFrom {
    Start(u64),
    Current(i64),
    End(i64),
}

/// The position a read actually starts from: the cursor, clamped to the
/// end of the content when it points past it.
pub open spec fn read_start(content: Seq<u8>, pos: nat) -> int {
    if pos <= content.len() {
        pos as int
    } else {
        content.len() as int
    }
}

/// How many bytes a read of `n` at position `pos` returns: `n`, or
/// whatever remains before the end of the content.
pub open spec fn read_amount(content: Seq<u8>, pos: nat, n: nat) -> int {
    if n <= content.len() - read_start(content, pos) {
        n as int
    } else {
        content.len() - read_start(content, pos)
    }
}

/// A seekable source of bytes. `content` is the whole (immutable) byte
/// content behind the source, `pos` the cursor. No operation changes the
/// content; reads return exactly the bytes of the content at the cursor.
pub trait ByteSource: Sized {
    /// The byte content behind the source. Implementors define it; the
    /// default leaves it unspecified.
    open spec fn content(&self) -> Seq<u8> {
        arbitrary()
    }

    /// The cursor. Implementors define it; the default leaves it
    /// unspecified.
    open spec fn pos(&self) -> nat {
        arbitrary()
    }

    /// What a well-formed source of this kind is. Implementors define
    /// it; the default leaves it unspecified.
    open spec fn inv(&self) -> bool {
        arbitrary()
    }

    /// Moves the cursor to the absolute byte offset `p`. Seeking past the
    /// end of the content is allowed; a later read there returns no bytes.
    fn seek_to(&mut self, p: u64) -> (r: Result<(), Error>)
        requires
            old(self).inv(),
        ensures
            final(self).inv(),
            final(self).content() == old(self).content(),
            r is Ok ==> final(self).pos() == p as nat,
            r is Err ==> final(self).pos() == old(self).pos(),
    ;

    /// Reads exactly `min(n, remaining)` bytes at the cursor and advances
    /// the cursor past them.
    fn read_some(&mut self, n: usize) -> (r: Result<Vec<u8>, Error>)
        requires
            old(self).inv(),
        ensures
            final(self).inv(),
            final(self).content() == old(self).content(),
            match r {
                Ok(v) => {
                    &&& v@.len() == read_amount(old(self).content(), old(self).pos(), n as nat)
                    &&& v@ == old(self).content().subrange(
                        read_start(old(self).content(), old(self).pos()),
                        read_start(old(self).content(), old(self).pos()) + v@.len(),
                    )
                    &&& final(self).pos() == old(self).pos() + v@.len()
                },
                Err(_) => final(self).pos() == old(self).pos(),
            },
    ;

    /// Reads exactly `n` bytes, or fails with `Error::Io` when fewer than
    /// `n` bytes remain before the end of the content.
    fn read_exact(&mut self, n: usize) -> (r: Result<Vec<u8>, Error>)
        requires
            old(self).inv(),
        ensures
            final(self).inv(),
            final(self).content() == old(self).content(),
            match r {
                Ok(v) => {
                    &&& v@.len() == n
                    &&& final(self).pos() == old(self).pos() + n
                    &&& n > 0 ==> old(self).pos() + n <= old(self).content().len() && v@ == old(
                        self,
                    ).content().subrange(old(self).pos() as int, old(self).pos() + n)
                },
                Err(_) => final(self).pos() == old(self).pos() || final(self).pos() == old(
                    self,
                ).pos() + read_amount(old(self).content(), old(self).pos(), n as nat),
            },
    {
        let r = self.read_some(n)?;
        if r.len() == n {
            Ok(r)
        } else {
            Err(Error::Io)
        }
    }
}

/// A raw volume handle: a cursor over the bytes of the volume whose seeks
/// must land on a multiple of 512, the smallest sector size the host
/// accepts for raw volume reads.
pub trait RawDevice: Sized {
    /// The byte content of the device. Implementors define it; the
    /// default leaves it unspecified.
    open spec fn content(&self) -> Seq<u8> {
        arbitrary()
    }

    /// The raw cursor. Implementors define it; the default leaves it
    /// unspecified.
    open spec fn pos(&self) -> nat {
        arbitrary()
    }

    /// What a well-formed device of this kind is. Implementors define
    /// it; the default leaves it unspecified.
    open spec fn inv(&self) -> bool {
        arbitrary()
    }

    /// Seeks the raw handle to `p`, a multiple of 512.
    fn raw_seek(&mut self, p: u64) -> (r: Result<(), Error>)
        requires
            old(self).inv(),
            p as int % 512 == 0,
        ensures
            final(self).inv(),
            final(self).content() == old(self).content(),
            r is Ok ==> final(self).pos() == p as nat,
            r is Err ==> final(self).pos() == old(self).pos(),
    ;

    /// Reads exactly `min(n, remaining)` bytes at the raw cursor.
    fn raw_read(&mut self, n: usize) -> (r: Result<Vec<u8>, Error>)
        requires
            old(self).inv(),
        ensures
            final(self).inv(),
            final(self).content() == old(self).content(),
            match r {
                Ok(v) => {
                    &&& v@.len() == read_amount(old(self).content(), old(self).pos(), n as nat)
                    &&& v@ == old(self).content().subrange(
                        read_start(old(self).content(), old(self).pos()),
                        read_start(old(self).content(), old(self).pos()) + v@.len(),
                    )
                    &&& final(self).pos() == old(self).pos() + v@.len()
                    &&& old(self).pos() + v@.len() <= u64::MAX
                },
                Err(_) => final(self).pos() == old(self).pos(),
            },
    ;
}

/// An in-memory byte source: the test double for a volume handle, and the
/// backing of resident content.
pub struct MemDevice {
    data: Vec<u8>,
    pos: u64,
}

impl MemDevice {
    pub fn new(data: Vec<u8>) -> (r: MemDevice)
        ensures
            r.content() == data@,
            r.pos() == 0,
            r.inv(),
    {
        MemDevice { data, pos: 0 }
    }

    /// Moves the cursor; in-memory cursors never fail to seek.
    pub fn set_position(&mut self, p: u64)
        ensures
            final(self).content() == old(self).content(),
            final(self).pos() == p as nat,
            final(self).inv(),
    {
        self.pos = p;
    }

    /// The cursor, as an absolute byte offset.
    pub fn position(&self) -> (r: u64)
        ensures
            r == self.pos(),
    {
        self.pos
    }

    /// The number of bytes held.
    pub fn byte_len(&self) -> (r: usize)
        ensures
            r == self.content().len(),
    {
        self.data.len()
    }

    /// Copies out `min(n, remaining)` bytes at the cursor and advances it.
    fn take_bytes(&mut self, n: usize) -> (v: Vec<u8>)
        ensures
            final(self).data@ == old(self).data@,
            v@.len() == read_amount(old(self).data@, old(self).pos as nat, n as nat),
            v@ == old(self).data@.subrange(
                read_start(old(self).data@, old(self).pos as nat),
                read_start(old(self).data@, old(self).pos as nat) + v@.len(),
            ),
            final(self).pos == old(self).pos + v@.len(),
    {
        let len = self.data.len();
        let start: usize = if self.pos >= len as u64 {
            len
        } else {
            self.pos as usize
        };
        let k: usize = if n <= len - start {
            n
        } else {
            len - start
        };
        let mut v: Vec<u8> = Vec::new();
        let mut i: usize = 0;
        while i < k
            invariant
                i <= k,
                len == self.data@.len(),
                start + k <= len,
                v@.len() == i,
                v@ == self.data@.subrange(start as int, start + i),
            decreases k - i,
        {
            v.push(self.data[start + i]);
            proof {
                assert(v@ =~= self.data@.subrange(start as int, start + i + 1));
            }
            i = i + 1;
        }
        proof {
            if self.pos >= len {
                assert(v@ =~= self.data@.subrange(
                    read_start(self.data@, self.pos as nat),
                    read_start(self.data@, self.pos as nat) + v@.len(),
                ));
            }
        }
        self.pos = self.pos + k as u64;
        v
    }
}

impl ByteSource for MemDevice {
    closed spec fn content(&self) -> Seq<u8> {
        self.data@
    }

    closed spec fn pos(&self) -> nat {
        self.pos as nat
    }

    closed spec fn inv(&self) -> bool {
        true
    }

    fn seek_to(&mut self, p: u64) -> (r: Result<(), Error>) {
        self.pos = p;
        Ok(())
    }

    fn read_some(&mut self, n: usize) -> (r: Result<Vec<u8>, Error>) {
        Ok(self.take_bytes(n))
    }
}

/// An in-memory raw device: the test double for a raw volume handle.
pub struct MemRaw {
    data: Vec<u8>,
    pos: u64,
}

impl MemRaw {
    pub fn new(data: Vec<u8>) -> (r: MemRaw)
        ensures
            r.content() == data@,
            r.pos() == 0,
            r.inv(),
    {
        MemRaw { data, pos: 0 }
    }
}

impl RawDevice for MemRaw {
    closed spec fn content(&self) -> Seq<u8> {
        self.data@
    }

    closed spec fn pos(&self) -> nat {
        self.pos as nat
    }

    closed spec fn inv(&self) -> bool {
        true
    }

    fn raw_seek(&mut self, p: u64) -> (r: Result<(), Error>) {
        self.pos = p;
        Ok(())
    }

    fn raw_read(&mut self, n: usize) -> (r: Result<Vec<u8>, Error>) {
        let len = self.data.len();
        let start: usize = if self.pos >= len as u64 {
            len
        } else {
            self.pos as usize
        };
        let k: usize = if n <= len - start {
            n
        } else {
            len - start
        };
        let mut v: Vec<u8> = Vec::new();
        let mut i: usize = 0;
        while i < k
            invariant
                i <= k,
                len == self.data@.len(),
                start + k <= len,
                v@.len() == i,
                v@ == self.data@.subrange(start as int, start + i),
            decreases k - i,
        {
            v.push(self.data[start + i]);
            proof {
                assert(v@ =~= self.data@.subrange(start as int, start + i + 1));
            }
            i = i + 1;
        }
        proof {
            if self.pos >= len {
                assert(v@ =~= self.data@.subrange(
                    read_start(self.data@, self.pos as nat),
                    read_start(self.data@, self.pos as nat) + v@.len(),
                ));
            }
        }
        self.pos = self.pos + k as u64;
        Ok(v)
    }
}


/// Capacity of the in-memory buffer of a `Volume`: 1 MiB.
pub const BUF_CAPACITY: usize = 1048576;

/// The buffered block device: a byte-granular, seekable reader over a raw
/// volume handle whose reads and seeks must start on a sector boundary.
///
/// A seek only moves the logical cursor. A read first tries to serve bytes
/// from the retained buffer window; when the cursor lies outside the
/// window, the raw handle is re-aligned to the sector boundary at or below
/// the cursor, the buffer is refilled from there, and the read resumes
/// `cursor mod 512` bytes into the fresh buffer. Alignment violations can
/// therefore never reach the raw handle.
pub struct Volume<R: RawDevice> {
    raw: R,
    pos: u64,
    buf: Vec<u8>,
    buf_start: u64,
}

impl<R: RawDevice> Volume<R> {
    pub fn new(raw: R) -> (v: Volume<R>)
        requires
            raw.inv(),
        ensures
            v.inv(),
            v.content() == raw.content(),
            v.pos() == 0,
    {
        Volume { raw, pos: 0, buf: Vec::new(), buf_start: 0 }
    }

    /// The current logical byte offset.
    pub fn stream_position(&self) -> (r: u64)
        ensures
            r == self.pos(),
    {
        self.pos
    }

    /// Seeks the block device: from the start or from the current
    /// position. Seeking from the end is not supported — the volume
    /// size is not known at this layer — and fails with
    /// `Error::Unsupported`; a relative target outside `[0, u64::MAX]`
    /// fails with `Error::OutOfRange`. A seek only moves the logical
    /// cursor; the next read re-aligns the raw handle as needed.
    pub fn seek(&mut self, whence: SeekFrom) -> (r: Result<u64, Error>)
        requires
            old(self).inv(),
        ensures
            final(self).inv(),
            final(self).content() == old(self).content(),
            match r {
                Ok(v) => {
                    &&& final(self).pos() == v as nat
                    &&& match whence {
                        SeekFrom::Start(x) => v == x,
                        SeekFrom::Current(d) => v == old(self).pos() + d,
                        SeekFrom::End(_) => false,
                    }
                },
                Err(e) => {
                    &&& final(self).pos() == old(self).pos()
                    &&& match whence {
                        SeekFrom::Start(_) => false,
                        SeekFrom::Current(d) => e == Error::OutOfRange && (old(self).pos() + d < 0
                            || old(self).pos() + d > u64::MAX),
                        SeekFrom::End(_) => e == Error::Unsupported,
                    }
                },
            },
    {
        match whence {
            SeekFrom::Start(x) => {
                self.pos = x;
                Ok(x)
            },
            SeekFrom::Current(d) => {
                if d >= 0 {
                    let du = d as u64;
                    if self.pos <= u64::MAX - du {
                        self.pos = self.pos + du;
                        Ok(self.pos)
                    } else {
                        Err(Error::OutOfRange)
                    }
                } else {
                    let m = ((-(d + 1)) as u64) + 1;
                    if self.pos >= m {
                        self.pos = self.pos - m;
                        Ok(self.pos)
                    } else {
                        Err(Error::OutOfRange)
                    }
                }
            },
            SeekFrom::End(_) => Err(Error::Unsupported),
        }
    }

    /// Re-aligns the raw handle to the sector boundary at or below the
    /// cursor and refills the buffer from there, so that the buffer window
    /// covers the cursor whenever the cursor lies within the content.
    fn refill(&mut self) -> (r: Result<(), Error>)
        requires
            old(self).inv(),
        ensures
            final(self).inv(),
            final(self).raw.content() == old(self).raw.content(),
            final(self).pos == old(self).pos,
            r is Ok ==> (old(self).pos < old(self).raw.content().len() ==> final(self).buf_start
                <= final(self).pos < final(self).buf_start + final(self).buf@.len()),
    {
        let aligned = (self.pos / 512) * 512;
        proof {
            assert(aligned as int % 512 == 0 && aligned <= self.pos && self.pos - aligned < 512)
                by (nonlinear_arith)
                requires
                    aligned == (self.pos / 512) * 512,
            ;
        }
        self.raw.raw_seek(aligned)?;
        let fresh = self.raw.raw_read(BUF_CAPACITY)?;
        self.buf = fresh;
        self.buf_start = aligned;
        Ok(())
    }
}

impl<R: RawDevice> ByteSource for Volume<R> {
    closed spec fn content(&self) -> Seq<u8> {
        self.raw.content()
    }

    closed spec fn pos(&self) -> nat {
        self.pos as nat
    }

    closed spec fn inv(&self) -> bool {
        &&& self.raw.inv()
        &&& self.buf_start as int % 512 == 0
        &&& self.buf_start + self.buf@.len() <= u64::MAX
        &&& self.buf@.len() > 0 ==> self.buf_start + self.buf@.len() <= self.raw.content().len()
            && self.buf@ == self.raw.content().subrange(
            self.buf_start as int,
            self.buf_start + self.buf@.len(),
        )
    }

    fn seek_to(&mut self, p: u64) -> (r: Result<(), Error>) {
        self.pos = p;
        Ok(())
    }

    fn read_some(&mut self, n: usize) -> (r: Result<Vec<u8>, Error>) {
        let ghost c = self.raw.content();
        let ghost p0 = self.pos as nat;
        let start_pos = self.pos;
        let mut acc: Vec<u8> = Vec::new();
        if n == 0 {
            proof {
                assert(acc@ =~= c.subrange(read_start(c, p0), read_start(c, p0)));
            }
            return Ok(acc);
        }
        while acc.len() < n
            invariant_except_break
                self.inv(),
                self.raw.content() == c,
                c == old(self).raw.content(),
                p0 == old(self).pos as nat,
                start_pos as nat == p0,
                n > 0,
                acc@.len() <= n,
                self.pos as nat == p0 + acc@.len(),
                acc@.len() > 0 ==> p0 + acc@.len() <= c.len(),
                acc@ == c.subrange(read_start(c, p0), read_start(c, p0) + acc@.len()),
            ensures
                self.inv(),
                self.raw.content() == c,
                c == old(self).raw.content(),
                self.pos as nat == p0 + acc@.len(),
                acc@ == c.subrange(read_start(c, p0), read_start(c, p0) + acc@.len()),
                acc@.len() == read_amount(c, p0, n as nat),
            decreases n - acc.len(),
        {
            let mut in_window = self.pos >= self.buf_start && self.pos - self.buf_start < (
            self.buf.len() as u64);
            if !in_window {
                match self.refill() {
                    Ok(()) => (),
                    Err(e) => {
                        self.pos = start_pos;
                        return Err(e);
                    },
                }
                in_window = self.pos >= self.buf_start && self.pos - self.buf_start < (
                self.buf.len() as u64);
                if !in_window {
                    // The cursor is at or past the end of the content.
                    proof {
                        if acc@.len() > 0 {
                            assert(p0 + acc@.len() == c.len());
                        }
                    }
                    break ;
                }
            }
            // The window covers the cursor: serve from it.
            let off = (self.pos - self.buf_start) as usize;
            let buf_len = self.buf.len();
            let avail = buf_len - off;
            let want = n - acc.len();
            let take = if want <= avail {
                want
            } else {
                avail
            };
            let ghost len_before = acc@.len();
            let mut j: usize = 0;
            while j < take
                invariant
                    j <= take,
                    1 <= take,
                    off + take <= buf_len,
                    buf_len == self.buf@.len(),
                    self.inv(),
                    self.raw.content() == c,
                    self.buf@.len() > 0,
                    self.pos == self.buf_start + off,
                    self.pos as nat == p0 + len_before,
                    read_start(c, p0) == p0,
                    acc@.len() == len_before + j,
                    acc@ == c.subrange(read_start(c, p0), read_start(c, p0) + acc@.len()),
                decreases take - j,
            {
                let b = self.buf[off + j];
                proof {
                    assert(self.buf@[off + j] == c[self.buf_start + off + j]);
                    assert(acc@.push(b) =~= c.subrange(
                        read_start(c, p0),
                        read_start(c, p0) + acc@.len() + 1,
                    ));
                }
                acc.push(b);
                j = j + 1;
            }
            proof {
                assert(self.pos + take <= self.buf_start + self.buf@.len());
            }
            self.pos = self.pos + take as u64;
        }
        Ok(acc)
    }
}

/// A device read is random-access consistent: reading the range `[a, b)`
/// in two sequential pieces returns the same bytes as one read of
/// `b - a` bytes issued after a seek to `a`. The reader contracts pin
/// every read to a subrange of the device content, so the law is the
/// composition of adjacent subranges.
pub proof fn lemma_sequential_read_matches_seek_read(content: Seq<u8>, a: int, m: int, b: int)
    requires
        0 <= a <= m <= b <= content.len(),
    ensures
        content.subrange(a, m) + content.subrange(m, b) == content.subrange(a, b),
{
    assert(content.subrange(a, m) + content.subrange(m, b) =~= content.subrange(a, b));
}

} // verus!

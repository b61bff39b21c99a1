//! The record file of one segment: length-prefixed frames, one after another.

use crate::error::LogError;
use vstd::bytes::{
    lemma_auto_spec_u64_to_from_le_bytes, spec_u64_from_le_bytes, spec_u64_to_le_bytes,
    u64_from_le_bytes, u64_to_le_bytes,
};
use vstd::prelude::*;
use vstd::slice::{slice_subrange, slice_to_vec};

verus! {

/// Width in bytes of the length prefix of a frame.
pub const LEN_WIDTH: usize = 8;

/// The eight bytes of `n`, most significant first.
pub open spec fn be_bytes(n: u64) -> Seq<u8> {
    spec_u64_to_le_bytes(n).reverse()
}

/// The number that eight bytes spell, most significant first.
pub open spec fn be_value(bytes: Seq<u8>) -> u64 {
    spec_u64_from_le_bytes(bytes.reverse())
}

/// A payload as it stands in the file: its length in eight big-endian bytes,
/// then the payload itself.
pub open spec fn frame(payload: Seq<u8>) -> Seq<u8> {
    be_bytes(payload.len() as u64) + payload
}

/// The payload of the frame that begins at `pos`, or `None` where the length
/// prefix or the payload it announces runs past the end of `bytes`.
pub open spec fn frame_at(bytes: Seq<u8>, pos: int) -> Option<Seq<u8>> {
    if 0 <= pos && pos + 8 <= bytes.len() {
        let len = be_value(bytes.subrange(pos, pos + 8));
        if pos + 8 + len <= bytes.len() {
            Some(bytes.subrange(pos + 8, pos + 8 + len))
        } else {
            None
        }
    } else {
        None
    }
}

/// Whether a file of `len` bytes can take one more frame with a payload of
/// `payload_len` bytes and still be addressed.
pub open spec fn store_has_room(len: nat, payload_len: nat) -> bool {
    len + 8 + payload_len <= usize::MAX
}

/// Decoding undoes encoding, and an encoded length is eight bytes long.
pub proof fn lemma_be_round_trip(n: u64)
    ensures
        be_bytes(n).len() == 8,
        be_value(be_bytes(n)) == n,
{
    lemma_auto_spec_u64_to_from_le_bytes();
    let le = spec_u64_to_le_bytes(n);
    assert(le.reverse().reverse() =~= le);
}

/// A frame that was appended to `bytes` is found again at the old end, and
/// every frame that stood in `bytes` before is still found where it was.
pub proof fn lemma_frame_after_append(bytes: Seq<u8>, payload: Seq<u8>)
    requires
        payload.len() <= u64::MAX,
    ensures
        frame(payload).len() == 8 + payload.len(),
        frame_at(bytes + frame(payload), bytes.len() as int) == Some(payload),
        forall|pos: int| #[trigger]
            frame_at(bytes, pos) is Some ==> frame_at(bytes + frame(payload), pos) == frame_at(
                bytes,
                pos,
            ),
{
    lemma_be_round_trip(payload.len() as u64);
    let after = bytes + frame(payload);
    let at = bytes.len() as int;
    assert(after.subrange(at, at + 8) =~= be_bytes(payload.len() as u64));
    assert(after.subrange(at + 8, at + 8 + payload.len()) =~= payload);
    assert forall|pos: int| #[trigger] frame_at(bytes, pos) is Some implies frame_at(after, pos)
        == frame_at(bytes, pos) by {
        assert(after.subrange(pos, pos + 8) =~= bytes.subrange(pos, pos + 8));
        let len = be_value(bytes.subrange(pos, pos + 8));
        assert(after.subrange(pos + 8, pos + 8 + len) =~= bytes.subrange(pos + 8, pos + 8 + len));
    }
}

/// Encodes a length as eight bytes, most significant first.
fn encode_len(n: u64) -> (out: Vec<u8>)
    ensures
        out@ == be_bytes(n),
        out@.len() == 8,
{
    let le = u64_to_le_bytes(n);
    let mut out: Vec<u8> = Vec::new();
    let mut i: usize = 8;
    while i > 0
        invariant
            le@.len() == 8,
            i <= 8,
            out@.len() == 8 - i,
            forall|j: int| 0 <= j < out@.len() ==> out@[j] == le@[7 - j],
        decreases i,
    {
        i = i - 1;
        out.push(le[i]);
    }
    assert(out@ =~= le@.reverse());
    out
}

/// Decodes eight bytes, most significant first.
fn decode_len(bytes: &[u8]) -> (n: u64)
    requires
        bytes@.len() == 8,
    ensures
        n == be_value(bytes@),
{
    let mut le: Vec<u8> = Vec::new();
    let mut i: usize = 8;
    while i > 0
        invariant
            bytes@.len() == 8,
            i <= 8,
            le@.len() == 8 - i,
            forall|j: int| 0 <= j < le@.len() ==> le@[j] == bytes@[7 - j],
        decreases i,
    {
        i = i - 1;
        le.push(bytes[i]);
    }
    assert(le@ =~= bytes@.reverse());
    u64_from_le_bytes(le.as_slice())
}

/// The length of the payload of the frame that begins at `pos` in `bytes`,
/// if a whole frame does.
fn find_frame(bytes: &[u8], pos: u64) -> (r: Option<u64>)
    ensures
        match r {
            Some(len) => frame_at(bytes@, pos as int) == Some(
                bytes@.subrange(pos + 8, pos + 8 + len),
            ) && pos + 8 + len <= bytes@.len(),
            None => frame_at(bytes@, pos as int) is None,
        },
{
    let held: usize = bytes.len();
    if held < LEN_WIDTH || pos > (held - LEN_WIDTH) as u64 {
        return None;
    }
    let start: usize = pos as usize;
    let len: u64 = decode_len(slice_subrange(bytes, start, start + LEN_WIDTH));
    if len > (held - LEN_WIDTH - start) as u64 {
        return None;
    }
    Some(len)
}

/// Appends every byte of `src` to `dst`.
fn push_all(dst: &mut Vec<u8>, src: &[u8])
    ensures
        final(dst)@ == old(dst)@ + src@,
{
    let mut i: usize = 0;
    while i < src.len()
        invariant
            i <= src@.len(),
            dst@ == old(dst)@ + src@.subrange(0, i as int),
        decreases src@.len() - i,
    {
        dst.push(src[i]);
        i = i + 1;
        assert(dst@ =~= old(dst)@ + src@.subrange(0, i as int));
    }
    assert(src@.subrange(0, src@.len() as int) =~= src@);
}

/// The append-only record file of one segment, held in memory.
#[derive(Debug)]
pub struct Store {
    buf: Vec<u8>,
    size: u64,
    path: String,
}

impl View for Store {
    type V = Seq<u8>;

    /// The bytes of the file.
    closed spec fn view(&self) -> Seq<u8> {
        self.buf@
    }
}

impl Store {
    /// The recorded size agrees with the bytes held.
    pub closed spec fn wf(&self) -> bool {
        self.size == self.buf@.len() && self.buf@.len() <= usize::MAX
    }

    /// The name the store was opened under.
    pub closed spec fn spec_name(&self) -> Seq<char> {
        self.path@
    }

    /// The length of the payload of the frame that begins at `pos`, if a
    /// whole frame does.
    fn frame_len(&self, pos: u64) -> (r: Option<u64>)
        requires
            self.wf(),
        ensures
            match r {
                Some(len) => frame_at(self@, pos as int) == Some(
                    self@.subrange(pos + 8, pos + 8 + len),
                ) && pos + 8 + len <= self@.len(),
                None => frame_at(self@, pos as int) is None,
            },
    {
        find_frame(self.buf.as_slice(), pos)
    }

    /// Opens a store over `image`, the bytes that its file holds.
    pub fn new(image: Vec<u8>, path: String) -> (s: Store)
        ensures
            s.wf(),
            s@ == image@,
            s@.len() <= usize::MAX,
            s.spec_name() == path@,
    {
        let size: u64 = image.len() as u64;
        Store { buf: image, size, path }
    }

    /// Number of bytes in the file.
    pub fn size(&self) -> (n: u64)
        requires
            self.wf(),
        ensures
            n == self@.len(),
            n <= usize::MAX,
    {
        self.size
    }

    /// Writes `p` as one frame at the end of the file. Returns the number of
    /// bytes written, prefix included, and the position where the frame begins.
    /// Fails, and changes nothing, where the file would outgrow what can be
    /// addressed.
    pub fn append(&mut self, p: &[u8]) -> (r: Result<(u64, u64), LogError>)
        requires
            old(self).wf(),
        ensures
            final(self).wf(),
            final(self).spec_name() == old(self).spec_name(),
            match r {
                Ok((written, pos)) => {
                    &&& store_has_room(old(self)@.len(), p@.len())
                    &&& written == 8 + p@.len()
                    &&& pos == old(self)@.len()
                    &&& final(self)@ == old(self)@ + frame(p@)
                    &&& final(self)@.len() == old(self)@.len() + 8 + p@.len()
                },
                Err(e) => {
                    &&& !store_has_room(old(self)@.len(), p@.len())
                    &&& e == LogError::CapacityExceeded
                    &&& final(self)@ == old(self)@
                },
            },
    {
        let held: usize = self.buf.len();
        if held > usize::MAX - LEN_WIDTH || p.len() > usize::MAX - LEN_WIDTH - held {
            return Err(LogError::CapacityExceeded);
        }
        let pos: u64 = self.size;
        let prefix = encode_len(p.len() as u64);
        push_all(&mut self.buf, prefix.as_slice());
        push_all(&mut self.buf, p);
        let written: u64 = (p.len() + LEN_WIDTH) as u64;
        self.size = self.size + written;
        assert(self.buf@ =~= old(self).buf@ + frame(p@));
        Ok((written, pos))
    }

    /// Reads the payload of the frame that begins at `pos`. Fails where the
    /// length prefix or the payload does not lie wholly inside the file.
    pub fn read(&self, pos: u64) -> (r: Result<Vec<u8>, LogError>)
        requires
            self.wf(),
        ensures
            match r {
                Ok(payload) => frame_at(self@, pos as int) == Some(payload@),
                Err(e) => e == LogError::UnexpectedEof && frame_at(self@, pos as int) is None,
            },
    {
        match self.frame_len(pos) {
            Some(len) => {
                let from: usize = pos as usize + LEN_WIDTH;
                Ok(slice_to_vec(slice_subrange(self.buf.as_slice(), from, from + len as usize)))
            },
            None => Err(LogError::UnexpectedEof),
        }
    }

    /// Drops every frame; the name stays.
    pub fn clear(&mut self)
        requires
            old(self).wf(),
        ensures
            final(self).wf(),
            final(self)@ == Seq::<u8>::empty(),
            final(self).spec_name() == old(self).spec_name(),
    {
        self.buf.clear();
        self.size = 0;
    }

    /// Fills `buf` with the bytes that stand at `off` and after it, and returns
    /// how many were read: all of `buf`. Fails, and leaves `buf` as it is,
    /// where the file ends before `buf` is full.
    pub fn reat_at(&self, buf: &mut [u8], off: u64) -> (r: Result<usize, LogError>)
        requires
            self.wf(),
        ensures
            final(buf)@.len() == old(buf)@.len(),
            match r {
                Ok(n) => {
                    &&& n == old(buf)@.len()
                    &&& off + n <= self@.len()
                    &&& final(buf)@ == self@.subrange(off as int, off + n)
                },
                Err(e) => {
                    &&& e == LogError::UnexpectedEof
                    &&& off + old(buf)@.len() > self@.len()
                    &&& final(buf)@ == old(buf)@
                },
            },
    {
        let n: usize = buf.len();
        if off > self.size || n as u64 > self.size - off {
            return Err(LogError::UnexpectedEof);
        }
        let start: usize = off as usize;
        let mut i: usize = 0;
        while i < n
            invariant
                i <= n,
                n == buf@.len(),
                start + n <= self.buf@.len() <= usize::MAX,
                forall|k: int| 0 <= k < i ==> buf@[k] == self.buf@[start + k],
            decreases n - i,
        {
            buf[i] = self.buf[start + i];
            i = i + 1;
        }
        assert(buf@ =~= self@.subrange(off as int, off + n));
        Ok(n)
    }

    /// The name the store was opened under.
    pub fn name(self) -> (n: String)
        ensures
            n@ == self.spec_name(),
    {
        self.path
    }

    /// The bytes that the file of the store holds.
    pub fn image(&self) -> (image: Vec<u8>)
        ensures
            image@ == self@,
    {
        slice_to_vec(self.buf.as_slice())
    }

    /// Closes the store: hands back the bytes that its file must hold for the
    /// store to be opened again as it is now.
    pub fn close(&mut self) -> (r: Result<Vec<u8>, LogError>)
        requires
            old(self).wf(),
        ensures
            *final(self) == *old(self),
            r matches Ok(image) && image@ == old(self)@,
    {
        Ok(self.image())
    }
}

} // verus!

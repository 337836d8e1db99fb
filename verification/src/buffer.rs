//! The octet buffer: 512 bytes, a cursor, and bounds-checked reads and
//! writes of integers and names.

use vstd::prelude::*;
use vstd::slice::slice_subrange;
use vstd::string::StringExecFns;
use vstd::string::StringSliceAdditionalSpecFns;
use crate::error::DnsError;
use crate::name::{
    dotted, emission_from, has_long_label, label_end, lemma_long_label_is_refused,
    lemma_name_with_long_label_is_refused, lowercase, name_emission, name_end, utf8_lossy, walk,
    Emission, DOT, MAX_JUMPS, MAX_LABEL,
};
use crate::wire::{be16, be16_bytes, be32, be32_bytes, overlay};

verus! {

/// Size in bytes of every message buffer.
pub const PACKET_BUFFER_SIZE: usize = 512;

/// A message buffer: 512 bytes and a cursor.
pub struct BytePacketBuffer {
    pub buffer: [u8; PACKET_BUFFER_SIZE],
    pub pos: usize,
}

/// `Ok` where `ok` holds, the out-of-bounds error where it does not.
pub open spec fn in_bounds(ok: bool) -> Result<(), DnsError> {
    if ok {
        Ok(())
    } else {
        Err(DnsError::OutOfBounds)
    }
}

/// The result of a walk or an emission that met `error`.
pub open spec fn outcome(error: Option<DnsError>) -> Result<(), DnsError> {
    match error {
        Some(e) => Err(e),
        None => Ok(()),
    }
}

/// Runs `String::from_utf8_lossy` on `bytes`. The result is the text that
/// the contracts call `utf8_lossy(bytes)`; nothing more is claimed of it.
#[verifier::external_body]
fn decode_lossy(bytes: &[u8]) -> (res: String)
    ensures
        res@ == utf8_lossy(bytes@),
{
    String::from_utf8_lossy(bytes).into_owned()
}

/// Runs `str::to_lowercase` on `text`. The result is the text that the
/// contracts call `lowercase(text)`; nothing more is claimed of it.
#[verifier::external_body]
fn to_lowercase(text: &str) -> (res: String)
    ensures
        res@ == lowercase(text@),
{
    text.to_lowercase()
}

impl BytePacketBuffer {
    /// The cursor lies inside the buffer or just past its last byte.
    pub open spec fn wf(&self) -> bool {
        self.pos <= PACKET_BUFFER_SIZE
    }

    /// How many bytes lie between the cursor and the end of the buffer.
    pub open spec fn room(&self) -> int {
        if self.pos <= PACKET_BUFFER_SIZE {
            PACKET_BUFFER_SIZE - self.pos
        } else {
            0
        }
    }

    /// `after` is this buffer once `n` bytes were read at the cursor, or as
    /// many of them as there are. A cursor inside the buffer stays inside.
    pub open spec fn consumed(&self, after: &Self, n: int) -> bool {
        &&& after.buffer == self.buffer
        &&& after.pos == self.pos + if n <= self.room() {
            n
        } else {
            self.room()
        }
    }

    /// `after` is this buffer once `data` was written at the cursor, or as
    /// much of it as fits. A cursor inside the buffer stays inside.
    pub open spec fn wrote(&self, after: &Self, data: Seq<u8>) -> bool {
        &&& after.buffer@ == overlay(self.buffer@, self.pos as int, data)
        &&& after.pos == self.pos + if data.len() <= self.room() {
            data.len() as int
        } else {
            self.room()
        }
    }

    /// A buffer of zero bytes with the cursor at its start.
    pub fn new() -> (res: Self)
        ensures
            res.pos == 0,
            res.wf(),
            res.buffer@ == Seq::new(512, |i: int| 0u8),
    {
        Self { buffer: [0; PACKET_BUFFER_SIZE], pos: 0 }
    }

    /// Where the cursor stands.
    pub fn pos(&self) -> (res: usize)
        ensures
            res == self.pos,
    {
        self.pos
    }

    /// Moves the cursor forward by `steps`, unless that would take it past
    /// the end of the buffer.
    pub fn step(&mut self, steps: usize) -> (res: Result<(), DnsError>)
        ensures
            res == in_bounds(steps <= old(self).room()),
            old(self).wf() ==> final(self).wf(),
            final(self).buffer == old(self).buffer,
            final(self).pos == if steps <= old(self).room() {
                old(self).pos + steps
            } else {
                old(self).pos as int
            },
    {
        let room = if self.pos <= PACKET_BUFFER_SIZE {
            PACKET_BUFFER_SIZE - self.pos
        } else {
            0
        };
        if steps > room {
            return Err(DnsError::OutOfBounds);
        }
        self.pos += steps;
        Ok(())
    }

    /// Puts the cursor at `pos`, unless that lies past the end of the
    /// buffer.
    pub fn seek(&mut self, pos: usize) -> (res: Result<(), DnsError>)
        ensures
            res == in_bounds(pos <= PACKET_BUFFER_SIZE),
            old(self).wf() ==> final(self).wf(),
            final(self).buffer == old(self).buffer,
            final(self).pos == if pos <= PACKET_BUFFER_SIZE {
                pos
            } else {
                old(self).pos
            },
    {
        if pos > PACKET_BUFFER_SIZE {
            return Err(DnsError::OutOfBounds);
        }
        self.pos = pos;
        Ok(())
    }

    /// Reads the byte at the cursor.
    pub fn read(&mut self) -> (res: Result<u8, DnsError>)
        ensures
            old(self).consumed(final(self), 1),
            res == if old(self).room() >= 1 {
                Ok::<u8, DnsError>(old(self).buffer@[old(self).pos as int])
            } else {
                Err(DnsError::OutOfBounds)
            },
    {
        if self.pos >= PACKET_BUFFER_SIZE {
            return Err(DnsError::OutOfBounds);
        }
        let res = self.buffer[self.pos];
        self.pos += 1;
        Ok(res)
    }

    /// Reads two bytes at the cursor as a big-endian integer.
    pub fn read_u16(&mut self) -> (res: Result<u16, DnsError>)
        ensures
            old(self).consumed(final(self), 2),
            res == if old(self).room() >= 2 {
                Ok::<u16, DnsError>(
                    be16(
                        old(self).buffer@[old(self).pos as int],
                        old(self).buffer@[old(self).pos + 1],
                    ),
                )
            } else {
                Err(DnsError::OutOfBounds)
            },
    {
        let hi = self.read()?;
        let lo = self.read()?;
        Ok((hi as u16) * 256 + (lo as u16))
    }

    /// Reads four bytes at the cursor as a big-endian integer.
    pub fn read_u32(&mut self) -> (res: Result<u32, DnsError>)
        ensures
            old(self).consumed(final(self), 4),
            res == if old(self).room() >= 4 {
                Ok::<u32, DnsError>(
                    be32(
                        old(self).buffer@[old(self).pos as int],
                        old(self).buffer@[old(self).pos + 1],
                        old(self).buffer@[old(self).pos + 2],
                        old(self).buffer@[old(self).pos + 3],
                    ),
                )
            } else {
                Err(DnsError::OutOfBounds)
            },
    {
        let b0 = self.read()?;
        let b1 = self.read()?;
        let b2 = self.read()?;
        let b3 = self.read()?;
        Ok((b0 as u32) * 0x100_0000 + (b1 as u32) * 0x1_0000 + (b2 as u32) * 0x100 + (b3 as u32))
    }

    /// Writes one byte at the cursor.
    fn write(&mut self, val: u8) -> (res: Result<(), DnsError>)
        ensures
            old(self).wrote(final(self), seq![val]),
            res == in_bounds(old(self).room() >= 1),
    {
        if self.pos >= PACKET_BUFFER_SIZE {
            assert(overlay(self.buffer@, self.pos as int, seq![val]) =~= self.buffer@);
            return Err(DnsError::OutOfBounds);
        }
        self.buffer[self.pos] = val;
        self.pos += 1;
        assert(self.buffer@ =~= overlay(old(self).buffer@, old(self).pos as int, seq![val]));
        Ok(())
    }

    /// Writes one byte at the cursor.
    pub fn write_u8(&mut self, val: u8) -> (res: Result<(), DnsError>)
        ensures
            old(self).wrote(final(self), seq![val]),
            res == in_bounds(old(self).room() >= 1),
    {
        self.write(val)
    }

    /// Writes `val` at the cursor, most significant byte first.
    pub fn write_u16(&mut self, val: u16) -> (res: Result<(), DnsError>)
        ensures
            old(self).wrote(final(self), be16_bytes(val)),
            res == in_bounds(old(self).room() >= 2),
    {
        let ghost before = self.buffer@;
        let ghost at = self.pos as int;
        let hi = (val / 256) as u8;
        let lo = (val % 256) as u8;
        let first = self.write(hi);
        if first.is_err() {
            assert(self.buffer@ =~= overlay(before, at, be16_bytes(val)));
            return first;
        }
        let second = self.write(lo);
        assert(self.buffer@ =~= overlay(before, at, be16_bytes(val)));
        second
    }

    /// Writes `val` at the cursor, most significant byte first.
    pub fn write_u32(&mut self, val: u32) -> (res: Result<(), DnsError>)
        ensures
            old(self).wrote(final(self), be32_bytes(val)),
            res == in_bounds(old(self).room() >= 4),
    {
        let ghost before = self.buffer@;
        let ghost at = self.pos as int;
        let b0 = (val / 0x100_0000) as u8;
        let b1 = ((val / 0x1_0000) % 256) as u8;
        let b2 = ((val / 0x100) % 256) as u8;
        let b3 = (val % 256) as u8;
        let r0 = self.write(b0);
        if r0.is_err() {
            assert(self.buffer@ =~= overlay(before, at, be32_bytes(val)));
            return r0;
        }
        let r1 = self.write(b1);
        if r1.is_err() {
            assert(self.buffer@ =~= overlay(before, at, be32_bytes(val)));
            return r1;
        }
        let r2 = self.write(b2);
        if r2.is_err() {
            assert(self.buffer@ =~= overlay(before, at, be32_bytes(val)));
            return r2;
        }
        let r3 = self.write(b3);
        assert(self.buffer@ =~= overlay(before, at, be32_bytes(val)));
        r3
    }

    /// Writes the bytes of `data` at the cursor, in order, as far as they
    /// fit.
    pub fn write_all(&mut self, data: &[u8]) -> (res: Result<(), DnsError>)
        ensures
            old(self).wrote(final(self), data@),
            res == in_bounds(data@.len() <= old(self).room()),
    {
        let ghost before = *self;
        let n = data.len();
        let mut k: usize = 0;
        assert(overlay(self.buffer@, self.pos as int, data@.subrange(0, 0)) =~= self.buffer@);
        while k < n
            invariant
                before == *old(self),
                n == data@.len(),
                k <= n,
                before.wrote(self, data@.subrange(0, k as int)),
                k <= before.room(),
            decreases n - k,
        {
            let ghost mid = *self;
            let ghost done = data@.subrange(0, k as int);
            let r = self.write(data[k]);
            proof {
                Self::lemma_wrote_on(before, mid, *self, done, seq![data@[k as int]]);
                assert(done + seq![data@[k as int]] =~= data@.subrange(0, k + 1));
            }
            if r.is_err() {
                proof {
                    let part = data@.subrange(0, k + 1);
                    let more = data@.subrange(k + 1, n as int);
                    assert(data@ =~= part + more);
                    Self::lemma_wrote_more(before, *self, part, more);
                }
                return r;
            }
            k += 1;
        }
        assert(data@.subrange(0, n as int) =~= data@);
        Ok(())
    }

    /// The byte at `pos`, wherever the cursor is.
    pub fn get(&mut self, pos: usize) -> (res: Result<u8, DnsError>)
        ensures
            *final(self) == *old(self),
            res == if pos < PACKET_BUFFER_SIZE {
                Ok::<u8, DnsError>(old(self).buffer@[pos as int])
            } else {
                Err(DnsError::OutOfBounds)
            },
    {
        if pos >= PACKET_BUFFER_SIZE {
            return Err(DnsError::OutOfBounds);
        }
        Ok(self.buffer[pos])
    }

    /// The `len` bytes from `start` on, wherever the cursor is.
    pub fn get_range(&mut self, start: usize, len: usize) -> (res: Result<&[u8], DnsError>)
        ensures
            *final(self) == *old(self),
            match res {
                Ok(range) => {
                    &&& start + len <= PACKET_BUFFER_SIZE
                    &&& range@ == old(self).buffer@.subrange(start as int, start + len)
                },
                Err(e) => start + len > PACKET_BUFFER_SIZE && e == DnsError::OutOfBounds,
            },
    {
        if start > PACKET_BUFFER_SIZE || len > PACKET_BUFFER_SIZE - start {
            return Err(DnsError::OutOfBounds);
        }
        Ok(slice_subrange(self.buffer.as_slice(), start, start + len))
    }

    /// Overwrites the byte at `pos`, wherever the cursor is.
    fn set(&mut self, pos: usize, val: u8) -> (res: Result<(), DnsError>)
        ensures
            res == in_bounds(pos < PACKET_BUFFER_SIZE),
            final(self).pos == old(self).pos,
            final(self).buffer@ == overlay(old(self).buffer@, pos as int, seq![val]),
    {
        if pos >= PACKET_BUFFER_SIZE {
            assert(self.buffer@ =~= overlay(self.buffer@, pos as int, seq![val]));
            return Err(DnsError::OutOfBounds);
        }
        self.buffer[pos] = val;
        assert(self.buffer@ =~= overlay(old(self).buffer@, pos as int, seq![val]));
        Ok(())
    }

    /// Overwrites the two bytes at `pos` with `val`, most significant byte
    /// first, wherever the cursor is. Nothing is written unless both bytes
    /// lie inside the buffer.
    pub fn set_u16(&mut self, pos: usize, val: u16) -> (res: Result<(), DnsError>)
        ensures
            res == in_bounds(pos + 2 <= PACKET_BUFFER_SIZE),
            final(self).pos == old(self).pos,
            final(self).buffer@ == if pos + 2 <= PACKET_BUFFER_SIZE {
                overlay(old(self).buffer@, pos as int, be16_bytes(val))
            } else {
                old(self).buffer@
            },
    {
        if pos >= PACKET_BUFFER_SIZE - 1 {
            return Err(DnsError::OutOfBounds);
        }
        self.set(pos, (val / 256) as u8)?;
        self.set(pos + 1, (val % 256) as u8)?;
        assert(self.buffer@ =~= overlay(old(self).buffer@, pos as int, be16_bytes(val)));
        Ok(())
    }

    /// Reads the name at the cursor and appends its dotted, lowercase form
    /// to `outstr`.
    ///
    /// The name is followed through at most `MAX_JUMPS` compression
    /// pointers. The cursor ends just past the name field: past its zero
    /// byte, or past the first pointer in it. Where the walk fails, `outstr`
    /// has received the labels met before the failure, and the cursor has
    /// moved only if a first pointer was reached.
    pub fn read_qname(&mut self, outstr: &mut String) -> (res: Result<(), DnsError>)
        ensures
            old(self).wf() ==> final(self).wf(),
            final(self).buffer == old(self).buffer,
            final(self).pos == match name_end(old(self).buffer@, old(self).pos as int) {
                Some(end) => end,
                None => old(self).pos as int,
            },
            final(outstr)@ == old(outstr)@ + dotted(
                walk(old(self).buffer@, old(self).pos as int, 0).labels,
            ),
            res == outcome(walk(old(self).buffer@, old(self).pos as int, 0).error),
    {
        let ghost bytes = self.buffer@;
        let ghost start = self.pos as int;
        let ghost mut seen: Seq<Seq<u8>> = Seq::empty();
        let mut pos = self.pos;
        let mut jumped = false;
        let mut jumps_performed: usize = 0;
        let mut first = true;
        assert(old(outstr)@ + dotted(seen) =~= old(outstr)@);
        assert(seen + walk(bytes, start, 0).labels =~= walk(bytes, start, 0).labels);
        loop
            invariant
                self.buffer == old(self).buffer,
                bytes == old(self).buffer@,
                bytes.len() == PACKET_BUFFER_SIZE,
                start == old(self).pos,
                old(self).wf() ==> self.wf(),
                jumps_performed <= MAX_JUMPS + 1,
                jumped ==> pos < 0x4000,
                jumped <==> jumps_performed > 0,
                !jumped ==> self.pos == start && name_end(bytes, start) == name_end(
                    bytes,
                    pos as int,
                ),
                jumped ==> name_end(bytes, start) == Some(self.pos as int),
                walk(bytes, start, 0).labels == seen + walk(
                    bytes,
                    pos as int,
                    jumps_performed as int,
                ).labels,
                walk(bytes, start, 0).error == walk(
                    bytes,
                    pos as int,
                    jumps_performed as int,
                ).error,
                outstr@ == old(outstr)@ + dotted(seen),
                first <==> seen.len() == 0,
            decreases MAX_JUMPS + 1 - jumps_performed, 0x4000 - pos,
        {
            if jumps_performed > MAX_JUMPS {
                return Err(DnsError::PointerLoopLimit);
            }
            let len = self.get(pos)?;
            if len >= 0xC0 {
                let low = self.get(pos + 1)?;
                if !jumped {
                    self.seek(pos + 2)?;
                }
                pos = ((len - 0xC0) as usize) * 256 + (low as usize);
                jumped = true;
                jumps_performed += 1;
            } else if len == 0 {
                if !jumped {
                    self.seek(pos + 1)?;
                }
                return Ok(());
            } else {
                let raw = self.get_range(pos + 1, len as usize)?;
                let ghost label = bytes.subrange(pos + 1, pos + 1 + len);
                let ghost rest = walk(bytes, pos + 1 + len, jumps_performed as int);
                let text = decode_lossy(raw);
                let lower = to_lowercase(text.as_str());
                if !first {
                    proof {
                        reveal_strlit(".");
                    }
                    outstr.append(".");
                }
                outstr.append(lower.as_str());
                proof {
                    assert(".".view() =~= seq!['.']) by {
                        reveal_strlit(".");
                    }
                    assert(seen.push(label).drop_last() =~= seen);
                    assert(outstr@ =~= old(outstr)@ + dotted(seen.push(label)));
                    assert(seen + (seq![label] + rest.labels) =~= seen.push(label) + rest.labels);
                    seen = seen.push(label);
                }
                first = false;
                pos += 1 + len as usize;
            }
        }
    }

    /// Writes `qname` at the cursor: each of its labels behind a length
    /// byte, then a zero byte. No compression pointer is written.
    ///
    /// Bytes are written label by label until the name is finished, the
    /// buffer is full, or a label of more than 63 bytes is met.
    pub fn write_qname(&mut self, qname: &str) -> (res: Result<(), DnsError>)
        ensures
            old(self).wrote(final(self), name_emission(qname.spec_bytes()).bytes),
            res == emitted(old(self).room(), name_emission(qname.spec_bytes())),
    {
        let name = qname.as_bytes();
        let n = name.len();
        if n == 0 {
            return self.write(0);
        }
        let ghost before = *self;
        let ghost mut done: Seq<u8> = Seq::empty();
        let mut from: usize = 0;
        proof {
            assert(overlay(self.buffer@, self.pos as int, done) =~= self.buffer@);
            assert(done + emission_from(name@, 0).bytes =~= emission_from(name@, 0).bytes);
        }
        loop
            invariant
                before == *old(self),
                n == name@.len(),
                name@ == qname.spec_bytes(),
                n > 0,
                from <= n,
                before.wrote(self, done),
                done.len() <= before.room(),
                emission_from(name@, 0).bytes == done + emission_from(name@, from as int).bytes,
                emission_from(name@, 0).too_long == emission_from(name@, from as int).too_long,
            decreases n - from,
        {
            let mut end = from;
            while end < n && name[end] != DOT
                invariant
                    n == name@.len(),
                    from <= end <= n,
                    label_end(name@, from as int) == label_end(name@, end as int),
                decreases n - end,
            {
                end += 1;
            }
            let ghost rest = emission_from(name@, from as int);
            let ghost label = name@.subrange(from as int, end as int);
            let len = end - from;
            if len > MAX_LABEL {
                assert(done + rest.bytes =~= done);
                return Err(DnsError::LabelTooLong);
            }
            let ghost mid = *self;
            let head = self.write(len as u8);
            proof {
                Self::lemma_wrote_on(before, mid, *self, done, seq![len as u8]);
            }
            let ghost mut piece = seq![len as u8];
            if head.is_err() {
                proof {
                    assert(done + rest.bytes =~= (done + piece) + rest.bytes.subrange(
                        1,
                        rest.bytes.len() as int,
                    ));
                    Self::lemma_wrote_more(
                        before,
                        *self,
                        done + piece,
                        rest.bytes.subrange(1, rest.bytes.len() as int),
                    );
                }
                return head;
            }
            let mut k = from;
            while k < end
                invariant
                    before == *old(self),
                    name@ == qname.spec_bytes(),
                    n == name@.len(),
                    n > 0,
                    from <= k <= end <= n,
                    end - from <= MAX_LABEL,
                    piece == seq![(end - from) as u8] + name@.subrange(from as int, k as int),
                    before.wrote(self, done + piece),
                    (done + piece).len() <= before.room(),
                    rest.bytes.len() >= 1 + (end - from),
                    rest.bytes.subrange(0, 1 + (end - from)) == seq![(end - from) as u8]
                        + name@.subrange(from as int, end as int),
                    emission_from(name@, 0).bytes == done + rest.bytes,
                    emission_from(name@, 0).too_long == rest.too_long,
                decreases end - k,
            {
                let ghost mid = *self;
                let body = self.write(name[k]);
                proof {
                    Self::lemma_wrote_on(before, mid, *self, done + piece, seq![name@[k as int]]);
                    assert(piece + seq![name@[k as int]] =~= seq![(end - from) as u8]
                        + name@.subrange(from as int, k + 1));
                    assert((done + piece) + seq![name@[k as int]] =~= done + (piece
                        + seq![name@[k as int]]));
                    piece = piece + seq![name@[k as int]];
                }
                if body.is_err() {
                    proof {
                        let more = rest.bytes.subrange(piece.len() as int, rest.bytes.len() as int);
                        assert(piece =~= rest.bytes.subrange(0, 1 + (end - from)).subrange(
                            0,
                            piece.len() as int,
                        ));
                        assert(done + rest.bytes =~= (done + piece) + more);
                        Self::lemma_wrote_more(before, *self, done + piece, more);
                    }
                    return body;
                }
                k += 1;
            }
            if end == n {
                let ghost mid = *self;
                let last = self.write(0);
                proof {
                    Self::lemma_wrote_on(before, mid, *self, done + piece, seq![0u8]);
                    assert(done + rest.bytes =~= (done + piece) + seq![0u8]);
                }
                return last;
            }
            proof {
                assert(done + rest.bytes =~= (done + piece) + emission_from(
                    name@,
                    end + 1,
                ).bytes);
                done = done + piece;
            }
            from = end + 1;
        }
    }

    /// A write that follows a write that fitted: together they wrote the
    /// concatenation.
    pub proof fn lemma_wrote_on(
        before: Self,
        mid: Self,
        after: Self,
        first: Seq<u8>,
        second: Seq<u8>,
    )
        requires
            before.wrote(&mid, first),
            first.len() <= before.room(),
            mid.wrote(&after, second),
        ensures
            before.wrote(&after, first + second),
    {
        crate::wire::lemma_overlay_twice(before.buffer@, before.pos as int, first, second);
    }

    /// Two emissions written one after the other, the second only where the
    /// first succeeded, are the writing of the first followed by the second.
    pub proof fn lemma_emitted_then(
        before: Self,
        mid: Self,
        after: Self,
        first: Emission,
        next: Emission,
        first_res: Result<(), DnsError>,
        next_res: Result<(), DnsError>,
    )
        requires
            before.wrote(&mid, first.bytes),
            first_res == emitted(before.room(), first),
            first_res is Ok ==> mid.wrote(&after, next.bytes) && next_res == emitted(
                mid.room(),
                next,
            ),
            first_res is Err ==> after == mid && next_res == first_res,
        ensures
            before.wrote(&after, first.followed_by(next).bytes),
            next_res == emitted(before.room(), first.followed_by(next)),
    {
        if first_res is Ok {
            Self::lemma_wrote_on(before, mid, after, first.bytes, next.bytes);
        } else if !first.too_long {
            Self::lemma_wrote_more(before, after, first.bytes, next.bytes);
        }
    }

    /// A write that filled the buffer, or ran out of it, is also the
    /// writing of any longer string.
    pub proof fn lemma_wrote_more(before: Self, after: Self, data: Seq<u8>, more: Seq<u8>)
        requires
            before.wrote(&after, data),
            data.len() >= before.room(),
        ensures
            before.wrote(&after, data + more),
    {
        assert(overlay(before.buffer@, before.pos as int, data + more) =~= overlay(
            before.buffer@,
            before.pos as int,
            data,
        ));
    }
}

/// How a write of `e` ends in a buffer with `room` bytes left: out of bounds
/// where the bytes do not fit, else at the label that is too long, if there
/// is one.
pub open spec fn emitted(room: int, e: Emission) -> Result<(), DnsError> {
    if e.bytes.len() > room {
        Err(DnsError::OutOfBounds)
    } else if e.too_long {
        Err(DnsError::LabelTooLong)
    } else {
        Ok(())
    }
}

/// Writing a single label of more than 63 bytes fails with `LabelTooLong`,
/// whatever room the buffer has.
pub proof fn lemma_long_label_fails(label: Seq<u8>, room: int)
    requires
        label.len() > MAX_LABEL,
        forall|i: int| 0 <= i < label.len() ==> label[i] != DOT,
        0 <= room,
    ensures
        emitted(room, name_emission(label)) == Err::<(), DnsError>(DnsError::LabelTooLong),
{
    lemma_long_label_is_refused(label);
}

/// Writing a name of which some label has more than 63 bytes fails: with
/// `LabelTooLong` where the labels in front of that one fit into the buffer,
/// else with `OutOfBounds`.
pub proof fn lemma_name_with_long_label_fails(name: Seq<u8>, room: int)
    requires
        has_long_label(name, 0),
    ensures
        emitted(room, name_emission(name)) == Err::<(), DnsError>(
            if name_emission(name).bytes.len() <= room {
                DnsError::LabelTooLong
            } else {
                DnsError::OutOfBounds
            },
        ),
{
    lemma_name_with_long_label_is_refused(name);
}

} // verus!

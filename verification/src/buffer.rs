//! A fixed 512-byte datagram buffer with independent read and write cursors
//! and big-endian integer accessors.
//!
//! Every operation of `n` bytes at position `p` succeeds exactly when
//! `p + n < 512`; a write that would cross the bound fails with
//! `BufferFullError` and a read with `BufferEmptyError`, leaving the buffer
//! unchanged.

use vstd::prelude::*;

use crate::errors::NetworkBufferError;

verus! {

/// The largest datagram this resolver emits or accepts.
pub const MAX_MESSAGE_SIZE: usize = 512;

/// The big-endian bytes of a 16-bit value, most significant first.
pub open spec fn be_u16(v: u16) -> Seq<u8> {
    seq![((v >> 8) & 0xff) as u8, (v & 0xff) as u8]
}

/// The big-endian bytes of a 32-bit value, most significant first.
pub open spec fn be_u32(v: u32) -> Seq<u8> {
    seq![
        ((v >> 24) & 0xff) as u8,
        ((v >> 16) & 0xff) as u8,
        ((v >> 8) & 0xff) as u8,
        (v & 0xff) as u8,
    ]
}

/// The big-endian bytes of a 128-bit value, most significant first.
pub open spec fn be_u128(v: u128) -> Seq<u8> {
    Seq::new(16, |i: int| ((v >> ((15 - i) * 8)) & 0xff) as u8)
}

/// The 16-bit value read big-endian from `s` at position `p`.
pub open spec fn read_be_u16(s: Seq<u8>, p: int) -> u16 {
    (s[p] as u16) << 8 | s[p + 1] as u16
}

/// The 32-bit value read big-endian from `s` at position `p`.
pub open spec fn read_be_u32(s: Seq<u8>, p: int) -> u32 {
    (s[p] as u32) << 24 | (s[p + 1] as u32) << 16 | (s[p + 2] as u32) << 8 | s[p + 3] as u32
}

/// The 128-bit value read big-endian from `s` at position `p`.
pub open spec fn read_be_u128(s: Seq<u8>, p: int) -> u128 {
    read_be_u128_rec(s, p, 16)
}

/// Folds `n` bytes at `p` into a big-endian value, most significant first.
pub open spec fn read_be_u128_rec(s: Seq<u8>, p: int, n: int) -> u128
    decreases n,
{
    if n <= 0 {
        0u128
    } else {
        (read_be_u128_rec(s, p, n - 1) << 8) | s[p + n - 1] as u128
    }
}

/// A 512-byte scratch buffer with separate read and write cursors.
///
/// The backing store always holds exactly `MAX_MESSAGE_SIZE` bytes; the
/// cursors may sit anywhere, and each accessor checks its own bounds.
pub struct NetworkBuffer {
    pub read_cursor: usize,
    pub write_cursor: usize,
    pub buf: Vec<u8>,
}

impl NetworkBuffer {
    /// The backing store has its fixed capacity.
    pub open spec fn wf(&self) -> bool {
        self.buf@.len() == MAX_MESSAGE_SIZE
    }

    /// A fresh buffer: all zero bytes, both cursors at the start.
    pub fn new() -> (r: NetworkBuffer)
        ensures
            r.wf(),
            r.read_cursor == 0,
            r.write_cursor == 0,
            r.buf@ =~= Seq::new(MAX_MESSAGE_SIZE as nat, |i: int| 0u8),
    {
        let mut buf: Vec<u8> = Vec::new();
        let mut i: usize = 0;
        while i < MAX_MESSAGE_SIZE
            invariant
                i <= MAX_MESSAGE_SIZE,
                buf@.len() == i,
                buf@ =~= Seq::new(i as nat, |j: int| 0u8),
            decreases MAX_MESSAGE_SIZE - i,
        {
            buf.push(0);
            i = i + 1;
        }
        NetworkBuffer { read_cursor: 0, write_cursor: 0, buf }
    }

    /// Writes one byte at the write cursor.
    pub fn put_u8(&mut self, byte: u8) -> (r: Result<(), NetworkBufferError>)
        requires
            old(self).wf(),
        ensures
            final(self).wf(),
            final(self).read_cursor == old(self).read_cursor,
            old(self).write_cursor + 1 < MAX_MESSAGE_SIZE ==> {
                &&& r is Ok
                &&& final(self).write_cursor == old(self).write_cursor + 1
                &&& final(self).buf@ =~= old(self).buf@.update(old(self).write_cursor as int, byte)
            },
            old(self).write_cursor + 1 >= MAX_MESSAGE_SIZE ==> {
                &&& r matches Err(e) && e is BufferFullError
                &&& *final(self) == *old(self)
            },
    {
        if self.write_cursor >= MAX_MESSAGE_SIZE - 1 {
            return Err(NetworkBufferError::BufferFullError);
        }
        self.buf.set(self.write_cursor, byte);
        self.write_cursor = self.write_cursor + 1;
        Ok(())
    }

    /// Writes a 16-bit value big-endian at the write cursor.
    pub fn put_u16(&mut self, value: u16) -> (r: Result<usize, NetworkBufferError>)
        requires
            old(self).wf(),
        ensures
            final(self).wf(),
            final(self).read_cursor == old(self).read_cursor,
            old(self).write_cursor + 2 < MAX_MESSAGE_SIZE ==> {
                &&& r matches Ok(n) && n == 2
                &&& final(self).write_cursor == old(self).write_cursor + 2
                &&& final(self).buf@ =~= old(self).buf@.update(
                    old(self).write_cursor as int,
                    be_u16(value)[0],
                ).update(old(self).write_cursor + 1, be_u16(value)[1])
            },
            old(self).write_cursor + 2 >= MAX_MESSAGE_SIZE ==> {
                &&& r matches Err(e) && e is BufferFullError
                &&& *final(self) == *old(self)
            },
    {
        if self.write_cursor >= MAX_MESSAGE_SIZE - 2 {
            return Err(NetworkBufferError::BufferFullError);
        }
        self.buf.set(self.write_cursor, ((value >> 8) & 0xff) as u8);
        self.buf.set(self.write_cursor + 1, (value & 0xff) as u8);
        self.write_cursor = self.write_cursor + 2;
        Ok(2)
    }

    /// Writes a 16-bit value big-endian at a chosen index, leaving both
    /// cursors alone; used to backfill a reserved RDLENGTH field.
    pub fn set_u16(&mut self, index: usize, value: u16) -> (r: Result<(), NetworkBufferError>)
        requires
            old(self).wf(),
        ensures
            final(self).wf(),
            final(self).read_cursor == old(self).read_cursor,
            final(self).write_cursor == old(self).write_cursor,
            index + 2 < MAX_MESSAGE_SIZE ==> {
                &&& r is Ok
                &&& final(self).buf@ =~= old(self).buf@.update(index as int, be_u16(value)[0]).update(
                    index + 1,
                    be_u16(value)[1],
                )
            },
            index + 2 >= MAX_MESSAGE_SIZE ==> {
                &&& r matches Err(e) && e is BufferFullError
                &&& *final(self) == *old(self)
            },
    {
        if index >= MAX_MESSAGE_SIZE - 2 {
            return Err(NetworkBufferError::BufferFullError);
        }
        self.buf.set(index, ((value >> 8) & 0xff) as u8);
        self.buf.set(index + 1, (value & 0xff) as u8);
        Ok(())
    }

    /// Writes a 32-bit value big-endian at the write cursor.
    pub fn put_u32(&mut self, value: u32) -> (r: Result<usize, NetworkBufferError>)
        requires
            old(self).wf(),
        ensures
            final(self).wf(),
            final(self).read_cursor == old(self).read_cursor,
            old(self).write_cursor + 4 < MAX_MESSAGE_SIZE ==> {
                &&& r matches Ok(n) && n == 4
                &&& final(self).write_cursor == old(self).write_cursor + 4
                &&& final(self).buf@ =~= old(self).buf@.update(
                    old(self).write_cursor as int,
                    be_u32(value)[0],
                ).update(old(self).write_cursor + 1, be_u32(value)[1]).update(
                    old(self).write_cursor + 2,
                    be_u32(value)[2],
                ).update(old(self).write_cursor + 3, be_u32(value)[3])
            },
            old(self).write_cursor + 4 >= MAX_MESSAGE_SIZE ==> {
                &&& r matches Err(e) && e is BufferFullError
                &&& *final(self) == *old(self)
            },
    {
        if self.write_cursor >= MAX_MESSAGE_SIZE - 4 {
            return Err(NetworkBufferError::BufferFullError);
        }
        self.buf.set(self.write_cursor, ((value >> 24) & 0xff) as u8);
        self.buf.set(self.write_cursor + 1, ((value >> 16) & 0xff) as u8);
        self.buf.set(self.write_cursor + 2, ((value >> 8) & 0xff) as u8);
        self.buf.set(self.write_cursor + 3, (value & 0xff) as u8);
        self.write_cursor = self.write_cursor + 4;
        Ok(4)
    }

    /// Writes a 128-bit value big-endian at the write cursor.
    pub fn put_u128(&mut self, value: u128) -> (r: Result<(), NetworkBufferError>)
        requires
            old(self).wf(),
        ensures
            final(self).wf(),
            final(self).read_cursor == old(self).read_cursor,
            old(self).write_cursor + 16 < MAX_MESSAGE_SIZE ==> {
                &&& r is Ok
                &&& final(self).write_cursor == old(self).write_cursor + 16
                &&& final(self).buf@ =~= old(self).buf@.subrange(0, old(self).write_cursor as int) + be_u128(
                    value,
                ) + old(self).buf@.subrange(old(self).write_cursor + 16, MAX_MESSAGE_SIZE as int)
            },
            old(self).write_cursor + 16 >= MAX_MESSAGE_SIZE ==> {
                &&& r matches Err(e) && e is BufferFullError
                &&& *final(self) == *old(self)
            },
    {
        if self.write_cursor >= MAX_MESSAGE_SIZE - 16 {
            return Err(NetworkBufferError::BufferFullError);
        }
        let mut i: usize = 0;
        while i < 16
            invariant
                old(self).wf(),
                i <= 16,
                old(self).write_cursor + 16 < MAX_MESSAGE_SIZE,
                self.write_cursor == old(self).write_cursor,
                self.read_cursor == old(self).read_cursor,
                self.buf@.len() == MAX_MESSAGE_SIZE,
                forall|j: int|
                    0 <= j < MAX_MESSAGE_SIZE && !(self.write_cursor <= j
                        < self.write_cursor + i) ==> self.buf@[j] == old(self).buf@[j],
                forall|j: int|
                    0 <= j < i ==> self.buf@[self.write_cursor + j] == be_u128(value)[j],
            decreases 16 - i,
        {
            let shift: u32 = ((15 - i) * 8) as u32;
            let byte: u8 = ((value >> shift) & 0xff) as u8;
            self.buf.set(self.write_cursor + i, byte);
            i = i + 1;
        }
        self.write_cursor = self.write_cursor + 16;
        proof {
            assert(self.buf@ =~= old(self).buf@.subrange(0, old(self).write_cursor as int)
                + be_u128(value) + old(self).buf@.subrange(
                old(self).write_cursor + 16,
                MAX_MESSAGE_SIZE as int,
            ));
        }
        Ok(())
    }

    /// Appends each byte of `bytes` in order; stops at the first failure.
    pub fn put_bytes(&mut self, bytes: &[u8]) -> (r: Result<(), NetworkBufferError>)
        requires
            old(self).wf(),
        ensures
            final(self).wf(),
            final(self).read_cursor == old(self).read_cursor,
            old(self).write_cursor + bytes@.len() + 1 <= MAX_MESSAGE_SIZE ==> {
                &&& r is Ok
                &&& final(self).write_cursor == old(self).write_cursor + bytes@.len()
                &&& final(self).buf@ =~= old(self).buf@.subrange(0, old(self).write_cursor as int)
                    + bytes@ + old(self).buf@.subrange(
                    old(self).write_cursor + bytes@.len(),
                    MAX_MESSAGE_SIZE as int,
                )
            },
            r is Err ==> (r matches Err(e) && e is BufferFullError) && old(self).write_cursor
                + bytes@.len() + 1 > MAX_MESSAGE_SIZE,
            (old(self).write_cursor + bytes@.len() + 1 > MAX_MESSAGE_SIZE && bytes@.len() > 0)
                ==> {
                &&& r matches Err(e) && e is BufferFullError
                &&& (old(self).write_cursor + 1 >= MAX_MESSAGE_SIZE ==> final(self).write_cursor
                    == old(self).write_cursor && final(self).buf@ =~= old(self).buf@)
                &&& (old(self).write_cursor + 1 < MAX_MESSAGE_SIZE ==> {
                    &&& final(self).write_cursor == MAX_MESSAGE_SIZE - 1
                    &&& final(self).buf@ =~= old(self).buf@.subrange(
                        0,
                        old(self).write_cursor as int,
                    ) + bytes@.take(
                        MAX_MESSAGE_SIZE - 1 - old(self).write_cursor,
                    ) + old(self).buf@.subrange(
                        MAX_MESSAGE_SIZE as int - 1,
                        MAX_MESSAGE_SIZE as int,
                    )
                })
            },
    {
        let mut i: usize = 0;
        while i < bytes.len()
            invariant
                old(self).wf(),
                self.wf(),
                i <= bytes@.len(),
                self.read_cursor == old(self).read_cursor,
                self.write_cursor == old(self).write_cursor + i,
                i > 0 ==> old(self).write_cursor + i <= MAX_MESSAGE_SIZE - 1,
                forall|j: int|
                    0 <= j < MAX_MESSAGE_SIZE && !(old(self).write_cursor <= j < old(
                        self,
                    ).write_cursor + i) ==> self.buf@[j] == old(self).buf@[j],
                forall|j: int| 0 <= j < i ==> self.buf@[old(self).write_cursor + j] == bytes@[j],
            decreases bytes@.len() - i,
        {
            let res = self.put_u8(bytes[i]);
            if res.is_err() {
                proof {
                    if old(self).write_cursor + 1 < MAX_MESSAGE_SIZE {
                        assert(self.buf@ =~= old(self).buf@.subrange(
                            0,
                            old(self).write_cursor as int,
                        ) + bytes@.take(MAX_MESSAGE_SIZE - 1 - old(self).write_cursor) + old(
                            self,
                        ).buf@.subrange(MAX_MESSAGE_SIZE as int - 1, MAX_MESSAGE_SIZE as int));
                    }
                }
                return Err(NetworkBufferError::BufferFullError);
            }
            i = i + 1;
        }
        proof {
            if old(self).write_cursor + bytes@.len() + 1 <= MAX_MESSAGE_SIZE {
                assert(self.buf@ =~= old(self).buf@.subrange(0, old(self).write_cursor as int)
                    + bytes@ + old(self).buf@.subrange(
                    old(self).write_cursor + bytes@.len(),
                    MAX_MESSAGE_SIZE as int,
                ));
            }
        }
        Ok(())
    }

    /// Reads one byte at the read cursor.
    pub fn get_u8(&mut self) -> (r: Result<u8, NetworkBufferError>)
        requires
            old(self).wf(),
        ensures
            final(self).wf(),
            final(self).buf@ == old(self).buf@,
            final(self).write_cursor == old(self).write_cursor,
            old(self).read_cursor + 1 < MAX_MESSAGE_SIZE ==> {
                &&& r matches Ok(b) && b == old(self).buf@[old(self).read_cursor as int]
                &&& final(self).read_cursor == old(self).read_cursor + 1
            },
            old(self).read_cursor + 1 >= MAX_MESSAGE_SIZE ==> {
                &&& r matches Err(e) && e is BufferEmptyError
                &&& *final(self) == *old(self)
            },
    {
        if self.read_cursor >= MAX_MESSAGE_SIZE - 1 {
            return Err(NetworkBufferError::BufferEmptyError);
        }
        let byte: u8 = self.buf[self.read_cursor];
        self.read_cursor = self.read_cursor + 1;
        Ok(byte)
    }

    /// Reads a 16-bit value big-endian at the read cursor.
    pub fn get_u16(&mut self) -> (r: Result<u16, NetworkBufferError>)
        requires
            old(self).wf(),
        ensures
            final(self).wf(),
            final(self).buf@ == old(self).buf@,
            final(self).write_cursor == old(self).write_cursor,
            old(self).read_cursor + 2 < MAX_MESSAGE_SIZE ==> {
                &&& r matches Ok(v) && v == read_be_u16(old(self).buf@, old(self).read_cursor as int)
                &&& final(self).read_cursor == old(self).read_cursor + 2
            },
            old(self).read_cursor + 2 >= MAX_MESSAGE_SIZE ==> {
                &&& r matches Err(e) && e is BufferEmptyError
                &&& *final(self) == *old(self)
            },
    {
        if self.read_cursor >= MAX_MESSAGE_SIZE - 2 {
            return Err(NetworkBufferError::BufferEmptyError);
        }
        let hi: u8 = self.buf[self.read_cursor];
        let lo: u8 = self.buf[self.read_cursor + 1];
        self.read_cursor = self.read_cursor + 2;
        Ok((hi as u16) << 8 | lo as u16)
    }

    /// Reads a 32-bit value big-endian at the read cursor.
    pub fn get_u32(&mut self) -> (r: Result<u32, NetworkBufferError>)
        requires
            old(self).wf(),
        ensures
            final(self).wf(),
            final(self).buf@ == old(self).buf@,
            final(self).write_cursor == old(self).write_cursor,
            old(self).read_cursor + 4 < MAX_MESSAGE_SIZE ==> {
                &&& r matches Ok(v) && v == read_be_u32(old(self).buf@, old(self).read_cursor as int)
                &&& final(self).read_cursor == old(self).read_cursor + 4
            },
            old(self).read_cursor + 4 >= MAX_MESSAGE_SIZE ==> {
                &&& r matches Err(e) && e is BufferEmptyError
                &&& *final(self) == *old(self)
            },
    {
        if self.read_cursor >= MAX_MESSAGE_SIZE - 4 {
            return Err(NetworkBufferError::BufferEmptyError);
        }
        let b0: u8 = self.buf[self.read_cursor];
        let b1: u8 = self.buf[self.read_cursor + 1];
        let b2: u8 = self.buf[self.read_cursor + 2];
        let b3: u8 = self.buf[self.read_cursor + 3];
        self.read_cursor = self.read_cursor + 4;
        Ok((b0 as u32) << 24 | (b1 as u32) << 16 | (b2 as u32) << 8 | b3 as u32)
    }

    /// Reads a 128-bit value big-endian at the read cursor.
    pub fn get_u128(&mut self) -> (r: Result<u128, NetworkBufferError>)
        requires
            old(self).wf(),
        ensures
            final(self).wf(),
            final(self).buf@ == old(self).buf@,
            final(self).write_cursor == old(self).write_cursor,
            old(self).read_cursor + 16 < MAX_MESSAGE_SIZE ==> {
                &&& r matches Ok(v) && v == read_be_u128(old(self).buf@, old(self).read_cursor as int)
                &&& final(self).read_cursor == old(self).read_cursor + 16
            },
            old(self).read_cursor + 16 >= MAX_MESSAGE_SIZE ==> {
                &&& r matches Err(e) && e is BufferEmptyError
                &&& *final(self) == *old(self)
            },
    {
        if self.read_cursor >= MAX_MESSAGE_SIZE - 16 {
            return Err(NetworkBufferError::BufferEmptyError);
        }
        let mut value: u128 = 0;
        let mut i: usize = 0;
        while i < 16
            invariant
                self.wf(),
                i <= 16,
                old(self).read_cursor + 16 < MAX_MESSAGE_SIZE,
                *self == *old(self),
                value == read_be_u128_rec(self.buf@, self.read_cursor as int, i as int),
            decreases 16 - i,
        {
            let byte: u8 = self.buf[self.read_cursor + i];
            value = (value << 8) | byte as u128;
            i = i + 1;
        }
        self.read_cursor = self.read_cursor + 16;
        Ok(value)
    }

    /// Moves both cursors back to the start; the bytes stay as they are.
    pub fn reset(&mut self)
        requires
            old(self).wf(),
        ensures
            final(self).wf(),
            final(self).read_cursor == 0,
            final(self).write_cursor == 0,
            final(self).buf@ == old(self).buf@,
    {
        self.read_cursor = 0;
        self.write_cursor = 0;
    }

    /// How many bytes have been written so far.
    pub fn write_count(&self) -> (r: usize)
        ensures
            r == self.write_cursor,
    {
        self.write_cursor
    }
}

} // verus!

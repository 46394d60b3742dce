//! A read position in a borrowed byte buffer, and the big-endian integers of
//! the wire format.

use vstd::prelude::*;
use crate::error::DnsError;

verus! {

/// The 16-bit value whose big-endian bytes stand at `pos` and `pos + 1`.
pub open spec fn u16_at(data: Seq<u8>, pos: int) -> u16 {
    (data[pos] as int * 256 + data[pos + 1] as int) as u16
}

/// The 32-bit value whose big-endian bytes stand at `pos` to `pos + 3`.
pub open spec fn u32_at(data: Seq<u8>, pos: int) -> u32 {
    (data[pos] as int * 16777216 + data[pos + 1] as int * 65536 + data[pos + 2] as int * 256
        + data[pos + 3] as int) as u32
}

/// The two big-endian bytes of a 16-bit value.
pub open spec fn u16_bytes(x: u16) -> Seq<u8> {
    seq![(x / 256) as u8, (x % 256) as u8]
}

/// The four big-endian bytes of a 32-bit value.
pub open spec fn u32_bytes(x: u32) -> Seq<u8> {
    seq![
        (x / 16777216) as u8,
        ((x / 65536) % 256) as u8,
        ((x / 256) % 256) as u8,
        (x % 256) as u8,
    ]
}

/// The big-endian bytes of a 16-bit value add up to the value.
proof fn lemma_u16_split(x: u16)
    ensures
        x / 256 < 256,
        (x / 256) * 256 + x % 256 == x,
{
    assert(x / 256 < 256 && (x / 256) * 256 + x % 256 == x) by (bit_vector);
}

/// The big-endian bytes of a 32-bit value add up to the value.
proof fn lemma_u32_split(x: u32)
    ensures
        x / 16777216 < 256,
        (x / 16777216) * 16777216 + ((x / 65536) % 256) * 65536 + ((x / 256) % 256) * 256 + x % 256
            == x,
{
    assert(x / 16777216 < 256 && (x / 16777216) * 16777216 + ((x / 65536) % 256) * 65536 + ((x
        / 256) % 256) * 256 + x % 256 == x) by (bit_vector);
}

/// Reading back the bytes of a 16-bit value gives the value.
pub proof fn lemma_u16_round_trip(data: Seq<u8>, pos: int, x: u16)
    requires
        0 <= pos,
        pos + 2 <= data.len(),
        data.subrange(pos, pos + 2) == u16_bytes(x),
    ensures
        u16_at(data, pos) == x,
{
    let b = u16_bytes(x);
    let s = data.subrange(pos, pos + 2);
    assert(data[pos] == s[0]);
    assert(data[pos + 1] == s[1]);
    lemma_u16_split(x);
    assert(b[0] == x / 256);
    assert(b[1] == x % 256);
}

/// Reading back the bytes of a 32-bit value gives the value.
pub proof fn lemma_u32_round_trip(data: Seq<u8>, pos: int, x: u32)
    requires
        0 <= pos,
        pos + 4 <= data.len(),
        data.subrange(pos, pos + 4) == u32_bytes(x),
    ensures
        u32_at(data, pos) == x,
{
    let b = u32_bytes(x);
    let s = data.subrange(pos, pos + 4);
    assert(data[pos] == s[0]);
    assert(data[pos + 1] == s[1]);
    assert(data[pos + 2] == s[2]);
    assert(data[pos + 3] == s[3]);
    lemma_u32_split(x);
    assert(b[0] == x / 16777216);
    assert(b[1] == (x / 65536) % 256);
    assert(b[2] == (x / 256) % 256);
    assert(b[3] == x % 256);
}

/// The `n` bytes that stand at `pos` and after it.
pub open spec fn bytes_at(data: Seq<u8>, pos: int, n: nat) -> Seq<u8> {
    Seq::new(n, |i: int| data[pos + i])
}

/// Whether `data` holds at `pos` as much of `wire` as it has room for: all of
/// it, or what is left of it when `data` ends before `wire` does.
pub open spec fn holds_start_of(data: Seq<u8>, pos: int, wire: Seq<u8>) -> bool {
    forall|i: int| 0 <= i < wire.len() && pos + i < data.len() ==> data[pos + i] == #[trigger] wire[i]
}

/// If `data` has room for all of `wire`, it holds all of it.
pub proof fn lemma_holds_all(data: Seq<u8>, pos: int, wire: Seq<u8>)
    requires
        0 <= pos,
        holds_start_of(data, pos, wire),
        pos + wire.len() <= data.len(),
    ensures
        data.subrange(pos, pos + wire.len()) == wire,
{
    assert forall|i: int| 0 <= i < wire.len() implies data[pos + i] == wire[i] by {
        assert(data[pos + i] == wire[i]);
    }
    assert(data.subrange(pos, pos + wire.len()) =~= wire);
}

/// What holds of two parts written one after the other holds of each.
pub proof fn lemma_holds_parts(data: Seq<u8>, pos: int, first: Seq<u8>, second: Seq<u8>)
    requires
        holds_start_of(data, pos, first + second),
    ensures
        holds_start_of(data, pos, first),
        holds_start_of(data, pos + first.len(), second),
{
    let wire = first + second;
    assert forall|i: int| 0 <= i < first.len() && pos + i < data.len() implies data[pos + i]
        == #[trigger] first[i] by {
        assert(wire[i] == first[i]);
    }
    assert forall|i: int| 0 <= i < second.len() && pos + first.len() + i < data.len() implies data[pos
        + first.len() + i] == #[trigger] second[i] by {
        assert(wire[first.len() + i] == second[i]);
    }
}

/// A buffer cut short holds the start of what it held in full.
pub proof fn lemma_cut_holds(wire: Seq<u8>, k: int)
    requires
        0 <= k <= wire.len(),
    ensures
        holds_start_of(wire.take(k), 0, wire),
{
}

/// Appends the two big-endian bytes of `x` to `out`.
pub fn push_u16(out: &mut Vec<u8>, x: u16)
    ensures
        final(out)@ == old(out)@ + u16_bytes(x),
{
    out.push((x / 256) as u8);
    out.push((x % 256) as u8);
}

/// Appends the four big-endian bytes of `x` to `out`.
pub fn push_u32(out: &mut Vec<u8>, x: u32)
    ensures
        final(out)@ == old(out)@ + u32_bytes(x),
{
    out.push((x / 16777216) as u8);
    out.push(((x / 65536) % 256) as u8);
    out.push(((x / 256) % 256) as u8);
    out.push((x % 256) as u8);
}

/// Appends all of `bytes` to `out`.
pub fn push_all(out: &mut Vec<u8>, bytes: &[u8])
    ensures
        final(out)@ == old(out)@ + bytes@,
{
    let mut i: usize = 0;
    while i < bytes.len()
        invariant
            i <= bytes.len(),
            out@ == old(out)@ + bytes@.subrange(0, i as int),
        decreases bytes.len() - i,
    {
        out.push(bytes[i]);
        i = i + 1;
    }
    assert(bytes@.subrange(0, i as int) == bytes@);
}

/// A position in a byte buffer that the cursor borrows.
///
/// The position may lie beyond the end of the buffer; every read from there
/// fails. A read that fails leaves the cursor where it was.
pub struct Cursor<'a> {
    pub data: &'a [u8],
    pub pos: usize,
}

impl<'a> Cursor<'a> {
    /// A cursor at the start of `data`.
    pub fn new(data: &'a [u8]) -> (c: Self)
        ensures
            c.data@ == data@,
            c.pos == 0,
    {
        Cursor { data, pos: 0 }
    }

    /// The current position.
    pub fn position(&self) -> (p: usize)
        ensures
            p == self.pos,
    {
        self.pos
    }

    /// Moves the cursor to `pos`, which may be any offset.
    pub fn set_position(&mut self, pos: usize)
        ensures
            final(self).data@ == old(self).data@,
            final(self).pos == pos,
    {
        self.pos = pos;
    }

    /// The number of bytes between the cursor and the end of the buffer.
    pub open spec fn spec_remaining(&self) -> int {
        if self.pos <= self.data@.len() {
            self.data@.len() - self.pos
        } else {
            0
        }
    }

    /// The number of bytes between the cursor and the end of the buffer.
    pub fn remaining(&self) -> (n: usize)
        ensures
            n == self.spec_remaining(),
    {
        if self.pos <= self.data.len() {
            self.data.len() - self.pos
        } else {
            0
        }
    }

    /// Reads one byte.
    pub fn read_u8(&mut self) -> (r: Result<u8, DnsError>)
        ensures
            final(self).data@ == old(self).data@,
            match r {
                Ok(b) => {
                    &&& old(self).spec_remaining() >= 1
                    &&& b == old(self).data@[old(self).pos as int]
                    &&& final(self).pos == old(self).pos + 1
                },
                Err(e) => {
                    &&& old(self).spec_remaining() < 1
                    &&& e == DnsError::Truncated
                    &&& final(self).pos == old(self).pos
                },
            },
    {
        if self.remaining() < 1 {
            return Err(DnsError::Truncated);
        }
        let b = self.data[self.pos];
        self.pos = self.pos + 1;
        Ok(b)
    }

    /// Reads a big-endian 16-bit integer.
    pub fn read_u16(&mut self) -> (r: Result<u16, DnsError>)
        ensures
            final(self).data@ == old(self).data@,
            match r {
                Ok(x) => {
                    &&& old(self).spec_remaining() >= 2
                    &&& x == u16_at(old(self).data@, old(self).pos as int)
                    &&& final(self).pos == old(self).pos + 2
                },
                Err(e) => {
                    &&& old(self).spec_remaining() < 2
                    &&& e == DnsError::Truncated
                    &&& final(self).pos == old(self).pos
                },
            },
    {
        if self.remaining() < 2 {
            return Err(DnsError::Truncated);
        }
        let hi = self.data[self.pos] as u16;
        let lo = self.data[self.pos + 1] as u16;
        self.pos = self.pos + 2;
        Ok(hi * 256 + lo)
    }

    /// Reads a big-endian 32-bit integer.
    pub fn read_u32(&mut self) -> (r: Result<u32, DnsError>)
        ensures
            final(self).data@ == old(self).data@,
            match r {
                Ok(x) => {
                    &&& old(self).spec_remaining() >= 4
                    &&& x == u32_at(old(self).data@, old(self).pos as int)
                    &&& final(self).pos == old(self).pos + 4
                },
                Err(e) => {
                    &&& old(self).spec_remaining() < 4
                    &&& e == DnsError::Truncated
                    &&& final(self).pos == old(self).pos
                },
            },
    {
        if self.remaining() < 4 {
            return Err(DnsError::Truncated);
        }
        let b0 = self.data[self.pos] as u32;
        let b1 = self.data[self.pos + 1] as u32;
        let b2 = self.data[self.pos + 2] as u32;
        let b3 = self.data[self.pos + 3] as u32;
        self.pos = self.pos + 4;
        Ok(b0 * 16777216 + b1 * 65536 + b2 * 256 + b3)
    }

    /// Reads the next `n` bytes into a vector of their own.
    pub fn read_bytes(&mut self, n: usize) -> (r: Result<Vec<u8>, DnsError>)
        ensures
            final(self).data@ == old(self).data@,
            match r {
                Ok(v) => {
                    &&& old(self).spec_remaining() >= n
                    &&& v@ == bytes_at(old(self).data@, old(self).pos as int, n as nat)
                    &&& final(self).pos == old(self).pos + n
                },
                Err(e) => {
                    &&& old(self).spec_remaining() < n
                    &&& e == DnsError::Truncated
                    &&& final(self).pos == old(self).pos
                },
            },
    {
        if self.remaining() < n {
            return Err(DnsError::Truncated);
        }
        let start = self.pos;
        let len = self.data.len();
        let mut v: Vec<u8> = Vec::new();
        let mut i: usize = 0;
        while i < n
            invariant
                i <= n,
                len == self.data@.len(),
                n > 0 ==> start + n <= len,
                v@ == bytes_at(self.data@, start as int, i as nat),
            decreases n - i,
        {
            v.push(self.data[start + i]);
            i = i + 1;
        }
        if n > 0 {
            self.pos = start + n;
        }
        Ok(v)
    }
}

} // verus!

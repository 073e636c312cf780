use vstd::prelude::*;

verus! {

/// Big-endian 16-bit value of the two bytes at `p`.
pub open spec fn be16(s: Seq<u8>, p: int) -> int {
    s[p] * 256 + s[p + 1]
}

/// Forward-only cursor over a byte slice.
pub struct ByteReader<'a> {
    pub bytes: &'a [u8],
    pub pos: usize,
}

impl<'a> ByteReader<'a> {
    /// The cursor never stands beyond the end of its bytes.
    pub open spec fn wf(&self) -> bool {
        self.pos <= self.bytes@.len()
    }

    pub fn new(bytes: &'a [u8]) -> (r: Self)
        ensures
            r.wf(),
            r.bytes@ == bytes@,
            r.pos == 0,
    {
        ByteReader { bytes, pos: 0 }
    }

    /// Reads one byte; at the end of the input nothing moves and `None` comes back.
    pub fn read_u8(&mut self) -> (res: Option<u8>)
        requires
            old(self).wf(),
        ensures
            final(self).wf(),
            final(self).bytes@ == old(self).bytes@,
            match res {
                Some(b) => old(self).pos < old(self).bytes@.len() && b == old(self).bytes@[old(
                    self,
                ).pos as int] && final(self).pos == old(self).pos + 1,
                None => old(self).pos >= old(self).bytes@.len() && final(self).pos == old(self).pos,
            },
    {
        if self.pos < self.bytes.len() {
            let b = self.bytes[self.pos];
            self.pos = self.pos + 1;
            Some(b)
        } else {
            None
        }
    }

    /// Reads a big-endian `u16`. When only one byte is left it is consumed before
    /// `None` comes back.
    pub fn read_u16_be(&mut self) -> (res: Option<u16>)
        requires
            old(self).wf(),
        ensures
            final(self).wf(),
            final(self).bytes@ == old(self).bytes@,
            match res {
                Some(v) => old(self).pos + 2 <= old(self).bytes@.len() && v == be16(
                    old(self).bytes@,
                    old(self).pos as int,
                ) && final(self).pos == old(self).pos + 2,
                None => old(self).pos + 2 > old(self).bytes@.len() && final(self).pos == (if old(
                    self,
                ).pos < old(self).bytes@.len() {
                    old(self).pos + 1
                } else {
                    old(self).pos as int
                }),
            },
    {
        let hi = match self.read_u8() {
            Some(b) => b,
            None => return None,
        };
        let lo = match self.read_u8() {
            Some(b) => b,
            None => return None,
        };
        let v: u16 = ((hi as u16) << 8u16) | (lo as u16);
        assert(v == hi * 256 + lo) by (bit_vector)
            requires
                v == ((hi as u16) << 8u16) | (lo as u16),
        ;
        Some(v)
    }

    /// Skips `n` bytes; refuses (and stays put) when fewer are left.
    pub fn skip(&mut self, n: usize) -> (res: Option<()>)
        requires
            old(self).wf(),
        ensures
            final(self).wf(),
            final(self).bytes@ == old(self).bytes@,
            match res {
                Some(_) => old(self).pos + n <= old(self).bytes@.len() && final(self).pos
                    == old(self).pos + n,
                None => old(self).pos + n > old(self).bytes@.len() && final(self).pos == old(
                    self,
                ).pos,
            },
    {
        if n > self.bytes.len() - self.pos {
            return None;
        }
        self.pos = self.pos + n;
        Some(())
    }
}

} // verus!

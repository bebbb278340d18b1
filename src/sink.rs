//! A forward-only, endian-aware byte writer over an in-memory buffer.
use vstd::prelude::*;

verus! {

/// Place value of byte `k` (0 = least significant) of a 64-bit word.
pub open spec fn place(k: int) -> int {
    if k <= 0 {
        1
    } else if k == 1 {
        0x100
    } else if k == 2 {
        0x1_0000
    } else if k == 3 {
        0x100_0000
    } else if k == 4 {
        0x1_0000_0000
    } else if k == 5 {
        0x100_0000_0000
    } else if k == 6 {
        0x1_0000_0000_0000
    } else {
        0x100_0000_0000_0000
    }
}

/// Byte `k` (0 = least significant) of `v`.
pub open spec fn byte_of(v: u64, k: int) -> u8 {
    ((v as int / place(k)) % 256) as u8
}

/// The `n` low bytes of `v`, most significant first when `big` holds.
pub open spec fn word_bytes(v: u64, n: nat, big: bool) -> Seq<u8> {
    Seq::new(n, |i: int| if big { byte_of(v, n - 1 - i) } else { byte_of(v, i) })
}

/// Whether `n` is a width the sink writes words in.
pub open spec fn is_unit(n: nat) -> bool {
    n == 1 || n == 2 || n == 4 || n == 8
}

/// Size of the range of `bits`-bit words.
pub open spec fn modulus(bits: nat) -> int {
    if bits == 8 {
        0x100
    } else if bits == 16 {
        0x1_0000
    } else if bits == 32 {
        0x1_0000_0000
    } else {
        0x1_0000_0000_0000_0000
    }
}

/// The `bits`-bit two's-complement pattern of `x`.
pub open spec fn twos(x: int, bits: nat) -> u64 {
    if x < 0 {
        (x + modulus(bits)) as u64
    } else {
        x as u64
    }
}

/// The `bits`-bit two's-complement pattern of `x`, for 8, 16 or 32 bits.
pub fn twos_word(x: i64, bits: u32) -> (r: u64)
    requires
        bits == 8 || bits == 16 || bits == 32,
        -modulus(bits as nat) / 2 <= x < modulus(bits as nat) / 2,
    ensures
        r == twos(x as int, bits as nat),
{
    if x < 0 {
        let m: i64 = if bits == 8 {
            0x100
        } else if bits == 16 {
            0x1_0000
        } else {
            0x1_0000_0000
        };
        (x + m) as u64
    } else {
        x as u64
    }
}

/// Appends bytes at the current position; never seeks backwards.
pub struct ByteSink {
    big_endian: bool,
    bytes: Vec<u8>,
}

impl View for ByteSink {
    type V = Seq<u8>;

    closed spec fn view(&self) -> Seq<u8> {
        self.bytes@
    }
}

fn low_byte(v: u64, k: usize) -> (r: u8)
    requires
        k < 8,
    ensures
        r == byte_of(v, k as int),
{
    let d: u64 = if k == 0 {
        1
    } else if k == 1 {
        0x100
    } else if k == 2 {
        0x1_0000
    } else if k == 3 {
        0x100_0000
    } else if k == 4 {
        0x1_0000_0000
    } else if k == 5 {
        0x100_0000_0000
    } else if k == 6 {
        0x1_0000_0000_0000
    } else {
        0x100_0000_0000_0000
    };
    ((v / d) % 256) as u8
}

impl ByteSink {
    /// The byte order chosen for the whole stream.
    pub closed spec fn is_big_endian(&self) -> bool {
        self.big_endian
    }

    /// An empty sink writing in the given byte order.
    pub fn new(big_endian: bool) -> (r: ByteSink)
        ensures
            r@ == Seq::<u8>::empty(),
            r.is_big_endian() == big_endian,
    {
        ByteSink { big_endian, bytes: Vec::new() }
    }

    pub fn big_endian(&self) -> (r: bool)
        ensures
            r == self.is_big_endian(),
    {
        self.big_endian
    }

    /// Number of bytes written so far: the absolute position of the next byte.
    pub fn position(&self) -> (r: usize)
        ensures
            r == self@.len(),
    {
        self.bytes.len()
    }

    /// Everything written, in order.
    pub fn into_bytes(self) -> (r: Vec<u8>)
        ensures
            r@ == self@,
    {
        self.bytes
    }

    /// Appends the `n` low bytes of `v` in the sink's byte order.
    pub fn write_word(&mut self, v: u64, n: usize)
        requires
            is_unit(n as nat),
        ensures
            final(self)@ == old(self)@ + word_bytes(v, n as nat, old(self).is_big_endian()),
            final(self).is_big_endian() == old(self).is_big_endian(),
    {
        let ghost start = self@;
        let ghost w = word_bytes(v, n as nat, self.big_endian);
        let mut i: usize = 0;
        while i < n
            invariant
                i <= n,
                is_unit(n as nat),
                self.big_endian == old(self).big_endian,
                w == word_bytes(v, n as nat, self.big_endian),
                self@ == start + w.take(i as int),
            decreases n - i,
        {
            let k: usize = if self.big_endian { n - 1 - i } else { i };
            let b = low_byte(v, k);
            self.bytes.push(b);
            assert(w.take(i as int + 1) =~= w.take(i as int).push(b));
            i += 1;
        }
        assert(w.take(n as int) =~= w);
    }

    /// Appends raw bytes unchanged.
    pub fn write_bytes(&mut self, b: &[u8])
        ensures
            final(self)@ == old(self)@ + b@,
            final(self).is_big_endian() == old(self).is_big_endian(),
    {
        let ghost start = self@;
        let mut i: usize = 0;
        while i < b.len()
            invariant
                i <= b@.len(),
                self@ == start + b@.take(i as int),
                self.big_endian == old(self).big_endian,
            decreases b@.len() - i,
        {
            self.bytes.push(b[i]);
            assert(b@.take(i as int + 1) =~= b@.take(i as int).push(b@[i as int]));
            i += 1;
        }
        assert(b@.take(b@.len() as int) =~= b@);
    }

    pub fn write_u8(&mut self, v: u8)
        ensures
            final(self)@ == old(self)@ + word_bytes(v as u64, 1, old(self).is_big_endian()),
            final(self).is_big_endian() == old(self).is_big_endian(),
    {
        self.write_word(v as u64, 1)
    }

    pub fn write_u16(&mut self, v: u16)
        ensures
            final(self)@ == old(self)@ + word_bytes(v as u64, 2, old(self).is_big_endian()),
            final(self).is_big_endian() == old(self).is_big_endian(),
    {
        self.write_word(v as u64, 2)
    }

    pub fn write_u32(&mut self, v: u32)
        ensures
            final(self)@ == old(self)@ + word_bytes(v as u64, 4, old(self).is_big_endian()),
            final(self).is_big_endian() == old(self).is_big_endian(),
    {
        self.write_word(v as u64, 4)
    }

    pub fn write_u64(&mut self, v: u64)
        ensures
            final(self)@ == old(self)@ + word_bytes(v, 8, old(self).is_big_endian()),
            final(self).is_big_endian() == old(self).is_big_endian(),
    {
        self.write_word(v, 8)
    }

    /// Two's-complement byte.
    pub fn write_i8(&mut self, v: i8)
        ensures
            final(self)@ == old(self)@ + word_bytes(twos(v as int, 8), 1, old(self).is_big_endian()),
            final(self).is_big_endian() == old(self).is_big_endian(),
    {
        self.write_word(twos_word(v as i64, 8), 1)
    }

    /// Two's-complement 16-bit integer.
    pub fn write_i16(&mut self, v: i16)
        ensures
            final(self)@ == old(self)@ + word_bytes(twos(v as int, 16), 2, old(self).is_big_endian()),
            final(self).is_big_endian() == old(self).is_big_endian(),
    {
        self.write_word(twos_word(v as i64, 16), 2)
    }

    /// Two's-complement 32-bit integer.
    pub fn write_i32(&mut self, v: i32)
        ensures
            final(self)@ == old(self)@ + word_bytes(twos(v as int, 32), 4, old(self).is_big_endian()),
            final(self).is_big_endian() == old(self).is_big_endian(),
    {
        self.write_word(twos_word(v as i64, 32), 4)
    }
    /// Two's-complement 64-bit integer.
    pub fn write_i64(&mut self, v: i64)
        ensures
            final(self)@ == old(self)@ + word_bytes(twos(v as int, 64), 8, old(self).is_big_endian()),
            final(self).is_big_endian() == old(self).is_big_endian(),
    {
        let w: u64 = if v < 0 {
            (v as i128 + 0x1_0000_0000_0000_0000) as u64
        } else {
            v as u64
        };
        self.write_word(w, 8)
    }
}

} // verus!

//! The values held by one field: a non-empty run of same-typed scalars.
use vstd::prelude::*;

use crate::ifd::IFD_TYPE_ID;
use crate::sink::{is_unit, word_bytes, ByteSink};

verus! {

/// Why a value set or a directory could not be built.
#[derive(Debug, Clone, Copy, PartialEq, Eq, Structural)]
pub enum ValidationError {
    /// A field must hold at least one value.
    EmptyValues,
    /// A 7-bit text field was given a byte or character above 127.
    NonAscii,
    /// The directory already holds a field with this tag.
    DuplicateTag,
    /// The encoded values would not fit in a 32-bit length.
    TooLarge,
    /// Literal values were given the type of a directory pointer, whose
    /// payload only the layout sets.
    PointerPayload,
}

/// Where a field's bytes are stored.
#[derive(Debug, Clone, Copy, PartialEq, Eq, Structural)]
pub enum StorageMode {
    /// In the entry's own 4-byte payload, zero-padded on the right.
    Inline,
    /// In a block of its own, which the payload points at.
    Overflow,
}

/// The bytes of `ws`, each word written as `unit` bytes in the given order.
pub open spec fn words_bytes(ws: Seq<u64>, unit: nat, big: bool) -> Seq<u8>
    decreases ws.len(),
{
    if ws.len() == 0 {
        Seq::empty()
    } else {
        words_bytes(ws.drop_last(), unit, big) + word_bytes(ws.last(), unit, big)
    }
}

pub proof fn lemma_words_bytes_len(ws: Seq<u64>, unit: nat, big: bool)
    ensures
        words_bytes(ws, unit, big).len() == ws.len() * unit,
    decreases ws.len(),
{
    if ws.len() > 0 {
        lemma_words_bytes_len(ws.drop_last(), unit, big);
        assert((ws.len() - 1) * unit + unit == ws.len() * unit) by (nonlinear_arith);
    }
}

/// An ordered, non-empty run of values of one scalar kind. Each value is
/// stored as `per_value` words of `unit` bytes (a fraction is two words).
pub struct TiffTypeValues {
    type_id: u16,
    unit: u32,
    per_value: u32,
    words: Vec<u64>,
}

impl TiffTypeValues {
    pub closed spec fn type_code(&self) -> u16 {
        self.type_id
    }

    pub closed spec fn unit(&self) -> nat {
        self.unit as nat
    }

    pub closed spec fn per_value(&self) -> nat {
        self.per_value as nat
    }

    pub closed spec fn words(&self) -> Seq<u64> {
        self.words@
    }

    pub open spec fn spec_count(&self) -> nat {
        self.words().len() / self.per_value()
    }

    pub open spec fn spec_total_bytes(&self) -> nat {
        self.words().len() * self.unit()
    }

    pub open spec fn spec_element_size(&self) -> nat {
        self.unit() * self.per_value()
    }

    pub open spec fn inline(&self) -> bool {
        self.spec_total_bytes() <= 4
    }

    /// The values' bytes in the given byte order.
    pub open spec fn encoded(&self, big: bool) -> Seq<u8> {
        words_bytes(self.words(), self.unit(), big)
    }

    pub open spec fn wf(&self) -> bool {
        &&& is_unit(self.unit())
        &&& self.per_value() == 1 || self.per_value() == 2
        &&& self.words().len() >= 1
        &&& self.words().len() % self.per_value() == 0
        &&& self.spec_total_bytes() <= u32::MAX
    }

    /// Builds a value set of type `type_id` from its words; fails when the
    /// type is that of a directory pointer, when there are no words, or when
    /// their bytes would not fit in a 32-bit length.
    pub fn new(type_id: u16, unit: u32, per_value: u32, words: Vec<u64>) -> (r: Result<
        TiffTypeValues,
        ValidationError,
    >)
        requires
            is_unit(unit as nat),
            per_value == 1 || per_value == 2,
            words@.len() % (per_value as nat) == 0,
        ensures
            type_id == IFD_TYPE_ID ==> r == Err::<TiffTypeValues, ValidationError>(
                ValidationError::PointerPayload,
            ),
            type_id != IFD_TYPE_ID && words@.len() == 0 ==> r == Err::<
                TiffTypeValues,
                ValidationError,
            >(ValidationError::EmptyValues),
            type_id != IFD_TYPE_ID && words@.len() > 0 && words@.len() * unit > u32::MAX ==> r
                == Err::<TiffTypeValues, ValidationError>(ValidationError::TooLarge),
            type_id != IFD_TYPE_ID && words@.len() > 0 && words@.len() * unit <= u32::MAX ==> r is Ok,
            r matches Ok(v) ==> {
                &&& v.wf()
                &&& v.type_code() == type_id
                &&& v.unit() == unit
                &&& v.per_value() == per_value
                &&& v.words() == words@
            },
    {
        if type_id == IFD_TYPE_ID {
            return Err(ValidationError::PointerPayload);
        }
        if words.len() == 0 {
            return Err(ValidationError::EmptyValues);
        }
        if words.len() > (u32::MAX / unit) as usize {
            assert(words@.len() * unit > u32::MAX) by (nonlinear_arith)
                requires
                    words@.len() > u32::MAX / unit,
                    1 <= unit <= 8,
            ;
            return Err(ValidationError::TooLarge);
        }
        assert(words@.len() * unit <= u32::MAX) by (nonlinear_arith)
            requires
                words@.len() <= u32::MAX / unit,
                1 <= unit <= 8,
        ;
        Ok(TiffTypeValues { type_id, unit, per_value, words })
    }

    /// Builds a value set from words already known to be valid.
    pub(crate) fn from_valid(type_id: u16, unit: u32, per_value: u32, words: Vec<u64>) -> (r:
        TiffTypeValues)
        requires
            is_unit(unit as nat),
            per_value == 1 || per_value == 2,
            words@.len() >= 1,
            words@.len() % (per_value as nat) == 0,
            words@.len() * unit <= u32::MAX,
        ensures
            r.wf(),
            r.type_code() == type_id,
            r.unit() == unit,
            r.per_value() == per_value,
            r.words() == words@,
    {
        TiffTypeValues { type_id, unit, per_value, words }
    }

    /// Whether the invariant holds; always so for a set built by `new`.
    pub fn is_valid(&self) -> (r: bool)
        ensures
            r == self.wf(),
    {
        let unit_ok = self.unit == 1 || self.unit == 2 || self.unit == 4 || self.unit == 8;
        let per_ok = self.per_value == 1 || self.per_value == 2;
        if !unit_ok || !per_ok || self.words.len() == 0 {
            return false;
        }
        if self.words.len() % self.per_value as usize != 0 {
            return false;
        }
        if self.words.len() > (u32::MAX / self.unit) as usize {
            assert(self.words@.len() * self.unit > u32::MAX) by (nonlinear_arith)
                requires
                    self.words@.len() > u32::MAX / self.unit,
                    1 <= self.unit <= 8,
            ;
            return false;
        }
        assert(self.words@.len() * self.unit <= u32::MAX) by (nonlinear_arith)
            requires
                self.words@.len() <= u32::MAX / self.unit,
                1 <= self.unit <= 8,
        ;
        true
    }

    /// The type code written in the entry.
    pub fn type_id(&self) -> (r: u16)
        ensures
            r == self.type_code(),
    {
        self.type_id
    }

    /// Number of values.
    pub fn count(&self) -> (r: u32)
        requires
            self.wf(),
        ensures
            r == self.spec_count(),
    {
        proof {
            assert(self.words@.len() / (self.per_value as nat) <= self.words@.len()) by (nonlinear_arith)
                requires self.per_value >= 1;
            assert(self.words@.len() <= self.words@.len() * self.unit) by (nonlinear_arith)
                requires self.unit >= 1;
        }
        (self.words.len() / self.per_value as usize) as u32
    }

    /// Bytes per value.
    pub fn element_size(&self) -> (r: u32)
        requires
            self.wf(),
        ensures
            r == self.spec_element_size(),
    {
        assert(self.unit * self.per_value <= 16) by (nonlinear_arith)
            requires self.unit <= 8, self.per_value <= 2;
        self.unit * self.per_value
    }

    /// Bytes of all the values: element size times count.
    pub fn total_bytes(&self) -> (r: u32)
        requires
            self.wf(),
        ensures
            r == self.spec_total_bytes(),
            r == self.spec_element_size() * self.spec_count(),
    {
        proof {
            let n = self.words@.len();
            let p = self.per_value as nat;
            let u = self.unit as nat;
            assert(n == (n / p) * p) by (nonlinear_arith)
                requires n % p == 0, p >= 1;
            assert(n * u == (u * p) * (n / p)) by (nonlinear_arith)
                requires n == (n / p) * p;
            assert(n <= n * u) by (nonlinear_arith)
                requires u >= 1;
        }
        self.words.len() as u32 * self.unit
    }

    /// Inline when the values fit in four bytes, else overflow.
    pub fn storage_mode(&self) -> (r: StorageMode)
        requires
            self.wf(),
        ensures
            r == (if self.inline() { StorageMode::Inline } else { StorageMode::Overflow }),
    {
        if self.total_bytes() <= 4 {
            StorageMode::Inline
        } else {
            StorageMode::Overflow
        }
    }

    /// Writes the values' bytes in the sink's byte order.
    pub fn write_to(&self, sink: &mut ByteSink)
        requires
            self.wf(),
        ensures
            final(sink)@ == old(sink)@ + self.encoded(old(sink).is_big_endian()),
            final(sink).is_big_endian() == old(sink).is_big_endian(),
    {
        let ghost big = sink.is_big_endian();
        let ghost start = sink@;
        let mut i: usize = 0;
        while i < self.words.len()
            invariant
                self.wf(),
                i <= self.words@.len(),
                sink.is_big_endian() == big,
                sink@ == start + words_bytes(self.words@.take(i as int), self.unit as nat, big),
            decreases self.words@.len() - i,
        {
            sink.write_word(self.words[i], self.unit as usize);
            proof {
                let t = self.words@.take(i as int + 1);
                assert(t.drop_last() =~= self.words@.take(i as int));
                assert(t.last() == self.words@[i as int]);
            }
            i += 1;
        }
        assert(self.words@.take(self.words@.len() as int) =~= self.words@);
    }
}

} // verus!

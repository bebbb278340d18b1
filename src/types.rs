//! The scalar kinds a field can hold, and constructors of value sets of each.
use vstd::prelude::*;

use crate::sink::{twos, twos_word, word_bytes, ByteSink};
use crate::values::{TiffTypeValues, ValidationError};

verus! {

broadcast use vstd::string::is_ascii_spec_bytes;

/// A scalar kind of field data.
pub trait TiffType: Sized {
    /// The 16-bit code that identifies the kind.
    spec fn type_code() -> u16;

    /// Bytes one value occupies.
    spec fn byte_size() -> nat;

    fn id() -> (r: u16)
        ensures
            r == Self::type_code(),
    ;

    fn size() -> (r: u32)
        ensures
            r == Self::byte_size(),
    ;

    /// The bytes of this value, most significant first when `big` holds.
    spec fn encoding(&self, big: bool) -> Seq<u8>;

    /// Writes one value in the sink's byte order.
    fn write_to(self, sink: &mut ByteSink)
        ensures
            final(sink)@ == old(sink)@ + self.encoding(old(sink).is_big_endian()),
            final(sink)@.len() == old(sink)@.len() + Self::byte_size(),
            final(sink).is_big_endian() == old(sink).is_big_endian(),
    ;
}

/// The words of a run of fractions: numerator, then denominator, for each.
pub open spec fn pair_words(s: Seq<(u64, u64)>) -> Seq<u64> {
    Seq::new(
        2 * s.len(),
        |k: int| if k % 2 == 0 { s[k / 2].0 } else { s[k / 2].1 },
    )
}

/// What building a value set from `words` of `unit` bytes each returns:
/// an error exactly when there are none or too many, else a set holding them.
pub open spec fn build_result(
    r: Result<TiffTypeValues, ValidationError>,
    type_id: u16,
    unit: nat,
    per_value: nat,
    words: Seq<u64>,
) -> bool {
    &&& words.len() == 0 <==> r == Err::<TiffTypeValues, ValidationError>(
        ValidationError::EmptyValues,
    )
    &&& words.len() > 0 && words.len() * unit > u32::MAX <==> r == Err::<
        TiffTypeValues,
        ValidationError,
    >(ValidationError::TooLarge)
    &&& words.len() > 0 && words.len() * unit <= u32::MAX ==> r is Ok
    &&& r matches Ok(v) ==> {
        &&& v.wf()
        &&& v.type_code() == type_id
        &&& v.unit() == unit
        &&& v.per_value() == per_value
        &&& v.words() == words
    }
}

/// The words of `v`, each value converted by `f`, in order.
fn widen<T: Copy>(v: &[T], f: impl Fn(T) -> u64) -> (r: Vec<u64>)
    requires
        forall|x: T| f.requires((x,)),
    ensures
        r@.len() == v@.len(),
        forall|i: int| 0 <= i < v@.len() ==> f.ensures((v@[i],), r@[i]),
{
    let mut r: Vec<u64> = Vec::new();
    let mut i: usize = 0;
    while i < v.len()
        invariant
            forall|x: T| f.requires((x,)),
            i <= v@.len(),
            r@.len() == i,
            forall|k: int| 0 <= k < i ==> f.ensures((v@[k],), r@[k]),
        decreases v@.len() - i,
    {
        let y = f(v[i]);
        r.push(y);
        i += 1;
    }
    r
}

/// 8-bit unsigned integer.
#[derive(Debug, Clone, Copy, PartialEq, Eq, Structural)]
pub struct BYTE(pub u8);

impl BYTE {
    /// A value set of `BYTE`s; fails on an empty slice.
    pub fn values(values: &[u8]) -> (r: Result<TiffTypeValues, ValidationError>)
        ensures
            build_result(r, 1, 1, 1, values@.map_values(|x: u8| x as u64)),
    {
        let words = widen(values, |x: u8| -> (y: u64) ensures y == x as u64 { x as u64 });
        assert(words@ =~= values@.map_values(|x: u8| x as u64));
        TiffTypeValues::new(1, 1, 1, words)
    }

    /// A value set holding the single value `value`.
    pub fn single(value: u8) -> (r: TiffTypeValues)
        ensures
            r.wf(),
            r.type_code() == 1,
            r.unit() == 1,
            r.per_value() == 1,
            r.words() == seq![value as u64],
    {
        let r = TiffTypeValues::from_valid(1, 1, 1, vec![value as u64]);
        assert(r.words() =~= seq![value as u64]);
        r
    }
}

impl TiffType for BYTE {
    open spec fn type_code() -> u16 {
        1
    }

    open spec fn byte_size() -> nat {
        1
    }

    open spec fn encoding(&self, big: bool) -> Seq<u8> {
        word_bytes(self.0 as u64, 1, big)
    }

    fn id() -> (r: u16) {
        1
    }

    fn size() -> (r: u32) {
        1
    }

    fn write_to(self, sink: &mut ByteSink) {
        sink.write_word(self.0 as u64, 1)
    }
}

/// 16-bit (2-byte) unsigned integer.
#[derive(Debug, Clone, Copy, PartialEq, Eq, Structural)]
pub struct SHORT(pub u16);

impl SHORT {
    /// A value set of `SHORT`s; fails on an empty slice.
    pub fn values(values: &[u16]) -> (r: Result<TiffTypeValues, ValidationError>)
        ensures
            build_result(r, 3, 2, 1, values@.map_values(|x: u16| x as u64)),
    {
        let words = widen(values, |x: u16| -> (y: u64) ensures y == x as u64 { x as u64 });
        assert(words@ =~= values@.map_values(|x: u16| x as u64));
        TiffTypeValues::new(3, 2, 1, words)
    }

    /// A value set holding the single value `value`.
    pub fn single(value: u16) -> (r: TiffTypeValues)
        ensures
            r.wf(),
            r.type_code() == 3,
            r.unit() == 2,
            r.per_value() == 1,
            r.words() == seq![value as u64],
    {
        let r = TiffTypeValues::from_valid(3, 2, 1, vec![value as u64]);
        assert(r.words() =~= seq![value as u64]);
        r
    }
}

impl TiffType for SHORT {
    open spec fn type_code() -> u16 {
        3
    }

    open spec fn byte_size() -> nat {
        2
    }

    open spec fn encoding(&self, big: bool) -> Seq<u8> {
        word_bytes(self.0 as u64, 2, big)
    }

    fn id() -> (r: u16) {
        3
    }

    fn size() -> (r: u32) {
        2
    }

    fn write_to(self, sink: &mut ByteSink) {
        sink.write_word(self.0 as u64, 2)
    }
}

/// 32-bit (4-byte) unsigned integer.
#[derive(Debug, Clone, Copy, PartialEq, Eq, Structural)]
pub struct LONG(pub u32);

impl LONG {
    /// A value set of `LONG`s; fails on an empty slice.
    pub fn values(values: &[u32]) -> (r: Result<TiffTypeValues, ValidationError>)
        ensures
            build_result(r, 4, 4, 1, values@.map_values(|x: u32| x as u64)),
    {
        let words = widen(values, |x: u32| -> (y: u64) ensures y == x as u64 { x as u64 });
        assert(words@ =~= values@.map_values(|x: u32| x as u64));
        TiffTypeValues::new(4, 4, 1, words)
    }

    /// A value set holding the single value `value`.
    pub fn single(value: u32) -> (r: TiffTypeValues)
        ensures
            r.wf(),
            r.type_code() == 4,
            r.unit() == 4,
            r.per_value() == 1,
            r.words() == seq![value as u64],
    {
        let r = TiffTypeValues::from_valid(4, 4, 1, vec![value as u64]);
        assert(r.words() =~= seq![value as u64]);
        r
    }
}

impl TiffType for LONG {
    open spec fn type_code() -> u16 {
        4
    }

    open spec fn byte_size() -> nat {
        4
    }

    open spec fn encoding(&self, big: bool) -> Seq<u8> {
        word_bytes(self.0 as u64, 4, big)
    }

    fn id() -> (r: u16) {
        4
    }

    fn size() -> (r: u32) {
        4
    }

    fn write_to(self, sink: &mut ByteSink) {
        sink.write_word(self.0 as u64, 4)
    }
}

/// 8-bit signed (two's-complement) integer.
#[derive(Debug, Clone, Copy, PartialEq, Eq, Structural)]
pub struct SBYTE(pub i8);

impl SBYTE {
    /// A value set of `SBYTE`s; fails on an empty slice.
    pub fn values(values: &[i8]) -> (r: Result<TiffTypeValues, ValidationError>)
        ensures
            build_result(r, 6, 1, 1, values@.map_values(|x: i8| twos(x as int, 8))),
    {
        let words = widen(values, |x: i8| -> (y: u64) ensures y == twos(x as int, 8) { twos_word(x as i64, 8) });
        assert(words@ =~= values@.map_values(|x: i8| twos(x as int, 8)));
        TiffTypeValues::new(6, 1, 1, words)
    }

    /// A value set holding the single value `value`.
    pub fn single(value: i8) -> (r: TiffTypeValues)
        ensures
            r.wf(),
            r.type_code() == 6,
            r.unit() == 1,
            r.per_value() == 1,
            r.words() == seq![twos(value as int, 8)],
    {
        let r = TiffTypeValues::from_valid(6, 1, 1, vec![twos_word(value as i64, 8)]);
        assert(r.words() =~= seq![twos(value as int, 8)]);
        r
    }
}

impl TiffType for SBYTE {
    open spec fn type_code() -> u16 {
        6
    }

    open spec fn byte_size() -> nat {
        1
    }

    open spec fn encoding(&self, big: bool) -> Seq<u8> {
        word_bytes(twos(self.0 as int, 8), 1, big)
    }

    fn id() -> (r: u16) {
        6
    }

    fn size() -> (r: u32) {
        1
    }

    fn write_to(self, sink: &mut ByteSink) {
        sink.write_word(twos_word(self.0 as i64, 8), 1)
    }
}

/// 8-bit byte whose meaning depends on the field.
#[derive(Debug, Clone, Copy, PartialEq, Eq, Structural)]
pub struct UNDEFINED(pub u8);

impl UNDEFINED {
    /// A value set of `UNDEFINED`s; fails on an empty slice.
    pub fn values(values: &[u8]) -> (r: Result<TiffTypeValues, ValidationError>)
        ensures
            build_result(r, 7, 1, 1, values@.map_values(|x: u8| x as u64)),
    {
        let words = widen(values, |x: u8| -> (y: u64) ensures y == x as u64 { x as u64 });
        assert(words@ =~= values@.map_values(|x: u8| x as u64));
        TiffTypeValues::new(7, 1, 1, words)
    }

    /// A value set holding the single value `value`.
    pub fn single(value: u8) -> (r: TiffTypeValues)
        ensures
            r.wf(),
            r.type_code() == 7,
            r.unit() == 1,
            r.per_value() == 1,
            r.words() == seq![value as u64],
    {
        let r = TiffTypeValues::from_valid(7, 1, 1, vec![value as u64]);
        assert(r.words() =~= seq![value as u64]);
        r
    }
}

impl TiffType for UNDEFINED {
    open spec fn type_code() -> u16 {
        7
    }

    open spec fn byte_size() -> nat {
        1
    }

    open spec fn encoding(&self, big: bool) -> Seq<u8> {
        word_bytes(self.0 as u64, 1, big)
    }

    fn id() -> (r: u16) {
        7
    }

    fn size() -> (r: u32) {
        1
    }

    fn write_to(self, sink: &mut ByteSink) {
        sink.write_word(self.0 as u64, 1)
    }
}

/// 16-bit (2-byte) signed (two's-complement) integer.
#[derive(Debug, Clone, Copy, PartialEq, Eq, Structural)]
pub struct SSHORT(pub i16);

impl SSHORT {
    /// A value set of `SSHORT`s; fails on an empty slice.
    pub fn values(values: &[i16]) -> (r: Result<TiffTypeValues, ValidationError>)
        ensures
            build_result(r, 8, 2, 1, values@.map_values(|x: i16| twos(x as int, 16))),
    {
        let words = widen(values, |x: i16| -> (y: u64) ensures y == twos(x as int, 16) { twos_word(x as i64, 16) });
        assert(words@ =~= values@.map_values(|x: i16| twos(x as int, 16)));
        TiffTypeValues::new(8, 2, 1, words)
    }

    /// A value set holding the single value `value`.
    pub fn single(value: i16) -> (r: TiffTypeValues)
        ensures
            r.wf(),
            r.type_code() == 8,
            r.unit() == 2,
            r.per_value() == 1,
            r.words() == seq![twos(value as int, 16)],
    {
        let r = TiffTypeValues::from_valid(8, 2, 1, vec![twos_word(value as i64, 16)]);
        assert(r.words() =~= seq![twos(value as int, 16)]);
        r
    }
}

impl TiffType for SSHORT {
    open spec fn type_code() -> u16 {
        8
    }

    open spec fn byte_size() -> nat {
        2
    }

    open spec fn encoding(&self, big: bool) -> Seq<u8> {
        word_bytes(twos(self.0 as int, 16), 2, big)
    }

    fn id() -> (r: u16) {
        8
    }

    fn size() -> (r: u32) {
        2
    }

    fn write_to(self, sink: &mut ByteSink) {
        sink.write_word(twos_word(self.0 as i64, 16), 2)
    }
}

/// 32-bit (4-byte) signed (two's-complement) integer.
#[derive(Debug, Clone, Copy, PartialEq, Eq, Structural)]
pub struct SLONG(pub i32);

impl SLONG {
    /// A value set of `SLONG`s; fails on an empty slice.
    pub fn values(values: &[i32]) -> (r: Result<TiffTypeValues, ValidationError>)
        ensures
            build_result(r, 9, 4, 1, values@.map_values(|x: i32| twos(x as int, 32))),
    {
        let words = widen(values, |x: i32| -> (y: u64) ensures y == twos(x as int, 32) { twos_word(x as i64, 32) });
        assert(words@ =~= values@.map_values(|x: i32| twos(x as int, 32)));
        TiffTypeValues::new(9, 4, 1, words)
    }

    /// A value set holding the single value `value`.
    pub fn single(value: i32) -> (r: TiffTypeValues)
        ensures
            r.wf(),
            r.type_code() == 9,
            r.unit() == 4,
            r.per_value() == 1,
            r.words() == seq![twos(value as int, 32)],
    {
        let r = TiffTypeValues::from_valid(9, 4, 1, vec![twos_word(value as i64, 32)]);
        assert(r.words() =~= seq![twos(value as int, 32)]);
        r
    }
}

impl TiffType for SLONG {
    open spec fn type_code() -> u16 {
        9
    }

    open spec fn byte_size() -> nat {
        4
    }

    open spec fn encoding(&self, big: bool) -> Seq<u8> {
        word_bytes(twos(self.0 as int, 32), 4, big)
    }

    fn id() -> (r: u16) {
        9
    }

    fn size() -> (r: u32) {
        4
    }

    fn write_to(self, sink: &mut ByteSink) {
        sink.write_word(twos_word(self.0 as i64, 32), 4)
    }
}

/// Two `u32`s: the numerator and the denominator of a fraction.
#[derive(Debug, Clone, Copy, PartialEq, Eq, Structural)]
pub struct RATIONAL {
    pub numerator: u32,
    pub denominator: u32,
}

impl RATIONAL {
    /// A value set of fractions given as (numerator, denominator) pairs;
    /// fails on an empty slice.
    pub fn values(values: &[(u32, u32)]) -> (r: Result<TiffTypeValues, ValidationError>)
        ensures
            build_result(
                r,
                5,
                4,
                2,
                pair_words(values@.map_values(|p: (u32, u32)| (p.0 as u64, p.1 as u64))),
            ),
    {
        let ghost lifted = values@.map_values(|p: (u32, u32)| (p.0 as u64, p.1 as u64));
        let mut words: Vec<u64> = Vec::new();
        let mut i: usize = 0;
        while i < values.len()
            invariant
                i <= values@.len(),
                lifted == values@.map_values(|p: (u32, u32)| (p.0 as u64, p.1 as u64)),
                words@ == pair_words(lifted.take(i as int)),
            decreases values@.len() - i,
        {
            let (a, b) = values[i];
            words.push(a as u64);
            words.push(b as u64);
            assert(words@ =~= pair_words(lifted.take(i as int + 1)));
            i += 1;
        }
        assert(lifted.take(values@.len() as int) =~= lifted);
        assert(words@.len() % 2 == 0);
        TiffTypeValues::new(5, 4, 2, words)
    }

    /// A value set holding the single fraction `numerator / denominator`.
    pub fn single(numerator: u32, denominator: u32) -> (r: TiffTypeValues)
        ensures
            r.wf(),
            r.type_code() == 5,
            r.unit() == 4,
            r.per_value() == 2,
            r.words() == seq![numerator as u64, denominator as u64],
    {
        let r = TiffTypeValues::from_valid(5, 4, 2, vec![numerator as u64, denominator as u64]);
        assert(r.words() =~= seq![numerator as u64, denominator as u64]);
        r
    }
}

impl TiffType for RATIONAL {
    open spec fn type_code() -> u16 {
        5
    }

    open spec fn byte_size() -> nat {
        8
    }

    open spec fn encoding(&self, big: bool) -> Seq<u8> {
        word_bytes(self.numerator as u64, 4, big) + word_bytes(self.denominator as u64, 4, big)
    }

    fn id() -> (r: u16) {
        5
    }

    fn size() -> (r: u32) {
        8
    }

    fn write_to(self, sink: &mut ByteSink) {
        sink.write_word(self.numerator as u64, 4);
        sink.write_word(self.denominator as u64, 4);
    }
}

/// Two `i32`s: the numerator and the denominator of a fraction.
#[derive(Debug, Clone, Copy, PartialEq, Eq, Structural)]
pub struct SRATIONAL {
    pub numerator: i32,
    pub denominator: i32,
}

impl SRATIONAL {
    /// A value set of fractions given as (numerator, denominator) pairs;
    /// fails on an empty slice.
    pub fn values(values: &[(i32, i32)]) -> (r: Result<TiffTypeValues, ValidationError>)
        ensures
            build_result(
                r,
                10,
                4,
                2,
                pair_words(values@.map_values(|p: (i32, i32)| (twos(p.0 as int, 32), twos(p.1 as int, 32)))),
            ),
    {
        let ghost lifted = values@.map_values(|p: (i32, i32)| (twos(p.0 as int, 32), twos(p.1 as int, 32)));
        let mut words: Vec<u64> = Vec::new();
        let mut i: usize = 0;
        while i < values.len()
            invariant
                i <= values@.len(),
                lifted == values@.map_values(|p: (i32, i32)| (twos(p.0 as int, 32), twos(p.1 as int, 32))),
                words@ == pair_words(lifted.take(i as int)),
            decreases values@.len() - i,
        {
            let (a, b) = values[i];
            words.push(twos_word(a as i64, 32));
            words.push(twos_word(b as i64, 32));
            assert(words@ =~= pair_words(lifted.take(i as int + 1)));
            i += 1;
        }
        assert(lifted.take(values@.len() as int) =~= lifted);
        assert(words@.len() % 2 == 0);
        TiffTypeValues::new(10, 4, 2, words)
    }

    /// A value set holding the single fraction `numerator / denominator`.
    pub fn single(numerator: i32, denominator: i32) -> (r: TiffTypeValues)
        ensures
            r.wf(),
            r.type_code() == 10,
            r.unit() == 4,
            r.per_value() == 2,
            r.words() == seq![twos(numerator as int, 32), twos(denominator as int, 32)],
    {
        let r = TiffTypeValues::from_valid(10, 4, 2, vec![twos_word(numerator as i64, 32), twos_word(denominator as i64, 32)]);
        assert(r.words() =~= seq![twos(numerator as int, 32), twos(denominator as int, 32)]);
        r
    }
}

impl TiffType for SRATIONAL {
    open spec fn type_code() -> u16 {
        10
    }

    open spec fn byte_size() -> nat {
        8
    }

    open spec fn encoding(&self, big: bool) -> Seq<u8> {
        word_bytes(twos(self.numerator as int, 32), 4, big) + word_bytes(twos(self.denominator as int, 32), 4, big)
    }

    fn id() -> (r: u16) {
        10
    }

    fn size() -> (r: u32) {
        8
    }

    fn write_to(self, sink: &mut ByteSink) {
        sink.write_word(twos_word(self.numerator as i64, 32), 4);
        sink.write_word(twos_word(self.denominator as i64, 32), 4);
    }
}

/// The words of 7-bit text: the bytes, then a NUL unless the last is one.
pub open spec fn ascii_words(s: Seq<u8>) -> Seq<u64> {
    let w = s.map_values(|x: u8| x as u64);
    if s.len() > 0 && s.last() == 0 {
        w
    } else {
        w.push(0)
    }
}

/// Every byte of `s` is below 128.
pub open spec fn all_ascii(s: Seq<u8>) -> bool {
    forall|i: int| 0 <= i < s.len() ==> s[i] < 128
}

/// A byte holding a 7-bit character code.
#[derive(Debug, Clone, Copy, PartialEq, Eq, Structural)]
pub struct ASCII(u8);

impl ASCII {
    pub closed spec fn code(&self) -> u8 {
        self.0
    }

    /// A value set of 7-bit text; a NUL is appended unless the bytes already
    /// end in one. Fails on an empty slice or a byte above 127.
    pub fn values(values: &[u8]) -> (r: Result<TiffTypeValues, ValidationError>)
        ensures
            values@.len() == 0 ==> r == Err::<TiffTypeValues, ValidationError>(
                ValidationError::EmptyValues,
            ),
            values@.len() > 0 && !all_ascii(values@) ==> r == Err::<
                TiffTypeValues,
                ValidationError,
            >(ValidationError::NonAscii),
            values@.len() > 0 && all_ascii(values@) ==> build_result(
                r,
                2,
                1,
                1,
                ascii_words(values@),
            ),
    {
        if values.len() == 0 {
            return Err(ValidationError::EmptyValues);
        }
        let mut i: usize = 0;
        while i < values.len()
            invariant
                i <= values@.len(),
                forall|k: int| 0 <= k < i ==> values@[k] < 128,
            decreases values@.len() - i,
        {
            if ASCII::new(values[i]).is_err() {
                return Err(ValidationError::NonAscii);
            }
            i += 1;
        }
        let mut words = widen(values, |x: u8| -> (y: u64) ensures y == x as u64 { x as u64 });
        assert(words@ =~= values@.map_values(|x: u8| x as u64));
        if values[values.len() - 1] != 0 {
            words.push(0);
        }
        assert(words@ == ascii_words(values@));
        TiffTypeValues::new(2, 1, 1, words)
    }

    /// 7-bit text from a string; fails on a character above 127, and on an
    /// empty string.
    pub fn from_str(s: &str) -> (r: Result<TiffTypeValues, ValidationError>)
        ensures
            !vstd::string::is_ascii(s) ==> r == Err::<TiffTypeValues, ValidationError>(
                ValidationError::NonAscii,
            ),
            vstd::string::is_ascii(s) ==> {
                let b = Seq::new(s@.len(), |i: int| s@[i] as u8);
                &&& s@.len() == 0 ==> r == Err::<TiffTypeValues, ValidationError>(
                    ValidationError::EmptyValues,
                )
                &&& s@.len() > 0 ==> build_result(r, 2, 1, 1, ascii_words(b))
            },
    {
        if !s.is_ascii() {
            return Err(ValidationError::NonAscii);
        }
        let b = s.as_bytes();
        proof {
            assert forall|i: int| 0 <= i < b@.len() implies b@[i] < 128 by {
                assert(vstd::utf8::is_ascii_chars(s@));
                assert(b@[i] == s@[i] as u8);
            }
        }
        Self::values(b)
    }

    /// A 7-bit character code; fails on a value above 127.
    pub fn new(value: u8) -> (r: Result<ASCII, ValidationError>)
        ensures
            value < 128 <==> r is Ok,
            r matches Ok(a) ==> a.code() == value,
            value >= 128 ==> r == Err::<ASCII, ValidationError>(ValidationError::NonAscii),
    {
        if value >= 128 {
            Err(ValidationError::NonAscii)
        } else {
            Ok(ASCII(value))
        }
    }
}

impl TiffType for ASCII {
    open spec fn type_code() -> u16 {
        2
    }

    open spec fn byte_size() -> nat {
        1
    }

    open spec fn encoding(&self, big: bool) -> Seq<u8> {
        word_bytes(self.code() as u64, 1, big)
    }

    fn id() -> (r: u16) {
        2
    }

    fn size() -> (r: u32) {
        1
    }

    fn write_to(self, sink: &mut ByteSink) {
        sink.write_word(self.0 as u64, 1)
    }
}

/// A 32-bit offset that points at a nested directory; set by the layout,
/// never by callers.
#[derive(Debug, Clone, Copy, PartialEq, Eq, Structural)]
pub struct IFD(pub(crate) u32);

impl IFD {
    pub closed spec fn offset(&self) -> u32 {
        self.0
    }

    /// The pointer to a directory that starts at `offset`.
    pub(crate) fn at(offset: u32) -> (r: IFD)
        ensures
            r.offset() == offset,
    {
        IFD(offset)
    }

    /// The offset this pointer holds.
    pub fn value(&self) -> (r: u32)
        ensures
            r == self.offset(),
    {
        self.0
    }
}

impl TiffType for IFD {
    open spec fn type_code() -> u16 {
        13
    }

    open spec fn byte_size() -> nat {
        4
    }

    open spec fn encoding(&self, big: bool) -> Seq<u8> {
        word_bytes(self.offset() as u64, 4, big)
    }

    fn id() -> (r: u16) {
        13
    }

    fn size() -> (r: u32) {
        4
    }

    fn write_to(self, sink: &mut ByteSink) {
        sink.write_word(self.0 as u64, 4)
    }
}

} // verus!

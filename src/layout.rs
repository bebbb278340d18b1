//! Measure, assign and emit: lays a directory tree out as one forward-only
//! byte stream in which every offset field holds the position of its target.
use vstd::prelude::*;

use crate::ifd::{
    dir_wf, entries_wf, entry_wf, lemma_entries_wf_index, Directory, Entry,
    FieldData, IFD_TYPE_ID,
};
use crate::sink::{word_bytes, ByteSink};
use crate::types::{TiffType, IFD};
use crate::values::{lemma_words_bytes_len, ValidationError};

verus! {

broadcast use vstd::std_specs::vec::group_vec_axioms, vstd::seq::group_seq_axioms;

/// Size of a block after the optional rounding up to an even length.
pub open spec fn padded(n: nat, pad: bool) -> nat {
    if pad && n % 2 == 1 {
        n + 1
    } else {
        n
    }
}

/// The zero bytes that round a block of `n` bytes up to `padded(n, pad)`.
pub open spec fn padding(n: nat, pad: bool) -> Seq<u8> {
    Seq::new((padded(n, pad) - n) as nat, |i: int| 0u8)
}

/// Size of a directory's fixed block: count, 12-byte records, next offset.
pub open spec fn fixed_size(d: Directory) -> nat {
    2 + 12 * d.entries@.len() + 4
}

/// Size of the overflow block an entry needs (0 for none).
pub open spec fn block_size(e: Entry, pad: bool) -> nat {
    match e.data {
        FieldData::Values(v) => if v.inline() {
            0
        } else {
            padded(v.spec_total_bytes(), pad)
        },
        FieldData::Child(_) => 0,
    }
}

/// Bytes of the overflow block an entry needs (empty for none).
pub open spec fn block_bytes(e: Entry, big: bool, pad: bool) -> Seq<u8> {
    match e.data {
        FieldData::Values(v) => if v.inline() {
            Seq::empty()
        } else {
            v.encoded(big) + padding(v.spec_total_bytes(), pad)
        },
        FieldData::Child(_) => Seq::empty(),
    }
}

pub open spec fn blocks_size(es: Seq<Entry>, pad: bool) -> nat
    decreases es.len(),
{
    if es.len() == 0 {
        0
    } else {
        blocks_size(es.drop_last(), pad) + block_size(es.last(), pad)
    }
}

pub open spec fn blocks_bytes(es: Seq<Entry>, big: bool, pad: bool) -> Seq<u8>
    decreases es.len(),
{
    if es.len() == 0 {
        Seq::empty()
    } else {
        blocks_bytes(es.drop_last(), big, pad) + block_bytes(es.last(), big, pad)
    }
}

/// Bytes a directory chain occupies: each directory, its overflow blocks
/// and its nested directories, then the rest of the chain.
pub open spec fn chain_size(d: Directory, pad: bool) -> nat
    decreases d, 2nat,
{
    fixed_size(d) + blocks_size(d.entries@, pad) + children_size(d.entries@, pad) + match d.next {
        Some(nx) => chain_size(*nx, pad),
        None => 0,
    }
}

pub open spec fn children_size(es: Seq<Entry>, pad: bool) -> nat
    decreases es, 1nat,
{
    if es.len() == 0 {
        0
    } else {
        children_size(es.drop_last(), pad) + entry_tree_size(es.last(), pad)
    }
}

pub open spec fn entry_tree_size(e: Entry, pad: bool) -> nat
    decreases e, 0nat,
{
    match e.data {
        FieldData::Child(c) => chain_size(*c, pad),
        FieldData::Values(_) => 0,
    }
}

/// Where the overflow block of entry `i` of `d` starts, `d` starting at `start`.
pub open spec fn overflow_offset(d: Directory, start: nat, i: int, pad: bool) -> nat {
    start + fixed_size(d) + blocks_size(d.entries@.take(i), pad)
}

/// Where the directory nested under entry `i` of `d` starts.
pub open spec fn child_offset(d: Directory, start: nat, i: int, pad: bool) -> nat {
    start + fixed_size(d) + blocks_size(d.entries@, pad) + children_size(d.entries@.take(i), pad)
}

/// Where the directory after `d` in its chain starts.
pub open spec fn next_offset(d: Directory, start: nat, pad: bool) -> nat {
    start + fixed_size(d) + blocks_size(d.entries@, pad) + children_size(d.entries@, pad)
}

/// Type code and count an entry records.
pub open spec fn entry_type(e: Entry) -> u16 {
    match e.data {
        FieldData::Values(v) => v.type_code(),
        FieldData::Child(_) => IFD_TYPE_ID,
    }
}

pub open spec fn entry_count(e: Entry) -> nat {
    match e.data {
        FieldData::Values(v) => v.spec_count(),
        FieldData::Child(_) => 1,
    }
}

/// The 4-byte payload of entry `i`: the values themselves, zero-padded, when
/// they fit; else the offset of their overflow block or nested directory.
pub open spec fn payload(d: Directory, start: nat, i: int, big: bool, pad: bool) -> Seq<u8> {
    match d.entries@[i].data {
        FieldData::Values(v) => if v.inline() {
            v.encoded(big) + Seq::new((4 - v.spec_total_bytes()) as nat, |k: int| 0u8)
        } else {
            word_bytes(overflow_offset(d, start, i, pad) as u64, 4, big)
        },
        FieldData::Child(_) => word_bytes(child_offset(d, start, i, pad) as u64, 4, big),
    }
}

/// The 12-byte record of entry `i`: tag, type, count, payload.
pub open spec fn record(d: Directory, start: nat, i: int, big: bool, pad: bool) -> Seq<u8> {
    let e = d.entries@[i];
    word_bytes(e.tag as u64, 2, big) + word_bytes(entry_type(e) as u64, 2, big) + word_bytes(
        entry_count(e) as u64,
        4,
        big,
    ) + payload(d, start, i, big, pad)
}

/// The records of the first `n` entries, in order.
pub open spec fn records(d: Directory, start: nat, n: nat, big: bool, pad: bool) -> Seq<u8>
    decreases n,
{
    if n == 0 {
        Seq::empty()
    } else {
        records(d, start, (n - 1) as nat, big, pad) + record(d, start, n - 1, big, pad)
    }
}

/// A directory's fixed block.
pub open spec fn fixed_bytes(d: Directory, start: nat, big: bool, pad: bool) -> Seq<u8> {
    let n = d.entries@.len();
    let link: nat = match d.next {
        Some(_) => next_offset(d, start, pad),
        None => 0,
    };
    word_bytes(n as u64, 2, big) + records(d, start, n, big, pad) + word_bytes(link as u64, 4, big)
}

/// The bytes of a directory chain laid out from position `start`.
pub open spec fn chain_bytes(d: Directory, start: nat, big: bool, pad: bool) -> Seq<u8>
    decreases d, 2nat,
{
    let after_blocks = start + fixed_size(d) + blocks_size(d.entries@, pad);
    fixed_bytes(d, start, big, pad) + blocks_bytes(d.entries@, big, pad) + children_bytes(
        d.entries@,
        after_blocks,
        big,
        pad,
    ) + match d.next {
        Some(nx) => chain_bytes(*nx, next_offset(d, start, pad), big, pad),
        None => Seq::empty(),
    }
}

/// The nested directories under `es`, the first starting at `start`.
pub open spec fn children_bytes(es: Seq<Entry>, start: nat, big: bool, pad: bool) -> Seq<u8>
    decreases es, 1nat,
{
    if es.len() == 0 {
        Seq::empty()
    } else {
        let p = es.drop_last();
        children_bytes(p, start, big, pad) + entry_tree_bytes(
            es.last(),
            start + children_size(p, pad),
            big,
            pad,
        )
    }
}

pub open spec fn entry_tree_bytes(e: Entry, start: nat, big: bool, pad: bool) -> Seq<u8>
    decreases e, 0nat,
{
    match e.data {
        FieldData::Child(c) => chain_bytes(*c, start, big, pad),
        FieldData::Values(_) => Seq::empty(),
    }
}

pub proof fn lemma_records_len(d: Directory, start: nat, n: nat, big: bool, pad: bool)
    requires
        entries_wf(d.entries@),
        n <= d.entries@.len(),
    ensures
        records(d, start, n, big, pad).len() == 12 * n,
    decreases n,
{
    if n > 0 {
        lemma_records_len(d, start, (n - 1) as nat, big, pad);
        let i = n - 1;
        lemma_entries_wf_index(d.entries@, i);
        match d.entries@[i].data {
            FieldData::Values(v) => {
                lemma_words_bytes_len(v.words(), v.unit(), big);
            },
            FieldData::Child(_) => {},
        }
    }
}

pub proof fn lemma_blocks_len(es: Seq<Entry>, big: bool, pad: bool)
    requires
        entries_wf(es),
    ensures
        blocks_bytes(es, big, pad).len() == blocks_size(es, pad),
    decreases es.len(),
{
    if es.len() > 0 {
        lemma_blocks_len(es.drop_last(), big, pad);
        match es.last().data {
            FieldData::Values(v) => {
                lemma_words_bytes_len(v.words(), v.unit(), big);
            },
            FieldData::Child(_) => {},
        }
    }
}

/// A laid-out chain is exactly as long as it was measured.
pub proof fn lemma_chain_len(d: Directory, start: nat, big: bool, pad: bool)
    requires
        dir_wf(d),
    ensures
        chain_bytes(d, start, big, pad).len() == chain_size(d, pad),
    decreases d, 2nat,
{
    lemma_records_len(d, start, d.entries@.len(), big, pad);
    lemma_blocks_len(d.entries@, big, pad);
    lemma_children_len(d.entries@, start + fixed_size(d) + blocks_size(d.entries@, pad), big, pad);
    match d.next {
        Some(nx) => lemma_chain_len(*nx, next_offset(d, start, pad), big, pad),
        None => {},
    }
}

pub proof fn lemma_children_len(es: Seq<Entry>, start: nat, big: bool, pad: bool)
    requires
        entries_wf(es),
    ensures
        children_bytes(es, start, big, pad).len() == children_size(es, pad),
    decreases es, 1nat,
{
    if es.len() > 0 {
        let p = es.drop_last();
        lemma_children_len(p, start, big, pad);
        lemma_entry_tree_len(es.last(), start + children_size(p, pad), big, pad);
    }
}

pub proof fn lemma_entry_tree_len(e: Entry, start: nat, big: bool, pad: bool)
    requires
        entry_wf(e),
    ensures
        entry_tree_bytes(e, start, big, pad).len() == entry_tree_size(e, pad),
    decreases e, 0nat,
{
    match e.data {
        FieldData::Child(c) => lemma_chain_len(*c, start, big, pad),
        FieldData::Values(_) => {},
    }
}

proof fn lemma_take_step(es: Seq<Entry>, i: int)
    requires
        0 <= i < es.len(),
    ensures
        es.take(i + 1).drop_last() == es.take(i),
        es.take(i + 1).last() == es[i],
        es.take(i + 1).len() == i + 1,
{
    assert(es.take(i + 1).drop_last() =~= es.take(i));
}

proof fn lemma_take_all(es: Seq<Entry>)
    ensures
        es.take(es.len() as int) == es,
{
    assert(es.take(es.len() as int) =~= es);
}

proof fn lemma_entries_wf_take(es: Seq<Entry>, i: int)
    requires
        entries_wf(es),
        0 <= i <= es.len(),
    ensures
        entries_wf(es.take(i)),
{
    let t = es.take(i);
    assert forall|k: int| 0 <= k < t.len() implies entry_wf(#[trigger] t[k]) by {
        lemma_entries_wf_index(es, k);
    }
    crate::ifd::lemma_entries_wf_all(t);
}

/// A prefix of the entries needs no more overflow or nested bytes than all.
proof fn lemma_prefix_le(es: Seq<Entry>, i: int, pad: bool)
    requires
        0 <= i <= es.len(),
    ensures
        blocks_size(es.take(i), pad) <= blocks_size(es, pad),
        children_size(es.take(i), pad) <= children_size(es, pad),
    decreases es.len(),
{
    if i == es.len() {
        lemma_take_all(es);
    } else {
        let p = es.drop_last();
        assert(p.take(i) =~= es.take(i));
        lemma_prefix_le(p, i, pad);
    }
}

fn write_zeros(sink: &mut ByteSink, k: usize)
    ensures
        final(sink)@ == old(sink)@ + Seq::new(k as nat, |j: int| 0u8),
        final(sink).is_big_endian() == old(sink).is_big_endian(),
{
    let ghost start = sink@;
    let mut i: usize = 0;
    while i < k
        invariant
            i <= k,
            sink@ == start + Seq::new(i as nat, |j: int| 0u8),
            sink.is_big_endian() == old(sink).is_big_endian(),
        decreases k - i,
    {
        sink.write_u8(0);
        assert(Seq::new(i as nat + 1, |j: int| 0u8) =~= Seq::new(i as nat, |j: int| 0u8).push(
            0u8,
        ));
        i += 1;
    }
}

/// Total size of the overflow blocks the entries `es` need.
fn measure_blocks(es: &Vec<Entry>, pad: bool) -> (r: u64)
    requires
        entries_wf(es@),
        es@.len() <= 65535,
    ensures
        r == blocks_size(es@, pad),
{
    let n = es.len();
    let ghost s = es@;
    let mut total: u64 = 0;
    let mut i: usize = 0;
    while i < n
        invariant
            n == s.len(),
            s == es@,
            entries_wf(s),
            n <= 65535,
            i <= n,
            total == blocks_size(s.take(i as int), pad),
            total <= i * 4294967297,
        decreases n - i,
    {
        proof {
            lemma_take_step(s, i as int);
            lemma_entries_wf_index(s, i as int);
        }
        match &es[i].data {
            FieldData::Values(v) => {
                if v.storage_mode() == crate::values::StorageMode::Overflow {
                    let b = v.total_bytes() as u64;
                    let b = if pad && b % 2 == 1 { b + 1 } else { b };
                    total = total + b;
                }
            },
            FieldData::Child(_) => {},
        }
        i += 1;
    }
    proof {
        lemma_take_all(s);
    }
    total
}

/// The sizes found by measuring a directory chain: that of the whole chain,
/// one per entry (that of the chain nested under it; unused for values),
/// and those of the rest of the chain. Emitting reads offsets off it.
pub struct Sizes {
    pub total: u32,
    pub entries: Vec<Sizes>,
    pub next: Option<Box<Sizes>>,
}

/// `t` holds the measured sizes of the chain `d`.
pub open spec fn sizes_of(t: Sizes, d: Directory, pad: bool) -> bool
    decreases d,
{
    &&& t.total == chain_size(d, pad)
    &&& t.entries@.len() == d.entries@.len()
    &&& forall|i: int|
        #![trigger d.entries@[i]]
        0 <= i < d.entries@.len() ==> match d.entries@[i].data {
            FieldData::Child(c) => sizes_of(t.entries@[i], *c, pad),
            FieldData::Values(_) => true,
        }
    &&& match d.next {
        Some(nx) => t.next matches Some(tn) && sizes_of(*tn, *nx, pad),
        None => t.next is None,
    }
}

/// Measure: the sizes of a directory chain and of everything in it, or
/// `None` when the chain exceeds what a 32-bit offset can address.
pub fn measure_tree(d: &Directory, pad: bool) -> (r: Option<Sizes>)
    requires
        dir_wf(*d),
    ensures
        match r {
            Some(t) => sizes_of(t, *d, pad),
            None => chain_size(*d, pad) > u32::MAX,
        },
    decreases d,
{
    let es = &d.entries;
    let n = es.len();
    let ghost s = es@;
    let blocks = measure_blocks(es, pad);
    if blocks > u32::MAX as u64 - (6 + 12 * n as u64) {
        return None;
    }
    let mut total: u64 = 6 + 12 * n as u64 + blocks;
    let mut sub: Vec<Sizes> = Vec::new();
    proof {
        lemma_take_all(s);
        assert(s.take(0) =~= Seq::<Entry>::empty());
    }
    let mut i: usize = 0;
    while i < n
        invariant
            n == s.len(),
            s == d.entries@,
            es@ == s,
            dir_wf(*d),
            i <= n,
            total == fixed_size(*d) + blocks_size(s, pad) + children_size(s.take(i as int), pad),
            total <= u32::MAX,
            sub@.len() == i,
            forall|k: int|
                #![trigger s[k]]
                0 <= k < i ==> match s[k].data {
                    FieldData::Child(c) => sizes_of(sub@[k], *c, pad),
                    FieldData::Values(_) => true,
                },
        decreases n - i,
    {
        proof {
            lemma_take_step(s, i as int);
            lemma_entries_wf_index(s, i as int);
        }
        let ghost e = s[i as int];
        proof {
            let t = s.take(i as int + 1);
            assert(children_size(t, pad) == children_size(s.take(i as int), pad) + entry_tree_size(
                e,
                pad,
            ));
        }
        match &es[i].data {
            FieldData::Values(_) => {
                sub.push(Sizes { total: 0, entries: Vec::new(), next: None });
            },
            FieldData::Child(c) => {
                assert(entry_tree_size(e, pad) == chain_size(**c, pad));
                proof {
                    assert(decreases_to!(d.entries => d.entries[i as int]));
                }
                match measure_tree(c, pad) {
                    None => {
                        proof {
                            lemma_prefix_le(s, i as int + 1, pad);
                        }
                        return None;
                    },
                    Some(t) => {
                        total = total + t.total as u64;
                        sub.push(t);
                    },
                }
            },
        }
        proof {
            lemma_prefix_le(s, i as int + 1, pad);
        }
        if total > u32::MAX as u64 {
            return None;
        }
        i += 1;
    }
    proof {
        lemma_take_all(s);
    }
    match &d.next {
        None => Some(Sizes { total: total as u32, entries: sub, next: None }),
        Some(nx) => {
            match measure_tree(nx, pad) {
                None => None,
                Some(tn) => {
                    if total + tn.total as u64 > u32::MAX as u64 {
                        None
                    } else {
                        let t = (total + tn.total as u64) as u32;
                        Some(Sizes { total: t, entries: sub, next: Some(Box::new(tn)) })
                    }
                },
            }
        },
    }
}

/// The bytes a directory chain will occupy, or `None` when that exceeds
/// what a 32-bit offset can address.
pub fn measure_chain(d: &Directory, pad: bool) -> (r: Option<u32>)
    requires
        dir_wf(*d),
    ensures
        match r {
            Some(n) => n == chain_size(*d, pad),
            None => chain_size(*d, pad) > u32::MAX,
        },
{
    match measure_tree(d, pad) {
        Some(t) => Some(t.total),
        None => None,
    }
}

/// The bytes of the rest of the chain after `d`, `d` starting at `start`.
spec fn next_bytes(d: Directory, start: nat, big: bool, pad: bool) -> Seq<u8> {
    match d.next {
        Some(nx) => chain_bytes(*nx, next_offset(d, start, pad), big, pad),
        None => Seq::empty(),
    }
}

/// Writes the record of entry `i` of `d`, `d` starting at `start`, given
/// where the entry's overflow block or nested directory starts; returns
/// where those of the next entry start.
#[verifier::rlimit(40)]
fn emit_record(d: &Directory, t: &Sizes, i: usize, start: u32, ov: u32, ch: u32, sink: &mut ByteSink, pad: bool) -> (r: (u32, u32))
    requires
        dir_wf(*d),
        sizes_of(*t, *d, pad),
        i < d.entries@.len(),
        start + chain_size(*d, pad) <= u32::MAX,
        ov == overflow_offset(*d, start as nat, i as int, pad),
        ch == child_offset(*d, start as nat, i as int, pad),
    ensures
        final(sink)@ == old(sink)@ + record(*d, start as nat, i as int, old(sink).is_big_endian(), pad),
        final(sink).is_big_endian() == old(sink).is_big_endian(),
        r.0 == overflow_offset(*d, start as nat, i + 1, pad),
        r.1 == child_offset(*d, start as nat, i + 1, pad),
{
    let ghost big = sink.is_big_endian();
    let ghost st = start as nat;
    let es = &d.entries;
    let ghost s = es@;
    let mut ov = ov;
    let mut ch = ch;
    proof {
        lemma_take_step(s, i as int);
        lemma_entries_wf_index(s, i as int);
        lemma_prefix_le(s, i as int + 1, pad);
        lemma_take_all(s);
    }
    let ghost before = sink@;
    let ghost e = s[i as int];
    proof {
        let t = s.take(i as int + 1);
        assert(children_size(t, pad) == children_size(s.take(i as int), pad) + entry_tree_size(
            e,
            pad,
        ));
    }
    let entry = &es[i];
    sink.write_u16(entry.tag);
    match &entry.data {
        FieldData::Values(v) => {
            sink.write_u16(v.type_id());
            sink.write_u32(v.count());
            if v.storage_mode() == crate::values::StorageMode::Inline {
                v.write_to(sink);
                write_zeros(sink, (4 - v.total_bytes()) as usize);
            } else {
                sink.write_u32(ov);
                let b = v.total_bytes();
                let b = if pad && b % 2 == 1 { b + 1 } else { b };
                ov = ov + b;
            }
        },
        FieldData::Child(c) => {
            assert(entry_tree_size(e, pad) == chain_size(**c, pad));
            sink.write_u16(IFD_TYPE_ID);
            sink.write_u32(1);
            IFD::at(ch).write_to(sink);
            assert(sizes_of(t.entries@[i as int], **c, pad));
            ch = ch + t.entries[i].total;
        },
    }
    proof {
        assert(sink@ =~= before + record(*d, st, i as int, big, pad));
    }
    (ov, ch)
}

/// Writes the fixed block of `d`, which starts at the sink's position.
fn emit_fixed(d: &Directory, t: &Sizes, sink: &mut ByteSink, pad: bool)
    requires
        dir_wf(*d),
        sizes_of(*t, *d, pad),
        old(sink)@.len() + chain_size(*d, pad) <= u32::MAX,
    ensures
        final(sink)@ == old(sink)@ + fixed_bytes(
            *d,
            old(sink)@.len(),
            old(sink).is_big_endian(),
            pad,
        ),
        final(sink).is_big_endian() == old(sink).is_big_endian(),
{
    let ghost big = sink.is_big_endian();
    let ghost s0 = sink@;
    let ghost st: nat = s0.len();
    let es = &d.entries;
    let ghost s = es@;
    let n = es.len();
    let start = sink.position() as u32;
    let fixed: u32 = (6 + 12 * n) as u32;
    let blocks = measure_blocks(es, pad) as u32;
    let mut ov: u32 = start + fixed;
    let mut ch: u32 = start + fixed + blocks;
    proof {
        lemma_take_all(s);
        assert(s.take(0) =~= Seq::<Entry>::empty());
    }
    sink.write_u16(n as u16);
    let mut i: usize = 0;
    while i < n
        invariant
            s == es@,
            s == d.entries@,
            n == s.len(),
            dir_wf(*d),
            i <= n,
            sink.is_big_endian() == big,
            st == start,
            sizes_of(*t, *d, pad),
            st + chain_size(*d, pad) <= u32::MAX,
            sink@ == s0 + word_bytes(n as u64, 2, big) + records(*d, st, i as nat, big, pad),
            ov == overflow_offset(*d, st, i as int, pad),
            ch == child_offset(*d, st, i as int, pad),
        decreases n - i,
    {
        proof {
            lemma_take_step(s, i as int);
            lemma_entries_wf_index(s, i as int);
            lemma_prefix_le(s, i as int + 1, pad);
            lemma_take_all(s);
        }
        let r = emit_record(d, t, i, start, ov, ch, sink, pad);
        ov = r.0;
        ch = r.1;
        i += 1;
    }
    match &d.next {
        Some(_) => sink.write_u32(ch),
        None => sink.write_u32(0),
    }
    proof {
        assert(sink@ =~= s0 + fixed_bytes(*d, st, big, pad));
    }
}

/// Writes the overflow blocks of `es`, in entry order.
fn emit_blocks(es: &Vec<Entry>, sink: &mut ByteSink, pad: bool)
    requires
        entries_wf(es@),
    ensures
        final(sink)@ == old(sink)@ + blocks_bytes(es@, old(sink).is_big_endian(), pad),
        final(sink).is_big_endian() == old(sink).is_big_endian(),
{
    let ghost big = sink.is_big_endian();
    let ghost s0 = sink@;
    let ghost s = es@;
    let n = es.len();
    proof {
        assert(s.take(0) =~= Seq::<Entry>::empty());
    }
    let mut i: usize = 0;
    while i < n
        invariant
            s == es@,
            n == s.len(),
            entries_wf(s),
            i <= n,
            sink.is_big_endian() == big,
            sink@ == s0 + blocks_bytes(s.take(i as int), big, pad),
        decreases n - i,
    {
        proof {
            lemma_take_step(s, i as int);
            lemma_entries_wf_index(s, i as int);
        }
        let ghost before = sink@;
        match &es[i].data {
            FieldData::Values(v) => {
                if v.storage_mode() == crate::values::StorageMode::Overflow {
                    v.write_to(sink);
                    let k: usize = if pad && v.total_bytes() % 2 == 1 { 1 } else { 0 };
                    write_zeros(sink, k);
                }
            },
            FieldData::Child(_) => {},
        }
        proof {
            assert(sink@ =~= before + block_bytes(s[i as int], big, pad));
        }
        i += 1;
    }
    proof {
        lemma_take_all(s);
    }
}

/// Writes the directories nested under the entries of `d`, in entry order.
#[verifier::rlimit(60)]
fn emit_children(d: &Directory, t: &Sizes, sink: &mut ByteSink, pad: bool)
    requires
        dir_wf(*d),
        sizes_of(*t, *d, pad),
        old(sink)@.len() + children_size(d.entries@, pad) <= u32::MAX,
    ensures
        final(sink)@ == old(sink)@ + children_bytes(
            d.entries@,
            old(sink)@.len(),
            old(sink).is_big_endian(),
            pad,
        ),
        final(sink).is_big_endian() == old(sink).is_big_endian(),
    decreases d, 0nat,
{
    let ghost big = sink.is_big_endian();
    let ghost s0 = sink@;
    let ghost ab: nat = s0.len();
    let es = &d.entries;
    let ghost s = es@;
    let n = es.len();
    proof {
        assert(s.take(0) =~= Seq::<Entry>::empty());
    }
    let mut i: usize = 0;
    while i < n
        invariant
            s == es@,
            s == d.entries@,
            n == s.len(),
            dir_wf(*d),
            i <= n,
            sink.is_big_endian() == big,
            ab + children_size(s, pad) <= u32::MAX,
            sizes_of(*t, *d, pad),
            sink@ == s0 + children_bytes(s.take(i as int), ab, big, pad),
            sink@.len() == ab + children_size(s.take(i as int), pad),
        decreases n - i,
    {
        proof {
            lemma_take_step(s, i as int);
            lemma_entries_wf_index(s, i as int);
            lemma_prefix_le(s, i as int + 1, pad);
        }
        let ghost before = sink@;
        let ghost e = s[i as int];
        proof {
            let t = s.take(i as int + 1);
            assert(children_size(t, pad) == children_size(s.take(i as int), pad) + entry_tree_size(
                e,
                pad,
            ));
        }
        match &es[i].data {
            FieldData::Values(_) => {},
            FieldData::Child(c) => {
                assert(entry_tree_size(e, pad) == chain_size(**c, pad));
                proof {
                    assert(decreases_to!(d.entries => d.entries[i as int]));
                    lemma_chain_len(**c, before.len(), big, pad);
                }
                assert(sizes_of(t.entries@[i as int], **c, pad));
                emit_chain(c, &t.entries[i], sink, pad);
            },
        }
        proof {
            assert(sink@ =~= before + entry_tree_bytes(
                e,
                ab + children_size(s.take(i as int), pad),
                big,
                pad,
            ));
        }
        i += 1;
    }
    proof {
        lemma_take_all(s);
    }
}

#[verifier::rlimit(50)]
/// Assign and emit: writes the chain `d` from the sink's current position,
/// every offset field holding the position at which its block is written.
/// Offsets are assigned from the sizes `t` that measuring `d` produced.
pub fn emit_chain(d: &Directory, t: &Sizes, sink: &mut ByteSink, pad: bool)
    requires
        dir_wf(*d),
        sizes_of(*t, *d, pad),
        old(sink)@.len() + chain_size(*d, pad) <= u32::MAX,
    ensures
        final(sink)@ == old(sink)@ + chain_bytes(
            *d,
            old(sink)@.len(),
            old(sink).is_big_endian(),
            pad,
        ),
        final(sink).is_big_endian() == old(sink).is_big_endian(),
    decreases d, 1nat,
{
    let ghost big = sink.is_big_endian();
    let ghost s0 = sink@;
    let ghost st: nat = s0.len();
    let ghost fixed = fixed_bytes(*d, st, big, pad);
    let ghost blocks = blocks_bytes(d.entries@, big, pad);
    let ghost ab: nat = st + fixed_size(*d) + blocks_size(d.entries@, pad);
    let ghost rest = next_bytes(*d, st, big, pad);
    proof {
        assert(chain_bytes(*d, st, big, pad) == fixed + blocks + children_bytes(
            d.entries@,
            ab,
            big,
            pad,
        ) + rest);
        lemma_records_len(*d, st, d.entries@.len(), big, pad);
        lemma_blocks_len(d.entries@, big, pad);
        lemma_children_len(d.entries@, ab, big, pad);
    }
    emit_fixed(d, t, sink, pad);
    emit_blocks(&d.entries, sink, pad);
    assert(sink@ == s0 + fixed + blocks);
    assert(sink@.len() == ab);
    emit_children(d, t, sink, pad);
    let ghost mid = sink@;
    assert(mid.len() == next_offset(*d, st, pad));
    match (&d.next, &t.next) {
        (Some(nx), Some(tn)) => emit_chain(nx, tn, sink, pad),
        _ => {},
    }
    proof {
        assert(sink@ =~= s0 + chain_bytes(*d, st, big, pad));
    }
}

/// The file header: byte-order marker, the number 42, and the offset (8)
/// of the first directory.
pub open spec fn header_bytes(big: bool) -> Seq<u8> {
    let m: u8 = if big { 0x4d } else { 0x49 };
    seq![m, m] + word_bytes(42, 2, big) + word_bytes(8, 4, big)
}

/// Position at which the first directory starts.
pub const HEADER_SIZE: u32 = 8;

/// Lays the document rooted at `root` out after the header, consuming it.
/// Fails when the document does not fit in 32-bit offsets.
pub fn encode(root: Directory, big_endian: bool, pad: bool) -> (r: Result<Vec<u8>, ValidationError>)
    requires
        root.wf(),
    ensures
        r is Err <==> HEADER_SIZE + chain_size(root, pad) > u32::MAX,
        r is Err ==> r == Err::<Vec<u8>, ValidationError>(ValidationError::TooLarge),
        r matches Ok(b) ==> b@ == header_bytes(big_endian) + chain_bytes(
            root,
            HEADER_SIZE as nat,
            big_endian,
            pad,
        ),
{
    let sizes = match measure_tree(&root, pad) {
        Some(t) => t,
        None => {
            return Err(ValidationError::TooLarge);
        },
    };
    let size = sizes.total;
    if size > u32::MAX - HEADER_SIZE {
        return Err(ValidationError::TooLarge);
    }
    let mut sink = ByteSink::new(big_endian);
    let m: u8 = if big_endian { 0x4d } else { 0x49 };
    sink.write_u8(m);
    sink.write_u8(m);
    sink.write_u16(42);
    sink.write_u32(HEADER_SIZE);
    proof {
        assert(sink@ =~= header_bytes(big_endian));
    }
    emit_chain(&root, &sizes, &mut sink, pad);
    Ok(sink.into_bytes())
}

proof fn lemma_records_at(d: Directory, start: nat, n: nat, i: int, big: bool, pad: bool)
    requires
        entries_wf(d.entries@),
        n <= d.entries@.len(),
        0 <= i < n,
    ensures
        records(d, start, n, big, pad).subrange(12 * i, 12 * i + 12) == record(d, start, i, big, pad),
    decreases n,
{
    lemma_records_len(d, start, (n - 1) as nat, big, pad);
    lemma_records_len(d, start, n, big, pad);
    let prev = records(d, start, (n - 1) as nat, big, pad);
    if i == n - 1 {
        assert(records(d, start, n, big, pad).subrange(12 * i, 12 * i + 12) =~= record(d, start, i, big, pad));
    } else {
        lemma_records_at(d, start, (n - 1) as nat, i, big, pad);
        assert(records(d, start, n, big, pad).subrange(12 * i, 12 * i + 12) =~= prev.subrange(12 * i, 12 * i + 12));
    }
}

/// The record of entry `i` sits at `2 + 12 * i` in the laid-out chain.
pub proof fn lemma_record_at(d: Directory, start: nat, i: int, big: bool, pad: bool)
    requires
        dir_wf(d),
        0 <= i < d.entries@.len(),
    ensures
        chain_bytes(d, start, big, pad).subrange(2 + 12 * i, 14 + 12 * i) == record(d, start, i, big, pad),
        14 + 12 * i <= fixed_size(d) <= chain_bytes(d, start, big, pad).len(),
{
    let n = d.entries@.len();
    lemma_records_at(d, start, n, i, big, pad);
    lemma_records_len(d, start, n, big, pad);
    let recs = records(d, start, n, big, pad);
    let all = chain_bytes(d, start, big, pad);
    let fb = fixed_bytes(d, start, big, pad);
    assert(all.subrange(0, fb.len() as int) =~= fb);
    assert(all.subrange(2 + 12 * i, 14 + 12 * i) =~= fb.subrange(2 + 12 * i, 14 + 12 * i));
    assert(fb.subrange(2 + 12 * i, 14 + 12 * i) =~= recs.subrange(12 * i, 12 * i + 12));
}

proof fn lemma_payload_at(d: Directory, start: nat, i: int, big: bool, pad: bool)
    requires
        dir_wf(d),
        0 <= i < d.entries@.len(),
    ensures
        chain_bytes(d, start, big, pad).subrange(10 + 12 * i, 14 + 12 * i) == payload(
            d,
            start,
            i,
            big,
            pad,
        ),
{
    lemma_entries_wf_index(d.entries@, i);
    match d.entries@[i].data {
        FieldData::Values(v) => lemma_words_bytes_len(v.words(), v.unit(), big),
        FieldData::Child(_) => {},
    }
    lemma_record_at(d, start, i, big, pad);
    let all = chain_bytes(d, start, big, pad);
    let r = record(d, start, i, big, pad);
    assert(r.len() == 12);
    assert(all.subrange(10 + 12 * i, 14 + 12 * i) =~= all.subrange(2 + 12 * i, 14 + 12 * i).subrange(8, 12));
    assert(r.subrange(8, 12) =~= payload(d, start, i, big, pad));
}

proof fn lemma_block_len(e: Entry, big: bool, pad: bool)
    requires
        entry_wf(e),
    ensures
        block_bytes(e, big, pad).len() == block_size(e, pad),
{
    match e.data {
        FieldData::Values(v) => lemma_words_bytes_len(v.words(), v.unit(), big),
        FieldData::Child(_) => {},
    }
}

/// Tags strictly increase in serialization order, and the tag of entry `i`
/// is the first field of its record.
pub proof fn lemma_serialized_tags_increasing(d: Directory, start: nat, big: bool, pad: bool)
    requires
        dir_wf(d),
    ensures
        forall|i: int, j: int|
            0 <= i < j < d.entries@.len() ==> d.entries@[i].tag < d.entries@[j].tag,
        forall|i: int|
            0 <= i < d.entries@.len() ==> #[trigger] chain_bytes(d, start, big, pad).subrange(
                2 + 12 * i,
                4 + 12 * i,
            ) == word_bytes(d.entries@[i].tag as u64, 2, big),
{
    assert forall|i: int| 0 <= i < d.entries@.len() implies #[trigger] chain_bytes(
        d,
        start,
        big,
        pad,
    ).subrange(2 + 12 * i, 4 + 12 * i) == word_bytes(d.entries@[i].tag as u64, 2, big) by {
        lemma_record_at(d, start, i, big, pad);
        let all = chain_bytes(d, start, big, pad);
        assert(all.subrange(2 + 12 * i, 4 + 12 * i) =~= all.subrange(2 + 12 * i, 14 + 12 * i).subrange(0, 2));
        assert(record(d, start, i, big, pad).subrange(0, 2) =~= word_bytes(d.entries@[i].tag as u64, 2, big));
    }
}

/// Values of at most four bytes are stored in the entry itself: the payload
/// is their bytes, zero-padded on the right to four, and no overflow block
/// is written for the entry.
pub proof fn lemma_inline_payload(d: Directory, start: nat, i: int, big: bool, pad: bool)
    requires
        dir_wf(d),
        0 <= i < d.entries@.len(),
        d.entries@[i].data is Values,
        d.entries@[i].data->Values_0.spec_total_bytes() <= 4,
    ensures
        ({
            let v = d.entries@[i].data->Values_0;
            let p = chain_bytes(d, start, big, pad).subrange(10 + 12 * i, 14 + 12 * i);
            &&& p.len() == 4
            &&& p.subrange(0, v.spec_total_bytes() as int) == v.encoded(big)
            &&& forall|k: int| v.spec_total_bytes() <= k < 4 ==> p[k] == 0
            &&& block_bytes(d.entries@[i], big, pad).len() == 0
            &&& block_size(d.entries@[i], pad) == 0
        }),
{
    let v = d.entries@[i].data->Values_0;
    lemma_entries_wf_index(d.entries@, i);
    lemma_words_bytes_len(v.words(), v.unit(), big);
    lemma_payload_at(d, start, i, big, pad);
    let all = chain_bytes(d, start, big, pad);
    assert(payload(d, start, i, big, pad).subrange(0, v.spec_total_bytes() as int) =~= v.encoded(big));
}

proof fn lemma_block_at(es: Seq<Entry>, i: int, big: bool, pad: bool)
    requires
        entries_wf(es),
        0 <= i < es.len(),
    ensures
        blocks_bytes(es, big, pad).subrange(
            blocks_size(es.take(i), pad) as int,
            (blocks_size(es.take(i), pad) + block_size(es[i], pad)) as int,
        ) == block_bytes(es[i], big, pad),
    decreases es.len(),
{
    let p = es.drop_last();
    lemma_blocks_len(p, big, pad);
    lemma_blocks_len(es, big, pad);
    lemma_entries_wf_index(es, i);
    lemma_entries_wf_take(es, es.len() - 1);
    assert(p == es.take(es.len() - 1));
    let a = blocks_size(es.take(i), pad) as int;
    let all = blocks_bytes(es, big, pad);
    lemma_block_len(es[i], big, pad);
    if i == es.len() - 1 {
        assert(es.take(i) == p);
        assert(all.subrange(a, a + block_size(es[i], pad)) =~= block_bytes(es[i], big, pad));
    } else {
        assert(p.take(i) =~= es.take(i));
        assert(p[i] == es[i]);
        lemma_block_at(p, i, big, pad);
        lemma_take_step(p, i);
        lemma_prefix_le(p, i + 1, pad);
        assert(all.subrange(a, a + block_size(es[i], pad)) =~= blocks_bytes(p, big, pad).subrange(
            a,
            a + block_size(es[i], pad),
        ));
    }
}

/// Values of more than four bytes get one overflow block, and the entry's
/// payload is the position at which that block starts in the stream.
pub proof fn lemma_overflow_offset(d: Directory, start: nat, i: int, big: bool, pad: bool)
    requires
        dir_wf(d),
        0 <= i < d.entries@.len(),
        d.entries@[i].data is Values,
        d.entries@[i].data->Values_0.spec_total_bytes() > 4,
    ensures
        ({
            let v = d.entries@[i].data->Values_0;
            let o = overflow_offset(d, start, i, pad);
            let all = chain_bytes(d, start, big, pad);
            &&& all.subrange(10 + 12 * i, 14 + 12 * i) == word_bytes(o as u64, 4, big)
            &&& all.subrange(o - start, o - start + v.spec_total_bytes()) == v.encoded(big)
        }),
{
    let v = d.entries@[i].data->Values_0;
    let es = d.entries@;
    lemma_entries_wf_index(es, i);
    lemma_words_bytes_len(v.words(), v.unit(), big);
    lemma_payload_at(d, start, i, big, pad);
    let all = chain_bytes(d, start, big, pad);
    let fb = fixed_bytes(d, start, big, pad);
    let bb = blocks_bytes(es, big, pad);
    let a = blocks_size(es.take(i), pad) as int;
    let t = v.spec_total_bytes() as int;
    let w = block_size(es[i], pad) as int;
    // where the block lies within the overflow region
    lemma_block_at(es, i, big, pad);
    lemma_take_step(es, i);
    lemma_prefix_le(es, i + 1, pad);
    assert(blocks_size(es.take(i + 1), pad) == a + w);
    assert(t <= w);
    // the overflow region follows the fixed block
    lemma_chain_split(d, start, big, pad);
    lemma_records_len(d, start, es.len(), big, pad);
    assert(fb.len() == fixed_size(d));
    assert(a + w <= bb.len());
    let cb = children_bytes(es, start + fixed_size(d) + blocks_size(es, pad), big, pad);
    lemma_subrange_of_second(fb, bb, cb, next_bytes(d, start, big, pad), a, t);
    assert(bb.subrange(a, a + t) =~= bb.subrange(a, a + w).subrange(0, t));
    assert(block_bytes(es[i], big, pad).subrange(0, t) =~= v.encoded(big));
}

/// A stretch inside the second of four joined sequences.
proof fn lemma_subrange_of_second(x: Seq<u8>, y: Seq<u8>, z: Seq<u8>, u: Seq<u8>, a: int, t: int)
    requires
        0 <= a,
        0 <= t,
        a + t <= y.len(),
    ensures
        (x + y + z + u).subrange(x.len() + a, x.len() + a + t) == y.subrange(a, a + t),
{
    assert((x + y + z + u).subrange(x.len() + a, x.len() + a + t) =~= y.subrange(a, a + t));
}

proof fn lemma_child_at(es: Seq<Entry>, ab: nat, i: int, big: bool, pad: bool)
    requires
        entries_wf(es),
        0 <= i < es.len(),
    ensures
        children_bytes(es, ab, big, pad).subrange(
            children_size(es.take(i), pad) as int,
            (children_size(es.take(i), pad) + entry_tree_size(es[i], pad)) as int,
        ) == entry_tree_bytes(es[i], ab + children_size(es.take(i), pad), big, pad),
    decreases es.len(),
{
    let p = es.drop_last();
    lemma_entries_wf_index(es, i);
    lemma_entries_wf_take(es, es.len() - 1);
    assert(p == es.take(es.len() - 1));
    lemma_children_len(p, ab, big, pad);
    lemma_children_len(es, ab, big, pad);
    let a = children_size(es.take(i), pad) as int;
    let all = children_bytes(es, ab, big, pad);
    lemma_entry_tree_len(es[i], (ab + a) as nat, big, pad);
    if i == es.len() - 1 {
        assert(es.take(i) == p);
        assert(all.subrange(a, a + entry_tree_size(es[i], pad)) =~= entry_tree_bytes(
            es[i],
            (ab + a) as nat,
            big,
            pad,
        ));
    } else {
        assert(p.take(i) =~= es.take(i));
        assert(p[i] == es[i]);
        lemma_child_at(p, ab, i, big, pad);
        lemma_take_step(p, i);
        lemma_prefix_le(p, i + 1, pad);
        assert(all.subrange(a, a + entry_tree_size(es[i], pad)) =~= children_bytes(
            p,
            ab,
            big,
            pad,
        ).subrange(a, a + entry_tree_size(es[i], pad)));
    }
}

/// A laid-out chain splits into the fixed block, the overflow blocks, the
/// nested directories and the rest of the chain, of the measured lengths.
proof fn lemma_chain_split(d: Directory, start: nat, big: bool, pad: bool)
    requires
        dir_wf(d),
    ensures
        ({
            let es = d.entries@;
            let ab = start + fixed_size(d) + blocks_size(es, pad);
            let head = fixed_bytes(d, start, big, pad) + blocks_bytes(es, big, pad);
            let cb = children_bytes(es, ab, big, pad);
            &&& chain_bytes(d, start, big, pad) == head + cb + next_bytes(d, start, big, pad)
            &&& head.len() == fixed_size(d) + blocks_size(es, pad)
            &&& cb.len() == children_size(es, pad)
        }),
{
    let es = d.entries@;
    lemma_records_len(d, start, es.len(), big, pad);
    lemma_blocks_len(es, big, pad);
    lemma_children_len(es, start + fixed_size(d) + blocks_size(es, pad), big, pad);
}

/// A nested directory is laid out exactly where its parent's pointer entry
/// says: the payload is its start position, and the bytes found there are
/// the nested chain laid out from that very position.
#[verifier::rlimit(80)]
pub proof fn lemma_child_offset(d: Directory, start: nat, i: int, big: bool, pad: bool)
    requires
        dir_wf(d),
        0 <= i < d.entries@.len(),
        d.entries@[i].data is Child,
    ensures
        ({
            let c = *d.entries@[i].data->Child_0;
            let o = child_offset(d, start, i, pad);
            let all = chain_bytes(d, start, big, pad);
            &&& all.subrange(10 + 12 * i, 14 + 12 * i) == word_bytes(o as u64, 4, big)
            &&& all.subrange(o - start, o - start + chain_size(c, pad)) == chain_bytes(c, o, big, pad)
        }),
{
    let es = d.entries@;
    let c = *es[i].data->Child_0;
    lemma_entries_wf_index(es, i);
    lemma_payload_at(d, start, i, big, pad);
    let all = chain_bytes(d, start, big, pad);
    let ab = start + fixed_size(d) + blocks_size(es, pad);
    lemma_child_at(es, ab, i, big, pad);
    lemma_chain_split(d, start, big, pad);
    let head = fixed_bytes(d, start, big, pad) + blocks_bytes(es, big, pad);
    let cb = children_bytes(es, ab, big, pad);
    let a = children_size(es.take(i), pad) as int;
    lemma_take_step(es, i);
    lemma_prefix_le(es, i + 1, pad);
    let z = chain_size(c, pad) as int;
    assert(entry_tree_size(es[i], pad) == z);
    assert(a + z <= cb.len());
    assert(all.subrange(head.len() + a, head.len() + a + z) =~= cb.subrange(a, a + z));
}

proof fn lemma_no_blocks(es: Seq<Entry>, pad: bool)
    requires
        forall|k: int| 0 <= k < es.len() ==> block_size(#[trigger] es[k], pad) == 0,
    ensures
        blocks_size(es, pad) == 0,
    decreases es.len(),
{
    if es.len() > 0 {
        let p = es.drop_last();
        assert forall|k: int| 0 <= k < p.len() implies block_size(#[trigger] p[k], pad) == 0 by {
            assert(p[k] == es[k]);
        }
        lemma_no_blocks(p, pad);
    }
}

/// When no entry before entry `i` needs an overflow block, the block of
/// entry `i` starts right after the directory's fixed block.
pub proof fn lemma_first_overflow_after_fixed(d: Directory, start: nat, i: int, pad: bool)
    requires
        0 <= i <= d.entries@.len(),
        forall|k: int| 0 <= k < i ==> block_size(#[trigger] d.entries@[k], pad) == 0,
    ensures
        overflow_offset(d, start, i, pad) == start + fixed_size(d),
{
    let t = d.entries@.take(i);
    assert forall|k: int| 0 <= k < t.len() implies block_size(#[trigger] t[k], pad) == 0 by {
        assert(t[k] == d.entries@[k]);
    }
    lemma_no_blocks(t, pad);
}

/// Nested directories follow all of their parent's overflow blocks, back to
/// back in entry order: the first starts right after the last block, and
/// each next one right after the subtree under the entry before it.
pub proof fn lemma_children_follow_blocks(d: Directory, start: nat, pad: bool)
    ensures
        child_offset(d, start, 0, pad) == start + fixed_size(d) + blocks_size(d.entries@, pad),
        forall|i: int|
            0 <= i < d.entries@.len() ==> #[trigger] child_offset(d, start, i + 1, pad)
                == child_offset(d, start, i, pad) + entry_tree_size(d.entries@[i], pad),
        child_offset(d, start, d.entries@.len() as int, pad) == next_offset(d, start, pad),
{
    let es = d.entries@;
    assert(es.take(0) =~= Seq::<Entry>::empty());
    lemma_take_all(es);
    assert forall|i: int| 0 <= i < es.len() implies #[trigger] child_offset(d, start, i + 1, pad)
        == child_offset(d, start, i, pad) + entry_tree_size(es[i], pad) by {
        lemma_take_step(es, i);
    }
}

} // verus!

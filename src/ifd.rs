//! Directories of tagged fields, linked into chains and trees.
use vstd::prelude::*;

use crate::values::{TiffTypeValues, ValidationError};

verus! {

broadcast use vstd::std_specs::vec::group_vec_axioms, vstd::seq::group_seq_axioms;

/// Type code of a field that points at a nested directory.
pub const IFD_TYPE_ID: u16 = 13;

/// Largest number of entries a directory's 16-bit count can record.
pub const MAX_ENTRIES: usize = 65535;

/// What one field holds.
pub enum FieldData {
    /// Literal values, stored inline or in an overflow block by their size.
    Values(TiffTypeValues),
    /// A nested directory; the payload becomes the offset at which it starts.
    Child(Box<Directory>),
}

/// One tagged field of a directory.
pub struct Entry {
    pub tag: u16,
    pub data: FieldData,
}

/// A tag-ordered record of fields, with an optional next directory in its
/// chain.
pub struct Directory {
    pub entries: Vec<Entry>,
    pub next: Option<Box<Directory>>,
}

/// Tags strictly increase along `es`.
pub open spec fn tags_increasing(es: Seq<Entry>) -> bool {
    forall|i: int, j: int| 0 <= i < j < es.len() ==> es[i].tag < es[j].tag
}

/// Whether some entry of `es` carries `tag`.
pub open spec fn has_tag(es: Seq<Entry>, tag: u16) -> bool {
    exists|i: int| 0 <= i < es.len() && es[i].tag == tag
}

pub open spec fn dir_wf(d: Directory) -> bool
    decreases d, 2nat,
{
    &&& tags_increasing(d.entries@)
    &&& d.entries@.len() <= MAX_ENTRIES
    &&& entries_wf(d.entries@)
    &&& match d.next {
        Some(nx) => dir_wf(*nx),
        None => true,
    }
}

pub open spec fn entries_wf(es: Seq<Entry>) -> bool
    decreases es, 1nat,
{
    if es.len() == 0 {
        true
    } else {
        entries_wf(es.drop_last()) && entry_wf(es.last())
    }
}

pub open spec fn entry_wf(e: Entry) -> bool
    decreases e, 0nat,
{
    match e.data {
        FieldData::Values(v) => v.wf(),
        FieldData::Child(c) => dir_wf(*c),
    }
}

pub proof fn lemma_entries_wf_index(es: Seq<Entry>, i: int)
    requires
        entries_wf(es),
        0 <= i < es.len(),
    ensures
        entry_wf(es[i]),
    decreases es.len(),
{
    if i < es.len() - 1 {
        lemma_entries_wf_index(es.drop_last(), i);
    }
}

pub proof fn lemma_entries_wf_all(es: Seq<Entry>)
    requires
        forall|i: int| 0 <= i < es.len() ==> entry_wf(#[trigger] es[i]),
    ensures
        entries_wf(es),
    decreases es.len(),
{
    if es.len() > 0 {
        let p = es.drop_last();
        assert forall|i: int| 0 <= i < p.len() implies entry_wf(#[trigger] p[i]) by {
            assert(p[i] == es[i]);
        }
        lemma_entries_wf_all(p);
    }
}

/// Every value set in a well-formed directory holds at least one value, so
/// an empty one can never be laid out.
pub proof fn lemma_no_empty_values(d: Directory)
    requires
        dir_wf(d),
    ensures
        forall|i: int|
            #![trigger d.entries@[i]]
            0 <= i < d.entries@.len() && d.entries@[i].data is Values ==> d.entries@[i].data->Values_0.spec_count()
                >= 1,
{
    assert forall|i: int|
        #![trigger d.entries@[i]]
        0 <= i < d.entries@.len() && d.entries@[i].data is Values implies d.entries@[i].data->Values_0.spec_count()
        >= 1 by {
        lemma_entries_wf_index(d.entries@, i);
        let v = d.entries@[i].data->Values_0;
        let n = v.words().len();
        let p = v.per_value();
        assert(n / p >= 1) by (nonlinear_arith)
            requires n >= 1, n % p == 0, p == 1 || p == 2;
    }
}

impl Directory {
    pub open spec fn wf(&self) -> bool {
        dir_wf(*self)
    }

    /// Whether the directory, everything nested under it and the rest of
    /// its chain are well formed; always so when built by this type's methods.
    pub fn is_valid(&self) -> (r: bool)
        ensures
            r == self.wf(),
        decreases self,
    {
        let es = &self.entries;
        let ghost s = es@;
        let n = es.len();
        if n > MAX_ENTRIES {
            return false;
        }
        let mut i: usize = 0;
        while i < n
            invariant
                s == es@,
                s == self.entries@,
                n == s.len(),
                i <= n,
                forall|k: int| 0 <= k < i ==> entry_wf(#[trigger] s[k]),
                forall|a: int, b: int| 0 <= a < b < i ==> s[a].tag < s[b].tag,
            decreases n - i,
        {
            let ok = match &es[i].data {
                FieldData::Values(v) => v.is_valid(),
                FieldData::Child(c) => {
                    proof {
                        assert(decreases_to!(self.entries => self.entries[i as int]));
                    }
                    c.is_valid()
                },
            };
            if !ok {
                proof {
                    if entries_wf(s) {
                        lemma_entries_wf_index(s, i as int);
                    }
                }
                return false;
            }
            if i > 0 && es[i - 1].tag >= es[i].tag {
                return false;
            }
            i += 1;
        }
        proof {
            lemma_entries_wf_all(s);
        }
        match &self.next {
            Some(nx) => nx.is_valid(),
            None => true,
        }
    }

    /// A directory with no entries and no next directory.
    pub fn new() -> (r: Directory)
        ensures
            r.wf(),
            r.entries@.len() == 0,
            r.next is None,
    {
        let r = Directory { entries: Vec::new(), next: None };
        proof {
            assert(entries_wf(r.entries@));
        }
        r
    }

    /// Inserts `e` at its place by tag; fails if the tag is taken or the
    /// directory is full, leaving it unchanged.
    fn insert_entry(&mut self, e: Entry) -> (r: Result<(), ValidationError>)
        requires
            old(self).wf(),
            entry_wf(e),
        ensures
            r == Err::<(), ValidationError>(ValidationError::DuplicateTag) <==> has_tag(
                old(self).entries@,
                e.tag,
            ),
            r == Err::<(), ValidationError>(ValidationError::TooLarge) <==> !has_tag(
                old(self).entries@,
                e.tag,
            ) && old(self).entries@.len() == MAX_ENTRIES,
            r is Ok <==> !has_tag(old(self).entries@, e.tag) && old(self).entries@.len()
                < MAX_ENTRIES,
            r is Err ==> *final(self) == *old(self),
            r is Ok ==> has_tag(final(self).entries@, e.tag),
            r is Ok ==> exists|i: int|
                0 <= i <= old(self).entries@.len() && final(self).entries@ == old(
                    self,
                ).entries@.insert(i, e),
            final(self).wf(),
            final(self).next == old(self).next,
    {
        let n = self.entries.len();
        let mut i: usize = 0;
        while i < n && self.entries[i].tag < e.tag
            invariant
                n == self.entries@.len(),
                i <= n,
                *self == *old(self),
                self.wf(),
                forall|k: int| 0 <= k < i ==> self.entries@[k].tag < e.tag,
            decreases n - i,
        {
            i += 1;
        }
        if i < n && self.entries[i].tag == e.tag {
            return Err(ValidationError::DuplicateTag);
        }
        proof {
            if i < n {
                assert forall|k: int| i <= k < n implies self.entries@[k].tag > e.tag by {
                    assert(self.entries@[i as int].tag <= self.entries@[k].tag);
                }
            }
            assert(!has_tag(self.entries@, e.tag)) by {
                if has_tag(self.entries@, e.tag) {
                    let k = choose|k: int| 0 <= k < n && self.entries@[k].tag == e.tag;
                    assert(self.entries@[k].tag != e.tag);
                }
            }
        }
        if n == MAX_ENTRIES {
            return Err(ValidationError::TooLarge);
        }
        let ghost before = self.entries@;
        let ghost et = e.tag;
        proof {
            assert forall|k: int| 0 <= k < before.len() implies entry_wf(#[trigger] before[k]) by {
                lemma_entries_wf_index(before, k);
            }
        }
        self.entries.insert(i, e);
        proof {
            let after = self.entries@;
            assert(after == before.insert(i as int, e));
            assert forall|k: int| 0 <= k < after.len() implies entry_wf(#[trigger] after[k]) by {
                if k < i {
                    assert(after[k] == before[k]);
                } else if k > i {
                    assert(after[k] == before[k - 1]);
                }
            }
            lemma_entries_wf_all(after);
            assert(after[i as int].tag == et);
            assert forall|a: int, b: int| 0 <= a < b < after.len() implies after[a].tag
                < after[b].tag by {
                if b < i {
                } else if b == i {
                } else if a < i {
                    assert(after[b] == before[b - 1]);
                } else if a == i {
                    assert(after[b] == before[b - 1]);
                } else {
                    assert(after[a] == before[a - 1]);
                    assert(after[b] == before[b - 1]);
                }
            }
        }
        Ok(())
    }

    /// Adds a field of literal values under `tag`.
    pub fn add_entry(&mut self, tag: u16, values: TiffTypeValues) -> (r: Result<(), ValidationError>)
        requires
            old(self).wf(),
            values.wf(),
        ensures
            r == Err::<(), ValidationError>(ValidationError::DuplicateTag) <==> has_tag(
                old(self).entries@,
                tag,
            ),
            r == Err::<(), ValidationError>(ValidationError::TooLarge) <==> !has_tag(
                old(self).entries@,
                tag,
            ) && old(self).entries@.len() == MAX_ENTRIES,
            r is Ok <==> !has_tag(old(self).entries@, tag) && old(self).entries@.len()
                < MAX_ENTRIES,
            r is Err ==> *final(self) == *old(self),
            r is Ok ==> has_tag(final(self).entries@, tag),
            r is Ok ==> exists|i: int|
                0 <= i <= old(self).entries@.len() && final(self).entries@ == old(
                    self,
                ).entries@.insert(i, Entry { tag, data: FieldData::Values(values) }),
            final(self).wf(),
            final(self).next == old(self).next,
    {
        self.insert_entry(Entry { tag, data: FieldData::Values(values) })
    }

    /// Adds a field under `tag` that points at the nested directory `child`.
    pub fn add_child(&mut self, tag: u16, child: Directory) -> (r: Result<(), ValidationError>)
        requires
            old(self).wf(),
            child.wf(),
        ensures
            r == Err::<(), ValidationError>(ValidationError::DuplicateTag) <==> has_tag(
                old(self).entries@,
                tag,
            ),
            r == Err::<(), ValidationError>(ValidationError::TooLarge) <==> !has_tag(
                old(self).entries@,
                tag,
            ) && old(self).entries@.len() == MAX_ENTRIES,
            r is Ok <==> !has_tag(old(self).entries@, tag) && old(self).entries@.len()
                < MAX_ENTRIES,
            r is Err ==> *final(self) == *old(self),
            r is Ok ==> has_tag(final(self).entries@, tag),
            r is Ok ==> exists|i: int|
                0 <= i <= old(self).entries@.len() && final(self).entries@ == old(
                    self,
                ).entries@.insert(i, Entry { tag, data: FieldData::Child(Box::new(child)) }),
            final(self).wf(),
            final(self).next == old(self).next,
    {
        self.insert_entry(Entry { tag, data: FieldData::Child(Box::new(child)) })
    }

    /// Makes `next` the directory that follows this one in its chain.
    pub fn set_next(&mut self, next: Directory)
        requires
            old(self).wf(),
            next.wf(),
        ensures
            final(self).wf(),
            final(self).entries == old(self).entries,
            final(self).next == Some(Box::new(next)),
    {
        self.next = Some(Box::new(next));
    }
}

} // verus!

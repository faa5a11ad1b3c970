//! The code dictionary: fixed-size records parsed from the dictionary
//! section of the file, collected into a lookup table from raw pattern value
//! to the records that share it.

use crate::wire::{read_i32_le, read_u64_le, spec_i32_le, spec_u64_le};
use std::collections::HashMap;
use vstd::prelude::*;

verus! {

broadcast use vstd::std_specs::hash::group_hash_axioms;

/// On-disk size in bytes of one dictionary record: an eight-byte pattern, a
/// four-byte length and a one-byte symbol.
pub const ENTRY_SIZE: usize = 13;

/// One dictionary record: the `length` least-significant bits of `pattern`
/// form a code that decodes to `symbol`.
#[derive(Clone, Copy, PartialEq, Eq, Structural, Debug)]
pub struct CodeEntry {
    pub pattern: u64,
    pub length: i32,
    pub symbol: u8,
}

/// The record stored in the `ENTRY_SIZE` bytes at `off`.
pub open spec fn spec_parse_entry(s: Seq<u8>, off: int) -> CodeEntry {
    CodeEntry {
        pattern: spec_u64_le(s, off) as u64,
        length: spec_i32_le(s, off + 8) as i32,
        symbol: s[off + 12],
    }
}

/// Number of records the loader can fully read out of `len` bytes: at most
/// `entry_count`, and no more than fit between `start` and the end.
pub open spec fn spec_num_records_of(len: int, start: int, entry_count: int) -> int {
    let avail = (len - start) / (ENTRY_SIZE as int);
    if entry_count <= avail {
        entry_count
    } else {
        avail
    }
}

/// Number of records the loader can fully read from `s`.
pub open spec fn spec_num_records(s: Seq<u8>, start: int, entry_count: int) -> int {
    spec_num_records_of(s.len() as int, start, entry_count)
}

/// The consecutive records at `start`, truncated where the data ends.
pub open spec fn spec_records(s: Seq<u8>, start: int, entry_count: int) -> Seq<CodeEntry> {
    Seq::new(
        spec_num_records(s, start, entry_count) as nat,
        |i: int| spec_parse_entry(s, start + ENTRY_SIZE * i),
    )
}

/// Appending a record to the table: the bucket keyed by its raw pattern
/// grows by one, in encounter order.
pub open spec fn spec_table_insert(m: Map<u64, Seq<CodeEntry>>, e: CodeEntry) -> Map<
    u64,
    Seq<CodeEntry>,
> {
    if m.contains_key(e.pattern) {
        m.insert(e.pattern, m[e.pattern].push(e))
    } else {
        m.insert(e.pattern, seq![e])
    }
}

/// The table holding exactly the records of `entries`, inserted in order.
pub open spec fn table_model(entries: Seq<CodeEntry>) -> Map<u64, Seq<CodeEntry>>
    decreases entries.len(),
{
    if entries.len() == 0 {
        Map::empty()
    } else {
        spec_table_insert(table_model(entries.drop_last()), entries.last())
    }
}

/// Every record sits in the bucket keyed by its own pattern.
pub open spec fn buckets_wf(m: Map<u64, Seq<CodeEntry>>) -> bool {
    forall|k: u64, i: int|
        m.contains_key(k) && 0 <= i < m[k].len() ==> (#[trigger] m[k][i]).pattern == k
}

/// A table built by inserting records in order keys every record by its own
/// pattern.
pub proof fn lemma_table_model_wf(entries: Seq<CodeEntry>)
    ensures
        buckets_wf(table_model(entries)),
    decreases entries.len(),
{
    if entries.len() > 0 {
        lemma_table_model_wf(entries.drop_last());
        let m0 = table_model(entries.drop_last());
        let e = entries.last();
        let m1 = spec_table_insert(m0, e);
        assert forall|k: u64, i: int|
            m1.contains_key(k) && 0 <= i < m1[k].len() implies (#[trigger] m1[k][i]).pattern
            == k by {
            if k == e.pattern {
                if m0.contains_key(k) {
                    if i < m0[k].len() {
                        assert(m0[k][i].pattern == k);
                    }
                } else {
                    assert(m1[k] == seq![e]);
                }
            } else {
                assert(m1[k] == m0[k]);
                assert(m0[k][i].pattern == k);
            }
        }
    }
}

/// The symbol of the first record with code length `len`, in encounter
/// order.
pub open spec fn first_with_len(entries: Seq<CodeEntry>, len: nat) -> Option<u8>
    decreases entries.len(),
{
    if entries.len() == 0 {
        None
    } else if entries[0].length == len {
        Some(entries[0].symbol)
    } else {
        first_with_len(entries.drop_first(), len)
    }
}

/// A table lookup: the first record in the bucket for `bits` whose code
/// length equals `len`, if any.
pub open spec fn spec_lookup(m: Map<u64, Seq<CodeEntry>>, bits: u64, len: nat) -> Option<u8> {
    if m.contains_key(bits) {
        first_with_len(m[bits], len)
    } else {
        None
    }
}

/// Reads the record at `off`, field by field at its fixed byte offsets.
pub fn parse_entry(data: &Vec<u8>, off: usize) -> (e: CodeEntry)
    requires
        off + ENTRY_SIZE <= data.len(),
    ensures
        e == spec_parse_entry(data@, off as int),
{
    let pattern: u64 = read_u64_le(data, off);
    let length: i32 = read_i32_le(data, off + 8);
    let symbol: u8 = data[off + 12];
    CodeEntry { pattern, length, symbol }
}

/// The lookup table from raw pattern value to the records sharing it, with
/// the number of records it holds.
pub struct CodeTable {
    pub map: HashMap<u64, Vec<CodeEntry>>,
    pub count: usize,
}

impl View for CodeTable {
    type V = Map<u64, Seq<CodeEntry>>;

    open spec fn view(&self) -> Map<u64, Seq<CodeEntry>> {
        Map::new(|k: u64| self.map@.contains_key(k), |k: u64| self.map@[k]@)
    }
}

impl CodeTable {
    /// An empty table.
    pub fn new() -> (t: CodeTable)
        ensures
            t@ == Map::<u64, Seq<CodeEntry>>::empty(),
            t.count == 0,
    {
        let t = CodeTable { map: HashMap::new(), count: 0 };
        proof {
            assert(t@ =~= Map::<u64, Seq<CodeEntry>>::empty());
        }
        t
    }

    /// Appends `e` to the bucket for `e.pattern`, creating the bucket on
    /// first use.
    pub fn push_entry(&mut self, e: CodeEntry)
        requires
            old(self).count < usize::MAX,
        ensures
            final(self)@ == spec_table_insert(old(self)@, e),
            final(self).count == old(self).count + 1,
    {
        let pattern = e.pattern;
        let mut bucket: Vec<CodeEntry> = match self.map.remove(&pattern) {
            Some(b) => b,
            None => Vec::new(),
        };
        bucket.push(e);
        self.map.insert(pattern, bucket);
        self.count = self.count + 1;
        proof {
            assert(self@ =~= spec_table_insert(old(self)@, e));
        }
    }

    /// Looks up the accumulated pattern: the symbol of the first record in
    /// the bucket for `bits` whose code length equals `len`.
    pub fn lookup(&self, bits: u64, len: u64) -> (r: Option<u8>)
        ensures
            r == spec_lookup(self@, bits, len as nat),
    {
        match self.map.get(&bits) {
            None => None,
            Some(bucket) => {
                let ghost all = bucket@;
                proof {
                    assert(self.map@.contains_key(bits));
                    assert(self@[bits] == all);
                    assert(all.skip(0) =~= all);
                }
                let mut j: usize = 0;
                while j < bucket.len()
                    invariant
                        0 <= j <= bucket.len(),
                        bucket@ == all,
                        spec_lookup(self@, bits, len as nat) == first_with_len(
                            all.skip(j as int),
                            len as nat,
                        ),
                    decreases bucket.len() - j,
                {
                    let e = bucket[j];
                    proof {
                        assert(all.skip(j as int)[0] == all[j as int]);
                        assert(all.skip(j as int).drop_first() =~= all.skip(j as int + 1));
                    }
                    if e.length >= 0 && (e.length as u64) == len {
                        return Some(e.symbol);
                    }
                    j = j + 1;
                }
                proof {
                    assert(all.skip(bucket@.len() as int) =~= Seq::<CodeEntry>::empty());
                }
                None
            },
        }
    }
}

/// Parses up to `entry_count` records from `data` starting at `start` and
/// builds the lookup table, as the dictionary loader does.  Stops early,
/// keeping the records read so far, when fewer than `ENTRY_SIZE` bytes
/// remain.
pub fn load(data: &Vec<u8>, start: usize, entry_count: u64) -> (t: CodeTable)
    requires
        start <= data.len(),
    ensures
        t@ == table_model(spec_records(data@, start as int, entry_count as int)),
        t.count == spec_records(data@, start as int, entry_count as int).len(),
        buckets_wf(t@),
{
    let ghost records = spec_records(data@, start as int, entry_count as int);
    let mut t = CodeTable::new();
    let mut i: u64 = 0;
    let mut off: usize = start;
    proof {
        assert(records.take(0) =~= Seq::<CodeEntry>::empty());
    }
    while i < entry_count
        invariant
            start <= data.len(),
            off <= data.len(),
            i <= entry_count,
            off as int == start + ENTRY_SIZE * (i as int),
            i as int <= spec_num_records(data@, start as int, entry_count as int),
            records == spec_records(data@, start as int, entry_count as int),
            t@ == table_model(records.take(i as int)),
            t.count == i,
        decreases entry_count - i,
    {
        if data.len() - off < ENTRY_SIZE {
            proof {
                lemma_loader_stops(data@.len() as int, start as int, off as int, i as int,
                    entry_count as int);
                assert(records.take(i as int) =~= records);
                lemma_table_model_wf(records);
            }
            return t;
        }
        let e = parse_entry(data, off);
        proof {
            lemma_count_fits(data@.len() as int, start as int, off as int, i as int,
                entry_count as int);
        }
        t.push_entry(e);
        proof {
            assert(records.take(i as int + 1).drop_last() =~= records.take(i as int));
            assert(records.take(i as int + 1).last() == records[i as int]);
        }
        off = off + ENTRY_SIZE;
        i = i + 1;
    }
    proof {
        assert(records.take(i as int) =~= records);
        lemma_table_model_wf(records);
    }
    t
}

/// When fewer than `ENTRY_SIZE` bytes remain after `i` full records, `i` is
/// exactly the number of loadable records.
proof fn lemma_loader_stops(len: int, start: int, off: int, i: int, entry_count: int)
    requires
        0 <= start <= len,
        off == start + ENTRY_SIZE * i,
        0 <= i <= entry_count,
        off <= len,
        len - off < ENTRY_SIZE,
    ensures
        i == spec_num_records_of(len, start, entry_count),
{
    let rest = len - off;
    assert((ENTRY_SIZE * i + rest) / (ENTRY_SIZE as int) == i) by (nonlinear_arith)
        requires
            0 <= rest < ENTRY_SIZE,
            0 <= i,
    ;
}

/// A record count never exceeds what the data could hold, so it fits in
/// `usize`.
proof fn lemma_count_fits(len: int, start: int, off: int, i: int, entry_count: int)
    requires
        0 <= start <= len <= usize::MAX,
        off == start + ENTRY_SIZE * i,
        0 <= i,
        off + ENTRY_SIZE <= len,
    ensures
        i < usize::MAX,
        i + 1 <= (len - start) / (ENTRY_SIZE as int),
{
    assert(ENTRY_SIZE * (i + 1) <= len - start) by (nonlinear_arith)
        requires
            off == start + ENTRY_SIZE * i,
            off + ENTRY_SIZE <= len,
    ;
    assert(i + 1 <= (len - start) / (ENTRY_SIZE as int)) by (nonlinear_arith)
        requires
            ENTRY_SIZE * (i + 1) <= len - start,
            0 <= i,
    ;
}

} // verus!

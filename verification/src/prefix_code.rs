//! Prefix-free codes and the round-trip law: a stream produced by
//! concatenating dictionary codes decodes back to exactly the encoded
//! symbols, trailing padding never examined.

use crate::bits::{
    bits_of_nat, bits_value, lemma_bits_of_nat_len, lemma_bits_of_nat_value,
    lemma_bits_value_bound, lemma_bits_value_injective, lemma_bits_value_push, lemma_push_bit,
    push_bit,
};
use crate::decoder::{spec_decode, spec_run};
use crate::table::{buckets_wf, first_with_len, spec_lookup, table_model, CodeEntry};
use vstd::arithmetic::power2::{
    lemma2_to64, lemma2_to64_rest, lemma_pow2_strictly_increases, pow2,
};
use vstd::prelude::*;

verus! {

/// A record that describes a real code: one to 64 significant bits, and no
/// pattern bits beyond them.
pub open spec fn entry_wf(e: CodeEntry) -> bool {
    &&& 1 <= e.length <= 64
    &&& (e.pattern as nat) < pow2(e.length as nat)
}

/// The bit sequence of a record's code, most significant bit first.
pub open spec fn code_bits(e: CodeEntry) -> Seq<bool> {
    bits_of_nat(e.length as nat, e.pattern as nat)
}

/// The record is held by the bucket its pattern keys.
pub open spec fn entry_in_table(m: Map<u64, Seq<CodeEntry>>, e: CodeEntry) -> bool {
    m.contains_key(e.pattern) && m[e.pattern].contains(e)
}

/// `s1` is a strict prefix of `s2`.
pub open spec fn is_strict_prefix(s1: Seq<bool>, s2: Seq<bool>) -> bool {
    s1.len() < s2.len() && s1 == s2.take(s1.len() as int)
}

/// The prefix-free property of a table: among its well-formed records, no
/// code is a strict prefix of another, and records with the same code carry
/// the same symbol.
pub open spec fn prefix_free(m: Map<u64, Seq<CodeEntry>>) -> bool {
    forall|e1: CodeEntry, e2: CodeEntry|
        #[trigger] entry_in_table(m, e1) && #[trigger] entry_in_table(m, e2) && entry_wf(e1)
            && entry_wf(e2) ==> !is_strict_prefix(code_bits(e1), code_bits(e2)) && (code_bits(e1)
            == code_bits(e2) ==> e1.symbol == e2.symbol)
}

/// The bitstream an encoder writes for `codes`: their codes, concatenated.
pub open spec fn encode_bits(codes: Seq<CodeEntry>) -> Seq<bool>
    decreases codes.len(),
{
    if codes.len() == 0 {
        Seq::empty()
    } else {
        code_bits(codes[0]) + encode_bits(codes.drop_first())
    }
}

/// The symbols the records of `codes` stand for.
pub open spec fn symbols_of(codes: Seq<CodeEntry>) -> Seq<u8> {
    codes.map_values(|e: CodeEntry| e.symbol)
}

/// `first_with_len` finds a record of the asked length exactly when the
/// bucket holds one.
proof fn lemma_first_with_len_mem(entries: Seq<CodeEntry>, len: nat)
    ensures
        match first_with_len(entries, len) {
            Some(sym) => exists|i: int|
                0 <= i < entries.len() && (#[trigger] entries[i]).length == len
                    && entries[i].symbol == sym,
            None => forall|i: int|
                0 <= i < entries.len() ==> (#[trigger] entries[i]).length != len,
        },
    decreases entries.len(),
{
    if entries.len() == 0 {
    } else if entries[0].length == len {
    } else {
        lemma_first_with_len_mem(entries.drop_first(), len);
        match first_with_len(entries, len) {
            Some(sym) => {
                let i = choose|i: int|
                    0 <= i < entries.drop_first().len() && (#[trigger] entries.drop_first()[i]).length
                        == len && entries.drop_first()[i].symbol == sym;
                assert(entries[i + 1] == entries.drop_first()[i]);
            },
            None => {
                assert forall|i: int| 0 <= i < entries.len() implies (#[trigger] entries[i]).length
                    != len by {
                    if i > 0 {
                        assert(entries.drop_first()[i - 1] == entries[i]);
                    }
                }
            },
        }
    }
}

/// Bit counts that occur while a code is still incomplete keep the
/// accumulator below 63 bits, so its value is exact.
proof fn lemma_small_value_fits(v: nat, j: nat)
    requires
        v < pow2(j),
        j <= 63,
    ensures
        v < 0x8000_0000_0000_0000,
{
    if j < 63 {
        lemma_pow2_strictly_increases(j, 63);
    }
    lemma2_to64_rest();
}

/// While a well-formed table record's code is only partly consumed, the
/// accumulator matches no record: a match would be a strict prefix of the
/// record's code, which `prefix_free` rules out.
proof fn lemma_no_match_on_proper_prefix(m: Map<u64, Seq<CodeEntry>>, e: CodeEntry, j: int)
    requires
        buckets_wf(m),
        prefix_free(m),
        entry_in_table(m, e),
        entry_wf(e),
        1 <= j < code_bits(e).len(),
    ensures
        spec_lookup(m, bits_value(code_bits(e).take(j)) as u64, j as nat) == None::<u8>,
{
    let c = code_bits(e);
    lemma_bits_of_nat_len(e.length as nat, e.pattern as nat);
    let p = c.take(j);
    lemma_bits_value_bound(p);
    let v = bits_value(p);
    lemma_small_value_fits(v, j as nat);
    let v64 = v as u64;
    if m.contains_key(v64) {
        lemma_first_with_len_mem(m[v64], j as nat);
        match first_with_len(m[v64], j as nat) {
            Some(sym) => {
                let i = choose|i: int|
                    0 <= i < m[v64].len() && (#[trigger] m[v64][i]).length == j as nat
                        && m[v64][i].symbol == sym;
                let e2 = m[v64][i];
                assert(e2.pattern == v64);
                assert(m[v64].contains(e2));
                assert(entry_in_table(m, e2));
                assert(entry_wf(e2));
                lemma_bits_of_nat_len(e2.length as nat, e2.pattern as nat);
                lemma_bits_of_nat_value(e2.length as nat, e2.pattern as nat);
                lemma_bits_value_injective(code_bits(e2), p);
                assert(is_strict_prefix(code_bits(e2), c));
                assert(false);
            },
            None => {},
        }
    }
}

/// Once a well-formed table record's code is fully consumed, the lookup
/// yields its symbol: the bucket holds a record of that length, and by
/// `prefix_free` every such record carries the same symbol.
proof fn lemma_match_at_end(m: Map<u64, Seq<CodeEntry>>, e: CodeEntry)
    requires
        buckets_wf(m),
        prefix_free(m),
        entry_in_table(m, e),
        entry_wf(e),
    ensures
        spec_lookup(m, e.pattern, e.length as nat) == Some(e.symbol),
{
    let bucket = m[e.pattern];
    let k = choose|k: int| 0 <= k < bucket.len() && bucket[k] == e;
    lemma_first_with_len_mem(bucket, e.length as nat);
    match first_with_len(bucket, e.length as nat) {
        Some(sym) => {
            let i = choose|i: int|
                0 <= i < bucket.len() && (#[trigger] bucket[i]).length == e.length as nat
                    && bucket[i].symbol == sym;
            let e2 = bucket[i];
            assert(e2.pattern == e.pattern);
            assert(bucket.contains(e2));
            assert(entry_in_table(m, e2));
            assert(entry_wf(e2));
            assert(code_bits(e2) == code_bits(e));
            assert(e2.symbol == e.symbol);
        },
        None => {
            assert(bucket[k].length == e.length as nat);
            assert(false);
        },
    }
}

/// Consuming the rest of a record's code from the matching partial
/// accumulator emits exactly that record's symbol and then continues,
/// reset, into the remaining stream.
proof fn lemma_decode_code_from(
    m: Map<u64, Seq<CodeEntry>>,
    e: CodeEntry,
    j: int,
    rest: Seq<bool>,
    out: Seq<u8>,
    target: nat,
)
    requires
        buckets_wf(m),
        prefix_free(m),
        entry_in_table(m, e),
        entry_wf(e),
        0 <= j < code_bits(e).len(),
        out.len() < target,
    ensures
        spec_run(
            m,
            code_bits(e).skip(j) + rest,
            bits_value(code_bits(e).take(j)) as u64,
            j as nat,
            out,
            target,
        ) == spec_run(m, rest, 0u64, 0nat, out.push(e.symbol), target),
    decreases code_bits(e).len() - j,
{
    let c = code_bits(e);
    lemma_bits_of_nat_len(e.length as nat, e.pattern as nat);
    let s = c.skip(j) + rest;
    assert(s.len() > 0);
    assert(s[0] == c[j]);
    assert(s.drop_first() =~= c.skip(j + 1) + rest);

    let vj = bits_value(c.take(j));
    lemma_bits_value_bound(c.take(j));
    lemma_small_value_fits(vj, j as nat);
    assert(c.take(j + 1) =~= c.take(j).push(c[j]));
    lemma_bits_value_push(c.take(j), c[j]);
    lemma_push_bit(vj as u64, c[j]);
    assert(push_bit(vj as u64, c[j]) == bits_value(c.take(j + 1)));

    if j + 1 == c.len() {
        assert(c.take(j + 1) =~= c);
        lemma_bits_of_nat_value(e.length as nat, e.pattern as nat);
        assert(bits_value(c.take(j + 1)) as u64 == e.pattern);
        lemma_match_at_end(m, e);
        assert(c.skip(j + 1) + rest =~= rest);
    } else {
        lemma_no_match_on_proper_prefix(m, e, j + 1);
        lemma_decode_code_from(m, e, j + 1, rest, out, target);
    }
}

/// The round-trip engine, generalised over output already emitted.
proof fn lemma_round_trip_from(
    m: Map<u64, Seq<CodeEntry>>,
    codes: Seq<CodeEntry>,
    pad: Seq<bool>,
    out: Seq<u8>,
    target: nat,
)
    requires
        buckets_wf(m),
        prefix_free(m),
        forall|i: int|
            0 <= i < codes.len() ==> entry_in_table(m, #[trigger] codes[i]) && entry_wf(codes[i]),
        target == out.len() + codes.len(),
    ensures
        spec_run(m, encode_bits(codes) + pad, 0u64, 0nat, out, target) == (
            0u64,
            0nat,
            out + symbols_of(codes),
        ),
    decreases codes.len(),
{
    if codes.len() == 0 {
        assert(out + symbols_of(codes) =~= out);
    } else {
        let e = codes[0];
        let tail = codes.drop_first();
        assert(encode_bits(codes) + pad =~= code_bits(e) + (encode_bits(tail) + pad));
        assert(code_bits(e).skip(0) =~= code_bits(e));
        assert(code_bits(e).take(0) =~= Seq::<bool>::empty());
        lemma_bits_of_nat_len(e.length as nat, e.pattern as nat);
        lemma_decode_code_from(m, e, 0, encode_bits(tail) + pad, out, target);
        assert forall|i: int| 0 <= i < tail.len() implies entry_in_table(m, #[trigger] tail[i])
            && entry_wf(tail[i]) by {
            assert(tail[i] == codes[i + 1]);
        }
        lemma_round_trip_from(m, tail, pad, out.push(e.symbol), target);
        assert(out.push(e.symbol) + symbols_of(tail) =~= out + symbols_of(codes));
    }
}

/// The round-trip law: decoding a stream built by concatenating the codes
/// of `codes` — all held by the prefix-free table `m` — followed by any
/// padding, with the encoded count as the declared length, reproduces the
/// encoded symbols exactly and leaves the accumulator empty.
pub proof fn lemma_round_trip(
    m: Map<u64, Seq<CodeEntry>>,
    codes: Seq<CodeEntry>,
    pad: Seq<bool>,
)
    requires
        buckets_wf(m),
        prefix_free(m),
        forall|i: int|
            0 <= i < codes.len() ==> entry_in_table(m, #[trigger] codes[i]) && entry_wf(codes[i]),
    ensures
        spec_decode(m, encode_bits(codes) + pad, codes.len() as nat) == symbols_of(codes),
        spec_run(m, encode_bits(codes) + pad, 0u64, 0nat, Seq::empty(), codes.len() as nat).0
            == 0u64,
        spec_run(m, encode_bits(codes) + pad, 0u64, 0nat, Seq::empty(), codes.len() as nat).1
            == 0nat,
{
    lemma_round_trip_from(m, codes, pad, Seq::empty(), codes.len() as nat);
    assert(Seq::<u8>::empty() + symbols_of(codes) =~= symbols_of(codes));
}

/// A declared length of zero decodes to nothing: the run stops before
/// consuming a single bit, whatever the table and the stream hold.
pub proof fn lemma_zero_target(m: Map<u64, Seq<CodeEntry>>, s: Seq<bool>)
    ensures
        spec_decode(m, s, 0) == Seq::<u8>::empty(),
{
}

/// Every record of `entries` is held by the table built from them.
pub proof fn lemma_table_model_complete(entries: Seq<CodeEntry>, i: int)
    requires
        0 <= i < entries.len(),
    ensures
        entry_in_table(table_model(entries), entries[i]),
    decreases entries.len(),
{
    let e = entries[i];
    let m0 = table_model(entries.drop_last());
    let last = entries.last();
    let m1 = table_model(entries);
    if i == entries.len() - 1 {
        if m0.contains_key(e.pattern) {
            assert(m1[e.pattern] == m0[e.pattern].push(e));
            assert(m1[e.pattern][m0[e.pattern].len() as int] == e);
            assert(m1[e.pattern].contains(e));
        } else {
            assert(m1[e.pattern] == seq![e]);
            assert(m1[e.pattern][0] == e);
            assert(m1[e.pattern].contains(e));
        }
    } else {
        lemma_table_model_complete(entries.drop_last(), i);
        assert(entries.drop_last()[i] == e);
        if e.pattern == last.pattern {
            let b0 = m0[e.pattern];
            let jdx = choose|j: int| 0 <= j < b0.len() && b0[j] == e;
            assert(m1[e.pattern] == b0.push(last));
            assert(b0.push(last)[jdx] == e);
            assert(m1[e.pattern].contains(e));
        } else {
            assert(m1[e.pattern] == m0[e.pattern]);
        }
    }
}

} // verus!

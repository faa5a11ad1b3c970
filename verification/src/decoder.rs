//! The bitstream decoder: a cursor accumulates bits until they match a
//! dictionary code, and each match emits one output byte, until the
//! declared output length is reached.

use crate::bits::{byte_bits, lemma_stream_bits_skip, push_bit, stream_bits};
use crate::table::{load, spec_lookup, spec_records, table_model, CodeEntry, CodeTable, ENTRY_SIZE};
use crate::wire::{read_u64_le, spec_u64_le};
use vstd::prelude::*;

verus! {

/// The accumulator for the code currently being matched: the bits consumed
/// since the last emitted symbol, and how many of them are significant.
#[derive(Clone, Copy, PartialEq, Eq, Structural, Debug)]
pub struct DecodeCursor {
    pub bits: u64,
    pub len: u64,
}

/// One run of the decoding state machine over the bits `s`: starting from
/// accumulator `(bits, len)` and output `out`, consume bits until the
/// stream ends or the output holds `target` bytes.  Each consumed bit is
/// shifted into the accumulator; a lookup match emits the symbol and resets
/// the accumulator.  Returns the final accumulator and output.
pub open spec fn spec_run(
    m: Map<u64, Seq<CodeEntry>>,
    s: Seq<bool>,
    bits: u64,
    len: nat,
    out: Seq<u8>,
    target: nat,
) -> (u64, nat, Seq<u8>)
    decreases s.len(),
{
    if out.len() >= target || s.len() == 0 {
        (bits, len, out)
    } else {
        let nbits = push_bit(bits, s[0]);
        let nlen = (len + 1) as nat;
        match spec_lookup(m, nbits, nlen) {
            Some(sym) => spec_run(m, s.drop_first(), 0u64, 0nat, out.push(sym), target),
            None => spec_run(m, s.drop_first(), nbits, nlen, out, target),
        }
    }
}

/// Decoding a bitstream from a fresh cursor and an empty output.
pub open spec fn spec_decode(m: Map<u64, Seq<CodeEntry>>, s: Seq<bool>, target: nat) -> Seq<u8> {
    spec_run(m, s, 0u64, 0nat, Seq::empty(), target).2
}

/// A run only appends to the output, and never grows it past `target`.
pub proof fn lemma_run_len(
    m: Map<u64, Seq<CodeEntry>>,
    s: Seq<bool>,
    bits: u64,
    len: nat,
    out: Seq<u8>,
    target: nat,
)
    ensures
        out.len() <= spec_run(m, s, bits, len, out, target).2.len(),
        out.len() <= target ==> spec_run(m, s, bits, len, out, target).2.len() <= target,
    decreases s.len(),
{
    if out.len() >= target || s.len() == 0 {
    } else {
        let nbits = push_bit(bits, s[0]);
        let nlen = (len + 1) as nat;
        match spec_lookup(m, nbits, nlen) {
            Some(sym) => {
                lemma_run_len(m, s.drop_first(), 0u64, 0nat, out.push(sym), target);
            },
            None => {
                lemma_run_len(m, s.drop_first(), nbits, nlen, out, target);
            },
        }
    }
}

/// Whatever the table and the stream hold, decoding never emits more than
/// `target` bytes.
pub proof fn lemma_decode_len(m: Map<u64, Seq<CodeEntry>>, s: Seq<bool>, target: nat)
    ensures
        spec_decode(m, s, target).len() <= target,
{
    lemma_run_len(m, s, 0u64, 0nat, Seq::empty(), target);
}

/// A run over a concatenated stream is the run over the first part followed
/// by the run over the second, carried on from where the first ended.
pub proof fn lemma_run_append(
    m: Map<u64, Seq<CodeEntry>>,
    s1: Seq<bool>,
    s2: Seq<bool>,
    bits: u64,
    len: nat,
    out: Seq<u8>,
    target: nat,
)
    ensures
        ({
            let r1 = spec_run(m, s1, bits, len, out, target);
            spec_run(m, s1 + s2, bits, len, out, target) == spec_run(
                m,
                s2,
                r1.0,
                r1.1,
                r1.2,
                target,
            )
        }),
    decreases s1.len(),
{
    if out.len() >= target {
        assert(spec_run(m, s1 + s2, bits, len, out, target) == (bits, len, out));
    } else if s1.len() == 0 {
        assert(s1 + s2 =~= s2);
    } else {
        assert((s1 + s2).len() > 0);
        assert((s1 + s2)[0] == s1[0]);
        assert((s1 + s2).drop_first() =~= s1.drop_first() + s2);
        let nbits = push_bit(bits, s1[0]);
        let nlen = (len + 1) as nat;
        match spec_lookup(m, nbits, nlen) {
            Some(sym) => {
                lemma_run_append(m, s1.drop_first(), s2, 0u64, 0nat, out.push(sym), target);
            },
            None => {
                lemma_run_append(m, s1.drop_first(), s2, nbits, nlen, out, target);
            },
        }
    }
}

/// Feeds the eight bits of `byte`, most significant first, through the
/// cursor, appending a symbol to `decoded_bytes` for every code match and
/// stopping the moment the output holds `decoded_file_len` bytes.
pub fn decode_byte(
    byte: u8,
    cbs: &mut DecodeCursor,
    table: &CodeTable,
    decoded_bytes: &mut Vec<u8>,
    decoded_file_len: u64,
)
    requires
        old(cbs).len <= u64::MAX - 8,
    ensures
        ({
            let r = spec_run(
                table@,
                byte_bits(byte),
                old(cbs).bits,
                old(cbs).len as nat,
                old(decoded_bytes)@,
                decoded_file_len as nat,
            );
            &&& final(cbs).bits == r.0
            &&& final(cbs).len == r.1
            &&& final(decoded_bytes)@ == r.2
        }),
        final(cbs).len <= old(cbs).len + 8,
{
    let ghost m = table@;
    let ghost bits8 = byte_bits(byte);
    let ghost len0 = old(cbs).len;
    let ghost goal = spec_run(
        m,
        bits8,
        old(cbs).bits,
        old(cbs).len as nat,
        old(decoded_bytes)@,
        decoded_file_len as nat,
    );
    proof {
        assert(bits8.skip(0) =~= bits8);
    }
    let mut i: usize = 0;
    while i < 8
        invariant
            i <= 8,
            len0 == old(cbs).len,
            len0 <= u64::MAX - 8,
            cbs.len <= len0 + i,
            m == table@,
            bits8 == byte_bits(byte),
            goal == spec_run(
                m,
                bits8,
                old(cbs).bits,
                old(cbs).len as nat,
                old(decoded_bytes)@,
                decoded_file_len as nat,
            ),
            spec_run(
                m,
                bits8.skip(i as int),
                cbs.bits,
                cbs.len as nat,
                decoded_bytes@,
                decoded_file_len as nat,
            ) == goal,
        decreases 8 - i,
    {
        if decoded_bytes.len() as u64 >= decoded_file_len {
            proof {
                assert(spec_run(
                    m,
                    bits8.skip(i as int),
                    cbs.bits,
                    cbs.len as nat,
                    decoded_bytes@,
                    decoded_file_len as nat,
                ) == (cbs.bits, cbs.len as nat, decoded_bytes@));
            }
            return ;
        }
        proof {
            assert(bits8.skip(i as int).len() > 0);
            assert(bits8.skip(i as int)[0] == bits8[i as int]);
            assert(bits8.skip(i as int).drop_first() =~= bits8.skip(i as int + 1));
        }
        let sh: u8 = (7 - i) as u8;
        let b: u8 = (byte >> sh) & 1;
        proof {
            assert((byte >> sh) & 1 <= 1) by (bit_vector);
            assert(bits8[i as int] == ((byte >> ((7 - i as int) as u8)) & 1 == 1));
            assert((b == 1) == bits8[i as int]);
        }
        let ghost pbits = cbs.bits;
        cbs.bits = (cbs.bits << 1u64) | (b as u64);
        cbs.len = cbs.len + 1;
        proof {
            assert(cbs.bits == push_bit(pbits, bits8[i as int]));
        }
        match table.lookup(cbs.bits, cbs.len) {
            Some(sym) => {
                cbs.bits = 0;
                cbs.len = 0;
                decoded_bytes.push(sym);
            },
            None => {},
        }
        i = i + 1;
    }
    proof {
        assert(bits8.skip(8) =~= Seq::<bool>::empty());
    }
}

/// Decodes the packed bitstream `data[start..]` against `table`, from a
/// fresh cursor, emitting at most `decoded_file_len` bytes.  The output
/// falls short of `decoded_file_len` only when the stream ends early.
pub fn decode(data: &Vec<u8>, start: usize, table: &CodeTable, decoded_file_len: u64) -> (out: Vec<
    u8,
>)
    requires
        start <= data.len(),
        8 * data.len() <= u64::MAX - 8,
    ensures
        out@ == spec_decode(
            table@,
            stream_bits(data@.skip(start as int)),
            decoded_file_len as nat,
        ),
        out@.len() <= decoded_file_len,
{
    let ghost m = table@;
    let ghost target = decoded_file_len as nat;
    let ghost goal = spec_run(
        m,
        stream_bits(data@.skip(start as int)),
        0u64,
        0nat,
        Seq::empty(),
        target,
    );
    let mut out: Vec<u8> = Vec::new();
    let mut cbs = DecodeCursor { bits: 0, len: 0 };
    let mut j: usize = start;
    while j < data.len()
        invariant
            start <= j <= data.len(),
            8 * data.len() <= u64::MAX - 8,
            cbs.len <= 8 * (j - start),
            m == table@,
            target == decoded_file_len as nat,
            out@.len() <= target,
            spec_run(
                m,
                stream_bits(data@.skip(j as int)),
                cbs.bits,
                cbs.len as nat,
                out@,
                target,
            ) == goal,
        decreases data.len() - j,
    {
        let b = data[j];
        proof {
            lemma_stream_bits_skip(data@, j as int);
            lemma_run_append(
                m,
                byte_bits(b),
                stream_bits(data@.skip(j as int + 1)),
                cbs.bits,
                cbs.len as nat,
                out@,
                target,
            );
            lemma_run_len(m, byte_bits(b), cbs.bits, cbs.len as nat, out@, target);
        }
        decode_byte(b, &mut cbs, table, &mut out, decoded_file_len);
        j = j + 1;
    }
    proof {
        assert(data@.skip(j as int) =~= Seq::<u8>::empty());
        lemma_run_len(
            m,
            stream_bits(data@.skip(start as int)),
            0u64,
            0nat,
            Seq::empty(),
            target,
        );
    }
    out
}

/// Why decoding an encoded file failed outright.
#[derive(Clone, Copy, PartialEq, Eq, Structural, Debug)]
pub enum DecodeError {
    /// The file ends before the two eight-byte headers.
    TruncatedHeader,
    /// The dictionary section held no complete record.
    EmptyTable,
}

/// Where the packed bitstream begins: right after the headers and the
/// declared dictionary section, clamped to the end of the file.
pub open spec fn spec_bitstream_start(s: Seq<u8>, dict_byte_len: int) -> int {
    if 16 + dict_byte_len <= s.len() {
        16 + dict_byte_len
    } else {
        s.len() as int
    }
}

/// The dictionary records declared by the headers of `s`: as many complete
/// records as the declared section length promises and the file holds.
pub open spec fn spec_file_records(s: Seq<u8>) -> Seq<CodeEntry> {
    spec_records(s, 16, spec_u64_le(s, 8) / (ENTRY_SIZE as int))
}

/// The decoded bytes of a file whose headers are present and whose
/// dictionary is not empty.
pub open spec fn spec_decode_file_ok(s: Seq<u8>) -> Seq<u8> {
    spec_decode(
        table_model(spec_file_records(s)),
        stream_bits(s.skip(spec_bitstream_start(s, spec_u64_le(s, 8)))),
        spec_u64_le(s, 0) as nat,
    )
}

/// Decodes a complete encoded file: the two length headers, the dictionary
/// section, then the packed bitstream.
///
/// Fails with `TruncatedHeader` when the headers are not fully present, and
/// with `EmptyTable` when the dictionary yields no complete record;
/// otherwise the decoded bytes come back, exactly `decoded_file_len` of
/// them unless the bitstream ends early, and never more.
pub fn decode_file(data: &Vec<u8>) -> (r: Result<Vec<u8>, DecodeError>)
    requires
        8 * data.len() <= u64::MAX - 8,
    ensures
        data@.len() < 16 ==> r == Err::<Vec<u8>, DecodeError>(DecodeError::TruncatedHeader),
        data@.len() >= 16 ==> (spec_file_records(data@).len() == 0 <==> r == Err::<
            Vec<u8>,
            DecodeError,
        >(DecodeError::EmptyTable)),
        data@.len() >= 16 && spec_file_records(data@).len() > 0 ==> (r matches Ok(out)
            && out@ == spec_decode_file_ok(data@) && out@.len() <= spec_u64_le(data@, 0)),
{
    if data.len() < 16 {
        return Err(DecodeError::TruncatedHeader);
    }
    let decoded_file_len = read_u64_le(data, 0);
    let dict_byte_len = read_u64_le(data, 8);
    let entry_count = dict_byte_len / (ENTRY_SIZE as u64);
    let table = load(data, 16, entry_count);
    if table.count == 0 {
        return Err(DecodeError::EmptyTable);
    }
    let bs_start: usize = if dict_byte_len >= (data.len() - 16) as u64 {
        data.len()
    } else {
        16 + (dict_byte_len as usize)
    };
    let out = decode(data, bs_start, &table, decoded_file_len);
    Ok(out)
}

} // verus!

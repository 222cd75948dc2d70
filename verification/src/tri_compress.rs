//! Run-length byte codec over fixed-size blocks: 32 input bytes are encoded
//! into at most 32 `(byte, count)` pairs stored in a 64-byte block, and
//! decoding gives every block back.

use vstd::prelude::*;
use vstd::string::StringSliceAdditionalSpecFns;

verus! {

/// Number of bytes in an unencoded block.
pub const BLOCK_LEN: usize = 32;

/// Number of bytes in an encoded block.
pub const ENCODED_LEN: usize = 64;

/// Number of `(byte, count)` pairs an encoded block can carry: one for each
/// byte of a block in which no two neighbours are equal.
pub const MAX_PAIRS: usize = 32;

/// The run-length encoding of `s`: maximal runs of equal bytes, in order, each
/// as the byte and the length of the run.
pub open spec fn runs(s: Seq<u8>) -> Seq<(u8, nat)>
    decreases s.len(),
{
    if s.len() == 0 {
        Seq::empty()
    } else {
        let before = runs(s.drop_last());
        if before.len() > 0 && before.last().0 == s.last() {
            before.drop_last().push((s.last(), before.last().1 + 1))
        } else {
            before.push((s.last(), 1nat))
        }
    }
}

/// The bytes that a sequence of `(byte, count)` pairs stands for.
pub open spec fn expand(pairs: Seq<(u8, nat)>) -> Seq<u8>
    decreases pairs.len(),
{
    if pairs.len() == 0 {
        Seq::empty()
    } else {
        expand(pairs.drop_last()) + Seq::new(pairs.last().1, |i: int| pairs.last().0)
    }
}

/// The encoded block for `data`: the runs of `data`, two bytes each, followed
/// by zeros.
pub open spec fn encoded(data: Seq<u8>) -> Seq<u8> {
    Seq::new(
        ENCODED_LEN as nat,
        |i: int|
            if i / 2 < runs(data).len() {
                if i % 2 == 0 {
                    runs(data)[i / 2].0
                } else {
                    runs(data)[i / 2].1 as u8
                }
            } else {
                0u8
            },
    )
}

/// The runs of the first `i + 1` bytes of `s`, from the runs of the first `i`.
proof fn lemma_runs_step(s: Seq<u8>, i: int)
    requires
        0 <= i < s.len(),
    ensures
        s.take(i + 1).drop_last() == s.take(i),
        s.take(i + 1).last() == s[i],
        runs(s.take(i + 1)) == ({
            let before = runs(s.take(i));
            if before.len() > 0 && before.last().0 == s[i] {
                before.drop_last().push((s[i], before.last().1 + 1))
            } else {
                before.push((s[i], 1nat))
            }
        }),
{
    assert(s.take(i + 1).drop_last() =~= s.take(i));
}

/// A non-empty sequence has at least one run and no more runs than bytes;
/// every run is non-empty and no longer than the sequence.
pub proof fn lemma_runs_bounds(s: Seq<u8>)
    ensures
        runs(s).len() <= s.len(),
        s.len() > 0 ==> runs(s).len() >= 1,
        forall|k: int| 0 <= k < runs(s).len() ==> 1 <= (#[trigger] runs(s)[k]).1 <= s.len(),
    decreases s.len(),
{
    if s.len() > 0 {
        lemma_runs_bounds(s.drop_last());
        lemma_runs_count_sum(s.drop_last());
        lemma_runs_count_sum(s);
    }
}

/// The total of the run lengths.
pub open spec fn total(pairs: Seq<(u8, nat)>) -> nat
    decreases pairs.len(),
{
    if pairs.len() == 0 {
        0
    } else {
        total(pairs.drop_last()) + pairs.last().1
    }
}

/// The run lengths of `s` add up to the length of `s`.
pub proof fn lemma_runs_count_sum(s: Seq<u8>)
    ensures
        total(runs(s)) == s.len(),
    decreases s.len(),
{
    if s.len() > 0 {
        let before = runs(s.drop_last());
        lemma_runs_count_sum(s.drop_last());
        if before.len() > 0 && before.last().0 == s.last() {
            let merged = before.drop_last().push((s.last(), before.last().1 + 1));
            assert(merged.drop_last() =~= before.drop_last());
        } else {
            let grown = before.push((s.last(), 1nat));
            assert(grown.drop_last() =~= before);
        }
    }
}

/// Encodes a block as `(byte, count)` pairs, one per run of equal bytes; the
/// rest of the encoded block is zero. Decoding the result gives the block
/// back.
pub fn compress(data: &[u8; 32]) -> (out: [u8; 64])
    ensures
        out@ == encoded(data@),
        decoded(out@) == data@,
{
    let mut compressed = [0u8;64];
    let mut idx: usize = 0;
    let mut count: u8 = 1;
    let mut last: u8 = data[0];
    let mut i: usize = 1;
    proof {
        lemma_runs_step(data@, 0);
        assert(data@.take(0) =~= Seq::<u8>::empty());
    }
    while i < 32
        invariant
            1 <= i <= 32,
            runs(data@.take(i as int)).len() >= 1,
            runs(data@.take(i as int)).len() <= i,
            idx == 2 * (runs(data@.take(i as int)).len() - 1),
            last == runs(data@.take(i as int)).last().0,
            count == runs(data@.take(i as int)).last().1,
            count <= i,
            forall|j: int|
                0 <= j < 64 ==> #[trigger] compressed@[j] == (if j / 2 < runs(
                    data@.take(i as int),
                ).len() - 1 {
                    if j % 2 == 0 {
                        runs(data@.take(i as int))[j / 2].0
                    } else {
                        runs(data@.take(i as int))[j / 2].1 as u8
                    }
                } else {
                    0u8
                }),
            forall|k: int|
                0 <= k < runs(data@.take(i as int)).len() ==> (#[trigger] runs(
                    data@.take(i as int),
                )[k]).1 <= 32,
        decreases 32 - i,
    {
        let byte = data[i];
        proof {
            lemma_runs_step(data@, i as int);
            lemma_runs_bounds(data@.take(i as int + 1));
        }
        if byte == last && count < 255 && idx < 63 {
            count = count + 1;
        } else {
            if idx < 63 {
                compressed[idx] = last;
                compressed[idx + 1] = count;
                idx += 2;
            }
            last = byte;
            count = 1;
        }
        i += 1;
    }
    proof {
        assert(data@.take(32) =~= data@);
    }
    if idx < 63 {
        compressed[idx] = last;
        compressed[idx + 1] = count;
    }
    proof {
        assert(compressed@ =~= encoded(data@));
        law_round_trip(data@);
    }
    compressed
}

/// The 32 `(byte, count)` pairs that an encoded block holds.
pub open spec fn pairs_of(block: Seq<u8>) -> Seq<(u8, nat)> {
    Seq::new(32, |k: int| (block[2 * k], block[2 * k + 1] as nat))
}

/// `s` cut or zero-padded to the length of a block.
pub open spec fn fit(s: Seq<u8>) -> Seq<u8> {
    Seq::new(
        BLOCK_LEN as nat,
        |i: int|
            if i < s.len() {
                s[i]
            } else {
                0u8
            },
    )
}

/// The block that an encoded block decodes to: its pairs expanded in order,
/// cut after 32 bytes, zero where the pairs give fewer.
pub open spec fn decoded(block: Seq<u8>) -> Seq<u8> {
    fit(expand(pairs_of(block)))
}

/// The expansion of the first `k` pairs is a prefix of the whole expansion.
pub proof fn lemma_expand_prefix(pairs: Seq<(u8, nat)>, k: int)
    requires
        0 <= k <= pairs.len(),
    ensures
        expand(pairs.take(k)).len() <= expand(pairs).len(),
        forall|j: int|
            0 <= j < expand(pairs.take(k)).len() ==> expand(pairs)[j] == #[trigger] expand(
                pairs.take(k),
            )[j],
    decreases pairs.len(),
{
    if k == pairs.len() {
        assert(pairs.take(k) =~= pairs);
    } else {
        assert(pairs.drop_last().take(k) =~= pairs.take(k));
        lemma_expand_prefix(pairs.drop_last(), k);
    }
}

/// Pairs with count zero add nothing: if every pair from `m` on has count
/// zero, the first `m` pairs expand to the same bytes as all of them.
pub proof fn lemma_expand_ignores_empty_tail(pairs: Seq<(u8, nat)>, m: int)
    requires
        0 <= m <= pairs.len(),
        forall|k: int| m <= k < pairs.len() ==> (#[trigger] pairs[k]).1 == 0,
    ensures
        expand(pairs) == expand(pairs.take(m)),
    decreases pairs.len(),
{
    if m == pairs.len() {
        assert(pairs.take(m) =~= pairs);
    } else {
        assert(pairs.drop_last().take(m) =~= pairs.take(m));
        lemma_expand_ignores_empty_tail(pairs.drop_last(), m);
        assert(pairs.last().1 == 0);
        assert(expand(pairs) =~= expand(pairs.drop_last()));
    }
}

/// Expanding the runs of a sequence gives the sequence back.
pub proof fn lemma_expand_runs(s: Seq<u8>)
    ensures
        expand(runs(s)) == s,
    decreases s.len(),
{
    if s.len() > 0 {
        let before = runs(s.drop_last());
        lemma_expand_runs(s.drop_last());
        if before.len() > 0 && before.last().0 == s.last() {
            let merged = before.drop_last().push((s.last(), before.last().1 + 1));
            assert(merged.drop_last() =~= before.drop_last());
            assert(expand(merged) =~= expand(before).push(s.last()));
        } else {
            let grown = before.push((s.last(), 1nat));
            assert(grown.drop_last() =~= before);
            assert(expand(grown) =~= expand(before).push(s.last()));
        }
        assert(s.drop_last().push(s.last()) =~= s);
    } else {
        assert(expand(runs(s)) =~= s);
    }
}

/// Decodes a block of `(byte, count)` pairs: each pair contributes `count`
/// copies of `byte`, until 32 bytes are out; what the pairs leave open is zero.
pub fn decompress(compressed: &[u8; 64]) -> (out: [u8; 32])
    ensures
        out@ == decoded(compressed@),
{
    let mut decompressed = [0u8;32];
    let mut i: usize = 0;
    let mut out_idx: usize = 0;
    let ghost pairs = pairs_of(compressed@);
    proof {
        assert(pairs.take(0) =~= Seq::<(u8, nat)>::empty());
    }
    while i + 1 < 64 && out_idx < 32
        invariant
            i % 2 == 0,
            i <= 64,
            out_idx <= 32,
            pairs == pairs_of(compressed@),
            out_idx < 32 ==> out_idx == expand(pairs.take(i as int / 2)).len(),
            out_idx == 32 ==> expand(pairs.take(i as int / 2)).len() >= 32,
            forall|j: int|
                0 <= j < 32 ==> #[trigger] decompressed@[j] == (if j < out_idx {
                    expand(pairs.take(i as int / 2))[j]
                } else {
                    0u8
                }),
        decreases 64 - i,
    {
        let byte = compressed[i];
        let wanted: usize = compressed[i + 1] as usize;
        let room: usize = 32 - out_idx;
        let count: usize = if wanted < room {
            wanted
        } else {
            room
        };
        let ghost k = i as int / 2;
        let ghost done = expand(pairs.take(k));
        let ghost next = expand(pairs.take(k + 1));
        proof {
            assert(pairs.take(k + 1).drop_last() =~= pairs.take(k));
            assert(pairs.take(k + 1).last() == (byte, wanted as nat));
            assert(next =~= done + Seq::new(wanted as nat, |x: int| byte));
        }
        let mut j: usize = 0;
        while j < count
            invariant
                j <= count,
                out_idx + count <= 32,
                forall|x: int|
                    0 <= x < 32 ==> #[trigger] decompressed@[x] == (if x < out_idx {
                        done[x]
                    } else if x < out_idx + j {
                        byte
                    } else {
                        0u8
                    }),
            decreases count - j,
        {
            decompressed[out_idx + j] = byte;
            j += 1;
        }
        out_idx += count;
        i += 2;
    }
    proof {
        let k = i as int / 2;
        lemma_expand_prefix(pairs, k);
        if out_idx < 32 {
            assert(pairs.take(k) =~= pairs);
        }
        assert(decompressed@ =~= decoded(compressed@));
    }
    decompressed
}

/// Round trip: decoding the encoding of a block gives the block back,
/// whatever the block.
pub proof fn law_round_trip(data: Seq<u8>)
    requires
        data.len() == BLOCK_LEN,
    ensures
        decoded(encoded(data)) == data,
{
    let r = runs(data);
    let p = pairs_of(encoded(data));
    lemma_runs_bounds(data);
    lemma_expand_runs(data);
    let m = r.len() as int;
    assert(p.take(m) =~= r) by {
        assert forall|k: int| 0 <= k < m implies p.take(m)[k] == r[k] by {
            assert((2 * k) / 2 == k && (2 * k) % 2 == 0);
            assert((2 * k + 1) / 2 == k && (2 * k + 1) % 2 == 1);
        }
    }
    assert forall|k: int| m <= k < p.len() implies (#[trigger] p[k]).1 == 0 by {
        assert((2 * k + 1) / 2 == k);
    }
    lemma_expand_ignores_empty_tail(p, m);
    assert(decoded(encoded(data)) =~= data);
}

/// The number of bytes of `s` before its first zero byte; the length of `s`
/// where it holds no zero.
pub open spec fn zero_free_prefix(s: Seq<u8>) -> nat
    decreases s.len(),
{
    if s.len() == 0 || s[0] == 0 {
        0
    } else {
        1 + zero_free_prefix(s.drop_first())
    }
}

/// `zero_free_prefix(s)` is the least index that holds a zero, or the length.
pub proof fn lemma_zero_free_prefix(s: Seq<u8>)
    ensures
        zero_free_prefix(s) <= s.len(),
        forall|j: int| 0 <= j < zero_free_prefix(s) ==> #[trigger] s[j] != 0,
        zero_free_prefix(s) < s.len() ==> s[zero_free_prefix(s) as int] == 0,
    decreases s.len(),
{
    if s.len() > 0 && s[0] != 0 {
        let rest = s.drop_first();
        lemma_zero_free_prefix(rest);
        assert forall|j: int| 0 <= j < zero_free_prefix(s) implies #[trigger] s[j] != 0 by {
            if j > 0 {
                assert(s[j] == rest[j - 1]);
            }
        }
    }
}

/// An index that holds a zero, with none before it, is `zero_free_prefix`; so
/// is the length where no index holds one.
pub proof fn lemma_zero_free_prefix_is(s: Seq<u8>, n: int)
    requires
        0 <= n <= s.len(),
        forall|j: int| 0 <= j < n ==> #[trigger] s[j] != 0,
        n < s.len() ==> s[n] == 0,
    ensures
        zero_free_prefix(s) == n,
{
    lemma_zero_free_prefix(s);
    let z = zero_free_prefix(s) as int;
    if z < n {
        assert(s[z] != 0);
    } else if z > n {
        assert(s[n] != 0);
    }
}

/// The position of the first zero byte of an encoded block, 64 where it has
/// none: the length of the block's pairs as far as a zero does not cut them.
pub fn zero_position(block: &[u8; 64]) -> (n: usize)
    ensures
        n == zero_free_prefix(block@),
        n <= 64,
{
    let mut i: usize = 0;
    while i < 64 && block[i] != 0
        invariant
            i <= 64,
            forall|j: int| 0 <= j < i ==> #[trigger] block@[j] != 0,
        decreases 64 - i,
    {
        i += 1;
    }
    proof {
        lemma_zero_free_prefix_is(block@, i as int);
    }
    i
}

/// The first 32 bytes of a string as a block, zero-padded where the string
/// is shorter.
pub fn block_of(input: &str) -> (data: [u8; 32])
    ensures
        data@ == fit(input.spec_bytes()),
{
    let mut data = [0u8;32];
    let bytes = input.as_bytes();
    let len: usize = if bytes.len() < 32 {
        bytes.len()
    } else {
        32
    };
    let mut i: usize = 0;
    while i < len
        invariant
            i <= len,
            len <= 32,
            len <= bytes@.len(),
            forall|j: int|
                0 <= j < 32 ==> #[trigger] data@[j] == (if j < i {
                    bytes@[j]
                } else {
                    0u8
                }),
        decreases len - i,
    {
        data[i] = bytes[i];
        i += 1;
    }
    assert(data@ =~= fit(input.spec_bytes()));
    data
}

/// Encodes the first 32 bytes of a string, zero-padded where it is shorter.
pub fn compress_str(input: &str) -> (out: [u8; 64])
    ensures
        out@ == encoded(fit(input.spec_bytes())),
{
    let data = block_of(input);
    compress(&data)
}

/// The percentage that `stats` and the shell report for an encoded length:
/// `3200 / len` cut to its low eight bits, and 100 for length zero.
pub open spec fn ratio_of(len: nat) -> u8 {
    if len > 0 {
        ((3200int / (len as int)) % 256) as u8
    } else {
        100u8
    }
}

/// The percentage `ratio_of(len)`.
pub fn ratio(len: u32) -> (r: u8)
    ensures
        r == ratio_of(len as nat),
{
    if len > 0 {
        let q: u32 = 3200u32 / len;
        (q % 256) as u8
    } else {
        100
    }
}

/// Sizes of a block and of its encoded form, and their ratio in percent: the
/// block length, the position of the first zero byte of the encoded block (64
/// where it has none), and `ratio_of` that position.
pub fn stats(_original: &[u8; 32], compressed: &[u8; 64]) -> (out: (u32, u32, u8))
    ensures
        out.0 == 32,
        out.1 == zero_free_prefix(compressed@),
        out.2 == ratio_of(zero_free_prefix(compressed@)),
{
    let orig_len: u32 = 32;
    let comp_len: u32 = zero_position(compressed) as u32;
    (orig_len, comp_len, ratio(comp_len))
}

} // verus!

//! Content-defined chunking: cut a byte string at boundaries the content chooses,
//! so an edit disturbs only the chunks it touches.
//!
//! A boundary lies where a rolling hash over the last few dozen bytes falls into a
//! rare pattern. That is a property of the bytes around it, not of its distance
//! from the start: after an insertion the later boundaries move with the content,
//! and the chunks between them are what they were before.
use vstd::arithmetic::power2::pow2;
use vstd::prelude::*;

verus! {

/// The smallest chunk, but for the last one.
pub const MIN_CHUNK: usize = 16384;

/// The average chunk that the mask aims at.
pub const AVG_CHUNK: usize = 65536;

/// The largest chunk: a forced cut where the hash has not chosen one.
pub const MAX_CHUNK: usize = 262144;

/// The bits a boundary must clear, from the top of the hash: those that the
/// longest run of bytes has fed. As many as the average chunk has in its size.
pub const MASK: u64 = 0xFFFF_0000_0000_0000;

/// The step of the sequence that the gear values come from.
pub const GEAR_STEP: u64 = 0x9E37_79B9_7F4A_7C15;

/// One value of the SplitMix64 sequence, from its state.
pub open spec fn mixed(seed: u64) -> u64 {
    let a = (seed ^ (seed >> 30u64)).wrapping_mul(0xBF58_476D_1CE4_E5B9);
    let b = (a ^ (a >> 27u64)).wrapping_mul(0x94D0_49BB_1331_11EB);
    b ^ (b >> 31u64)
}

/// The gear value of a byte: the sequence's value at the byte's place. It must
/// never change, or no chunk written before would be found again.
#[verifier::opaque]
pub open spec fn gear(byte: int) -> u64 {
    mixed(GEAR_STEP.wrapping_mul((byte + 2) as u64))
}

/// The hash after one more gear value.
#[verifier::opaque]
pub open spec fn fed(hash: u64, value: u64) -> u64 {
    (hash << 1u64).wrapping_add(value)
}

/// The rolling hash after the first `n` bytes.
pub open spec fn rolled(bytes: Seq<u8>, n: int) -> u64
    decreases n,
{
    if n <= 0 {
        0
    } else {
        fed(rolled(bytes, n - 1), gear(bytes[n - 1] as int))
    }
}

/// The content asks for a cut after its first `n` bytes.
pub open spec fn is_boundary(bytes: Seq<u8>, n: int) -> bool {
    rolled(bytes, n) & MASK == 0
}

/// The first boundary from `from` on, or `limit`.
pub open spec fn first_boundary(bytes: Seq<u8>, from: int, limit: int) -> int
    decreases limit - from,
{
    if from >= limit || is_boundary(bytes, from) {
        from
    } else {
        first_boundary(bytes, from + 1, limit)
    }
}

/// Where the next chunk ends: at the first boundary that leaves it long enough,
/// else at the maximum, else at the end.
pub open spec fn cut(bytes: Seq<u8>) -> int {
    let limit = if bytes.len() <= MAX_CHUNK {
        bytes.len() as int
    } else {
        MAX_CHUNK as int
    };
    if limit <= MIN_CHUNK {
        limit
    } else {
        first_boundary(bytes, MIN_CHUNK as int, limit)
    }
}

proof fn lemma_first_boundary(bytes: Seq<u8>, from: int, limit: int)
    requires
        from <= limit,
    ensures
        from <= first_boundary(bytes, from, limit) <= limit,
    decreases limit - from,
{
    if from < limit && !is_boundary(bytes, from) {
        lemma_first_boundary(bytes, from + 1, limit);
    }
}

/// A chunk is never empty, never longer than what there is nor than the maximum,
/// and shorter than the minimum only if it is all there is.
pub proof fn lemma_cut(bytes: Seq<u8>)
    ensures
        0 <= cut(bytes) <= bytes.len(),
        cut(bytes) <= MAX_CHUNK,
        bytes.len() > 0 ==> cut(bytes) > 0,
        cut(bytes) < bytes.len() ==> cut(bytes) >= MIN_CHUNK,
{
    let limit = if bytes.len() <= MAX_CHUNK {
        bytes.len() as int
    } else {
        MAX_CHUNK as int
    };
    if limit > MIN_CHUNK {
        lemma_first_boundary(bytes, MIN_CHUNK as int, limit);
    }
}

/// The chunks of a byte string.
pub open spec fn pieces(bytes: Seq<u8>) -> Seq<Seq<u8>>
    decreases bytes.len(),
{
    if bytes.len() == 0 {
        seq![]
    } else {
        proof {
            lemma_cut(bytes);
        }
        seq![bytes.take(cut(bytes))] + pieces(bytes.skip(cut(bytes)))
    }
}

/// The gear values of all bytes.
fn gear_table() -> (r: Vec<u64>)
    ensures
        r@.len() == 256,
        forall|i: int| 0 <= i < 256 ==> r@[i] == gear(i),
{
    let mut table: Vec<u64> = Vec::new();
    let mut i: u64 = 0;
    while i < 256
        invariant
            i <= 256,
            table@.len() == i,
            forall|j: int| 0 <= j < i ==> table@[j] == gear(j),
        decreases 256 - i,
    {
        let seed: u64 = GEAR_STEP.wrapping_mul(i + 2);
        let a: u64 = (seed ^ (seed >> 30u64)).wrapping_mul(0xBF58_476D_1CE4_E5B9);
        let b: u64 = (a ^ (a >> 27u64)).wrapping_mul(0x94D0_49BB_1331_11EB);
        table.push(b ^ (b >> 31u64));
        assert(table@[i as int] == gear(i as int)) by {
            reveal(gear);
        }
        i = i + 1;
    }
    table
}

fn roll(hash: u64, value: u64) -> (r: u64)
    ensures
        r == fed(hash, value),
{
    proof {
        reveal(fed);
    }
    (hash << 1u64).wrapping_add(value)
}

/// Where the next chunk of `bytes` ends.
pub fn cut_point(bytes: &[u8]) -> (r: usize)
    ensures
        r == cut(bytes@),
{
    let table = gear_table();
    cut_with(bytes, &table)
}

fn cut_with(bytes: &[u8], table: &Vec<u64>) -> (r: usize)
    requires
        table@.len() == 256,
        forall|i: int| 0 <= i < 256 ==> table@[i] == gear(i),
    ensures
        r == cut(bytes@),
{
    let limit: usize = if bytes.len() <= MAX_CHUNK {
        bytes.len()
    } else {
        MAX_CHUNK
    };
    if limit <= MIN_CHUNK {
        return limit;
    }
    let mut hash: u64 = 0;
    let mut i: usize = 0;
    while i < limit
        invariant
            table@.len() == 256,
            forall|j: int| 0 <= j < 256 ==> table@[j] == gear(j),
            MIN_CHUNK < limit <= bytes@.len(),
            i <= limit,
            hash == rolled(bytes@, i as int),
            cut(bytes@) == first_boundary(bytes@, MIN_CHUNK as int, limit as int),
            i >= MIN_CHUNK ==> !is_boundary(bytes@, i as int) && cut(bytes@) == first_boundary(
                bytes@,
                i as int,
                limit as int,
            ),
        decreases limit - i,
    {
        hash = roll(hash, table[bytes[i] as usize]);
        assert(hash == rolled(bytes@, i + 1));
        assert(i + 1 >= MIN_CHUNK ==> cut(bytes@) == first_boundary(bytes@, i + 1, limit as int));
        if i + 1 >= MIN_CHUNK && hash & MASK == 0 {
            return i + 1;
        }
        i = i + 1;
    }
    limit
}

/// The views of a list of byte slices.
pub open spec fn slices_view(v: Seq<&[u8]>) -> Seq<Seq<u8>> {
    Seq::new(v.len(), |i: int| v[i]@)
}

/// Split `bytes` into content-defined chunks, in order and covering it exactly.
pub fn split(bytes: &[u8]) -> (r: Vec<&[u8]>)
    ensures
        slices_view(r@) == pieces(bytes@),
{
    let table = gear_table();
    let mut out: Vec<&[u8]> = Vec::new();
    let mut rest = bytes;
    assert(slices_view(out@) + pieces(bytes@) =~= pieces(bytes@));
    while rest.len() > 0
        invariant
            table@.len() == 256,
            forall|j: int| 0 <= j < 256 ==> table@[j] == gear(j),
            pieces(bytes@) == slices_view(out@) + pieces(rest@),
        decreases rest@.len(),
    {
        let at: usize = cut_with(rest, &table);
        proof {
            lemma_cut(rest@);
        }
        let ghost was = rest@;
        let ghost done = slices_view(out@);
        let (chunk, tail) = rest.split_at(at);
        out.push(chunk);
        rest = tail;
        proof {
            assert(chunk@ =~= was.take(at as int));
            assert(rest@ =~= was.skip(at as int));
            assert(slices_view(out@) =~= done.push(chunk@));
            assert(done + pieces(was) =~= slices_view(out@) + pieces(rest@));
        }
    }
    assert(pieces(rest@) =~= seq![]);
    assert(slices_view(out@) + Seq::<Seq<u8>>::empty() =~= slices_view(out@));
    out
}

// ---- Laws ----

/// One byte string after the other.
pub open spec fn joined(parts: Seq<Seq<u8>>) -> Seq<u8>
    decreases parts.len(),
{
    if parts.len() == 0 {
        seq![]
    } else {
        parts[0] + joined(parts.skip(1))
    }
}

/// The split is lossless: the chunks, one after the other, are the input.
pub proof fn law_split_is_lossless(bytes: Seq<u8>)
    ensures
        joined(pieces(bytes)) == bytes,
    decreases bytes.len(),
{
    lemma_cut(bytes);
    if bytes.len() == 0 {
        assert(joined(pieces(bytes)) =~= bytes);
    } else {
        let c = cut(bytes);
        law_split_is_lossless(bytes.skip(c));
        let p = pieces(bytes);
        assert(p.skip(1) =~= pieces(bytes.skip(c)));
        assert(p[0] =~= bytes.take(c));
        assert(joined(p) =~= bytes.take(c) + bytes.skip(c));
        assert(bytes.take(c) + bytes.skip(c) =~= bytes);
    }
}

/// Every chunk is at most the maximum and not empty, and every chunk but the last
/// is at least the minimum.
pub proof fn law_chunks_respect_the_bounds(bytes: Seq<u8>, i: int)
    requires
        0 <= i < pieces(bytes).len(),
    ensures
        0 < pieces(bytes)[i].len() <= MAX_CHUNK,
        i < pieces(bytes).len() - 1 ==> pieces(bytes)[i].len() >= MIN_CHUNK,
    decreases bytes.len(),
{
    lemma_cut(bytes);
    let rest = bytes.skip(cut(bytes));
    if i > 0 {
        law_chunks_respect_the_bounds(rest, i - 1);
        assert(pieces(bytes)[i] == pieces(rest)[i - 1]);
    } else if pieces(bytes).len() > 1 {
        assert(pieces(rest).len() > 0);
    }
}

/// A byte string no longer than the minimum is one chunk.
pub proof fn law_a_short_input_is_one_chunk(bytes: Seq<u8>)
    requires
        0 < bytes.len() <= MIN_CHUNK,
    ensures
        pieces(bytes) == seq![bytes],
{
    assert(cut(bytes) == bytes.len());
    assert(bytes.take(cut(bytes)) =~= bytes);
    assert(pieces(bytes.skip(cut(bytes))) =~= seq![]);
    assert(pieces(bytes) =~= seq![bytes]);
}

proof fn lemma_rolled_prefix(a: Seq<u8>, b: Seq<u8>, n: int)
    requires
        0 <= n <= a.len(),
        n <= b.len(),
        forall|i: int| 0 <= i < n ==> a[i] == b[i],
    ensures
        rolled(a, n) == rolled(b, n),
    decreases n,
{
    if n > 0 {
        lemma_rolled_prefix(a, b, n - 1);
    }
}

proof fn lemma_boundary_prefix(a: Seq<u8>, b: Seq<u8>, from: int, limit: int, further: int)
    requires
        0 <= from <= limit <= further,
        limit <= a.len(),
        further <= b.len(),
        forall|i: int| 0 <= i < limit ==> a[i] == b[i],
        first_boundary(a, from, limit) < limit || further == limit,
    ensures
        first_boundary(b, from, further) == first_boundary(a, from, limit),
    decreases limit - from,
{
    if from < limit {
        lemma_rolled_prefix(a, b, from);
        if !is_boundary(a, from) {
            lemma_boundary_prefix(a, b, from + 1, limit, further);
        }
    }
}

/// A cut that leaves something behind depends only on the bytes before it and on
/// there being more: appending to the input does not move it.
pub proof fn law_a_cut_depends_on_what_precedes_it(bytes: Seq<u8>, tail: Seq<u8>)
    requires
        cut(bytes) < bytes.len(),
    ensures
        cut(bytes + tail) == cut(bytes),
{
    let more = bytes + tail;
    lemma_cut(bytes);
    let limit = if bytes.len() <= MAX_CHUNK {
        bytes.len() as int
    } else {
        MAX_CHUNK as int
    };
    let further = if more.len() <= MAX_CHUNK {
        more.len() as int
    } else {
        MAX_CHUNK as int
    };
    lemma_boundary_prefix(bytes, more, MIN_CHUNK as int, limit, further);
}

/// An appended tail leaves all but the last chunk of the input untouched.
pub proof fn law_an_append_leaves_the_prefix_alone(bytes: Seq<u8>, tail: Seq<u8>, i: int)
    requires
        0 <= i < pieces(bytes).len() - 1,
    ensures
        i < pieces(bytes + tail).len(),
        pieces(bytes + tail)[i] == pieces(bytes)[i],
    decreases bytes.len(),
{
    lemma_cut(bytes);
    let c = cut(bytes);
    let rest = bytes.skip(c);
    assert(pieces(bytes).len() == 1 + pieces(rest).len());
    assert(rest.len() > 0);
    law_a_cut_depends_on_what_precedes_it(bytes, tail);
    let more = bytes + tail;
    assert(more.take(c) =~= bytes.take(c));
    assert(more.skip(c) =~= rest + tail);
    if i > 0 {
        law_an_append_leaves_the_prefix_alone(rest, tail, i - 1);
        assert(pieces(bytes)[i] == pieces(rest)[i - 1]);
        assert(pieces(more)[i] == pieces(rest + tail)[i - 1]);
    }
}

/// Behind a place where a chunk ends, the chunks are those of the remaining bytes
/// by themselves: two inputs that share a suffix from such a place on are cut the
/// same way from there on, whatever came before.
pub proof fn law_later_chunks_depend_on_the_rest_alone(bytes: Seq<u8>, k: int)
    requires
        0 <= k <= pieces(bytes).len(),
    ensures
        joined(pieces(bytes).take(k)).len() <= bytes.len(),
        pieces(bytes).skip(k) == pieces(
            bytes.skip(joined(pieces(bytes).take(k)).len() as int),
        ),
    decreases k,
{
    let p = pieces(bytes);
    if k == 0 {
        assert(p.take(0) =~= seq![]);
        assert(joined(p.take(0)).len() == 0);
        assert(bytes.skip(0) =~= bytes);
        assert(p.skip(0) =~= p);
    } else {
        lemma_cut(bytes);
        let c = cut(bytes);
        let rest = bytes.skip(c);
        law_later_chunks_depend_on_the_rest_alone(rest, k - 1);
        let q = pieces(rest);
        assert(p.take(k)[0] == bytes.take(c));
        assert(p.take(k).skip(1) =~= q.take(k - 1));
        let n = joined(q.take(k - 1)).len() as int;
        assert(joined(p.take(k)).len() == c + n);
        assert(rest.skip(n) =~= bytes.skip(c + n));
        assert(p.skip(k) =~= q.skip(k - 1));
    }
}

// ---- What a boundary depends on ----

/// Two to the sixty-fourth: what the hash is taken modulo.
pub open spec fn hash_span() -> int {
    0x1_0000_0000_0000_0000
}

/// The weight of the last `k` of the first `n` bytes: the gear value of the last one, twice
/// that of the one before it, and so on.
pub open spec fn weight(bytes: Seq<u8>, n: int, k: nat) -> int
    decreases k,
{
    if k == 0 {
        0
    } else {
        gear(bytes[n - k] as int) * pow2((k - 1) as nat) + weight(bytes, n, (k - 1) as nat)
    }
}

proof fn lemma_fed(hash: u64, value: u64) -> (c: int)
    ensures
        fed(hash, value) == 2 * hash + value - c * hash_span(),
{
    reveal(fed);
    let low = hash & 0x7FFF_FFFF_FFFF_FFFF;
    let top: int = if hash >= 0x8000_0000_0000_0000 {
        1
    } else {
        0
    };
    assert(hash << 1u64 == low << 1u64 && low <= 0x7FFF_FFFF_FFFF_FFFF && (hash
        >= 0x8000_0000_0000_0000 ==> low == hash - 0x8000_0000_0000_0000) && (hash
        < 0x8000_0000_0000_0000 ==> low == hash)) by (bit_vector)
        requires
            low == hash & 0x7FFF_FFFF_FFFF_FFFF,
    ;
    assert(low << 1u64 == low * 2) by (bit_vector)
        requires
            low <= 0x7FFF_FFFF_FFFF_FFFF,
    ;
    let doubled = hash << 1u64;
    assert(doubled == 2 * hash - top * hash_span());
    if doubled + value >= hash_span() {
        top + 1
    } else {
        top
    }
}

/// The hash is that of some bytes before, shifted out, and the weight of the bytes since.
proof fn lemma_rolled_weight(bytes: Seq<u8>, n: int, k: nat) -> (q: int)
    requires
        k <= n <= bytes.len(),
    ensures
        rolled(bytes, n) == rolled(bytes, n - k) * pow2(k) + weight(bytes, n, k) - q * hash_span(),
    decreases k,
{
    if k == 0 {
        vstd::arithmetic::power2::lemma2_to64();
        assert(pow2(k) == 1);
        let all = rolled(bytes, n) as int;
        assert(all * pow2(k) == all) by (nonlinear_arith)
            requires
                pow2(k) == 1,
        ;
        0
    } else {
        let j = (k - 1) as nat;
        let q = lemma_rolled_weight(bytes, n, j);
        let before = rolled(bytes, n - k) as int;
        let value = gear(bytes[n - k] as int) as int;
        let c = lemma_fed(rolled(bytes, n - k), gear(bytes[n - k] as int));
        assert(rolled(bytes, n - j) == 2 * before + value - c * hash_span());
        vstd::arithmetic::power2::lemma_pow2_unfold(k);
        let p = pow2(j) as int;
        assert((2 * before + value - c * hash_span()) * p == before * (2 * p) + value * p - (c * p)
            * hash_span()) by (nonlinear_arith);
        assert(weight(bytes, n, k) == value * p + weight(bytes, n, j));
        assert(rolled(bytes, n - j) * p == before * (2 * p) + value * p - (c * p) * hash_span());
        assert(before * (2 * p) == before * pow2(k));
        let next = q + c * p;
        assert(next * hash_span() == q * hash_span() + (c * p) * hash_span()) by (nonlinear_arith)
            requires
                next == q + c * p,
        ;
        next
    }
}

proof fn lemma_window(bytes: Seq<u8>, n: int)
    requires
        64 <= n <= bytes.len(),
    ensures
        rolled(bytes, n) as int == weight(bytes, n, 64) % hash_span(),
{
    let q = lemma_rolled_weight(bytes, n, 64);
    vstd::arithmetic::power2::lemma2_to64();
    vstd::arithmetic::power2::lemma2_to64_rest();
    let before = rolled(bytes, n - 64) as int;
    let w = weight(bytes, n, 64);
    assert(pow2(64) == hash_span());
    assert(w == (q - before) * hash_span() + rolled(bytes, n)) by (nonlinear_arith)
        requires
            rolled(bytes, n) == before * hash_span() + w - q * hash_span(),
    ;
    vstd::arithmetic::div_mod::lemma_fundamental_div_mod_converse(
        w,
        hash_span(),
        q - before,
        rolled(bytes, n) as int,
    );
}

proof fn lemma_weight_same(a: Seq<u8>, m: int, b: Seq<u8>, n: int, k: nat)
    requires
        k <= m <= a.len(),
        k <= n <= b.len(),
        forall|j: int| 1 <= j <= k ==> a[m - j] == #[trigger] b[n - j],
    ensures
        weight(a, m, k) == weight(b, n, k),
    decreases k,
{
    if k > 0 {
        assert(b[n - k] == a[m - k]);
        lemma_weight_same(a, m, b, n, (k - 1) as nat);
    }
}

/// The content asks for a cut behind a byte exactly where the weight of the sixty-four
/// bytes up to it leaves, modulo the hash's span, less than a part in sixty-five thousand
/// of it.
pub proof fn law_a_boundary_is_where_the_weight_is_small(bytes: Seq<u8>, n: int)
    requires
        64 <= n <= bytes.len(),
    ensures
        is_boundary(bytes, n) <==> (weight(bytes, n, 64) % hash_span()) * 65536 < hash_span(),
{
    lemma_window(bytes, n);
    let hash = rolled(bytes, n);
    assert(hash & 0xFFFF_0000_0000_0000 == 0 <==> hash < 0x1_0000_0000_0000) by (bit_vector);
}

/// A boundary is a property of the sixty-four bytes before it, and not of its distance
/// from the start of the input.
pub proof fn law_a_boundary_moves_with_its_content(a: Seq<u8>, m: int, b: Seq<u8>, n: int)
    requires
        64 <= m <= a.len(),
        64 <= n <= b.len(),
        a.subrange(m - 64, m) == b.subrange(n - 64, n),
    ensures
        is_boundary(a, m) == is_boundary(b, n),
{
    assert forall|j: int| 1 <= j <= 64 implies a[m - j] == #[trigger] b[n - j] by {
        let (x, y) = (a.subrange(m - 64, m), b.subrange(n - 64, n));
        assert(x[64 - j] == a[m - j]);
        assert(y[64 - j] == b[n - j]);
    }
    lemma_weight_same(a, m, b, n, 64);
    law_a_boundary_is_where_the_weight_is_small(a, m);
    law_a_boundary_is_where_the_weight_is_small(b, n);
}

proof fn lemma_first_is_first(bytes: Seq<u8>, from: int, limit: int)
    requires
        from <= limit,
    ensures
        from <= first_boundary(bytes, from, limit) <= limit,
        forall|n: int|
            from <= n < first_boundary(bytes, from, limit) ==> !#[trigger] is_boundary(bytes, n),
        first_boundary(bytes, from, limit) < limit ==> is_boundary(
            bytes,
            first_boundary(bytes, from, limit),
        ),
    decreases limit - from,
{
    if from < limit && !is_boundary(bytes, from) {
        lemma_first_is_first(bytes, from + 1, limit);
    }
}

/// A chunk ends at the first boundary from sixteen KiB on. Where there is none, it ends at
/// two hundred and fifty-six KiB, or with the input if that is shorter.
pub proof fn law_a_chunk_ends_at_its_first_boundary(bytes: Seq<u8>)
    ensures
        forall|n: int| 16384 <= n < cut(bytes) ==> !#[trigger] is_boundary(bytes, n),
        cut(bytes) < bytes.len() && cut(bytes) < 262144 ==> cut(bytes) >= 16384 && is_boundary(
            bytes,
            cut(bytes),
        ),
        cut(bytes) <= bytes.len(),
        cut(bytes) <= 262144,
        bytes.len() <= 16384 ==> cut(bytes) == bytes.len(),
{
    let limit = if bytes.len() <= MAX_CHUNK {
        bytes.len() as int
    } else {
        MAX_CHUNK as int
    };
    if limit > MIN_CHUNK {
        lemma_first_is_first(bytes, MIN_CHUNK as int, limit);
    }
}

/// Two chunks that hold the same bytes from some place on end at the same place of them,
/// if both look for a boundary there: what comes before the last sixty-four bytes has no
/// say.
pub proof fn law_cuts_agree_on_a_common_run(a: Seq<u8>, b: Seq<u8>, m: int, n: int)
    requires
        16384 + 64 <= m < cut(a),
        16384 + 64 <= n < cut(b),
        cut(a) < 262144,
        cut(a) < a.len(),
        cut(b) < 262144,
        cut(b) < b.len(),
        a.skip(m - 64) == b.skip(n - 64),
    ensures
        cut(a) - m == cut(b) - n,
{
    law_a_chunk_ends_at_its_first_boundary(a);
    law_a_chunk_ends_at_its_first_boundary(b);
    let (c, d) = (cut(a), cut(b));
    let tail = a.skip(m - 64);
    assert(tail == b.skip(n - 64));
    if c - m < d - n {
        let x = c - m + n;
        assert(a.subrange(c - 64, c) =~= tail.subrange(c - m, c - m + 64));
        assert(b.subrange(x - 64, x) =~= tail.subrange(c - m, c - m + 64));
        law_a_boundary_moves_with_its_content(a, c, b, x);
        assert(!is_boundary(b, x));
    }
    if d - n < c - m {
        let x = d - n + m;
        assert(b.subrange(d - 64, d) =~= tail.subrange(d - n, d - n + 64));
        assert(a.subrange(x - 64, x) =~= tail.subrange(d - n, d - n + 64));
        law_a_boundary_moves_with_its_content(a, x, b, d);
        assert(!is_boundary(a, x));
    }
}

/// Two inputs that share a suffix, both cut where it begins, have the same chunks from
/// there on, whatever came before.
pub proof fn law_inputs_with_a_cut_in_common_share_the_rest(
    x: Seq<u8>,
    y: Seq<u8>,
    suffix: Seq<u8>,
    i: int,
    j: int,
)
    requires
        0 <= i <= pieces(x + suffix).len(),
        0 <= j <= pieces(y + suffix).len(),
        joined(pieces(x + suffix).take(i)).len() == x.len(),
        joined(pieces(y + suffix).take(j)).len() == y.len(),
    ensures
        pieces(x + suffix).skip(i) == pieces(y + suffix).skip(j),
{
    law_later_chunks_depend_on_the_rest_alone(x + suffix, i);
    law_later_chunks_depend_on_the_rest_alone(y + suffix, j);
    assert((x + suffix).skip(x.len() as int) =~= suffix);
    assert((y + suffix).skip(y.len() as int) =~= suffix);
}

/// The first chunk ends where the input is cut, and so does every chunk of what is left
/// behind the ones before it.
pub proof fn law_every_chunk_ends_at_a_cut(bytes: Seq<u8>, i: int)
    requires
        0 <= i < pieces(bytes).len(),
    ensures
        ({
            let rest = bytes.skip(joined(pieces(bytes).take(i)).len() as int);
            pieces(bytes)[i] == rest.take(cut(rest))
        }),
{
    law_later_chunks_depend_on_the_rest_alone(bytes, i);
    let rest = bytes.skip(joined(pieces(bytes).take(i)).len() as int);
    assert(pieces(bytes).skip(i)[0] == pieces(bytes)[i]);
    assert(pieces(rest)[0] == rest.take(cut(rest)));
}

/// The gear value of a byte is the value of the SplitMix64 generator at the byte's place in
/// its sequence, two places on.
pub proof fn law_gear_values_are_splitmix(byte: u8)
    ensures
        ({
            let seed = 0x9E37_79B9_7F4A_7C15u64.wrapping_mul((byte + 2) as u64);
            let a = (seed ^ (seed >> 30u64)).wrapping_mul(0xBF58_476D_1CE4_E5B9u64);
            let b = (a ^ (a >> 27u64)).wrapping_mul(0x94D0_49BB_1331_11EBu64);
            gear(byte as int) == b ^ (b >> 31u64)
        }),
{
    reveal(gear);
}

/// A list of slices stands for the bytes of each of them, in order.
pub proof fn law_slices_are_seen_as_their_bytes(v: Seq<&[u8]>, i: int)
    requires
        0 <= i < v.len(),
    ensures
        slices_view(v).len() == v.len(),
        slices_view(v)[i] == v[i]@,
{
}

} // verus!

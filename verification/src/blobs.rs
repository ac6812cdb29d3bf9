//! Content-addressed blobs: a blob is named by the digest of its bytes, and a
//! read proves that it got the bytes its name stands for.
use vstd::prelude::*;
use vstd::string::*;

use crate::error::GrainError;
use crate::journal::GrainJournalError;
use crate::key::bytes_lt;
use crate::key::lemma_bytes_lt_irreflexive;
use crate::key::lemma_bytes_lt_total;
use crate::key::lemma_bytes_lt_transitive;
use crate::key::rank_bytes;
use crate::key::OrdKey;
use crate::key::Rank;
use crate::text::chars_of;
use crate::text::digit_of;
use crate::text::hex;
use crate::text::lemma_hex_at;
use crate::text::lemma_hex_injective;
use crate::text::lemma_hex_len;
use crate::text::push_hex;
use crate::wire::Decoded;
use crate::wire::Wire;
use crate::wire::WireError;

verus! {

/// The 32-byte BLAKE3 digest of a byte string.
pub uninterp spec fn blake3_digest(bytes: Seq<u8>) -> Seq<u8>;

/// `blake3::hash`, its digest taken out with `Hash::as_bytes`: a function of the
/// bytes alone. Nothing is claimed of which digest it is, nor that two byte
/// strings differ in theirs.
#[verifier::external_body]
fn digest_of(bytes: &[u8]) -> (r: [u8; 32])
    ensures
        r@ == blake3_digest(bytes@),
{
    *blake3::hash(bytes).as_bytes()
}

/// The content address of a blob: the BLAKE3 digest of its bytes.
///
/// Equal bytes have equal ids wherever they are stored, so a writer and a reader
/// agree on a blob's name with no coordination.
#[derive(Clone, Copy, Debug, PartialEq, Eq, Hash, PartialOrd, Ord)]
pub struct BlobId([u8; 32]);

impl View for BlobId {
    type V = Seq<u8>;

    closed spec fn view(&self) -> Seq<u8> {
        self.0@
    }
}

impl DeepView for BlobId {
    type V = Seq<u8>;

    open spec fn deep_view(&self) -> Seq<u8> {
        self@
    }
}

impl BlobId {
    /// The content id of `bytes`.
    pub fn of(bytes: &[u8]) -> (r: BlobId)
        ensures
            r@ == blake3_digest(bytes@),
    {
        BlobId(digest_of(bytes))
    }

    /// The raw digest.
    pub fn as_bytes(&self) -> (r: &[u8; 32])
        ensures
            r@ == self@,
    {
        &self.0
    }

    /// Wrap a raw digest. The bytes it names are still checked against it on read.
    pub fn from_bytes(bytes: [u8; 32]) -> (r: BlobId)
        ensures
            r@ == bytes@,
    {
        BlobId(bytes)
    }

    /// Whether two ids name the same content.
    pub fn same(&self, other: &BlobId) -> (r: bool)
        ensures
            r == (self@ == other@),
    {
        match rank_bytes(self.0.as_slice(), other.0.as_slice()) {
            Rank::Same => true,
            _ => false,
        }
    }

    /// Whether `bytes` hash to this id: the integrity check of every read.
    pub fn verifies(&self, bytes: &[u8]) -> (r: bool)
        ensures
            r == (blake3_digest(bytes@) == self@),
    {
        BlobId::of(bytes).same(self)
    }

    /// The id that a hex text writes, if it writes one.
    pub fn from_hex(text: &str) -> (r: Option<BlobId>)
        ensures
            match r {
                Some(id) => hex(id@) == text@,
                None => forall|id: BlobId| hex(#[trigger] id@) != text@,
            },
    {
        let chars = chars_of(text);
        if chars.len() != 64 {
            proof {
                assert forall|id: BlobId| hex(#[trigger] id@) != text@ by {
                    lemma_hex_len(id@);
                }
            }
            return None;
        }
        let mut raw: [u8; 32] = [0;32];
        let mut i: usize = 0;
        assert(hex(raw@.take(0)) =~= chars@.take(0));
        while i < 32
            invariant
                i <= 32,
                chars@ == text@,
                chars@.len() == 64,
                hex(raw@.take(i as int)) == chars@.take(2 * i),
            decreases 32 - i,
        {
            let high = digit_of(chars[2 * i]);
            let low = digit_of(chars[2 * i + 1]);
            if high >= 16 || low >= 16 {
                proof {
                    assert forall|id: BlobId| hex(#[trigger] id@) != text@ by {
                        id.lemma_len();
                        lemma_hex_at(id@, i as int);
                        lemma_hex_len(id@);
                    }
                }
                return None;
            }
            let byte: u8 = high * 16 + low;
            let ghost was = raw@;
            raw[i] = byte;
            proof {
                assert(raw@.take(i + 1).drop_last() =~= was.take(i as int));
                assert(raw@.take(i + 1).last() == byte);
                assert(byte / 16 == high && byte % 16 == low);
                assert(chars@.take(2 * (i + 1)) =~= chars@.take(2 * i).push(
                    chars@[2 * i],
                ).push(chars@[2 * i + 1]));
                assert(hex(raw@.take(i + 1)) =~= chars@.take(2 * (i + 1)));
            }
            i = i + 1;
        }
        assert(raw@.take(32) =~= raw@);
        assert(chars@.take(64) =~= chars@);
        Some(BlobId(raw))
    }

    /// The id in lowercase hex, two characters per byte.
    pub fn to_hex(&self) -> (r: String)
        ensures
            r@ == hex(self@),
            r@.len() == 64,
    {
        let mut out = String::new();
        push_hex(&mut out, self.0.as_slice());
        proof {
            lemma_hex_len(self@);
            assert(out@ =~= hex(self@));
        }
        out
    }

    /// The id as diagnostics show it.
    pub fn debug_text(&self) -> (r: String)
        ensures
            r@ == "BlobId("@ + hex(self@) + ")"@,
    {
        let mut out = "BlobId(".to_owned();
        push_hex(&mut out, self.0.as_slice());
        out.append(")");
        out
    }

    /// An id is always 32 bytes.
    pub proof fn lemma_len(&self)
        ensures
            self@.len() == 32,
    {
    }
}

/// An id's hex text names that id and no other.
pub proof fn law_hex_names_one_id(a: BlobId, b: BlobId)
    requires
        hex(a@) == hex(b@),
    ensures
        a@ == b@,
{
    lemma_hex_injective(a@, b@);
}

impl OrdKey for BlobId {
    open spec fn lt(a: Seq<u8>, b: Seq<u8>) -> bool {
        bytes_lt(a, b)
    }

    proof fn lt_irreflexive(a: Seq<u8>) {
        lemma_bytes_lt_irreflexive(a);
    }

    proof fn lt_transitive(a: Seq<u8>, b: Seq<u8>, c: Seq<u8>) {
        lemma_bytes_lt_transitive(a, b, c);
    }

    proof fn lt_total(a: Seq<u8>, b: Seq<u8>) {
        lemma_bytes_lt_total(a, b);
    }

    fn rank(&self, other: &BlobId) -> (r: Rank) {
        rank_bytes(self.0.as_slice(), other.0.as_slice())
    }

    fn dup(&self) -> (r: BlobId) {
        *self
    }
}

impl Wire for BlobId {
    open spec fn wire_inv(&self) -> bool {
        true
    }

    open spec fn fits(m: Seq<u8>) -> bool {
        m.len() == 32
    }

    open spec fn enc(m: Seq<u8>) -> Seq<u8> {
        m
    }

    open spec fn dec(b: Seq<u8>) -> Decoded<Seq<u8>> {
        if b.len() < 32 {
            Err(WireError::UnexpectedEnd)
        } else {
            Ok((b.take(32), b.skip(32)))
        }
    }

    proof fn round_trip(m: Seq<u8>, rest: Seq<u8>) {
        assert((m + rest).take(32) =~= m);
        assert((m + rest).skip(32) =~= rest);
    }

    fn put(&self, out: &mut Vec<u8>) {
        let ghost before = out@;
        let mut i: usize = 0;
        assert(before + self@.take(0) =~= before);
        while i < 32
            invariant
                i <= 32,
                self.0@.len() == 32,
                out@ == before + self@.take(i as int),
            decreases 32 - i,
        {
            out.push(self.0[i]);
            i = i + 1;
            assert(out@ =~= before + self@.take(i as int));
        }
        assert(self@.take(32) =~= self@);
    }

    fn take<'a>(b: &'a [u8]) -> (r: Result<(BlobId, &'a [u8]), WireError>) {
        if b.len() < 32 {
            return Err(WireError::UnexpectedEnd);
        }
        let mut raw: [u8; 32] = [0u8; 32];
        let mut i: usize = 0;
        while i < 32
            invariant
                i <= 32 <= b@.len(),
                raw@.len() == 32,
                forall|j: int| 0 <= j < i ==> raw@[j] == b@[j],
            decreases 32 - i,
        {
            raw[i] = b[i];
            i = i + 1;
        }
        assert(raw@ =~= b@.take(32));
        let rest = vstd::slice::slice_subrange(b, 32, b.len());
        assert(rest@ =~= b@.skip(32));
        Ok((BlobId(raw), rest))
    }
}

/// The smaller of two numbers.
pub open spec fn at_most(a: int, b: int) -> int {
    if a <= b {
        a
    } else {
        b
    }
}

/// The part of `bytes` that a byte range asks for: both ends are clamped to the
/// length, and an end before the start selects nothing.
pub open spec fn range_of(bytes: Seq<u8>, range: Option<(u64, u64)>) -> Seq<u8> {
    match range {
        None => bytes,
        Some((start, end)) => {
            let len = bytes.len() as int;
            let lo = at_most(start as int, len);
            let hi = at_most(end as int, len);
            if hi <= lo {
                seq![]
            } else {
                bytes.subrange(lo, hi)
            }
        },
    }
}

/// Cut the requested range out of a blob.
pub fn slice_range(bytes: Vec<u8>, range: Option<(u64, u64)>) -> (r: Vec<u8>)
    ensures
        r@ == range_of(bytes@, range),
{
    match range {
        None => bytes,
        Some((start, end)) => {
            let len: u64 = bytes.len() as u64;
            let lo: usize = (if start <= len { start } else { len }) as usize;
            let hi: usize = (if end <= len { end } else { len }) as usize;
            let mut out: Vec<u8> = Vec::new();
            if lo < hi {
                let mut i: usize = lo;
                while i < hi
                    invariant
                        lo <= i <= hi <= bytes@.len(),
                        out@ == bytes@.subrange(lo as int, i as int),
                    decreases hi - i,
                {
                    out.push(bytes[i]);
                    i = i + 1;
                    assert(out@ =~= bytes@.subrange(lo as int, i as int));
                }
            }
            assert(out@ =~= range_of(bytes@, range));
            out
        },
    }
}

/// The text of a failed fetch.
pub open spec fn not_found_text(id: Seq<u8>) -> Seq<char> {
    "blob "@ + hex(id) + " not found"@
}

/// A seam-level blob failure as the durability outcome a grain surfaces.
pub fn into_grain_error(err: GrainJournalError) -> (r: GrainError)
    ensures
        r == GrainError::Unavailable(err->Unavailable_0),
{
    match err {
        GrainJournalError::Unavailable(why) => GrainError::Unavailable(why),
    }
}

/// What a blob read answers, from what the journal seam answered: its failure as
/// an unavailability, an absent blob as an unavailability that names it, and the
/// requested range of a present one.
pub fn finish_get(
    id: &BlobId,
    fetched: Result<Option<Vec<u8>>, GrainJournalError>,
    range: Option<(u64, u64)>,
) -> (r: Result<Vec<u8>, GrainError>)
    ensures
        match fetched {
            Err(GrainJournalError::Unavailable(why)) => r == Err::<Vec<u8>, GrainError>(
                GrainError::Unavailable(why),
            ),
            Ok(None) => r matches Err(GrainError::Unavailable(why)) && why@ == not_found_text(id@),
            Ok(Some(bytes)) => r matches Ok(out) && out@ == range_of(bytes@, range),
        },
{
    match fetched {
        Err(e) => Err(into_grain_error(e)),
        Ok(None) => {
            let mut why = "blob ".to_owned();
            push_hex(&mut why, id.0.as_slice());
            why.append(" not found");
            assert(why@ =~= not_found_text(id@));
            Err(GrainError::Unavailable(why))
        },
        Ok(Some(bytes)) => Ok(slice_range(bytes, range)),
    }
}

/// A range of a blob: its bytes from the start up to, not including, the end, as far as
/// there are any; without a range, all of them.
pub proof fn law_a_range_is_a_part_of_its_blob(bytes: Seq<u8>, start: u64, end: u64)
    ensures
        range_of(bytes, None) == bytes,
        start <= end <= bytes.len() ==> range_of(bytes, Some((start, end))) == bytes.subrange(
            start as int,
            end as int,
        ),
        start <= bytes.len() <= end ==> range_of(bytes, Some((start, end))) == bytes.skip(
            start as int,
        ),
        end <= start || bytes.len() <= start ==> range_of(bytes, Some((start, end))).len() == 0,
{
    if start <= end <= bytes.len() {
        assert(range_of(bytes, Some((start, end))) =~= bytes.subrange(start as int, end as int));
    }
    if start <= bytes.len() <= end {
        assert(range_of(bytes, Some((start, end))) =~= bytes.skip(start as int));
    }
}

} // verus!

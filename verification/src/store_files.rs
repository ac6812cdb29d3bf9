//! The small files of a store's directory: its stamp, its promises, and the names its
//! files carry.
use vstd::bytes::*;
use vstd::prelude::*;
use vstd::string::*;

use crate::blobs::BlobId;
use crate::facet::decode_payload;
use crate::facet::encode_payload;
use crate::facet::payload_of;
use crate::key::rank_str;
use crate::key::Rank;
use crate::ordmap::OrdMap;
use crate::ordmap::OrdSet;
use crate::snapshot::admit_extensions;
use crate::snapshot::unknown_critical;
use crate::stamp::critical_refused;
use crate::stamp::lemma_stamp;
use crate::stamp::read_stamp;
use crate::stamp::stamp;
use crate::stamp::stamped;
use crate::stamp::unstamp;
use crate::text::chars_of;
use crate::text::decimal;
use crate::text::hex;
use crate::text::shows;
use crate::wire::lemma_decoded;
use crate::wire::sorted_keys;
use crate::wire::Decoded;
use crate::wire::Wire;
use crate::wire::WireError;

verus! {

/// The largest record a log may hold: a longer one is taken for corruption.
pub const MAX_RECORD: u32 = 1073741824;

/// The revision of the store's stamp.
pub const STORE_REVISION: u16 = 1;

/// The magic of a store's stamp.
pub open spec fn store_magic() -> Seq<u8> {
    seq![0x47u8, 0x52u8, 0x53u8, 0x54u8, 0x4fu8, 0x52u8]
}

fn magic() -> (r: Vec<u8>)
    ensures
        r@ == store_magic(),
{
    let mut r: Vec<u8> = Vec::new();
    r.push(0x47);
    r.push(0x52);
    r.push(0x53);
    r.push(0x54);
    r.push(0x4f);
    r.push(0x52);
    assert(r@ =~= store_magic());
    r
}

/// What the stamp says: the codec that wrote everything in the directory, and room to
/// grow.
#[derive(Clone, Debug, PartialEq, Eq)]
pub struct StoreBody {
    pub codec: String,
    pub ext: OrdMap<u16, Vec<u8>>,
}

#[verifier::ext_equal]
pub struct StoreBodyModel {
    pub codec: Seq<char>,
    pub ext: Map<u16, Seq<u8>>,
}

impl DeepView for StoreBody {
    type V = StoreBodyModel;

    open spec fn deep_view(&self) -> StoreBodyModel {
        StoreBodyModel { codec: self.codec@, ext: self.ext.deep_view() }
    }
}

impl Wire for StoreBody {
    open spec fn wire_inv(&self) -> bool {
        self.ext.wf()
    }

    open spec fn fits(m: StoreBodyModel) -> bool {
        <String as Wire>::fits(m.codec) && <OrdMap<u16, Vec<u8>> as Wire>::fits(m.ext)
    }

    open spec fn enc(m: StoreBodyModel) -> Seq<u8> {
        <(String, OrdMap<u16, Vec<u8>>) as Wire>::enc((m.codec, m.ext))
    }

    open spec fn dec(b: Seq<u8>) -> Decoded<StoreBodyModel> {
        match <(String, OrdMap<u16, Vec<u8>>) as Wire>::dec(b) {
            Err(e) => Err(e),
            Ok(((codec, ext), rest)) => Ok((StoreBodyModel { codec, ext }, rest)),
        }
    }

    proof fn round_trip(m: StoreBodyModel, rest: Seq<u8>) {
        <(String, OrdMap<u16, Vec<u8>>) as Wire>::round_trip((m.codec, m.ext), rest);
    }

    fn put(&self, out: &mut Vec<u8>) {
        let ghost before = out@;
        self.codec.put(out);
        self.ext.put(out);
        assert(out@ =~= before + Self::enc(self.deep_view()));
    }

    fn take<'a>(b: &'a [u8]) -> (r: Result<(StoreBody, &'a [u8]), WireError>) {
        match <(String, OrdMap<u16, Vec<u8>>) as Wire>::take(b) {
            Err(e) => Err(e),
            Ok(((codec, ext), rest)) => {
                Ok((StoreBody { codec, ext }, rest))
            },
        }
    }
}

/// The stamp of a directory that `codec` writes.
pub open spec fn store_stamp(codec: Seq<char>) -> Seq<u8> {
    stamped(
        store_magic(),
        STORE_REVISION,
        StoreBody::enc(StoreBodyModel { codec, ext: Map::empty() }),
    )
}

/// The refusal of a directory that another codec wrote.
pub open spec fn store_codec_refused(found: Seq<char>, runs: Seq<char>) -> Seq<char> {
    "written with codec '"@ + found + "', but this node runs '"@ + runs
        + "' — a grain's event payloads are codec-encoded, so every record here would fail to decode. This is a configuration change, not a corrupt store: run this node with '"@
        + found + "', or point it at a different directory."@
}

/// What a stamp found in a directory means to a node that runs `codec`: nothing
/// against it, or why the directory is refused.
pub open spec fn stamp_verdict(bytes: Seq<u8>, codec: Seq<char>) -> Option<Seq<char>> {
    match read_stamp("granary.store"@, store_magic(), STORE_REVISION, bytes) {
        Err(text) => Some(text),
        Ok(raw) => match payload_of::<StoreBody>("stamp body did not decode"@, raw) {
            Err(text) => Some(text),
            Ok(body) => match unknown_critical(sorted_keys::<u16, Seq<u8>>(body.ext), seq![]) {
                Some(key) => Some(critical_refused("granary.store"@, key)),
                None => if body.codec == codec {
                    None
                } else {
                    Some(store_codec_refused(body.codec, codec))
                },
            },
        },
    }
}

fn refuse_codec(found: &str, runs: &str) -> (r: String)
    ensures
        r@ == store_codec_refused(found@, runs@),
{
    let mut out = "written with codec '".to_owned();
    out.append(found);
    out.append("', but this node runs '");
    out.append(runs);
    out.append(
        "' — a grain's event payloads are codec-encoded, so every record here would fail to decode. This is a configuration change, not a corrupt store: run this node with '",
    );
    out.append(found);
    out.append("', or point it at a different directory.");
    out
}

/// Judge a stamp: revision first, then the body, then its extensions, then the codec.
fn judge_stamp(bytes: &[u8], codec: &str) -> (r: Option<String>)
    ensures
        match r {
            None => stamp_verdict(bytes@, codec@) is None,
            Some(text) => stamp_verdict(bytes@, codec@) == Some(text@),
        },
{
    let magic = magic();
    let raw = match unstamp("granary.store", magic.as_slice(), STORE_REVISION, bytes) {
        Ok(raw) => raw,
        Err(text) => {
            return Some(text);
        },
    };
    let body = match decode_payload::<StoreBody>("stamp body did not decode", raw) {
        Ok(body) => body,
        Err(e) => {
            return Some(e.0);
        },
    };
    let known: Vec<u16> = Vec::new();
    assert(known@ =~= seq![]);
    if let Err(e) = admit_extensions(&body.ext, "granary.store", &known) {
        return Some(e.0);
    }
    if rank_str(body.codec.as_str(), codec) == Rank::Same {
        None
    } else {
        Some(refuse_codec(body.codec.as_str(), codec))
    }
}

/// Confirm that a directory holds what `codec` can read, by the stamp found in it. One
/// without a stamp is adopted: the stamp to write is handed back.
pub fn admit_store_stamp(dir: &str, codec: &str, found: Option<&[u8]>) -> (r: Result<
    Option<Vec<u8>>,
    String,
>)
    ensures
        match found {
            None => r matches Ok(Some(bytes)) && bytes@ == store_stamp(codec@),
            Some(bytes) => match stamp_verdict(bytes@, codec@) {
                None => r == Ok::<Option<Vec<u8>>, String>(None),
                Some(why) => r matches Err(text) && text@ == "grain store at "@ + dir@ + ": "@
                    + why,
            },
        },
{
    match found {
        None => {
            let body = StoreBody { codec: codec.to_owned(), ext: OrdMap::new() };
            assert(body.deep_view().ext =~= Map::<u16, Seq<u8>>::empty());
            let bytes = encode_payload(&body);
            Ok(Some(stamp(magic().as_slice(), STORE_REVISION, bytes.as_slice())))
        },
        Some(bytes) => match judge_stamp(bytes, codec) {
            None => Ok(None),
            Some(why) => {
                let mut text = "grain store at ".to_owned();
                text.append(dir);
                text.append(": ");
                text.append(why.as_str());
                Err(text)
            },
        },
    }
}

/// A directory stamped under a codec opens again under it, and is refused under any
/// other, naming both.
pub proof fn law_a_stamp_admits_its_own_codec(codec: Seq<char>, other: Seq<char>)
    requires
        StoreBody::fits(StoreBodyModel { codec, ext: Map::empty() }),
    ensures
        stamp_verdict(store_stamp(codec), codec) is None,
        other != codec ==> stamp_verdict(store_stamp(codec), other) == Some(
            store_codec_refused(codec, other),
        ),
{
    let body = StoreBodyModel { codec, ext: Map::empty() };
    lemma_stamp("granary.store"@, store_magic(), STORE_REVISION, StoreBody::enc(body));
    lemma_decoded::<StoreBody>(body);
    let keys = sorted_keys::<u16, Seq<u8>>(body.ext);
    assert(keys.len() == 0) by {
        assert(<OrdMap<u16, Vec<u8>> as Wire>::fits(body.ext));
        if keys.len() > 0 {
            assert(keys.to_set().contains(keys[0]));
        }
    }
}

// ---- A promise's file ----

/// A promise's file: the value and its checksum, low byte first.
pub open spec fn promise_file(value: u64, checksum: u64) -> Seq<u8> {
    spec_u64_to_le_bytes(value) + spec_u64_to_le_bytes(checksum)
}

/// What a promise's file says; a torn one says nothing. `checksum`: that of the file's
/// first eight bytes.
pub open spec fn promise_in(bytes: Seq<u8>, checksum: u64) -> Option<u64> {
    if bytes.len() == 16 && spec_u64_from_le_bytes(bytes.subrange(8, 16)) == checksum {
        Some(spec_u64_from_le_bytes(bytes.subrange(0, 8)))
    } else {
        None
    }
}

/// The bytes of a promise's file.
pub fn write_checksummed_u64(value: u64, checksum: u64) -> (r: Vec<u8>)
    ensures
        r@ == promise_file(value, checksum),
{
    let mut out = u64_to_le_bytes(value);
    let mut tail = u64_to_le_bytes(checksum);
    out.append(&mut tail);
    out
}

/// Read a promise's file.
pub fn read_checksummed_u64(bytes: &[u8], checksum: u64) -> (r: Option<u64>)
    ensures
        r == promise_in(bytes@, checksum),
{
    if bytes.len() != 16 {
        return None;
    }
    let raw = u64_from_le_bytes(vstd::slice::slice_subrange(bytes, 0, 8));
    let check = u64_from_le_bytes(vstd::slice::slice_subrange(bytes, 8, 16));
    if check != checksum {
        return None;
    }
    Some(raw)
}

/// A promise that was written is read back, under its checksum and no other.
pub proof fn law_a_promise_reads_back(value: u64, checksum: u64, other: u64)
    ensures
        promise_in(promise_file(value, checksum), checksum) == Some(value),
        promise_file(value, checksum).take(8) == spec_u64_to_le_bytes(value),
        other != checksum ==> promise_in(promise_file(value, checksum), other) is None,
{
    lemma_auto_spec_u64_to_from_le_bytes();
    let file = promise_file(value, checksum);
    assert(file.subrange(0, 8) =~= spec_u64_to_le_bytes(value));
    assert(file.subrange(8, 16) =~= spec_u64_to_le_bytes(checksum));
    assert(file.take(8) =~= spec_u64_to_le_bytes(value));
}

// ---- Names ----

/// The value of a decimal digit.
pub open spec fn digit_value(c: char) -> int {
    c as int - '0' as int
}

pub open spec fn is_digit(c: char) -> bool {
    '0' <= c <= '9'
}

/// The number that a run of digits writes.
pub open spec fn digits_value(text: Seq<char>) -> int
    decreases text.len(),
{
    if text.len() == 0 {
        0
    } else {
        10 * digits_value(text.drop_last()) + digit_value(text.last())
    }
}

pub open spec fn all_digits(text: Seq<char>) -> bool {
    forall|i: int| 0 <= i < text.len() ==> is_digit(#[trigger] text[i])
}

/// The digits of a number's text, behind a plus sign that may stand before them.
pub open spec fn unsigned_part(text: Seq<char>) -> Seq<char> {
    if text.len() > 0 && text[0] == '+' {
        text.skip(1)
    } else {
        text
    }
}

/// The shard a file is named after, if it is named after one.
pub open spec fn shard_named(name: Seq<char>) -> Option<u32> {
    let digits = unsigned_part(name);
    if digits.len() > 0 && all_digits(digits) && digits_value(digits) <= u32::MAX {
        Some(digits_value(digits) as u32)
    } else {
        None
    }
}

proof fn lemma_digits_prefix(text: Seq<char>, n: int)
    requires
        all_digits(text),
        0 <= n <= text.len(),
    ensures
        0 <= digits_value(text.take(n)) <= digits_value(text),
    decreases text.len(),
{
    lemma_digits_nonnegative(text.take(n));
    if n == text.len() {
        assert(text.take(n) =~= text);
    } else {
        assert(text.drop_last().take(n) =~= text.take(n));
        lemma_digits_prefix(text.drop_last(), n);
    }
}

proof fn lemma_digits_nonnegative(text: Seq<char>)
    requires
        all_digits(text),
    ensures
        0 <= digits_value(text),
    decreases text.len(),
{
    if text.len() > 0 {
        lemma_digits_nonnegative(text.drop_last());
    }
}

/// The shard a file is named after.
pub fn parse_shard(name: &str) -> (r: Option<u32>)
    ensures
        r == shard_named(name@),
{
    let chars = chars_of(name);
    let n: usize = chars.len();
    let from: usize = if n > 0 && chars[0] == '+' {
        1
    } else {
        0
    };
    let ghost digits = unsigned_part(name@);
    assert(digits == chars@.skip(from as int)) by {
        assert(chars@.skip(0) =~= chars@);
    }
    if from == n {
        return None;
    }
    let mut value: u32 = 0;
    let mut i: usize = from;
    while i < n
        invariant
            n == chars@.len(),
            from <= i <= n,
            from <= 1,
            digits == chars@.skip(from as int),
            digits == unsigned_part(name@),
            forall|j: int| 0 <= j < i - from ==> is_digit(#[trigger] digits[j]),
            value == digits_value(digits.take(i - from)),
        decreases n - i,
    {
        let c = chars[i];
        let ghost at = i - from;
        assert(digits[at] == c);
        if c < '0' || c > '9' {
            assert(!is_digit(digits[at]));
            return None;
        }
        let d: u32 = c as u32 - 48;
        proof {
            assert(digits.take(at + 1).drop_last() =~= digits.take(at));
            assert(digits.take(at + 1).last() == c);
        }
        if value > (u32::MAX - d) / 10 {
            proof {
                assert(digits_value(digits.take(at + 1)) == 10 * value + d);
                if all_digits(digits) {
                    lemma_digits_prefix(digits, at + 1);
                }
            }
            return None;
        }
        value = value * 10 + d;
        i = i + 1;
    }
    assert(digits.take(i - from) =~= digits);
    Some(value)
}

/// A file is named after one of the blobs in `retain`.
pub open spec fn names_one(name: Seq<char>, retain: Set<Seq<u8>>) -> bool {
    exists|id: Seq<u8>| #[trigger] retain.contains(id) && hex(id) == name
}

fn is_named_by(name: &str, retain: &OrdSet<BlobId>) -> (r: bool)
    requires
        retain.wf(),
    ensures
        r == names_one(name@, retain@),
{
    let n: usize = retain.len();
    let mut i: usize = 0;
    while i < n
        invariant
            retain.wf(),
            n == retain.members().len(),
            i <= n,
            forall|j: int| 0 <= j < i ==> hex(#[trigger] retain.members()[j]) != name@,
        decreases n - i,
    {
        let id = retain.at(i);
        if rank_str(id.to_hex().as_str(), name) == Rank::Same {
            return true;
        }
        i = i + 1;
    }
    proof {
        retain.lemma_members();
        assert forall|id: Seq<u8>| #[trigger] retain@.contains(id) implies hex(id) != name@ by {
            assert(retain.members().to_set().contains(id));
            let j = retain.members().index_of(id);
            assert(retain.members()[j] == id);
        }
    }
    false
}

/// The files of a blob area that a sweep removes: those that no retained blob is named
/// by, as positions in the listing.
pub open spec fn swept_files(names: Seq<Seq<char>>, retain: Set<Seq<u8>>) -> Seq<int>
    decreases names.len(),
{
    if names.len() == 0 {
        seq![]
    } else if names_one(names.last(), retain) {
        swept_files(names.drop_last(), retain)
    } else {
        swept_files(names.drop_last(), retain).push(names.len() - 1)
    }
}

/// The positions of the files that a sweep removes.
pub fn to_sweep(names: &Vec<String>, retain: &OrdSet<BlobId>) -> (r: Vec<usize>)
    requires
        retain.wf(),
    ensures
        r@.map_values(|i: usize| i as int) == swept_files(names.deep_view(), retain@),
{
    let ghost all = names.deep_view();
    let ghost f = |i: usize| i as int;
    let mut out: Vec<usize> = Vec::new();
    let mut i: usize = 0;
    assert(out@.map_values(f) =~= swept_files(all.take(0), retain@));
    while i < names.len()
        invariant
            retain.wf(),
            all == names.deep_view(),
            f == (|i: usize| i as int),
            i <= names@.len(),
            out@.map_values(f) == swept_files(all.take(i as int), retain@),
        decreases names@.len() - i,
    {
        let ghost was = out@;
        assert(all.take(i + 1).drop_last() =~= all.take(i as int));
        assert(all.take(i + 1).last() == names@[i as int]@);
        if !is_named_by(names[i].as_str(), retain) {
            out.push(i);
            assert(out@.map_values(f) =~= was.map_values(f).push(i as int));
        }
        i = i + 1;
    }
    assert(all.take(i as int) =~= all);
    out
}

/// The sum of file sizes.
pub open spec fn sum_of(sizes: Seq<u64>) -> int
    decreases sizes.len(),
{
    if sizes.len() == 0 {
        0
    } else {
        sum_of(sizes.drop_last()) + sizes.last()
    }
}

proof fn lemma_sum_prefix(sizes: Seq<u64>, n: int)
    requires
        0 <= n <= sizes.len(),
    ensures
        0 <= sum_of(sizes.take(n)) <= sum_of(sizes),
    decreases sizes.len(),
{
    if n == sizes.len() {
        assert(sizes.take(n) =~= sizes);
        if n > 0 {
            lemma_sum_prefix(sizes.drop_last(), n - 1);
        }
    } else {
        assert(sizes.drop_last().take(n) =~= sizes.take(n));
        lemma_sum_prefix(sizes.drop_last(), n);
    }
}

/// A shard's durable footprint, from the sizes of its files.
pub fn shard_bytes(sizes: &Vec<u64>) -> (r: u64)
    requires
        sum_of(sizes@) <= u64::MAX,
    ensures
        r == sum_of(sizes@),
{
    let mut total: u64 = 0;
    let mut i: usize = 0;
    while i < sizes.len()
        invariant
            i <= sizes@.len(),
            sum_of(sizes@) <= u64::MAX,
            total == sum_of(sizes@.take(i as int)),
        decreases sizes@.len() - i,
    {
        proof {
            lemma_sum_prefix(sizes@, i + 1);
            assert(sizes@.take(i + 1).drop_last() =~= sizes@.take(i as int));
        }
        total = total + sizes[i];
        i = i + 1;
    }
    assert(sizes@.take(i as int) =~= sizes@);
    total
}

/// A sweep removes the files that no retained blob is named by, each once, and leaves the
/// rest.
pub proof fn law_a_sweep_removes_what_is_not_retained(
    names: Seq<Seq<char>>,
    retain: Set<Seq<u8>>,
    i: int,
)
    requires
        0 <= i < names.len(),
    ensures
        swept_files(names, retain).contains(i) <==> forall|id: Seq<u8>| #[trigger]
            retain.contains(id) ==> hex(id) != names[i],
        swept_files(names, retain).no_duplicates(),
{
    lemma_swept(names, retain);
}

proof fn lemma_swept(names: Seq<Seq<char>>, retain: Set<Seq<u8>>)
    ensures
        swept_files(names, retain).no_duplicates(),
        forall|i: int| #[trigger]
            swept_files(names, retain).contains(i) <==> 0 <= i < names.len() && !names_one(
                names[i],
                retain,
            ),
    decreases names.len(),
{
    let all = swept_files(names, retain);
    if names.len() > 0 {
        let front = names.drop_last();
        let before = swept_files(front, retain);
        let last = names.len() - 1;
        lemma_swept(front, retain);
        assert(!before.contains(last));
        assert forall|i: int| #[trigger] all.contains(i) <==> 0 <= i < names.len() && !names_one(
            names[i],
            retain,
        ) by {
            assert(before.contains(i) <==> 0 <= i < front.len() && !names_one(front[i], retain));
            if !names_one(names.last(), retain) {
                assert(all == before.push(last));
                if before.contains(i) {
                    let k = before.index_of(i);
                    assert(all[k] == i);
                }
                if i == last {
                    assert(all[before.len() as int] == i);
                }
                if all.contains(i) {
                    let k = all.index_of(i);
                    if k < before.len() {
                        assert(before[k] == i);
                    }
                }
            }
        }
        if !names_one(names.last(), retain) {
            assert forall|a: int, b: int| 0 <= a < b < all.len() implies all[a] != all[b] by {
                if b == before.len() {
                    assert(before.contains(before[a]));
                }
            }
        }
    }
}

/// A footprint is the sum of the sizes: every file counts, once.
pub proof fn law_every_file_counts_once(sizes: Seq<u64>, size: u64)
    ensures
        sum_of(seq![]) == 0,
        sum_of(sizes.push(size)) == sum_of(sizes) + size,
{
    assert(sizes.push(size).drop_last() =~= sizes);
}

/// A file is named after a shard if it is the shard's number in decimal, and a promise is
/// filed under that name.
pub proof fn law_a_shards_name_is_its_number(shard: u32)
    ensures
        shard_named(decimal(shard as nat)) == Some(shard),
{
    let text = decimal(shard as nat);
    lemma_decimal_value(shard as nat);
    assert(is_digit(text[0]));
    assert(unsigned_part(text) == text);
}

proof fn lemma_decimal_value(n: nat)
    ensures
        decimal(n).len() > 0,
        all_digits(decimal(n)),
        digits_value(decimal(n)) == n,
    decreases n,
{
    let text = decimal(n);
    if n < 10 {
        assert(text.drop_last() =~= Seq::<char>::empty());
        assert(digits_value(text.drop_last()) == 0);
    } else {
        lemma_decimal_value(n / 10);
        assert(text.drop_last() =~= decimal(n / 10));
        assert forall|i: int| 0 <= i < text.len() implies is_digit(#[trigger] text[i]) by {
            if i < text.len() - 1 {
                assert(decimal(n / 10)[i] == text[i]);
            }
        }
    }
}

/// A file that is not sixteen bytes long, or whose second half is not the checksum, says
/// nothing; else it says what its first half holds, low byte first.
pub proof fn law_a_torn_promise_says_nothing(bytes: Seq<u8>, checksum: u64)
    ensures
        bytes.len() != 16 ==> promise_in(bytes, checksum) is None,
        bytes.len() == 16 && bytes.skip(8) != spec_u64_to_le_bytes(checksum) ==> promise_in(
            bytes,
            checksum,
        ) is None,
        promise_in(bytes, checksum) matches Some(value) ==> bytes == spec_u64_to_le_bytes(value)
            + spec_u64_to_le_bytes(checksum),
{
    lemma_auto_spec_u64_to_from_le_bytes();
    if bytes.len() == 16 {
        assert(bytes.subrange(8, 16) =~= bytes.skip(8));
        assert(bytes =~= bytes.subrange(0, 8) + bytes.subrange(8, 16));
    }
}

/// A directory is admitted only if its stamp is whole, names no critical extension, and was
/// written under the codec that the node runs.
pub proof fn law_only_a_stamp_of_the_same_codec_is_admitted(bytes: Seq<u8>, codec: Seq<char>)
    requires
        stamp_verdict(bytes, codec) is None,
    ensures
        exists|body: StoreBodyModel| #[trigger] stamps_body(bytes, body) && body.codec == codec,
{
    let raw = read_stamp("granary.store"@, store_magic(), STORE_REVISION, bytes)->Ok_0;
    let body = payload_of::<StoreBody>("stamp body did not decode"@, raw)->Ok_0;
    assert(stamps_body(bytes, body));
}

/// Some bytes are a store's stamp and the encoding of a body without a critical extension.
pub open spec fn stamps_body(bytes: Seq<u8>, body: StoreBodyModel) -> bool {
    &&& read_stamp("granary.store"@, store_magic(), STORE_REVISION, bytes) matches Ok(raw)
        && payload_of::<StoreBody>("stamp body did not decode"@, raw) == Ok::<
        StoreBodyModel,
        Seq<char>,
    >(body)
    &&& unknown_critical(sorted_keys::<u16, Seq<u8>>(body.ext), seq![]) is None
}

/// A store's stamp begins with its magic and its revision, low byte first; and the refusal
/// of another codec's names both.
pub proof fn law_a_stamp_says_what_it_is(codec: Seq<char>, runs: Seq<char>)
    ensures
        store_stamp(codec).take(8) == seq![
            0x47u8,
            0x52u8,
            0x53u8,
            0x54u8,
            0x4fu8,
            0x52u8,
            1u8,
            0u8,
        ],
        shows(store_codec_refused(codec, runs), codec),
        shows(store_codec_refused(codec, runs), runs),
{
    assert(store_stamp(codec).take(8) =~= seq![
        0x47u8,
        0x52u8,
        0x53u8,
        0x54u8,
        0x4fu8,
        0x52u8,
        1u8,
        0u8,
    ]);
    let a = "written with codec '"@;
    let b = "', but this node runs '"@;
    let text = store_codec_refused(codec, runs);
    let head = a + codec + b + runs;
    let rest = text.skip(head.len() as int);
    assert(text =~= head + rest);
    assert(text =~= a + codec + (b + runs + rest));
    assert(text =~= (a + codec + b) + runs + rest);
}

/// A file that is named after a shard is digits throughout, but for a plus sign that may
/// stand first.
pub proof fn law_a_shards_name_is_digits(name: Seq<char>, i: int)
    requires
        shard_named(name) is Some,
        0 <= i < name.len(),
    ensures
        '0' <= name[i] <= '9' || i == 0 && name[0] == '+',
{
    let digits = unsigned_part(name);
    if name[0] == '+' {
        if i > 0 {
            assert(is_digit(digits[i - 1]));
        }
    } else {
        assert(is_digit(digits[i]));
    }
}

/// A store's stamp holds the codec and the extensions.
pub proof fn law_stamps_are_laid_out(m: StoreBodyModel)
    ensures
        StoreBody::enc(m) == String::enc(m.codec) + <OrdMap<u16, Vec<u8>> as Wire>::enc(m.ext),
{
}

} // verus!

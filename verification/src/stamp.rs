//! Stamps on durable bytes: a magic, a revision, and room to grow.
//!
//! A stamped body is read only after its magic and its revision have been
//! recognized, so bytes from another format or another revision are refused
//! instead of misread. An extension area carries additions without a new revision:
//! a reader skips entries it does not know, unless the writer marked them critical.
use vstd::prelude::*;
use vstd::string::*;

use crate::text::decimal;
use crate::text::push_decimal;
use crate::text::push_hex;
use crate::text::shows;

verus! {

/// The bit of an extension key that marks its entry as one a reader must know.
pub const CRITICAL: u16 = 0x8000;

/// The refusal of a revision that this build does not read.
pub open spec fn revision_refused(boundary: Seq<char>, found: u16, reads: u16) -> Seq<char> {
    boundary + ": revision v"@ + decimal(found as nat) + " is outside this build's window (v"@
        + decimal(reads as nat) + ")"@
}

/// The refusal of bytes that carry no stamp.
pub open spec fn unstamped(boundary: Seq<char>) -> Seq<char> {
    boundary + ": the bytes carry no stamp of this format"@
}

/// A key in hex, as refusals show it.
pub open spec fn key_text(key: u16) -> Seq<char> {
    "0x"@ + crate::text::hex(seq![(key / 256) as u8, (key % 256) as u8])
}

/// The refusal of a critical extension that this build does not know.
pub open spec fn critical_refused(boundary: Seq<char>, key: u16) -> Seq<char> {
    boundary + ": critical extension "@ + key_text(key) + " is unknown to this build"@
}

pub fn refuse_revision(boundary: &str, found: u16, reads: u16) -> (r: String)
    ensures
        r@ == revision_refused(boundary@, found, reads),
{
    let mut out = boundary.to_owned();
    out.append(": revision v");
    push_decimal(&mut out, found as u64);
    out.append(" is outside this build's window (v");
    push_decimal(&mut out, reads as u64);
    out.append(")");
    out
}

pub fn refuse_unstamped(boundary: &str) -> (r: String)
    ensures
        r@ == unstamped(boundary@),
{
    let mut out = boundary.to_owned();
    out.append(": the bytes carry no stamp of this format");
    out
}

pub fn refuse_critical(boundary: &str, key: u16) -> (r: String)
    ensures
        r@ == critical_refused(boundary@, key),
{
    let mut out = boundary.to_owned();
    out.append(": critical extension ");
    let ghost before = out@;
    out.append("0x");
    let mut bytes: Vec<u8> = Vec::new();
    bytes.push((key / 256) as u8);
    bytes.push((key % 256) as u8);
    push_hex(&mut out, bytes.as_slice());
    assert(bytes@ =~= seq![(key / 256) as u8, (key % 256) as u8]);
    assert(out@ =~= before + key_text(key));
    out.append(" is unknown to this build");
    out
}

/// A stamp: six bytes of magic and the revision, low byte first.
pub open spec fn stamped(magic: Seq<u8>, revision: u16, body: Seq<u8>) -> Seq<u8> {
    magic + seq![(revision % 256) as u8, (revision / 256) as u8] + body
}

/// What reading a stamp gives: the body, or the refusal's text.
pub open spec fn read_stamp(
    boundary: Seq<char>,
    magic: Seq<u8>,
    reads: u16,
    bytes: Seq<u8>,
) -> Result<Seq<u8>, Seq<char>> {
    let n = magic.len() as int;
    if bytes.len() < n + 2 || bytes.take(n) != magic {
        Err(unstamped(boundary))
    } else {
        let found = (bytes[n] + 256 * bytes[n + 1]) as u16;
        if found == reads {
            Ok(bytes.skip(n + 2))
        } else {
            Err(revision_refused(boundary, found, reads))
        }
    }
}

/// A stamped body reads back.
pub proof fn lemma_stamp(boundary: Seq<char>, magic: Seq<u8>, revision: u16, body: Seq<u8>)
    ensures
        read_stamp(boundary, magic, revision, stamped(magic, revision, body)) == Ok::<
            Seq<u8>,
            Seq<char>,
        >(body),
{
    let b = stamped(magic, revision, body);
    let n = magic.len() as int;
    assert(b.take(n) =~= magic);
    assert(b[n] == (revision % 256) as u8);
    assert(b[n + 1] == (revision / 256) as u8);
    assert(b.skip(n + 2) =~= body);
}

/// Put a stamp in front of a body.
pub fn stamp(magic: &[u8], revision: u16, body: &[u8]) -> (r: Vec<u8>)
    ensures
        r@ == stamped(magic@, revision, body@),
{
    let mut out = vstd::slice::slice_to_vec(magic);
    out.push((revision % 256) as u8);
    out.push((revision / 256) as u8);
    let ghost head = out@;
    let mut i: usize = 0;
    assert(head + body@.take(0) =~= head);
    while i < body.len()
        invariant
            i <= body@.len(),
            out@ == head + body@.take(i as int),
        decreases body@.len() - i,
    {
        out.push(body[i]);
        i = i + 1;
        assert(out@ =~= head + body@.take(i as int));
    }
    assert(body@.take(i as int) =~= body@);
    assert(out@ =~= stamped(magic@, revision, body@));
    out
}

/// Recognize a stamp and hand out what it wraps.
pub fn unstamp<'a>(boundary: &str, magic: &[u8], reads: u16, bytes: &'a [u8]) -> (r: Result<
    &'a [u8],
    String,
>)
    requires
        magic@.len() <= 64,
    ensures
        match r {
            Ok(body) => read_stamp(boundary@, magic@, reads, bytes@) == Ok::<Seq<u8>, Seq<char>>(
                body@,
            ),
            Err(text) => read_stamp(boundary@, magic@, reads, bytes@) == Err::<Seq<u8>, Seq<char>>(
                text@,
            ),
        },
{
    let n: usize = magic.len();
    if bytes.len() < n + 2 {
        return Err(refuse_unstamped(boundary));
    }
    let mut i: usize = 0;
    while i < n
        invariant
            i <= n,
            n == magic@.len(),
            n + 2 <= bytes@.len(),
            forall|j: int| 0 <= j < i ==> bytes@[j] == magic@[j],
        decreases n - i,
    {
        if bytes[i] != magic[i] {
            assert(bytes@.take(n as int) != magic@) by {
                assert(bytes@.take(n as int)[i as int] != magic@[i as int]);
            }
            return Err(refuse_unstamped(boundary));
        }
        i = i + 1;
    }
    assert(bytes@.take(n as int) =~= magic@);
    let found: u16 = bytes[n] as u16 + 256 * (bytes[n + 1] as u16);
    if found == reads {
        let body = vstd::slice::slice_subrange(bytes, n + 2, bytes.len());
        assert(body@ =~= bytes@.skip(n + 2));
        Ok(body)
    } else {
        Err(refuse_revision(boundary, found, reads))
    }
}

/// Bytes are read as a body exactly if they are its stamp and the body behind it: the
/// magic, and the revision that is read, low byte first.
pub proof fn law_only_a_stamped_body_is_read(
    boundary: Seq<char>,
    magic: Seq<u8>,
    reads: u16,
    bytes: Seq<u8>,
    body: Seq<u8>,
)
    ensures
        read_stamp(boundary, magic, reads, bytes) == Ok::<Seq<u8>, Seq<char>>(body) <==> bytes
            == magic + seq![(reads % 256) as u8, (reads / 256) as u8] + body,
{
    let n = magic.len() as int;
    let whole = magic + seq![(reads % 256) as u8, (reads / 256) as u8] + body;
    if bytes == whole {
        assert(bytes.take(n) =~= magic);
        assert(bytes.skip(n + 2) =~= body);
        assert(bytes[n] == (reads % 256) as u8);
        assert(bytes[n + 1] == (reads / 256) as u8);
    }
    if read_stamp(boundary, magic, reads, bytes) == Ok::<Seq<u8>, Seq<char>>(body) {
        assert(bytes.take(n) == magic);
        assert(bytes =~= whole) by {
            assert forall|i: int| 0 <= i < bytes.len() implies bytes[i] == whole[i] by {
                if i < n {
                    assert(bytes.take(n)[i] == bytes[i]);
                } else if i >= n + 2 {
                    assert(bytes.skip(n + 2)[i - n - 2] == bytes[i]);
                }
            }
        }
    }
}

/// A refusal names the format it is about, and the revision or the key that it refuses.
pub proof fn law_refusals_name_what_they_refuse(
    boundary: Seq<char>,
    found: u16,
    reads: u16,
    key: u16,
)
    ensures
        shows(revision_refused(boundary, found, reads), boundary),
        shows(revision_refused(boundary, found, reads), "v"@ + decimal(found as nat)),
        shows(revision_refused(boundary, found, reads), "v"@ + decimal(reads as nat)),
        shows(critical_refused(boundary, key), boundary),
        shows(critical_refused(boundary, key), "0x"@ + crate::text::hex(
            seq![(key / 256) as u8, (key % 256) as u8],
        )),
        shows(unstamped(boundary), boundary),
{
    let none = Seq::<char>::empty();
    reveal_strlit(": revision v");
    reveal_strlit(" is outside this build's window (v");
    reveal_strlit("v");
    let (a, b, c) = (": revision v"@, " is outside this build's window (v"@, ")"@);
    let text = revision_refused(boundary, found, reads);
    let (f, r) = (decimal(found as nat), decimal(reads as nat));
    assert(text =~= none + boundary + (a + f + b + r + c));
    assert(text =~= (boundary + a.drop_last()) + ("v"@ + f) + (b + r + c));
    assert(text =~= (boundary + a + f + b.drop_last()) + ("v"@ + r) + c);
    let (d, e) = (": critical extension "@, " is unknown to this build"@);
    let refused = critical_refused(boundary, key);
    assert(refused =~= none + boundary + (d + key_text(key) + e));
    assert(refused =~= (boundary + d) + key_text(key) + e);
    assert(unstamped(boundary) =~= none + boundary
        + ": the bytes carry no stamp of this format"@);
}

} // verus!

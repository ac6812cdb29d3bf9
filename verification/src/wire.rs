//! The encoding of facet records and snapshots.
//!
//! Payloads are `postcard` encodings: a struct is its fields in order, an enum is
//! the index of its variant and then that variant's fields, a sequence is its
//! length and then its items. Integers, strings and byte strings go through
//! `postcard` itself; how they are put together is stated and proved here.
use vstd::prelude::*;
use vstd::utf8::*;

use crate::key::OrdKey;
use crate::ordmap::ascending;
use crate::ordmap::lemma_ascending_distinct;
use crate::ordmap::lemma_ascending_unique;
use crate::ordmap::OrdMap;

verus! {

/// Why bytes did not decode.
#[derive(Clone, Copy, Debug, PartialEq, Eq, Structural)]
pub enum WireError {
    /// The bytes ended inside a value.
    UnexpectedEnd,
    /// An integer ran past its type's width.
    BadVarint,
    /// A truth value that is neither 0 nor 1.
    BadBool,
    /// A string that is not UTF-8.
    BadUtf8,
    /// An option tag that is neither 0 nor 1.
    BadOption,
    /// A value of the right shape that the type does not have.
    BadValue,
}

/// What a decoder makes of some bytes: a value and the bytes after it.
pub type Decoded<M> = Result<(M, Seq<u8>), WireError>;

/// The text of an error.
pub open spec fn error_text(e: WireError) -> Seq<char> {
    match e {
        WireError::UnexpectedEnd => "Hit the end of buffer, expected more data"@,
        WireError::BadVarint =>
            "Found a varint that didn't terminate. Is the usize too big for this platform?"@,
        WireError::BadBool => "Found a bool that wasn't 0 or 1"@,
        WireError::BadUtf8 => "Tried to parse invalid utf-8"@,
        WireError::BadOption => "Found an Option discriminant that wasn't 0 or 1"@,
        WireError::BadValue => "Serde Deserialization Error"@,
    }
}

/// The `Display` text of the `postcard::Error` variant that an error stands for,
/// written out in [`error_text`].
#[verifier::external_body]
pub(crate) fn describe(e: WireError) -> (r: String)
    ensures
        r@ == error_text(e),
{
    let outside = match e {
        WireError::UnexpectedEnd => postcard::Error::DeserializeUnexpectedEnd,
        WireError::BadVarint => postcard::Error::DeserializeBadVarint,
        WireError::BadBool => postcard::Error::DeserializeBadBool,
        WireError::BadUtf8 => postcard::Error::DeserializeBadUtf8,
        WireError::BadOption => postcard::Error::DeserializeBadOption,
        WireError::BadValue => postcard::Error::SerdeDeCustom,
    };
    outside.to_string()
}

/// An unsigned integer in groups of seven bits, least significant first, the top
/// bit of each byte saying that more follow.
pub open spec fn varint(n: nat) -> Seq<u8>
    decreases n,
{
    if n < 128 {
        seq![n as u8]
    } else {
        seq![(n % 128 + 128) as u8] + varint(n / 128)
    }
}

/// Read such an integer of at most `width` bytes, the `width`-th at most `last`.
pub open spec fn read_varint(b: Seq<u8>, width: nat, last: u8) -> Decoded<nat>
    decreases width,
{
    if width == 0 {
        Err(WireError::BadVarint)
    } else if b.len() == 0 {
        Err(WireError::UnexpectedEnd)
    } else if b[0] < 128 {
        if width == 1 && b[0] > last {
            Err(WireError::BadVarint)
        } else {
            Ok((b[0] as nat, b.skip(1)))
        }
    } else {
        match read_varint(b.skip(1), (width - 1) as nat, last) {
            Ok((v, rest)) => Ok(((b[0] - 128) as nat + 128 * v, rest)),
            Err(e) => Err(e),
        }
    }
}

pub open spec fn read_u64(b: Seq<u8>) -> Decoded<nat> {
    read_varint(b, 10, 1)
}

pub open spec fn read_u32(b: Seq<u8>) -> Decoded<nat> {
    read_varint(b, 5, 15)
}

pub open spec fn read_u16(b: Seq<u8>) -> Decoded<nat> {
    read_varint(b, 3, 3)
}

/// A length: an integer as wide as the machine's addresses.
pub open spec fn read_len(b: Seq<u8>) -> Decoded<nat> {
    if usize::MAX > u32::MAX {
        read_u64(b)
    } else {
        read_u32(b)
    }
}

/// A length and that many bytes.
pub open spec fn read_bytes(b: Seq<u8>) -> Decoded<Seq<u8>> {
    match read_len(b) {
        Err(e) => Err(e),
        Ok((n, rest)) => if rest.len() < n {
            Err(WireError::UnexpectedEnd)
        } else {
            Ok((rest.take(n as int), rest.skip(n as int)))
        },
    }
}

/// A length and that many bytes of UTF-8.
pub open spec fn read_string(b: Seq<u8>) -> Decoded<Seq<char>> {
    match read_bytes(b) {
        Err(e) => Err(e),
        Ok((s, rest)) => if valid_utf8(s) {
            Ok((decode_utf8(s), rest))
        } else {
            Err(WireError::BadUtf8)
        },
    }
}

pub open spec fn bytes_wire(s: Seq<u8>) -> Seq<u8> {
    varint(s.len()) + s
}

pub open spec fn string_wire(s: Seq<char>) -> Seq<u8> {
    bytes_wire(encode_utf8(s))
}

/// The largest integer that `width` bytes can carry, plus one.
pub open spec fn varint_limit(width: nat, last: u8) -> nat
    decreases width,
{
    if width <= 1 {
        (last + 1) as nat
    } else {
        128 * varint_limit((width - 1) as nat, last)
    }
}

/// Reading back a written integer that fits gives it, and what followed it.
pub proof fn lemma_varint(n: nat, width: nat, last: u8, rest: Seq<u8>)
    requires
        width >= 1,
        last < 128,
        n < varint_limit(width, last),
    ensures
        read_varint(varint(n) + rest, width, last) == Ok::<(nat, Seq<u8>), WireError>((n, rest)),
    decreases n,
{
    let b = varint(n) + rest;
    if n < 128 {
        assert(b.skip(1) =~= rest);
        assert(b[0] == n as u8);
    } else {
        assert(width > 1);
        assert(b.skip(1) =~= varint(n / 128) + rest);
        assert(b[0] == (n % 128 + 128) as u8);
        lemma_varint(n / 128, (width - 1) as nat, last, rest);
    }
}

pub proof fn lemma_limits()
    ensures
        varint_limit(10, 1) == 0x1_0000_0000_0000_0000,
        varint_limit(5, 15) == 0x1_0000_0000,
        varint_limit(3, 3) == 0x1_0000,
{
    reveal_with_fuel(varint_limit, 10);
}

/// `postcard::to_allocvec` of a `u64`: the integer's [`varint`].
#[verifier::external_body]
fn encode_u64(n: u64) -> (r: Vec<u8>)
    ensures
        r@ == varint(n as nat),
{
    postcard::to_allocvec(&n).expect("an integer always encodes")
}

/// `postcard::to_allocvec` of a `str`: the length of its UTF-8 and the UTF-8.
#[verifier::external_body]
fn encode_str(s: &str) -> (r: Vec<u8>)
    ensures
        r@ == string_wire(s@),
{
    postcard::to_allocvec(s).expect("a string always encodes")
}

/// `postcard::to_allocvec` of a byte slice: its length and its bytes.
#[verifier::external_body]
fn encode_bytes(s: &[u8]) -> (r: Vec<u8>)
    ensures
        r@ == bytes_wire(s@),
{
    postcard::to_allocvec(s).expect("a byte string always encodes")
}

/// `postcard::take_from_bytes` of a `u64`: what [`read_u64`] says, and no other
/// failure than the two it names.
#[verifier::external_body]
fn decode_u64(b: &[u8]) -> (r: Result<(u64, &[u8]), WireError>)
    ensures
        match r {
            Ok((n, rest)) => read_u64(b@) == Ok::<(nat, Seq<u8>), WireError>((n as nat, rest@)),
            Err(e) => read_u64(b@) == Err::<(nat, Seq<u8>), WireError>(e),
        },
{
    match postcard::take_from_bytes::<u64>(b) {
        Ok(taken) => Ok(taken),
        Err(postcard::Error::DeserializeUnexpectedEnd) => Err(WireError::UnexpectedEnd),
        Err(_) => Err(WireError::BadVarint),
    }
}

/// `postcard::take_from_bytes` of a `u32`: what [`read_u32`] says, and no other
/// failure than the two it names.
#[verifier::external_body]
fn decode_u32(b: &[u8]) -> (r: Result<(u32, &[u8]), WireError>)
    ensures
        match r {
            Ok((n, rest)) => read_u32(b@) == Ok::<(nat, Seq<u8>), WireError>((n as nat, rest@)),
            Err(e) => read_u32(b@) == Err::<(nat, Seq<u8>), WireError>(e),
        },
{
    match postcard::take_from_bytes::<u32>(b) {
        Ok(taken) => Ok(taken),
        Err(postcard::Error::DeserializeUnexpectedEnd) => Err(WireError::UnexpectedEnd),
        Err(_) => Err(WireError::BadVarint),
    }
}

/// `postcard::take_from_bytes` of a `u16`: what [`read_u16`] says, and no other
/// failure than the two it names.
#[verifier::external_body]
fn decode_u16(b: &[u8]) -> (r: Result<(u16, &[u8]), WireError>)
    ensures
        match r {
            Ok((n, rest)) => read_u16(b@) == Ok::<(nat, Seq<u8>), WireError>((n as nat, rest@)),
            Err(e) => read_u16(b@) == Err::<(nat, Seq<u8>), WireError>(e),
        },
{
    match postcard::take_from_bytes::<u16>(b) {
        Ok(taken) => Ok(taken),
        Err(postcard::Error::DeserializeUnexpectedEnd) => Err(WireError::UnexpectedEnd),
        Err(_) => Err(WireError::BadVarint),
    }
}

/// `postcard::take_from_bytes` of a byte vector: what [`read_bytes`] says.
#[verifier::external_body]
fn decode_bytes(b: &[u8]) -> (r: Result<(Vec<u8>, &[u8]), WireError>)
    ensures
        match r {
            Ok((s, rest)) => read_bytes(b@) == Ok::<(Seq<u8>, Seq<u8>), WireError>((s@, rest@)),
            Err(e) => read_bytes(b@) == Err::<(Seq<u8>, Seq<u8>), WireError>(e),
        },
{
    match postcard::take_from_bytes::<Vec<u8>>(b) {
        Ok(taken) => Ok(taken),
        Err(postcard::Error::DeserializeUnexpectedEnd) => Err(WireError::UnexpectedEnd),
        Err(_) => Err(WireError::BadVarint),
    }
}

/// `postcard::take_from_bytes` of a `String`: what [`read_string`] says.
#[verifier::external_body]
fn decode_string(b: &[u8]) -> (r: Result<(String, &[u8]), WireError>)
    ensures
        match r {
            Ok((s, rest)) => read_string(b@) == Ok::<(Seq<char>, Seq<u8>), WireError>((s@, rest@)),
            Err(e) => read_string(b@) == Err::<(Seq<char>, Seq<u8>), WireError>(e),
        },
{
    match postcard::take_from_bytes::<String>(b) {
        Ok(taken) => Ok(taken),
        Err(postcard::Error::DeserializeUnexpectedEnd) => Err(WireError::UnexpectedEnd),
        Err(postcard::Error::DeserializeBadUtf8) => Err(WireError::BadUtf8),
        Err(_) => Err(WireError::BadVarint),
    }
}

/// A type with an encoding.
pub trait Wire: Sized + DeepView {
    /// What the value's own invariant asks, if it has one.
    spec fn wire_inv(&self) -> bool;

    /// Every length inside the value fits the machine.
    spec fn fits(m: Self::V) -> bool;

    spec fn enc(m: Self::V) -> Seq<u8>;

    spec fn dec(b: Seq<u8>) -> Decoded<Self::V>;

    /// Decoding gives back what was encoded, whatever bytes come after it.
    proof fn round_trip(m: Self::V, rest: Seq<u8>)
        requires
            Self::fits(m),
        ensures
            Self::dec(Self::enc(m) + rest) == Ok::<(Self::V, Seq<u8>), WireError>((m, rest)),
    ;

    fn put(&self, out: &mut Vec<u8>)
        requires
            self.wire_inv(),
        ensures
            final(out)@ == old(out)@ + Self::enc(self.deep_view()),
    ;

    fn take<'a>(b: &'a [u8]) -> (r: Result<(Self, &'a [u8]), WireError>)
        ensures
            match r {
                Ok((v, rest)) => v.wire_inv() && Self::dec(b@) == Ok::<
                    (Self::V, Seq<u8>),
                    WireError,
                >((v.deep_view(), rest@)),
                Err(e) => Self::dec(b@) == Err::<(Self::V, Seq<u8>), WireError>(e),
            },
    ;
}

/// What decoding the whole of `b` as one value gives; bytes after it are ignored.
pub open spec fn decoded<T: Wire>(b: Seq<u8>) -> Result<T::V, WireError> {
    match T::dec(b) {
        Ok((m, _)) => Ok(m),
        Err(e) => Err(e),
    }
}

/// Encode one value.
pub fn to_bytes<T: Wire>(value: &T) -> (r: Vec<u8>)
    requires
        value.wire_inv(),
    ensures
        r@ == T::enc(value.deep_view()),
{
    let mut out: Vec<u8> = Vec::new();
    value.put(&mut out);
    assert(out@ =~= T::enc(value.deep_view()));
    out
}

/// Decode one value; bytes after it are ignored.
pub fn from_bytes<T: Wire>(b: &[u8]) -> (r: Result<T, WireError>)
    ensures
        match r {
            Ok(v) => v.wire_inv() && decoded::<T>(b@) == Ok::<T::V, WireError>(v.deep_view()),
            Err(e) => decoded::<T>(b@) == Err::<T::V, WireError>(e),
        },
{
    match T::take(b) {
        Ok((v, _)) => Ok(v),
        Err(e) => Err(e),
    }
}

/// A value survives its encoding.
pub proof fn lemma_decoded<T: Wire>(m: T::V)
    requires
        T::fits(m),
    ensures
        decoded::<T>(T::enc(m)) == Ok::<T::V, WireError>(m),
{
    T::round_trip(m, seq![]);
    assert(T::enc(m) + seq![] =~= T::enc(m));
}

impl Wire for u64 {
    open spec fn wire_inv(&self) -> bool {
        true
    }

    open spec fn fits(m: u64) -> bool {
        true
    }

    open spec fn enc(m: u64) -> Seq<u8> {
        varint(m as nat)
    }

    open spec fn dec(b: Seq<u8>) -> Decoded<u64> {
        match read_u64(b) {
            Ok((n, rest)) => Ok((n as u64, rest)),
            Err(e) => Err(e),
        }
    }

    proof fn round_trip(m: u64, rest: Seq<u8>) {
        lemma_limits();
        lemma_varint(m as nat, 10, 1, rest);
    }

    fn put(&self, out: &mut Vec<u8>) {
        let mut b = encode_u64(*self);
        out.append(&mut b);
    }

    fn take<'a>(b: &'a [u8]) -> (r: Result<(u64, &'a [u8]), WireError>) {
        decode_u64(b)
    }
}

impl Wire for u32 {
    open spec fn wire_inv(&self) -> bool {
        true
    }

    open spec fn fits(m: u32) -> bool {
        true
    }

    open spec fn enc(m: u32) -> Seq<u8> {
        varint(m as nat)
    }

    open spec fn dec(b: Seq<u8>) -> Decoded<u32> {
        match read_u32(b) {
            Ok((n, rest)) => Ok((n as u32, rest)),
            Err(e) => Err(e),
        }
    }

    proof fn round_trip(m: u32, rest: Seq<u8>) {
        lemma_limits();
        lemma_varint(m as nat, 5, 15, rest);
    }

    fn put(&self, out: &mut Vec<u8>) {
        let mut b = encode_u64(*self as u64);
        out.append(&mut b);
    }

    fn take<'a>(b: &'a [u8]) -> (r: Result<(u32, &'a [u8]), WireError>) {
        decode_u32(b)
    }
}

impl Wire for u16 {
    open spec fn wire_inv(&self) -> bool {
        true
    }

    open spec fn fits(m: u16) -> bool {
        true
    }

    open spec fn enc(m: u16) -> Seq<u8> {
        varint(m as nat)
    }

    open spec fn dec(b: Seq<u8>) -> Decoded<u16> {
        match read_u16(b) {
            Ok((n, rest)) => Ok((n as u16, rest)),
            Err(e) => Err(e),
        }
    }

    proof fn round_trip(m: u16, rest: Seq<u8>) {
        lemma_limits();
        lemma_varint(m as nat, 3, 3, rest);
    }

    fn put(&self, out: &mut Vec<u8>) {
        let mut b = encode_u64(*self as u64);
        out.append(&mut b);
    }

    fn take<'a>(b: &'a [u8]) -> (r: Result<(u16, &'a [u8]), WireError>) {
        decode_u16(b)
    }
}

impl Wire for u8 {
    open spec fn wire_inv(&self) -> bool {
        true
    }

    open spec fn fits(m: u8) -> bool {
        true
    }

    open spec fn enc(m: u8) -> Seq<u8> {
        seq![m]
    }

    open spec fn dec(b: Seq<u8>) -> Decoded<u8> {
        if b.len() == 0 {
            Err(WireError::UnexpectedEnd)
        } else {
            Ok((b[0], b.skip(1)))
        }
    }

    proof fn round_trip(m: u8, rest: Seq<u8>) {
        assert((seq![m] + rest).skip(1) =~= rest);
    }

    fn put(&self, out: &mut Vec<u8>) {
        let ghost before = out@;
        out.push(*self);
        assert(out@ =~= before + seq![*self]);
    }

    fn take<'a>(b: &'a [u8]) -> (r: Result<(u8, &'a [u8]), WireError>) {
        if b.len() == 0 {
            Err(WireError::UnexpectedEnd)
        } else {
            Ok((b[0], after_first(b)))
        }
    }
}

/// A length that fits reads back.
proof fn lemma_len(n: nat, rest: Seq<u8>)
    requires
        n <= usize::MAX,
    ensures
        read_len(varint(n) + rest) == Ok::<(nat, Seq<u8>), WireError>((n, rest)),
{
    lemma_limits();
    if usize::MAX > u32::MAX {
        lemma_varint(n, 10, 1, rest);
    } else {
        lemma_varint(n, 5, 15, rest);
    }
}

proof fn lemma_bytes(s: Seq<u8>, rest: Seq<u8>)
    requires
        s.len() <= usize::MAX,
    ensures
        read_bytes(bytes_wire(s) + rest) == Ok::<(Seq<u8>, Seq<u8>), WireError>((s, rest)),
{
    assert(bytes_wire(s) + rest =~= varint(s.len()) + (s + rest));
    lemma_len(s.len(), s + rest);
    assert((s + rest).take(s.len() as int) =~= s);
    assert((s + rest).skip(s.len() as int) =~= rest);
}

/// Read a length.
fn take_len<'a>(b: &'a [u8]) -> (r: Result<(usize, &'a [u8]), WireError>)
    ensures
        match r {
            Ok((n, rest)) => read_len(b@) == Ok::<(nat, Seq<u8>), WireError>((n as nat, rest@)),
            Err(e) => read_len(b@) == Err::<(nat, Seq<u8>), WireError>(e),
        },
{
    if usize::MAX > u32::MAX as usize {
        match decode_u64(b) {
            Ok((n, rest)) => Ok((n as usize, rest)),
            Err(e) => Err(e),
        }
    } else {
        match decode_u32(b) {
            Ok((n, rest)) => Ok((n as usize, rest)),
            Err(e) => Err(e),
        }
    }
}

impl Wire for Vec<u8> {
    open spec fn wire_inv(&self) -> bool {
        true
    }

    open spec fn fits(m: Seq<u8>) -> bool {
        m.len() <= usize::MAX
    }

    open spec fn enc(m: Seq<u8>) -> Seq<u8> {
        bytes_wire(m)
    }

    open spec fn dec(b: Seq<u8>) -> Decoded<Seq<u8>> {
        read_bytes(b)
    }

    proof fn round_trip(m: Seq<u8>, rest: Seq<u8>) {
        lemma_bytes(m, rest);
    }

    fn put(&self, out: &mut Vec<u8>) {
        let mut b = encode_bytes(self.as_slice());
        out.append(&mut b);
        assert(self.deep_view() =~= self@);
    }

    fn take<'a>(b: &'a [u8]) -> (r: Result<(Vec<u8>, &'a [u8]), WireError>) {
        match decode_bytes(b) {
            Ok((s, rest)) => {
                assert(s.deep_view() =~= s@);
                Ok((s, rest))
            },
            Err(e) => Err(e),
        }
    }
}

impl Wire for String {
    open spec fn wire_inv(&self) -> bool {
        true
    }

    open spec fn fits(m: Seq<char>) -> bool {
        encode_utf8(m).len() <= usize::MAX
    }

    open spec fn enc(m: Seq<char>) -> Seq<u8> {
        string_wire(m)
    }

    open spec fn dec(b: Seq<u8>) -> Decoded<Seq<char>> {
        read_string(b)
    }

    proof fn round_trip(m: Seq<char>, rest: Seq<u8>) {
        lemma_bytes(encode_utf8(m), rest);
        encode_utf8_valid_utf8(m);
        encode_utf8_decode_utf8(m);
    }

    fn put(&self, out: &mut Vec<u8>) {
        let mut b = encode_str(self.as_str());
        out.append(&mut b);
    }

    fn take<'a>(b: &'a [u8]) -> (r: Result<(String, &'a [u8]), WireError>) {
        decode_string(b)
    }
}

// ---- Sequences ----

/// The items' encodings, one after the other.
pub open spec fn enc_items<T: Wire>(items: Seq<T::V>) -> Seq<u8>
    decreases items.len(),
{
    if items.len() == 0 {
        seq![]
    } else {
        T::enc(items[0]) + enc_items::<T>(items.skip(1))
    }
}

pub open spec fn enc_list<T: Wire>(items: Seq<T::V>) -> Seq<u8> {
    varint(items.len()) + enc_items::<T>(items)
}

pub open spec fn dec_items<T: Wire>(n: nat, b: Seq<u8>) -> Decoded<Seq<T::V>>
    decreases n,
{
    if n == 0 {
        Ok((seq![], b))
    } else {
        match T::dec(b) {
            Err(e) => Err(e),
            Ok((x, rest)) => match dec_items::<T>((n - 1) as nat, rest) {
                Err(e) => Err(e),
                Ok((xs, after)) => Ok((seq![x] + xs, after)),
            },
        }
    }
}

pub open spec fn dec_list<T: Wire>(b: Seq<u8>) -> Decoded<Seq<T::V>> {
    match read_len(b) {
        Err(e) => Err(e),
        Ok((n, rest)) => dec_items::<T>(n, rest),
    }
}

pub open spec fn fits_list<T: Wire>(items: Seq<T::V>) -> bool {
    items.len() <= usize::MAX && forall|i: int| 0 <= i < items.len() ==> T::fits(#[trigger] items[i])
}

proof fn lemma_items<T: Wire>(items: Seq<T::V>, rest: Seq<u8>)
    requires
        forall|i: int| 0 <= i < items.len() ==> T::fits(#[trigger] items[i]),
    ensures
        dec_items::<T>(items.len(), enc_items::<T>(items) + rest) == Ok::<
            (Seq<T::V>, Seq<u8>),
            WireError,
        >((items, rest)),
    decreases items.len(),
{
    if items.len() == 0 {
        assert(enc_items::<T>(items) + rest =~= rest);
        assert(items =~= seq![]);
    } else {
        let tail = items.skip(1);
        assert(enc_items::<T>(items) + rest =~= T::enc(items[0]) + (enc_items::<T>(tail) + rest));
        T::round_trip(items[0], enc_items::<T>(tail) + rest);
        assert forall|i: int| 0 <= i < tail.len() implies T::fits(#[trigger] tail[i]) by {
            assert(tail[i] == items[i + 1]);
        }
        lemma_items::<T>(tail, rest);
        assert(seq![items[0]] + tail =~= items);
    }
}

/// A sequence survives its encoding.
pub proof fn lemma_list<T: Wire>(items: Seq<T::V>, rest: Seq<u8>)
    requires
        fits_list::<T>(items),
    ensures
        dec_list::<T>(enc_list::<T>(items) + rest) == Ok::<(Seq<T::V>, Seq<u8>), WireError>(
            (items, rest),
        ),
{
    assert(enc_list::<T>(items) + rest =~= varint(items.len()) + (enc_items::<T>(items) + rest));
    lemma_len(items.len(), enc_items::<T>(items) + rest);
    lemma_items::<T>(items, rest);
}

/// Encoding one more item at the end appends its encoding.
pub proof fn lemma_enc_items_push<T: Wire>(items: Seq<T::V>, x: T::V)
    ensures
        enc_items::<T>(items.push(x)) == enc_items::<T>(items) + T::enc(x),
    decreases items.len(),
{
    if items.len() == 0 {
        assert(items.push(x).skip(1) =~= Seq::<T::V>::empty());
        assert(enc_items::<T>(Seq::<T::V>::empty()) =~= seq![]);
        assert(T::enc(x) + Seq::<u8>::empty() =~= T::enc(x));
        assert(Seq::<u8>::empty() + T::enc(x) =~= T::enc(x));
    } else {
        assert(items.push(x).skip(1) =~= items.skip(1).push(x));
        lemma_enc_items_push::<T>(items.skip(1), x);
        assert(enc_items::<T>(items.push(x)) =~= enc_items::<T>(items) + T::enc(x));
    }
}

/// Append the encoding of a sequence.
pub fn put_list<T: Wire>(items: &Vec<T>, out: &mut Vec<u8>)
    requires
        forall|i: int| 0 <= i < items@.len() ==> (#[trigger] items@[i]).wire_inv(),
    ensures
        final(out)@ == old(out)@ + enc_list::<T>(items.deep_view()),
{
    let ghost before = out@;
    let ghost m = items.deep_view();
    (items.len() as u64).put(out);
    let mut i: usize = 0;
    assert(m.take(0) =~= Seq::<T::V>::empty());
    assert(out@ =~= before + varint(m.len()) + enc_items::<T>(m.take(0)));
    while i < items.len()
        invariant
            i <= items@.len(),
            m == items.deep_view(),
            m.len() == items@.len(),
            forall|j: int| 0 <= j < items@.len() ==> (#[trigger] items@[j]).wire_inv(),
            out@ == before + varint(m.len()) + enc_items::<T>(m.take(i as int)),
        decreases items@.len() - i,
    {
        items[i].put(out);
        proof {
            lemma_enc_items_push::<T>(m.take(i as int), m[i as int]);
            assert(m.take(i + 1) =~= m.take(i as int).push(m[i as int]));
            assert(out@ =~= before + varint(m.len()) + enc_items::<T>(m.take(i + 1)));
        }
        i = i + 1;
    }
    assert(m.take(i as int) =~= m);
    assert(out@ =~= before + enc_list::<T>(m));
}

/// What is decoded so far, ahead of what the rest decodes to.
pub open spec fn prefixed<M>(done: Seq<M>, rest: Decoded<Seq<M>>) -> Decoded<Seq<M>> {
    match rest {
        Ok((xs, after)) => Ok((done + xs, after)),
        Err(e) => Err(e),
    }
}

/// Read a sequence.
pub fn take_list<'a, T: Wire>(b: &'a [u8]) -> (r: Result<(Vec<T>, &'a [u8]), WireError>)
    ensures
        match r {
            Ok((v, rest)) => dec_list::<T>(b@) == Ok::<(Seq<T::V>, Seq<u8>), WireError>(
                (v.deep_view(), rest@),
            ) && (forall|i: int| 0 <= i < v@.len() ==> (#[trigger] v@[i]).wire_inv()),
            Err(e) => dec_list::<T>(b@) == Err::<(Seq<T::V>, Seq<u8>), WireError>(e),
        },
{
    let (n, start) = match take_len(b) {
        Ok(taken) => taken,
        Err(e) => {
            return Err(e);
        },
    };
    let mut items: Vec<T> = Vec::new();
    let mut rest: &'a [u8] = start;
    let mut i: usize = 0;
    let ghost want = dec_items::<T>(n as nat, start@);
    proof {
        assert(items.deep_view() =~= Seq::<T::V>::empty());
        match want {
            Ok((xs, after)) => {
                assert(Seq::<T::V>::empty() + xs =~= xs);
            },
            Err(e) => {},
        }
    }
    while i < n
        invariant
            i <= n,
            want == prefixed(items.deep_view(), dec_items::<T>((n - i) as nat, rest@)),
            want == dec_list::<T>(b@),
            forall|j: int| 0 <= j < items@.len() ==> (#[trigger] items@[j]).wire_inv(),
        decreases n - i,
    {
        match T::take(rest) {
            Err(e) => {
                return Err(e);
            },
            Ok((x, after)) => {
                let ghost m = x.deep_view();
                let ghost was = items.deep_view();
                let ghost tail = dec_items::<T>((n - i - 1) as nat, after@);
                items.push(x);
                rest = after;
                i = i + 1;
                proof {
                    assert(items.deep_view() =~= was.push(m));
                    match tail {
                        Ok((xs, end)) => {
                            assert(was + (seq![m] + xs) =~= was.push(m) + xs);
                        },
                        Err(e) => {},
                    }
                }
            },
        }
    }
    proof {
        assert(items.deep_view() + Seq::<T::V>::empty() =~= items.deep_view());
    }
    Ok((items, rest))
}

// ---- Options and truth values ----

pub open spec fn enc_option<T: Wire>(m: Option<T::V>) -> Seq<u8> {
    match m {
        None => seq![0u8],
        Some(x) => seq![1u8] + T::enc(x),
    }
}

pub open spec fn dec_option<T: Wire>(b: Seq<u8>) -> Decoded<Option<T::V>> {
    if b.len() == 0 {
        Err(WireError::UnexpectedEnd)
    } else if b[0] == 0 {
        Ok((None, b.skip(1)))
    } else if b[0] == 1 {
        match T::dec(b.skip(1)) {
            Ok((x, rest)) => Ok((Some(x), rest)),
            Err(e) => Err(e),
        }
    } else {
        Err(WireError::BadOption)
    }
}

pub proof fn lemma_option<T: Wire>(m: Option<T::V>, rest: Seq<u8>)
    requires
        m is Some ==> T::fits(m->0),
    ensures
        dec_option::<T>(enc_option::<T>(m) + rest) == Ok::<(Option<T::V>, Seq<u8>), WireError>(
            (m, rest),
        ),
{
    let b = enc_option::<T>(m) + rest;
    match m {
        None => {
            assert(b.skip(1) =~= rest);
        },
        Some(x) => {
            assert(b.skip(1) =~= T::enc(x) + rest);
            T::round_trip(x, rest);
        },
    }
}

pub open spec fn bool_wire(v: bool) -> Seq<u8> {
    if v {
        seq![1u8]
    } else {
        seq![0u8]
    }
}

pub open spec fn read_bool(b: Seq<u8>) -> Decoded<bool> {
    if b.len() == 0 {
        Err(WireError::UnexpectedEnd)
    } else if b[0] == 0 {
        Ok((false, b.skip(1)))
    } else if b[0] == 1 {
        Ok((true, b.skip(1)))
    } else {
        Err(WireError::BadBool)
    }
}

/// Everything after the first byte.
pub fn after_first<'a>(b: &'a [u8]) -> (r: &'a [u8])
    requires
        b@.len() > 0,
    ensures
        r@ == b@.skip(1),
{
    let r = vstd::slice::slice_subrange(b, 1, b.len());
    assert(r@ =~= b@.skip(1));
    r
}

impl Wire for bool {
    open spec fn wire_inv(&self) -> bool {
        true
    }

    open spec fn fits(m: bool) -> bool {
        true
    }

    open spec fn enc(m: bool) -> Seq<u8> {
        bool_wire(m)
    }

    open spec fn dec(b: Seq<u8>) -> Decoded<bool> {
        read_bool(b)
    }

    proof fn round_trip(m: bool, rest: Seq<u8>) {
        assert((bool_wire(m) + rest).skip(1) =~= rest);
    }

    fn put(&self, out: &mut Vec<u8>) {
        let ghost before = out@;
        out.push(if *self { 1u8 } else { 0u8 });
        assert(out@ =~= before + bool_wire(*self));
    }

    fn take<'a>(b: &'a [u8]) -> (r: Result<(bool, &'a [u8]), WireError>) {
        if b.len() == 0 {
            Err(WireError::UnexpectedEnd)
        } else if b[0] == 0 {
            Ok((false, after_first(b)))
        } else if b[0] == 1 {
            Ok((true, after_first(b)))
        } else {
            Err(WireError::BadBool)
        }
    }
}

pub fn put_option<T: Wire>(v: &Option<T>, out: &mut Vec<u8>)
    requires
        v is Some ==> v->0.wire_inv(),
    ensures
        final(out)@ == old(out)@ + enc_option::<T>(v.deep_view()),
{
    let ghost before = out@;
    match v {
        None => {
            out.push(0u8);
        },
        Some(x) => {
            out.push(1u8);
            x.put(out);
        },
    }
    assert(out@ =~= before + enc_option::<T>(v.deep_view()));
}

pub fn take_option<'a, T: Wire>(b: &'a [u8]) -> (r: Result<(Option<T>, &'a [u8]), WireError>)
    ensures
        match r {
            Ok((v, rest)) => dec_option::<T>(b@) == Ok::<(Option<T::V>, Seq<u8>), WireError>(
                (v.deep_view(), rest@),
            ) && (v is Some ==> v->0.wire_inv()),
            Err(e) => dec_option::<T>(b@) == Err::<(Option<T::V>, Seq<u8>), WireError>(e),
        },
{
    if b.len() == 0 {
        Err(WireError::UnexpectedEnd)
    } else if b[0] == 0 {
        Ok((None, after_first(b)))
    } else if b[0] == 1 {
        match T::take(after_first(b)) {
            Ok((x, rest)) => Ok((Some(x), rest)),
            Err(e) => Err(e),
        }
    } else {
        Err(WireError::BadOption)
    }
}

// ---- Pairs and ordered maps ----

impl<A: Wire, B: Wire> Wire for (A, B) {
    open spec fn wire_inv(&self) -> bool {
        self.0.wire_inv() && self.1.wire_inv()
    }

    open spec fn fits(m: (A::V, B::V)) -> bool {
        A::fits(m.0) && B::fits(m.1)
    }

    open spec fn enc(m: (A::V, B::V)) -> Seq<u8> {
        A::enc(m.0) + B::enc(m.1)
    }

    open spec fn dec(b: Seq<u8>) -> Decoded<(A::V, B::V)> {
        match A::dec(b) {
            Err(e) => Err(e),
            Ok((x, rest)) => match B::dec(rest) {
                Err(e) => Err(e),
                Ok((y, after)) => Ok(((x, y), after)),
            },
        }
    }

    proof fn round_trip(m: (A::V, B::V), rest: Seq<u8>) {
        assert(A::enc(m.0) + B::enc(m.1) + rest =~= A::enc(m.0) + (B::enc(m.1) + rest));
        A::round_trip(m.0, B::enc(m.1) + rest);
        B::round_trip(m.1, rest);
    }

    fn put(&self, out: &mut Vec<u8>) {
        let ghost before = out@;
        self.0.put(out);
        self.1.put(out);
        assert(out@ =~= before + Self::enc(self.deep_view()));
    }

    fn take<'a>(b: &'a [u8]) -> (r: Result<((A, B), &'a [u8]), WireError>) {
        match A::take(b) {
            Err(e) => Err(e),
            Ok((x, rest)) => match B::take(rest) {
                Err(e) => Err(e),
                Ok((y, after)) => Ok(((x, y), after)),
            },
        }
    }
}

/// A key that encodes whatever it is.
pub trait WireKey: OrdKey + Wire {
    proof fn key_inv(&self)
        ensures
            self.wire_inv(),
    ;
}

impl WireKey for u64 {
    proof fn key_inv(&self) {
    }
}

impl WireKey for u16 {
    proof fn key_inv(&self) {
    }
}

impl WireKey for String {
    proof fn key_inv(&self) {
    }
}

/// The keys of a map in ascending order.
pub open spec fn sorted_keys<K: OrdKey, M>(m: Map<K::V, M>) -> Seq<K::V> {
    choose|s: Seq<K::V>| #[trigger] ascending::<K>(s) && s.to_set() == m.dom()
}

/// A map's entries in ascending key order.
pub open spec fn sorted_pairs<K: OrdKey, M>(m: Map<K::V, M>) -> Seq<(K::V, M)> {
    sorted_keys::<K, M>(m).map_values(|k: K::V| (k, m[k]))
}

/// The map that a run of entries builds, a later one replacing an earlier one.
pub open spec fn map_of<K, M>(pairs: Seq<(K, M)>) -> Map<K, M>
    decreases pairs.len(),
{
    if pairs.len() == 0 {
        Map::empty()
    } else {
        map_of(pairs.drop_last()).insert(pairs.last().0, pairs.last().1)
    }
}

pub open spec fn enc_map<K: WireKey, T: Wire>(m: Map<K::V, T::V>) -> Seq<u8> {
    enc_list::<(K, T)>(sorted_pairs::<K, T::V>(m))
}

pub open spec fn dec_map<K: WireKey, T: Wire>(b: Seq<u8>) -> Decoded<Map<K::V, T::V>> {
    match dec_list::<(K, T)>(b) {
        Err(e) => Err(e),
        Ok((pairs, rest)) => Ok((map_of(pairs), rest)),
    }
}

/// The keys can be listed in ascending order, and everything inside fits.
pub open spec fn fits_map<K: WireKey, T: Wire>(m: Map<K::V, T::V>) -> bool {
    &&& ascending::<K>(sorted_keys::<K, T::V>(m))
    &&& sorted_keys::<K, T::V>(m).to_set() == m.dom()
    &&& fits_list::<(K, T)>(sorted_pairs::<K, T::V>(m))
}

/// Listing a map's entries in any order that names each key once rebuilds it.
pub proof fn lemma_map_of<K, M>(keys: Seq<K>, m: Map<K, M>)
    requires
        keys.no_duplicates(),
        forall|k: K| keys.contains(k) ==> m.contains_key(k),
    ensures
        map_of(keys.map_values(|k: K| (k, m[k]))) == m.restrict(keys.to_set()),
    decreases keys.len(),
{
    let pairs = keys.map_values(|k: K| (k, m[k]));
    if keys.len() == 0 {
        assert(map_of(pairs) =~= m.restrict(keys.to_set()));
    } else {
        let front = keys.drop_last();
        assert(pairs.drop_last() =~= front.map_values(|k: K| (k, m[k])));
        assert forall|k: K| front.contains(k) implies m.contains_key(k) by {
            let i = choose|i: int| 0 <= i < front.len() && front[i] == k;
            assert(keys[i] == k);
            assert(keys.contains(k));
        }
        lemma_map_of(front, m);
        assert forall|k: K| keys.contains(k) == (front.contains(k) || k == keys.last()) by {
            if keys.contains(k) {
                let i = keys.index_of(k);
                if i < keys.len() - 1 {
                    assert(front[i] == k);
                }
            }
            if front.contains(k) {
                let i = front.index_of(k);
                assert(keys[i] == k);
            }
        }
        assert(m.contains_key(keys.last())) by {
            assert(keys.contains(keys.last()));
        }
        assert(map_of(pairs) =~= m.restrict(keys.to_set()));
    }
}

/// A map survives its encoding.
pub proof fn lemma_map<K: WireKey, T: Wire>(m: Map<K::V, T::V>, rest: Seq<u8>)
    requires
        fits_map::<K, T>(m),
    ensures
        dec_map::<K, T>(enc_map::<K, T>(m) + rest) == Ok::<(Map<K::V, T::V>, Seq<u8>), WireError>(
            (m, rest),
        ),
{
    let keys = sorted_keys::<K, T::V>(m);
    lemma_list::<(K, T)>(sorted_pairs::<K, T::V>(m), rest);
    lemma_ascending_distinct::<K>(keys);
    assert forall|k: K::V| keys.contains(k) implies m.contains_key(k) by {
        assert(keys.to_set().contains(k));
    }
    lemma_map_of(keys, m);
    assert(m.restrict(keys.to_set()) =~= m);
}

/// An ordered map holds its keys as [`sorted_keys`] lists them.
pub proof fn lemma_sorted_keys<K: OrdKey, T: DeepView>(map: &OrdMap<K, T>)
    requires
        map.wf(),
    ensures
        sorted_keys::<K, T::V>(map.deep_view()) == map.key_seq(),
        ascending::<K>(map.key_seq()),
        map.key_seq().to_set() == map.deep_view().dom(),
{
    map.lemma_keys();
    let m = map.deep_view();
    assert(m.dom() =~= map@.dom());
    let s = sorted_keys::<K, T::V>(m);
    assert(ascending::<K>(map.key_seq()) && map.key_seq().to_set() == m.dom());
    assert(ascending::<K>(s) && s.to_set() == m.dom());
    assert forall|k: K::V| s.contains(k) <==> map.key_seq().contains(k) by {
        assert(s.contains(k) == s.to_set().contains(k));
        assert(map.key_seq().contains(k) == map.key_seq().to_set().contains(k));
    }
    lemma_ascending_unique::<K>(s, map.key_seq());
}

/// Append the encoding of an ordered map.
pub fn put_map<K: WireKey, T: Wire>(map: &OrdMap<K, T>, out: &mut Vec<u8>)
    requires
        map.wf(),
        map.all_values(|v: T| v.wire_inv()),
    ensures
        final(out)@ == old(out)@ + enc_map::<K, T>(map.deep_view()),
{
    let ghost before = out@;
    let ghost m = map.deep_view();
    let ghost keys = map.key_seq();
    let ghost pairs = sorted_pairs::<K, T::V>(m);
    proof {
        lemma_sorted_keys(map);
    }
    let n: usize = map.len();
    (n as u64).put(out);
    let mut i: usize = 0;
    assert(pairs.take(0) =~= Seq::<(K::V, T::V)>::empty());
    assert(out@ =~= before + varint(pairs.len()) + enc_items::<(K, T)>(pairs.take(0)));
    while i < n
        invariant
            i <= n,
            n == keys.len(),
            map.wf(),
            map.all_values(|v: T| v.wire_inv()),
            m == map.deep_view(),
            keys == map.key_seq(),
            pairs == keys.map_values(|k: K::V| (k, m[k])),
            out@ == before + varint(pairs.len()) + enc_items::<(K, T)>(pairs.take(i as int)),
        decreases n - i,
    {
        let key = map.key_at(i);
        proof {
            key.key_inv();
        }
        key.put(out);
        map.value_at(i).put(out);
        proof {
            lemma_enc_items_push::<(K, T)>(pairs.take(i as int), pairs[i as int]);
            assert(pairs.take(i + 1) =~= pairs.take(i as int).push(pairs[i as int]));
            assert(pairs[i as int] == (keys[i as int], m[keys[i as int]]));
            assert(out@ =~= before + varint(pairs.len()) + enc_items::<(K, T)>(
                pairs.take(i + 1),
            ));
        }
        i = i + 1;
    }
    assert(pairs.take(i as int) =~= pairs);
    assert(out@ =~= before + enc_map::<K, T>(m));
}

/// Read an ordered map.
pub fn take_map<'a, K: WireKey, T: Wire>(b: &'a [u8]) -> (r: Result<
    (OrdMap<K, T>, &'a [u8]),
    WireError,
>)
    ensures
        match r {
            Ok((v, rest)) => v.wf() && v.all_values(|x: T| x.wire_inv()) && dec_map::<K, T>(b@)
                == Ok::<(Map<K::V, T::V>, Seq<u8>), WireError>((v.deep_view(), rest@)),
            Err(e) => dec_map::<K, T>(b@) == Err::<(Map<K::V, T::V>, Seq<u8>), WireError>(e),
        },
{
    let (pairs, rest) = match take_list::<(K, T)>(b) {
        Ok(taken) => taken,
        Err(e) => {
            return Err(e);
        },
    };
    let ghost all = pairs.deep_view();
    let ghost items = pairs@;
    let mut map: OrdMap<K, T> = OrdMap::new();
    assert(map.deep_view() =~= map_of(all.take(0)));
    for pair in it: pairs
        invariant
            it.seq() == items,
            all.len() == items.len(),
            forall|i: int| 0 <= i < items.len() ==> all[i] == (#[trigger] items[i]).deep_view(),
            forall|i: int| 0 <= i < items.len() ==> (#[trigger] items[i]).wire_inv(),
            map.wf(),
            map.all_values(|x: T| x.wire_inv()),
            map.deep_view() == map_of(all.take(it.index() as int)),
    {
        let (key, value) = pair;
        let ghost k = key.deep_view();
        let ghost was = map;
        let ghost i = it.index() as int;
        proof {
            assert((key, value) == items[i]);
            assert(all.take(i + 1).drop_last() =~= all.take(i));
            assert(all.take(i + 1).last() == all[i]);
        }
        map.insert(key, value);
        proof {
            assert(map.deep_view() =~= was.deep_view().insert(k, value.deep_view()));
        }
    }
    assert(all.take(items.len() as int) =~= all);
    Ok((map, rest))
}

impl<K: WireKey, T: Wire> Wire for OrdMap<K, T> {
    open spec fn wire_inv(&self) -> bool {
        self.wf() && self.all_values(|v: T| v.wire_inv())
    }

    open spec fn fits(m: Map<K::V, T::V>) -> bool {
        fits_map::<K, T>(m)
    }

    open spec fn enc(m: Map<K::V, T::V>) -> Seq<u8> {
        enc_map::<K, T>(m)
    }

    open spec fn dec(b: Seq<u8>) -> Decoded<Map<K::V, T::V>> {
        dec_map::<K, T>(b)
    }

    proof fn round_trip(m: Map<K::V, T::V>, rest: Seq<u8>) {
        lemma_map::<K, T>(m, rest);
    }

    fn put(&self, out: &mut Vec<u8>) {
        put_map(self, out);
    }

    fn take<'a>(b: &'a [u8]) -> (r: Result<(OrdMap<K, T>, &'a [u8]), WireError>) {
        take_map::<K, T>(b)
    }
}

// ---- How values are laid out ----

/// A list is its length and its items one after the other; an option says whether there is
/// a value and then which; a pair is its halves; a flag is one byte, and so is a byte.
pub proof fn law_values_are_laid_out<T: Wire, U: Wire>(items: Seq<T::V>, x: T::V, y: U::V, b: u8)
    ensures
        enc_list::<T>(seq![]) == u64::enc(0),
        enc_list::<T>(seq![x]) == u64::enc(1) + T::enc(x),
        enc_items::<T>(items.push(x)) == enc_items::<T>(items) + T::enc(x),
        enc_list::<T>(items) == varint(items.len()) + enc_items::<T>(items),
        enc_option::<T>(None) == seq![0u8],
        enc_option::<T>(Some(x)) == seq![1u8] + T::enc(x),
        <(T, U) as Wire>::enc((x, y)) == T::enc(x) + U::enc(y),
        bool::enc(false) == seq![0u8],
        bool::enc(true) == seq![1u8],
        u8::enc(b) == seq![b],
{
    assert(enc_items::<T>(seq![]) =~= Seq::<u8>::empty());
    assert(enc_list::<T>(seq![]) =~= u64::enc(0));
    lemma_items_push::<T>(seq![], x);
    assert(Seq::<T::V>::empty().push(x) =~= seq![x]);
    assert(enc_items::<T>(seq![x]) =~= T::enc(x));
    lemma_items_push::<T>(items, x);
}

proof fn lemma_items_push<T: Wire>(items: Seq<T::V>, x: T::V)
    ensures
        enc_items::<T>(items.push(x)) == enc_items::<T>(items) + T::enc(x),
    decreases items.len(),
{
    let all = items.push(x);
    if items.len() == 0 {
        assert(all.skip(1) =~= Seq::<T::V>::empty());
        assert(enc_items::<T>(all.skip(1)) =~= Seq::<u8>::empty());
        assert(enc_items::<T>(items) =~= Seq::<u8>::empty());
        assert(enc_items::<T>(all) =~= enc_items::<T>(items) + T::enc(x));
    } else {
        lemma_items_push::<T>(items.skip(1), x);
        assert(all.skip(1) =~= items.skip(1).push(x));
        assert(all[0] == items[0]);
        assert(enc_items::<T>(all) =~= enc_items::<T>(items) + T::enc(x));
    }
}

/// A number below 128 is one byte; a larger one is its low seven bits with the top bit set,
/// and then the rest. A text is its length in bytes and its UTF-8; a byte string likewise.
pub proof fn law_numbers_and_texts_are_laid_out(n: u64, bytes: Seq<u8>, text: Seq<char>)
    ensures
        n < 128 ==> u64::enc(n) == seq![n as u8],
        n >= 128 ==> u64::enc(n) == seq![(n % 128 + 128) as u8] + varint((n / 128) as nat),
        <Vec<u8> as Wire>::enc(bytes) == varint(bytes.len()) + bytes,
        String::enc(text) == varint(encode_utf8(text).len()) + encode_utf8(text),
{
}

/// A flag or an option that begins with neither zero nor one is refused, and so is nothing
/// at all.
pub proof fn law_only_zero_and_one_are_flags<T: Wire>(lead: u8, rest: Seq<u8>)
    requires
        lead > 1,
    ensures
        bool::dec(seq![lead] + rest) is Err,
        dec_option::<T>(seq![lead] + rest) is Err,
        bool::dec(seq![]) is Err,
        dec_option::<T>(seq![]) is Err,
        u8::dec(seq![]) is Err,
{
    assert((seq![lead] + rest)[0] == lead);
}

/// A map is laid out as the list of its entries, in ascending order of their keys.
pub proof fn law_maps_are_laid_out_in_key_order<K: WireKey, T: Wire>(map: &OrdMap<K, T>, i: int)
    requires
        map.wf(),
    ensures
        ({
            let m = map.deep_view();
            let pairs = sorted_pairs::<K, T::V>(m);
            &&& <OrdMap<K, T> as Wire>::enc(m) == varint(pairs.len()) + enc_items::<(K, T)>(pairs)
            &&& ascending::<K>(sorted_keys::<K, T::V>(m))
            &&& sorted_keys::<K, T::V>(m).to_set() == m.dom()
            &&& pairs.len() == sorted_keys::<K, T::V>(m).len()
            &&& 0 <= i < pairs.len() ==> pairs[i] == (
                sorted_keys::<K, T::V>(m)[i],
                m[sorted_keys::<K, T::V>(m)[i]],
            )
        }),
{
    lemma_sorted_keys(map);
}

} // verus!

//! Total orders on keys.
//!
//! The ordered collections of this crate iterate in the order their keys define,
//! so that folds, listings and encoded snapshots are the same on every node.
use vstd::prelude::*;

verus! {

/// The outcome of comparing two keys.
#[derive(Clone, Copy, Debug, PartialEq, Eq, Structural)]
pub enum Rank {
    Below,
    Same,
    Above,
}

/// A key of an ordered collection: a strict total order on the key's deep view,
/// with a comparison that decides it.
pub trait OrdKey: Sized + DeepView {
    /// The strict order.
    spec fn lt(a: Self::V, b: Self::V) -> bool;

    proof fn lt_irreflexive(a: Self::V)
        ensures
            !Self::lt(a, a),
    ;

    proof fn lt_transitive(a: Self::V, b: Self::V, c: Self::V)
        requires
            Self::lt(a, b),
            Self::lt(b, c),
        ensures
            Self::lt(a, c),
    ;

    proof fn lt_total(a: Self::V, b: Self::V)
        ensures
            a == b || Self::lt(a, b) || Self::lt(b, a),
    ;

    /// Decide how `self` stands to `other`.
    fn rank(&self, other: &Self) -> (r: Rank)
        ensures
            r == Rank::Below <==> Self::lt(self.deep_view(), other.deep_view()),
            r == Rank::Same <==> self.deep_view() == other.deep_view(),
            r == Rank::Above <==> Self::lt(other.deep_view(), self.deep_view()),
    ;

    /// A key equal to this one.
    fn dup(&self) -> (r: Self)
        ensures
            r.deep_view() == self.deep_view(),
    ;
}

/// Lexicographic order on byte strings: the first differing byte decides, and a
/// proper prefix comes first.
pub open spec fn bytes_lt(a: Seq<u8>, b: Seq<u8>) -> bool
    decreases a.len(),
{
    if b.len() == 0 {
        false
    } else if a.len() == 0 {
        true
    } else if a[0] == b[0] {
        bytes_lt(a.drop_first(), b.drop_first())
    } else {
        a[0] < b[0]
    }
}

pub proof fn lemma_bytes_lt_irreflexive(a: Seq<u8>)
    ensures
        !bytes_lt(a, a),
    decreases a.len(),
{
    if a.len() > 0 {
        lemma_bytes_lt_irreflexive(a.drop_first());
    }
}

pub proof fn lemma_bytes_lt_transitive(a: Seq<u8>, b: Seq<u8>, c: Seq<u8>)
    requires
        bytes_lt(a, b),
        bytes_lt(b, c),
    ensures
        bytes_lt(a, c),
    decreases a.len(),
{
    if a.len() > 0 && a[0] == b[0] && b[0] == c[0] {
        lemma_bytes_lt_transitive(a.drop_first(), b.drop_first(), c.drop_first());
    }
}

pub proof fn lemma_bytes_lt_total(a: Seq<u8>, b: Seq<u8>)
    ensures
        a == b || bytes_lt(a, b) || bytes_lt(b, a),
    decreases a.len(),
{
    if a.len() == 0 && b.len() == 0 {
        assert(a =~= b);
    } else if a.len() > 0 && b.len() > 0 && a[0] == b[0] {
        lemma_bytes_lt_total(a.drop_first(), b.drop_first());
        if a.drop_first() == b.drop_first() {
            assert(a =~= seq![a[0]] + a.drop_first());
            assert(b =~= seq![b[0]] + b.drop_first());
        }
    }
}

/// A common prefix does not affect the order of what follows it.
proof fn lemma_bytes_lt_common_prefix(a: Seq<u8>, b: Seq<u8>, n: int)
    requires
        0 <= n <= a.len(),
        n <= b.len(),
        forall|i: int| 0 <= i < n ==> a[i] == b[i],
    ensures
        bytes_lt(a, b) == bytes_lt(a.skip(n), b.skip(n)),
    decreases n,
{
    if n == 0 {
        assert(a.skip(0) =~= a);
        assert(b.skip(0) =~= b);
    } else {
        lemma_bytes_lt_common_prefix(a.drop_first(), b.drop_first(), n - 1);
        assert(a.drop_first().skip(n - 1) =~= a.skip(n));
        assert(b.drop_first().skip(n - 1) =~= b.skip(n));
    }
}

/// Compare two byte strings lexicographically.
pub fn rank_bytes(a: &[u8], b: &[u8]) -> (r: Rank)
    ensures
        r == Rank::Below <==> bytes_lt(a@, b@),
        r == Rank::Same <==> a@ == b@,
        r == Rank::Above <==> bytes_lt(b@, a@),
{
    let mut i: usize = 0;
    while i < a.len() && i < b.len() && a[i] == b[i]
        invariant
            i <= a@.len(),
            i <= b@.len(),
            forall|j: int| 0 <= j < i ==> a@[j] == b@[j],
        decreases a@.len() - i,
    {
        i = i + 1;
    }
    proof {
        lemma_bytes_lt_common_prefix(a@, b@, i as int);
        lemma_bytes_lt_common_prefix(b@, a@, i as int);
        lemma_bytes_lt_irreflexive(a@);
        lemma_bytes_lt_irreflexive(b@);
    }
    if i == a.len() && i == b.len() {
        assert(a@ =~= b@);
        Rank::Same
    } else if i == a.len() {
        Rank::Below
    } else if i == b.len() {
        Rank::Above
    } else if a[i] < b[i] {
        Rank::Below
    } else {
        Rank::Above
    }
}

impl OrdKey for u64 {
    open spec fn lt(a: u64, b: u64) -> bool {
        a < b
    }

    proof fn lt_irreflexive(a: u64) {
    }

    proof fn lt_transitive(a: u64, b: u64, c: u64) {
    }

    proof fn lt_total(a: u64, b: u64) {
    }

    fn rank(&self, other: &u64) -> (r: Rank) {
        if *self < *other {
            Rank::Below
        } else if *self == *other {
            Rank::Same
        } else {
            Rank::Above
        }
    }

    fn dup(&self) -> (r: u64) {
        *self
    }
}

impl OrdKey for u16 {
    open spec fn lt(a: u16, b: u16) -> bool {
        a < b
    }

    proof fn lt_irreflexive(a: u16) {
    }

    proof fn lt_transitive(a: u16, b: u16, c: u16) {
    }

    proof fn lt_total(a: u16, b: u16) {
    }

    fn rank(&self, other: &u16) -> (r: Rank) {
        if *self < *other {
            Rank::Below
        } else if *self == *other {
            Rank::Same
        } else {
            Rank::Above
        }
    }

    fn dup(&self) -> (r: u16) {
        *self
    }
}

impl OrdKey for u32 {
    open spec fn lt(a: u32, b: u32) -> bool {
        a < b
    }

    proof fn lt_irreflexive(a: u32) {
    }

    proof fn lt_transitive(a: u32, b: u32, c: u32) {
    }

    proof fn lt_total(a: u32, b: u32) {
    }

    fn rank(&self, other: &u32) -> (r: Rank) {
        if *self < *other {
            Rank::Below
        } else if *self == *other {
            Rank::Same
        } else {
            Rank::Above
        }
    }

    fn dup(&self) -> (r: u32) {
        *self
    }
}

/// The order of strings: that of their UTF-8 encodings.
pub open spec fn str_lt(a: Seq<char>, b: Seq<char>) -> bool {
    bytes_lt(vstd::utf8::encode_utf8(a), vstd::utf8::encode_utf8(b))
}

/// Two strings with the same encoding are the same string.
pub proof fn lemma_utf8_injective(a: Seq<char>, b: Seq<char>)
    ensures
        vstd::utf8::encode_utf8(a) == vstd::utf8::encode_utf8(b) ==> a == b,
{
    vstd::utf8::encode_utf8_decode_utf8(a);
    vstd::utf8::encode_utf8_decode_utf8(b);
}

pub proof fn lemma_str_lt_irreflexive(a: Seq<char>)
    ensures
        !str_lt(a, a),
{
    lemma_bytes_lt_irreflexive(vstd::utf8::encode_utf8(a));
}

pub proof fn lemma_str_lt_transitive(a: Seq<char>, b: Seq<char>, c: Seq<char>)
    requires
        str_lt(a, b),
        str_lt(b, c),
    ensures
        str_lt(a, c),
{
    lemma_bytes_lt_transitive(
        vstd::utf8::encode_utf8(a),
        vstd::utf8::encode_utf8(b),
        vstd::utf8::encode_utf8(c),
    );
}

pub proof fn lemma_str_lt_total(a: Seq<char>, b: Seq<char>)
    ensures
        a == b || str_lt(a, b) || str_lt(b, a),
{
    lemma_bytes_lt_total(vstd::utf8::encode_utf8(a), vstd::utf8::encode_utf8(b));
    lemma_utf8_injective(a, b);
}

/// Compare two strings.
pub fn rank_str(a: &str, b: &str) -> (r: Rank)
    ensures
        r == Rank::Below <==> str_lt(a@, b@),
        r == Rank::Same <==> a@ == b@,
        r == Rank::Above <==> str_lt(b@, a@),
{
    proof {
        lemma_utf8_injective(a@, b@);
    }
    rank_bytes(a.as_bytes(), b.as_bytes())
}

impl OrdKey for String {
    open spec fn lt(a: Seq<char>, b: Seq<char>) -> bool {
        str_lt(a, b)
    }

    proof fn lt_irreflexive(a: Seq<char>) {
        lemma_str_lt_irreflexive(a);
    }

    proof fn lt_transitive(a: Seq<char>, b: Seq<char>, c: Seq<char>) {
        lemma_str_lt_transitive(a, b, c);
    }

    proof fn lt_total(a: Seq<char>, b: Seq<char>) {
        lemma_str_lt_total(a, b);
    }

    fn rank(&self, other: &String) -> (r: Rank) {
        rank_str(self.as_str(), other.as_str())
    }

    fn dup(&self) -> (r: String) {
        self.clone()
    }
}

/// Byte strings are ordered by their first difference, and a proper beginning comes before
/// what it begins.
pub proof fn law_bytes_are_ordered_by_their_first_difference(a: Seq<u8>, b: Seq<u8>, n: int)
    requires
        0 <= n <= a.len(),
        n < b.len(),
        a.take(n) == b.take(n),
        n == a.len() || a[n] != b[n],
    ensures
        bytes_lt(a, b) <==> n == a.len() || a[n] < b[n],
    decreases n,
{
    if n > 0 {
        assert(a.take(n)[0] == a[0] && b.take(n)[0] == b[0]);
        assert(a[0] == b[0]);
        assert(a.drop_first().take(n - 1) =~= a.take(n).drop_first());
        assert(b.drop_first().take(n - 1) =~= b.take(n).drop_first());
        law_bytes_are_ordered_by_their_first_difference(a.drop_first(), b.drop_first(), n - 1);
    }
}

} // verus!

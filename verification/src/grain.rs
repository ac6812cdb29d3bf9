//! Grain identity and the command allowlist.
use vstd::prelude::*;
use vstd::string::*;

use crate::key::lemma_str_lt_irreflexive;
use crate::key::lemma_str_lt_total;
use crate::key::lemma_str_lt_transitive;
use crate::key::rank_str;
use crate::key::str_lt;
use crate::key::OrdKey;
use crate::key::Rank;
use crate::ordmap::OrdSet;
use crate::wire::Decoded;
use crate::wire::Wire;
use crate::wire::WireError;

verus! {

/// The cluster-wide identity of a grain: its type and an arbitrary key. It names a
/// logical object, not a node.
#[derive(Clone, Debug, PartialEq, Eq, Hash, PartialOrd, Ord)]
pub struct GrainName {
    grain_type: String,
    key: String,
}

/// A name's type and key.
pub struct NameModel {
    pub grain_type: Seq<char>,
    pub key: Seq<char>,
}

impl DeepView for GrainName {
    type V = NameModel;

    closed spec fn deep_view(&self) -> NameModel {
        NameModel { grain_type: self.grain_type@, key: self.key@ }
    }
}

impl Wire for GrainName {
    open spec fn wire_inv(&self) -> bool {
        true
    }

    open spec fn fits(m: NameModel) -> bool {
        <String as Wire>::fits(m.grain_type) && <String as Wire>::fits(m.key)
    }

    open spec fn enc(m: NameModel) -> Seq<u8> {
        <(String, String) as Wire>::enc((m.grain_type, m.key))
    }

    open spec fn dec(b: Seq<u8>) -> Decoded<NameModel> {
        match <(String, String) as Wire>::dec(b) {
            Err(e) => Err(e),
            Ok(((grain_type, key), rest)) => Ok((NameModel { grain_type, key }, rest)),
        }
    }

    proof fn round_trip(m: NameModel, rest: Seq<u8>) {
        <(String, String) as Wire>::round_trip((m.grain_type, m.key), rest);
    }

    fn put(&self, out: &mut Vec<u8>) {
        let ghost before = out@;
        self.grain_type.put(out);
        self.key.put(out);
        assert(out@ =~= before + Self::enc(self.deep_view()));
    }

    fn take<'a>(b: &'a [u8]) -> (r: Result<(GrainName, &'a [u8]), WireError>) {
        match <(String, String) as Wire>::take(b) {
            Err(e) => Err(e),
            Ok(((grain_type, key), rest)) => Ok((GrainName { grain_type, key }, rest)),
        }
    }
}

/// Names are ordered by type, then by key.
pub open spec fn name_lt(a: NameModel, b: NameModel) -> bool {
    if a.grain_type == b.grain_type {
        str_lt(a.key, b.key)
    } else {
        str_lt(a.grain_type, b.grain_type)
    }
}

impl GrainName {
    pub fn new(grain_type: &str, key: &str) -> (r: GrainName)
        ensures
            r.deep_view() == (NameModel { grain_type: grain_type@, key: key@ }),
    {
        GrainName { grain_type: grain_type.to_owned(), key: key.to_owned() }
    }

    /// The grain's type.
    pub fn grain_type(&self) -> (r: &str)
        ensures
            r@ == self.deep_view().grain_type,
    {
        self.grain_type.as_str()
    }

    /// The grain's key within its type.
    pub fn key(&self) -> (r: &str)
        ensures
            r@ == self.deep_view().key,
    {
        self.key.as_str()
    }

    /// The type, a slash, and the key.
    pub fn to_text(&self) -> (r: String)
        ensures
            r@ == self.deep_view().grain_type + "/"@ + self.deep_view().key,
    {
        let mut out = self.grain_type.clone();
        out.append("/");
        out.append(self.key.as_str());
        out
    }

    /// Whether two names name the same grain.
    pub fn same(&self, other: &GrainName) -> (r: bool)
        ensures
            r == (self.deep_view() == other.deep_view()),
    {
        match self.rank(other) {
            Rank::Same => true,
            _ => false,
        }
    }
}

impl OrdKey for GrainName {
    open spec fn lt(a: NameModel, b: NameModel) -> bool {
        name_lt(a, b)
    }

    proof fn lt_irreflexive(a: NameModel) {
        lemma_str_lt_irreflexive(a.key);
    }

    proof fn lt_transitive(a: NameModel, b: NameModel, c: NameModel) {
        if a.grain_type == b.grain_type {
            if b.grain_type == c.grain_type {
                lemma_str_lt_transitive(a.key, b.key, c.key);
            }
        } else if b.grain_type != c.grain_type {
            lemma_str_lt_transitive(a.grain_type, b.grain_type, c.grain_type);
            if a.grain_type == c.grain_type {
                lemma_str_lt_irreflexive(a.grain_type);
            }
        }
    }

    proof fn lt_total(a: NameModel, b: NameModel) {
        lemma_str_lt_total(a.grain_type, b.grain_type);
        lemma_str_lt_total(a.key, b.key);
    }

    fn rank(&self, other: &GrainName) -> (r: Rank) {
        proof {
            lemma_str_lt_irreflexive(self.key@);
            lemma_str_lt_irreflexive(self.grain_type@);
        }
        match rank_str(self.grain_type.as_str(), other.grain_type.as_str()) {
            Rank::Same => rank_str(self.key.as_str(), other.key.as_str()),
            r => r,
        }
    }

    fn dup(&self) -> (r: GrainName) {
        GrainName { grain_type: self.grain_type.clone(), key: self.key.clone() }
    }
}

/// The event type of a grain whose durable state lives entirely in its facets: no
/// value of it can be made.
#[derive(Clone, Copy, Debug)]
pub struct NoEvent {
    never: bool,
}

impl DeepView for NoEvent {
    type V = bool;

    closed spec fn deep_view(&self) -> bool {
        self.never
    }
}

impl NoEvent {
    #[verifier::type_invariant]
    spec fn uninhabited(self) -> bool {
        self.never && !self.never
    }

    /// The fold of an event that cannot exist.
    pub fn unreachable<T>(&self) -> (r: T) {
        proof {
            use_type_invariant(self);
        }
        vstd::pervasive::unreached()
    }
}

/// The commands that a grain accepts over the network, by manifest.
pub struct GrainRegistry {
    accepted: OrdSet<String>,
}

impl View for GrainRegistry {
    type V = Set<Seq<char>>;

    closed spec fn view(&self) -> Set<Seq<char>> {
        self.accepted@
    }
}

impl GrainRegistry {
    pub closed spec fn wf(&self) -> bool {
        self.accepted.wf()
    }

    pub fn new() -> (r: GrainRegistry)
        ensures
            r.wf(),
            r@ == Set::<Seq<char>>::empty(),
    {
        GrainRegistry { accepted: OrdSet::new() }
    }

    /// Accept the command with this manifest.
    pub fn accept(&mut self, manifest: &str)
        requires
            old(self).wf(),
        ensures
            final(self).wf(),
            final(self)@ == old(self)@.insert(manifest@),
    {
        self.accepted.insert(manifest.to_owned());
    }

    /// Whether a command is accepted.
    pub fn accepts(&self, manifest: &str) -> (r: bool)
        requires
            self.wf(),
        ensures
            r == self@.contains(manifest@),
    {
        self.accepted.contains(&manifest.to_owned())
    }

    /// The accepted manifests, in order.
    pub fn accepted(&self) -> (r: &OrdSet<String>)
        requires
            self.wf(),
        ensures
            r.wf(),
            r@ == self@,
    {
        &self.accepted
    }
}

/// Names are ordered by their types, and names of one type by their keys.
pub proof fn law_names_are_ordered_by_type_and_key(a: NameModel, b: NameModel)
    ensures
        a.grain_type != b.grain_type ==> (name_lt(a, b) <==> str_lt(a.grain_type, b.grain_type)),
        a.grain_type == b.grain_type ==> (name_lt(a, b) <==> str_lt(a.key, b.key)),
{
}

/// A name is laid out as its type and its key.
pub proof fn law_names_are_laid_out(m: NameModel)
    ensures
        GrainName::enc(m) == String::enc(m.grain_type) + String::enc(m.key),
{
}

} // verus!

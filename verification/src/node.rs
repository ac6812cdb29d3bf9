//! What a node provides to every grain type it hosts.
//!
//! The pool that bounds a node's device work and the sink its measurements go to
//! belong to the node, not to a type: they are set once, and every type hosted
//! through the node shares them.
use vstd::prelude::*;

verus! {

/// The handles every grain type on a node shares.
pub struct NodeCapabilities<I, M> {
    io: I,
    metrics: M,
}

impl<I, M> NodeCapabilities<I, M> {
    pub closed spec fn io(&self) -> I {
        self.io
    }

    pub closed spec fn sink(&self) -> M {
        self.metrics
    }

    pub fn new(io: I, metrics: M) -> (r: NodeCapabilities<I, M>)
        ensures
            r.io() == io,
            r.sink() == metrics,
    {
        NodeCapabilities { io, metrics }
    }

    /// Where the node's blocking store I/O runs.
    pub fn blocking_io(&self) -> (r: &I)
        ensures
            *r == self.io(),
    {
        &self.io
    }

    /// Where the node reports its measurements.
    pub fn metrics(&self) -> (r: &M)
        ensures
            *r == self.sink(),
    {
        &self.metrics
    }
}

/// A node's grain hosting: the system, and the capabilities of the node.
pub struct GranaryNode<S, I, M> {
    system: S,
    capabilities: NodeCapabilities<I, M>,
}

impl<S, I, M> GranaryNode<S, I, M> {
    pub closed spec fn hosted_by(&self) -> S {
        self.system
    }

    pub closed spec fn provides(&self) -> NodeCapabilities<I, M> {
        self.capabilities
    }

    pub fn new(system: S, io: I, metrics: M) -> (r: GranaryNode<S, I, M>)
        ensures
            r.hosted_by() == system,
            r.provides().io() == io,
            r.provides().sink() == metrics,
    {
        GranaryNode { system, capabilities: NodeCapabilities::new(io, metrics) }
    }

    /// Set where the node's blocking store I/O runs.
    pub fn blocking_io(self, io: I) -> (r: GranaryNode<S, I, M>)
        ensures
            r.hosted_by() == self.hosted_by(),
            r.provides().io() == io,
            r.provides().sink() == self.provides().sink(),
    {
        GranaryNode {
            system: self.system,
            capabilities: NodeCapabilities { io, metrics: self.capabilities.metrics },
        }
    }

    /// Set where the node reports its measurements.
    pub fn metrics(self, metrics: M) -> (r: GranaryNode<S, I, M>)
        ensures
            r.hosted_by() == self.hosted_by(),
            r.provides().io() == self.provides().io(),
            r.provides().sink() == metrics,
    {
        GranaryNode {
            system: self.system,
            capabilities: NodeCapabilities { io: self.capabilities.io, metrics },
        }
    }

    /// The system that grains are hosted on.
    pub fn system(&self) -> (r: &S)
        ensures
            *r == self.hosted_by(),
    {
        &self.system
    }

    /// The capabilities handed to every type the node hosts.
    pub fn capabilities(&self) -> (r: &NodeCapabilities<I, M>)
        ensures
            *r == self.provides(),
    {
        &self.capabilities
    }
}

} // verus!

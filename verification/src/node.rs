use vstd::prelude::*;

use crate::context::Context;
use crate::error::RclrsError;

verus! {

/// The three kinds of waitable endpoint a node can own.
#[derive(Clone, Copy, PartialEq, Eq, Structural, Debug)]
pub enum EndpointKind {
    /// A service server: takes incoming requests.
    Service,
    /// A service client: takes incoming responses.
    Client,
    /// A subscription: takes incoming messages.
    Subscription,
}

/// One waitable endpoint (subscription, client or service server).
///
/// The endpoint owns its middleware-level state directly: a queue of pending
/// incoming items, the log of items its callback has been invoked with, and
/// a fault flag standing for a provider-level take error. The callback of an
/// endpoint is modelled by the `delivered` log: invoking the callback with an
/// item appends that item to the log.
pub struct Endpoint {
    /// Handle of this endpoint, unique within its node.
    pub id: u64,
    /// Which category this endpoint belongs to.
    pub kind: EndpointKind,
    /// Incoming items not yet taken, oldest first.
    pub pending: Vec<u64>,
    /// Items the callback has been invoked with, in invocation order.
    pub delivered: Vec<u64>,
    /// True when the provider fails every take on this endpoint.
    pub faulted: bool,
}

/// Mathematical model of an [`Endpoint`].
pub struct EndpointModel {
    /// Handle of the endpoint.
    pub id: u64,
    /// Category of the endpoint.
    pub kind: EndpointKind,
    /// Pending incoming items, oldest first.
    pub pending: Seq<u64>,
    /// Items delivered to the callback, in invocation order.
    pub delivered: Seq<u64>,
    /// Whether takes on this endpoint fail.
    pub faulted: bool,
}

impl View for Endpoint {
    type V = EndpointModel;

    open spec fn view(&self) -> EndpointModel {
        EndpointModel {
            id: self.id,
            kind: self.kind,
            pending: self.pending@,
            delivered: self.delivered@,
            faulted: self.faulted,
        }
    }
}

impl EndpointModel {
    /// An endpoint is ready when the provider would wake a wait for it:
    /// it has a pending item, or it has a fault to report on take.
    pub open spec fn is_ready(self) -> bool {
        self.pending.len() > 0 || self.faulted
    }
}

/// A named participant owning a set of endpoints.
pub struct Node {
    /// Name of the node.
    pub name: String,
    /// Next endpoint handle this node will hand out.
    pub next_id: u64,
    /// The live endpoints, in creation order.
    pub endpoints: Vec<Endpoint>,
}

/// Mathematical model of a [`Node`].
pub struct NodeModel {
    /// Name of the node.
    pub name: Seq<char>,
    /// Next endpoint handle the node will hand out.
    pub next_id: u64,
    /// Models of the live endpoints, in creation order.
    pub endpoints: Seq<EndpointModel>,
}

impl View for Node {
    type V = NodeModel;

    open spec fn view(&self) -> NodeModel {
        NodeModel {
            name: self.name@,
            next_id: self.next_id,
            endpoints: self.endpoints@.map_values(|e: Endpoint| e@),
        }
    }
}

/// True when some endpoint in `eps` carries the handle `id`.
pub open spec fn ep_has(eps: Seq<EndpointModel>, id: u64) -> bool {
    exists|i: int| 0 <= i < eps.len() && eps[i].id == id
}

/// Index of the first endpoint in `eps` carrying the handle `id`.
/// Meaningful only when `ep_has(eps, id)` holds.
pub open spec fn ep_at(eps: Seq<EndpointModel>, id: u64) -> int
    decreases eps.len(),
{
    if eps.len() == 0 {
        0
    } else if eps[0].id == id {
        0
    } else {
        1 + ep_at(eps.drop_first(), id)
    }
}

/// When `eps` holds an endpoint with handle `id`, `ep_at` picks the first
/// index carrying it.
pub proof fn lemma_ep_at(eps: Seq<EndpointModel>, id: u64)
    requires
        ep_has(eps, id),
    ensures
        0 <= ep_at(eps, id) < eps.len(),
        eps[ep_at(eps, id)].id == id,
        forall|j: int| 0 <= j < ep_at(eps, id) ==> eps[j].id != id,
    decreases eps.len(),
{
    if eps.len() == 0 {
    } else if eps[0].id == id {
    } else {
        let rest = eps.drop_first();
        assert(ep_has(rest, id)) by {
            let k = choose|i: int| 0 <= i < eps.len() && eps[i].id == id;
            assert(rest[k - 1].id == id);
        }
        lemma_ep_at(rest, id);
        let r = ep_at(rest, id);
        assert(eps[r + 1] == rest[r]);
        assert forall|j: int| 0 <= j < r + 1 implies eps[j].id != id by {
            if j > 0 {
                assert(rest[j - 1] == eps[j]);
            }
        }
    }
}

/// Models of a sequence of nodes, in registry order.
pub open spec fn nodes_model(ns: Seq<Node>) -> Seq<NodeModel> {
    ns.map_values(|n: Node| n@)
}

impl NodeModel {
    /// Well-formedness: endpoint handles are unique within the node and
    /// below the node's handle counter.
    pub open spec fn wf(self) -> bool {
        &&& forall|i: int, j: int|
            0 <= i < j < self.endpoints.len() ==> (#[trigger] self.endpoints[i].id)
                != (#[trigger] self.endpoints[j].id)
        &&& forall|i: int|
            0 <= i < self.endpoints.len() ==> (#[trigger] self.endpoints[i].id) < self.next_id
    }
}

impl Node {
    /// Creates a node with the given name on a context.
    ///
    /// Fails with [`RclrsError::InvalidContext`] exactly when the context
    /// was already shut down.
    pub fn new(context: &Context, node_name: &str) -> (r: Result<Node, RclrsError>)
        ensures
            context.valid <==> r is Ok,
            r matches Ok(n) ==> n@.name == node_name@ && n@.next_id == 0 && n@.endpoints
                =~= Seq::<EndpointModel>::empty() && n@.wf(),
            r matches Err(e) ==> e == RclrsError::InvalidContext,
    {
        if !context.is_valid() {
            return Err(RclrsError::InvalidContext);
        }
        let n = Node { name: node_name.to_owned(), next_id: 0, endpoints: Vec::new() };
        proof {
            assert(n@.endpoints =~= Seq::<EndpointModel>::empty());
        }
        Ok(n)
    }

    /// Returns a builder for a node with the given name.
    pub fn builder(context: &Context, node_name: &str) -> (r: NodeBuilder)
        ensures
            r.context_valid == context.valid,
            r.name@ == node_name@,
    {
        NodeBuilder { context_valid: context.is_valid(), name: node_name.to_owned() }
    }

    /// Creates one endpoint of the given kind and returns its handle.
    fn create_endpoint(&mut self, kind: EndpointKind) -> (id: u64)
        requires
            old(self).next_id < u64::MAX,
        ensures
            id == old(self)@.next_id,
            final(self)@.next_id == old(self)@.next_id + 1,
            final(self)@.name == old(self)@.name,
            final(self)@.endpoints == old(self)@.endpoints.push(
                EndpointModel {
                    id: old(self)@.next_id,
                    kind: kind,
                    pending: Seq::<u64>::empty(),
                    delivered: Seq::<u64>::empty(),
                    faulted: false,
                },
            ),
            old(self)@.wf() ==> final(self)@.wf(),
    {
        let id = self.next_id;
        let ep = Endpoint {
            id: id,
            kind: kind,
            pending: Vec::new(),
            delivered: Vec::new(),
            faulted: false,
        };
        self.next_id = id + 1;
        self.endpoints.push(ep);
        proof {
            assert(self@.endpoints =~= old(self)@.endpoints.push(
                EndpointModel {
                    id: id,
                    kind: kind,
                    pending: Seq::<u64>::empty(),
                    delivered: Seq::<u64>::empty(),
                    faulted: false,
                },
            ));
        }
        id
    }

    /// Registers a new subscription on this node and returns its handle.
    pub fn create_subscription(&mut self) -> (id: u64)
        requires
            old(self).next_id < u64::MAX,
        ensures
            id == old(self)@.next_id,
            final(self)@.next_id == old(self)@.next_id + 1,
            final(self)@.name == old(self)@.name,
            final(self)@.endpoints == old(self)@.endpoints.push(
                EndpointModel {
                    id: old(self)@.next_id,
                    kind: EndpointKind::Subscription,
                    pending: Seq::<u64>::empty(),
                    delivered: Seq::<u64>::empty(),
                    faulted: false,
                },
            ),
            old(self)@.wf() ==> final(self)@.wf(),
    {
        self.create_endpoint(EndpointKind::Subscription)
    }

    /// Registers a new service client on this node and returns its handle.
    pub fn create_client(&mut self) -> (id: u64)
        requires
            old(self).next_id < u64::MAX,
        ensures
            id == old(self)@.next_id,
            final(self)@.next_id == old(self)@.next_id + 1,
            final(self)@.name == old(self)@.name,
            final(self)@.endpoints == old(self)@.endpoints.push(
                EndpointModel {
                    id: old(self)@.next_id,
                    kind: EndpointKind::Client,
                    pending: Seq::<u64>::empty(),
                    delivered: Seq::<u64>::empty(),
                    faulted: false,
                },
            ),
            old(self)@.wf() ==> final(self)@.wf(),
    {
        self.create_endpoint(EndpointKind::Client)
    }

    /// Registers a new service server on this node and returns its handle.
    pub fn create_service(&mut self) -> (id: u64)
        requires
            old(self).next_id < u64::MAX,
        ensures
            id == old(self)@.next_id,
            final(self)@.next_id == old(self)@.next_id + 1,
            final(self)@.name == old(self)@.name,
            final(self)@.endpoints == old(self)@.endpoints.push(
                EndpointModel {
                    id: old(self)@.next_id,
                    kind: EndpointKind::Service,
                    pending: Seq::<u64>::empty(),
                    delivered: Seq::<u64>::empty(),
                    faulted: false,
                },
            ),
            old(self)@.wf() ==> final(self)@.wf(),
    {
        self.create_endpoint(EndpointKind::Service)
    }

    /// Returns the index of the endpoint with the given handle, if any.
    pub(crate) fn find_endpoint_index(&self, id: u64) -> (r: Option<usize>)
        ensures
            match r {
                Some(i) => 0 <= i < self@.endpoints.len() && self@.endpoints[i as int].id == id
                    && i as int == ep_at(self@.endpoints, id),
                None => !ep_has(self@.endpoints, id),
            },
    {
        let mut i: usize = 0;
        while i < self.endpoints.len()
            invariant
                0 <= i <= self.endpoints.len(),
                forall|j: int| 0 <= j < i ==> (#[trigger] self@.endpoints[j].id) != id,
            decreases self.endpoints.len() - i,
        {
            if self.endpoints[i].id == id {
                proof {
                    assert(self@.endpoints[i as int].id == id);
                    lemma_ep_at(self@.endpoints, id);
                }
                return Some(i);
            }
            i = i + 1;
        }
        None
    }

    /// Destroys the endpoint with the given handle, removing it from the
    /// node so that no later wait-set build can see it. Returns whether the
    /// endpoint existed.
    pub fn destroy_endpoint(&mut self, id: u64) -> (found: bool)
        ensures
            found == ep_has(old(self)@.endpoints, id),
            final(self)@.name == old(self)@.name,
            final(self)@.next_id == old(self)@.next_id,
            found ==> final(self)@.endpoints == old(self)@.endpoints.remove(
                ep_at(old(self)@.endpoints, id),
            ),
            !found ==> final(self)@ == old(self)@,
            old(self)@.wf() ==> final(self)@.wf(),
    {
        match self.find_endpoint_index(id) {
            None => false,
            Some(i) => {
                let ghost m = self@;
                let _ = self.endpoints.remove(i);
                proof {
                    assert(self@.endpoints =~= m.endpoints.remove(i as int));
                    if m.wf() {
                        lemma_wf_remove(m, i as int);
                    }
                }
                true
            },
        }
    }

    /// Hands this node's endpoint an incoming item, as the middleware
    /// transport would on arrival of a message, request or response.
    /// Returns whether the endpoint existed.
    pub fn deliver(&mut self, id: u64, item: u64) -> (found: bool)
        ensures
            found == ep_has(old(self)@.endpoints, id),
            final(self)@.name == old(self)@.name,
            final(self)@.next_id == old(self)@.next_id,
            found ==> ({
                let i = ep_at(old(self)@.endpoints, id);
                let e = old(self)@.endpoints[i];
                final(self)@.endpoints == old(self)@.endpoints.update(
                    i,
                    EndpointModel { pending: e.pending.push(item), ..e },
                )
            }),
            !found ==> final(self)@ == old(self)@,
            old(self)@.wf() ==> final(self)@.wf(),
    {
        match self.find_endpoint_index(id) {
            None => false,
            Some(i) => {
                let ghost m = self@;
                let mut ep = self.endpoints.remove(i);
                ep.pending.push(item);
                self.endpoints.insert(i, ep);
                proof {
                    let e = m.endpoints[i as int];
                    let e2 = EndpointModel { pending: e.pending.push(item), ..e };
                    assert(self@.endpoints =~= m.endpoints.update(i as int, e2));
                    if m.wf() {
                        lemma_wf_update_same_id(m, i as int, e2);
                    }
                }
                true
            },
        }
    }

    /// Marks the endpoint with the given handle as faulted: from now on the
    /// provider fails every take on it. Stands for a provider-level error on
    /// that endpoint. Returns whether the endpoint existed.
    pub fn mark_faulted(&mut self, id: u64) -> (found: bool)
        ensures
            found == ep_has(old(self)@.endpoints, id),
            final(self)@.name == old(self)@.name,
            final(self)@.next_id == old(self)@.next_id,
            found ==> ({
                let i = ep_at(old(self)@.endpoints, id);
                let e = old(self)@.endpoints[i];
                final(self)@.endpoints == old(self)@.endpoints.update(
                    i,
                    EndpointModel { faulted: true, ..e },
                )
            }),
            !found ==> final(self)@ == old(self)@,
            old(self)@.wf() ==> final(self)@.wf(),
    {
        match self.find_endpoint_index(id) {
            None => false,
            Some(i) => {
                let ghost m = self@;
                let mut ep = self.endpoints.remove(i);
                ep.faulted = true;
                self.endpoints.insert(i, ep);
                proof {
                    let e = m.endpoints[i as int];
                    let e2 = EndpointModel { faulted: true, ..e };
                    assert(self@.endpoints =~= m.endpoints.update(i as int, e2));
                    if m.wf() {
                        lemma_wf_update_same_id(m, i as int, e2);
                    }
                }
                true
            },
        }
    }
}

/// Removing an endpoint keeps a node model well-formed.
pub proof fn lemma_wf_remove(m: NodeModel, i: int)
    requires
        m.wf(),
        0 <= i < m.endpoints.len(),
    ensures
        (NodeModel { endpoints: m.endpoints.remove(i), ..m }).wf(),
{
    let r = m.endpoints.remove(i);
    assert forall|a: int, b: int| 0 <= a < b < r.len() implies (#[trigger] r[a].id)
        != (#[trigger] r[b].id) by {
        let a0 = if a < i { a } else { a + 1 };
        let b0 = if b < i { b } else { b + 1 };
        assert(r[a] == m.endpoints[a0]);
        assert(r[b] == m.endpoints[b0]);
    }
    assert forall|a: int| 0 <= a < r.len() implies (#[trigger] r[a].id) < m.next_id by {
        let a0 = if a < i { a } else { a + 1 };
        assert(r[a] == m.endpoints[a0]);
    }
}

/// Replacing an endpoint by one with the same handle keeps a node model
/// well-formed.
pub proof fn lemma_wf_update_same_id(m: NodeModel, i: int, e: EndpointModel)
    requires
        m.wf(),
        0 <= i < m.endpoints.len(),
        e.id == m.endpoints[i].id,
    ensures
        (NodeModel { endpoints: m.endpoints.update(i, e), ..m }).wf(),
{
    let r = m.endpoints.update(i, e);
    assert forall|a: int, b: int| 0 <= a < b < r.len() implies (#[trigger] r[a].id)
        != (#[trigger] r[b].id) by {
        assert(m.endpoints[a].id != m.endpoints[b].id);
    }
    assert forall|a: int| 0 <= a < r.len() implies (#[trigger] r[a].id) < m.next_id by {
        assert(m.endpoints[a].id < m.next_id);
    }
}

/// Builder for a [`Node`], capturing the context's validity and the name.
pub struct NodeBuilder {
    /// Whether the context was valid when the builder was made.
    pub context_valid: bool,
    /// Name the node will carry.
    pub name: String,
}

impl NodeBuilder {
    /// Builds the node. Fails with [`RclrsError::InvalidContext`] exactly
    /// when the context was already shut down when the builder was made.
    pub fn build(self) -> (r: Result<Node, RclrsError>)
        ensures
            self.context_valid <==> r is Ok,
            r matches Ok(n) ==> n@.name == self.name@ && n@.next_id == 0 && n@.endpoints
                =~= Seq::<EndpointModel>::empty() && n@.wf(),
            r matches Err(e) ==> e == RclrsError::InvalidContext,
    {
        if !self.context_valid {
            return Err(RclrsError::InvalidContext);
        }
        let n = Node { name: self.name, next_id: 0, endpoints: Vec::new() };
        proof {
            assert(n@.endpoints =~= Seq::<EndpointModel>::empty());
        }
        Ok(n)
    }
}

} // verus!

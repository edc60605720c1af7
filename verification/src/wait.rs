use vstd::prelude::*;

use crate::error::RclrsError;
use crate::node::ep_at;
use crate::node::ep_has;
use crate::node::lemma_ep_at;
use crate::node::nodes_model;
use crate::node::Node;
use crate::node::NodeModel;

verus! {

/// Handle of one endpoint as a wait set sees it: the index of the owning
/// node in the executor's registry, and the endpoint's handle within that
/// node.
#[derive(Clone, Copy, PartialEq, Eq, Structural, Debug)]
pub struct EndpointHandle {
    /// Index of the owning node in the registry snapshot.
    pub node: usize,
    /// Handle of the endpoint within its node.
    pub id: u64,
}

/// True when the endpoint behind `h` exists and is ready: it has a pending
/// item, or a fault the provider will report on take.
pub open spec fn handle_ready(nodes: Seq<NodeModel>, h: EndpointHandle) -> bool {
    &&& h.node < nodes.len()
    &&& ep_has(nodes[h.node as int].endpoints, h.id)
    &&& nodes[h.node as int].endpoints[ep_at(nodes[h.node as int].endpoints, h.id)].is_ready()
}

/// An aggregated snapshot of waitable handles, polled together in one call.
///
/// A wait set is built fresh for every spin cycle from the endpoints that
/// are registered at that moment, so a destroyed endpoint can never leak
/// into a wait: that is the central defensive design decision of this core.
pub struct WaitSet {
    /// Number of handles this wait set was sized for.
    pub capacity: usize,
    /// Registered subscription handles, in registration order.
    pub subscriptions: Vec<EndpointHandle>,
    /// Registered client handles, in registration order.
    pub clients: Vec<EndpointHandle>,
    /// Registered service handles, in registration order.
    pub services: Vec<EndpointHandle>,
}

/// Readiness result of one wait: for each category, one boolean per
/// registered handle, in registration order. A wait that times out yields
/// all-false entries without error.
pub struct ReadyEntities {
    /// Readiness of each subscription handle.
    pub subscriptions: Vec<bool>,
    /// Readiness of each client handle.
    pub clients: Vec<bool>,
    /// Readiness of each service handle.
    pub services: Vec<bool>,
}

/// True when `h` occurs in `hs`.
fn contains_handle(hs: &Vec<EndpointHandle>, h: EndpointHandle) -> (r: bool)
    ensures
        r == hs@.contains(h),
{
    let mut i: usize = 0;
    while i < hs.len()
        invariant
            0 <= i <= hs.len(),
            forall|j: int| 0 <= j < i ==> hs@[j] != h,
        decreases hs.len() - i,
    {
        if hs[i] == h {
            return true;
        }
        i = i + 1;
    }
    false
}

impl WaitSet {
    /// Handles registered over all categories.
    pub open spec fn total(self) -> int {
        self.subscriptions@.len() as int + self.clients@.len() as int + self.services@.len() as int
    }

    /// Well-formedness: sized for its contents, and no handle registered
    /// twice within a category.
    pub open spec fn wf(self) -> bool {
        &&& self.total() <= self.capacity
        &&& self.subscriptions@.no_duplicates()
        &&& self.clients@.no_duplicates()
        &&& self.services@.no_duplicates()
    }

    /// Allocates an empty wait set with room for `capacity_hint` handles.
    ///
    /// The in-memory provider can always allocate, so this never reports
    /// [`RclrsError::WaitSetInitFailed`]; the error exists for callers
    /// written against a provider that can run out of wait-set storage.
    pub fn new(capacity_hint: usize) -> (r: Result<WaitSet, RclrsError>)
        ensures
            r matches Ok(w) ==> w.wf() && w.capacity == capacity_hint && w.subscriptions@
                =~= Seq::<EndpointHandle>::empty() && w.clients@ =~= Seq::<
                EndpointHandle,
            >::empty() && w.services@ =~= Seq::<EndpointHandle>::empty(),
            r is Ok,
    {
        Ok(
            WaitSet {
                capacity: capacity_hint,
                subscriptions: Vec::new(),
                clients: Vec::new(),
                services: Vec::new(),
            },
        )
    }

    /// Registers one subscription handle.
    ///
    /// Fails with [`RclrsError::AlreadyAdded`] when the same handle is
    /// already registered in this category, and with
    /// [`RclrsError::WaitSetFull`] when the wait set was sized without room
    /// for it; in both cases the wait set is unchanged.
    pub fn add_subscription(&mut self, h: EndpointHandle) -> (r: Result<(), RclrsError>)
        requires
            old(self).wf(),
        ensures
            final(self).wf(),
            final(self).capacity == old(self).capacity,
            old(self).subscriptions@.contains(h) ==> r == Err::<(), RclrsError>(
                RclrsError::AlreadyAdded,
            ) && *final(self) == *old(self),
            !old(self).subscriptions@.contains(h) && old(self).total() >= old(self).capacity ==> r
                == Err::<(), RclrsError>(RclrsError::WaitSetFull) && *final(self) == *old(self),
            !old(self).subscriptions@.contains(h) && old(self).total() < old(self).capacity ==> r
                == Ok::<(), RclrsError>(()) && final(self).subscriptions@ == old(self).subscriptions@.push(h) && final(self).clients@ == old(self).clients@ && final(self).services@ == old(self).services@,
    {
        if contains_handle(&self.subscriptions, h) {
            return Err(RclrsError::AlreadyAdded);
        }
        if self.subscriptions.len() + self.clients.len() + self.services.len() >= self.capacity {
            return Err(RclrsError::WaitSetFull);
        }
        self.subscriptions.push(h);
        Ok(())
    }

    /// Registers one client handle; fails as [`WaitSet::add_subscription`]
    /// does.
    pub fn add_client(&mut self, h: EndpointHandle) -> (r: Result<(), RclrsError>)
        requires
            old(self).wf(),
        ensures
            final(self).wf(),
            final(self).capacity == old(self).capacity,
            old(self).clients@.contains(h) ==> r == Err::<(), RclrsError>(RclrsError::AlreadyAdded)
                && *final(self) == *old(self),
            !old(self).clients@.contains(h) && old(self).total() >= old(self).capacity ==> r
                == Err::<(), RclrsError>(RclrsError::WaitSetFull) && *final(self) == *old(self),
            !old(self).clients@.contains(h) && old(self).total() < old(self).capacity ==> r
                == Ok::<(), RclrsError>(()) && final(self).clients@ == old(self).clients@.push(h)
                && final(self).subscriptions@ == old(self).subscriptions@ && final(self).services@
                == old(self).services@,
    {
        if contains_handle(&self.clients, h) {
            return Err(RclrsError::AlreadyAdded);
        }
        if self.subscriptions.len() + self.clients.len() + self.services.len() >= self.capacity {
            return Err(RclrsError::WaitSetFull);
        }
        self.clients.push(h);
        Ok(())
    }

    /// Registers one service handle; fails as [`WaitSet::add_subscription`]
    /// does.
    pub fn add_service(&mut self, h: EndpointHandle) -> (r: Result<(), RclrsError>)
        requires
            old(self).wf(),
        ensures
            final(self).wf(),
            final(self).capacity == old(self).capacity,
            old(self).services@.contains(h) ==> r == Err::<(), RclrsError>(RclrsError::AlreadyAdded)
                && *final(self) == *old(self),
            !old(self).services@.contains(h) && old(self).total() >= old(self).capacity ==> r
                == Err::<(), RclrsError>(RclrsError::WaitSetFull) && *final(self) == *old(self),
            !old(self).services@.contains(h) && old(self).total() < old(self).capacity ==> r
                == Ok::<(), RclrsError>(()) && final(self).services@ == old(self).services@.push(h)
                && final(self).subscriptions@ == old(self).subscriptions@ && final(self).clients@
                == old(self).clients@,
    {
        if contains_handle(&self.services, h) {
            return Err(RclrsError::AlreadyAdded);
        }
        if self.subscriptions.len() + self.clients.len() + self.services.len() >= self.capacity {
            return Err(RclrsError::WaitSetFull);
        }
        self.services.push(h);
        Ok(())
    }

    /// Waits for readiness of the registered handles against the current
    /// registry state and reports, per category and in registration order,
    /// which handles are ready.
    ///
    /// A `timeout` of `None` asks for an indefinite block, and `Some(0)`
    /// for a non-blocking poll. The in-memory provider decides readiness
    /// from the endpoints' own state and never has to block, so every call
    /// returns at once and the timeout value does not change the result; a
    /// wait with nothing ready yields all-false entries, which is not an
    /// error. [`RclrsError::WaitSetWaitFailed`] is never reported here; it
    /// exists for callers written against a provider whose wait can fail.
    pub fn wait(&self, nodes: &Vec<Node>, timeout: Option<u64>) -> (r: Result<
        ReadyEntities,
        RclrsError,
    >)
        ensures
            r is Ok,
            r matches Ok(re) ==> ({
                let m = nodes_model(nodes@);
                &&& re.subscriptions@.len() == self.subscriptions@.len()
                &&& re.clients@.len() == self.clients@.len()
                &&& re.services@.len() == self.services@.len()
                &&& forall|i: int|
                    0 <= i < self.subscriptions@.len() ==> re.subscriptions@[i] == handle_ready(
                        m,
                        self.subscriptions@[i],
                    )
                &&& forall|i: int|
                    0 <= i < self.clients@.len() ==> re.clients@[i] == handle_ready(
                        m,
                        self.clients@[i],
                    )
                &&& forall|i: int|
                    0 <= i < self.services@.len() ==> re.services@[i] == handle_ready(
                        m,
                        self.services@[i],
                    )
            }),
    {
        let _ = timeout;
        Ok(
            ReadyEntities {
                subscriptions: readiness_of(nodes, &self.subscriptions),
                clients: readiness_of(nodes, &self.clients),
                services: readiness_of(nodes, &self.services),
            },
        )
    }
}

/// Decides readiness of one handle against the current registry state.
fn handle_is_ready(nodes: &Vec<Node>, h: EndpointHandle) -> (r: bool)
    ensures
        r == handle_ready(nodes_model(nodes@), h),
{
    if h.node >= nodes.len() {
        return false;
    }
    let node = &nodes[h.node];
    match node.find_endpoint_index(h.id) {
        None => false,
        Some(i) => {
            proof {
                lemma_ep_at(node@.endpoints, h.id);
                assert(nodes_model(nodes@)[h.node as int] == node@);
            }
            let e = &node.endpoints[i];
            e.pending.len() > 0 || e.faulted
        },
    }
}

/// Readiness of each handle of one category, in registration order.
fn readiness_of(nodes: &Vec<Node>, hs: &Vec<EndpointHandle>) -> (r: Vec<bool>)
    ensures
        r@.len() == hs@.len(),
        forall|i: int| 0 <= i < hs@.len() ==> r@[i] == handle_ready(nodes_model(nodes@), hs@[i]),
{
    let mut r: Vec<bool> = Vec::new();
    let mut i: usize = 0;
    while i < hs.len()
        invariant
            0 <= i <= hs.len(),
            r@.len() == i,
            forall|j: int|
                0 <= j < i ==> r@[j] == handle_ready(nodes_model(nodes@), hs@[j]),
        decreases hs.len() - i,
    {
        let b = handle_is_ready(nodes, hs[i]);
        r.push(b);
        i = i + 1;
    }
    r
}

} // verus!

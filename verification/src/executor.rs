use vstd::prelude::*;

use crate::error::RclrsError;
use crate::node::ep_at;
use crate::node::ep_has;
use crate::node::lemma_ep_at;
use crate::node::nodes_model;
use crate::node::EndpointKind;
use crate::node::EndpointModel;
use crate::node::Node;
use crate::node::NodeModel;
use crate::wait::handle_ready;
use crate::wait::EndpointHandle;
use crate::wait::ReadyEntities;
use crate::wait::WaitSet;

verus! {

/// One callback invocation performed by a spin cycle: the endpoint it went
/// to and the item it was invoked with.
#[derive(Clone, Copy, PartialEq, Eq, Structural, Debug)]
pub struct DispatchRecord {
    /// Category of the dispatched endpoint.
    pub kind: EndpointKind,
    /// Handle of the dispatched endpoint.
    pub handle: EndpointHandle,
    /// The item the callback was invoked with.
    pub item: u64,
}

/// Model of everything one spin cycle reads and writes: the registry of
/// nodes, the ordered log of callback invocations, and the collected take
/// errors.
pub struct CycleModel {
    /// Models of the registered nodes, in registry order.
    pub nodes: Seq<NodeModel>,
    /// Callback invocations so far, oldest first.
    pub log: Seq<DispatchRecord>,
    /// Take errors collected so far, oldest first.
    pub errors: Seq<RclrsError>,
}

/// All node models in a registry are well-formed.
pub open spec fn nodes_wf(nodes: Seq<NodeModel>) -> bool {
    forall|i: int| 0 <= i < nodes.len() ==> (#[trigger] nodes[i]).wf()
}

/// The take error reported for one endpoint, by its category.
pub open spec fn take_error(kind: EndpointKind, h: EndpointHandle) -> RclrsError {
    match kind {
        EndpointKind::Service => RclrsError::ServiceTakeFailed { node: h.node, id: h.id },
        EndpointKind::Client => RclrsError::ClientTakeFailed { node: h.node, id: h.id },
        EndpointKind::Subscription => RclrsError::SubscriptionTakeFailed {
            node: h.node,
            id: h.id,
        },
    }
}

/// Effect of visiting one wait-set entry during dispatch.
///
/// An entry not reported ready is skipped. A stale handle (no such node or
/// endpoint, or one of another category) is skipped: a destroyed endpoint
/// is never touched. A faulted endpoint yields one take error and no
/// callback, and does not stop the cycle. A ready endpoint with a pending
/// item has that item taken and delivered to its callback, which the log
/// records. A spurious wakeup (reported ready, nothing pending) is skipped
/// silently: no error, no callback.
pub open spec fn take_step(
    s: CycleModel,
    kind: EndpointKind,
    h: EndpointHandle,
    ready: bool,
) -> CycleModel {
    if !ready || h.node >= s.nodes.len() {
        s
    } else {
        let nm = s.nodes[h.node as int];
        if !ep_has(nm.endpoints, h.id) {
            s
        } else {
            let j = ep_at(nm.endpoints, h.id);
            let e = nm.endpoints[j];
            if e.kind != kind {
                s
            } else if e.faulted {
                CycleModel { errors: s.errors.push(take_error(kind, h)), ..s }
            } else if e.pending.len() > 0 {
                let e2 = EndpointModel {
                    pending: e.pending.drop_first(),
                    delivered: e.delivered.push(e.pending[0]),
                    ..e
                };
                let nm2 = NodeModel { endpoints: nm.endpoints.update(j, e2), ..nm };
                CycleModel {
                    nodes: s.nodes.update(h.node as int, nm2),
                    log: s.log.push(DispatchRecord { kind: kind, handle: h, item: e.pending[0] }),
                    ..s
                }
            } else {
                s
            }
        }
    }
}

/// Dispatch of the first `upto` entries of one category, in index order.
pub open spec fn run_category_upto(
    s: CycleModel,
    kind: EndpointKind,
    hs: Seq<EndpointHandle>,
    rd: Seq<bool>,
    upto: int,
) -> CycleModel
    decreases upto,
{
    if upto <= 0 {
        s
    } else {
        take_step(run_category_upto(s, kind, hs, rd, upto - 1), kind, hs[upto - 1], rd[upto - 1])
    }
}

/// Dispatch of one whole category, in index order.
pub open spec fn run_category(
    s: CycleModel,
    kind: EndpointKind,
    hs: Seq<EndpointHandle>,
    rd: Seq<bool>,
) -> CycleModel {
    run_category_upto(s, kind, hs, rd, hs.len() as int)
}

/// Handles of the first `upto` endpoints of node `nidx` that belong to
/// category `kind`, in creation order.
pub open spec fn node_handles_upto(
    eps: Seq<EndpointModel>,
    nidx: usize,
    kind: EndpointKind,
    upto: int,
) -> Seq<EndpointHandle>
    decreases upto,
{
    if upto <= 0 {
        Seq::empty()
    } else {
        let prefix = node_handles_upto(eps, nidx, kind, upto - 1);
        if eps[upto - 1].kind == kind {
            prefix.push(EndpointHandle { node: nidx, id: eps[upto - 1].id })
        } else {
            prefix
        }
    }
}

/// Handles of all endpoints of node `nidx` that belong to category `kind`.
pub open spec fn node_handles(
    eps: Seq<EndpointModel>,
    nidx: usize,
    kind: EndpointKind,
) -> Seq<EndpointHandle> {
    node_handles_upto(eps, nidx, kind, eps.len() as int)
}

/// The category-`kind` part of a wait-set snapshot over the first `upto`
/// nodes: node order, then creation order within a node.
pub open spec fn category_handles_upto(
    nodes: Seq<NodeModel>,
    kind: EndpointKind,
    upto: int,
) -> Seq<EndpointHandle>
    decreases upto,
{
    if upto <= 0 {
        Seq::empty()
    } else {
        category_handles_upto(nodes, kind, upto - 1) + node_handles(
            nodes[upto - 1].endpoints,
            (upto - 1) as usize,
            kind,
        )
    }
}

/// The category-`kind` part of a wait-set snapshot over a whole registry.
pub open spec fn category_handles(nodes: Seq<NodeModel>, kind: EndpointKind) -> Seq<
    EndpointHandle,
> {
    category_handles_upto(nodes, kind, nodes.len() as int)
}

/// Readiness of each handle, as one wait reports it.
pub open spec fn readiness_model(nodes: Seq<NodeModel>, hs: Seq<EndpointHandle>) -> Seq<bool> {
    hs.map_values(|h: EndpointHandle| handle_ready(nodes, h))
}

/// One whole spin cycle: snapshot the three categories, decide readiness
/// once against the snapshot state, then dispatch services, then clients,
/// then subscriptions, each in index order.
pub open spec fn cycle_model(s: CycleModel) -> CycleModel {
    let svc = category_handles(s.nodes, EndpointKind::Service);
    let cli = category_handles(s.nodes, EndpointKind::Client);
    let sub = category_handles(s.nodes, EndpointKind::Subscription);
    let s1 = run_category(s, EndpointKind::Service, svc, readiness_model(s.nodes, svc));
    let s2 = run_category(s1, EndpointKind::Client, cli, readiness_model(s.nodes, cli));
    run_category(s2, EndpointKind::Subscription, sub, readiness_model(s.nodes, sub))
}

/// Total number of endpoints over the first `upto` nodes.
pub open spec fn total_endpoints_upto(nodes: Seq<NodeModel>, upto: int) -> int
    decreases upto,
{
    if upto <= 0 {
        0
    } else {
        total_endpoints_upto(nodes, upto - 1) + nodes[upto - 1].endpoints.len()
    }
}

/// Total number of endpoints over a whole registry.
pub open spec fn total_endpoints(nodes: Seq<NodeModel>) -> int {
    total_endpoints_upto(nodes, nodes.len() as int)
}

/// The running endpoint count grows with the prefix length.
pub proof fn lemma_total_endpoints_mono(nodes: Seq<NodeModel>, a: int, b: int)
    requires
        0 <= a <= b,
    ensures
        total_endpoints_upto(nodes, a) <= total_endpoints_upto(nodes, b),
        0 <= total_endpoints_upto(nodes, a),
    decreases b,
{
    if b > 0 {
        if a == b {
            lemma_total_endpoints_mono(nodes, a - 1, b - 1);
        } else {
            lemma_total_endpoints_mono(nodes, a, b - 1);
        }
    }
}

/// The single-threaded executor: owns the registry of nodes it services,
/// and drives build-wait-dispatch cycles over them.
///
/// Callback invocations are recorded in `dispatch_log` (and in each
/// endpoint's own `delivered` log); take errors that did not abort a cycle
/// are collected in `take_errors`.
pub struct SingleThreadedExecutor {
    /// The registered nodes, in registration order.
    pub nodes: Vec<Node>,
    /// Every callback invocation performed so far, in dispatch order.
    pub dispatch_log: Vec<DispatchRecord>,
    /// Every take error collected so far, in dispatch order.
    pub take_errors: Vec<RclrsError>,
}

impl SingleThreadedExecutor {
    /// Model of this executor's whole state.
    pub open spec fn model(self) -> CycleModel {
        CycleModel {
            nodes: nodes_model(self.nodes@),
            log: self.dispatch_log@,
            errors: self.take_errors@,
        }
    }

    /// Well-formedness: every registered node is well-formed.
    pub open spec fn wf(self) -> bool {
        nodes_wf(nodes_model(self.nodes@))
    }

    /// Creates an executor servicing no nodes.
    pub fn new() -> (r: SingleThreadedExecutor)
        ensures
            r.wf(),
            r.model().nodes =~= Seq::<NodeModel>::empty(),
            r.model().log =~= Seq::<DispatchRecord>::empty(),
            r.model().errors =~= Seq::<RclrsError>::empty(),
    {
        SingleThreadedExecutor { nodes: Vec::new(), dispatch_log: Vec::new(), take_errors: Vec::new() }
    }

    /// Registers a node with this executor. The node takes part in every
    /// later cycle; a cycle already in progress is not affected, since each
    /// cycle snapshots the registry when it starts.
    pub fn add_node(&mut self, node: Node) -> (r: Result<(), RclrsError>)
        requires
            old(self).wf(),
            node@.wf(),
        ensures
            final(self).wf(),
            r is Ok,
            final(self).model().nodes == old(self).model().nodes.push(node@),
            final(self).model().log == old(self).model().log,
            final(self).model().errors == old(self).model().errors,
    {
        self.nodes.push(node);
        proof {
            assert(self.model().nodes =~= old(self).model().nodes.push(node@));
        }
        Ok(())
    }
}


/// Visits one wait-set entry reported ready: takes the endpoint's pending
/// item and invokes its callback, records a take error for a faulted
/// endpoint, and skips stale handles and spurious wakeups, exactly as
/// [`take_step`] says.
fn take_one(
    nodes: &mut Vec<Node>,
    log: &mut Vec<DispatchRecord>,
    errors: &mut Vec<RclrsError>,
    kind: EndpointKind,
    h: EndpointHandle,
)
    ensures
        ({
            let pre = CycleModel {
                nodes: nodes_model(old(nodes)@),
                log: old(log)@,
                errors: old(errors)@,
            };
            let post = take_step(pre, kind, h, true);
            &&& nodes_model(final(nodes)@) == post.nodes
            &&& final(log)@ == post.log
            &&& final(errors)@ == post.errors
        }),
{
    let ghost pre = CycleModel { nodes: nodes_model(nodes@), log: log@, errors: errors@ };
    if h.node >= nodes.len() {
        return ;
    }
    proof {
        assert(pre.nodes[h.node as int] == nodes@[h.node as int]@);
    }
    let idx = nodes[h.node].find_endpoint_index(h.id);
    match idx {
        None => {},
        Some(j) => {
            let ghost nm = pre.nodes[h.node as int];
            let ghost jj = j as int;
            let ghost e = nm.endpoints[jj];
            let e_kind = nodes[h.node].endpoints[j].kind;
            if e_kind != kind {
                return ;
            }
            let e_faulted = nodes[h.node].endpoints[j].faulted;
            if e_faulted {
                let err = match kind {
                    EndpointKind::Service => RclrsError::ServiceTakeFailed {
                        node: h.node,
                        id: h.id,
                    },
                    EndpointKind::Client => RclrsError::ClientTakeFailed {
                        node: h.node,
                        id: h.id,
                    },
                    EndpointKind::Subscription => RclrsError::SubscriptionTakeFailed {
                        node: h.node,
                        id: h.id,
                    },
                };
                errors.push(err);
                return ;
            }
            if nodes[h.node].endpoints[j].pending.len() == 0 {
                return ;
            }
            let mut node = nodes.remove(h.node);
            let mut ep = node.endpoints.remove(j);
            let item = ep.pending.remove(0);
            ep.delivered.push(item);
            node.endpoints.insert(j, ep);
            nodes.insert(h.node, node);
            log.push(DispatchRecord { kind: kind, handle: h, item: item });
            proof {
                let e2 = EndpointModel {
                    pending: e.pending.drop_first(),
                    delivered: e.delivered.push(item),
                    ..e
                };
                assert(ep@.pending =~= e.pending.drop_first());
                assert(ep@.delivered == e.delivered.push(item));
                assert(ep@ == e2);
                assert(node@.endpoints =~= nm.endpoints.update(jj, e2));
                let nm2 = NodeModel { endpoints: nm.endpoints.update(jj, e2), ..nm };
                assert(node@ == nm2);
                assert(nodes_model(nodes@) =~= pre.nodes.update(h.node as int, nm2));
                assert(item == e.pending[0]);
            }
        },
    }
}

/// Dispatches one category of a wait-set snapshot: visits each handle
/// reported ready, in index order, as [`run_category`] says. A failure on
/// one endpoint never stops the remaining entries from being visited.
fn dispatch_category(
    nodes: &mut Vec<Node>,
    log: &mut Vec<DispatchRecord>,
    errors: &mut Vec<RclrsError>,
    kind: EndpointKind,
    hs: &Vec<EndpointHandle>,
    rd: &Vec<bool>,
)
    requires
        rd@.len() == hs@.len(),
    ensures
        ({
            let pre = CycleModel {
                nodes: nodes_model(old(nodes)@),
                log: old(log)@,
                errors: old(errors)@,
            };
            let post = run_category(pre, kind, hs@, rd@);
            &&& nodes_model(final(nodes)@) == post.nodes
            &&& final(log)@ == post.log
            &&& final(errors)@ == post.errors
        }),
{
    let ghost pre = CycleModel { nodes: nodes_model(nodes@), log: log@, errors: errors@ };
    let mut i: usize = 0;
    while i < hs.len()
        invariant
            0 <= i <= hs.len(),
            rd@.len() == hs@.len(),
            pre == (CycleModel {
                nodes: nodes_model(old(nodes)@),
                log: old(log)@,
                errors: old(errors)@,
            }),
            nodes_model(nodes@) == run_category_upto(pre, kind, hs@, rd@, i as int).nodes,
            log@ == run_category_upto(pre, kind, hs@, rd@, i as int).log,
            errors@ == run_category_upto(pre, kind, hs@, rd@, i as int).errors,
        decreases hs.len() - i,
    {
        let ghost before = run_category_upto(pre, kind, hs@, rd@, i as int);
        if rd[i] {
            take_one(nodes, log, errors, kind, hs[i]);
        }
        proof {
            assert(run_category_upto(pre, kind, hs@, rd@, i + 1) == take_step(
                before,
                kind,
                hs@[i as int],
                rd@[i as int],
            ));
        }
        i = i + 1;
    }
}


/// True when node `nm` owns an endpoint of category `kind` with handle `id`.
pub open spec fn kind_ep_in(nm: NodeModel, kind: EndpointKind, id: u64) -> bool {
    exists|j: int|
        0 <= j < nm.endpoints.len() && (#[trigger] nm.endpoints[j]).kind == kind
            && nm.endpoints[j].id == id
}

/// What `node_handles_upto` contains: exactly the handles of this node's
/// first `upto` endpoints of the requested category.
pub proof fn lemma_node_handles_membership(
    eps: Seq<EndpointModel>,
    nidx: usize,
    kind: EndpointKind,
    upto: int,
)
    requires
        0 <= upto <= eps.len(),
    ensures
        forall|h: EndpointHandle|
            #[trigger] node_handles_upto(eps, nidx, kind, upto).contains(h) <==> (h.node == nidx
                && exists|j: int|
                0 <= j < upto && (#[trigger] eps[j]).kind == kind && eps[j].id == h.id),
    decreases upto,
{
    broadcast use vstd::seq_lib::group_seq_properties;

    if upto > 0 {
        lemma_node_handles_membership(eps, nidx, kind, upto - 1);
        let prefix = node_handles_upto(eps, nidx, kind, upto - 1);
        let cur = node_handles_upto(eps, nidx, kind, upto);
        if eps[upto - 1].kind == kind {
            let x = EndpointHandle { node: nidx, id: eps[upto - 1].id };
            assert(cur == prefix.push(x));
            assert forall|h: EndpointHandle| #[trigger] cur.contains(h) implies (h.node == nidx
                && exists|j: int|
                0 <= j < upto && (#[trigger] eps[j]).kind == kind && eps[j].id == h.id) by {
                if h == x {
                    assert(eps[upto - 1].kind == kind && eps[upto - 1].id == h.id);
                } else {
                    let i = choose|i: int| 0 <= i < cur.len() && cur[i] == h;
                    assert(i < prefix.len());
                    assert(prefix[i] == cur[i]);
                    assert(prefix.contains(h));
                }
            }
            assert forall|h: EndpointHandle|
                (h.node == nidx && exists|j: int|
                    0 <= j < upto && (#[trigger] eps[j]).kind == kind && eps[j].id
                        == h.id) implies #[trigger] cur.contains(h) by {
                let j = choose|j: int|
                    0 <= j < upto && (#[trigger] eps[j]).kind == kind && eps[j].id == h.id;
                if j < upto - 1 {
                    assert(prefix.contains(h));
                    let i = choose|i: int| 0 <= i < prefix.len() && prefix[i] == h;
                    assert(cur[i] == h);
                } else {
                    assert(h == x);
                    assert(cur[cur.len() - 1] == x);
                }
            }
        } else {
            assert(cur == prefix);
            assert forall|h: EndpointHandle|
                (h.node == nidx && exists|j: int|
                    0 <= j < upto && (#[trigger] eps[j]).kind == kind && eps[j].id
                        == h.id) implies #[trigger] cur.contains(h) by {
                let j = choose|j: int|
                    0 <= j < upto && (#[trigger] eps[j]).kind == kind && eps[j].id == h.id;
                assert(j < upto - 1);
            }
        }
    }
}

/// What `category_handles_upto` contains: exactly the handles of the first
/// `upto` nodes' endpoints of the requested category.
pub proof fn lemma_category_handles_membership(nodes: Seq<NodeModel>, kind: EndpointKind, upto: int)
    requires
        0 <= upto <= nodes.len(),
        nodes.len() <= usize::MAX,
    ensures
        forall|h: EndpointHandle|
            #[trigger] category_handles_upto(nodes, kind, upto).contains(h) <==> (h.node < upto
                && kind_ep_in(nodes[h.node as int], kind, h.id)),
    decreases upto,
{
    broadcast use vstd::seq_lib::group_seq_properties;

    if upto > 0 {
        lemma_category_handles_membership(nodes, kind, upto - 1);
        let prefix = category_handles_upto(nodes, kind, upto - 1);
        let part = node_handles(nodes[upto - 1].endpoints, (upto - 1) as usize, kind);
        let cur = category_handles_upto(nodes, kind, upto);
        assert(cur == prefix + part);
        lemma_node_handles_membership(
            nodes[upto - 1].endpoints,
            (upto - 1) as usize,
            kind,
            nodes[upto - 1].endpoints.len() as int,
        );
        assert forall|h: EndpointHandle| #[trigger] cur.contains(h) implies (h.node < upto
            && kind_ep_in(nodes[h.node as int], kind, h.id)) by {
            let i = choose|i: int| 0 <= i < cur.len() && cur[i] == h;
            if i < prefix.len() {
                assert(prefix[i] == cur[i]);
                assert(prefix.contains(h));
            } else {
                assert(part[i - prefix.len()] == cur[i]);
                assert(part.contains(h));
            }
        }
        assert forall|h: EndpointHandle|
            (h.node < upto && kind_ep_in(nodes[h.node as int], kind, h.id)) implies #[trigger] cur
            .contains(h) by {
            if h.node < upto - 1 {
                assert(prefix.contains(h));
                let i = choose|i: int| 0 <= i < prefix.len() && prefix[i] == h;
                assert(cur[i] == h);
            } else {
                assert(part.contains(h));
                let i = choose|i: int| 0 <= i < part.len() && part[i] == h;
                assert(cur[prefix.len() + i] == h);
            }
        }
    }
}

/// Counts the endpoints over all nodes of the registry.
fn count_endpoints(nodes: &Vec<Node>) -> (total: usize)
    requires
        total_endpoints(nodes_model(nodes@)) <= usize::MAX,
    ensures
        total as int == total_endpoints(nodes_model(nodes@)),
{
    let ghost m = nodes_model(nodes@);
    let mut c: usize = 0;
    let mut n: usize = 0;
    while n < nodes.len()
        invariant
            0 <= n <= nodes.len(),
            m == nodes_model(nodes@),
            total_endpoints(m) <= usize::MAX,
            m.len() == nodes@.len(),
            c as int == total_endpoints_upto(m, n as int),
        decreases nodes.len() - n,
    {
        proof {
            assert(m[n as int] == nodes@[n as int]@);
            lemma_total_endpoints_mono(m, n as int + 1, m.len() as int);
            lemma_total_endpoints_mono(m, 0, n as int);
        }
        c = c + nodes[n].endpoints.len();
        n = n + 1;
    }
    c
}

/// Builds a fresh wait-set snapshot of every live endpoint of the registry,
/// sized exactly for them, category by category in node order then creation
/// order.
fn build_wait_set(nodes: &Vec<Node>) -> (ws: WaitSet)
    requires
        nodes_wf(nodes_model(nodes@)),
        total_endpoints(nodes_model(nodes@)) <= usize::MAX,
    ensures
        ws.wf(),
        ws.services@ == category_handles(nodes_model(nodes@), EndpointKind::Service),
        ws.clients@ == category_handles(nodes_model(nodes@), EndpointKind::Client),
        ws.subscriptions@ == category_handles(nodes_model(nodes@), EndpointKind::Subscription),
{
    let ghost m = nodes_model(nodes@);
    let total = count_endpoints(nodes);
    let mut ws = match WaitSet::new(total) {
        Ok(w) => w,
        Err(_) => WaitSet {
            capacity: total,
            subscriptions: Vec::new(),
            clients: Vec::new(),
            services: Vec::new(),
        },
    };
    let mut n: usize = 0;
    while n < nodes.len()
        invariant
            0 <= n <= nodes.len(),
            m == nodes_model(nodes@),
            nodes_wf(m),
            total_endpoints(m) <= usize::MAX,
            m.len() == nodes@.len(),
            total as int == total_endpoints(m),
            ws.wf(),
            ws.capacity == total,
            ws.services@ == category_handles_upto(m, EndpointKind::Service, n as int),
            ws.clients@ == category_handles_upto(m, EndpointKind::Client, n as int),
            ws.subscriptions@ == category_handles_upto(m, EndpointKind::Subscription, n as int),
            ws.total() == total_endpoints_upto(m, n as int),
        decreases nodes.len() - n,
    {
        let ghost eps = m[n as int].endpoints;
        proof {
            assert(m[n as int] == nodes@[n as int]@);
        }
        let mut j: usize = 0;
        while j < nodes[n].endpoints.len()
            invariant
                0 <= n < nodes.len(),
                0 <= j <= nodes@[n as int].endpoints@.len(),
                m == nodes_model(nodes@),
                nodes_wf(m),
                total_endpoints(m) <= usize::MAX,
                m.len() == nodes@.len(),
                m.len() <= usize::MAX,
                eps == m[n as int].endpoints,
                eps == nodes@[n as int]@.endpoints,
                total as int == total_endpoints(m),
                ws.wf(),
                ws.capacity == total,
                ws.services@ == category_handles_upto(m, EndpointKind::Service, n as int)
                    + node_handles_upto(eps, n, EndpointKind::Service, j as int),
                ws.clients@ == category_handles_upto(m, EndpointKind::Client, n as int)
                    + node_handles_upto(eps, n, EndpointKind::Client, j as int),
                ws.subscriptions@ == category_handles_upto(m, EndpointKind::Subscription, n as int)
                    + node_handles_upto(eps, n, EndpointKind::Subscription, j as int),
                ws.total() == total_endpoints_upto(m, n as int) + j,
            decreases nodes@[n as int].endpoints@.len() - j,
        {
            let kind = nodes[n].endpoints[j].kind;
            let id = nodes[n].endpoints[j].id;
            let h = EndpointHandle { node: n, id: id };
            proof {
                assert(m[n as int] == nodes@[n as int]@);
                assert(eps[j as int] == nodes@[n as int].endpoints@[j as int]@);
                assert(eps[j as int].kind == kind && eps[j as int].id == id);
                assert(m[n as int].wf());
                lemma_category_handles_membership(m, kind, n as int);
                lemma_node_handles_membership(eps, n, kind, j as int);
                let cat = category_handles_upto(m, kind, n as int);
                let part = node_handles_upto(eps, n, kind, j as int);
                assert(!cat.contains(h));
                assert(!part.contains(h)) by {
                    if part.contains(h) {
                        let jj = choose|jj: int|
                            0 <= jj < j && (#[trigger] eps[jj]).kind == kind && eps[jj].id == id;
                        assert(eps[jj].id != eps[j as int].id);
                    }
                }
                assert(!(cat + part).contains(h)) by {
                    if (cat + part).contains(h) {
                        let i = choose|i: int|
                            0 <= i < (cat + part).len() && (cat + part)[i] == h;
                        if i < cat.len() {
                            assert(cat[i] == (cat + part)[i]);
                        } else {
                            assert(part[i - cat.len()] == (cat + part)[i]);
                        }
                    }
                }
                lemma_total_endpoints_mono(m, n as int + 1, m.len() as int);
                assert(ws.total() < total as int);
            }
            let r = match kind {
                EndpointKind::Service => ws.add_service(h),
                EndpointKind::Client => ws.add_client(h),
                EndpointKind::Subscription => ws.add_subscription(h),
            };
            proof {
                assert(r is Ok);
                assert(node_handles_upto(eps, n, kind, j as int + 1) == node_handles_upto(
                    eps,
                    n,
                    kind,
                    j as int,
                ).push(h));
                assert(ws.services@ == category_handles_upto(m, EndpointKind::Service, n as int)
                    + node_handles_upto(eps, n, EndpointKind::Service, j as int + 1)) by {
                    broadcast use vstd::seq_lib::group_seq_properties;

                }
                assert(ws.clients@ == category_handles_upto(m, EndpointKind::Client, n as int)
                    + node_handles_upto(eps, n, EndpointKind::Client, j as int + 1)) by {
                    broadcast use vstd::seq_lib::group_seq_properties;

                }
                assert(ws.subscriptions@ == category_handles_upto(
                    m,
                    EndpointKind::Subscription,
                    n as int,
                ) + node_handles_upto(eps, n, EndpointKind::Subscription, j as int + 1)) by {
                    broadcast use vstd::seq_lib::group_seq_properties;

                }
            }
            let _ = r;
            j = j + 1;
        }
        proof {
            assert(node_handles_upto(eps, n, EndpointKind::Service, eps.len() as int)
                == node_handles(eps, n, EndpointKind::Service));
            assert(category_handles_upto(m, EndpointKind::Service, n as int + 1)
                == category_handles_upto(m, EndpointKind::Service, n as int) + node_handles(
                m[n as int].endpoints,
                n,
                EndpointKind::Service,
            ));
        }
        n = n + 1;
    }
    ws
}


/// One dispatch step keeps every node model well-formed.
pub proof fn lemma_take_step_wf(s: CycleModel, kind: EndpointKind, h: EndpointHandle, ready: bool)
    requires
        nodes_wf(s.nodes),
    ensures
        nodes_wf(take_step(s, kind, h, ready).nodes),
{
    let post = take_step(s, kind, h, ready);
    if post.nodes != s.nodes {
        let nm = s.nodes[h.node as int];
        lemma_ep_at(nm.endpoints, h.id);
        let j = ep_at(nm.endpoints, h.id);
        let e = nm.endpoints[j];
        let e2 = EndpointModel {
            pending: e.pending.drop_first(),
            delivered: e.delivered.push(e.pending[0]),
            ..e
        };
        assert(nm.wf());
        crate::node::lemma_wf_update_same_id(nm, j, e2);
        let nm2 = NodeModel { endpoints: nm.endpoints.update(j, e2), ..nm };
        assert(post.nodes == s.nodes.update(h.node as int, nm2));
        assert forall|i: int| 0 <= i < post.nodes.len() implies (#[trigger] post.nodes[i]).wf() by {
            if i != h.node as int {
                assert(post.nodes[i] == s.nodes[i]);
            }
        }
    }
}

/// Dispatching a category prefix keeps every node model well-formed.
pub proof fn lemma_run_category_wf(
    s: CycleModel,
    kind: EndpointKind,
    hs: Seq<EndpointHandle>,
    rd: Seq<bool>,
    upto: int,
)
    requires
        nodes_wf(s.nodes),
        0 <= upto,
    ensures
        nodes_wf(run_category_upto(s, kind, hs, rd, upto).nodes),
    decreases upto,
{
    if upto > 0 {
        lemma_run_category_wf(s, kind, hs, rd, upto - 1);
        lemma_take_step_wf(
            run_category_upto(s, kind, hs, rd, upto - 1),
            kind,
            hs[upto - 1],
            rd[upto - 1],
        );
    }
}

/// Dispatch only appends to the error log: what was collected stays, in
/// place, and new errors follow it.
pub proof fn lemma_run_errors_extend(
    s: CycleModel,
    kind: EndpointKind,
    hs: Seq<EndpointHandle>,
    rd: Seq<bool>,
    upto: int,
)
    requires
        0 <= upto,
    ensures
        run_category_upto(s, kind, hs, rd, upto).errors.len() >= s.errors.len(),
        forall|i: int|
            0 <= i < s.errors.len() ==> run_category_upto(s, kind, hs, rd, upto).errors[i]
                == s.errors[i],
    decreases upto,
{
    if upto > 0 {
        lemma_run_errors_extend(s, kind, hs, rd, upto - 1);
    }
}

impl SingleThreadedExecutor {
    /// Performs one spin cycle, exactly as [`cycle_model`] says: snapshots
    /// every registered node's live endpoints into a fresh wait set, waits
    /// for readiness against that snapshot, then dispatches every ready
    /// endpoint in category order (services, then clients, then
    /// subscriptions) and index order within each category.
    ///
    /// Each ready endpoint with a pending item gets exactly one callback
    /// invocation with that item; a spurious wakeup is skipped silently; a
    /// take error on one endpoint is collected in `take_errors` without
    /// stopping dispatch of the rest of the cycle. After the whole cycle
    /// has run, the first error collected this cycle, if any, is returned.
    /// See [`WaitSet::wait`] for the meaning of `timeout`.
    pub fn spin_once(&mut self, timeout: Option<u64>) -> (r: Result<(), RclrsError>)
        requires
            old(self).wf(),
            total_endpoints(old(self).model().nodes) <= usize::MAX,
        ensures
            final(self).wf(),
            final(self).model() == cycle_model(old(self).model()),
            ({
                let base = old(self).model().errors.len() as int;
                let post = cycle_model(old(self).model());
                if post.errors.len() > base {
                    r == Err::<(), RclrsError>(post.errors[base])
                } else {
                    r == Ok::<(), RclrsError>(())
                }
            }),
    {
        let ghost pre = self.model();
        let ws = build_wait_set(&self.nodes);
        let ghost svc = ws.services@;
        let ghost cli = ws.clients@;
        let ghost sub = ws.subscriptions@;
        let ready = match ws.wait(&self.nodes, timeout) {
            Ok(re) => re,
            Err(e) => {
                return Err(e);
            },
        };
        let base = self.take_errors.len();
        proof {
            assert(ready.services@ =~= readiness_model(pre.nodes, svc));
            assert(ready.clients@ =~= readiness_model(pre.nodes, cli));
            assert(ready.subscriptions@ =~= readiness_model(pre.nodes, sub));
        }
        dispatch_category(
            &mut self.nodes,
            &mut self.dispatch_log,
            &mut self.take_errors,
            EndpointKind::Service,
            &ws.services,
            &ready.services,
        );
        proof {
            assert(self.model() == run_category(
                pre,
                EndpointKind::Service,
                svc,
                readiness_model(pre.nodes, svc),
            ));
        }
        dispatch_category(
            &mut self.nodes,
            &mut self.dispatch_log,
            &mut self.take_errors,
            EndpointKind::Client,
            &ws.clients,
            &ready.clients,
        );
        proof {
            let s1 = run_category(pre, EndpointKind::Service, svc, readiness_model(pre.nodes, svc));
            assert(self.model() == run_category(
                s1,
                EndpointKind::Client,
                cli,
                readiness_model(pre.nodes, cli),
            ));
        }
        dispatch_category(
            &mut self.nodes,
            &mut self.dispatch_log,
            &mut self.take_errors,
            EndpointKind::Subscription,
            &ws.subscriptions,
            &ready.subscriptions,
        );
        proof {
            let rs = readiness_model(pre.nodes, svc);
            let rc = readiness_model(pre.nodes, cli);
            let rb = readiness_model(pre.nodes, sub);
            let s1 = run_category(pre, EndpointKind::Service, svc, rs);
            let s2 = run_category(s1, EndpointKind::Client, cli, rc);
            let s3 = run_category(s2, EndpointKind::Subscription, sub, rb);
            assert(self.model() == s3);
            assert(s3 == cycle_model(pre));
            lemma_run_category_wf(pre, EndpointKind::Service, svc, rs, svc.len() as int);
            lemma_run_category_wf(s1, EndpointKind::Client, cli, rc, cli.len() as int);
            lemma_run_category_wf(s2, EndpointKind::Subscription, sub, rb, sub.len() as int);
            lemma_run_errors_extend(pre, EndpointKind::Service, svc, rs, svc.len() as int);
            lemma_run_errors_extend(s1, EndpointKind::Client, cli, rc, cli.len() as int);
            lemma_run_errors_extend(s2, EndpointKind::Subscription, sub, rb, sub.len() as int);
            assert(s3.errors.len() >= base);
            assert forall|i: int| 0 <= i < base implies s3.errors[i] == pre.errors[i] by {
                assert(s1.errors[i] == pre.errors[i]);
                assert(s2.errors[i] == s1.errors[i]);
            }
        }
        if self.take_errors.len() > base {
            Err(self.take_errors[base])
        } else {
            Ok(())
        }
    }
}


/// What one spin cycle does to a single endpoint: a non-faulted endpoint
/// with a pending item has its oldest item taken and delivered to its
/// callback; every other endpoint is left exactly as it was.
pub open spec fn cycle_endpoint(e: EndpointModel) -> EndpointModel {
    if !e.faulted && e.pending.len() > 0 {
        EndpointModel {
            pending: e.pending.drop_first(),
            delivered: e.delivered.push(e.pending[0]),
            ..e
        }
    } else {
        e
    }
}

/// One dispatch step never adds, removes or reorders nodes or endpoints,
/// never renames a node, never changes an endpoint's handle, category or
/// fault flag, and touches no endpoint but the one its handle names.
pub proof fn lemma_take_step_structure(s: CycleModel, kind: EndpointKind, h: EndpointHandle, ready: bool)
    requires
        nodes_wf(s.nodes),
    ensures
        ({
            let post = take_step(s, kind, h, ready);
            &&& post.nodes.len() == s.nodes.len()
            &&& forall|n: int|
                0 <= n < s.nodes.len() ==> (#[trigger] post.nodes[n]).name == s.nodes[n].name
                    && post.nodes[n].next_id == s.nodes[n].next_id
                    && post.nodes[n].endpoints.len() == s.nodes[n].endpoints.len()
            &&& forall|n: int, j: int|
                0 <= n < s.nodes.len() && 0 <= j < s.nodes[n].endpoints.len() ==> {
                    let e0 = s.nodes[n].endpoints[j];
                    let e1 = #[trigger] post.nodes[n].endpoints[j];
                    &&& e1.id == e0.id
                    &&& e1.kind == e0.kind
                    &&& e1.faulted == e0.faulted
                    &&& ((h.node != n || e0.id != h.id) ==> e1 == e0)
                }
        }),
{
    let post = take_step(s, kind, h, ready);
    if ready && h.node < s.nodes.len() {
        let nm = s.nodes[h.node as int];
        if ep_has(nm.endpoints, h.id) {
            lemma_ep_at(nm.endpoints, h.id);
        }
    }
}

/// Dispatching a category prefix preserves the registry's structure the
/// same way each of its steps does.
pub proof fn lemma_run_structure(
    s: CycleModel,
    kind: EndpointKind,
    hs: Seq<EndpointHandle>,
    rd: Seq<bool>,
    upto: int,
)
    requires
        nodes_wf(s.nodes),
        0 <= upto,
    ensures
        ({
            let post = run_category_upto(s, kind, hs, rd, upto);
            &&& post.nodes.len() == s.nodes.len()
            &&& forall|n: int|
                0 <= n < s.nodes.len() ==> (#[trigger] post.nodes[n]).name == s.nodes[n].name
                    && post.nodes[n].next_id == s.nodes[n].next_id
                    && post.nodes[n].endpoints.len() == s.nodes[n].endpoints.len()
            &&& forall|n: int, j: int|
                0 <= n < s.nodes.len() && 0 <= j < s.nodes[n].endpoints.len() ==> {
                    let e0 = s.nodes[n].endpoints[j];
                    let e1 = #[trigger] post.nodes[n].endpoints[j];
                    e1.id == e0.id && e1.kind == e0.kind && e1.faulted == e0.faulted
                }
        }),
    decreases upto,
{
    if upto > 0 {
        lemma_run_structure(s, kind, hs, rd, upto - 1);
        lemma_run_category_wf(s, kind, hs, rd, upto - 1);
        lemma_take_step_structure(
            run_category_upto(s, kind, hs, rd, upto - 1),
            kind,
            hs[upto - 1],
            rd[upto - 1],
        );
    }
}

/// An endpoint whose handle occurs nowhere in a range of wait-set entries
/// is left untouched by dispatching that range.
pub proof fn lemma_run_untouched(
    s: CycleModel,
    kind: EndpointKind,
    hs: Seq<EndpointHandle>,
    rd: Seq<bool>,
    lo: int,
    hi: int,
    n: int,
    j: int,
)
    requires
        nodes_wf(s.nodes),
        0 <= lo <= hi,
        0 <= n < s.nodes.len(),
        0 <= j < s.nodes[n].endpoints.len(),
        forall|i: int|
            lo <= i < hi ==> !((#[trigger] hs[i]).node == n && hs[i].id
                == s.nodes[n].endpoints[j].id),
    ensures
        run_category_upto(s, kind, hs, rd, hi).nodes[n].endpoints[j] == run_category_upto(
            s,
            kind,
            hs,
            rd,
            lo,
        ).nodes[n].endpoints[j],
    decreases hi - lo,
{
    if hi > lo {
        lemma_run_untouched(s, kind, hs, rd, lo, hi - 1, n, j);
        let sp = run_category_upto(s, kind, hs, rd, hi - 1);
        lemma_run_category_wf(s, kind, hs, rd, hi - 1);
        lemma_run_structure(s, kind, hs, rd, hi - 1);
        lemma_take_step_structure(sp, kind, hs[hi - 1], rd[hi - 1]);
        assert(sp.nodes[n].endpoints[j].id == s.nodes[n].endpoints[j].id);
    }
}

/// The handles of one node's category list are pairwise distinct, and all
/// carry that node's index.
pub proof fn lemma_node_handles_no_dup(
    eps: Seq<EndpointModel>,
    nidx: usize,
    kind: EndpointKind,
    upto: int,
    next_id: u64,
)
    requires
        0 <= upto <= eps.len(),
        (NodeModel { name: Seq::empty(), next_id: next_id, endpoints: eps }).wf(),
    ensures
        node_handles_upto(eps, nidx, kind, upto).no_duplicates(),
    decreases upto,
{
    broadcast use vstd::seq_lib::group_seq_properties;

    if upto > 0 {
        lemma_node_handles_no_dup(eps, nidx, kind, upto - 1, next_id);
        lemma_node_handles_membership(eps, nidx, kind, upto - 1);
        let prefix = node_handles_upto(eps, nidx, kind, upto - 1);
        if eps[upto - 1].kind == kind {
            let x = EndpointHandle { node: nidx, id: eps[upto - 1].id };
            assert(!prefix.contains(x)) by {
                if prefix.contains(x) {
                    let jj = choose|jj: int|
                        0 <= jj < upto - 1 && (#[trigger] eps[jj]).kind == kind && eps[jj].id
                            == x.id;
                    assert(eps[jj].id != eps[upto - 1].id);
                }
            }
            let cur = prefix.push(x);
            assert forall|a: int, b: int| 0 <= a < b < cur.len() implies cur[a] != cur[b] by {
                if b < cur.len() - 1 {
                    assert(prefix[a] == cur[a] && prefix[b] == cur[b]);
                } else {
                    assert(cur[b] == x);
                    assert(prefix[a] == cur[a]);
                    assert(prefix.contains(prefix[a]));
                }
            }
        }
    }
}

/// The whole category list of a well-formed registry is pairwise distinct.
pub proof fn lemma_category_no_dup(nodes: Seq<NodeModel>, kind: EndpointKind, upto: int)
    requires
        nodes_wf(nodes),
        0 <= upto <= nodes.len(),
        nodes.len() <= usize::MAX,
    ensures
        category_handles_upto(nodes, kind, upto).no_duplicates(),
    decreases upto,
{
    broadcast use vstd::seq_lib::group_seq_properties;

    if upto > 0 {
        lemma_category_no_dup(nodes, kind, upto - 1);
        lemma_category_handles_membership(nodes, kind, upto - 1);
        let nm = nodes[upto - 1];
        assert(nm.wf());
        lemma_node_handles_no_dup(
            nm.endpoints,
            (upto - 1) as usize,
            kind,
            nm.endpoints.len() as int,
            nm.next_id,
        );
        lemma_node_handles_membership(
            nm.endpoints,
            (upto - 1) as usize,
            kind,
            nm.endpoints.len() as int,
        );
        let prefix = category_handles_upto(nodes, kind, upto - 1);
        let part = node_handles(nm.endpoints, (upto - 1) as usize, kind);
        let cur = category_handles_upto(nodes, kind, upto);
        assert(cur == prefix + part);
        assert forall|a: int, b: int| 0 <= a < b < cur.len() implies cur[a] != cur[b] by {
            if b < prefix.len() {
                assert(prefix[a] == cur[a] && prefix[b] == cur[b]);
            } else if a >= prefix.len() {
                assert(part[a - prefix.len()] == cur[a] && part[b - prefix.len()] == cur[b]);
            } else {
                assert(prefix[a] == cur[a] && part[b - prefix.len()] == cur[b]);
                assert(prefix.contains(cur[a]));
                assert(part.contains(cur[b]));
                assert(cur[a].node < upto - 1 && cur[b].node == (upto - 1) as usize);
            }
        }
    }
}


/// Dispatching one whole category visits an endpoint whose handle stands
/// at position `p` of the category exactly once, and leaves it as
/// [`cycle_endpoint`] says, whatever happens at the other entries.
pub proof fn lemma_run_dispatch_once(
    s: CycleModel,
    kind: EndpointKind,
    hs: Seq<EndpointHandle>,
    rd: Seq<bool>,
    n: int,
    j: int,
    p: int,
)
    requires
        nodes_wf(s.nodes),
        rd.len() == hs.len(),
        hs.no_duplicates(),
        0 <= n < s.nodes.len(),
        0 <= j < s.nodes[n].endpoints.len(),
        0 <= p < hs.len(),
        hs[p].node == n && hs[p].id == s.nodes[n].endpoints[j].id,
        s.nodes[n].endpoints[j].kind == kind,
        rd[p] == s.nodes[n].endpoints[j].is_ready(),
    ensures
        run_category(s, kind, hs, rd).nodes[n].endpoints[j] == cycle_endpoint(
            s.nodes[n].endpoints[j],
        ),
{
    let e = s.nodes[n].endpoints[j];
    let h = hs[p];
    assert forall|i: int| 0 <= i < p implies !((#[trigger] hs[i]).node == n && hs[i].id
        == e.id) by {
        if hs[i].node == n && hs[i].id == e.id {
            assert(hs[i] == h);
        }
    }
    lemma_run_untouched(s, kind, hs, rd, 0, p, n, j);
    let sp = run_category_upto(s, kind, hs, rd, p);
    lemma_run_category_wf(s, kind, hs, rd, p);
    lemma_run_structure(s, kind, hs, rd, p);
    assert(sp.nodes[n].endpoints[j] == e);
    let nm = sp.nodes[h.node as int];
    assert(ep_has(nm.endpoints, h.id)) by {
        assert(nm.endpoints[j].id == h.id);
    }
    lemma_ep_at(nm.endpoints, h.id);
    let jj = ep_at(nm.endpoints, h.id);
    assert(jj == j) by {
        assert(nm.wf());
        assert(nm.endpoints[jj].id == h.id && nm.endpoints[j].id == h.id);
        if jj != j {
            assert(nm.endpoints[jj].id != nm.endpoints[j].id);
        }
    }
    let spost = take_step(sp, kind, h, rd[p]);
    assert(spost == run_category_upto(s, kind, hs, rd, p + 1));
    assert(spost.nodes[n].endpoints[j] == cycle_endpoint(e)) by {
        if rd[p] {
            if e.faulted {
                assert(spost.nodes == sp.nodes);
            } else if e.pending.len() > 0 {
                let e2 = EndpointModel {
                    pending: e.pending.drop_first(),
                    delivered: e.delivered.push(e.pending[0]),
                    ..e
                };
                assert(spost.nodes[n].endpoints == nm.endpoints.update(j, e2));
            }
        } else {
            assert(!e.is_ready());
        }
    }
    lemma_take_step_structure(sp, kind, h, rd[p]);
    assert forall|i: int| p + 1 <= i < hs.len() implies !((#[trigger] hs[i]).node == n && hs[i].id
        == spost.nodes[n].endpoints[j].id) by {
        assert(spost.nodes[n].endpoints[j].id == e.id);
        if hs[i].node == n && hs[i].id == e.id {
            assert(hs[i] == h);
        }
    }
    let s1 = CycleModel { nodes: spost.nodes, log: spost.log, errors: spost.errors };
    assert(s1 == spost);
    assert(nodes_wf(spost.nodes)) by {
        lemma_run_category_wf(s, kind, hs, rd, p + 1);
    }
    lemma_run_untouched(s, kind, hs, rd, p + 1, hs.len() as int, n, j);
}

/// Readiness of the handle naming endpoint `j` of node `n` is exactly that
/// endpoint's own readiness.
pub proof fn lemma_handle_ready_is(nodes: Seq<NodeModel>, n: int, j: int)
    requires
        nodes_wf(nodes),
        nodes.len() <= usize::MAX,
        0 <= n < nodes.len(),
        0 <= j < nodes[n].endpoints.len(),
    ensures
        handle_ready(
            nodes,
            EndpointHandle { node: n as usize, id: nodes[n].endpoints[j].id },
        ) == nodes[n].endpoints[j].is_ready(),
{
    let e = nodes[n].endpoints[j];
    let h = EndpointHandle { node: n as usize, id: e.id };
    assert(ep_has(nodes[n].endpoints, h.id)) by {
        assert(nodes[n].endpoints[j].id == h.id);
    }
    lemma_ep_at(nodes[n].endpoints, h.id);
    let jj = ep_at(nodes[n].endpoints, h.id);
    assert(nodes[n].wf());
    if jj != j {
        assert(nodes[n].endpoints[jj].id != nodes[n].endpoints[j].id);
    }
}

/// The category list of any other category never names endpoint `j` of
/// node `n`.
pub proof fn lemma_not_in_other_category(nodes: Seq<NodeModel>, kind: EndpointKind, n: int, j: int)
    requires
        nodes_wf(nodes),
        nodes.len() <= usize::MAX,
        0 <= n < nodes.len(),
        0 <= j < nodes[n].endpoints.len(),
        nodes[n].endpoints[j].kind != kind,
    ensures
        forall|i: int|
            0 <= i < category_handles(nodes, kind).len() ==> !((#[trigger] category_handles(
                nodes,
                kind,
            )[i]).node == n && category_handles(nodes, kind)[i].id == nodes[n].endpoints[j].id),
{
    let e = nodes[n].endpoints[j];
    let h = EndpointHandle { node: n as usize, id: e.id };
    let hs = category_handles(nodes, kind);
    lemma_category_handles_membership(nodes, kind, nodes.len() as int);
    assert forall|i: int| 0 <= i < hs.len() implies !((#[trigger] hs[i]).node == n && hs[i].id
        == e.id) by {
        if hs[i].node == n && hs[i].id == e.id {
            assert(hs[i] == h);
            assert(hs.contains(h));
            assert(kind_ep_in(nodes[n], kind, e.id));
            let jx = choose|jx: int|
                0 <= jx < nodes[n].endpoints.len() && (#[trigger] nodes[n].endpoints[jx]).kind
                    == kind && nodes[n].endpoints[jx].id == e.id;
            assert(nodes[n].wf());
            if jx != j {
                assert(nodes[n].endpoints[jx].id != nodes[n].endpoints[j].id);
            }
        }
    }
}

/// The category list of an endpoint's own category names it.
pub proof fn lemma_in_own_category(nodes: Seq<NodeModel>, n: int, j: int)
    requires
        nodes_wf(nodes),
        nodes.len() <= usize::MAX,
        0 <= n < nodes.len(),
        0 <= j < nodes[n].endpoints.len(),
    ensures
        category_handles(nodes, nodes[n].endpoints[j].kind).contains(
            EndpointHandle { node: n as usize, id: nodes[n].endpoints[j].id },
        ),
{
    let e = nodes[n].endpoints[j];
    lemma_category_handles_membership(nodes, e.kind, nodes.len() as int);
    assert(kind_ep_in(nodes[n], e.kind, e.id)) by {
        assert((nodes[n].endpoints[j]).kind == e.kind && nodes[n].endpoints[j].id == e.id);
    }
}

/// Exactly-once delivery over one whole spin cycle: every endpoint of a
/// well-formed registry ends the cycle as [`cycle_endpoint`] says, and the
/// registry's shape (nodes, names, handles, categories, fault flags) is
/// unchanged. In particular a ready, non-faulted endpoint gets exactly one
/// callback invocation, and nothing else is touched.
pub proof fn lemma_cycle_per_endpoint(s: CycleModel)
    requires
        nodes_wf(s.nodes),
        s.nodes.len() <= usize::MAX,
    ensures
        ({
            let post = cycle_model(s);
            &&& post.nodes.len() == s.nodes.len()
            &&& forall|n: int|
                0 <= n < s.nodes.len() ==> (#[trigger] post.nodes[n]).name == s.nodes[n].name
                    && post.nodes[n].next_id == s.nodes[n].next_id
                    && post.nodes[n].endpoints.len() == s.nodes[n].endpoints.len()
            &&& forall|n: int, j: int|
                0 <= n < s.nodes.len() && 0 <= j < s.nodes[n].endpoints.len() ==> (
                #[trigger] cycle_model(s).nodes[n].endpoints[j]) == cycle_endpoint(
                    s.nodes[n].endpoints[j],
                )
        }),
{
    let svc = category_handles(s.nodes, EndpointKind::Service);
    let cli = category_handles(s.nodes, EndpointKind::Client);
    let sub = category_handles(s.nodes, EndpointKind::Subscription);
    let rs = readiness_model(s.nodes, svc);
    let rc = readiness_model(s.nodes, cli);
    let rb = readiness_model(s.nodes, sub);
    let s1 = run_category(s, EndpointKind::Service, svc, rs);
    let s2 = run_category(s1, EndpointKind::Client, cli, rc);
    let s3 = run_category(s2, EndpointKind::Subscription, sub, rb);
    lemma_run_category_wf(s, EndpointKind::Service, svc, rs, svc.len() as int);
    lemma_run_category_wf(s1, EndpointKind::Client, cli, rc, cli.len() as int);
    lemma_run_category_wf(s2, EndpointKind::Subscription, sub, rb, sub.len() as int);
    lemma_run_structure(s, EndpointKind::Service, svc, rs, svc.len() as int);
    lemma_run_structure(s1, EndpointKind::Client, cli, rc, cli.len() as int);
    lemma_run_structure(s2, EndpointKind::Subscription, sub, rb, sub.len() as int);
    lemma_category_no_dup(s.nodes, EndpointKind::Service, s.nodes.len() as int);
    lemma_category_no_dup(s.nodes, EndpointKind::Client, s.nodes.len() as int);
    lemma_category_no_dup(s.nodes, EndpointKind::Subscription, s.nodes.len() as int);
    assert forall|n: int, j: int|
        0 <= n < s.nodes.len() && 0 <= j < s.nodes[n].endpoints.len() implies (
    #[trigger] cycle_model(s).nodes[n].endpoints[j]) == cycle_endpoint(
        s.nodes[n].endpoints[j],
    ) by {
        let e = s.nodes[n].endpoints[j];
        let h = EndpointHandle { node: n as usize, id: e.id };
        lemma_handle_ready_is(s.nodes, n, j);
        if e.kind == EndpointKind::Service {
            lemma_in_own_category(s.nodes, n, j);
            let p = choose|p: int| 0 <= p < svc.len() && svc[p] == h;
            assert(rs[p] == handle_ready(s.nodes, h));
            lemma_run_dispatch_once(s, EndpointKind::Service, svc, rs, n, j, p);
            assert(s1.nodes[n].endpoints[j] == cycle_endpoint(e));
            lemma_not_in_other_category(s.nodes, EndpointKind::Client, n, j);
            assert forall|i: int| 0 <= i < cli.len() implies !((#[trigger] cli[i]).node == n
                && cli[i].id == s1.nodes[n].endpoints[j].id) by {
                assert(s1.nodes[n].endpoints[j].id == e.id);
            }
            lemma_run_untouched(s1, EndpointKind::Client, cli, rc, 0, cli.len() as int, n, j);
            lemma_not_in_other_category(s.nodes, EndpointKind::Subscription, n, j);
            assert forall|i: int| 0 <= i < sub.len() implies !((#[trigger] sub[i]).node == n
                && sub[i].id == s2.nodes[n].endpoints[j].id) by {
                assert(s2.nodes[n].endpoints[j].id == e.id);
            }
            lemma_run_untouched(s2, EndpointKind::Subscription, sub, rb, 0, sub.len() as int, n, j);
        } else if e.kind == EndpointKind::Client {
            lemma_not_in_other_category(s.nodes, EndpointKind::Service, n, j);
            lemma_run_untouched(s, EndpointKind::Service, svc, rs, 0, svc.len() as int, n, j);
            assert(s1.nodes[n].endpoints[j] == e);
            lemma_in_own_category(s.nodes, n, j);
            let p = choose|p: int| 0 <= p < cli.len() && cli[p] == h;
            assert(rc[p] == handle_ready(s.nodes, h));
            lemma_run_dispatch_once(s1, EndpointKind::Client, cli, rc, n, j, p);
            assert(s2.nodes[n].endpoints[j] == cycle_endpoint(e));
            lemma_not_in_other_category(s.nodes, EndpointKind::Subscription, n, j);
            assert forall|i: int| 0 <= i < sub.len() implies !((#[trigger] sub[i]).node == n
                && sub[i].id == s2.nodes[n].endpoints[j].id) by {
                assert(s2.nodes[n].endpoints[j].id == e.id);
            }
            lemma_run_untouched(s2, EndpointKind::Subscription, sub, rb, 0, sub.len() as int, n, j);
        } else {
            lemma_not_in_other_category(s.nodes, EndpointKind::Service, n, j);
            lemma_run_untouched(s, EndpointKind::Service, svc, rs, 0, svc.len() as int, n, j);
            assert(s1.nodes[n].endpoints[j] == e);
            lemma_not_in_other_category(s.nodes, EndpointKind::Client, n, j);
            assert forall|i: int| 0 <= i < cli.len() implies !((#[trigger] cli[i]).node == n
                && cli[i].id == s1.nodes[n].endpoints[j].id) by {
                assert(s1.nodes[n].endpoints[j].id == e.id);
            }
            lemma_run_untouched(s1, EndpointKind::Client, cli, rc, 0, cli.len() as int, n, j);
            assert(s2.nodes[n].endpoints[j] == e);
            lemma_in_own_category(s.nodes, n, j);
            let p = choose|p: int| 0 <= p < sub.len() && sub[p] == h;
            assert(rb[p] == handle_ready(s.nodes, h));
            lemma_run_dispatch_once(s2, EndpointKind::Subscription, sub, rb, n, j, p);
        }
    }
}


/// Entries not reported ready are not visited: a run over an all-false
/// readiness vector changes nothing.
pub proof fn lemma_run_identity(
    s: CycleModel,
    kind: EndpointKind,
    hs: Seq<EndpointHandle>,
    rd: Seq<bool>,
    upto: int,
)
    requires
        0 <= upto,
        forall|i: int| 0 <= i < upto ==> !(#[trigger] rd[i]),
    ensures
        run_category_upto(s, kind, hs, rd, upto) == s,
    decreases upto,
{
    if upto > 0 {
        lemma_run_identity(s, kind, hs, rd, upto - 1);
    }
}

/// With no pending item and no fault anywhere, a whole spin cycle is a
/// no-op: no callback is invoked, no error is collected, nothing changes.
/// A `spin_once` over such a registry therefore returns success with zero
/// invocations, whatever the timeout was.
pub proof fn lemma_idle_cycle(s: CycleModel)
    requires
        forall|n: int, j: int|
            0 <= n < s.nodes.len() && 0 <= j < s.nodes[n].endpoints.len() ==> !(
            #[trigger] s.nodes[n].endpoints[j]).is_ready(),
    ensures
        cycle_model(s) == s,
{
    let svc = category_handles(s.nodes, EndpointKind::Service);
    let cli = category_handles(s.nodes, EndpointKind::Client);
    let sub = category_handles(s.nodes, EndpointKind::Subscription);
    let rs = readiness_model(s.nodes, svc);
    let rc = readiness_model(s.nodes, cli);
    let rb = readiness_model(s.nodes, sub);
    assert forall|nodes: Seq<NodeModel>, h: EndpointHandle|
        nodes == s.nodes implies !handle_ready(nodes, h) by {
        if handle_ready(nodes, h) {
            lemma_ep_at(nodes[h.node as int].endpoints, h.id);
        }
    }
    assert forall|i: int| 0 <= i < rs.len() implies !(#[trigger] rs[i]) by {
        assert(rs[i] == handle_ready(s.nodes, svc[i]));
    }
    assert forall|i: int| 0 <= i < rc.len() implies !(#[trigger] rc[i]) by {
        assert(rc[i] == handle_ready(s.nodes, cli[i]));
    }
    assert forall|i: int| 0 <= i < rb.len() implies !(#[trigger] rb[i]) by {
        assert(rb[i] == handle_ready(s.nodes, sub[i]));
    }
    lemma_run_identity(s, EndpointKind::Service, svc, rs, svc.len() as int);
    lemma_run_identity(s, EndpointKind::Client, cli, rc, cli.len() as int);
    lemma_run_identity(s, EndpointKind::Subscription, sub, rb, sub.len() as int);
}

/// Exactly-once delivery: over one spin cycle, a ready non-faulted
/// endpoint's callback is invoked exactly once, with the oldest pending
/// item, and that item alone moves from its pending queue to its delivered
/// log. No duplicate delivery, no dropped delivery.
pub proof fn lemma_exactly_one_dispatch(s: CycleModel, n: int, j: int)
    requires
        nodes_wf(s.nodes),
        s.nodes.len() <= usize::MAX,
        0 <= n < s.nodes.len(),
        0 <= j < s.nodes[n].endpoints.len(),
        !s.nodes[n].endpoints[j].faulted,
        s.nodes[n].endpoints[j].pending.len() > 0,
    ensures
        cycle_model(s).nodes[n].endpoints[j].delivered == s.nodes[n].endpoints[j].delivered.push(
            s.nodes[n].endpoints[j].pending[0],
        ),
        cycle_model(s).nodes[n].endpoints[j].delivered.len() == s.nodes[n].endpoints[
            j
        ].delivered.len() + 1,
        cycle_model(s).nodes[n].endpoints[j].pending == s.nodes[n].endpoints[
            j
        ].pending.drop_first(),
{
    lemma_cycle_per_endpoint(s);
}

/// A spurious wakeup is harmless: visiting an entry that was reported
/// ready although its endpoint has nothing pending (and no fault) changes
/// nothing at all: no callback, no error, no state change. The other
/// entries of the cycle are dispatched regardless, as
/// [`lemma_exactly_one_dispatch`] states for each of them.
pub proof fn lemma_spurious_wakeup(s: CycleModel, kind: EndpointKind, h: EndpointHandle)
    requires
        h.node < s.nodes.len(),
        ep_has(s.nodes[h.node as int].endpoints, h.id),
        ({
            let e = s.nodes[h.node as int].endpoints[ep_at(
                s.nodes[h.node as int].endpoints,
                h.id,
            )];
            e.kind == kind && !e.faulted && e.pending.len() == 0
        }),
    ensures
        take_step(s, kind, h, true) == s,
{
}

/// New log entries of a category run carry that category's kind, and their
/// handles come from the category's handle list; older entries stay.
pub proof fn lemma_run_log_from(
    s: CycleModel,
    kind: EndpointKind,
    hs: Seq<EndpointHandle>,
    rd: Seq<bool>,
    upto: int,
)
    requires
        0 <= upto <= hs.len(),
    ensures
        ({
            let post = run_category_upto(s, kind, hs, rd, upto);
            &&& post.log.len() >= s.log.len()
            &&& forall|i: int| 0 <= i < s.log.len() ==> post.log[i] == s.log[i]
            &&& forall|i: int|
                s.log.len() <= i < post.log.len() ==> (#[trigger] post.log[i]).kind == kind
                    && hs.contains(post.log[i].handle)
        }),
    decreases upto,
{
    if upto > 0 {
        lemma_run_log_from(s, kind, hs, rd, upto - 1);
        let sp = run_category_upto(s, kind, hs, rd, upto - 1);
        let post = run_category_upto(s, kind, hs, rd, upto);
        if post.log != sp.log {
            assert(post.log == sp.log.push(post.log[post.log.len() - 1]));
            assert(post.log[post.log.len() - 1].handle == hs[upto - 1]);
        }
    }
}

/// An endpoint destroyed before the cycle is never touched by it: its
/// handle stands in no category of the snapshot, and no callback
/// invocation of the cycle names it. Destruction strictly before the cycle
/// means the rebuild-each-cycle wait set cannot hold a stale handle.
pub proof fn lemma_destroyed_never_touched(s: CycleModel, h: EndpointHandle)
    requires
        s.nodes.len() <= usize::MAX,
        h.node < s.nodes.len() ==> !ep_has(s.nodes[h.node as int].endpoints, h.id),
    ensures
        !category_handles(s.nodes, EndpointKind::Service).contains(h),
        !category_handles(s.nodes, EndpointKind::Client).contains(h),
        !category_handles(s.nodes, EndpointKind::Subscription).contains(h),
        forall|i: int|
            s.log.len() <= i < cycle_model(s).log.len() ==> (#[trigger] cycle_model(
                s,
            ).log[i]).handle != h,
{
    let svc = category_handles(s.nodes, EndpointKind::Service);
    let cli = category_handles(s.nodes, EndpointKind::Client);
    let sub = category_handles(s.nodes, EndpointKind::Subscription);
    let rs = readiness_model(s.nodes, svc);
    let rc = readiness_model(s.nodes, cli);
    let rb = readiness_model(s.nodes, sub);
    let s1 = run_category(s, EndpointKind::Service, svc, rs);
    let s2 = run_category(s1, EndpointKind::Client, cli, rc);
    let s3 = run_category(s2, EndpointKind::Subscription, sub, rb);
    assert forall|kind: EndpointKind| !(#[trigger] category_handles(s.nodes, kind)).contains(
        h,
    ) by {
        lemma_category_handles_membership(s.nodes, kind, s.nodes.len() as int);
        if category_handles(s.nodes, kind).contains(h) {
            assert(kind_ep_in(s.nodes[h.node as int], kind, h.id));
            let jx = choose|jx: int|
                0 <= jx < s.nodes[h.node as int].endpoints.len() && (#[trigger] s.nodes[h.node as int].endpoints[jx]).kind
                    == kind && s.nodes[h.node as int].endpoints[jx].id == h.id;
            assert(ep_has(s.nodes[h.node as int].endpoints, h.id));
        }
    }
    lemma_run_log_from(s, EndpointKind::Service, svc, rs, svc.len() as int);
    lemma_run_log_from(s1, EndpointKind::Client, cli, rc, cli.len() as int);
    lemma_run_log_from(s2, EndpointKind::Subscription, sub, rb, sub.len() as int);
    assert forall|i: int| s.log.len() <= i < s3.log.len() implies (#[trigger] s3.log[i]).handle
        != h by {
        if i < s1.log.len() {
            assert(s3.log[i] == s1.log[i]);
            if i >= s.log.len() {
                assert(svc.contains(s1.log[i].handle));
            }
        } else if i < s2.log.len() {
            assert(s3.log[i] == s2.log[i]);
            assert(cli.contains(s2.log[i].handle));
        } else {
            assert(sub.contains(s3.log[i].handle));
        }
    }
}


/// Errors collected before entry `lo` are still there, unchanged, after
/// entry `hi`.
pub proof fn lemma_run_errors_range(
    s: CycleModel,
    kind: EndpointKind,
    hs: Seq<EndpointHandle>,
    rd: Seq<bool>,
    lo: int,
    hi: int,
)
    requires
        0 <= lo <= hi,
    ensures
        run_category_upto(s, kind, hs, rd, hi).errors.len() >= run_category_upto(
            s,
            kind,
            hs,
            rd,
            lo,
        ).errors.len(),
        forall|i: int|
            0 <= i < run_category_upto(s, kind, hs, rd, lo).errors.len()
                ==> #[trigger] run_category_upto(s, kind, hs, rd, hi).errors[i]
                == run_category_upto(s, kind, hs, rd, lo).errors[i],
    decreases hi - lo,
{
    if hi > lo {
        lemma_run_errors_range(s, kind, hs, rd, lo, hi - 1);
    }
}

/// A faulted endpoint whose handle stands at position `p` of its category
/// has its take error collected by the category's run.
pub proof fn lemma_run_error_at(
    s: CycleModel,
    kind: EndpointKind,
    hs: Seq<EndpointHandle>,
    rd: Seq<bool>,
    n: int,
    j: int,
    p: int,
)
    requires
        nodes_wf(s.nodes),
        rd.len() == hs.len(),
        hs.no_duplicates(),
        0 <= n < s.nodes.len(),
        0 <= j < s.nodes[n].endpoints.len(),
        0 <= p < hs.len(),
        hs[p].node == n && hs[p].id == s.nodes[n].endpoints[j].id,
        s.nodes[n].endpoints[j].kind == kind,
        s.nodes[n].endpoints[j].faulted,
        rd[p] == s.nodes[n].endpoints[j].is_ready(),
    ensures
        run_category(s, kind, hs, rd).errors.contains(take_error(kind, hs[p])),
        run_category(s, kind, hs, rd).errors.len() > s.errors.len(),
{
    let e = s.nodes[n].endpoints[j];
    let h = hs[p];
    assert forall|i: int| 0 <= i < p implies !((#[trigger] hs[i]).node == n && hs[i].id
        == e.id) by {
        if hs[i].node == n && hs[i].id == e.id {
            assert(hs[i] == h);
        }
    }
    lemma_run_untouched(s, kind, hs, rd, 0, p, n, j);
    let sp = run_category_upto(s, kind, hs, rd, p);
    lemma_run_category_wf(s, kind, hs, rd, p);
    lemma_run_structure(s, kind, hs, rd, p);
    assert(sp.nodes[n].endpoints[j] == e);
    let nm = sp.nodes[h.node as int];
    assert(ep_has(nm.endpoints, h.id)) by {
        assert(nm.endpoints[j].id == h.id);
    }
    lemma_ep_at(nm.endpoints, h.id);
    let jj = ep_at(nm.endpoints, h.id);
    assert(jj == j) by {
        assert(nm.wf());
        if jj != j {
            assert(nm.endpoints[jj].id != nm.endpoints[j].id);
        }
    }
    let spost = take_step(sp, kind, h, rd[p]);
    assert(spost == run_category_upto(s, kind, hs, rd, p + 1));
    assert(spost.errors == sp.errors.push(take_error(kind, h)));
    assert(spost.errors[sp.errors.len() as int] == take_error(kind, h));
    lemma_run_errors_range(s, kind, hs, rd, 0, p);
    lemma_run_errors_range(s, kind, hs, rd, p + 1, hs.len() as int);
    assert(run_category(s, kind, hs, rd).errors[sp.errors.len() as int] == take_error(kind, h));
}

/// A faulted endpoint has its take error collected by the spin cycle.
pub proof fn lemma_cycle_error_for_faulted(s: CycleModel, n: int, j: int)
    requires
        nodes_wf(s.nodes),
        s.nodes.len() <= usize::MAX,
        0 <= n < s.nodes.len(),
        0 <= j < s.nodes[n].endpoints.len(),
        s.nodes[n].endpoints[j].faulted,
    ensures
        cycle_model(s).errors.contains(
            take_error(
                s.nodes[n].endpoints[j].kind,
                EndpointHandle { node: n as usize, id: s.nodes[n].endpoints[j].id },
            ),
        ),
        cycle_model(s).errors.len() > s.errors.len(),
{
    let e = s.nodes[n].endpoints[j];
    let h = EndpointHandle { node: n as usize, id: e.id };
    let svc = category_handles(s.nodes, EndpointKind::Service);
    let cli = category_handles(s.nodes, EndpointKind::Client);
    let sub = category_handles(s.nodes, EndpointKind::Subscription);
    let rs = readiness_model(s.nodes, svc);
    let rc = readiness_model(s.nodes, cli);
    let rb = readiness_model(s.nodes, sub);
    let s1 = run_category(s, EndpointKind::Service, svc, rs);
    let s2 = run_category(s1, EndpointKind::Client, cli, rc);
    let s3 = run_category(s2, EndpointKind::Subscription, sub, rb);
    lemma_run_category_wf(s, EndpointKind::Service, svc, rs, svc.len() as int);
    lemma_run_category_wf(s1, EndpointKind::Client, cli, rc, cli.len() as int);
    lemma_run_structure(s, EndpointKind::Service, svc, rs, svc.len() as int);
    lemma_run_structure(s1, EndpointKind::Client, cli, rc, cli.len() as int);
    lemma_category_no_dup(s.nodes, EndpointKind::Service, s.nodes.len() as int);
    lemma_category_no_dup(s.nodes, EndpointKind::Client, s.nodes.len() as int);
    lemma_category_no_dup(s.nodes, EndpointKind::Subscription, s.nodes.len() as int);
    lemma_handle_ready_is(s.nodes, n, j);
    lemma_in_own_category(s.nodes, n, j);
    let err = take_error(e.kind, h);
    if e.kind == EndpointKind::Service {
        let p = choose|p: int| 0 <= p < svc.len() && svc[p] == h;
        assert(rs[p] == handle_ready(s.nodes, h));
        lemma_run_error_at(s, EndpointKind::Service, svc, rs, n, j, p);
        let i = choose|i: int| 0 <= i < s1.errors.len() && s1.errors[i] == err;
        lemma_run_errors_range(s1, EndpointKind::Client, cli, rc, 0, cli.len() as int);
        assert(s2.errors[i] == err);
        lemma_run_errors_range(s2, EndpointKind::Subscription, sub, rb, 0, sub.len() as int);
        assert(s3.errors[i] == err);
    } else if e.kind == EndpointKind::Client {
        lemma_not_in_other_category(s.nodes, EndpointKind::Service, n, j);
        lemma_run_untouched(s, EndpointKind::Service, svc, rs, 0, svc.len() as int, n, j);
        assert(s1.nodes[n].endpoints[j] == e);
        let p = choose|p: int| 0 <= p < cli.len() && cli[p] == h;
        assert(rc[p] == handle_ready(s.nodes, h));
        lemma_run_error_at(s1, EndpointKind::Client, cli, rc, n, j, p);
        lemma_run_errors_range(s, EndpointKind::Service, svc, rs, 0, svc.len() as int);
        let i = choose|i: int| 0 <= i < s2.errors.len() && s2.errors[i] == err;
        lemma_run_errors_range(s2, EndpointKind::Subscription, sub, rb, 0, sub.len() as int);
        assert(s3.errors[i] == err);
    } else {
        lemma_not_in_other_category(s.nodes, EndpointKind::Service, n, j);
        lemma_run_untouched(s, EndpointKind::Service, svc, rs, 0, svc.len() as int, n, j);
        assert(s1.nodes[n].endpoints[j] == e);
        lemma_not_in_other_category(s.nodes, EndpointKind::Client, n, j);
        assert forall|i: int| 0 <= i < cli.len() implies !((#[trigger] cli[i]).node == n
            && cli[i].id == s1.nodes[n].endpoints[j].id) by {
            assert(s1.nodes[n].endpoints[j].id == e.id);
        }
        lemma_run_untouched(s1, EndpointKind::Client, cli, rc, 0, cli.len() as int, n, j);
        assert(s2.nodes[n].endpoints[j] == e);
        let p = choose|p: int| 0 <= p < sub.len() && sub[p] == h;
        assert(rb[p] == handle_ready(s.nodes, h));
        lemma_run_error_at(s2, EndpointKind::Subscription, sub, rb, n, j, p);
        lemma_run_errors_range(s, EndpointKind::Service, svc, rs, 0, svc.len() as int);
        lemma_run_errors_range(s1, EndpointKind::Client, cli, rc, 0, cli.len() as int);
    }
}

/// Fault isolation: a take failure on one endpoint neither suppresses nor
/// duplicates delivery on an independently ready endpoint in the same
/// cycle. The faulted endpoint's error is collected, the ready endpoint is
/// dispatched exactly once, untouched by the failure.
pub proof fn lemma_fault_isolated(s: CycleModel, na: int, ja: int, nb: int, jb: int)
    requires
        nodes_wf(s.nodes),
        s.nodes.len() <= usize::MAX,
        0 <= na < s.nodes.len(),
        0 <= ja < s.nodes[na].endpoints.len(),
        0 <= nb < s.nodes.len(),
        0 <= jb < s.nodes[nb].endpoints.len(),
        s.nodes[na].endpoints[ja].faulted,
        !s.nodes[nb].endpoints[jb].faulted,
        s.nodes[nb].endpoints[jb].pending.len() > 0,
    ensures
        cycle_model(s).errors.contains(
            take_error(
                s.nodes[na].endpoints[ja].kind,
                EndpointHandle { node: na as usize, id: s.nodes[na].endpoints[ja].id },
            ),
        ),
        cycle_model(s).nodes[nb].endpoints[jb].delivered == s.nodes[nb].endpoints[
            jb
        ].delivered.push(s.nodes[nb].endpoints[jb].pending[0]),
        cycle_model(s).nodes[nb].endpoints[jb].pending == s.nodes[nb].endpoints[
            jb
        ].pending.drop_first(),
{
    lemma_cycle_error_for_faulted(s, na, ja);
    lemma_exactly_one_dispatch(s, nb, jb);
}

/// Rank of a category in dispatch order: services first, then clients,
/// then subscriptions.
pub open spec fn kind_rank(kind: EndpointKind) -> int {
    match kind {
        EndpointKind::Service => 0,
        EndpointKind::Client => 1,
        EndpointKind::Subscription => 2,
    }
}

/// Dispatch order within one cycle is deterministic: the callback
/// invocations a cycle appends to the log are grouped by category, in the
/// fixed order services, clients, subscriptions (and, within a category,
/// in the order the snapshot was built: node order, then creation order).
pub proof fn lemma_dispatch_order(s: CycleModel)
    ensures
        cycle_model(s).log.len() >= s.log.len(),
        forall|i: int| 0 <= i < s.log.len() ==> #[trigger] cycle_model(s).log[i] == s.log[i],
        forall|a: int, b: int|
            s.log.len() <= a < b < cycle_model(s).log.len() ==> kind_rank(
                (#[trigger] cycle_model(s).log[a]).kind,
            ) <= kind_rank((#[trigger] cycle_model(s).log[b]).kind),
{
    let svc = category_handles(s.nodes, EndpointKind::Service);
    let cli = category_handles(s.nodes, EndpointKind::Client);
    let sub = category_handles(s.nodes, EndpointKind::Subscription);
    let rs = readiness_model(s.nodes, svc);
    let rc = readiness_model(s.nodes, cli);
    let rb = readiness_model(s.nodes, sub);
    let s1 = run_category(s, EndpointKind::Service, svc, rs);
    let s2 = run_category(s1, EndpointKind::Client, cli, rc);
    let s3 = run_category(s2, EndpointKind::Subscription, sub, rb);
    lemma_run_log_from(s, EndpointKind::Service, svc, rs, svc.len() as int);
    lemma_run_log_from(s1, EndpointKind::Client, cli, rc, cli.len() as int);
    lemma_run_log_from(s2, EndpointKind::Subscription, sub, rb, sub.len() as int);
    assert forall|a: int| s.log.len() <= a < s3.log.len() implies kind_rank(
        (#[trigger] s3.log[a]).kind,
    ) == (if a < s1.log.len() {
        0int
    } else if a < s2.log.len() {
        1int
    } else {
        2int
    }) by {
        if a < s1.log.len() {
            assert(s3.log[a] == s2.log[a] && s2.log[a] == s1.log[a]);
        } else if a < s2.log.len() {
            assert(s3.log[a] == s2.log[a]);
        }
    }
}


/// Registries with the same per-node endpoint counts have the same total.
pub proof fn lemma_total_endpoints_same(a: Seq<NodeModel>, b: Seq<NodeModel>, upto: int)
    requires
        a.len() == b.len(),
        0 <= upto <= a.len(),
        forall|n: int|
            0 <= n < a.len() ==> (#[trigger] a[n]).endpoints.len() == b[n].endpoints.len(),
    ensures
        total_endpoints_upto(a, upto) == total_endpoints_upto(b, upto),
    decreases upto,
{
    if upto > 0 {
        lemma_total_endpoints_same(a, b, upto - 1);
    }
}

/// True when some endpoint of the registry has deliverable work: a
/// pending item on a non-faulted endpoint. A faulted endpoint's items are
/// not deliverable, since every take on it fails.
fn any_deliverable(nodes: &Vec<Node>) -> (r: bool)
    ensures
        r == exists|n: int, j: int|
            0 <= n < nodes_model(nodes@).len() && 0 <= j < nodes_model(nodes@)[n].endpoints.len()
                && !(#[trigger] nodes_model(nodes@)[n].endpoints[j]).faulted && nodes_model(
                nodes@,
            )[n].endpoints[j].pending.len() > 0,
{
    let ghost m = nodes_model(nodes@);
    let mut n: usize = 0;
    while n < nodes.len()
        invariant
            0 <= n <= nodes.len(),
            m == nodes_model(nodes@),
            m.len() == nodes@.len(),
            forall|nn: int, j: int|
                0 <= nn < n && 0 <= j < m[nn].endpoints.len() ==> !(!(
                #[trigger] m[nn].endpoints[j]).faulted && m[nn].endpoints[j].pending.len() > 0),
        decreases nodes.len() - n,
    {
        proof {
            assert(m[n as int] == nodes@[n as int]@);
        }
        let mut j: usize = 0;
        while j < nodes[n].endpoints.len()
            invariant
                0 <= n < nodes.len(),
                0 <= j <= nodes@[n as int].endpoints@.len(),
                m == nodes_model(nodes@),
                m[n as int] == nodes@[n as int]@,
                forall|jj: int|
                    0 <= jj < j ==> !(!(#[trigger] m[n as int].endpoints[jj]).faulted && m[
                        n as int
                    ].endpoints[jj].pending.len() > 0),
            decreases nodes@[n as int].endpoints@.len() - j,
        {
            let e = &nodes[n].endpoints[j];
            if !e.faulted && e.pending.len() > 0 {
                proof {
                    assert(!m[n as int].endpoints[j as int].faulted && m[
                        n as int
                    ].endpoints[j as int].pending.len() > 0);
                }
                return true;
            }
            j = j + 1;
        }
        n = n + 1;
    }
    false
}


/// Pending items over the first `upto` endpoints of one node.
pub open spec fn node_pending_upto(eps: Seq<EndpointModel>, upto: int) -> int
    decreases upto,
{
    if upto <= 0 {
        0
    } else {
        node_pending_upto(eps, upto - 1) + eps[upto - 1].pending.len()
    }
}

/// Pending items over the first `upto` nodes of a registry.
pub open spec fn pending_total_upto(nodes: Seq<NodeModel>, upto: int) -> int
    decreases upto,
{
    if upto <= 0 {
        0
    } else {
        pending_total_upto(nodes, upto - 1) + node_pending_upto(
            nodes[upto - 1].endpoints,
            nodes[upto - 1].endpoints.len() as int,
        )
    }
}

/// Pending items over a whole registry.
pub open spec fn pending_total(nodes: Seq<NodeModel>) -> int {
    pending_total_upto(nodes, nodes.len() as int)
}

/// Sums of per-endpoint pending counts respect pointwise bounds, strictly
/// when one summand is strictly smaller.
pub proof fn lemma_node_pending_le(a: Seq<EndpointModel>, b: Seq<EndpointModel>, upto: int, strict_at: int)
    requires
        a.len() == b.len(),
        0 <= upto <= a.len(),
        forall|j: int|
            0 <= j < a.len() ==> (#[trigger] a[j]).pending.len() <= b[j].pending.len(),
        strict_at >= 0 ==> strict_at < a.len() && a[strict_at].pending.len() < b[
            strict_at
        ].pending.len(),
    ensures
        node_pending_upto(a, upto) <= node_pending_upto(b, upto),
        0 <= strict_at < upto ==> node_pending_upto(a, upto) < node_pending_upto(b, upto),
        node_pending_upto(a, upto) >= 0,
    decreases upto,
{
    if upto > 0 {
        lemma_node_pending_le(a, b, upto - 1, strict_at);
    }
}

/// Sums of per-node pending counts respect pointwise bounds, strictly when
/// one endpoint's count is strictly smaller.
pub proof fn lemma_pending_total_le(
    a: Seq<NodeModel>,
    b: Seq<NodeModel>,
    upto: int,
    sn: int,
    sj: int,
)
    requires
        a.len() == b.len(),
        0 <= upto <= a.len(),
        forall|n: int|
            0 <= n < a.len() ==> (#[trigger] a[n]).endpoints.len() == b[n].endpoints.len(),
        forall|n: int, j: int|
            0 <= n < a.len() && 0 <= j < a[n].endpoints.len() ==> (#[trigger] a[n].endpoints[
                j
            ]).pending.len() <= b[n].endpoints[j].pending.len(),
        sn >= 0 ==> sn < a.len() && 0 <= sj < a[sn as int].endpoints.len() && a[
            sn as int
        ].endpoints[sj].pending.len() < b[sn as int].endpoints[sj].pending.len(),
    ensures
        pending_total_upto(a, upto) <= pending_total_upto(b, upto),
        0 <= sn < upto ==> pending_total_upto(a, upto) < pending_total_upto(b, upto),
        pending_total_upto(a, upto) >= 0,
    decreases upto,
{
    if upto > 0 {
        lemma_pending_total_le(a, b, upto - 1, sn, sj);
        let n = upto - 1;
        lemma_node_pending_le(
            a[n].endpoints,
            b[n].endpoints,
            a[n].endpoints.len() as int,
            if n == sn {
                sj
            } else {
                -1
            },
        );
    }
}

impl SingleThreadedExecutor {
    /// Drives spin cycles until no deliverable work remains.
    ///
    /// A real provider would block inside the wait for new work; the
    /// in-memory provider has no other source of it, so once no non-faulted
    /// endpoint has a pending item this returns `Ok` instead of blocking
    /// forever. A take error in one cycle does not abort the loop: it is
    /// collected in `take_errors`, attached to its endpoint, and the next
    /// cycle proceeds; only an error fatal to the context would end the
    /// loop, and the in-memory provider has none, so the result is always
    /// `Ok`. On return, every non-faulted endpoint's items have been
    /// delivered to its callback in arrival order; faulted endpoints are
    /// left exactly as they were, their items still pending. The registry's
    /// shape (nodes, names, handles, categories, fault flags) is never
    /// changed by spinning.
    pub fn spin(&mut self) -> (r: Result<(), RclrsError>)
        requires
            old(self).wf(),
            total_endpoints(old(self).model().nodes) <= usize::MAX,
        ensures
            final(self).wf(),
            r == Ok::<(), RclrsError>(()),
            final(self).model().nodes.len() == old(self).model().nodes.len(),
            forall|n: int|
                0 <= n < old(self).model().nodes.len() ==> (#[trigger] final(self).model().nodes[n]).name == old(self).model().nodes[n].name && final(self).model().nodes[n].next_id == old(self).model().nodes[n].next_id && final(self).model().nodes[n].endpoints.len() == old(self).model().nodes[n].endpoints.len(),
            forall|n: int, j: int|
                0 <= n < old(self).model().nodes.len() && 0 <= j < old(self).model().nodes[
                    n
                ].endpoints.len() ==> {
                    let e0 = old(self).model().nodes[n].endpoints[j];
                    let e1 = (#[trigger] final(self).model().nodes[n].endpoints[j]);
                    &&& e1.id == e0.id
                    &&& e1.kind == e0.kind
                    &&& e1.faulted == e0.faulted
                    &&& (e0.faulted ==> e1 == e0)
                    &&& (!e0.faulted ==> e1.pending.len() == 0 && e1.delivered == e0.delivered
                        + e0.pending)
                },
            final(self).dispatch_log@.len() >= old(self).dispatch_log@.len(),
            forall|i: int|
                0 <= i < old(self).dispatch_log@.len() ==> #[trigger] final(self).dispatch_log@[i]
                    == old(self).dispatch_log@[i],
            final(self).take_errors@.len() >= old(self).take_errors@.len(),
            forall|i: int|
                0 <= i < old(self).take_errors@.len() ==> #[trigger] final(self).take_errors@[i]
                    == old(self).take_errors@[i],
            forall|i: int|
                old(self).take_errors@.len() <= i < final(self).take_errors@.len()
                    ==> error_names_faulted(
                    final(self).model().nodes,
                    #[trigger] final(self).take_errors@[i],
                ),
    {
        proof {
            assert forall|n: int, j: int|
                0 <= n < self.model().nodes.len() && 0 <= j < self.model().nodes[
                    n
                ].endpoints.len() implies {
                let e0 = self.model().nodes[n].endpoints[j];
                let e1 = (#[trigger] self.model().nodes[n].endpoints[j]);
                exists|k: int|
                    0 <= k <= e0.pending.len() && e1.delivered == e0.delivered + e0.pending.take(k)
                        && e1.pending == e0.pending.skip(k)
            } by {
                let e0 = self.model().nodes[n].endpoints[j];
                assert(e0.delivered + e0.pending.take(0) =~= e0.delivered);
                assert(e0.pending.skip(0) =~= e0.pending);
                assert(0 <= 0 <= e0.pending.len() && e0.delivered == e0.delivered
                    + e0.pending.take(0) && e0.pending == e0.pending.skip(0));
            }
        }
        loop
            invariant
                self.wf(),
                total_endpoints(self.model().nodes) <= usize::MAX,
                self.model().nodes.len() == old(self).model().nodes.len(),
                forall|n: int|
                    0 <= n < old(self).model().nodes.len() ==> (#[trigger] self.model().nodes[
                        n
                    ]).name == old(self).model().nodes[n].name && self.model().nodes[n].next_id
                        == old(self).model().nodes[n].next_id && self.model().nodes[
                        n
                    ].endpoints.len() == old(self).model().nodes[n].endpoints.len(),
                forall|n: int, j: int|
                    0 <= n < old(self).model().nodes.len() && 0 <= j < old(self).model().nodes[
                        n
                    ].endpoints.len() ==> {
                        let e0 = old(self).model().nodes[n].endpoints[j];
                        let e1 = (#[trigger] self.model().nodes[n].endpoints[j]);
                        &&& e1.id == e0.id
                        &&& e1.kind == e0.kind
                        &&& e1.faulted == e0.faulted
                        &&& (e0.faulted ==> e1 == e0)
                        &&& (!e0.faulted ==> exists|k: int|
                            0 <= k <= e0.pending.len() && e1.delivered == e0.delivered
                                + e0.pending.take(k) && e1.pending == e0.pending.skip(k))
                    },
                self.dispatch_log@.len() >= old(self).dispatch_log@.len(),
                forall|i: int|
                    0 <= i < old(self).dispatch_log@.len() ==> #[trigger] self.dispatch_log@[i]
                        == old(self).dispatch_log@[i],
                self.take_errors@.len() >= old(self).take_errors@.len(),
                forall|i: int|
                    0 <= i < old(self).take_errors@.len() ==> #[trigger] self.take_errors@[i]
                        == old(self).take_errors@[i],
                forall|i: int|
                    old(self).take_errors@.len() <= i < self.take_errors@.len()
                        ==> error_names_faulted(
                        old(self).model().nodes,
                        #[trigger] self.take_errors@[i],
                    ),
            decreases pending_total(self.model().nodes),
        {
            let ghost cur = self.model();
            proof {
                lemma_pending_total_le(cur.nodes, cur.nodes, cur.nodes.len() as int, -1, -1);
            }
            if !any_deliverable(&self.nodes) {
                proof {
                    assert forall|n: int, j: int|
                        0 <= n < old(self).model().nodes.len() && 0 <= j < old(
                            self,
                        ).model().nodes[n].endpoints.len() implies {
                        let e0 = old(self).model().nodes[n].endpoints[j];
                        let e1 = (#[trigger] self.model().nodes[n].endpoints[j]);
                        !e0.faulted ==> e1.pending.len() == 0 && e1.delivered == e0.delivered
                            + e0.pending
                    } by {
                        let e0 = old(self).model().nodes[n].endpoints[j];
                        let e1 = self.model().nodes[n].endpoints[j];
                        if !e0.faulted {
                            let k = choose|k: int|
                                0 <= k <= e0.pending.len() && e1.delivered == e0.delivered
                                    + e0.pending.take(k) && e1.pending == e0.pending.skip(k);
                            assert(e1.pending.len() == 0);
                            assert(k == e0.pending.len());
                            assert(e0.pending.take(k) =~= e0.pending);
                        }
                    }
                    assert forall|i: int|
                        old(self).take_errors@.len() <= i < self.take_errors@.len()
                            implies error_names_faulted(
                        self.model().nodes,
                        #[trigger] self.take_errors@[i],
                    ) by {
                        let err = self.take_errors@[i];
                        assert(error_names_faulted(old(self).model().nodes, err));
                        let (n, j) = choose|n: int, j: int|
                            0 <= n < old(self).model().nodes.len() && 0 <= j < old(
                                self,
                            ).model().nodes[n].endpoints.len() && (#[trigger] old(
                                self,
                            ).model().nodes[n].endpoints[j]).faulted && err == take_error(
                                old(self).model().nodes[n].endpoints[j].kind,
                                EndpointHandle {
                                    node: n as usize,
                                    id: old(self).model().nodes[n].endpoints[j].id,
                                },
                            );
                        assert(self.model().nodes[n].endpoints[j].faulted);
                        assert(self.model().nodes[n].endpoints[j].kind == old(
                            self,
                        ).model().nodes[n].endpoints[j].kind);
                        assert(self.model().nodes[n].endpoints[j].id == old(
                            self,
                        ).model().nodes[n].endpoints[j].id);
                    }
                }
                return Ok(());
            }
            proof {
                vstd::std_specs::vec::axiom_spec_len(&self.nodes);
                assert(cur.nodes.len() <= usize::MAX);
            }
            let res = self.spin_once(None);
            let _ = res;
            proof {
                lemma_cycle_per_endpoint(cur);
                lemma_dispatch_order(cur);
                lemma_cycle_errors_faulted(cur);
                lemma_total_endpoints_same(
                    self.model().nodes,
                    cur.nodes,
                    self.model().nodes.len() as int,
                );
                assert forall|n: int, j: int|
                    0 <= n < old(self).model().nodes.len() && 0 <= j < old(self).model().nodes[
                        n
                    ].endpoints.len() implies {
                    let e0 = old(self).model().nodes[n].endpoints[j];
                    let e1 = (#[trigger] self.model().nodes[n].endpoints[j]);
                    &&& e1.id == e0.id
                    &&& e1.kind == e0.kind
                    &&& e1.faulted == e0.faulted
                    &&& (e0.faulted ==> e1 == e0)
                    &&& (!e0.faulted ==> exists|k: int|
                        0 <= k <= e0.pending.len() && e1.delivered == e0.delivered
                            + e0.pending.take(k) && e1.pending == e0.pending.skip(k))
                } by {
                    let e0 = old(self).model().nodes[n].endpoints[j];
                    let ec = cur.nodes[n].endpoints[j];
                    let e1 = self.model().nodes[n].endpoints[j];
                    assert(e1 == cycle_endpoint(ec));
                    if !e0.faulted {
                        let k = choose|k: int|
                            0 <= k <= e0.pending.len() && ec.delivered == e0.delivered
                                + e0.pending.take(k) && ec.pending == e0.pending.skip(k);
                        if ec.pending.len() > 0 {
                            assert(ec.pending[0] == e0.pending[k]);
                            assert(e1.delivered =~= e0.delivered + e0.pending.take(k + 1));
                            assert(e1.pending =~= e0.pending.skip(k + 1));
                            assert(0 <= k + 1 <= e0.pending.len() && e1.delivered == e0.delivered
                                + e0.pending.take(k + 1) && e1.pending == e0.pending.skip(k + 1));
                        } else {
                            assert(e1 == ec);
                            assert(0 <= k <= e0.pending.len() && e1.delivered == e0.delivered
                                + e0.pending.take(k) && e1.pending == e0.pending.skip(k));
                        }
                    }
                }
                assert forall|i: int|
                    old(self).take_errors@.len() <= i < self.take_errors@.len()
                        implies error_names_faulted(
                    old(self).model().nodes,
                    #[trigger] self.take_errors@[i],
                ) by {
                    let err = self.take_errors@[i];
                    if i >= cur.errors.len() {
                        assert(error_names_faulted(cur.nodes, err));
                        let (n, j) = choose|n: int, j: int|
                            0 <= n < cur.nodes.len() && 0 <= j < cur.nodes[n].endpoints.len() && (
                            #[trigger] cur.nodes[n].endpoints[j]).faulted && err == take_error(
                                cur.nodes[n].endpoints[j].kind,
                                EndpointHandle { node: n as usize, id: cur.nodes[n].endpoints[j].id },
                            );
                        assert(old(self).model().nodes[n].endpoints[j].faulted);
                        assert(old(self).model().nodes[n].endpoints[j].kind == cur.nodes[
                            n
                        ].endpoints[j].kind);
                        assert(old(self).model().nodes[n].endpoints[j].id == cur.nodes[
                            n
                        ].endpoints[j].id);
                    } else {
                        assert(self.take_errors@[i] == cur.errors[i]);
                    }
                }
                let (rn, rj) = choose|rn: int, rj: int|
                    0 <= rn < cur.nodes.len() && 0 <= rj < cur.nodes[rn].endpoints.len() && !(
                    #[trigger] cur.nodes[rn].endpoints[rj]).faulted && cur.nodes[
                        rn
                    ].endpoints[rj].pending.len() > 0;
                assert(self.model().nodes[rn].endpoints[rj] == cycle_endpoint(
                    cur.nodes[rn].endpoints[rj],
                ));
                lemma_pending_total_le(
                    self.model().nodes,
                    cur.nodes,
                    self.model().nodes.len() as int,
                    rn,
                    rj,
                );
            }
        }
    }
}

/// True when some registered node carries the given name.
pub open spec fn has_node_named(nodes: Seq<NodeModel>, name: Seq<char>) -> bool {
    exists|i: int| 0 <= i < nodes.len() && nodes[i].name == name
}

/// Index of the first node carrying the given name. Meaningful only when
/// `has_node_named` holds.
pub open spec fn node_index_named(nodes: Seq<NodeModel>, name: Seq<char>) -> int
    decreases nodes.len(),
{
    if nodes.len() == 0 {
        0
    } else if nodes[0].name == name {
        0
    } else {
        1 + node_index_named(nodes.drop_first(), name)
    }
}

/// When a node of that name exists, `node_index_named` picks the first one.
pub proof fn lemma_node_index_named(nodes: Seq<NodeModel>, name: Seq<char>)
    requires
        has_node_named(nodes, name),
    ensures
        0 <= node_index_named(nodes, name) < nodes.len(),
        nodes[node_index_named(nodes, name)].name == name,
        forall|j: int| 0 <= j < node_index_named(nodes, name) ==> nodes[j].name != name,
    decreases nodes.len(),
{
    if nodes.len() == 0 {
    } else if nodes[0].name == name {
    } else {
        let rest = nodes.drop_first();
        assert(has_node_named(rest, name)) by {
            let k = choose|i: int| 0 <= i < nodes.len() && nodes[i].name == name;
            assert(rest[k - 1].name == name);
        }
        lemma_node_index_named(rest, name);
        let r = node_index_named(rest, name);
        assert(nodes[r + 1] == rest[r]);
        assert forall|j: int| 0 <= j < r + 1 implies nodes[j].name != name by {
            if j > 0 {
                assert(rest[j - 1] == nodes[j]);
            }
        }
    }
}

impl SingleThreadedExecutor {
    /// Unregisters the first node carrying the given name, so that later
    /// cycles no longer service it; a cycle already in progress is not
    /// affected, since each cycle snapshots the registry when it starts.
    /// Returns whether such a node was registered.
    pub fn remove_node(&mut self, name: &String) -> (found: bool)
        requires
            old(self).wf(),
        ensures
            final(self).wf(),
            found == has_node_named(old(self).model().nodes, name@),
            found ==> final(self).model().nodes == old(self).model().nodes.remove(
                node_index_named(old(self).model().nodes, name@),
            ),
            !found ==> final(self).model().nodes == old(self).model().nodes,
            final(self).model().log == old(self).model().log,
            final(self).model().errors == old(self).model().errors,
    {
        let ghost m = self.model().nodes;
        let mut i: usize = 0;
        while i < self.nodes.len()
            invariant
                0 <= i <= self.nodes.len(),
                *self == *old(self),
                m == old(self).model().nodes,
                m == self.model().nodes,
                m.len() == self.nodes@.len(),
                nodes_wf(m),
                forall|j: int| 0 <= j < i ==> m[j].name != name@,
            decreases self.nodes.len() - i,
        {
            proof {
                assert(m[i as int] == self.nodes@[i as int]@);
            }
            if self.nodes[i].name.eq(name) {
                proof {
                    assert(m[i as int].name == name@);
                    lemma_node_index_named(m, name@);
                    assert(node_index_named(m, name@) == i as int);
                }
                let _ = self.nodes.remove(i);
                proof {
                    assert(self.model().nodes =~= m.remove(i as int));
                    assert forall|n: int|
                        0 <= n < self.model().nodes.len() implies (
                    #[trigger] self.model().nodes[n]).wf() by {
                        if n < i as int {
                            assert(self.model().nodes[n] == m[n]);
                            assert(m[n].wf());
                        } else {
                            assert(self.model().nodes[n] == m[n + 1]);
                            assert(m[n + 1].wf());
                        }
                    }
                }
                return true;
            }
            i = i + 1;
        }
        false
    }
}


/// Within one category run, callback records are appended in snapshot
/// order: a record logged earlier names a handle at a strictly smaller
/// index of the category's handle list.
pub proof fn lemma_run_log_index_order(
    s: CycleModel,
    kind: EndpointKind,
    hs: Seq<EndpointHandle>,
    rd: Seq<bool>,
    upto: int,
)
    requires
        0 <= upto <= hs.len(),
        hs.no_duplicates(),
    ensures
        ({
            let post = run_category_upto(s, kind, hs, rd, upto);
            &&& forall|i: int|
                s.log.len() <= i < post.log.len() ==> 0 <= hs.index_of(
                    (#[trigger] post.log[i]).handle,
                ) < upto && hs[hs.index_of(post.log[i].handle)] == post.log[i].handle
            &&& forall|a: int, b: int|
                s.log.len() <= a < b < post.log.len() ==> hs.index_of(
                    (#[trigger] post.log[a]).handle,
                ) < hs.index_of((#[trigger] post.log[b]).handle)
        }),
    decreases upto,
{
    if upto > 0 {
        lemma_run_log_index_order(s, kind, hs, rd, upto - 1);
        lemma_run_log_from(s, kind, hs, rd, upto - 1);
        let sp = run_category_upto(s, kind, hs, rd, upto - 1);
        let post = run_category_upto(s, kind, hs, rd, upto);
        if post.log != sp.log {
            assert(post.log == sp.log.push(post.log[post.log.len() - 1]));
            let x = hs[upto - 1];
            assert(post.log[post.log.len() - 1].handle == x);
            assert(hs.index_of(x) == upto - 1) by {
                assert(hs[upto - 1] == x);
                let p = hs.index_of(x);
                if p != upto - 1 {
                    assert(hs[p] == hs[upto - 1]);
                }
            }
        }
    }
}

/// Dispatch order within one cycle is deterministic also inside each
/// category: two callback records of the same category appear in the order
/// their handles stand in the snapshot, which is node order, then creation
/// order.
pub proof fn lemma_dispatch_index_order(s: CycleModel)
    requires
        nodes_wf(s.nodes),
        s.nodes.len() <= usize::MAX,
    ensures
        forall|a: int, b: int|
            s.log.len() <= a < b < cycle_model(s).log.len() && (#[trigger] cycle_model(
                s,
            ).log[a]).kind == (#[trigger] cycle_model(s).log[b]).kind ==> category_handles(
                s.nodes,
                cycle_model(s).log[a].kind,
            ).index_of(cycle_model(s).log[a].handle) < category_handles(
                s.nodes,
                cycle_model(s).log[b].kind,
            ).index_of(cycle_model(s).log[b].handle),
{
    let svc = category_handles(s.nodes, EndpointKind::Service);
    let cli = category_handles(s.nodes, EndpointKind::Client);
    let sub = category_handles(s.nodes, EndpointKind::Subscription);
    let rs = readiness_model(s.nodes, svc);
    let rc = readiness_model(s.nodes, cli);
    let rb = readiness_model(s.nodes, sub);
    let s1 = run_category(s, EndpointKind::Service, svc, rs);
    let s2 = run_category(s1, EndpointKind::Client, cli, rc);
    let s3 = run_category(s2, EndpointKind::Subscription, sub, rb);
    lemma_category_no_dup(s.nodes, EndpointKind::Service, s.nodes.len() as int);
    lemma_category_no_dup(s.nodes, EndpointKind::Client, s.nodes.len() as int);
    lemma_category_no_dup(s.nodes, EndpointKind::Subscription, s.nodes.len() as int);
    lemma_run_log_from(s, EndpointKind::Service, svc, rs, svc.len() as int);
    lemma_run_log_from(s1, EndpointKind::Client, cli, rc, cli.len() as int);
    lemma_run_log_from(s2, EndpointKind::Subscription, sub, rb, sub.len() as int);
    lemma_run_log_index_order(s, EndpointKind::Service, svc, rs, svc.len() as int);
    lemma_run_log_index_order(s1, EndpointKind::Client, cli, rc, cli.len() as int);
    lemma_run_log_index_order(s2, EndpointKind::Subscription, sub, rb, sub.len() as int);
    assert forall|a: int, b: int|
        s.log.len() <= a < b < s3.log.len() && (#[trigger] s3.log[a]).kind == (
    #[trigger] s3.log[b]).kind implies category_handles(s.nodes, s3.log[a].kind).index_of(
        s3.log[a].handle,
    ) < category_handles(s.nodes, s3.log[b].kind).index_of(s3.log[b].handle) by {
        if a < s1.log.len() {
            assert(s3.log[a] == s2.log[a] && s2.log[a] == s1.log[a]);
        } else if a < s2.log.len() {
            assert(s3.log[a] == s2.log[a]);
        }
        if b < s1.log.len() {
            assert(s3.log[b] == s2.log[b] && s2.log[b] == s1.log[b]);
        } else if b < s2.log.len() {
            assert(s3.log[b] == s2.log[b]);
        }
    }
}


/// True when `err` is the take error of some faulted endpoint of `nodes`.
pub open spec fn error_names_faulted(nodes: Seq<NodeModel>, err: RclrsError) -> bool {
    exists|n: int, j: int|
        0 <= n < nodes.len() && 0 <= j < nodes[n].endpoints.len() && (#[trigger] nodes[n].endpoints[
            j
        ]).faulted && err == take_error(
            nodes[n].endpoints[j].kind,
            EndpointHandle { node: n as usize, id: nodes[n].endpoints[j].id },
        )
}

/// Every error a category run collects names an endpoint that is faulted
/// in the run's base registry; older errors stay, in place.
pub proof fn lemma_run_errors_faulted(
    s: CycleModel,
    kind: EndpointKind,
    hs: Seq<EndpointHandle>,
    rd: Seq<bool>,
    upto: int,
)
    requires
        nodes_wf(s.nodes),
        0 <= upto,
    ensures
        ({
            let post = run_category_upto(s, kind, hs, rd, upto);
            &&& post.errors.len() >= s.errors.len()
            &&& forall|i: int| 0 <= i < s.errors.len() ==> post.errors[i] == s.errors[i]
            &&& forall|i: int|
                s.errors.len() <= i < post.errors.len() ==> error_names_faulted(
                    s.nodes,
                    #[trigger] post.errors[i],
                )
        }),
    decreases upto,
{
    if upto > 0 {
        lemma_run_errors_faulted(s, kind, hs, rd, upto - 1);
        let sp = run_category_upto(s, kind, hs, rd, upto - 1);
        let post = run_category_upto(s, kind, hs, rd, upto);
        lemma_run_category_wf(s, kind, hs, rd, upto - 1);
        lemma_run_structure(s, kind, hs, rd, upto - 1);
        let h = hs[upto - 1];
        if post.errors != sp.errors {
            let nm = sp.nodes[h.node as int];
            lemma_ep_at(nm.endpoints, h.id);
            let jj = ep_at(nm.endpoints, h.id);
            let n = h.node as int;
            assert(s.nodes[n].endpoints[jj].faulted);
            assert(s.nodes[n].endpoints[jj].id == h.id);
            assert(s.nodes[n].endpoints[jj].kind == kind);
            assert(post.errors == sp.errors.push(take_error(kind, h)));
            assert(error_names_faulted(s.nodes, take_error(kind, h))) by {
                assert(EndpointHandle { node: n as usize, id: s.nodes[n].endpoints[jj].id } == h);
            }
        }
    }
}

/// Every error a whole spin cycle collects names an endpoint that is
/// faulted in the registry the cycle started from; older errors stay.
pub proof fn lemma_cycle_errors_faulted(s: CycleModel)
    requires
        nodes_wf(s.nodes),
        s.nodes.len() <= usize::MAX,
    ensures
        cycle_model(s).errors.len() >= s.errors.len(),
        forall|i: int| 0 <= i < s.errors.len() ==> #[trigger] cycle_model(s).errors[i] == s.errors[i],
        forall|i: int|
            s.errors.len() <= i < cycle_model(s).errors.len() ==> error_names_faulted(
                s.nodes,
                #[trigger] cycle_model(s).errors[i],
            ),
{
    let svc = category_handles(s.nodes, EndpointKind::Service);
    let cli = category_handles(s.nodes, EndpointKind::Client);
    let sub = category_handles(s.nodes, EndpointKind::Subscription);
    let rs = readiness_model(s.nodes, svc);
    let rc = readiness_model(s.nodes, cli);
    let rb = readiness_model(s.nodes, sub);
    let s1 = run_category(s, EndpointKind::Service, svc, rs);
    let s2 = run_category(s1, EndpointKind::Client, cli, rc);
    let s3 = run_category(s2, EndpointKind::Subscription, sub, rb);
    lemma_run_category_wf(s, EndpointKind::Service, svc, rs, svc.len() as int);
    lemma_run_category_wf(s1, EndpointKind::Client, cli, rc, cli.len() as int);
    lemma_run_structure(s, EndpointKind::Service, svc, rs, svc.len() as int);
    lemma_run_structure(s1, EndpointKind::Client, cli, rc, cli.len() as int);
    lemma_run_errors_faulted(s, EndpointKind::Service, svc, rs, svc.len() as int);
    lemma_run_errors_faulted(s1, EndpointKind::Client, cli, rc, cli.len() as int);
    lemma_run_errors_faulted(s2, EndpointKind::Subscription, sub, rb, sub.len() as int);
    assert forall|i: int|
        s.errors.len() <= i < s3.errors.len() implies error_names_faulted(
        s.nodes,
        #[trigger] s3.errors[i],
    ) by {
        if i < s1.errors.len() {
            assert(s3.errors[i] == s2.errors[i] && s2.errors[i] == s1.errors[i]);
        } else if i < s2.errors.len() {
            assert(s3.errors[i] == s2.errors[i]);
            assert(error_names_faulted(s1.nodes, s2.errors[i]));
            let (n, j) = choose|n: int, j: int|
                0 <= n < s1.nodes.len() && 0 <= j < s1.nodes[n].endpoints.len() && (
                #[trigger] s1.nodes[n].endpoints[j]).faulted && s2.errors[i] == take_error(
                    s1.nodes[n].endpoints[j].kind,
                    EndpointHandle { node: n as usize, id: s1.nodes[n].endpoints[j].id },
                );
            assert(s.nodes[n].endpoints[j].faulted);
            assert(s.nodes[n].endpoints[j].kind == s1.nodes[n].endpoints[j].kind);
            assert(s.nodes[n].endpoints[j].id == s1.nodes[n].endpoints[j].id);
        } else {
            assert(error_names_faulted(s2.nodes, s3.errors[i]));
            let (n, j) = choose|n: int, j: int|
                0 <= n < s2.nodes.len() && 0 <= j < s2.nodes[n].endpoints.len() && (
                #[trigger] s2.nodes[n].endpoints[j]).faulted && s3.errors[i] == take_error(
                    s2.nodes[n].endpoints[j].kind,
                    EndpointHandle { node: n as usize, id: s2.nodes[n].endpoints[j].id },
                );
            assert(s.nodes[n].endpoints[j].faulted);
            assert(s.nodes[n].endpoints[j].kind == s2.nodes[n].endpoints[j].kind);
            assert(s.nodes[n].endpoints[j].id == s2.nodes[n].endpoints[j].id);
        }
    }
}


/// Spurious readiness at cycle level: an endpoint with nothing pending and
/// no fault is left exactly as it was by a whole spin cycle - its callback
/// is not invoked - and no error the cycle collects names its handle. The
/// other ready endpoints of the same cycle still dispatch, as
/// [`lemma_exactly_one_dispatch`] says of each of them.
pub proof fn lemma_spurious_cycle(s: CycleModel, n: int, j: int)
    requires
        nodes_wf(s.nodes),
        s.nodes.len() <= usize::MAX,
        0 <= n < s.nodes.len(),
        0 <= j < s.nodes[n].endpoints.len(),
        !s.nodes[n].endpoints[j].faulted,
        s.nodes[n].endpoints[j].pending.len() == 0,
    ensures
        cycle_model(s).nodes[n].endpoints[j] == s.nodes[n].endpoints[j],
        forall|i: int|
            s.errors.len() <= i < cycle_model(s).errors.len() ==> #[trigger] cycle_model(
                s,
            ).errors[i] != take_error(
                s.nodes[n].endpoints[j].kind,
                EndpointHandle { node: n as usize, id: s.nodes[n].endpoints[j].id },
            ),
{
    lemma_cycle_per_endpoint(s);
    lemma_cycle_errors_faulted(s);
    let e = s.nodes[n].endpoints[j];
    let err = take_error(e.kind, EndpointHandle { node: n as usize, id: e.id });
    assert forall|i: int|
        s.errors.len() <= i < cycle_model(s).errors.len() implies #[trigger] cycle_model(
        s,
    ).errors[i] != err by {
        assert(error_names_faulted(s.nodes, cycle_model(s).errors[i]));
        let (n2, j2) = choose|n2: int, j2: int|
            0 <= n2 < s.nodes.len() && 0 <= j2 < s.nodes[n2].endpoints.len() && (
            #[trigger] s.nodes[n2].endpoints[j2]).faulted && cycle_model(s).errors[i]
                == take_error(
                s.nodes[n2].endpoints[j2].kind,
                EndpointHandle { node: n2 as usize, id: s.nodes[n2].endpoints[j2].id },
            );
        if cycle_model(s).errors[i] == err {
            assert(n2 as usize == n as usize && s.nodes[n2].endpoints[j2].id == e.id);
            assert(n2 == n);
            assert(s.nodes[n].wf());
            if j2 != j {
                assert(s.nodes[n].endpoints[j2].id != s.nodes[n].endpoints[j].id);
            }
        }
    }
}

} // verus!

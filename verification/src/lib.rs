//! Client-side runtime for a publish/subscribe and request/response
//! middleware: nodes register waitable endpoints (subscriptions, service
//! clients, service servers), and an executor repeatedly snapshots them into
//! a wait set, polls for readiness, and dispatches each ready endpoint's
//! pending item to its callback in a fixed order.

use vstd::prelude::*;
use vstd::std_specs::iter::IteratorSpec;

mod context;
mod error;
mod executor;
mod node;
mod node_traits;
mod wait;

pub use context::Context;
pub use error::RclrsError;
pub use executor::CycleModel;
pub use executor::DispatchRecord;
pub use executor::SingleThreadedExecutor;
pub use executor::category_handles;
pub use executor::cycle_model;
pub use executor::node_handles;
pub use executor::nodes_wf;
pub use executor::readiness_model;
pub use executor::run_category;
pub use executor::take_error;
pub use executor::take_step;
pub use executor::total_endpoints;
pub use executor::total_endpoints_upto;
pub use executor::lemma_cycle_per_endpoint;
pub use executor::cycle_endpoint;
pub use executor::kind_rank;
pub use executor::has_node_named;
pub use executor::node_index_named;
pub use executor::lemma_idle_cycle;
pub use executor::lemma_exactly_one_dispatch;
pub use executor::lemma_spurious_wakeup;
pub use executor::lemma_spurious_cycle;
pub use executor::error_names_faulted;
pub use executor::lemma_destroyed_never_touched;
pub use executor::lemma_cycle_error_for_faulted;
pub use executor::lemma_fault_isolated;
pub use executor::lemma_dispatch_order;
pub use executor::lemma_dispatch_index_order;
pub use node::Endpoint;
pub use node::EndpointKind;
pub use node::EndpointModel;
pub use node::Node;
pub use node::NodeBuilder;
pub use node::NodeModel;
pub use node::ep_at;
pub use node::ep_has;
pub use node::lemma_ep_at;
pub use node_traits::ComponentNode;
pub use wait::EndpointHandle;
pub use wait::ReadyEntities;
pub use wait::WaitSet;
pub use wait::handle_ready;

verus! {

/// Creates a new node in the empty namespace.
///
/// Convenience function equivalent to [`Node::new`]; it fails with
/// [`RclrsError::InvalidContext`] exactly when the context was already shut
/// down.
pub fn create_node(context: &Context, node_name: &str) -> (r: Result<Node, RclrsError>)
    ensures
        context.valid <==> r is Ok,
        r matches Ok(n) ==> n@.name == node_name@ && n@.next_id == 0 && n@.endpoints
            =~= Seq::<EndpointModel>::empty() && n@.wf(),
        r matches Err(e) ==> e == RclrsError::InvalidContext,
{
    Node::new(context, node_name)
}

/// Creates a [`NodeBuilder`].
///
/// Convenience function equivalent to [`Node::builder`].
pub fn create_node_builder(context: &Context, node_name: &str) -> (r: NodeBuilder)
    ensures
        r.context_valid == context.valid,
        r.name@ == node_name@,
{
    Node::builder(context, node_name)
}


/// Polls the node once for new work and executes the corresponding
/// callbacks.
///
/// Builds a throwaway single-node executor, registers the node, and
/// performs exactly one spin cycle over it, as [`cycle_model`] says; each
/// call pays the wait-set construction cost fresh, which is acceptable for
/// low-rate callers. A take error from the cycle is returned after the
/// whole cycle has run; it can usually be ignored. See [`WaitSet::wait`]
/// for the meaning of `timeout`.
pub fn spin_once(node: &mut Node, timeout: Option<u64>) -> (r: Result<(), RclrsError>)
    requires
        old(node)@.wf(),
    ensures
        ({
            let pre = CycleModel {
                nodes: seq![old(node)@],
                log: Seq::<DispatchRecord>::empty(),
                errors: Seq::<RclrsError>::empty(),
            };
            let post = cycle_model(pre);
            &&& final(node)@ == post.nodes[0]
            &&& final(node)@.wf()
            &&& if post.errors.len() > 0 {
                r == Err::<(), RclrsError>(post.errors[0])
            } else {
                r == Ok::<(), RclrsError>(())
            }
        }),
{
    let ghost pre = CycleModel {
        nodes: seq![old(node)@],
        log: Seq::<DispatchRecord>::empty(),
        errors: Seq::<RclrsError>::empty(),
    };
    let n_eps = node.endpoints.len();
    let mut executor = SingleThreadedExecutor::new();
    let mut taken = Node { name: String::new(), next_id: 0, endpoints: Vec::new() };
    core::mem::swap(node, &mut taken);
    let add_r = executor.add_node(taken);
    let _ = add_r;
    proof {
        assert(executor.model().nodes =~= pre.nodes);
        assert(executor.model() == pre);
        assert(pre.nodes[0].endpoints.len() == n_eps as int);
        assert(total_endpoints(pre.nodes) == pre.nodes[0].endpoints.len()) by {
            assert(total_endpoints_upto(pre.nodes, 0) == 0);
        }
        lemma_cycle_per_endpoint(pre);
    }
    let r = executor.spin_once(timeout);
    let back = executor.nodes.remove(0);
    *node = back;
    proof {
        assert(node@ == cycle_model(pre).nodes[0]);
        assert(nodes_wf(cycle_model(pre).nodes));
    }
    r
}

/// Convenience function for spinning a node in a loop until no
/// deliverable work remains.
///
/// Builds a throwaway single-node executor and drives spin cycles, as a
/// real spin loop would until cancelled; the in-memory provider has no
/// other source of work, so the loop ends once no non-faulted endpoint has
/// a pending item, instead of blocking forever. A take error in one cycle
/// does not abort the loop: it is collected inside the executor, attached
/// to its endpoint, and the next cycle proceeds; only an error fatal to
/// the context would end the loop, and the in-memory provider has none, so
/// the result is always `Ok`. On return, every non-faulted endpoint's
/// items have been delivered to its callback in arrival order; a faulted
/// endpoint is left exactly as it was, its items still pending and visible
/// on its fault flag.
pub fn spin(node: &mut Node) -> (r: Result<(), RclrsError>)
    requires
        old(node)@.wf(),
    ensures
        final(node)@.wf(),
        r == Ok::<(), RclrsError>(()),
        final(node)@.name == old(node)@.name,
        final(node)@.next_id == old(node)@.next_id,
        final(node)@.endpoints.len() == old(node)@.endpoints.len(),
        forall|j: int|
            0 <= j < old(node)@.endpoints.len() ==> {
                let e0 = old(node)@.endpoints[j];
                let e1 = #[trigger] final(node)@.endpoints[j];
                &&& e1.id == e0.id
                &&& e1.kind == e0.kind
                &&& e1.faulted == e0.faulted
                &&& (e0.faulted ==> e1 == e0)
                &&& (!e0.faulted ==> e1.pending.len() == 0 && e1.delivered == e0.delivered
                    + e0.pending)
            },
{
    let n_eps = node.endpoints.len();
    let mut executor = SingleThreadedExecutor::new();
    let mut taken = Node { name: String::new(), next_id: 0, endpoints: Vec::new() };
    core::mem::swap(node, &mut taken);
    let ghost m0 = taken@;
    let add_r = executor.add_node(taken);
    let _ = add_r;
    proof {
        assert(executor.model().nodes =~= seq![m0]);
        assert(m0.endpoints.len() == n_eps as int);
        assert(total_endpoints(executor.model().nodes) == m0.endpoints.len()) by {
            assert(total_endpoints_upto(executor.model().nodes, 0) == 0);
        }
    }
    let r = executor.spin();
    let ghost em = executor.model();
    let back = executor.nodes.remove(0);
    *node = back;
    proof {
        assert(node@ == em.nodes[0]);
    }
    r
}


/// True when the text contains at least one separator.
pub open spec fn has_slash(s: Seq<char>) -> bool {
    exists|i: int| 0 <= i < s.len() && s[i] == '/'
}

/// Index of the first separator. Meaningful only when `has_slash` holds.
pub open spec fn first_slash(s: Seq<char>) -> int
    decreases s.len(),
{
    if s.len() == 0 {
        0
    } else if s[0] == '/' {
        0
    } else {
        1 + first_slash(s.drop_first())
    }
}

/// Index of the last separator. Meaningful only when `has_slash` holds.
pub open spec fn last_slash(s: Seq<char>) -> int
    decreases s.len(),
{
    if s.len() == 0 {
        0
    } else if s[s.len() - 1] == '/' {
        s.len() - 1
    } else {
        last_slash(s.drop_last())
    }
}

/// When a separator exists, `first_slash` names the first one.
pub proof fn lemma_first_slash(s: Seq<char>)
    requires
        has_slash(s),
    ensures
        0 <= first_slash(s) < s.len(),
        s[first_slash(s)] == '/',
        forall|j: int| 0 <= j < first_slash(s) ==> s[j] != '/',
    decreases s.len(),
{
    if s.len() == 0 {
    } else if s[0] == '/' {
    } else {
        let rest = s.drop_first();
        assert(has_slash(rest)) by {
            let k = choose|i: int| 0 <= i < s.len() && s[i] == '/';
            assert(rest[k - 1] == '/');
        }
        lemma_first_slash(rest);
        let r = first_slash(rest);
        assert(s[r + 1] == rest[r]);
        assert forall|j: int| 0 <= j < r + 1 implies s[j] != '/' by {
            if j > 0 {
                assert(rest[j - 1] == s[j]);
            }
        }
    }
}

/// When a separator exists, `last_slash` names the last one.
pub proof fn lemma_last_slash(s: Seq<char>)
    requires
        has_slash(s),
    ensures
        0 <= last_slash(s) < s.len(),
        s[last_slash(s)] == '/',
        forall|j: int| last_slash(s) < j < s.len() ==> s[j] != '/',
    decreases s.len(),
{
    if s.len() == 0 {
    } else if s[s.len() - 1] == '/' {
    } else {
        let rest = s.drop_last();
        assert(has_slash(rest)) by {
            let k = choose|i: int| 0 <= i < s.len() && s[i] == '/';
            assert(rest[k] == '/');
        }
        lemma_last_slash(rest);
        let r = last_slash(rest);
        assert(s[r] == rest[r]);
        assert forall|j: int| r < j < s.len() implies s[j] != '/' by {
            if j < s.len() - 1 {
                assert(rest[j] == s[j]);
            }
        }
    }
}

/// Relies on String::push: appends the given character to the end of the
/// string.
#[verifier::external_body]
fn push_char(s: &mut String, c: char)
    ensures
        final(s)@ == old(s)@.push(c),
{
    s.push(c)
}

/// Collects a string's characters into a vector, in order.
fn chars_vec(s: &str) -> (v: Vec<char>)
    ensures
        v@ == s@,
{
    broadcast use vstd::string::next_postcondition;

    let mut it = s.chars();
    let mut v: Vec<char> = Vec::new();
    proof {
        vstd::string::axiom_spec_iter(s);
        assert(v@ + it.remaining() =~= s@);
    }
    loop
        invariant
            v@ + it.remaining() == s@,
            IteratorSpec::decrease(&it) is Some,
        ensures
            v@ == s@,
        decreases IteratorSpec::decrease(&it)->0,
    {
        let c = it.next();
        match c {
            Some(ch) => {
                v.push(ch);
                proof {
                    assert(v@ + it.remaining() =~= s@);
                }
            },
            None => {
                proof {
                    assert(it.remaining().len() == 0);
                    assert(v@ =~= s@);
                }
                break ;
            },
        }
    }
    v
}

/// Builds the string of the characters `v[a..b]`.
fn string_of_range(v: &Vec<char>, a: usize, b: usize) -> (r: String)
    requires
        a <= b <= v@.len(),
    ensures
        r@ == v@.subrange(a as int, b as int),
{
    let mut r = String::new();
    proof {
        assert(r@ =~= v@.subrange(a as int, a as int));
    }
    let mut i: usize = a;
    while i < b
        invariant
            a <= i <= b <= v@.len(),
            r@ == v@.subrange(a as int, i as int),
        decreases b - i,
    {
        push_char(&mut r, v[i]);
        proof {
            assert(r@ =~= v@.subrange(a as int, i as int + 1));
        }
        i = i + 1;
    }
    r
}

/// Splits a full message type name of the form
/// `package/middle_modules/TypeName` at its first and last separator: the
/// part before the first separator, the part between the two (empty when
/// they coincide), and the part after the last one.
///
/// The name must contain a separator, and the last separator may stand
/// neither first nor last in the text.
pub fn extract_type_identifier(full_type: &str) -> (r: Result<(String, String, String), RclrsError>)
    requires
        has_slash(full_type@),
        last_slash(full_type@) != 0,
        last_slash(full_type@) != full_type@.len() - 1,
    ensures
        r is Ok,
        r matches Ok(t) ==> ({
            let s = full_type@;
            let f = first_slash(s);
            let l = last_slash(s);
            &&& t.0@ == s.subrange(0, f)
            &&& t.1@ == if l > f {
                s.subrange(f + 1, l)
            } else {
                Seq::<char>::empty()
            }
            &&& t.2@ == s.subrange(l + 1, s.len() as int)
        }),
{
    let ghost s = full_type@;
    let v = chars_vec(full_type);
    let mut first: usize = 0;
    let mut last: usize = 0;
    let mut found = false;
    let mut i: usize = 0;
    while i < v.len()
        invariant
            0 <= i <= v@.len(),
            v@ == s,
            !found ==> forall|k: int| 0 <= k < i ==> v@[k] != '/',
            found ==> 0 <= first < i && v@[first as int] == '/' && (forall|k: int|
                0 <= k < first ==> v@[k] != '/'),
            found ==> first <= last < i && v@[last as int] == '/' && (forall|k: int|
                last < k < i ==> v@[k] != '/'),
        decreases v@.len() - i,
    {
        if v[i] == '/' {
            if !found {
                first = i;
                found = true;
            }
            last = i;
        }
        i = i + 1;
    }
    proof {
        if !found {
            let k = choose|k: int| 0 <= k < s.len() && s[k] == '/';
            assert(v@[k] != '/');
        }
        lemma_first_slash(s);
        lemma_last_slash(s);
        assert(first as int == first_slash(s)) by {
            if (first as int) < first_slash(s) {
                assert(s[first as int] != '/');
            }
            if first_slash(s) < first as int {
                assert(s[first_slash(s)] != '/');
            }
        }
        assert(last as int == last_slash(s)) by {
            if (last as int) < last_slash(s) {
                assert(s[last_slash(s)] != '/');
            }
            if last_slash(s) < last as int {
                assert(s[last as int] != '/');
            }
        }
    }
    let p0 = string_of_range(&v, 0, first);
    let p1 = if last > first {
        string_of_range(&v, first + 1, last)
    } else {
        String::new()
    };
    let p2 = string_of_range(&v, last + 1, v.len());
    proof {
        if !(last > first) {
            assert(p1@ =~= Seq::<char>::empty());
        }
    }
    Ok((p0, p1, p2))
}

} // verus!

use rclrs::Context;
use rclrs::EndpointKind;
use rclrs::RclrsError;
use rclrs::SingleThreadedExecutor;

fn executor_with_node(name: &str) -> SingleThreadedExecutor {
    let ctx = Context::new();
    let node = rclrs::create_node(&ctx, name).unwrap();
    let mut executor = SingleThreadedExecutor::new();
    executor.add_node(node).unwrap();
    executor
}

#[test]
fn idle_poll_returns_success_with_zero_callbacks() {
    let mut executor = executor_with_node("idle");
    let s = executor.nodes[0].create_subscription();
    let c = executor.nodes[0].create_client();
    let v = executor.nodes[0].create_service();
    let r = executor.spin_once(Some(0));
    assert_eq!(r, Ok(()));
    assert_eq!(executor.dispatch_log.len(), 0);
    assert_eq!(executor.take_errors.len(), 0);
    for ep in &executor.nodes[0].endpoints {
        assert!(ep.delivered.is_empty());
    }
    let _ = (s, c, v);
}

#[test]
fn ready_endpoint_dispatched_exactly_once_per_cycle() {
    let mut executor = executor_with_node("once");
    let s = executor.nodes[0].create_subscription();
    assert!(executor.nodes[0].deliver(s, 41));
    assert!(executor.nodes[0].deliver(s, 42));
    assert_eq!(executor.spin_once(Some(0)), Ok(()));
    assert_eq!(executor.nodes[0].endpoints[0].delivered, vec![41]);
    assert_eq!(executor.nodes[0].endpoints[0].pending, vec![42]);
    assert_eq!(executor.spin_once(Some(0)), Ok(()));
    assert_eq!(executor.nodes[0].endpoints[0].delivered, vec![41, 42]);
    assert!(executor.nodes[0].endpoints[0].pending.is_empty());
    assert_eq!(executor.dispatch_log.len(), 2);
}

#[test]
fn destroyed_endpoint_never_touched() {
    let mut executor = executor_with_node("destroy");
    let gone = executor.nodes[0].create_subscription();
    let kept = executor.nodes[0].create_subscription();
    assert!(executor.nodes[0].deliver(gone, 7));
    assert!(executor.nodes[0].deliver(kept, 8));
    assert!(executor.nodes[0].destroy_endpoint(gone));
    assert_eq!(executor.spin_once(Some(0)), Ok(()));
    assert_eq!(executor.nodes[0].endpoints.len(), 1);
    assert_eq!(executor.nodes[0].endpoints[0].id, kept);
    assert_eq!(executor.nodes[0].endpoints[0].delivered, vec![8]);
    for rec in &executor.dispatch_log {
        assert_ne!(rec.handle.id, gone);
    }
}

#[test]
fn not_ready_endpoint_gets_no_callback_and_blocks_nothing() {
    let mut executor = executor_with_node("spurious");
    let quiet = executor.nodes[0].create_subscription();
    let busy = executor.nodes[0].create_subscription();
    assert!(executor.nodes[0].deliver(busy, 5));
    assert_eq!(executor.spin_once(Some(0)), Ok(()));
    assert!(executor.nodes[0].endpoints[0].delivered.is_empty());
    assert_eq!(executor.nodes[0].endpoints[1].delivered, vec![5]);
    assert_eq!(executor.take_errors.len(), 0);
    assert_eq!(executor.dispatch_log.len(), 1);
    let _ = quiet;
}

#[test]
fn take_failure_does_not_suppress_other_dispatch() {
    let mut executor = executor_with_node("faulty");
    let bad = executor.nodes[0].create_service();
    let good = executor.nodes[0].create_subscription();
    assert!(executor.nodes[0].mark_faulted(bad));
    assert!(executor.nodes[0].deliver(good, 99));
    let r = executor.spin_once(Some(0));
    assert_eq!(r, Err(RclrsError::ServiceTakeFailed { node: 0, id: bad }));
    assert_eq!(executor.nodes[0].endpoints[1].delivered, vec![99]);
    assert_eq!(
        executor.take_errors,
        vec![RclrsError::ServiceTakeFailed { node: 0, id: bad }]
    );
}

#[test]
fn each_category_reports_its_own_take_error() {
    let mut executor = executor_with_node("errors");
    let sub = executor.nodes[0].create_subscription();
    let cli = executor.nodes[0].create_client();
    let srv = executor.nodes[0].create_service();
    assert!(executor.nodes[0].mark_faulted(sub));
    assert!(executor.nodes[0].mark_faulted(cli));
    assert!(executor.nodes[0].mark_faulted(srv));
    let r = executor.spin_once(Some(0));
    assert_eq!(r, Err(RclrsError::ServiceTakeFailed { node: 0, id: srv }));
    assert_eq!(
        executor.take_errors,
        vec![
            RclrsError::ServiceTakeFailed { node: 0, id: srv },
            RclrsError::ClientTakeFailed { node: 0, id: cli },
            RclrsError::SubscriptionTakeFailed { node: 0, id: sub },
        ]
    );
}

#[test]
fn dispatch_order_is_services_then_clients_then_subscriptions() {
    let mut executor = executor_with_node("order");
    let sub = executor.nodes[0].create_subscription();
    let cli = executor.nodes[0].create_client();
    let srv = executor.nodes[0].create_service();
    assert!(executor.nodes[0].deliver(sub, 1));
    assert!(executor.nodes[0].deliver(cli, 2));
    assert!(executor.nodes[0].deliver(srv, 3));
    assert_eq!(executor.spin_once(Some(0)), Ok(()));
    assert_eq!(executor.dispatch_log.len(), 3);
    assert_eq!(executor.dispatch_log[0].kind, EndpointKind::Service);
    assert_eq!(executor.dispatch_log[0].item, 3);
    assert_eq!(executor.dispatch_log[1].kind, EndpointKind::Client);
    assert_eq!(executor.dispatch_log[1].item, 2);
    assert_eq!(executor.dispatch_log[2].kind, EndpointKind::Subscription);
    assert_eq!(executor.dispatch_log[2].item, 1);
}

#[test]
fn dispatch_order_is_repeatable_for_identical_ready_sets() {
    let mut first: Vec<(EndpointKind, u64, u64)> = Vec::new();
    let mut second: Vec<(EndpointKind, u64, u64)> = Vec::new();
    for run in 0..2 {
        let mut executor = executor_with_node("repeat");
        let sub = executor.nodes[0].create_subscription();
        let srv = executor.nodes[0].create_service();
        let cli = executor.nodes[0].create_client();
        assert!(executor.nodes[0].deliver(sub, 10));
        assert!(executor.nodes[0].deliver(srv, 11));
        assert!(executor.nodes[0].deliver(cli, 12));
        let log: Vec<(EndpointKind, u64, u64)> = executor
            .dispatch_log
            .iter()
            .map(|r| (r.kind, r.handle.id, r.item))
            .collect();
        assert!(log.is_empty());
        assert_eq!(executor.spin_once(Some(0)), Ok(()));
        let log: Vec<(EndpointKind, u64, u64)> = executor
            .dispatch_log
            .iter()
            .map(|r| (r.kind, r.handle.id, r.item))
            .collect();
        if run == 0 {
            first = log;
        } else {
            second = log;
        }
    }
    assert_eq!(first, second);
}

#[test]
fn pending_subscription_dispatched_while_idle_service_is_not() {
    let mut executor = executor_with_node("scenario");
    let sub = executor.nodes[0].create_subscription();
    let srv = executor.nodes[0].create_service();
    assert!(executor.nodes[0].deliver(sub, 123));
    let r = executor.spin_once(Some(1_000_000_000));
    assert_eq!(r, Ok(()));
    assert_eq!(executor.nodes[0].endpoints[0].delivered, vec![123]);
    assert!(executor.nodes[0].endpoints[1].delivered.is_empty());
    let _ = srv;
}

#[test]
fn zero_timeout_with_nothing_pending_is_an_immediate_success() {
    let mut executor = executor_with_node("empty");
    let s = executor.nodes[0].create_subscription();
    let r = executor.spin_once(Some(0));
    assert_eq!(r, Ok(()));
    assert_eq!(executor.dispatch_log.len(), 0);
    let _ = s;
}

#[test]
fn executor_spin_drains_all_pending_items() {
    let mut executor = executor_with_node("drain");
    let s = executor.nodes[0].create_subscription();
    for item in [1u64, 2, 3] {
        assert!(executor.nodes[0].deliver(s, item));
    }
    assert_eq!(executor.spin(), Ok(()));
    assert_eq!(executor.nodes[0].endpoints[0].delivered, vec![1, 2, 3]);
    assert!(executor.nodes[0].endpoints[0].pending.is_empty());
}

#[test]
fn executor_spin_does_not_abort_on_faulted_endpoint() {
    let mut executor = executor_with_node("resilient");
    let bad = executor.nodes[0].create_service();
    let good = executor.nodes[0].create_subscription();
    assert!(executor.nodes[0].mark_faulted(bad));
    assert!(executor.nodes[0].deliver(good, 1));
    assert!(executor.nodes[0].deliver(good, 2));
    assert_eq!(executor.spin(), Ok(()));
    assert_eq!(executor.nodes[0].endpoints[1].delivered, vec![1, 2]);
    assert!(executor.nodes[0].endpoints[1].pending.is_empty());
    assert!(executor.nodes[0].endpoints[0].delivered.is_empty());
    assert_eq!(
        executor.take_errors,
        vec![
            RclrsError::ServiceTakeFailed { node: 0, id: bad },
            RclrsError::ServiceTakeFailed { node: 0, id: bad },
        ]
    );
}

#[test]
fn executor_spin_with_only_faulted_work_returns_without_cycling() {
    let mut executor = executor_with_node("stalled");
    let bad = executor.nodes[0].create_subscription();
    assert!(executor.nodes[0].mark_faulted(bad));
    assert!(executor.nodes[0].deliver(bad, 4));
    assert_eq!(executor.spin(), Ok(()));
    assert_eq!(executor.nodes[0].endpoints[0].pending, vec![4]);
    assert!(executor.nodes[0].endpoints[0].delivered.is_empty());
    assert!(executor.take_errors.is_empty());
    assert!(executor.dispatch_log.is_empty());
}

#[test]
fn remove_node_unregisters_it_from_later_cycles() {
    let ctx = Context::new();
    let mut executor = SingleThreadedExecutor::new();
    executor.add_node(rclrs::create_node(&ctx, "alpha").unwrap()).unwrap();
    executor.add_node(rclrs::create_node(&ctx, "beta").unwrap()).unwrap();
    assert!(executor.remove_node(&String::from("alpha")));
    assert_eq!(executor.nodes.len(), 1);
    assert_eq!(executor.nodes[0].name, "beta");
    assert!(!executor.remove_node(&String::from("alpha")));
}

#[test]
fn top_level_spin_once_drives_one_cycle() {
    let ctx = Context::new();
    let mut node = rclrs::create_node(&ctx, "single").unwrap();
    let s = node.create_subscription();
    assert!(node.deliver(s, 55));
    assert!(node.deliver(s, 56));
    assert_eq!(rclrs::spin_once(&mut node, None), Ok(()));
    assert_eq!(node.endpoints[0].delivered, vec![55]);
    assert_eq!(node.endpoints[0].pending, vec![56]);
}

#[test]
fn top_level_spin_drains_the_node() {
    let ctx = Context::new();
    let mut node = rclrs::create_node(&ctx, "looper").unwrap();
    let s = node.create_subscription();
    assert!(node.deliver(s, 9));
    assert!(node.deliver(s, 10));
    assert_eq!(rclrs::spin(&mut node), Ok(()));
    assert_eq!(node.endpoints[0].delivered, vec![9, 10]);
    assert!(node.endpoints[0].pending.is_empty());
}

#[test]
fn top_level_spin_succeeds_past_faulted_endpoint() {
    let ctx = Context::new();
    let mut node = rclrs::create_node(&ctx, "sturdy").unwrap();
    let c = node.create_client();
    let s = node.create_subscription();
    assert!(node.mark_faulted(c));
    assert!(node.deliver(c, 70));
    assert!(node.deliver(s, 71));
    assert_eq!(rclrs::spin(&mut node), Ok(()));
    assert_eq!(node.endpoints[0].pending, vec![70]);
    assert!(node.endpoints[0].delivered.is_empty());
    assert!(node.endpoints[0].faulted);
    assert_eq!(node.endpoints[1].delivered, vec![71]);
    assert!(node.endpoints[1].pending.is_empty());
}

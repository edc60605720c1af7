use rclrs::Context;
use rclrs::EndpointHandle;
use rclrs::RclrsError;
use rclrs::WaitSet;

#[test]
fn registering_the_same_handle_twice_reports_already_added() {
    let mut ws = WaitSet::new(4).unwrap();
    let h = EndpointHandle { node: 0, id: 3 };
    assert_eq!(ws.add_subscription(h), Ok(()));
    assert_eq!(ws.add_subscription(h), Err(RclrsError::AlreadyAdded));
    assert_eq!(ws.subscriptions.len(), 1);
}

#[test]
fn wait_set_sized_without_room_reports_full() {
    let mut ws = WaitSet::new(1).unwrap();
    assert_eq!(ws.add_service(EndpointHandle { node: 0, id: 0 }), Ok(()));
    assert_eq!(
        ws.add_client(EndpointHandle { node: 0, id: 1 }),
        Err(RclrsError::WaitSetFull)
    );
}

#[test]
fn wait_reports_readiness_per_handle_in_order() {
    let ctx = Context::new();
    let mut node = rclrs::create_node(&ctx, "waiter").unwrap();
    let quiet = node.create_subscription();
    let busy = node.create_subscription();
    assert!(node.deliver(busy, 17));
    let nodes = vec![node];
    let mut ws = WaitSet::new(2).unwrap();
    assert_eq!(ws.add_subscription(EndpointHandle { node: 0, id: quiet }), Ok(()));
    assert_eq!(ws.add_subscription(EndpointHandle { node: 0, id: busy }), Ok(()));
    let ready = ws.wait(&nodes, Some(0)).unwrap();
    assert_eq!(ready.subscriptions, vec![false, true]);
}

#[test]
fn wait_ignores_handles_of_destroyed_endpoints() {
    let ctx = Context::new();
    let mut node = rclrs::create_node(&ctx, "stale").unwrap();
    let s = node.create_subscription();
    assert!(node.deliver(s, 1));
    assert!(node.destroy_endpoint(s));
    let nodes = vec![node];
    let mut ws = WaitSet::new(1).unwrap();
    assert_eq!(ws.add_subscription(EndpointHandle { node: 0, id: s }), Ok(()));
    let ready = ws.wait(&nodes, None).unwrap();
    assert_eq!(ready.subscriptions, vec![false]);
}

#[test]
fn create_node_fails_on_shut_down_context() {
    let mut ctx = Context::new();
    assert!(ctx.is_valid());
    ctx.shutdown();
    assert!(!ctx.is_valid());
    let r = rclrs::create_node(&ctx, "late");
    assert_eq!(r.err(), Some(RclrsError::InvalidContext));
}

#[test]
fn node_builder_builds_a_named_node() {
    let ctx = Context::new();
    let builder = rclrs::create_node_builder(&ctx, "my_node");
    let node = builder.build().unwrap();
    assert_eq!(node.name, "my_node");
    assert!(node.endpoints.is_empty());
}

#[test]
fn node_builder_fails_on_shut_down_context() {
    let mut ctx = Context::new();
    ctx.shutdown();
    let builder = rclrs::create_node_builder(&ctx, "late");
    assert_eq!(builder.build().err(), Some(RclrsError::InvalidContext));
}

#[test]
fn endpoint_handles_are_unique_within_a_node() {
    let ctx = Context::new();
    let mut node = rclrs::create_node(&ctx, "ids").unwrap();
    let a = node.create_subscription();
    let b = node.create_client();
    let c = node.create_service();
    assert_ne!(a, b);
    assert_ne!(b, c);
    assert_ne!(a, c);
    assert_eq!(node.endpoints.len(), 3);
}

#[test]
fn operations_on_missing_endpoints_report_not_found() {
    let ctx = Context::new();
    let mut node = rclrs::create_node(&ctx, "missing").unwrap();
    assert!(!node.deliver(9, 1));
    assert!(!node.mark_faulted(9));
    assert!(!node.destroy_endpoint(9));
    assert!(node.endpoints.is_empty());
}

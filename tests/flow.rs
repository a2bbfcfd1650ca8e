use streamsync::connection::Connection;
use streamsync::context::ProcessorContext;
use streamsync::flowfile::FlowFile;
use streamsync::graph::{FlowGraph, InjectError, InvocationError, ProcessorState, WiringError};
use streamsync::processor::{is_valid_content, FileProcessor, Processor, RouteOnContent};
use streamsync::properties::PropertyMap;
use streamsync::session::ProcessingSession;

fn ff(id: u64, content: &[u8]) -> FlowFile {
    FlowFile::new(id, content.to_vec(), 0)
}

fn ids(c: &Connection) -> Vec<u64> {
    (0..c.len()).map(|i| c.id_at(i)).collect()
}

#[test]
fn context_properties_set_and_get() {
    let mut ctx = ProcessorContext::new("reader");
    assert_eq!(ctx.processor_name, "reader");
    assert!(ctx.get_property("path").is_none());
    ctx.set_property("path", "/tmp/in");
    ctx.set_property("Path", "other");
    assert_eq!(ctx.get_property("path").unwrap(), "/tmp/in");
    assert_eq!(ctx.get_property("Path").unwrap(), "other");
    ctx.set_property("path", "/tmp/out");
    assert_eq!(ctx.get_property("path").unwrap(), "/tmp/out");
    assert_eq!(ctx.config.len(), 2);
}

#[test]
fn property_map_duplicate_keeps_entries() {
    let mut m = PropertyMap::new();
    m.insert("a", "1");
    m.insert("b", "2");
    let d = m.duplicate();
    assert_eq!(d.get("a").unwrap(), "1");
    assert_eq!(d.get("b").unwrap(), "2");
    assert_eq!(d.len(), 2);
}

#[test]
fn capacity_two_scenario() {
    let mut c = Connection::new(0, 0, "success", 1, 2, 1000);
    assert!(c.enqueue(ff(1, b"a")).is_ok());
    assert_eq!(c.len(), 1);
    assert!(c.enqueue(ff(2, b"b")).is_ok());
    assert_eq!(c.len(), 2);
    let refused = c.enqueue(ff(3, b"c"));
    match refused {
        Err(bp) => assert_eq!(bp.flowfile.id(), 3),
        Ok(()) => panic!("enqueue beyond capacity was admitted"),
    }
    assert_eq!(c.len(), 2);
    assert_eq!(c.dequeue().unwrap().id(), 1);
    assert_eq!(c.len(), 1);
    assert!(c.enqueue(ff(3, b"c")).is_ok());
    assert_eq!(c.len(), 2);
    assert_eq!(ids(&c), vec![2, 3]);
}

#[test]
fn fifo_order_kept() {
    let mut c = Connection::new(0, 0, "success", 1, 10, 1000);
    assert!(c.enqueue(ff(7, b"x")).is_ok());
    assert!(c.enqueue(ff(8, b"y")).is_ok());
    assert_eq!(c.dequeue().unwrap().id(), 7);
    assert_eq!(c.dequeue().unwrap().id(), 8);
    assert!(c.dequeue().is_none());
    assert!(c.is_empty());
}

#[test]
fn full_connection_refuses_next() {
    let mut c = Connection::new(0, 0, "success", 1, 3, 1000);
    for i in 0..3u64 {
        assert!(c.enqueue(ff(i, b"z")).is_ok());
    }
    assert_eq!(c.available_capacity(), 0);
    assert!(c.enqueue(ff(9, b"z")).is_err());
    assert_eq!(c.len(), 3);
}

#[test]
fn byte_capacity_backpressure() {
    let mut c = Connection::new(0, 0, "success", 1, 10, 5);
    assert!(c.enqueue(ff(1, b"abc")).is_ok());
    assert_eq!(c.queued_bytes(), 3);
    assert_eq!(c.available_bytes(), 2);
    assert!(c.enqueue(ff(2, b"abc")).is_err());
    assert!(c.enqueue(ff(3, b"ab")).is_ok());
    assert_eq!(c.queued_bytes(), 5);
    let head = c.dequeue().unwrap();
    assert_eq!(head.size(), 3);
    assert_eq!(c.queued_bytes(), 2);
    c.requeue_front(head);
    assert_eq!(ids(&c), vec![1, 3]);
    assert_eq!(c.queued_bytes(), 5);
}

#[test]
fn connection_wiring_getters() {
    let c = Connection::new(4, 1, "failure", 2, 3, 9);
    assert_eq!(c.id(), 4);
    assert_eq!(c.source(), 1);
    assert_eq!(c.destination(), 2);
    assert_eq!(c.relationship(), "failure");
    assert_eq!(c.max_count(), 3);
    assert_eq!(c.max_bytes(), 9);
    assert_eq!(c.available_capacity(), 3);
}

#[test]
fn flowfile_transform_and_attributes() {
    let mut f = FlowFile::new(5, b"raw".to_vec(), 42);
    assert!(f.get_attribute("mime").is_none());
    f.put_attribute("mime", "text/plain");
    let g = f.transform(b"cooked!".to_vec());
    assert_eq!(g.id(), 5);
    assert_eq!(g.generation(), 1);
    assert_eq!(g.created(), 42);
    assert_eq!(g.content(), &b"cooked!".to_vec());
    assert_eq!(g.size(), 7);
    assert_eq!(g.get_attribute("mime").unwrap(), "text/plain");
    let d = g.duplicate();
    assert_eq!(d.id(), 5);
    assert_eq!(d.content(), g.content());
    assert_eq!(d.generation(), 1);
}

fn route_wiring() -> Vec<Connection> {
    vec![
        Connection::new(0, 0, "in", 1, 10, 1000),
        Connection::new(1, 1, "success", 2, 10, 1000),
        Connection::new(2, 1, "failure", 3, 10, 1000),
    ]
}

#[test]
fn route_valid_content_to_success() {
    let mut conns = route_wiring();
    assert!(conns[0].enqueue(ff(1, b"payload")).is_ok());
    let mut session = ProcessingSession::begin(conns, 1, 100, 0);
    let ctx = ProcessorContext::new("router");
    assert!(RouteOnContent::new("in").on_trigger(&ctx, &mut session).is_ok());
    let conns = session.commit();
    assert_eq!(conns[0].len(), 0);
    assert_eq!(ids(&conns[1]), vec![1]);
    assert!(conns[2].is_empty());
}

#[test]
fn route_invalid_content_to_failure() {
    let mut conns = route_wiring();
    assert!(conns[0].enqueue(ff(1, b"")).is_ok());
    let mut session = ProcessingSession::begin(conns, 1, 100, 0);
    let ctx = ProcessorContext::new("router");
    assert!(RouteOnContent::new("in").on_trigger(&ctx, &mut session).is_ok());
    let conns = session.commit();
    assert_eq!(conns[0].len(), 0);
    assert!(conns[1].is_empty());
    assert_eq!(ids(&conns[2]), vec![1]);
}

#[test]
fn valid_content_is_non_empty() {
    assert!(is_valid_content(&vec![1u8]));
    assert!(!is_valid_content(&Vec::new()));
}

#[test]
fn rollback_returns_pulled_in_order() {
    let mut conns = route_wiring();
    assert!(conns[0].enqueue(ff(1, b"x")).is_ok());
    assert!(conns[0].enqueue(ff(2, b"y")).is_ok());
    assert!(conns[0].enqueue(ff(3, b"z")).is_ok());
    let mut session = ProcessingSession::begin(conns, 1, 100, 0);
    let x = session.get("in").unwrap();
    let y = session.get("in").unwrap();
    assert_eq!((x.id(), y.id()), (1, 2));
    let conns = session.rollback();
    assert_eq!(ids(&conns[0]), vec![1, 2, 3]);
    assert!(conns[1].is_empty());
    assert!(conns[2].is_empty());
}

#[test]
fn rollback_discards_staged_output() {
    let mut conns = route_wiring();
    assert!(conns[0].enqueue(ff(1, b"x")).is_ok());
    let mut session = ProcessingSession::begin(conns, 1, 100, 0);
    let x = session.get("in").unwrap();
    assert!(session.transfer(x, "success").is_ok());
    let conns = session.rollback();
    assert_eq!(ids(&conns[0]), vec![1]);
    assert!(conns[1].is_empty());
}

#[test]
fn transfer_reserves_capacity() {
    let conns = vec![Connection::new(0, 1, "success", 2, 1, 1000)];
    let mut session = ProcessingSession::begin(conns, 1, 100, 0);
    let a = session.create(b"a".to_vec(), PropertyMap::new()).unwrap();
    let b = session.create(b"b".to_vec(), PropertyMap::new()).unwrap();
    assert_eq!((a.id(), b.id()), (100, 101));
    assert_eq!(session.next_id(), 102);
    assert!(session.transfer(a, "success").is_ok());
    match session.transfer(b, "success") {
        Err(bp) => assert_eq!(bp.flowfile.id(), 101),
        Ok(()) => panic!("second transfer exceeded the reserved capacity"),
    }
    let conns = session.commit();
    assert_eq!(ids(&conns[0]), vec![100]);
}

#[test]
fn transfer_to_unwired_relationship_leaves_flow() {
    let conns = vec![Connection::new(0, 1, "success", 2, 1, 1000)];
    let mut session = ProcessingSession::begin(conns, 1, 0, 0);
    let a = session.create(b"a".to_vec(), PropertyMap::new()).unwrap();
    assert_eq!(session.discarded_count(), 0);
    assert!(session.transfer(a, "failure").is_ok());
    assert_eq!(session.discarded_count(), 1);
    let conns = session.commit();
    assert!(conns[0].is_empty());
}

#[test]
fn create_refuses_when_ids_run_out() {
    let mut session = ProcessingSession::begin(Vec::new(), 0, u64::MAX, 0);
    assert!(session.create(b"a".to_vec(), PropertyMap::new()).is_none());
}

#[test]
fn register_refuses_duplicate_name() {
    let mut g: FlowGraph<RouteOnContent> = FlowGraph::new();
    assert_eq!(g.register_processor(RouteOnContent::new("in"), ProcessorContext::new("a")).ok(), Some(0));
    assert_eq!(g.register_processor(RouteOnContent::new("in"), ProcessorContext::new("b")).ok(), Some(1));
    assert_eq!(
        g.register_processor(RouteOnContent::new("in"), ProcessorContext::new("a")).err(),
        Some(WiringError::DuplicateName)
    );
}

#[test]
fn connect_checks_handles_and_relationships() {
    let mut g: FlowGraph<RouteOnContent> = FlowGraph::new();
    g.register_processor(RouteOnContent::new("in"), ProcessorContext::new("a")).ok();
    g.register_processor(RouteOnContent::new("in"), ProcessorContext::new("b")).ok();
    assert_eq!(g.connect(0, "success", 5, 2, 100).err(), Some(WiringError::UnknownProcessor));
    assert_eq!(g.connect(0, "success", 1, 2, 100).err(), Some(WiringError::UndeclaredRelationship));
    assert_eq!(g.connect(0, "in", 1, 2, 100).err(), Some(WiringError::UndeclaredRelationship));
    assert!(g.resolve_inputs(1).is_empty());
    assert!(g.resolve_outputs(0).is_empty());
}

#[test]
fn trigger_idle_source_commits() {
    let mut g: FlowGraph<FileProcessor> = FlowGraph::new();
    let h = g.register_processor(FileProcessor::new(ProcessorContext::new("files")), ProcessorContext::new("files"));
    let h = h.ok().unwrap();
    assert!(g.is_ready(h));
    assert!(g.trigger(h, 1).is_ok());
    assert!(!g.is_running());
    assert!(g.run_once(2).is_none());
    g.start();
    match g.run_once(2) {
        Some((p, res)) => {
            assert_eq!(p, 0);
            assert!(res.is_ok());
        }
        None => panic!("a source processor is always ready"),
    }
    g.stop();
    assert!(g.run_once(3).is_none());
    g.reset(h);
    assert!(g.is_ready(h));
}

#[test]
fn run_once_with_no_processors() {
    let mut g: FlowGraph<RouteOnContent> = FlowGraph::new();
    g.start();
    assert!(g.run_once(0).is_none());
}

#[test]
fn processor_names() {
    let p = FileProcessor::new(ProcessorContext::new("files"));
    assert_eq!(p.get_name(), "FileProcessor");
    assert_eq!(p.processor_context().processor_name, "files");
    let r = RouteOnContent::new("in");
    assert_eq!(r.get_name(), "RouteOnContent");
    assert!(r.declares_input("in"));
    assert!(!r.declares_input("success"));
    assert!(r.declares_output("failure"));
    assert!(!r.declares_output("in"));
    let _ = ProcessorState::Idle;
    let _: Option<InvocationError> = None;
}

#[test]
fn inject_assigns_fresh_ids_and_respects_capacity() {
    let mut g: FlowGraph<RouteOnContent> = FlowGraph::new();
    g.register_processor(RouteOnContent::new("in"), ProcessorContext::new("a")).ok();
    assert_eq!(g.inject(0, b"x".to_vec(), PropertyMap::new(), 0).err(), Some(InjectError::UnknownConnection));
}

#[test]
fn disconnect_refuses_unknown_handle() {
    let mut g: FlowGraph<RouteOnContent> = FlowGraph::new();
    assert_eq!(g.disconnect(0).err(), Some(WiringError::UnknownConnection));
}

#[test]
fn dequeue_then_enqueue_moves_flowfile() {
    let mut a = Connection::new(0, 0, "success", 1, 5, 100);
    let mut b = Connection::new(1, 1, "success", 2, 5, 100);
    assert!(a.enqueue(ff(1, b"a")).is_ok());
    assert!(a.enqueue(ff(2, b"b")).is_ok());
    assert!(b.enqueue(ff(3, b"c")).is_ok());
    let f = a.dequeue().unwrap();
    assert!(b.enqueue(f).is_ok());
    assert_eq!(ids(&a), vec![2]);
    assert_eq!(ids(&b), vec![3, 1]);
}

#[test]
fn commit_check_catches_double_ownership() {
    let conns = vec![Connection::new(0, 1, "success", 2, 5, 1000)];
    let mut session = ProcessingSession::begin(conns, 1, 10, 0);
    assert!(session.transfer(ff(3, b"a"), "success").is_ok());
    assert!(session.commit_keeps_ownership());
    assert!(session.transfer(ff(3, b"b"), "success").is_ok());
    assert!(!session.commit_keeps_ownership());
}

#[test]
fn commit_check_catches_ids_never_handed_out() {
    let conns = vec![Connection::new(0, 1, "success", 2, 5, 1000)];
    let mut session = ProcessingSession::begin(conns, 1, 10, 0);
    assert!(session.transfer(ff(10, b"a"), "success").is_ok());
    assert!(!session.commit_keeps_ownership());
}

#[test]
fn created_flowfiles_keep_ownership() {
    let conns = vec![Connection::new(0, 1, "success", 2, 5, 1000)];
    let mut session = ProcessingSession::begin(conns, 1, 10, 0);
    let a = session.create(b"a".to_vec(), PropertyMap::new()).unwrap();
    let b = session.create(b"b".to_vec(), PropertyMap::new()).unwrap();
    assert!(session.transfer(a, "success").is_ok());
    assert!(session.transfer(b, "success").is_ok());
    assert!(session.commit_keeps_ownership());
    let conns = session.commit();
    assert_eq!(ids(&conns[0]), vec![10, 11]);
}

#[test]
fn fresh_and_distinct_ids_exact() {
    assert!(streamsync::ownership::ids_fresh_and_distinct(&vec![1, 2, 3], 4));
    assert!(!streamsync::ownership::ids_fresh_and_distinct(&vec![1, 2, 3], 3));
    assert!(!streamsync::ownership::ids_fresh_and_distinct(&vec![1, 2, 1], 9));
    assert!(streamsync::ownership::ids_fresh_and_distinct(&Vec::new(), 0));
}

fn routing_graph(success_capacity: usize) -> FlowGraph<RouteOnContent> {
    let mut g: FlowGraph<RouteOnContent> = FlowGraph::new();
    let a = g.register_processor(RouteOnContent::new("in"), ProcessorContext::new("a")).ok().unwrap();
    let b = g.register_processor(RouteOnContent::new("success"), ProcessorContext::new("b")).ok().unwrap();
    let c = g.register_processor(RouteOnContent::new("success"), ProcessorContext::new("c")).ok().unwrap();
    let d = g.register_processor(RouteOnContent::new("failure"), ProcessorContext::new("d")).ok().unwrap();
    assert_eq!(g.connect(a, "success", b, 10, 1000).ok(), Some(0));
    assert_eq!(g.connect(b, "success", c, success_capacity, 1000).ok(), Some(1));
    assert_eq!(g.connect(b, "failure", d, 10, 1000).ok(), Some(2));
    g
}

#[test]
fn graph_routes_valid_and_invalid_content() {
    let mut g = routing_graph(10);
    assert_eq!(g.resolve_inputs(1), vec![0]);
    assert_eq!(g.resolve_outputs(1), vec![1, 2]);
    assert_eq!(g.inject(0, b"good".to_vec(), PropertyMap::new(), 0).ok(), Some(0));
    assert!(g.is_ready(1));
    assert!(g.trigger(1, 1).is_ok());
    assert_eq!(ids(g.connection(1)), vec![0]);
    assert!(g.connection(2).is_empty());
    assert_eq!(g.inject(0, Vec::new(), PropertyMap::new(), 2).ok(), Some(1));
    assert!(g.trigger(1, 3).is_ok());
    assert_eq!(ids(g.connection(1)), vec![0]);
    assert_eq!(ids(g.connection(2)), vec![1]);
    assert_eq!(g.state(1), ProcessorState::Idle);
    assert_eq!(g.inject(0, b"x".to_vec(), PropertyMap::new(), 4).ok(), Some(2));
    g.start();
    // a has no input connection, so it is a source and always ready; it comes first.
    for expected in [0usize, 1] {
        match g.run_once(5) {
            Some((h, res)) => {
                assert_eq!(h, expected);
                assert!(res.is_ok());
            }
            None => panic!("processors a and b were ready"),
        }
    }
    assert!(!g.is_ready(1));
    assert!(g.is_ready(2));
    assert!(g.disconnect(0).is_ok());
    assert_eq!(g.disconnect(0).err(), Some(WiringError::ConnectionNotEmpty));
}

#[test]
fn graph_backpressure_rolls_back() {
    let mut g = routing_graph(1);
    assert!(g.inject(0, b"one".to_vec(), PropertyMap::new(), 0).is_ok());
    assert!(g.inject(0, b"two".to_vec(), PropertyMap::new(), 0).is_ok());
    assert!(g.trigger(1, 1).is_ok());
    match g.trigger(1, 2) {
        Err(InvocationError::Backpressure) => {}
        _ => panic!("a full output must push back"),
    }
    assert_eq!(ids(g.connection(0)), vec![1]);
    assert_eq!(ids(g.connection(1)), vec![0]);
    assert_eq!(g.state(1), ProcessorState::Runnable);
    assert_eq!(g.connection_count(), 3);
    assert!(g.is_ready(1));
    assert_eq!(g.disconnect(0).err(), Some(WiringError::ConnectionNotEmpty));
    assert_eq!(g.disconnect(1).err(), Some(WiringError::ConnectionNotEmpty));
    assert!(g.disconnect(2).is_ok());
}

#[test]
fn inject_refused_when_full() {
    let mut g = routing_graph(10);
    for i in 0..10u64 {
        assert_eq!(g.inject(0, b"z".to_vec(), PropertyMap::new(), 0).ok(), Some(i));
    }
    assert_eq!(g.inject(0, b"z".to_vec(), PropertyMap::new(), 0).err(), Some(InjectError::Backpressure));
}

#[test]
fn unregister_refuses_connected_and_renumbers() {
    let mut g = routing_graph(10);
    assert_eq!(g.unregister(9).err(), Some(WiringError::UnknownProcessor));
    assert_eq!(g.unregister(1).err(), Some(WiringError::ProcessorConnected));
    assert!(g.disconnect(0).is_ok());
    // a (handle 0) is now untouched by any connection
    assert!(g.unregister(0).is_ok());
    // b was handle 1 and is now handle 0; its outputs follow it
    assert_eq!(g.resolve_outputs(0), vec![0, 1]);
    assert!(g.resolve_inputs(0).is_empty());
    let c = g.register_processor(RouteOnContent::new("in"), ProcessorContext::new("a"));
    assert_eq!(c.ok(), Some(3));
}

#[test]
fn names_are_stable() {
    let p = FileProcessor::new(ProcessorContext::new("x"));
    assert_eq!(p.get_name(), "FileProcessor");
    assert_eq!(p.get_name(), p.get_name());
}

#[test]
fn capacity_plus_one_transfers() {
    let conns = vec![Connection::new(0, 1, "success", 2, 3, 1000)];
    let mut session = ProcessingSession::begin(conns, 1, 0, 0);
    for _ in 0..3 {
        let f = session.create(b"f".to_vec(), PropertyMap::new()).unwrap();
        assert!(session.transfer(f, "success").is_ok());
    }
    let extra = session.create(b"g".to_vec(), PropertyMap::new()).unwrap();
    match session.transfer(extra, "success") {
        Err(bp) => assert_eq!(bp.flowfile.id(), 3),
        Ok(()) => panic!("a fourth transfer overran the capacity"),
    }
    let conns = session.commit();
    assert_eq!(ids(&conns[0]), vec![0, 1, 2]);
}

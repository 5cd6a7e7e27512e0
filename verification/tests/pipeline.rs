use omnistack::config::{GraphConfig, GraphEntry, NicConfig, StackConfig};
use omnistack::engine::{plan_graphs, BuildError, Graph, Node, Worker};
use omnistack::modules::eth::{EthReceiver, EthSender};
use omnistack::modules::ipv4::{Ipv4Receiver, Ipv4Sender};
use omnistack::modules::udp::{UdpReceiver, UdpSender};
use omnistack::modules::user::UserNode;
use omnistack::modules::{Context, Module, ModuleError, ModuleKind};
use omnistack::nio::IoNode;
use omnistack::packet::PacketPool;
use omnistack::protocol::{parse_ipv4, swap16, Route};
use omnistack::registry::Registry;

fn test_ctx() -> Context {
    Context {
        cpu: 0,
        worker_id: 0,
        thread_id: 0,
        graph_id: 0,
        stack_name: "UDP".to_string(),
        queue: 0,
        num_queues: 1,
    }
}

fn udp_stack() -> StackConfig {
    StackConfig {
        name: "UDP".to_string(),
        nics: vec![NicConfig {
            adapter_name: "Dpdk".to_string(),
            port: 0,
            ipv4: parse_ipv4("192.168.10.1").unwrap(),
            netmask: parse_ipv4("255.255.255.0").unwrap(),
        }],
        routes: vec![Route::new(parse_ipv4("192.168.10.0").unwrap(), 24, 0)],
        graphs: vec![GraphEntry { name: "UDP".to_string(), cpus: vec![0] }],
    }
}

fn send_graph(burst: u32, payload: u16) -> Graph {
    Graph {
        id: 0,
        cpu: 0,
        nodes: vec![
            Node {
                module: Module::User(UserNode::with_config(burst, payload)),
                links_to: vec![1],
            },
            Node { module: Module::UdpSender(UdpSender::new()), links_to: vec![2] },
            Node { module: Module::Ipv4Sender(Ipv4Sender::new()), links_to: vec![3] },
            Node { module: Module::EthSender(EthSender::new()), links_to: vec![4] },
            Node { module: Module::Io(IoNode::new()), links_to: vec![] },
        ],
    }
}

fn drain_all(pool: &mut PacketPool, n: usize) {
    let mut taken = Vec::new();
    for _ in 0..n {
        taken.push(pool.allocate().expect("every slot must be free again"));
    }
    for s in taken {
        pool.deallocate(s);
    }
}

#[test]
fn one_port_udp_send_produces_one_frame() {
    let stack = udp_stack();
    let pool = PacketPool::with_capacity(0, 0, 8);
    let graph = send_graph(1, 1200);
    let mut worker =
        Worker::new(0, "UDP".to_string(), graph, 0, 0, 1, &stack, pool).expect("worker starts");
    worker.run_iteration(4096).expect("one clean iteration");
    // the frame is staged, waiting for the burst or shutdown flush
    match &worker.nodes[4].module {
        Module::Io(io) => assert_eq!(io.adapter(0).staged_count(), 1),
        _ => panic!("node 4 is the I/O node"),
    }
    worker.shutdown();
    assert!(worker.is_destroyed());
    match &worker.nodes[4].module {
        Module::Io(io) => {
            let sent = io.adapter(0).sent_frames();
            assert_eq!(sent.len(), 1);
            let f = &sent[0];
            assert_eq!(f.bytes.len(), 14 + 20 + 8 + 1200);
            assert_eq!(f.l2_len, 14);
            assert_eq!(f.l3_len, 20);
            assert!(f.ip_cksum_offload && f.udp_cksum_offload);
            // EtherType 0x0800
            assert_eq!(&f.bytes[12..14], &[0x08, 0x00]);
            // IPv4: version 4, IHL 5, total length 1228, protocol 17
            assert_eq!(f.bytes[14], 0x45);
            assert_eq!(u16::from_be_bytes([f.bytes[16], f.bytes[17]]), 1228);
            assert_eq!(f.bytes[23], 17);
            // UDP: ports 80 -> 81, length 1208
            assert_eq!(u16::from_be_bytes([f.bytes[34], f.bytes[35]]), 80);
            assert_eq!(u16::from_be_bytes([f.bytes[36], f.bytes[37]]), 81);
            assert_eq!(u16::from_be_bytes([f.bytes[38], f.bytes[39]]), 1208);
        }
        _ => unreachable!(),
    }
    // every packet reference came back: the pool is full again
    drain_all(&mut worker.pool, 8);
    assert_eq!(worker.task_count(), 0);
}

#[test]
fn a_full_burst_triggers_exactly_one_auto_flush() {
    let stack = udp_stack();
    let pool = PacketPool::with_capacity(0, 0, 128);
    let graph = send_graph(omnistack::BURST_SIZE as u32, 36);
    let mut worker =
        Worker::new(0, "UDP".to_string(), graph, 0, 0, 1, &stack, pool).expect("worker starts");
    worker.run_iteration(65536).expect("one clean iteration");
    match &worker.nodes[4].module {
        Module::Io(io) => {
            // the burst-sized send auto-flushed once and left the staging empty
            assert_eq!(io.adapter(0).staged_count(), 0);
            assert_eq!(io.adapter(0).sent_frames().len(), omnistack::BURST_SIZE);
        }
        _ => unreachable!(),
    }
    worker.shutdown();
    drain_all(&mut worker.pool, 128);
}

#[test]
fn fan_out_forwards_to_both_successors_and_frees_once() {
    let stack = udp_stack();
    let pool = PacketPool::with_capacity(0, 0, 8);
    let graph = Graph {
        id: 0,
        cpu: 0,
        nodes: vec![
            Node { module: Module::User(UserNode::with_config(1, 36)), links_to: vec![1] },
            Node { module: Module::EthReceiver(EthReceiver::new()), links_to: vec![2, 3] },
            Node { module: Module::User(UserNode::with_config(0, 0)), links_to: vec![] },
            Node { module: Module::User(UserNode::with_config(0, 0)), links_to: vec![] },
        ],
    };
    let mut worker =
        Worker::new(0, "UDP".to_string(), graph, 0, 0, 1, &stack, pool).expect("worker starts");
    worker.run_iteration(4096).expect("one clean iteration");
    assert_eq!(worker.task_count(), 0);
    worker.shutdown();
    // both sink visits released their reference; the packet died exactly once
    drain_all(&mut worker.pool, 8);
}

#[test]
fn graceful_shutdown_destroys_every_worker_once() {
    let stack = udp_stack();
    let mut workers = Vec::new();
    for id in 0..3u32 {
        let pool = PacketPool::with_capacity(0, 0, 8);
        let graph = send_graph(1, 64);
        workers
            .push(Worker::new(id, "UDP".to_string(), graph, id, 0, 3, &stack, pool).unwrap());
    }
    for w in workers.iter_mut() {
        w.run(2, 4096).expect("two iterations then shutdown");
        assert!(w.is_destroyed());
        assert_eq!(w.task_count(), 0);
        drain_all(&mut w.pool, 8);
    }
}

#[test]
fn self_loop_and_duplicate_edges_are_rejected_at_build() {
    let mut registry = Registry::new();
    registry.register("A", ModuleKind::EthReceiver);
    registry.register("B", ModuleKind::UserNode);
    let self_loop = GraphConfig {
        name: "G".to_string(),
        modules: vec!["A".to_string(), "B".to_string()],
        links: vec![("A".to_string(), "A".to_string())],
    };
    assert!(matches!(
        Graph::build(&self_loop, &registry, 0, 0),
        Err(BuildError::DuplicateEdge)
    ));
    let duplicate = GraphConfig {
        name: "G".to_string(),
        modules: vec!["A".to_string(), "B".to_string()],
        links: vec![
            ("A".to_string(), "B".to_string()),
            ("A".to_string(), "B".to_string()),
        ],
    };
    assert!(matches!(
        Graph::build(&duplicate, &registry, 0, 0),
        Err(BuildError::DuplicateEdge)
    ));
}

#[test]
fn unknown_module_name_aborts_planning() {
    let mut registry = Registry::new();
    registry.register("UserNode", ModuleKind::UserNode);
    let config = omnistack::config::ConfigManager::get();
    let graph = GraphConfig {
        name: "UDP".to_string(),
        modules: vec!["Quux".to_string()],
        links: vec![],
    };
    let bad = Graph::build(&graph, &registry, 0, 0);
    match bad {
        Err(BuildError::UnknownModule { name }) => assert_eq!(name, "Quux"),
        Err(other) => panic!("expected the unknown module by name, got {:?}", other),
        Ok(_) => panic!("an unknown module name must not build"),
    }
    // an unknown stack name is caught before any worker exists
    let r = plan_graphs(&config, &registry, "NoSuchStack");
    match r {
        Err(BuildError::UnknownName { name }) => assert_eq!(name, "NoSuchStack"),
        Err(other) => panic!("expected the unknown stack by name, got {:?}", other),
        Ok(_) => panic!("an unknown stack name must not plan"),
    }
}

#[test]
fn routing_picks_the_longest_matching_prefix() {
    let ctx = test_ctx();
    let mut pool = PacketPool::with_capacity(0, 0, 2);
    let slot = pool.allocate().unwrap();
    {
        let p = pool.packet_mut(slot);
        p.set_len(64);
        p.dst_addr = u32::from_le_bytes([10, 1, 2, 3]);
    }
    let mut ip_tx = Ipv4Sender::new();
    ip_tx
        .init(&vec![
            Route::new(parse_ipv4("10.0.0.0").unwrap(), 8, 0),
            Route::new(parse_ipv4("10.1.0.0").unwrap(), 16, 1),
        ])
        .unwrap();
    ip_tx.process(&ctx, &mut pool, slot).unwrap();
    // both prefixes match; the /16 is more specific and names the NIC
    assert_eq!(pool.packet(slot).nic, 1);
}

#[test]
fn a_polled_burst_may_feed_at_most_one_successor() {
    let stack = udp_stack();
    let pool = PacketPool::with_capacity(0, 0, 8);
    let graph = Graph {
        id: 0,
        cpu: 0,
        nodes: vec![
            Node { module: Module::User(UserNode::with_config(1, 36)), links_to: vec![1, 2] },
            Node { module: Module::User(UserNode::with_config(0, 0)), links_to: vec![] },
            Node { module: Module::User(UserNode::with_config(0, 0)), links_to: vec![] },
        ],
    };
    match Worker::new(0, "UDP".to_string(), graph, 0, 0, 1, &stack, pool) {
        Err(ModuleError::Unknown) => {}
        _ => panic!("a pollable node with two successors must be rejected"),
    }
}

#[test]
fn a_stack_with_too_many_nics_is_rejected() {
    let mut stack = udp_stack();
    while stack.nics.len() <= 16 {
        stack.nics.push(NicConfig {
            adapter_name: "Dpdk".to_string(),
            port: 0,
            ipv4: parse_ipv4("192.168.10.1").unwrap(),
            netmask: parse_ipv4("255.255.255.0").unwrap(),
        });
    }
    let pool = PacketPool::with_capacity(0, 0, 8);
    let graph = send_graph(1, 64);
    match Worker::new(0, "UDP".to_string(), graph, 0, 0, 1, &stack, pool) {
        Err(ModuleError::Unknown) => {}
        _ => panic!("more NICs than adapter slots must be rejected"),
    }
}

#[test]
fn encode_then_decode_restores_the_cursor_and_fields() {
    let ctx = test_ctx();
    let mut pool = PacketPool::with_capacity(0, 0, 2);
    let slot = pool.allocate().unwrap();
    {
        let p = pool.packet_mut(slot);
        p.set_len(100);
    }
    {
        let p = pool.packet_mut(slot);
        p.dst_addr = u32::from_le_bytes([192, 168, 10, 2]);
    }
    let mut udp_tx = UdpSender::new();
    let mut ip_tx = Ipv4Sender::new();
    ip_tx.init(&vec![Route::new(parse_ipv4("192.168.10.0").unwrap(), 24, 0)]).unwrap();
    let mut eth_tx = EthSender::new();
    udp_tx.process(&ctx, &mut pool, slot).unwrap();
    // forwarding through single-successor nodes never touches the count
    assert_eq!(pool.packet(slot).refcnt, 1);
    ip_tx.process(&ctx, &mut pool, slot).unwrap();
    eth_tx.process(&ctx, &mut pool, slot).unwrap();
    assert_eq!(pool.packet(slot).refcnt, 1);
    assert_eq!(pool.packet(slot).offset, omnistack::DEFAULT_OFFSET - 14 - 20 - 8);
    assert_eq!(pool.packet(slot).nic, 0);

    let mut eth_rx = EthReceiver::new();
    let mut ip_rx = Ipv4Receiver::new();
    let mut udp_rx = UdpReceiver::new();
    eth_rx.process(&ctx, &mut pool, slot).unwrap();
    ip_rx.process(&ctx, &mut pool, slot).unwrap();
    udp_rx.process(&ctx, &mut pool, slot).unwrap();
    let p = pool.packet(slot);
    // the cursor is back where the payload started, with its length intact
    assert_eq!(p.offset, omnistack::DEFAULT_OFFSET);
    assert_eq!(p.len, omnistack::DEFAULT_OFFSET + 100);
    // and the recorded headers decode to what the senders wrote
    let udp = omnistack::codec::read_udp_header(&p.buf, p.l4_header.offset as usize);
    assert_eq!(swap16(udp.src), 80);
    assert_eq!(swap16(udp.dst), 81);
    assert_eq!(swap16(udp.len), 108);
    let ip = omnistack::codec::read_ipv4_header(&p.buf, p.l3_header.offset as usize).unwrap();
    assert_eq!(swap16(ip.tot_len), 128);
    assert_eq!(ip.src, u32::from_le_bytes([192, 168, 10, 1]));
    assert_eq!(ip.dst, u32::from_le_bytes([192, 168, 10, 2]));
}

#[test]
fn malformed_packets_are_dropped_and_freed() {
    let ctx = test_ctx();
    let mut pool = PacketPool::with_capacity(0, 0, 1);
    let slot = pool.allocate().unwrap();
    {
        // no headroom at all: encapsulation cannot fit a header
        let p = pool.packet_mut(slot);
        p.offset = 0;
        p.len = 0;
    }
    let mut eth_tx = EthSender::new();
    match eth_tx.process(&ctx, &mut pool, slot) {
        Err(ModuleError::Dropped) => {}
        other => panic!("expected a drop, got {:?}", other),
    }
    // the drop freed the packet: the single slot is available again
    assert!(pool.allocate().is_ok());
}

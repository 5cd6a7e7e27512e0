use omnistack::memory::{MemoryError, MemoryPools};
use omnistack::packet::{PacketPool, PacketPools, PktBufType};

#[test]
fn drained_pool_reports_exhausted_and_recovers() {
    let mut pool = PacketPool::with_capacity(0, 0, 8);
    let mut slots = Vec::new();
    for _ in 0..8 {
        slots.push(pool.allocate().expect("eight packets fit an eight-slot pool"));
    }
    match pool.allocate() {
        Err(MemoryError::Exhausted) => {}
        Ok(_) => panic!("a drained pool must report exhaustion"),
    }
    for s in slots {
        pool.deallocate(s);
    }
    // after draining back, the full capacity is available again
    let mut again = Vec::new();
    for _ in 0..8 {
        again.push(pool.allocate().expect("all slots must be free again"));
    }
    assert!(matches!(pool.allocate(), Err(MemoryError::Exhausted)));
}

#[test]
fn fresh_packets_are_reset() {
    let mut pool = PacketPool::with_capacity(0, 0, 2);
    let s = pool.allocate().unwrap();
    let p = pool.packet(s);
    assert_eq!(p.refcnt, 1);
    assert_eq!(p.offset, omnistack::DEFAULT_OFFSET);
    assert_eq!(p.len, omnistack::DEFAULT_OFFSET);
    assert_eq!(p.next, None);
    assert_eq!(p.buf_ty, PktBufType::Local);
    assert_eq!(p.buf.len(), omnistack::PACKET_BUF_SIZE);
}

#[test]
fn refcount_gates_the_final_free() {
    let mut pool = PacketPool::with_capacity(0, 0, 1);
    let s = pool.allocate().unwrap();
    pool.add_refs(s, 1);
    pool.deallocate(s);
    // one reference remains, so the slot is still taken
    assert!(matches!(pool.allocate(), Err(MemoryError::Exhausted)));
    pool.deallocate(s);
    // the second release frees it
    assert!(pool.allocate().is_ok());
}

#[test]
fn packet_pool_get_or_create_is_idempotent_by_socket() {
    let mut pools = PacketPools::new();
    let a = pools.get_or_create(0, 1);
    let b = pools.get_or_create(1, 1);
    let a2 = pools.get_or_create(0, 7);
    assert_eq!(a, a2);
    assert_ne!(a, b);
}

#[test]
fn memory_pool_get_or_create_is_idempotent_by_name() {
    let mut pools = MemoryPools::new();
    let a = pools.get_or_create("pktpool_0", 4, 64, 0);
    let b = pools.get_or_create("pktpool_1", 4, 64, 1);
    let a2 = pools.get_or_create("pktpool_0", 99, 64, 3);
    assert_eq!(a, a2);
    assert_ne!(a, b);
}

#[test]
fn deallocate_returns_to_the_owning_pool() {
    let mut pools = MemoryPools::new();
    let p0 = pools.get_or_create("alpha", 1, 8, 0);
    let p1 = pools.get_or_create("beta", 1, 8, 0);
    let obj = pools.allocate(p0, 0).expect("one slot is free");
    assert_eq!(obj.pool, p0);
    assert!(matches!(pools.allocate(p0, 0), Err(MemoryError::Exhausted)));
    // free from a different thread: the object still returns to its own pool
    pools.deallocate(obj, 42);
    assert!(pools.allocate(p0, 0).is_ok());
    // the sibling pool was never touched
    assert!(pools.allocate(p1, 0).is_ok());
}

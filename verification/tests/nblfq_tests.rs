use dataplane::nblfq::Cell;
use dataplane::nblfq::Queue;
use dataplane::nblfq::EMPTY;

#[test]
fn test_pack_unpack_roundtrip() {
    let cases = [
        (0, 0),
        (1, 0),
        (0, 1),
        (EMPTY, 0),
        (123456, 67890),
        (u32::MAX - 1, u32::MAX),
    ];

    for (idx, ctr) in cases {
        let packed = Cell::pack(idx, ctr);
        assert_eq!((idx, ctr), Cell::unpack(packed));
    }
}

#[test]
fn test_packed_layout() {
    // Counter in high bits and index in low bits.
    let packed = Cell::pack(0x1234_5678, 0xABCD_EF00);
    assert_eq!(packed, 0xABCD_EF00_1234_5678);
}

#[test]
fn lbq_fill_then_drain() {
    // capacity 4: four enqueues succeed, the fifth is refused; four
    // dequeues drain in order, the fifth returns nothing
    let mut q: Queue<u64> = Queue::new(4);
    for v in 0..4u64 {
        assert!(q.enqueue(v).is_ok());
    }
    assert_eq!(q.enqueue(99), Err(99));
    for v in 0..4u64 {
        assert_eq!(q.dequeue(), Some(v));
    }
    assert_eq!(q.dequeue(), None);
}

#[test]
fn lbq_fifo_order() {
    // values from one producer come out in enqueue order
    let mut q: Queue<u64> = Queue::new(16);
    for v in [5u64, 3, 9, 1, 7] {
        assert!(q.enqueue(v).is_ok());
    }
    for v in [5u64, 3, 9, 1, 7] {
        assert_eq!(q.dequeue(), Some(v));
    }
    assert_eq!(q.dequeue(), None);
}

#[test]
fn lbq_no_loss_no_duplication() {
    // 8 producers' worth of 4 values each through a capacity-128 ring;
    // dequeuing 16 then the rest yields exactly the enqueued multiset
    let mut q: Queue<u64> = Queue::new(128);
    let mut enqueued = Vec::new();
    for i in 0..8u64 {
        for j in 0..4u64 {
            let v = i * 10 + j;
            assert!(q.enqueue(v).is_ok());
            enqueued.push(v);
        }
    }
    let mut results = Vec::new();
    for _ in 0..16 {
        results.push(q.dequeue().unwrap());
    }
    assert_eq!(results.len(), 16);
    while let Some(v) = q.dequeue() {
        results.push(v);
    }
    results.sort();
    enqueued.sort();
    assert_eq!(results, enqueued);
}

#[test]
fn lbq_interleaved_reuse() {
    // laps beyond the first: slots are reused with fresh counters
    let mut q: Queue<u64> = Queue::new(4);
    let mut next = 0u64;
    let mut expect = 0u64;
    for _round in 0..10 {
        while q.enqueue(next).is_ok() {
            next += 1;
        }
        for _ in 0..2 {
            assert_eq!(q.dequeue(), Some(expect));
            expect += 1;
        }
    }
    while let Some(v) = q.dequeue() {
        assert_eq!(v, expect);
        expect += 1;
    }
    assert_eq!(next, expect);
}

use lf_queue::Queue;

#[test]
fn test_spsc() {
    let count: usize = 7 * 3;
    let mut queue: Queue<usize> = Queue::new();

    for i in 0..count {
        queue.push(i);
    }

    for i in 0..count {
        assert_eq!(i, queue.pop().unwrap());
    }

    assert!(queue.pop().is_none());
}

#[test]
fn empty_observation() {
    let mut queue: Queue<usize> = Queue::new();
    assert!(queue.pop().is_none());
    queue.push(7);
    assert_eq!(queue.pop(), Some(7));
    assert!(queue.pop().is_none());
}

#[test]
fn pop_stays_empty() {
    let mut queue: Queue<usize> = Queue::new();
    for _ in 0..3 {
        assert!(queue.pop().is_none());
    }
    queue.push(1);
    assert_eq!(queue.pop(), Some(1));
    for _ in 0..3 {
        assert!(queue.pop().is_none());
    }
}

#[test]
fn node_boundary_small_capacity() {
    // capacity 3: five values from one stream, two from another; everything
    // comes back out exactly once
    let mut queue: Queue<usize> = Queue::with_capacity(3);
    for i in 0..5 {
        queue.push(i);
    }
    for i in 10..12 {
        queue.push(i);
    }
    let mut popped: Vec<usize> = Vec::new();
    while let Some(v) = queue.pop() {
        popped.push(v);
    }
    assert_eq!(popped.len(), 7);
    assert_eq!(popped, vec![0, 1, 2, 3, 4, 10, 11]);
}

#[test]
fn fifo_across_many_nodes() {
    // capacity 2 exercises the install/drain paths every other push
    let mut queue: Queue<usize> = Queue::with_capacity(2);
    for i in 0..100 {
        queue.push(i);
    }
    for i in 0..100 {
        assert_eq!(queue.pop(), Some(i));
    }
    assert!(queue.pop().is_none());
}

#[test]
fn interleaved_push_pop() {
    let mut queue: Queue<usize> = Queue::with_capacity(3);
    let mut next_in: usize = 0;
    let mut next_out: usize = 0;
    for round in 0..50 {
        let pushes: usize = round % 4;
        let pops: usize = round % 3;
        for _ in 0..pushes {
            queue.push(next_in);
            next_in += 1;
        }
        for _ in 0..pops {
            if let Some(v) = queue.pop() {
                assert_eq!(v, next_out);
                next_out += 1;
            } else {
                assert_eq!(next_in, next_out);
            }
        }
    }
    while let Some(v) = queue.pop() {
        assert_eq!(v, next_out);
        next_out += 1;
    }
    assert_eq!(next_in, next_out);
}

#[test]
fn merged_streams_counts() {
    // four interleaved streams each contributing 0..1000: after draining,
    // every value was seen exactly four times
    let count: usize = 1000;
    let streams: usize = 4;
    let mut queue: Queue<usize> = Queue::new();
    for i in 0..count {
        for _ in 0..streams {
            queue.push(i);
        }
    }
    let mut seen = vec![0usize; count];
    for _ in 0..count * streams {
        let v: usize = queue.pop().unwrap();
        seen[v] += 1;
    }
    assert!(queue.pop().is_none());
    for c in seen {
        assert_eq!(c, streams);
    }
}

#[test]
fn drained_in_batches() {
    // one stream of 0..4000, drained in four batches of 1000: the union of
    // the batches is exactly the stream
    let count: usize = 1000;
    let batches: usize = 4;
    let mut queue: Queue<usize> = Queue::new();
    for i in 0..count * batches {
        queue.push(i);
    }
    let mut all: Vec<usize> = Vec::new();
    for _ in 0..batches {
        let mut batch: Vec<usize> = Vec::new();
        for _ in 0..count {
            batch.push(queue.pop().unwrap());
        }
        assert_eq!(batch.len(), count);
        all.extend(batch);
    }
    assert!(queue.pop().is_none());
    let expected: Vec<usize> = (0..count * batches).collect();
    assert_eq!(all, expected);
}

#[test]
fn per_stream_order_kept() {
    // two tagged streams interleaved at the tail: within each tag, values
    // come back in their own emission order
    let mut queue: Queue<(usize, usize)> = Queue::with_capacity(3);
    for i in 0..40 {
        queue.push((0, i));
        if i % 2 == 0 {
            queue.push((1, i / 2));
        }
    }
    let mut last: [Option<usize>; 2] = [None, None];
    while let Some((tag, v)) = queue.pop() {
        if let Some(prev) = last[tag] {
            assert!(prev < v);
        }
        last[tag] = Some(v);
    }
    assert_eq!(last[0], Some(39));
    assert_eq!(last[1], Some(19));
}

#[test]
fn owned_payloads() {
    let mut queue: Queue<String> = Queue::with_capacity(2);
    queue.push(String::from("first"));
    queue.push(String::from("second"));
    queue.push(String::from("third"));
    assert_eq!(queue.pop().unwrap(), "first");
    assert_eq!(queue.pop().unwrap(), "second");
    assert_eq!(queue.pop().unwrap(), "third");
    assert!(queue.pop().is_none());
}

#[test]
fn default_is_new() {
    let mut queue: Queue<usize> = Queue::default();
    assert!(queue.pop().is_none());
    for i in 0..8 {
        queue.push(i);
    }
    for i in 0..8 {
        assert_eq!(queue.pop(), Some(i));
    }
    assert!(queue.pop().is_none());
}

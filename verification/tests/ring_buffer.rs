use espora::balancer::next_server;
use espora::ring_buffer::RingBuffer;

#[test]
fn push_front_keeps_the_newest() {
    let mut ring = RingBuffer::<u32, 3>::new();
    assert_eq!(0, ring.len());
    ring.push_front(1);
    ring.push_front(2);
    ring.push_front(3);
    assert_eq!(vec![3, 2, 1], ring.clone().into_vec());
    ring.push_front(4);
    assert_eq!(3, ring.len());
    assert_eq!(vec![4, 3, 2], ring.clone().into_vec());
    assert_eq!(4, *ring.get(0));
    assert_eq!(2, *ring.get(2));
}

#[test]
fn push_back_keeps_the_newest() {
    let mut ring = RingBuffer::<u32, 3>::new();
    ring.push_back(1);
    ring.push_back(2);
    ring.push_back(3);
    assert_eq!(vec![1, 2, 3], ring.clone().into_vec());
    ring.push_back(4);
    ring.push_back(5);
    assert_eq!(vec![3, 4, 5], ring.into_vec());
}

#[test]
fn ring_of_ten_by_default() {
    let mut ring: RingBuffer<u32, 10> = Default::default();
    for i in 0..25 {
        ring.push_front(i);
    }
    assert_eq!(10, ring.len());
    assert_eq!(vec![24, 23, 22, 21, 20, 19, 18, 17, 16, 15], ring.into_vec());
}

#[test]
fn ring_of_size_zero_keeps_nothing() {
    let mut ring = RingBuffer::<u32, 0>::new();
    ring.push_front(1);
    ring.push_back(2);
    assert_eq!(0, ring.len());
    assert!(RingBuffer::<u32, 0>::from_vec(vec![1, 2]).into_vec().is_empty());
}

#[test]
fn from_vec_keeps_the_last_items() {
    assert_eq!(
        vec![3, 4, 5],
        RingBuffer::<u32, 3>::from_vec(vec![1, 2, 3, 4, 5]).into_vec()
    );
    assert_eq!(
        vec![1, 2],
        RingBuffer::<u32, 3>::from_vec(vec![1, 2]).into_vec()
    );
    assert!(RingBuffer::<u32, 3>::from_vec(vec![]).into_vec().is_empty());
    let mut pushed = RingBuffer::<u32, 3>::new();
    for item in [1, 2, 3, 4, 5] {
        pushed.push_back(item);
    }
    assert_eq!(
        pushed.into_vec(),
        RingBuffer::<u32, 3>::from_vec(vec![1, 2, 3, 4, 5]).into_vec()
    );
}

#[test]
fn upstreams_take_turns() {
    let addrs = vec![
        String::from("0.0.0.0:9997"),
        String::from("0.0.0.0:9998"),
        String::from("0.0.0.0:9999"),
    ];
    assert_eq!("0.0.0.0:9997", next_server(&addrs, 0));
    assert_eq!("0.0.0.0:9998", next_server(&addrs, 1));
    assert_eq!("0.0.0.0:9999", next_server(&addrs, 2));
    assert_eq!("0.0.0.0:9997", next_server(&addrs, 3));
    assert_eq!("0.0.0.0:9998", next_server(&addrs, 1_000_000));
    assert_eq!("0.0.0.0:9997", next_server(&addrs, usize::MAX));
    let one = vec![String::from("a")];
    assert_eq!("a", next_server(&one, 12345));
}

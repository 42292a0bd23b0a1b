use msgcache::circular_buffer::CircularBuffer;

#[test]
fn dont_overflow() {
    let mut buf = CircularBuffer::new(3);
    buf.add("unu");
    buf.add("doi");
    let mut i = buf.iter();
    assert_eq!(Some(&"unu"), i.next());
    assert_eq!(Some(&"doi"), i.next());
    assert_eq!(None, i.next());
}

#[test]
fn keep_last_added() {
    let mut buf = CircularBuffer::new(2);
    buf.add("unu");
    buf.add("doi");
    buf.add("trei");
    buf.add("patru");

    let mut i = buf.iter();
    assert_eq!(Some(&"trei"), i.next());
    assert_eq!(Some(&"patru"), i.next());
    assert_eq!(None, i.next());
}

#[test]
fn never_holds_more_than_capacity() {
    let mut buf = CircularBuffer::new(3);
    for k in 0..10u32 {
        buf.add(k);
        assert!(buf.len() <= 3);
    }
    let kept: Vec<u32> = buf.iter().copied().collect();
    assert_eq!(vec![7, 8, 9], kept);
}

#[test]
fn evicts_oldest_first() {
    let mut buf = CircularBuffer::new(2);
    buf.add(1u32);
    buf.add(2);
    assert_eq!(vec![1, 2], buf.iter().copied().collect::<Vec<u32>>());
    buf.add(3);
    assert_eq!(vec![2, 3], buf.iter().copied().collect::<Vec<u32>>());
    assert_eq!(2, buf.len());
    assert_eq!(2, *buf.get(0));
    assert_eq!(3, *buf.get(1));
}

#[test]
fn iteration_is_restartable() {
    let mut buf = CircularBuffer::new(4);
    buf.add('a');
    buf.add('b');
    let first: Vec<char> = buf.iter().copied().collect();
    let second: Vec<char> = buf.iter().copied().collect();
    assert_eq!(first, second);
    assert_eq!(vec!['a', 'b'], first);
}

#[test]
fn capacity_zero_keeps_nothing() {
    let mut buf = CircularBuffer::new(0);
    buf.add(1u8);
    buf.add(2u8);
    assert_eq!(0, buf.len());
    assert_eq!(None, buf.iter().next());
}

use mpsc::channel;

#[test]
fn pop_on_an_empty_channel_is_none() {
    let (_producer, mut consumer) = channel::<usize>(8);
    assert_eq!(consumer.pop(), None);
    assert_eq!(consumer.pop(), None);
    assert_eq!(consumer.available_len(), 0);
}

#[test]
fn pop_takes_the_descriptor_cached_last() {
    let (mut producer, mut consumer) = channel::<usize>(8);
    producer.push(7usize);
    producer.push(9usize);
    producer.flush();
    assert_eq!(consumer.pop(), Some(9));
    assert_eq!(consumer.pop(), Some(7));
    assert_eq!(consumer.pop(), None);
}

#[test]
fn pop_drains_the_lanes_only_when_the_cache_is_empty() {
    let (mut producer, mut consumer) = channel::<usize>(8);
    producer.push(1usize);
    producer.push(2usize);
    producer.flush();
    assert_eq!(consumer.pop(), Some(2));
    producer.push(3usize);
    producer.flush();
    assert_eq!(consumer.available_len(), 1);
    assert_eq!(consumer.pop(), Some(1));
    assert_eq!(consumer.available_len(), 0);
    assert_eq!(consumer.pop(), Some(3));
}

#[test]
fn available_len_counts_the_cache_and_drains_nothing() {
    let (mut producer, mut consumer) = channel::<usize>(8);
    producer.push(1usize);
    producer.push(2usize);
    producer.flush();
    assert_eq!(consumer.available_len(), 0);
    assert_eq!(consumer.available_len(), 0);
    consumer.sync();
    assert_eq!(consumer.available_len(), 2);
    assert_eq!(consumer.pop(), Some(2));
    assert_eq!(consumer.available_len(), 1);
}

#[test]
fn sync_puts_new_descriptors_behind_the_cached_ones() {
    let (mut producer, mut consumer) = channel::<usize>(8);
    producer.push(1usize);
    producer.push(2usize);
    producer.flush();
    consumer.sync();
    producer.push(3usize);
    producer.flush();
    consumer.sync();
    assert_eq!(consumer.cached.as_slice(), &[1, 2, 3]);
}

#[test]
fn sync_visits_the_lanes_in_registration_order() {
    let (mut first, mut consumer) = channel::<usize>(8);
    let mut second = first.try_clone().unwrap();
    let mut third = first.try_clone().unwrap();
    third.push(31usize);
    third.flush();
    second.push(21usize);
    second.push(22usize);
    second.flush();
    first.push(11usize);
    first.flush();
    consumer.sync();
    assert_eq!(consumer.cached.as_slice(), &[11, 21, 22, 31]);
}

#[test]
fn sync_stops_at_a_full_cache_and_favours_the_lanes_registered_first() {
    let (mut first, mut consumer) = channel::<usize>(2048);
    let mut second = first.try_clone().unwrap();
    for i in 0..1024usize {
        first.push(i);
    }
    for i in 0..16usize {
        second.push(5000 + i);
    }
    consumer.sync();
    assert_eq!(consumer.available_len(), 1024);
    assert!(consumer.cached.iter().all(|d| *d < 1024));
    consumer.sync();
    assert_eq!(consumer.available_len(), 1024);
    for expected in (0..1024usize).rev() {
        assert_eq!(consumer.pop(), Some(expected));
    }
    assert_eq!(consumer.pop(), Some(5015));
    assert_eq!(consumer.available_len(), 15);
}

#[test]
fn a_lane_that_fills_the_cache_is_continued_at_the_next_sync() {
    let (mut producer, mut consumer) = channel::<usize>(2048);
    for i in 0..1040usize {
        producer.push(i);
    }
    consumer.sync();
    assert_eq!(consumer.available_len(), 1024);
    assert_eq!(consumer.cached[1023], 1023);
    for _ in 0..1024 {
        assert!(consumer.pop().is_some());
    }
    consumer.sync();
    let expected: Vec<usize> = (1024..1040).collect();
    assert_eq!(consumer.cached.as_slice(), expected.as_slice());
}

#[test]
fn stranded_descriptors_come_before_those_of_the_lanes() {
    let (mut first, mut consumer) = channel::<usize>(8);
    let mut second = first.try_clone().unwrap();
    first.push(1usize);
    first.flush();
    second.push(2usize);
    second.push(3usize);
    assert_eq!(second.close(), Ok(()));
    consumer.sync();
    assert_eq!(consumer.cached.as_slice(), &[2, 3, 1]);
}

#[test]
fn stranded_descriptors_wait_for_room_in_the_cache() {
    let (mut first, mut consumer) = channel::<usize>(2048);
    let mut second = first.try_clone().unwrap();
    for i in 0..1020usize {
        first.push(i);
    }
    first.flush();
    consumer.sync();
    assert_eq!(consumer.available_len(), 1020);
    for i in 0..10usize {
        second.push(9000 + i);
    }
    assert_eq!(second.close(), Ok(()));
    consumer.sync();
    assert_eq!(consumer.available_len(), 1024);
    assert_eq!(&consumer.cached[1020..], &[9000, 9001, 9002, 9003]);
    for _ in 0..1024 {
        assert!(consumer.pop().is_some());
    }
    consumer.sync();
    assert_eq!(consumer.cached.as_slice(), &[9004, 9005, 9006, 9007, 9008, 9009]);
}

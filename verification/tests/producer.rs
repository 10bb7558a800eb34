use mpsc::channel;

#[test]
fn first_lane_is_registered_under_identity_zero() {
    let (producer, _consumer) = channel::<usize>(8);
    assert_eq!(producer.id(), 0);
}

#[test]
fn clones_get_lanes_and_identities_of_their_own() {
    let (producer, _consumer) = channel::<usize>(8);
    let second = producer.try_clone().unwrap();
    let third = second.try_clone().unwrap();
    assert_eq!(second.id(), 1);
    assert_eq!(third.id(), 2);
}

#[test]
fn buffered_descriptors_are_not_visible_before_a_flush() {
    let (mut producer, mut consumer) = channel::<usize>(64);
    for i in 0..15usize {
        producer.push(i);
    }
    consumer.sync();
    assert_eq!(consumer.available_len(), 0);
    assert_eq!(consumer.pop(), None);
}

#[test]
fn flush_hands_the_buffer_to_the_lane_in_order() {
    let (mut producer, mut consumer) = channel::<usize>(64);
    producer.push(7usize);
    producer.push(9usize);
    producer.push(11usize);
    producer.flush();
    consumer.sync();
    assert_eq!(consumer.cached.as_slice(), &[7, 9, 11]);
}

#[test]
fn flush_of_an_empty_buffer_sends_nothing() {
    let (mut producer, mut consumer) = channel::<usize>(64);
    producer.flush();
    consumer.sync();
    assert_eq!(consumer.available_len(), 0);
}

#[test]
fn sixteenth_push_flushes_by_itself() {
    let (mut producer, mut consumer) = channel::<usize>(64);
    for i in 0..16usize {
        producer.push(i);
    }
    consumer.sync();
    assert_eq!(consumer.available_len(), 16);
    let expected: Vec<usize> = (0..16).collect();
    assert_eq!(consumer.cached.as_slice(), expected.as_slice());
}

#[test]
fn the_buffer_starts_over_after_an_automatic_flush() {
    let (mut producer, mut consumer) = channel::<usize>(64);
    for i in 0..17usize {
        producer.push(i);
    }
    consumer.sync();
    assert_eq!(consumer.available_len(), 16);
    producer.flush();
    consumer.sync();
    assert_eq!(consumer.available_len(), 17);
    assert_eq!(consumer.cached[16], 16);
}

#[test]
fn push_converts_elements_into_descriptors() {
    let (mut producer, mut consumer) = channel::<u16>(8);
    producer.push(3u8);
    producer.push(300u16);
    producer.push_descriptor(70_000);
    producer.flush();
    consumer.sync();
    assert_eq!(consumer.cached.as_slice(), &[3, 300, 70_000]);
}

#[test]
fn a_full_lane_keeps_the_first_that_fit_and_drops_the_rest() {
    let (mut producer, mut consumer) = channel::<usize>(4);
    for i in 0..16usize {
        producer.push(100 + i);
    }
    consumer.sync();
    assert_eq!(consumer.cached.as_slice(), &[100, 101, 102, 103]);
    producer.flush();
    consumer.sync();
    assert_eq!(consumer.available_len(), 4);
}

#[test]
fn a_partly_filled_lane_takes_only_what_still_fits() {
    let (mut producer, mut consumer) = channel::<usize>(5);
    producer.push(1usize);
    producer.push(2usize);
    producer.push(3usize);
    producer.flush();
    for i in 10..14usize {
        producer.push(i);
    }
    producer.flush();
    consumer.sync();
    assert_eq!(consumer.cached.as_slice(), &[1, 2, 3, 10, 11]);
}

#[test]
fn a_drained_lane_has_room_again() {
    let (mut producer, mut consumer) = channel::<usize>(4);
    for i in 0..4usize {
        producer.push(i);
    }
    producer.flush();
    consumer.sync();
    for i in 4..8usize {
        producer.push(i);
    }
    producer.flush();
    consumer.sync();
    assert_eq!(consumer.cached.as_slice(), &[0, 1, 2, 3, 4, 5, 6, 7]);
}

#[test]
fn closing_flushes_what_is_buffered() {
    let (mut producer, mut consumer) = channel::<usize>(8);
    producer.push(5usize);
    producer.push(6usize);
    assert_eq!(producer.close(), Ok(()));
    consumer.sync();
    assert_eq!(consumer.cached.as_slice(), &[5, 6]);
}

#[test]
fn a_closed_lane_is_no_longer_visited() {
    let (first, mut consumer) = channel::<usize>(8);
    let mut second = first.try_clone().unwrap();
    assert_eq!(first.close(), Ok(()));
    second.push(1usize);
    second.flush();
    consumer.sync();
    assert_eq!(consumer.cached.as_slice(), &[1]);
}

fn can_move_to_another_thread<H: Send>() {}

#[test]
fn both_ends_can_move_to_another_thread() {
    can_move_to_another_thread::<mpsc::Producer<usize>>();
    can_move_to_another_thread::<mpsc::Consumer<usize>>();
    can_move_to_another_thread::<mpsc::consumer_list::ConsumerList>();
}

#[test]
fn a_descriptor_pushed_as_it_is_arrives_unchanged() {
    let (mut producer, mut consumer) = channel::<usize>(8);
    producer.push(usize::MAX);
    producer.push(0usize);
    producer.flush();
    consumer.sync();
    assert_eq!(consumer.cached.as_slice(), &[usize::MAX, 0]);
}

use mpsc::consumer_list::ConsumerList;
use mpsc::consumer_list::RegistryError;
use mpsc::{channel, Producer};

#[test]
fn test_basic() {
    const LEN: usize = 1024 * 4;
    let (producer, mut consumer) = channel::<usize>(LEN);
    let workers = 4;
    let mut producers = Vec::new();

    for _ in 0..workers {
        producers.push(producer.try_clone().unwrap());
    }

    for mut producer in producers {
        for i in 0..LEN {
            producer.push(i);
        }
        producer.close().unwrap();
    }

    let mut count = 0;
    while count < LEN * workers {
        if consumer.pop().is_some() {
            count += 1;
        }
    }
    assert_eq!(count, LEN * workers);
    assert_eq!(consumer.pop(), None);
}

#[test]
fn every_descriptor_of_every_worker_is_observed_once() {
    const LEN: usize = 4096;
    const WORKERS: usize = 3;
    let (producer, mut consumer) = channel::<usize>(LEN);
    let mut workers = Vec::new();
    for _ in 0..WORKERS {
        workers.push(producer.try_clone().unwrap());
    }
    let mut seen = vec![0usize; LEN * WORKERS];
    let mut count = 0;
    for step in 0..LEN {
        for (worker, own) in workers.iter_mut().enumerate() {
            own.push(worker * LEN + step);
        }
        if step % 100 == 99 {
            while let Some(descriptor) = consumer.pop() {
                seen[descriptor] += 1;
                count += 1;
            }
        }
    }
    for own in workers {
        own.close().unwrap();
    }
    while count < LEN * WORKERS {
        if let Some(descriptor) = consumer.pop() {
            seen[descriptor] += 1;
            count += 1;
        }
    }
    assert_eq!(count, LEN * WORKERS);
    assert!(seen.iter().all(|times| *times == 1));
    assert_eq!(consumer.pop(), None);
}

#[test]
fn bounded_load_from_several_producers_is_delivered_in_full() {
    let (first, mut consumer) = channel::<usize>(64);
    let mut producers = vec![first];
    for _ in 0..4 {
        let next = producers[0].try_clone().unwrap();
        producers.push(next);
    }
    let mut pushed = 0;
    let mut observed = 0;
    for round in 0..10usize {
        for (lane, producer) in producers.iter_mut().enumerate() {
            for i in 0..(lane + 1) * 10 {
                producer.push(round * 1000 + i);
                pushed += 1;
            }
            producer.flush();
        }
        consumer.sync();
        while consumer.pop().is_some() {
            observed += 1;
        }
    }
    assert_eq!(pushed, 1500);
    assert_eq!(observed, pushed);
}

#[test]
fn twenty_pushes_on_a_lane_of_sixteen() {
    let (mut producer, mut consumer) = channel::<usize>(16);
    for i in 0..16usize {
        producer.push(i);
    }
    consumer.sync();
    assert_eq!(consumer.available_len(), 16);
    for i in 16..20usize {
        producer.push(i);
    }
    consumer.sync();
    assert_eq!(consumer.available_len(), 16);
    assert_eq!(producer.close(), Ok(()));
    let mut values = Vec::new();
    while let Some(descriptor) = consumer.pop() {
        values.push(descriptor);
    }
    values.sort();
    let expected: Vec<usize> = (0..20).collect();
    assert_eq!(values, expected);
}

#[test]
fn a_producer_dropped_without_pushing_leaves_the_other_lane_working() {
    let mut list = ConsumerList::new(8);
    let mut first = Producer::<usize>::attach(&list).unwrap();
    let second = Producer::<usize>::attach(&list).unwrap();
    assert_eq!(list.len(), 2);
    assert_eq!(second.close(), Ok(()));
    assert_eq!(list.len(), 1);
    first.push(41usize);
    first.push(42usize);
    first.flush();
    let mut cache = arrayvec::ArrayVec::<usize, 1024>::new();
    mpsc::consumer_list::pop_all(&mut list, &mut cache);
    assert_eq!(cache.as_slice(), &[41, 42]);
}

#[test]
fn removing_a_lane_that_does_not_exist_fails() {
    let (producer, _consumer) = channel::<usize>(8);
    let mut list = ConsumerList::new(8);
    assert_eq!(list.remove(producer.id()), Err(RegistryError::NotRegistered));
    assert_eq!(list.remove(usize::MAX), Err(RegistryError::NotRegistered));
    assert_eq!(list.len(), 0);
}

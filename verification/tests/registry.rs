use arrayvec::ArrayVec;
use mpsc::consumer_list::{pop_all, ConsumerList, Registry, RegistryError};
use mpsc::lane_table::{LaneTable, MAX_LANES};
use mpsc::{channel, Producer};

#[test]
fn a_new_table_has_no_lanes() {
    let table = LaneTable::new();
    assert_eq!(table.len(), 0);
    assert_eq!(table.position(0), None);
}

#[test]
fn a_new_registry_has_no_lanes() {
    let registry = Registry::new(8);
    assert_eq!(registry.len(), 0);
    let list = ConsumerList::with_registry(registry);
    assert_eq!(list.len(), 0);
    assert_eq!(list.queue_len(), 8);
}

#[test]
fn attaching_registers_one_lane_each() {
    let list = ConsumerList::new(8);
    let first = Producer::<usize>::attach(&list).unwrap();
    let second = Producer::<usize>::attach(&list).unwrap();
    assert_eq!(list.len(), 2);
    assert_eq!(first.id(), 0);
    assert_eq!(second.id(), 1);
}

#[test]
fn handles_share_one_registry() {
    let list = ConsumerList::new(8);
    let other = list.clone();
    let _producer = Producer::<usize>::attach(&list).unwrap();
    assert_eq!(other.len(), 1);
    assert_eq!(other.queue_len(), 8);
}

#[test]
fn identities_are_not_handed_out_twice() {
    let list = ConsumerList::new(8);
    let first = Producer::<usize>::attach(&list).unwrap();
    assert_eq!(first.id(), 0);
    assert_eq!(first.close(), Ok(()));
    let second = Producer::<usize>::attach(&list).unwrap();
    assert_eq!(second.id(), 1);
    assert_eq!(list.len(), 1);
}

#[test]
fn removing_an_unknown_identity_is_refused() {
    let mut list = ConsumerList::new(8);
    let _producer = Producer::<usize>::attach(&list).unwrap();
    assert_eq!(list.remove(42), Err(RegistryError::NotRegistered));
    assert_eq!(list.len(), 1);
}

#[test]
fn removing_a_lane_twice_is_refused() {
    let mut list = ConsumerList::new(8);
    let producer = Producer::<usize>::attach(&list).unwrap();
    let id = producer.id();
    assert_eq!(list.remove(id), Ok(()));
    assert_eq!(list.len(), 0);
    assert_eq!(list.remove(id), Err(RegistryError::NotRegistered));
    assert_eq!(producer.close(), Err(RegistryError::NotRegistered));
}

#[test]
fn removal_keeps_the_order_of_the_other_lanes() {
    let mut list = ConsumerList::new(8);
    let mut first = Producer::<usize>::attach(&list).unwrap();
    let second = Producer::<usize>::attach(&list).unwrap();
    let mut third = Producer::<usize>::attach(&list).unwrap();
    assert_eq!(second.close(), Ok(()));
    third.push(3usize);
    third.flush();
    first.push(1usize);
    first.flush();
    let mut cache = ArrayVec::<usize, 1024>::new();
    pop_all(&mut list, &mut cache);
    assert_eq!(cache.as_slice(), &[1, 3]);
}

#[test]
fn the_registry_takes_4096_lanes_and_refuses_one_more() {
    let (producer, _consumer) = channel::<usize>(1);
    let mut lanes = Vec::new();
    for _ in 1..MAX_LANES {
        lanes.push(producer.try_clone().unwrap());
    }
    assert_eq!(lanes.len(), 4095);
    assert!(matches!(producer.try_clone(), Err(RegistryError::Full)));
    assert!(matches!(producer.try_clone(), Err(RegistryError::Full)));
    let last = lanes.pop().unwrap();
    assert_eq!(last.close(), Ok(()));
    assert!(producer.try_clone().is_ok());
}

#[test]
fn a_registry_out_of_identities_refuses() {
    let list = ConsumerList::with_registry(Registry::numbered_from(usize::MAX - 1, 8));
    let last = Producer::<usize>::attach(&list).unwrap();
    assert_eq!(last.id(), usize::MAX - 1);
    assert!(matches!(Producer::<usize>::attach(&list), Err(RegistryError::Exhausted)));
    assert_eq!(list.len(), 1);
}

#[test]
fn pop_all_appends_to_what_the_cache_holds() {
    let mut list = ConsumerList::new(8);
    let mut producer = Producer::<usize>::attach(&list).unwrap();
    producer.push(5usize);
    producer.flush();
    let mut cache = ArrayVec::<usize, 1024>::new();
    cache.push(77);
    pop_all(&mut list, &mut cache);
    assert_eq!(cache.as_slice(), &[77, 5]);
}

#[test]
fn pop_all_leaves_a_full_cache_alone() {
    let mut list = ConsumerList::new(8);
    let mut producer = Producer::<usize>::attach(&list).unwrap();
    producer.push(5usize);
    producer.flush();
    let mut cache = ArrayVec::<usize, 1024>::new();
    for i in 0..1024usize {
        cache.push(i);
    }
    pop_all(&mut list, &mut cache);
    assert_eq!(cache.len(), 1024);
    assert_eq!(cache[1023], 1023);
    cache.clear();
    pop_all(&mut list, &mut cache);
    assert_eq!(cache.as_slice(), &[5]);
}

#[test]
fn removal_saves_what_waits_in_the_lane() {
    let mut list = ConsumerList::new(4);
    let mut producer = Producer::<usize>::attach(&list).unwrap();
    for i in 0..4usize {
        producer.push(i);
    }
    producer.flush();
    assert_eq!(list.remove(producer.id()), Ok(()));
    let mut cache = ArrayVec::<usize, 1024>::new();
    pop_all(&mut list, &mut cache);
    assert_eq!(cache.as_slice(), &[0, 1, 2, 3]);
    pop_all(&mut list, &mut cache);
    assert_eq!(cache.len(), 4);
}

#[test]
fn a_new_registry_holds_no_identity() {
    let registry = Registry::new(8);
    assert!(!registry.holds(0));
    assert!(!registry.holds(usize::MAX));
}

#[test]
fn a_registry_numbered_from_the_last_identity_is_exhausted() {
    assert!(!Registry::new(8).exhausted());
    assert!(!Registry::numbered_from(usize::MAX - 1, 8).exhausted());
    assert!(Registry::numbered_from(usize::MAX, 8).exhausted());
    assert!(!LaneTable::numbered_from(7).exhausted());
    assert!(LaneTable::numbered_from(usize::MAX).exhausted());
}

#[test]
fn a_refused_registration_leaves_the_registry_as_it_was() {
    let list = ConsumerList::with_registry(Registry::numbered_from(usize::MAX, 8));
    assert!(matches!(Producer::<usize>::attach(&list), Err(RegistryError::Exhausted)));
    assert!(matches!(Producer::<usize>::attach(&list), Err(RegistryError::Exhausted)));
    assert_eq!(list.len(), 0);
}

#[test]
fn a_refused_removal_leaves_the_registry_as_it_was() {
    let mut list = ConsumerList::new(8);
    let mut producer = Producer::<usize>::attach(&list).unwrap();
    producer.push(9usize);
    producer.flush();
    assert_eq!(list.remove(producer.id() + 1), Err(RegistryError::NotRegistered));
    assert_eq!(list.len(), 1);
    let mut cache = ArrayVec::<usize, 1024>::new();
    pop_all(&mut list, &mut cache);
    assert_eq!(cache.as_slice(), &[9]);
}

#[test]
fn a_registry_without_the_lane_refuses_to_remove_it() {
    let mut registry = Registry::new(8);
    assert_eq!(registry.try_remove(0), Err(RegistryError::NotRegistered));
    assert_eq!(registry.try_remove(usize::MAX), Err(RegistryError::NotRegistered));
    assert_eq!(registry.len(), 0);
    assert!(!registry.exhausted());
}

use alta::node::{SendBuffer, SendBufferEntry, BUFF_SIZE};
use alta::Error;

fn dummy(id: u64) -> SendBufferEntry {
    SendBufferEntry::new(id, vec![42u8; 100])
}

#[test]
fn node_test_send_buffer() {
    let mut sb = SendBuffer::new();

    for id in 0..BUFF_SIZE {
        let entry = dummy(id as u64);
        assert_eq!(sb.insert_in_sequence(entry), Ok(()));
    }

    let entry = dummy(BUFF_SIZE as u64);
    assert_eq!(sb.insert_in_sequence(entry), Err(Error::OutOfBoundId));

    for id in 0..6 {
        if id == 3 {
            continue;
        }
        assert_eq!(sb.forwards_hash(id as u64), Err(Error::MissingHash));
    }

    assert_eq!(sb.next_node_id_hash(), 3);
    assert_eq!(sb.forwards_hash(3), Ok(()));
    let entry = sb.get(3).unwrap();
    assert_eq!(entry.id, 3);
    assert!(entry.ready);
    assert_eq!(sb.next_node_id_hash(), 2);
    assert_eq!(sb.forwards_hash(2), Ok(()));
}

#[test]
fn node_drain_in_order() {
    let mut sb = SendBuffer::new();
    for id in 0..BUFF_SIZE as u64 {
        assert_eq!(sb.insert_in_sequence(dummy(id)), Ok(()));
    }
    for _ in 0..9 {
        let id = sb.next_node_id_hash();
        assert_eq!(sb.forwards_hash(id), Ok(()));
    }
    let out = sb.pop_ready_in_sequence();
    let ids: Vec<u64> = out.iter().map(|e| e.id).collect();
    assert_eq!(ids, vec![0, 1, 2, 3, 4]);
    for e in out.iter() {
        assert!(e.ready());
        assert_eq!(e.hashes.len(), SendBufferEntry::dependencies_in(e.id).len());
        assert_eq!(e.payload, Some(vec![42u8; 100]));
    }
    assert_eq!(sb.lowest_id(), 5);
    assert!(sb.pop_ready_in_sequence().is_empty());
}

#[test]
fn node_insert_order_and_window() {
    let mut sb = SendBuffer::new();
    assert_eq!(sb.insert_in_sequence(dummy(1)), Err(Error::IllegalInsert));
    assert_eq!(sb.insert_in_sequence(dummy(0)), Ok(()));
    assert_eq!(sb.insert_in_sequence(dummy(0)), Err(Error::IllegalInsert));
    assert_eq!(sb.get_or_create(16), Err(Error::OutOfBoundId));
    assert_eq!(sb.get_or_create(15), Ok(()));
    assert_eq!(sb.get(15).unwrap().id, 15);
    assert!(sb.get(31).is_none());
}

#[test]
fn node_forward_needs_room_in_window() {
    let mut sb = SendBuffer::new();
    for id in 0..BUFF_SIZE as u64 {
        assert_eq!(sb.insert_in_sequence(dummy(id)), Ok(()));
    }
    // 13 forwards to 12 and 14; 10 forwards to 15 and 25, past the window.
    assert_eq!(sb.forwards_hash(13), Ok(()));
    assert_eq!(sb.forwards_hash(12), Ok(()));
    assert_eq!(sb.forwards_hash(14), Ok(()));
    assert_eq!(sb.forwards_hash(11), Ok(()));
    assert_eq!(sb.get(10).unwrap().hashes.len(), 1);
    assert_eq!(sb.forwards_hash(10), Err(Error::MissingHash));
}

#[test]
fn node_entry_take() {
    let mut e = dummy(7);
    e.hashes.push([3u8; 32]);
    let t = e.take();
    assert_eq!(t.id, 7);
    assert!(t.ready);
    assert_eq!(t.hashes, vec![[3u8; 32]]);
    assert_eq!(t.payload, Some(vec![42u8; 100]));
    assert_eq!(t.dependencies, vec![8]);
    assert_eq!(e.id, 7);
    assert!(!e.ready);
    assert_eq!(e.payload, None);
    assert!(e.hashes.is_empty());
    assert!(e.dependencies.is_empty());
    assert_eq!(dummy(7).dependencies_out(), vec![6, 9]);
    assert_eq!(dummy(7).compute_total_hash(), alta::entry::BufferEntry::new(7, vec![42u8; 100]).compute_total_hash());
}

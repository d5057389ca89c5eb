use alta::buffer::{Buffer, RecvBuf, SendBuffer, BUFF_SIZE};
use alta::entry::BufferEntry;
use alta::graph::{predecessor_ids, successor_ids};
use alta::{Error, State};

fn dummy(id: u64) -> BufferEntry {
    BufferEntry::new(id, vec![42u8; 20])
}

/// Pushes as many packets as the buffer accepts; returns the next identifier.
fn push_pkts(sb: &mut Buffer, start_id: u64) -> u64 {
    let mut id = start_id;
    loop {
        if sb.insert_in_sequence(dummy(id)).is_err() {
            break;
        }
        id += 1;
    }
    id
}

/// Forwards as many hashes as possible, sweeping the whole window.
fn forw_hash(sb: &mut Buffer) {
    for i in 0..BUFF_SIZE {
        let _ = sb.forwards_hash(sb.lowest_id() + i as u64);
    }
}

#[test]
fn test_bytes() {
    for do_sign in [true, false] {
        let id = 56;
        let dependencies = BufferEntry::dependencies_in(id);

        let mut hashes = Vec::new();
        for &i in dependencies.iter() {
            hashes.push([i as u8; 32]);
        }

        let payload = vec![id as u8 * 2; id as usize];
        let mut buffer = [0u8; 1500];
        buffer[..payload.len()].copy_from_slice(&payload[..]);

        let signature = if do_sign { Some([77; 64]) } else { None };

        let mut entry = BufferEntry {
            id,
            hashes,
            signature,
            payload: None,
            dependencies,
            state: State::NotReady,
        };

        let mut buf: Vec<u8> = buffer[..payload.len()].to_vec();
        entry.encode(&mut buf);

        entry.payload = Some(payload);

        let decoded_entry = BufferEntry::decode(&buf).unwrap();

        assert_eq!(entry, decoded_entry);
    }
}

#[test]
fn test_recv_buffer() {
    let mut sb: Buffer = SendBuffer::new();

    let mut nodes = Vec::new();
    let mut id = 0;
    while nodes.len() < 60 {
        id = push_pkts(&mut sb, id);
        forw_hash(&mut sb);
        nodes.extend(sb.pop_ready_in_sequence());
    }

    for i in 1..12 {
        nodes[5 * i].signature = Some([1; 64]);
    }
    nodes.last_mut().map(|n| n.signature = Some([1; 64]));

    let mut rb: Buffer = RecvBuf::new();
    let mut authenticated_nodes = Vec::new();

    for node in nodes.drain(..) {
        if let Err(_) = rb.insert(node) {
            assert!(false);
        }

        for i in 0..BUFF_SIZE {
            let _ = rb.authenticate_node(i as u64 + rb.lowest_id());
        }

        authenticated_nodes.extend(rb.pop_ready_in_sequence());
    }

    assert_eq!(authenticated_nodes.len(), 56);
    for node in authenticated_nodes.iter() {
        assert_eq!(node.state, State::Authenticated);
    }
}

#[test]
fn send_buf_test_send_buffer() {
    let mut sb: Buffer = SendBuffer::new();

    for id in 0..BUFF_SIZE {
        let entry = dummy(id as u64);
        assert_eq!(sb.insert_in_sequence(entry), Ok(()));
    }

    let entry = dummy(BUFF_SIZE as u64);
    assert_eq!(sb.insert_in_sequence(entry), Err(Error::OutOfBoundId));

    for id in 0..6 {
        if id == 3 {
            continue;
        }
        assert_eq!(sb.forwards_hash(id as u64), Err(Error::MissingHash));
    }

    for _ in 0..9 {
        let id = sb.next_node_id_hash();
        if id as usize > BUFF_SIZE {
            break;
        }
        assert_eq!(sb.forwards_hash(id), Ok(()));
        let entry = sb.get(id).unwrap();
        assert_eq!(entry.id, id);
        assert_eq!(entry.state, State::ReadySent);
    }

    let out = sb.pop_ready_in_sequence();
    assert_eq!(out.len(), 5);
    assert_eq!(sb.lowest_id(), 5);
}

#[test]
fn graph_tables() {
    assert_eq!(predecessor_ids(55), vec![40, 50, 51, 54, 56]);
    assert_eq!(predecessor_ids(56), vec![57, 59]);
    assert_eq!(predecessor_ids(5), vec![0, 1, 4, 6]);
    assert_eq!(predecessor_ids(0), vec![1]);
    assert_eq!(predecessor_ids(11), vec![12, 14]);
    assert_eq!(predecessor_ids(12), vec![13]);
    assert_eq!(predecessor_ids(13), Vec::<u64>::new());
    assert_eq!(predecessor_ids(14), vec![12, 13]);
    assert_eq!(successor_ids(10), vec![15, 25]);
    assert_eq!(successor_ids(11), vec![10, 15]);
    assert_eq!(successor_ids(12), vec![11, 14]);
    assert_eq!(successor_ids(13), vec![12, 14]);
    assert_eq!(successor_ids(14), vec![11, 15]);
    assert_eq!(predecessor_ids(u64::MAX), vec![u64::MAX - 15, u64::MAX - 5, u64::MAX - 4, u64::MAX - 1]);
    assert_eq!(successor_ids(u64::MAX), Vec::<u64>::new());
}

#[test]
fn graph_inverse_on_small_ids() {
    for i in 0..200u64 {
        for &j in successor_ids(i).iter() {
            assert!(predecessor_ids(j).contains(&i));
        }
        for &j in predecessor_ids(i).iter() {
            assert!(successor_ids(j).contains(&i));
        }
    }
}

#[test]
fn cursor_order() {
    let mut sb: Buffer = SendBuffer::new();
    let got: Vec<u64> = (0..10).map(|_| sb.next_node_id_hash()).collect();
    assert_eq!(got, vec![3, 2, 4, 1, 0, 8, 7, 9, 6, 5]);
}

#[test]
fn out_of_order_insert_rejected() {
    let mut sb: Buffer = SendBuffer::new();
    assert_eq!(sb.insert_in_sequence(dummy(1)), Err(Error::IllegalInsert));
    for id in 0..5 {
        assert_eq!(sb.insert_in_sequence(dummy(id)), Ok(()));
    }
    assert_eq!(sb.insert_in_sequence(dummy(6)), Err(Error::IllegalInsert));
    assert_eq!(sb.insert_in_sequence(dummy(4)), Err(Error::IllegalInsert));
    assert_eq!(sb.insert_in_sequence(dummy(5)), Ok(()));
}

#[test]
fn sent_entries_hold_all_their_hashes() {
    let mut sb: Buffer = SendBuffer::new();
    let mut id = 0;
    let mut popped = Vec::new();
    while popped.len() < 100 {
        id = push_pkts(&mut sb, id);
        forw_hash(&mut sb);
        popped.extend(sb.pop_ready_in_sequence());
    }
    for (k, e) in popped.iter().enumerate() {
        assert_eq!(e.id, k as u64);
        assert_eq!(e.state, State::ReadySent);
        assert_eq!(e.hashes.len(), predecessor_ids(e.id).len());
    }
}

#[test]
fn forward_beyond_window_is_refused() {
    let mut sb: Buffer = SendBuffer::new();
    push_pkts(&mut sb, 0);
    for _ in 0..BUFF_SIZE {
        forw_hash(&mut sb);
    }
    // 20 forwards to 25 and 35, past the window [0, 32).
    let e = sb.get(20).unwrap();
    assert_eq!(e.hashes.len(), e.dependencies.len());
    assert_eq!(sb.forwards_hash(20), Err(Error::OutOfBoundId));
    assert_eq!(sb.get(20).unwrap().state, State::NotReady);
}

#[test]
fn bad_authentication_latches() {
    let mut rb: Buffer = RecvBuf::new();
    let mut parent = BufferEntry::new(5, vec![7u8; 10]);
    parent.hashes = vec![[9u8; 32]; 4];
    parent.signature = Some([1u8; 64]);
    assert_eq!(rb.insert(parent), Ok(()));
    assert_eq!(rb.get(5).unwrap().state, State::Authenticated);

    let child = BufferEntry::new(0, vec![3u8; 10]);
    assert_eq!(rb.insert(child), Err(Error::BadAuthentication));
    assert_eq!(rb.get(0).unwrap().state, State::BadAuthentication);
    assert_eq!(rb.authenticate_node(0), Err(Error::BadAuthentication));
    assert_eq!(rb.get(0).unwrap().state, State::BadAuthentication);
    assert!(rb.pop_ready_in_sequence().is_empty());
    assert_eq!(rb.lowest_id(), 0);
}

#[test]
fn child_authenticated_by_matching_parent() {
    let mut rb: Buffer = RecvBuf::new();
    let child = BufferEntry::new(0, vec![3u8; 10]);
    let h = child.compute_total_hash();
    let mut parent = BufferEntry::new(5, vec![7u8; 10]);
    parent.hashes = vec![h];
    parent.signature = Some([1u8; 64]);
    assert_eq!(rb.insert(child), Ok(()));
    assert_eq!(rb.get(0).unwrap().state, State::NotReady);
    // Authenticating the parent walks down to its predecessor 0.
    assert_eq!(rb.insert(parent), Ok(()));
    assert_eq!(rb.get(0).unwrap().state, State::Authenticated);
    let out = rb.pop_ready_in_sequence();
    assert_eq!(out.len(), 1);
    assert_eq!(out[0].id, 0);
    assert_eq!(rb.lowest_id(), 1);
}

#[test]
fn recv_insert_outside_window_and_twice() {
    let mut rb: Buffer = RecvBuf::new();
    assert_eq!(rb.insert(BufferEntry::new(32, vec![1u8])), Err(Error::OutOfBoundId));
    assert_eq!(rb.insert(BufferEntry::new(7, vec![1u8])), Ok(()));
    assert_eq!(rb.insert(BufferEntry::new(7, vec![2u8])), Ok(()));
    assert_eq!(rb.get(7).unwrap().payload, Some(vec![1u8]));
}

#[test]
fn compare_hash_outcomes() {
    let mut e = BufferEntry::new(5, vec![1u8]);
    e.hashes = vec![[4u8; 32], [6u8; 32]];
    assert_eq!(e.compare_hash(&[6u8; 32]), Err(Error::NotAuthenticated));
    e.state = State::Authenticated;
    assert_eq!(e.compare_hash(&[6u8; 32]), Ok(()));
    assert_eq!(e.compare_hash(&[5u8; 32]), Err(Error::BadAuthentication));
}

#[test]
fn total_hash_depends_on_inputs() {
    let a = BufferEntry::new(3, vec![1u8, 2, 3]);
    let b = BufferEntry::new(3, vec![1u8, 2, 4]);
    assert_ne!(a.compute_total_hash(), b.compute_total_hash());
    assert_eq!(a.compute_total_hash(), BufferEntry::new(3, vec![1u8, 2, 3]).compute_total_hash());
    let mut c = BufferEntry::new(3, vec![1u8, 2, 3]);
    c.hashes = vec![[0u8; 32]];
    assert_ne!(a.compute_total_hash(), c.compute_total_hash());
    // One payload byte 5 turns lane 0 from 0 into 0 * 31 + 5 + 1.
    let d = BufferEntry::new(3, vec![5u8]);
    let mut expected = [0u8; 32];
    expected[0] = 6;
    assert_eq!(d.compute_total_hash(), expected);
}

#[test]
fn encode_exact_bytes() {
    let mut e = BufferEntry::new_id(300);
    e.signature = Some([9u8; 64]);
    let mut buf = vec![1u8, 2];
    e.encode(&mut buf);
    // 300 has no hashes here; the region is 64 bytes: varint 64 = [0x40];
    // 300 = [0xAC, 0x02], reversed [0x02, 0xAC].
    let mut expected = vec![1u8, 2];
    expected.extend_from_slice(&[9u8; 64]);
    expected.extend_from_slice(&[0x40, 0x02, 0xAC]);
    assert_eq!(buf, expected);
}

#[test]
fn decode_errors() {
    assert_eq!(BufferEntry::decode(&[]), Err(Error::Decoding));
    assert_eq!(BufferEntry::decode(&[0x80, 0x80]), Err(Error::Decoding));
    // An entry without payload is malformed.
    let e = BufferEntry::new_id(3);
    let mut buf = Vec::new();
    e.encode(&mut buf);
    assert_eq!(buf, vec![0u8, 3]);
    assert_eq!(BufferEntry::decode(&buf), Err(Error::Decoding));
    // A region that fits neither the hashes nor hashes and a signature.
    let mut buf = vec![1u8; 40];
    buf.extend_from_slice(&[10u8, 3]);
    assert_eq!(BufferEntry::decode(&buf), Err(Error::Decoding));
}

#[test]
fn decode_large_id() {
    let id = (1u64 << 56) - 3;
    let e = BufferEntry::new_id(id);
    let mut buf = vec![5u8, 6, 7];
    e.encode(&mut buf);
    let d = BufferEntry::decode(&buf).unwrap();
    assert_eq!(d.id, id);
    assert_eq!(d.payload, Some(vec![5u8, 6, 7]));
    assert_eq!(d.signature, None);
}

#[test]
fn ready_only_after_predecessors() {
    let mut sb: Buffer = SendBuffer::new();
    let mut id = 0;
    for _ in 0..6 {
        id = push_pkts(&mut sb, id);
        forw_hash(&mut sb);
        let low = sb.lowest_id();
        for j in low..low + BUFF_SIZE as u64 {
            if let Some(e) = sb.get(j) {
                if e.state == State::ReadySent {
                    for &p in predecessor_ids(j).iter() {
                        let popped = p < low;
                        let ready = sb.get(p).map(|q| q.state == State::ReadySent).unwrap_or(false);
                        assert!(popped || ready);
                    }
                }
            }
        }
        sb.pop_ready_in_sequence();
    }
}

use bytes::{BufMut, BytesMut};
use esm::type_alias::NodeId;
use esm::types::{HeaderAllocatedPayload, ModuleId, OptionHelper, HEADER_LEN};
use std::cell::Cell;

#[test]
fn reserving_the_header_appends_zeros() {
    let mut buf = BytesMut::with_capacity(64);
    buf.put_slice(&[9, 9]);
    let payload = HeaderAllocatedPayload::from(buf);
    assert_eq!(&payload.0[..], &[9, 9, 0, 0, 0, 0, 0, 0]);
    assert_eq!(HEADER_LEN, 6);
}

#[test]
fn splitting_hands_out_everything() {
    let mut payload = HeaderAllocatedPayload::from(BytesMut::with_capacity(64));
    payload.0.put_slice(&[1, 2, 3]);
    let (pkt, rest) = payload.into();
    assert_eq!(&pkt.0[..], &[0, 0, 0, 0, 0, 0, 1, 2, 3]);
    assert!(rest.is_empty());
}

#[test]
fn node_id_from_number() {
    assert_eq!(NodeId::from(7), NodeId(7));
    assert_eq!(ModuleId::Tun, ModuleId::Tun);
}

#[test]
fn then_call_runs_only_on_some() {
    let seen = Cell::new(0);
    Some(5).then_call(|x| seen.set(x));
    assert_eq!(seen.get(), 5);
    None::<i32>.then_call(|x| seen.set(x));
    assert_eq!(seen.get(), 5);
}

#[test]
fn bytes_length() {
    assert_eq!(esm::buffer::bytes_len(&bytes::Bytes::from(vec![1u8, 2, 3])), 3);
    assert_eq!(esm::buffer::bytes_len(&bytes::Bytes::new()), 0);
}

#[test]
fn node_ids_order_as_their_numbers() {
    assert!(NodeId::from(3) < NodeId::from(5));
    assert!(NodeId::from(5) > NodeId::from(3));
    assert!(NodeId::from(4) <= NodeId::from(4));
    assert_eq!(NodeId::from(9).partial_cmp(&NodeId::from(2)), Some(std::cmp::Ordering::Greater));
    assert_eq!(NodeId::from(u32::MAX).0, u32::MAX);
}

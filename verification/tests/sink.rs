use drpc::sink::Sink;

#[test]
fn test_encode() {
    let s = Sink {};
    let v = s.encode(1, 1, vec![1, 2, 3], 2);
    println!("{:?}", v);
}

#[test]
fn encode_splits_into_chunks() {
    let s = Sink {};
    let v = s.encode(1, 1, vec![1, 2, 3], 2);
    assert_eq!(v.len(), 2);
    assert_eq!(v[0].id, 1);
    assert_eq!(v[0].ok, 1);
    assert_eq!(v[0].data, vec![1, 2]);
    assert_eq!(v[1].id, 1);
    assert_eq!(v[1].ok, 1);
    assert_eq!(v[1].data, vec![3]);
}

#[test]
fn encode_small_payload_is_one_frame() {
    let s = Sink {};
    let v = s.encode(9, 0, vec![4, 5], 10);
    assert_eq!(v.len(), 1);
    assert_eq!(v[0].id, 9);
    assert_eq!(v[0].ok, 0);
    assert_eq!(v[0].data, vec![4, 5]);
}

#[test]
fn encode_empty_payload_is_one_empty_frame() {
    let s = Sink {};
    let v = s.encode(2, 1, vec![], 8);
    assert_eq!(v.len(), 1);
    assert!(v[0].data.is_empty());
}

#[test]
fn encode_exact_multiple_has_no_empty_tail() {
    let s = Sink {};
    let v = s.encode(1, 1, vec![1, 2, 3, 4], 2);
    assert_eq!(v.len(), 2);
    assert_eq!(v[0].data, vec![1, 2]);
    assert_eq!(v[1].data, vec![3, 4]);
}

#[test]
fn decode_joins_frames_back() {
    let s = Sink {};
    let data: Vec<u8> = (0..23u8).collect();
    let frames = s.encode(7, 1, data.clone(), 5);
    assert_eq!(frames.len(), 5);
    let joined = s.decode(frames).unwrap();
    assert_eq!(joined.id, 7);
    assert_eq!(joined.ok, 1);
    assert_eq!(joined.data, data);
}

#[test]
fn decode_of_nothing_is_none() {
    let s = Sink {};
    assert!(s.decode(vec![]).is_none());
}

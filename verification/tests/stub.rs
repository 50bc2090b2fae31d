use drpc::errors::RpcError;
use drpc::frame::Frame;
use drpc::server::{HandlerRegistry, Stub};
use drpc::stub::{
    interpret_response, make_request_payload, response_read_step, ClientStub, ReadOutcome,
    ServerStub,
};
use drpc::transport::Transport;
use drpc::DEFAULT_FRAME_MAX_LEN;

fn codec_err(e: bincode::Error) -> RpcError {
    RpcError { msg: e.to_string().into_bytes() }
}

/// A typed handler: decode an i32, add one, encode the result.
struct AddOne;

impl Stub for AddOne {
    fn accept(&self, arg: &[u8]) -> Result<Vec<u8>, RpcError> {
        let v: i32 = bincode::deserialize(arg).map_err(codec_err)?;
        bincode::serialize(&(v + 1)).map_err(codec_err)
    }
}

/// Carries each request frame through the wire codec into the server
/// stub and the response frame back, recording the raw wire bytes.
struct Loopback {
    registry: HandlerRegistry<AddOne>,
    server: ServerStub,
    request_wire: Vec<u8>,
    response_wire: Vec<u8>,
}

impl Transport for Loopback {
    fn transport(&mut self, frame: Frame) -> Frame {
        let id = frame.id;
        self.request_wire = frame.finish(id);
        let (req, _) = Frame::decode(&self.request_wire, DEFAULT_FRAME_MAX_LEN).unwrap();
        let rsp = self.server.call_frame(&self.registry, &req);
        self.response_wire = rsp.finish(id);
        let (rsp, _) = Frame::decode(&self.response_wire, DEFAULT_FRAME_MAX_LEN).unwrap();
        rsp
    }
}

fn echo_loopback() -> Loopback {
    let mut registry = HandlerRegistry::new();
    registry.insert(b"handle".to_vec(), AddOne);
    Loopback {
        registry,
        server: ServerStub::new(),
        request_wire: vec![],
        response_wire: vec![],
    }
}

#[test]
fn happy_path_echo() {
    // Register "handle" as x -> x + 1; call("handle", 1) returns 2, with
    // the exact frames the wire format prescribes.
    let mut stub = ClientStub::new();
    let mut transport = echo_loopback();
    let arg = bincode::serialize(&1i32).unwrap();
    assert_eq!(arg, vec![1, 0, 0, 0]);
    let reply = stub.call_frame("handle", &arg, &mut transport).unwrap();
    let resp: i32 = bincode::deserialize(&reply).unwrap();
    assert_eq!(resp, 2);

    // Request: id = 1, ok = 0, len = 11, payload "handle\n" || [1,0,0,0].
    let mut expected_req = vec![0, 0, 0, 0, 0, 0, 0, 1, 0, 0, 0, 0, 0, 0, 0, 0, 11];
    expected_req.extend_from_slice(b"handle\n");
    expected_req.extend_from_slice(&[1, 0, 0, 0]);
    assert_eq!(transport.request_wire, expected_req);

    // Response: id = 1, ok = 1, len = 4, payload [2,0,0,0].
    let mut expected_rsp = vec![0, 0, 0, 0, 0, 0, 0, 1, 1, 0, 0, 0, 0, 0, 0, 0, 4];
    expected_rsp.extend_from_slice(&[2, 0, 0, 0]);
    assert_eq!(transport.response_wire, expected_rsp);
}

#[test]
fn unknown_method_reports_exact_message() {
    let mut stub = ClientStub::new();
    let mut transport = echo_loopback();
    let arg = bincode::serialize(&1i32).unwrap();
    let err = stub.call_frame("ghost", &arg, &mut transport).unwrap_err();
    assert_eq!(err.msg, b"method='ghost' not find!".to_vec());
}

#[test]
fn handler_failure_reports_its_message() {
    let mut stub = ClientStub::new();
    let mut transport = echo_loopback();
    // Three bytes cannot decode as an i32, so the handler fails and its
    // message travels back with ok = 0.
    let err = stub.call_frame("handle", &[1, 0, 0], &mut transport).unwrap_err();
    assert!(!err.msg.is_empty());
}

#[test]
fn request_ids_advance_per_call() {
    let mut stub = ClientStub::new();
    let mut transport = echo_loopback();
    let arg = bincode::serialize(&1i32).unwrap();
    for expected_id in 1..=5u64 {
        stub.call_frame("handle", &arg, &mut transport).unwrap();
        assert_eq!(&transport.request_wire[0..8], &expected_id.to_be_bytes());
        assert_eq!(stub.tag, expected_id);
    }
}

#[test]
fn request_id_wraps_from_max_to_zero() {
    let mut stub = ClientStub::new();
    stub.tag = u64::MAX - 1;
    assert_eq!(stub.next_id(), u64::MAX);
    assert_eq!(stub.next_id(), 0);
    assert_eq!(stub.next_id(), 1);
}

#[test]
fn timeout_synthesizes_exact_message() {
    // The server would sleep past the client's 500 ms timeout: the read
    // loop sees only foreign-id frames, and once the elapsed wall clock
    // exceeds the timeout the call fails with the exact message.
    let foreign = Frame { id: 9, ok: 1, data: vec![1] };
    let step = response_read_step(1, Ok(foreign), 501, Some(500));
    let delivered = match step {
        ReadOutcome::Deliver(f) => f,
        ReadOutcome::KeepWaiting => panic!("expected delivery"),
    };
    assert_eq!(delivered.id, 1);
    assert_eq!(delivered.ok, 0);
    let err = interpret_response(delivered).unwrap_err();
    assert_eq!(err.msg, b"rpc call timeout!".to_vec());
}

#[test]
fn reader_discards_foreign_ids_within_timeout() {
    let foreign = Frame { id: 9, ok: 1, data: vec![1] };
    assert!(matches!(
        response_read_step(1, Ok(foreign), 499, Some(500)),
        ReadOutcome::KeepWaiting
    ));
    let foreign = Frame { id: 9, ok: 1, data: vec![1] };
    assert!(matches!(response_read_step(1, Ok(foreign), 10_000, None), ReadOutcome::KeepWaiting));
}

#[test]
fn reader_returns_matching_frame() {
    let mine = Frame { id: 1, ok: 1, data: vec![2, 0, 0, 0] };
    match response_read_step(1, Ok(mine.clone()), 0, Some(500)) {
        ReadOutcome::Deliver(f) => assert_eq!(f, mine),
        ReadOutcome::KeepWaiting => panic!("expected delivery"),
    }
}

#[test]
fn reader_turns_decode_errors_into_error_frames() {
    let err = RpcError { msg: b"broken pipe".to_vec() };
    match response_read_step(3, Err(err), 0, None) {
        ReadOutcome::Deliver(f) => {
            assert_eq!(f.id, 3);
            assert_eq!(f.ok, 0);
            assert_eq!(f.data, b"broken pipe".to_vec());
        },
        ReadOutcome::KeepWaiting => panic!("expected delivery"),
    }
}

#[test]
fn request_payload_has_single_separator() {
    let payload = make_request_payload("handle", &[10, 20, 10]);
    assert_eq!(payload, b"handle\n\x0a\x14\x0a".to_vec());
    // The first separator stands exactly at the method's length.
    assert_eq!(payload[6], 0x0a);
    assert!(!payload[..6].contains(&0x0a));
}

#[test]
fn split_payload_partitions_at_first_separator() {
    let payload = make_request_payload("handle", &[1, 0, 0, 0]);
    let (method, arg) = ServerStub::split_payload(&payload).unwrap();
    assert_eq!(method, b"handle".to_vec());
    assert_eq!(arg, vec![1, 0, 0, 0]);

    // An argument containing separators is untouched past the first.
    let payload = make_request_payload("m", &[10, 10]);
    let (method, arg) = ServerStub::split_payload(&payload).unwrap();
    assert_eq!(method, b"m".to_vec());
    assert_eq!(arg, vec![10, 10]);
}

#[test]
fn payload_without_separator_is_rejected() {
    assert!(ServerStub::split_payload(b"no separator here").is_none());
    let server = ServerStub::new();
    let registry: HandlerRegistry<AddOne> = HandlerRegistry::new();
    let req = Frame { id: 5, ok: 0, data: b"oops".to_vec() };
    let rsp = server.call_frame(&registry, &req);
    assert_eq!(rsp.ok, 0);
    assert_eq!(rsp.data, b"not find '\n' end of method!".to_vec());
}

#[test]
fn interpret_response_by_ok_flag() {
    let ok = Frame { id: 1, ok: 1, data: vec![2, 0, 0, 0] };
    assert_eq!(interpret_response(ok).unwrap(), vec![2, 0, 0, 0]);
    let err = Frame { id: 1, ok: 0, data: b"boom".to_vec() };
    assert_eq!(interpret_response(err).unwrap_err().msg, b"boom".to_vec());
}

#[test]
fn registry_insert_is_last_writer_wins() {
    struct Fixed(i32);
    impl Stub for Fixed {
        fn accept(&self, _arg: &[u8]) -> Result<Vec<u8>, RpcError> {
            bincode::serialize(&self.0).map_err(codec_err)
        }
    }
    let mut registry = HandlerRegistry::new();
    registry.insert(b"m".to_vec(), Fixed(1));
    registry.insert(b"m".to_vec(), Fixed(2));
    let h = registry.get(b"m").unwrap();
    let out: i32 = bincode::deserialize(&h.accept(&[]).unwrap()).unwrap();
    assert_eq!(out, 2);
    assert!(registry.get(b"other").is_none());
}

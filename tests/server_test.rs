use versedb::database::DbError;
use versedb::server::{pairs_response, unit_response, value_response};
use versedb::client::{ClientError, VerseDbClient};
use versedb::database::Database;
use versedb::memory::MemoryDatabase;
use versedb::server::{greeting, Request, Response, VerseDbServer};
use versedb::wire::{decode_request, decode_response, encode_request, encode_response, response_frame};

fn server() -> VerseDbServer<MemoryDatabase> {
    VerseDbServer::new(MemoryDatabase::open("").unwrap())
}

fn add(k: &[u8], v: &[u8]) -> Request {
    Request::Add { key: k.to_vec(), value: v.to_vec() }
}

fn select(k: &[u8]) -> Request {
    Request::Select { key: k.to_vec() }
}

#[test]
fn greeting_wraps_input() {
    assert_eq!(greeting(b"world"), b"Hello, world!".to_vec());
    assert_eq!(greeting(b""), b"Hello, !".to_vec());
}

#[test]
fn handle_maps_each_request_to_one_operation() {
    let mut s = server();
    assert_eq!(s.handle(&add(b"a", b"1")), Response::Done);
    assert_eq!(s.handle(&add(b"b", b"2")), Response::Done);
    assert_eq!(s.handle(&add(b"c", b"3")), Response::Done);
    assert_eq!(s.handle(&select(b"a")), Response::Value(Some(b"1".to_vec())));
    assert_eq!(s.handle(&select(b"zz")), Response::Value(None));
    let range = Request::SelectRange { start: b"a".to_vec(), end: b"c".to_vec() };
    let expected = vec![
        (b"a".to_vec(), b"1".to_vec()),
        (b"b".to_vec(), b"2".to_vec()),
    ];
    assert_eq!(s.handle(&range), Response::Pairs(expected.clone()));
    let remove_range = Request::RemoveRange { start: b"a".to_vec(), end: b"c".to_vec() };
    assert_eq!(s.handle(&remove_range), Response::Pairs(expected));
    assert_eq!(s.handle(&range), Response::Pairs(vec![]));
    assert_eq!(s.handle(&Request::Remove { key: b"c".to_vec() }), Response::Done);
    assert_eq!(s.handle(&select(b"c")), Response::Value(None));
    assert_eq!(s.handle(&Request::Flush), Response::Done);
    assert_eq!(
        s.handle(&Request::Helloworld { input: b"you".to_vec() }),
        Response::Greeting(b"Hello, you!".to_vec())
    );
    assert_eq!(s.store().select(b"a").unwrap(), None);
}

#[test]
fn interleaved_sessions_on_disjoint_keys_do_not_mix() {
    let mut s = server();
    let first = [b"s1-a".to_vec(), b"s1-b".to_vec()];
    let second = [b"s2-a".to_vec(), b"s2-b".to_vec()];
    for i in 0..2 {
        assert_eq!(s.handle(&add(&first[i], b"one")), Response::Done);
        assert_eq!(s.handle(&add(&second[i], b"two")), Response::Done);
        assert_eq!(s.handle(&select(&first[i])), Response::Value(Some(b"one".to_vec())));
        assert_eq!(s.handle(&Request::Remove { key: b"s2-zz".to_vec() }), Response::Done);
        assert_eq!(s.handle(&select(&second[i])), Response::Value(Some(b"two".to_vec())));
    }
    for k in &first {
        assert_eq!(s.handle(&select(k)), Response::Value(Some(b"one".to_vec())));
    }
    let store = s.into_store();
    assert_eq!(store.select(b"s2-a").unwrap(), Some(b"two".to_vec()));
}

#[test]
fn request_frames_have_the_documented_layout() {
    let frame = encode_request(&add(b"k", b"vv")).unwrap();
    assert_eq!(frame, vec![0, 1, 0, 0, 0, b'k', 2, 0, 0, 0, b'v', b'v']);
    assert_eq!(encode_request(&Request::Flush).unwrap(), vec![5]);
    let hello = encode_request(&Request::Helloworld { input: b"x".to_vec() }).unwrap();
    assert_eq!(hello, vec![6, 1, 0, 0, 0, b'x']);
}

#[test]
fn requests_round_trip_through_frames() {
    let all = vec![
        add(b"key", b"value"),
        select(b""),
        Request::Remove { key: vec![0, 255] },
        Request::SelectRange { start: b"a".to_vec(), end: b"z".to_vec() },
        Request::RemoveRange { start: vec![], end: vec![1] },
        Request::Flush,
        Request::Helloworld { input: b"name".to_vec() },
    ];
    for r in all {
        let frame = encode_request(&r).unwrap();
        assert_eq!(decode_request(&frame), Some(r));
    }
}

#[test]
fn malformed_request_frames_are_refused() {
    assert_eq!(decode_request(&[]), None);
    assert_eq!(decode_request(&[9]), None);
    assert_eq!(decode_request(&[5, 0]), None);
    assert_eq!(decode_request(&[1, 3, 0, 0, 0, b'a']), None);
    assert_eq!(decode_request(&[1, 1, 0, 0, 0, b'a', b'b']), None);
    assert_eq!(decode_request(&[0, 1, 0, 0, 0, b'a']), None);
}

#[test]
fn responses_round_trip_through_frames() {
    let all = vec![
        Response::Done,
        Response::Value(None),
        Response::Value(Some(b"v".to_vec())),
        Response::Pairs(vec![]),
        Response::Pairs(vec![(b"a".to_vec(), b"1".to_vec()), (b"b".to_vec(), vec![])]),
        Response::Greeting(b"Hello, x!".to_vec()),
        Response::Failed(b"disk".to_vec()),
    ];
    for r in all {
        let frame = encode_response(&r).unwrap();
        assert_eq!(response_frame(&r), frame);
        assert_eq!(decode_response(&frame), Some(r));
    }
}

#[test]
fn response_frames_have_the_documented_layout() {
    assert_eq!(encode_response(&Response::Done).unwrap(), vec![0]);
    assert_eq!(encode_response(&Response::Value(None)).unwrap(), vec![1, 0]);
    let pairs = Response::Pairs(vec![(b"k".to_vec(), b"v".to_vec())]);
    assert_eq!(
        encode_response(&pairs).unwrap(),
        vec![2, 1, 0, 0, 0, 1, 0, 0, 0, b'k', 1, 0, 0, 0, b'v']
    );
}

#[test]
fn malformed_response_frames_are_refused() {
    assert_eq!(decode_response(&[]), None);
    assert_eq!(decode_response(&[1, 2]), None);
    assert_eq!(decode_response(&[2, 2, 0, 0, 0, 1, 0, 0, 0, b'k', 1, 0, 0, 0, b'v']), None);
    assert_eq!(decode_response(&[0, 0]), None);
}

#[test]
fn client_round_trip_against_server() {
    let mut s = server();
    let mut c = VerseDbClient::new();
    assert!(!c.is_busy());
    let frame = c.send(&add(b"a", b"1")).unwrap();
    assert!(c.is_busy());
    assert_eq!(c.send(&Request::Flush), Err(ClientError::Busy));
    let req = decode_request(&frame).unwrap();
    let reply = response_frame(&s.handle(&req));
    assert_eq!(c.receive(&reply), Ok(Response::Done));
    assert!(!c.is_busy());

    let frame = c.send(&select(b"a")).unwrap();
    let reply = response_frame(&s.handle(&decode_request(&frame).unwrap()));
    assert_eq!(c.receive(&reply), Ok(Response::Value(Some(b"1".to_vec()))));
}

#[test]
fn client_reports_remote_malformed_and_unexpected() {
    let mut c = VerseDbClient::new();
    assert_eq!(c.receive(&[0]), Err(ClientError::Unexpected));

    c.send(&select(b"a")).unwrap();
    let failed = encode_response(&Response::Failed(b"broken".to_vec())).unwrap();
    assert_eq!(c.receive(&failed), Err(ClientError::Remote(b"broken".to_vec())));

    c.send(&select(b"a")).unwrap();
    assert_eq!(c.receive(&[7, 7]), Err(ClientError::Malformed));

    c.send(&select(b"a")).unwrap();
    assert_eq!(c.receive(&[0]), Err(ClientError::Unexpected));
    assert!(!c.is_busy());
}

#[test]
fn store_results_map_to_answers_with_their_message() {
    assert_eq!(unit_response(Ok(())), Response::Done);
    assert_eq!(
        unit_response(Err(DbError::new("disk full".to_string()))),
        Response::Failed(b"disk full".to_vec())
    );
    assert_eq!(value_response(Ok(None)), Response::Value(None));
    assert_eq!(
        value_response(Err(DbError::new("gone".to_string()))),
        Response::Failed(b"gone".to_vec())
    );
    let pairs = vec![(b"a".to_vec(), b"1".to_vec())];
    assert_eq!(pairs_response(Ok(pairs.clone())), Response::Pairs(pairs));
    assert_eq!(
        pairs_response(Err(DbError::new("io".to_string()))),
        Response::Failed(b"io".to_vec())
    );
}

//! Tests of the wire protocol and the server dispatch.

use kvs::error::KvsError;
use kvs::protocol::{can_apply, decode_request, decode_response, encode_request, encode_response,
    interpret_get_response, interpret_remove_response, interpret_set_response, process_request,
    GetResponse, RemoveResponse, Request, Response, SetResponse};
use kvs::store::KvStore;

fn round_trip_request(r: Request) {
    let bytes = encode_request(&r);
    let (decoded, len) = decode_request(&bytes).unwrap().unwrap();
    assert_eq!(decoded, r);
    assert_eq!(len, bytes.len());
}

fn round_trip_response(r: Response) {
    let bytes = encode_response(&r);
    let (decoded, len) = decode_response(&bytes).unwrap().unwrap();
    assert_eq!(decoded, r);
    assert_eq!(len, bytes.len());
}

#[test]
fn request_round_trips() {
    round_trip_request(Request::Get("foo".to_string()));
    round_trip_request(Request::Put("foo".to_string(), "bar".to_string()));
    round_trip_request(Request::Remove("foo".to_string()));
    round_trip_request(Request::Put(String::new(), String::new()));
}

#[test]
fn response_round_trips() {
    round_trip_response(Response::GetOk(None));
    round_trip_response(Response::GetOk(Some("value".to_string())));
    round_trip_response(Response::SetOk);
    round_trip_response(Response::RemoveOk);
    round_trip_response(Response::Failure("Key not found".to_string()));
}

#[test]
fn short_buffers_ask_for_more_bytes() {
    let empty: Vec<u8> = Vec::new();
    assert!(decode_request(&empty).unwrap().is_none());
    let mut bytes = encode_request(&Request::Put("key".to_string(), "value".to_string()));
    while bytes.len() > 1 {
        bytes.truncate(bytes.len() - 1);
        assert!(decode_request(&bytes).unwrap().is_none());
    }
    let mut resp = encode_response(&Response::Failure("message".to_string()));
    resp.truncate(resp.len() - 1);
    assert!(decode_response(&resp).unwrap().is_none());
}

#[test]
fn unknown_tags_are_decode_errors() {
    let bytes = vec![9u8];
    assert!(matches!(decode_request(&bytes).unwrap_err(), KvsError::Decode(_)));
    let bytes = vec![77u8];
    assert!(matches!(decode_response(&bytes).unwrap_err(), KvsError::Decode(_)));
}

#[test]
fn trailing_bytes_do_not_disturb_a_frame() {
    let r = Request::Get("foo".to_string());
    let mut bytes = encode_request(&r);
    let frame_len = bytes.len();
    bytes.extend_from_slice(b"garbage");
    let (decoded, len) = decode_request(&bytes).unwrap().unwrap();
    assert_eq!(decoded, r);
    assert_eq!(len, frame_len);
}

#[test]
fn process_request_dispatches_to_the_engine() {
    let mut store = KvStore::open(Vec::new()).unwrap();

    let put = Request::Put("foo".to_string(), "bar".to_string());
    assert!(can_apply(&store, &put));
    assert_eq!(process_request(&mut store, put), Response::SetOk);

    let get = Request::Get("foo".to_string());
    assert!(can_apply(&store, &get));
    assert_eq!(
        process_request(&mut store, get),
        Response::GetOk(Some("bar".to_string()))
    );

    assert_eq!(
        process_request(&mut store, Request::Get("absent".to_string())),
        Response::GetOk(None)
    );

    let rm = Request::Remove("foo".to_string());
    assert!(can_apply(&store, &rm));
    assert_eq!(process_request(&mut store, rm), Response::RemoveOk);

    assert_eq!(
        process_request(&mut store, Request::Remove("foo".to_string())),
        Response::Failure("Key not found".to_string())
    );
}

#[test]
fn clients_interpret_responses() {
    assert_eq!(
        interpret_get_response(Response::GetOk(Some("v".to_string()))).unwrap(),
        Some("v".to_string())
    );
    assert_eq!(interpret_get_response(Response::GetOk(None)).unwrap(), None);
    assert!(matches!(
        interpret_get_response(Response::Failure("boom".to_string())),
        Err(KvsError::StringError(m)) if m == "boom"
    ));
    assert!(matches!(
        interpret_get_response(Response::SetOk),
        Err(KvsError::UnexpectedResponse)
    ));

    assert!(interpret_set_response(Response::SetOk).is_ok());
    assert!(matches!(
        interpret_set_response(Response::RemoveOk),
        Err(KvsError::UnexpectedResponse)
    ));

    assert!(interpret_remove_response(Response::RemoveOk).is_ok());
    assert!(matches!(
        interpret_remove_response(Response::Failure("Key not found".to_string())),
        Err(KvsError::StringError(m)) if m == "Key not found"
    ));
}

#[test]
fn per_operation_responses_render_engine_results() {
    assert_eq!(
        GetResponse::from_engine(Ok(Some("v".to_string()))),
        GetResponse::Success(Some("v".to_string()))
    );
    assert_eq!(
        GetResponse::from_engine(Err(KvsError::KeyNotFound)),
        GetResponse::Failure("Key not found".to_string())
    );
    assert_eq!(SetResponse::from_engine(Ok(())), SetResponse::Success);
    assert_eq!(
        RemoveResponse::from_engine(Err(KvsError::KeyNotFound)),
        RemoveResponse::Failure("Key not found".to_string())
    );
}

#[test]
fn error_messages_render_exactly() {
    assert_eq!(KvsError::KeyNotFound.message(), "Key not found");
    assert_eq!(KvsError::UnexpectedCommand.message(), "UnexpectedCommand");
    assert_eq!(KvsError::Decode("bad".to_string()).message(), "Decode: bad");
    assert_eq!(KvsError::IO("gone".to_string()).message(), "IO: gone");
    assert_eq!(KvsError::Sled("oops".to_string()).message(), "Sled: oops");
    assert_eq!(KvsError::StringError("as is".to_string()).message(), "as is");
}

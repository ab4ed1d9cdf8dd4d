use blaze_turbo::chars::{chars_to_string, str_to_chars};
use blaze_turbo::engine_select::{judge_engine, EngineType};
use blaze_turbo::error::KVStoreError;
use blaze_turbo::kv_store::KvStore;
use blaze_turbo::proto::{
    decode_request, decode_response, encode_request, encode_response, handle_frame,
    handle_request, Request, Response,
};

fn fresh() -> KvStore {
    KvStore::open(Vec::new()).unwrap()
}

#[test]
fn request_codec_round_trip() {
    let cases = vec![
        Request::GET("key1".to_string()),
        Request::SET("key1".to_string(), "value \"1\"".to_string()),
        Request::RM("key\\1".to_string()),
        Request::GET(String::new()),
    ];
    for rq in cases {
        let encoded = encode_request(&rq);
        let (decoded, consumed) = decode_request(&encoded, 0).unwrap();
        assert_eq!(consumed, encoded.len());
        match (&rq, &decoded) {
            (Request::GET(a), Request::GET(b)) => assert_eq!(a, b),
            (Request::SET(a, b), Request::SET(c, d)) => {
                assert_eq!(a, c);
                assert_eq!(b, d);
            }
            (Request::RM(a), Request::RM(b)) => assert_eq!(a, b),
            _ => panic!("decoded request has the wrong variant"),
        }
    }
}

#[test]
fn request_codec_exact_text() {
    let rq = Request::GET("k".to_string());
    assert_eq!(chars_to_string(&encode_request(&rq)), "{\"GET\":[\"k\"]}");
    let rq = Request::SET("k".to_string(), "v".to_string());
    assert_eq!(chars_to_string(&encode_request(&rq)), "{\"SET\":[\"k\",\"v\"]}");
    let rq = Request::RM("k".to_string());
    assert_eq!(chars_to_string(&encode_request(&rq)), "{\"RM\":[\"k\"]}");
}

#[test]
fn response_codec_round_trip() {
    let cases = vec![
        Response::Value(None),
        Response::Value(Some("a value\nwith \"stuff\"".to_string())),
        Response::Error("Key not found".to_string()),
        Response::Value(Some(String::new())),
    ];
    for resp in cases {
        let encoded = encode_response(&resp);
        let (decoded, consumed) = decode_response(&encoded, 0).unwrap();
        assert_eq!(consumed, encoded.len());
        match (&resp, &decoded) {
            (Response::Value(a), Response::Value(b)) => assert_eq!(a, b),
            (Response::Error(a), Response::Error(b)) => assert_eq!(a, b),
            _ => panic!("decoded response has the wrong variant"),
        }
    }
}

#[test]
fn response_codec_exact_text() {
    assert_eq!(chars_to_string(&encode_response(&Response::Value(None))), "{\"NONE\":[]}");
    assert_eq!(
        chars_to_string(&encode_response(&Response::Value(Some("v".to_string())))),
        "{\"OK\":[\"v\"]}"
    );
    assert_eq!(
        chars_to_string(&encode_response(&Response::Error("boom".to_string()))),
        "{\"ERR\":[\"boom\"]}"
    );
}

#[test]
fn response_codec_rejects_garbage() {
    let junk = str_to_chars("{\"YES\":[]}");
    assert!(matches!(decode_response(&junk, 0), Err(KVStoreError::Serde(_))));
}

#[test]
fn handler_get_set_remove() {
    let mut store = fresh();
    let resp = handle_request(&mut store, Request::SET("k".to_string(), "v".to_string()));
    assert!(matches!(resp, Response::Value(None)));
    let resp = handle_request(&mut store, Request::GET("k".to_string()));
    assert!(matches!(resp, Response::Value(Some(ref v)) if v == "v"));
    let resp = handle_request(&mut store, Request::RM("k".to_string()));
    assert!(matches!(resp, Response::Value(None)));
    let resp = handle_request(&mut store, Request::GET("k".to_string()));
    assert!(matches!(resp, Response::Value(None)));
}

#[test]
fn handler_key_not_found_asymmetry() {
    // A read of a missing key succeeds with no value; removing a missing
    // key fails with the message the client prints to standard error.
    let mut store = fresh();
    let resp = handle_request(&mut store, Request::GET("missing".to_string()));
    assert!(matches!(resp, Response::Value(None)));
    let resp = handle_request(&mut store, Request::RM("missing".to_string()));
    match resp {
        Response::Error(m) => assert_eq!(m, "Key not found"),
        _ => panic!("removing a missing key must fail"),
    }
}

#[test]
fn frame_handler_full_exchange() {
    let mut store = fresh();
    let set_frame = str_to_chars("{\"SET\":[\"key1\",\"value1\"]}");
    let out = handle_frame(&mut store, &set_frame);
    assert_eq!(chars_to_string(&out), "{\"NONE\":[]}");
    let get_frame = str_to_chars("{\"GET\":[\"key1\"]}");
    let out = handle_frame(&mut store, &get_frame);
    assert_eq!(chars_to_string(&out), "{\"OK\":[\"value1\"]}");
    let rm_frame = str_to_chars("{\"RM\":[\"key1\"]}");
    let out = handle_frame(&mut store, &rm_frame);
    assert_eq!(chars_to_string(&out), "{\"NONE\":[]}");
    let out = handle_frame(&mut store, &rm_frame);
    assert_eq!(chars_to_string(&out), "{\"ERR\":[\"Key not found\"]}");
    let bad_frame = str_to_chars("not a frame");
    let out = handle_frame(&mut store, &bad_frame);
    let text = chars_to_string(&out);
    assert!(text.starts_with("{\"ERR\":[\""));
}

#[test]
fn selector_defaults_to_kvs() {
    assert_eq!(judge_engine(None, false, false).unwrap(), EngineType::KvStore);
    assert_eq!(judge_engine(None, true, false).unwrap(), EngineType::KvStore);
}

#[test]
fn selector_detects_existing_sled() {
    assert_eq!(judge_engine(None, false, true).unwrap(), EngineType::SledKvsEngine);
    assert_eq!(judge_engine(None, true, true).unwrap(), EngineType::SledKvsEngine);
}

#[test]
fn selector_rejects_engine_change() {
    // A directory prepared by one engine refuses to start as the other.
    let err = judge_engine(Some("kvs".to_string()), false, true).unwrap_err();
    assert!(matches!(err, KVStoreError::ChangeEngineError));
    let err = judge_engine(Some("sled".to_string()), true, false).unwrap_err();
    assert!(matches!(err, KVStoreError::ChangeEngineError));
}

#[test]
fn selector_honours_matching_request() {
    assert_eq!(judge_engine(Some("kvs".to_string()), true, false).unwrap(), EngineType::KvStore);
    assert_eq!(judge_engine(Some("kvs".to_string()), false, false).unwrap(), EngineType::KvStore);
    assert_eq!(
        judge_engine(Some("sled".to_string()), false, true).unwrap(),
        EngineType::SledKvsEngine
    );
    assert_eq!(
        judge_engine(Some("sled".to_string()), false, false).unwrap(),
        EngineType::SledKvsEngine
    );
}

#[test]
fn engine_dir_names() {
    assert_eq!(EngineType::KvStore.dir_name(), "kvs");
    assert_eq!(EngineType::SledKvsEngine.dir_name(), "sled");
}

#[test]
fn error_messages() {
    assert_eq!(KVStoreError::KeyNotFound.message(), "Key not found");
    assert_eq!(KVStoreError::UnknownCommandType.message(), "Unknown command type");
    assert_eq!(KVStoreError::UnknownEngineType.message(), "Unknown engine type");
    assert_eq!(
        KVStoreError::ChangeEngineError.message(),
        "Change engine after initialization"
    );
    assert_eq!(KVStoreError::Io("disk full".to_string()).message(), "disk full");
    assert_eq!(
        KVStoreError::Utf8Error("bad byte".to_string()).message(),
        "Utf8 Error bad byte"
    );
    assert_eq!(
        KVStoreError::ThreadPoolBuildError("no threads".to_string()).message(),
        "Build ThreadPool Error no threads"
    );
}

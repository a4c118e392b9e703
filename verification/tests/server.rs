use kvs::protocol::{GetResponse, Protocol, RemoveResponse, Response, SetResponse};
use kvs::{KvStore, KvsEngine, KvsError, KvsServer};

fn s(text: &str) -> String {
    text.to_string()
}

fn server() -> KvsServer<KvStore> {
    KvsServer::new(KvStore::open(Vec::new()).unwrap())
}

#[test]
fn get_of_missing_key_answers_null() {
    let mut server = server();
    assert_eq!(
        server.handle(Protocol::Get { key: s("missing") }),
        Response::Got(GetResponse::Value(None))
    );
}

#[test]
fn requests_are_answered_in_kind() {
    let mut server = server();
    assert_eq!(
        server.handle(Protocol::Put { key: s("a"), value: s("1") }),
        Response::Stored(SetResponse::Done)
    );
    assert_eq!(
        server.handle(Protocol::Get { key: s("a") }),
        Response::Got(GetResponse::Value(Some(s("1"))))
    );
    assert_eq!(
        server.handle(Protocol::Remove { key: s("a") }),
        Response::Removed(RemoveResponse::Done)
    );
    assert_eq!(
        server.handle(Protocol::Get { key: s("a") }),
        Response::Got(GetResponse::Value(None))
    );
}

#[test]
fn remove_of_absent_key_answers_with_error_text() {
    let mut server = server();
    assert_eq!(
        server.handle(Protocol::Remove { key: s("a") }),
        Response::Removed(RemoveResponse::Failure(s("Key not found error")))
    );
    assert_eq!(
        server.handle(Protocol::Put { key: s("a"), value: s("1") }),
        Response::Stored(SetResponse::Done)
    );
}

#[test]
fn server_gives_its_engine_back() {
    let mut server = server();
    server.handle(Protocol::Put { key: s("a"), value: s("1") });
    assert_eq!(server.engine().current_index(), 1);
    let mut store = server.into_engine();
    assert_eq!(store.get(s("a")).unwrap(), Some(s("1")));
}

#[test]
fn engine_trait_drives_the_store() {
    fn exercise<E: KvsEngine>(engine: &mut E) {
        engine.set(s("a"), s("1")).unwrap();
        assert_eq!(engine.get(s("a")).unwrap(), Some(s("1")));
        engine.remove(s("a")).unwrap();
        assert_eq!(engine.get(s("a")).unwrap(), None);
        assert!(matches!(engine.remove(s("a")), Err(KvsError::KeyNotFound)));
    }
    let mut store = KvStore::open(Vec::new()).unwrap();
    exercise(&mut store);
}

#[test]
fn error_texts() {
    assert_eq!(KvsError::KeyNotFound.message(), "Key not found error");
    assert_eq!(KvsError::UnexpectedCommand.message(), "UnexpectedCommand error");
    assert_eq!(KvsError::MessageError(s("boom")).message(), "boom");
    let io = std::io::Error::new(std::io::ErrorKind::Other, "disk full");
    assert_eq!(KvsError::from(io).message(), "IO error: disk full");
    let json = serde_json::from_str::<serde_json::Value>("{").unwrap_err();
    let text = json.to_string();
    assert_eq!(KvsError::from(json).message(), format!("serde_json error: {}", text));
}

#[test]
fn errors_convert_from_their_sources() {
    let io = std::io::Error::new(std::io::ErrorKind::NotFound, "gone");
    assert!(matches!(KvsError::from(io), KvsError::Io(_)));
    let json = serde_json::from_str::<serde_json::Value>("nope").unwrap_err();
    assert!(matches!(KvsError::from(json), KvsError::Serde(_)));
}

#[test]
fn responses_from_engine_results() {
    assert_eq!(GetResponse::from_result(Ok(Some(s("v")))), GetResponse::Value(Some(s("v"))));
    assert_eq!(GetResponse::from_result(Ok(None)), GetResponse::Value(None));
    assert_eq!(
        GetResponse::from_result(Err(KvsError::UnexpectedCommand)),
        GetResponse::Failure(s("UnexpectedCommand error"))
    );
    assert_eq!(SetResponse::from_result(Ok(())), SetResponse::Done);
    assert_eq!(
        SetResponse::from_result(Err(KvsError::MessageError(s("m")))),
        SetResponse::Failure(s("m"))
    );
    assert_eq!(RemoveResponse::from_result(Ok(())), RemoveResponse::Done);
    assert_eq!(
        RemoveResponse::from_result(Err(KvsError::KeyNotFound)),
        RemoveResponse::Failure(s("Key not found error"))
    );
}

#[test]
fn responses_into_client_results() {
    assert_eq!(GetResponse::Value(Some(s("v"))).into_result().unwrap(), Some(s("v")));
    assert_eq!(GetResponse::Value(None).into_result().unwrap(), None);
    assert!(matches!(
        GetResponse::Failure(s("bad")).into_result(),
        Err(KvsError::MessageError(text)) if text == "bad"
    ));
    assert!(SetResponse::Done.into_result().is_ok());
    assert!(matches!(
        SetResponse::Failure(s("bad")).into_result(),
        Err(KvsError::MessageError(text)) if text == "bad"
    ));
    assert!(RemoveResponse::Done.into_result().is_ok());
    assert!(matches!(
        RemoveResponse::Failure(s("Key not found error")).into_result(),
        Err(KvsError::MessageError(text)) if text == "Key not found error"
    ));
}

#[test]
fn remove_then_get_on_an_empty_store() {
    let mut server = server();
    assert_eq!(
        server.handle(Protocol::Remove { key: s("a") }),
        Response::Removed(RemoveResponse::Failure(s("Key not found error")))
    );
    assert_eq!(server.handle(Protocol::Get { key: s("a") }), Response::Got(GetResponse::Value(None)));
}

#[test]
fn put_then_get() {
    let mut server = server();
    assert_eq!(
        server.handle(Protocol::Put { key: s("a"), value: s("1") }),
        Response::Stored(SetResponse::Done)
    );
    assert_eq!(
        server.handle(Protocol::Get { key: s("a") }),
        Response::Got(GetResponse::Value(Some(s("1"))))
    );
}

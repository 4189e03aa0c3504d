use redis_lite::{handle_resp, marshal, read_resp, Aof, ProtocolError, RespValue, Store};

fn bulk(text: &str) -> RespValue {
    RespValue::BulkString(Some(text.to_string()))
}

fn request(words: &[&str]) -> RespValue {
    RespValue::Array(words.iter().map(|w| bulk(w)).collect())
}

/// Decodes one frame, dispatches it, logs it unless it was refused, and
/// gives the encoded response.
fn serve(store: &mut Store, log: &mut Aof, input: &[u8]) -> Vec<u8> {
    let (command, end) = read_resp(input, 0).expect("a well-formed frame");
    assert_eq!(end, input.len());
    let response = handle_resp(store, &command);
    log.record(&command, &response);
    marshal(&response)
}

#[test]
fn ping_without_argument_answers_pong() {
    let mut store = Store::new();
    let mut log = Aof::new(Vec::new());
    let out = serve(&mut store, &mut log, b"*1\r\n$4\r\nping\r\n");
    assert_eq!(out, b"+PONG\r\n".to_vec());
}

#[test]
fn ping_with_argument_echoes_it() {
    let mut store = Store::new();
    let mut log = Aof::new(Vec::new());
    let out = serve(&mut store, &mut log, b"*2\r\n$4\r\nping\r\n$5\r\nhello\r\n");
    assert_eq!(out, b"+hello\r\n".to_vec());
}

#[test]
fn set_answers_ok_is_logged_and_can_be_read_back() {
    let mut store = Store::new();
    let mut log = Aof::new(Vec::new());
    let input = b"*3\r\n$3\r\nset\r\n$1\r\nk\r\n$1\r\nv\r\n";
    let out = serve(&mut store, &mut log, input);
    assert_eq!(out, b"+OK\r\n".to_vec());
    assert_eq!(log.sync(), input.to_vec());
    assert_eq!(log.sync(), Vec::<u8>::new());
    let out = serve(&mut store, &mut log, b"*2\r\n$3\r\nget\r\n$1\r\nk\r\n");
    assert_eq!(out, b"$1\r\nv\r\n".to_vec());
}

#[test]
fn del_counts_the_keys_it_removed() {
    let mut store = Store::new();
    let mut log = Aof::new(Vec::new());
    serve(&mut store, &mut log, b"*3\r\n$3\r\nset\r\n$1\r\nk\r\n$1\r\nv\r\n");
    let out = serve(&mut store, &mut log, b"*2\r\n$3\r\ndel\r\n$1\r\nk\r\n");
    assert_eq!(out, b":1\r\n".to_vec());
    let out = serve(&mut store, &mut log, b"*2\r\n$3\r\ndel\r\n$1\r\nk\r\n");
    assert_eq!(out, b":0\r\n".to_vec());
}

#[test]
fn unknown_command_is_refused_and_not_logged() {
    let mut store = Store::new();
    let mut log = Aof::new(Vec::new());
    let (command, _) = read_resp(b"*1\r\n$7\r\nunknown\r\n", 0).unwrap();
    let response = handle_resp(&mut store, &command);
    assert_eq!(response, RespValue::Error("invalid command".to_string()));
    log.record(&command, &response);
    assert_eq!(log.sync(), Vec::<u8>::new());
}

#[test]
fn replay_rebuilds_the_store_with_later_sets_winning() {
    let mut bytes: Vec<u8> = Vec::new();
    bytes.extend(marshal(&request(&["SET", "a", "1"])));
    bytes.extend(marshal(&request(&["SET", "b", "2"])));
    bytes.extend(marshal(&request(&["SET", "a", "3"])));
    bytes.extend(marshal(&request(&["SET", "c", "4"])));
    let mut store = Store::new();
    let mut log = Aof::new(bytes);
    assert_eq!(log.read(&mut store), Ok(()));
    assert_eq!(store.len(), 3);
    assert_eq!(store.get("a"), Some(bulk("3")));
    assert_eq!(store.get("b"), Some(bulk("2")));
    assert_eq!(store.get("c"), Some(bulk("4")));
    assert_eq!(store.get("d"), None);
}

#[test]
fn replay_stops_at_a_corrupt_record() {
    let mut bytes: Vec<u8> = Vec::new();
    bytes.extend(marshal(&request(&["SET", "a", "1"])));
    bytes.extend(b"*2\r\n$3\r\nset\r\n$5\r\nab".to_vec());
    let mut store = Store::new();
    let mut log = Aof::new(bytes);
    assert_eq!(log.read(&mut store), Err(ProtocolError::ShortRead));
    assert_eq!(store.get("a"), Some(bulk("1")));
}

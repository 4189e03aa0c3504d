use redis_lite::command::{command_of, del, get, ping};
use redis_lite::{handle_resp, Command, RespValue, Store};

fn text(s: &str) -> RespValue {
    RespValue::BulkString(Some(s.to_string()))
}

fn words(items: &[&str]) -> RespValue {
    RespValue::Array(items.iter().map(|w| text(w)).collect())
}

fn refused(message: &str) -> RespValue {
    RespValue::Error(message.to_string())
}

fn put(store: &mut Store, args: Vec<RespValue>) -> RespValue {
    redis_lite::command::set(store, args)
}

fn ok() -> RespValue {
    RespValue::SimpleString("OK".to_string())
}

#[test]
fn command_names_are_matched_in_any_case() {
    assert_eq!(command_of("ping"), Some(Command::Ping));
    assert_eq!(command_of("PING"), Some(Command::Ping));
    assert_eq!(command_of("PiNg"), Some(Command::Ping));
    assert_eq!(command_of("get"), Some(Command::Get));
    assert_eq!(command_of("Get"), Some(Command::Get));
    assert_eq!(command_of("set"), Some(Command::Put));
    assert_eq!(command_of("sEt"), Some(Command::Put));
    assert_eq!(command_of("del"), Some(Command::Del));
    assert_eq!(command_of("DEL"), Some(Command::Del));
}

#[test]
fn other_names_are_no_commands() {
    assert_eq!(command_of(""), None);
    assert_eq!(command_of("pin"), None);
    assert_eq!(command_of("pings"), None);
    assert_eq!(command_of("gets"), None);
    assert_eq!(command_of("delete"), None);
    assert_eq!(command_of("p\u{131}ng"), None);
    assert_eq!(command_of("P\u{130}NG"), None);
    assert_eq!(command_of(" get"), None);
}

#[test]
fn only_arrays_are_accepted() {
    let mut store = Store::new();
    let expected = refused("only arrays accepted");
    assert_eq!(handle_resp(&mut store, &RespValue::Null), expected);
    assert_eq!(handle_resp(&mut store, &text("ping")), expected);
    assert_eq!(handle_resp(&mut store, &RespValue::Integer(1)), expected);
    assert_eq!(handle_resp(&mut store, &ok()), expected);
}

#[test]
fn the_command_must_be_a_bulk_string() {
    let mut store = Store::new();
    let expected = refused("bulk string command expected");
    assert_eq!(handle_resp(&mut store, &RespValue::Array(Vec::new())), expected);
    let absent = RespValue::Array(vec![RespValue::BulkString(None)]);
    assert_eq!(handle_resp(&mut store, &absent), expected);
    let number = RespValue::Array(vec![RespValue::Integer(1), text("k")]);
    assert_eq!(handle_resp(&mut store, &number), expected);
}

#[test]
fn an_unknown_command_is_refused() {
    let mut store = Store::new();
    assert_eq!(handle_resp(&mut store, &words(&["unknown"])), refused("invalid command"));
    assert_eq!(handle_resp(&mut store, &words(&["settle", "k", "v"])), refused("invalid command"));
    assert_eq!(store.len(), 0);
}

#[test]
fn ping_answers_pong_or_echoes() {
    assert_eq!(ping(Vec::new()), RespValue::SimpleString("PONG".to_string()));
    assert_eq!(ping(vec![text("hello")]), RespValue::SimpleString("hello".to_string()));
}

#[test]
fn ping_refuses_other_arguments() {
    let expected = refused("Invalid PING argument");
    assert_eq!(ping(vec![text("a"), text("b")]), expected);
    assert_eq!(ping(vec![RespValue::BulkString(None)]), expected);
    assert_eq!(ping(vec![RespValue::Integer(1)]), expected);
}

#[test]
fn get_of_a_key_that_was_never_set_is_null() {
    let store = Store::new();
    assert_eq!(get(&store, vec![text("k")]), RespValue::Null);
}

#[test]
fn get_refuses_a_missing_or_malformed_key() {
    let store = Store::new();
    let expected = refused("missing key");
    assert_eq!(get(&store, Vec::new()), expected);
    assert_eq!(get(&store, vec![RespValue::BulkString(None)]), expected);
    assert_eq!(get(&store, vec![RespValue::Integer(1)]), expected);
}

#[test]
fn get_after_set_gives_the_value() {
    let mut store = Store::new();
    assert_eq!(put(&mut store, vec![text("k"), text("v")]), ok());
    assert_eq!(get(&store, vec![text("k")]), text("v"));
    assert_eq!(get(&store, vec![text("k"), text("more")]), text("v"));
    assert_eq!(get(&store, vec![text("K")]), RespValue::Null);
}

#[test]
fn set_puts_a_new_value_in_place_of_the_old() {
    let mut store = Store::new();
    assert_eq!(put(&mut store, vec![text("k"), text("v1")]), ok());
    assert_eq!(put(&mut store, vec![text("k"), text("v2"), text("more")]), ok());
    assert_eq!(store.len(), 1);
    assert_eq!(store.get("k"), Some(text("v2")));
}

#[test]
fn set_stores_any_value_as_it_is() {
    let mut store = Store::new();
    let value = RespValue::Array(vec![RespValue::Integer(7), RespValue::Null]);
    assert_eq!(put(&mut store, vec![text("k"), value.clone()]), ok());
    assert_eq!(get(&store, vec![text("k")]), value);
    assert_eq!(put(&mut store, vec![text("n"), RespValue::BulkString(None)]), ok());
    assert_eq!(get(&store, vec![text("n")]), RespValue::BulkString(None));
}

#[test]
fn set_refuses_too_few_arguments_or_a_malformed_key() {
    let mut store = Store::new();
    assert_eq!(put(&mut store, Vec::new()), refused("SET requires key and value"));
    assert_eq!(put(&mut store, vec![text("k")]), refused("SET requires key and value"));
    assert_eq!(
        put(&mut store, vec![RespValue::BulkString(None), text("v")]),
        refused("Invalid key for SET")
    );
    assert_eq!(put(&mut store, vec![RespValue::Integer(1), text("v")]), refused("Invalid key for SET"));
    assert_eq!(store.len(), 0);
}

#[test]
fn del_counts_the_keys_that_were_there() {
    let mut store = Store::new();
    put(&mut store, vec![text("a"), text("1")]);
    put(&mut store, vec![text("b"), text("2")]);
    put(&mut store, vec![text("c"), text("3")]);
    assert_eq!(del(&mut store, vec![text("a"), text("x"), text("c")]), RespValue::Integer(2));
    assert_eq!(store.len(), 1);
    assert_eq!(store.get("a"), None);
    assert_eq!(store.get("b"), Some(text("2")));
    assert_eq!(del(&mut store, vec![text("a"), text("c")]), RespValue::Integer(0));
    assert_eq!(del(&mut store, Vec::new()), RespValue::Integer(0));
}

#[test]
fn del_counts_a_key_that_is_named_twice_once() {
    let mut store = Store::new();
    put(&mut store, vec![text("a"), text("1")]);
    assert_eq!(del(&mut store, vec![text("a"), text("a")]), RespValue::Integer(1));
}

#[test]
fn del_passes_over_what_is_no_key() {
    let mut store = Store::new();
    put(&mut store, vec![text("a"), text("1")]);
    let args = vec![RespValue::Integer(1), RespValue::BulkString(None), text("a"), RespValue::Null];
    assert_eq!(del(&mut store, args), RespValue::Integer(1));
    assert_eq!(store.len(), 0);
}

#[test]
fn get_of_a_deleted_key_is_null() {
    let mut store = Store::new();
    assert_eq!(handle_resp(&mut store, &words(&["SET", "k", "v"])), ok());
    assert_eq!(handle_resp(&mut store, &words(&["DEL", "k"])), RespValue::Integer(1));
    assert_eq!(handle_resp(&mut store, &words(&["GET", "k"])), RespValue::Null);
}

#[test]
fn a_sequence_of_requests_against_an_empty_store() {
    let mut store = Store::new();
    assert_eq!(handle_resp(&mut store, &words(&["get", "a"])), RespValue::Null);
    assert_eq!(handle_resp(&mut store, &words(&["set", "a", "1"])), ok());
    assert_eq!(handle_resp(&mut store, &words(&["set", "b", "2"])), ok());
    assert_eq!(handle_resp(&mut store, &words(&["get", "a"])), text("1"));
    assert_eq!(handle_resp(&mut store, &words(&["set", "a", "3"])), ok());
    assert_eq!(handle_resp(&mut store, &words(&["get", "a"])), text("3"));
    assert_eq!(handle_resp(&mut store, &words(&["get", "b"])), text("2"));
    assert_eq!(handle_resp(&mut store, &words(&["del", "a", "b", "c"])), RespValue::Integer(2));
    assert_eq!(handle_resp(&mut store, &words(&["get", "a"])), RespValue::Null);
    assert_eq!(handle_resp(&mut store, &words(&["get", "b"])), RespValue::Null);
    assert_eq!(handle_resp(&mut store, &words(&["ping"])), RespValue::SimpleString("PONG".to_string()));
    assert_eq!(store.len(), 0);
}

#[test]
fn requests_on_different_keys_can_be_swapped() {
    let a = words(&["set", "a", "1"]);
    let b = words(&["del", "b", "c"]);
    let mut first = Store::new();
    handle_resp(&mut first, &words(&["set", "b", "0"]));
    handle_resp(&mut first, &a);
    handle_resp(&mut first, &b);
    let mut second = Store::new();
    handle_resp(&mut second, &words(&["set", "b", "0"]));
    handle_resp(&mut second, &b);
    handle_resp(&mut second, &a);
    for key in ["a", "b", "c"] {
        assert_eq!(first.get(key), second.get(key));
    }
    assert_eq!(first.len(), second.len());
}

#[test]
fn store_insert_get_remove() {
    let mut store = Store::new();
    assert_eq!(store.len(), 0);
    store.insert("k".to_string(), RespValue::Integer(1));
    store.insert("k".to_string(), RespValue::Integer(2));
    store.insert("j".to_string(), RespValue::Null);
    assert_eq!(store.len(), 2);
    assert_eq!(store.get("k"), Some(RespValue::Integer(2)));
    assert_eq!(store.get("j"), Some(RespValue::Null));
    assert_eq!(store.get("i"), None);
    assert!(store.remove("k"));
    assert!(!store.remove("k"));
    assert_eq!(store.len(), 1);
}

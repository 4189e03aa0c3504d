//! The commands and what each does to the store.
//!
//! A request is an array whose first element names the command and whose
//! other elements are its arguments. The model of dispatch is the pair
//! [`reply_to`] and [`state_after`]: the response, and the store afterwards.

use crate::store::{State, Store};
use crate::value::{views, RespValue, Value};
use vstd::prelude::*;
use vstd::string::{StrSliceExecFns, StringExecFns};

verus! {

/// The commands that the store knows.
#[derive(Debug, Clone, Copy, PartialEq, Eq, Structural)]
pub enum Command {
    /// `PING`
    Ping,
    /// `GET`
    Get,
    /// `SET`
    Put,
    /// `DEL`
    Del,
}

/// Whether `name` spells a word, whatever the case of each letter: `lower`
/// and `upper` are the word in lower and in upper case.
pub open spec fn same_word(name: Seq<char>, lower: Seq<char>, upper: Seq<char>) -> bool {
    &&& name.len() == lower.len()
    &&& forall|i: int| 0 <= i < name.len() ==> (#[trigger] name[i] == lower[i] || name[i] == upper[i])
}

/// The command that `name` names, matched without regard to case.
pub open spec fn command_named(name: Seq<char>) -> Option<Command> {
    if same_word(name, "ping"@, "PING"@) {
        Some(Command::Ping)
    } else if same_word(name, "get"@, "GET"@) {
        Some(Command::Get)
    } else if same_word(name, "set"@, "SET"@) {
        Some(Command::Put)
    } else if same_word(name, "del"@, "DEL"@) {
        Some(Command::Del)
    } else {
        None
    }
}

/// The key that an argument gives: the text of a bulk string that is present.
pub open spec fn key_of(arg: Value) -> Option<Seq<char>> {
    match arg {
        Value::BulkString(Some(key)) => Some(key),
        _ => None,
    }
}

/// PING answers `PONG` to no argument, echoes a single text argument, and
/// refuses anything else.
pub open spec fn ping_reply(args: Seq<Value>) -> Value {
    if args.len() == 0 {
        Value::SimpleString("PONG"@)
    } else if args.len() == 1 && key_of(args[0]) is Some {
        Value::SimpleString(key_of(args[0])->0)
    } else {
        Value::Error("Invalid PING argument"@)
    }
}

/// GET answers with the value under the key that its first argument gives,
/// with `Null` where the store has none, and refuses a missing or
/// malformed key.
pub open spec fn get_reply(state: State, args: Seq<Value>) -> Value {
    if args.len() > 0 && key_of(args[0]) is Some {
        let key = key_of(args[0])->0;
        if state.contains_key(key) {
            state[key]
        } else {
            Value::Null
        }
    } else {
        Value::Error("missing key"@)
    }
}

/// SET answers `OK` when it has a key and a value, and refuses otherwise.
pub open spec fn set_reply(args: Seq<Value>) -> Value {
    if args.len() < 2 {
        Value::Error("SET requires key and value"@)
    } else if key_of(args[0]) is None {
        Value::Error("Invalid key for SET"@)
    } else {
        Value::SimpleString("OK"@)
    }
}

/// The store after SET: the second argument stands under the key, as it is;
/// a refused SET changes nothing.
pub open spec fn set_state(state: State, args: Seq<Value>) -> State {
    if args.len() >= 2 && key_of(args[0]) is Some {
        state.insert(key_of(args[0])->0, args[1])
    } else {
        state
    }
}

/// The keys that the arguments of DEL give; an argument that gives none is
/// passed over.
pub open spec fn del_keys(args: Seq<Value>) -> Set<Seq<char>> {
    Set::new(|key: Seq<char>| args.contains(Value::BulkString(Some(key))))
}

/// The store after DEL: without the keys that the arguments give.
pub open spec fn del_state(state: State, args: Seq<Value>) -> State {
    state.remove_keys(del_keys(args))
}

/// How many keys DEL removes: those among its arguments that the store held.
pub open spec fn del_count(state: State, args: Seq<Value>) -> nat {
    del_keys(args).intersect(state.dom()).len()
}

/// A count as a 32-bit integer, which stops at the largest one.
pub open spec fn clip(n: nat) -> i32 {
    if n <= i32::MAX {
        n as i32
    } else {
        i32::MAX
    }
}

/// DEL answers with the number of keys it removed.
pub open spec fn del_reply(state: State, args: Seq<Value>) -> Value {
    Value::Integer(clip(del_count(state, args)))
}

/// The response to `request` from a store that holds `state`.
pub open spec fn reply_to(state: State, request: Value) -> Value {
    match request {
        Value::Array(items) => {
            if items.len() > 0 && key_of(items[0]) is Some {
                let args = items.skip(1);
                match command_named(key_of(items[0])->0) {
                    Some(Command::Ping) => ping_reply(args),
                    Some(Command::Get) => get_reply(state, args),
                    Some(Command::Put) => set_reply(args),
                    Some(Command::Del) => del_reply(state, args),
                    None => Value::Error("invalid command"@),
                }
            } else {
                Value::Error("bulk string command expected"@)
            }
        },
        _ => Value::Error("only arrays accepted"@),
    }
}

/// What the store holds after `request`, if it held `state` before: only
/// SET and DEL change it.
pub open spec fn state_after(state: State, request: Value) -> State {
    match request {
        Value::Array(items) => {
            if items.len() > 0 && key_of(items[0]) is Some {
                let args = items.skip(1);
                match command_named(key_of(items[0])->0) {
                    Some(Command::Put) => set_state(state, args),
                    Some(Command::Del) => del_state(state, args),
                    _ => state,
                }
            } else {
                state
            }
        },
        _ => state,
    }
}

/// The keys of a sequence of arguments are those of all but the last, and
/// the key of the last if it gives one.
pub proof fn lemma_del_keys_push(done: Seq<Value>, next: Value)
    ensures
        del_keys(done.push(next)) == match key_of(next) {
            Some(key) => del_keys(done).insert(key),
            None => del_keys(done),
        },
{
    let all = done.push(next);
    assert forall|key: Seq<char>| del_keys(all).contains(key) <==> (del_keys(done).contains(key)
        || key_of(next) == Some(key)) by {
        let wanted = Value::BulkString(Some(key));
        if done.contains(wanted) {
            let i = choose|i: int| 0 <= i < done.len() && done[i] == wanted;
            assert(all[i] == wanted);
        }
        if key_of(next) == Some(key) {
            assert(all[done.len() as int] == wanted);
        }
    }
    match key_of(next) {
        Some(key) => {
            assert(del_keys(all) =~= del_keys(done).insert(key));
        },
        None => {
            assert(del_keys(all) =~= del_keys(done));
        },
    }
}

/// The arguments of DEL give finitely many keys.
pub proof fn lemma_del_keys_finite(args: Seq<Value>)
    ensures
        del_keys(args).finite(),
    decreases args.len(),
{
    if args.len() == 0 {
        assert(del_keys(args) =~= Set::empty());
    } else {
        lemma_del_keys_finite(args.drop_last());
        lemma_del_keys_push(args.drop_last(), args.last());
        assert(args.drop_last().push(args.last()) =~= args);
    }
}

/// DEL argument by argument: removing the key of one more argument from
/// the store takes it to the state after the longer DEL, and the count
/// grows by one exactly when that key was still there.
pub proof fn lemma_del_step(state: State, done: Seq<Value>, next: Value)
    ensures
        del_state(state, done.push(next)) == match key_of(next) {
            Some(key) => del_state(state, done).remove(key),
            None => del_state(state, done),
        },
        del_count(state, done.push(next)) == del_count(state, done) + match key_of(next) {
            Some(key) => if del_state(state, done).contains_key(key) {
                1nat
            } else {
                0nat
            },
            None => 0nat,
        },
{
    lemma_del_keys_push(done, next);
    lemma_del_keys_finite(done);
    let before = del_keys(done);
    match key_of(next) {
        Some(key) => {
            assert(del_state(state, done.push(next)) =~= del_state(state, done).remove(key));
            if del_state(state, done).contains_key(key) {
                assert(before.insert(key).intersect(state.dom()) =~= before.intersect(
                    state.dom(),
                ).insert(key));
            } else {
                assert(before.insert(key).intersect(state.dom()) =~= before.intersect(
                    state.dom(),
                ));
            }
        },
        None => {},
    }
}

/// Whether `name` spells the word that `lower` and `upper` are the two
/// cases of.
fn spells(name: &str, lower: &str, upper: &str) -> (same: bool)
    requires
        lower@.len() == upper@.len(),
    ensures
        same == same_word(name@, lower@, upper@),
{
    let n = lower.unicode_len();
    if name.unicode_len() != n {
        return false;
    }
    let mut i: usize = 0;
    while i < n
        invariant
            i <= n,
            n == name@.len(),
            n == lower@.len(),
            n == upper@.len(),
            forall|j: int| 0 <= j < i ==> (#[trigger] name@[j] == lower@[j] || name@[j] == upper@[j]),
        decreases n - i,
    {
        let c = name.get_char(i);
        if c != lower.get_char(i) && c != upper.get_char(i) {
            return false;
        }
        i += 1;
    }
    true
}

/// The command that `name` names, matched without regard to case.
pub fn command_of(name: &str) -> (command: Option<Command>)
    ensures
        command == command_named(name@),
{
    proof {
        reveal_strlit("ping");
        reveal_strlit("PING");
        reveal_strlit("get");
        reveal_strlit("GET");
        reveal_strlit("set");
        reveal_strlit("SET");
        reveal_strlit("del");
        reveal_strlit("DEL");
    }
    if spells(name, "ping", "PING") {
        Some(Command::Ping)
    } else if spells(name, "get", "GET") {
        Some(Command::Get)
    } else if spells(name, "set", "SET") {
        Some(Command::Put)
    } else if spells(name, "del", "DEL") {
        Some(Command::Del)
    } else {
        None
    }
}

/// An error response with the given text.
fn refusal(text: &str) -> (reply: RespValue)
    ensures
        reply@ == Value::Error(text@),
{
    RespValue::Error(String::from_str(text))
}

/// Answers PING.
pub fn ping(args: Vec<RespValue>) -> (reply: RespValue)
    ensures
        reply@ == ping_reply(views(args@)),
{
    if args.len() == 0 {
        RespValue::SimpleString(String::from_str("PONG"))
    } else if args.len() == 1 {
        match &args[0] {
            RespValue::BulkString(Some(s)) => RespValue::SimpleString(s.clone()),
            _ => refusal("Invalid PING argument"),
        }
    } else {
        refusal("Invalid PING argument")
    }
}

/// Answers GET from the store.
pub fn get(store: &Store, args: Vec<RespValue>) -> (reply: RespValue)
    ensures
        reply@ == get_reply(store@, views(args@)),
{
    if args.len() == 0 {
        return refusal("missing key");
    }
    match &args[0] {
        RespValue::BulkString(Some(key)) => {
            match store.get(key.as_str()) {
                Some(value) => value,
                None => RespValue::Null,
            }
        },
        _ => refusal("missing key"),
    }
}

/// Carries out SET on the store.
pub fn set(store: &mut Store, args: Vec<RespValue>) -> (reply: RespValue)
    ensures
        reply@ == set_reply(views(args@)),
        final(store)@ == set_state(old(store)@, views(args@)),
{
    if args.len() < 2 {
        return refusal("SET requires key and value");
    }
    match &args[0] {
        RespValue::BulkString(Some(key)) => {
            store.insert(key.clone(), args[1].clone());
            RespValue::SimpleString(String::from_str("OK"))
        },
        _ => refusal("Invalid key for SET"),
    }
}

/// Carries out DEL on the store.
pub fn del(store: &mut Store, args: Vec<RespValue>) -> (reply: RespValue)
    ensures
        reply@ == del_reply(old(store)@, views(args@)),
        final(store)@ == del_state(old(store)@, views(args@)),
{
    let ghost before = store@;
    let ghost all = views(args@);
    let mut removed: usize = 0;
    let mut i: usize = 0;
    proof {
        assert(all.take(0) =~= Seq::<Value>::empty());
        assert(del_keys(all.take(0)) =~= Set::empty());
        assert(del_state(before, all.take(0)) =~= before);
        assert(del_keys(all.take(0)).intersect(before.dom()) =~= Set::empty());
    }
    while i < args.len()
        invariant
            i <= args.len(),
            all == views(args@),
            removed <= i,
            removed == del_count(before, all.take(i as int)),
            store@ == del_state(before, all.take(i as int)),
        decreases args.len() - i,
    {
        proof {
            lemma_del_step(before, all.take(i as int), all[i as int]);
            assert(all.take(i as int).push(all[i as int]) =~= all.take(i + 1));
        }
        match &args[i] {
            RespValue::BulkString(Some(key)) => {
                if store.remove(key.as_str()) {
                    removed += 1;
                }
            },
            _ => {},
        }
        i += 1;
    }
    proof {
        assert(all.take(args@.len() as int) =~= all);
    }
    if removed > 0x7fff_ffff {
        RespValue::Integer(0x7fff_ffff)
    } else {
        RespValue::Integer(removed as i32)
    }
}

/// The arguments of a request: copies of all its elements but the first.
fn arguments(items: &Vec<RespValue>) -> (args: Vec<RespValue>)
    requires
        items.len() > 0,
    ensures
        views(args@) == views(items@).skip(1),
{
    let mut args: Vec<RespValue> = Vec::new();
    let mut i: usize = 1;
    while i < items.len()
        invariant
            1 <= i <= items.len(),
            args.len() == i - 1,
            forall|j: int| 0 <= j < args.len() ==> args@[j]@ == items@[j + 1]@,
        decreases items.len() - i,
    {
        args.push(items[i].clone());
        i += 1;
    }
    assert(views(args@) =~= views(items@).skip(1));
    args
}

/// Carries out `command` on the store and gives the response.
///
/// Only an array whose first element is a bulk string with a command's
/// name is carried out; anything else is answered with an error and
/// leaves the store as it was.
pub fn handle_resp(store: &mut Store, command: &RespValue) -> (reply: RespValue)
    ensures
        reply@ == reply_to(old(store)@, command@),
        final(store)@ == state_after(old(store)@, command@),
{
    let items = match command {
        RespValue::Array(items) => items,
        _ => {
            return refusal("only arrays accepted");
        },
    };
    if items.len() == 0 {
        return refusal("bulk string command expected");
    }
    let named = match &items[0] {
        RespValue::BulkString(Some(name)) => command_of(name.as_str()),
        _ => {
            assert(key_of(views(items@)[0]) is None);
            return refusal("bulk string command expected");
        },
    };
    let args = arguments(items);
    match named {
        Some(Command::Ping) => ping(args),
        Some(Command::Get) => get(store, args),
        Some(Command::Put) => set(store, args),
        Some(Command::Del) => del(store, args),
        None => refusal("invalid command"),
    }
}

} // verus!

//! What holds of the store, the dispatcher and the log, whatever the
//! requests are.

use crate::aof::{replay, Replayed};
use crate::command::{
    command_named, del_keys, del_state, key_of, reply_to, state_after, Command,
};
use crate::decode::{lemma_frame_advances, parse_frame, skip_blank, ProtocolError};
use crate::encode::{encode, encode_all};
use crate::round_trip::{
    holds_at, is_request, lemma_encode_all_concat, lemma_encode_all_one, lemma_frame_at,
};
use crate::store::State;
use crate::value::Value;
use vstd::prelude::*;

verus! {

/// A bulk string that holds `text`.
pub open spec fn text(text: Seq<char>) -> Value {
    Value::BulkString(Some(text))
}

/// The request that names a command and gives it `args`.
pub open spec fn request(name: Seq<char>, args: Seq<Value>) -> Value {
    Value::Array(seq![text(name)] + args)
}

/// The store after a sequence of requests, carried out in order.
pub open spec fn run(state: State, requests: Seq<Value>) -> State
    decreases requests.len(),
{
    if requests.len() == 0 {
        state
    } else {
        run(state_after(state, requests[0]), requests.skip(1))
    }
}

/// What a request, or a sequence of them, does to any store: the keys in
/// `touched` lose what they held, and then hold what `written` gives them.
pub ghost struct Effect {
    pub touched: Set<Seq<char>>,
    pub written: State,
}

impl Effect {
    /// The effect that changes nothing.
    pub open spec fn none() -> Effect {
        Effect { touched: Set::empty(), written: Map::empty() }
    }

    /// Whether only touched keys are written.
    pub open spec fn wf(self) -> bool {
        self.written.dom().subset_of(self.touched)
    }

    /// The store that this effect makes of `state`.
    pub open spec fn on(self, state: State) -> State {
        state.remove_keys(self.touched).union_prefer_right(self.written)
    }

    /// This effect followed by `next`.
    pub open spec fn followed_by(self, next: Effect) -> Effect {
        Effect {
            touched: self.touched + next.touched,
            written: self.written.remove_keys(next.touched).union_prefer_right(next.written),
        }
    }
}

/// The effect of a request: SET writes its key, DEL touches its keys, and
/// nothing else changes the store.
pub open spec fn effect_of(request: Value) -> Effect {
    match request {
        Value::Array(items) => {
            if items.len() > 0 && key_of(items[0]) is Some {
                let args = items.skip(1);
                match command_named(key_of(items[0])->0) {
                    Some(Command::Put) => {
                        if args.len() >= 2 && key_of(args[0]) is Some {
                            Effect {
                                touched: set![key_of(args[0])->0],
                                written: map![key_of(args[0])->0 => args[1]],
                            }
                        } else {
                            Effect::none()
                        }
                    },
                    Some(Command::Del) => Effect {
                        touched: del_keys(args),
                        written: Map::empty(),
                    },
                    _ => Effect::none(),
                }
            } else {
                Effect::none()
            }
        },
        _ => Effect::none(),
    }
}

/// The effect of the frames that replay reads from `pos` on.
pub open spec fn replay_effect(input: Seq<u8>, pos: int) -> Effect
    decreases input.len() - pos,
    via replay_effect_decreases
{
    match parse_frame(input, pos) {
        Ok((request, next)) => effect_of(request).followed_by(replay_effect(input, next)),
        Err(_) => Effect::none(),
    }
}

#[via_fn]
proof fn replay_effect_decreases(input: Seq<u8>, pos: int) {
    lemma_frame_advances(input, pos);
}

/// A request does to the store what its effect says.
pub proof fn lemma_effect_of(state: State, request: Value)
    ensures
        state_after(state, request) == effect_of(request).on(state),
        effect_of(request).wf(),
{
    let e = effect_of(request);
    assert(state_after(state, request) =~= e.on(state));
}

/// Two effects in a row are one effect.
pub proof fn lemma_followed_by(state: State, first: Effect, second: Effect)
    requires
        first.wf(),
        second.wf(),
    ensures
        second.on(first.on(state)) == first.followed_by(second).on(state),
        first.followed_by(second).wf(),
{
    assert(second.on(first.on(state)) =~= first.followed_by(second).on(state));
}

/// An effect that has been applied changes nothing when applied again.
pub proof fn lemma_effect_twice(state: State, effect: Effect)
    requires
        effect.wf(),
    ensures
        effect.on(effect.on(state)) == effect.on(state),
{
    assert(effect.on(effect.on(state)) =~= effect.on(state));
}

/// Replay does to the store what the effect of its frames says, and how it
/// ends does not depend on the store.
pub proof fn lemma_replay_effect(input: Seq<u8>, pos: int, state: State)
    ensures
        replay(input, pos, state).state == replay_effect(input, pos).on(state),
        replay_effect(input, pos).wf(),
        replay(input, pos, state).outcome == replay(input, pos, State::empty()).outcome,
        replay(input, pos, state).cursor == replay(input, pos, State::empty()).cursor,
    decreases input.len() - pos,
{
    lemma_frame_advances(input, pos);
    match parse_frame(input, pos) {
        Ok((request, next)) => {
            lemma_effect_of(state, request);
            lemma_effect_of(State::empty(), request);
            lemma_replay_effect(input, next, state_after(state, request));
            lemma_replay_effect(input, next, state_after(State::empty(), request));
            lemma_replay_effect(input, next, state);
            lemma_followed_by(state, effect_of(request), replay_effect(input, next));
        },
        Err(_) => {
            assert(Effect::none().on(state) =~= state);
        },
    }
}

/// Replaying a log twice in a row leaves the store that replaying it once
/// leaves, and ends the same way: a restart without new writes rebuilds
/// the same state.
pub proof fn lemma_replay_twice(input: Seq<u8>, state: State)
    ensures
        replay(input, 0, replay(input, 0, state).state).state == replay(input, 0, state).state,
        replay(input, 0, replay(input, 0, state).state).outcome == replay(
            input,
            0,
            state,
        ).outcome,
{
    let once = replay(input, 0, state).state;
    lemma_replay_effect(input, 0, state);
    lemma_replay_effect(input, 0, once);
    lemma_effect_twice(state, replay_effect(input, 0));
}

/// A log that holds requests as they were encoded, and nothing else,
/// replays to the end, and leaves the store that carrying out the requests
/// in order leaves.
pub proof fn lemma_replay_of_log(requests: Seq<Value>, state: State)
    requires
        forall|i: int| 0 <= i < requests.len() ==> is_request(#[trigger] requests[i]),
    ensures
        replay(encode_all(requests), 0, state) == (Replayed {
            outcome: Ok(()),
            state: run(state, requests),
            cursor: encode_all(requests).len() as int,
        }),
{
    let input = encode_all(requests);
    assert(input.subrange(0, input.len() as int) =~= input);
    lemma_replay_from(input, 0, requests, state);
}

/// Replay from a position behind which the input holds encoded requests
/// and nothing else.
proof fn lemma_replay_from(input: Seq<u8>, pos: int, requests: Seq<Value>, state: State)
    requires
        forall|i: int| 0 <= i < requests.len() ==> is_request(#[trigger] requests[i]),
        holds_at(input, pos, encode_all(requests)),
        pos + encode_all(requests).len() == input.len(),
    ensures
        replay(input, pos, state) == (Replayed {
            outcome: Ok(()),
            state: run(state, requests),
            cursor: input.len() as int,
        }),
    decreases requests.len(),
{
    if requests.len() == 0 {
        assert(encode_all(requests) =~= Seq::<u8>::empty());
        assert(skip_blank(input, pos) == pos);
        assert(parse_frame(input, pos) == Err::<(Value, int), ProtocolError>(
            ProtocolError::EndOfStream,
        ));
    } else {
        let first = requests[0];
        let rest = requests.skip(1);
        assert(requests =~= seq![first] + rest);
        lemma_encode_all_concat(seq![first], rest);
        lemma_encode_all_one(first);
        let whole = encode(first) + encode_all(rest);
        assert(input.subrange(pos, pos + encode(first).len()) =~= whole.subrange(
            0,
            encode(first).len() as int,
        ));
        assert(whole.subrange(0, encode(first).len() as int) =~= encode(first));
        assert(input.subrange(pos + encode(first).len(), input.len() as int) =~= whole.subrange(
            encode(first).len() as int,
            whole.len() as int,
        ));
        assert(whole.subrange(encode(first).len() as int, whole.len() as int) =~= encode_all(
            rest,
        ));
        assert(is_request(first));
        lemma_frame_at(input, pos, first);
        assert forall|i: int| 0 <= i < rest.len() implies is_request(#[trigger] rest[i]) by {
            assert(rest[i] == requests[i + 1]);
        }
        lemma_replay_from(input, pos + encode(first).len(), rest, state_after(state, first));
    }
}

/// GET after SET: whatever the store held, once SET has put `value` under
/// `key`, GET of `key` answers `value`.
pub proof fn lemma_get_after_set(
    state: State,
    set_name: Seq<char>,
    get_name: Seq<char>,
    key: Seq<char>,
    value: Value,
)
    requires
        command_named(set_name) == Some(Command::Put),
        command_named(get_name) == Some(Command::Get),
    ensures
        reply_to(
            state_after(state, request(set_name, seq![text(key), value])),
            request(get_name, seq![text(key)]),
        ) == value,
{
    let put = request(set_name, seq![text(key), value]);
    let get = request(get_name, seq![text(key)]);
    assert(put->Array_0.skip(1) =~= seq![text(key), value]);
    assert(get->Array_0.skip(1) =~= seq![text(key)]);
    assert(put->Array_0[0] == text(set_name));
    assert(get->Array_0[0] == text(get_name));
}

/// GET of a key that the store does not hold answers `Null`.
pub proof fn lemma_get_absent(state: State, get_name: Seq<char>, key: Seq<char>)
    requires
        command_named(get_name) == Some(Command::Get),
        !state.contains_key(key),
    ensures
        reply_to(state, request(get_name, seq![text(key)])) == Value::Null,
{
    let get = request(get_name, seq![text(key)]);
    assert(get->Array_0.skip(1) =~= seq![text(key)]);
    assert(get->Array_0[0] == text(get_name));
}

/// After DEL, the store holds none of the keys that were its arguments,
/// and holds every other key as before.
pub proof fn lemma_del_removes(state: State, del_name: Seq<char>, args: Seq<Value>)
    requires
        command_named(del_name) == Some(Command::Del),
    ensures
        forall|i: int|
            0 <= i < args.len() && key_of(#[trigger] args[i]) is Some ==> !state_after(
                state,
                request(del_name, args),
            ).contains_key(key_of(args[i])->0),
        forall|key: Seq<char>|
            !del_keys(args).contains(key) ==> (#[trigger] state_after(
                state,
                request(del_name, args),
            ).contains_key(key) == state.contains_key(key)),
{
    let del = request(del_name, args);
    assert(del->Array_0.skip(1) =~= args);
    assert(del->Array_0[0] == text(del_name));
    assert(state_after(state, del) == del_state(state, args));
    assert forall|i: int| 0 <= i < args.len() && key_of(#[trigger] args[i]) is Some implies del_keys(
        args,
    ).contains(key_of(args[i])->0) by {
        assert(args[i] == Value::BulkString(Some(key_of(args[i])->0)));
    }
}

/// DEL of a single key answers 1 if the store held the key, and 0 if not.
pub proof fn lemma_del_one(state: State, del_name: Seq<char>, key: Seq<char>)
    requires
        command_named(del_name) == Some(Command::Del),
    ensures
        reply_to(state, request(del_name, seq![text(key)])) == Value::Integer(
            if state.contains_key(key) {
                1i32
            } else {
                0i32
            },
        ),
{
    let args = seq![text(key)];
    let del = request(del_name, args);
    assert(del->Array_0.skip(1) =~= args);
    assert(del->Array_0[0] == text(del_name));
    assert(args[0] == text(key));
    assert(del_keys(args) =~= set![key]);
    if state.contains_key(key) {
        assert(del_keys(args).intersect(state.dom()) =~= set![key]);
    } else {
        assert(del_keys(args).intersect(state.dom()) =~= Set::<Seq<char>>::empty());
    }
}

/// A request leaves alone every key that it does not touch: the store
/// holds such a key afterwards if and only if it held it before, with the
/// same value.
pub proof fn lemma_untouched_key(state: State, request: Value, key: Seq<char>)
    requires
        !effect_of(request).touched.contains(key),
    ensures
        state_after(state, request).contains_key(key) == state.contains_key(key),
        state.contains_key(key) ==> state_after(state, request)[key] == state[key],
{
    lemma_effect_of(state, request);
}

/// A key that the store holds after a sequence of requests was there
/// before, or one of the requests is a SET that wrote it: from an empty
/// store, a key that was never set is not there.
pub proof fn lemma_never_set(state: State, requests: Seq<Value>, key: Seq<char>)
    requires
        run(state, requests).contains_key(key),
    ensures
        state.contains_key(key) || exists|i: int|
            0 <= i < requests.len() && (#[trigger] effect_of(requests[i])).written.contains_key(
                key,
            ),
    decreases requests.len(),
{
    if requests.len() > 0 {
        let next = state_after(state, requests[0]);
        let rest = requests.skip(1);
        lemma_never_set(next, rest, key);
        lemma_effect_of(state, requests[0]);
        if next.contains_key(key) {
            if !state.contains_key(key) {
                assert(effect_of(requests[0]).written.contains_key(key));
            }
        } else {
            let i = choose|i: int|
                0 <= i < rest.len() && (#[trigger] effect_of(rest[i])).written.contains_key(key);
            assert(rest[i] == requests[i + 1]);
            assert(effect_of(requests[i + 1]).written.contains_key(key));
        }
    }
}

/// Two requests that touch no key in common leave the same store in
/// either order.
pub proof fn lemma_disjoint_commute(state: State, a: Value, b: Value)
    requires
        effect_of(a).touched.disjoint(effect_of(b).touched),
    ensures
        state_after(state_after(state, a), b) == state_after(state_after(state, b), a),
{
    lemma_effect_of(state, a);
    lemma_effect_of(state, b);
    lemma_effect_of(state_after(state, a), b);
    lemma_effect_of(state_after(state, b), a);
    assert(effect_of(b).on(effect_of(a).on(state)) =~= effect_of(a).on(effect_of(b).on(state)));
}

} // verus!

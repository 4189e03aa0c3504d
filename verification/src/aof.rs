//! The append-only command log.
//!
//! The log is a run of request frames, back to back. At startup the frames
//! that are already there are replayed into the store; afterwards each
//! request that was answered without an error is appended. The log as a
//! value keeps what was found at startup, how far replay has read, and
//! what was appended since the last hand-over to stable storage.

use crate::command::{handle_resp, state_after};
use crate::decode::{lemma_frame_advances, parse_frame, read_resp, ProtocolError};
use crate::encode::{encode, marshal_into};
use crate::store::{State, Store};
use crate::value::RespValue;
use vstd::prelude::*;

verus! {

/// The model of the log.
pub ghost struct Log {
    /// The bytes that the log held when it was opened.
    pub stored: Seq<u8>,
    /// How far into `stored` replay has read.
    pub cursor: int,
    /// The bytes appended since the last `sync`.
    pub pending: Seq<u8>,
}

/// How a replay ends.
pub ghost struct Replayed {
    /// `Ok` if every frame up to the end of the log was read.
    pub outcome: Result<(), ProtocolError>,
    /// The store after the requests that were read.
    pub state: State,
    /// Where reading stopped.
    pub cursor: int,
}

/// Replay of the frames of `input` from `pos` on into a store that holds
/// `state`: each request that is read is carried out and its response
/// dropped. Replay ends well where the input ends between frames; any
/// other failure to read a frame ends it with that failure, at the start
/// of the frame, with the requests before it carried out.
pub open spec fn replay(input: Seq<u8>, pos: int, state: State) -> Replayed
    decreases input.len() - pos,
    via replay_decreases
{
    match parse_frame(input, pos) {
        Ok((request, next)) => replay(input, next, state_after(state, request)),
        Err(ProtocolError::EndOfStream) => Replayed {
            outcome: Ok(()),
            state,
            cursor: if pos <= input.len() {
                input.len() as int
            } else {
                pos
            },
        },
        Err(reason) => Replayed { outcome: Err(reason), state, cursor: pos },
    }
}

#[via_fn]
proof fn replay_decreases(input: Seq<u8>, pos: int, state: State) {
    lemma_frame_advances(input, pos);
}

/// The append-only log. Its model is a [`Log`].
pub struct Aof {
    stored: Vec<u8>,
    cursor: usize,
    pending: Vec<u8>,
}

impl View for Aof {
    type V = Log;

    closed spec fn view(&self) -> Log {
        Log { stored: self.stored@, cursor: self.cursor as int, pending: self.pending@ }
    }
}

impl Aof {
    /// The log that holds `stored`, with nothing replayed and nothing
    /// appended yet.
    pub fn new(stored: Vec<u8>) -> (log: Aof)
        ensures
            log@ == (Log { stored: stored@, cursor: 0, pending: Seq::empty() }),
    {
        Aof { stored, cursor: 0, pending: Vec::new() }
    }

    /// Replays the stored frames, from where replay last stopped, into
    /// `store`.
    pub fn read(&mut self, store: &mut Store) -> (outcome: Result<(), ProtocolError>)
        ensures
            outcome == replay(old(self)@.stored, old(self)@.cursor, old(store)@).outcome,
            final(store)@ == replay(old(self)@.stored, old(self)@.cursor, old(store)@).state,
            final(self)@ == (Log {
                cursor: replay(old(self)@.stored, old(self)@.cursor, old(store)@).cursor,
                ..old(self)@
            }),
    {
        loop
            invariant
                self.stored == old(self).stored,
                self.pending == old(self).pending,
                replay(old(self)@.stored, old(self)@.cursor, old(store)@) == replay(
                    self.stored@,
                    self.cursor as int,
                    store@,
                ),
            decreases self.stored.len() - self.cursor,
        {
            proof {
                lemma_frame_advances(self.stored@, self.cursor as int);
            }
            match read_resp(self.stored.as_slice(), self.cursor) {
                Ok((command, next)) => {
                    let _ = handle_resp(store, &command);
                    self.cursor = next;
                },
                Err(ProtocolError::EndOfStream) => {
                    if self.cursor <= self.stored.len() {
                        self.cursor = self.stored.len();
                    }
                    return Ok(());
                },
                Err(reason) => {
                    return Err(reason);
                },
            }
        }
    }

    /// Appends the wire form of `val` to the log.
    pub fn write(&mut self, val: &RespValue)
        ensures
            final(self)@ == (Log { pending: old(self)@.pending + encode(val@), ..old(self)@ }),
    {
        marshal_into(val, &mut self.pending);
    }

    /// Appends `command` to the log unless `response`, the answer it got,
    /// is an error: a request that was refused is not replayed later.
    pub fn record(&mut self, command: &RespValue, response: &RespValue)
        ensures
            final(self)@ == (Log {
                pending: if response@ is Error {
                    old(self)@.pending
                } else {
                    old(self)@.pending + encode(command@)
                },
                ..old(self)@
            }),
    {
        match response {
            RespValue::Error(_) => {},
            _ => {
                self.write(command);
            },
        }
    }

    /// Hands over the bytes appended since the last call, for the caller
    /// to put on stable storage, and keeps none of them.
    pub fn sync(&mut self) -> (bytes: Vec<u8>)
        ensures
            bytes@ == old(self)@.pending,
            final(self)@ == (Log { pending: Seq::empty(), ..old(self)@ }),
    {
        let mut bytes: Vec<u8> = Vec::new();
        bytes.append(&mut self.pending);
        assert(bytes@ =~= old(self)@.pending);
        bytes
    }
}

} // verus!

//! The proxy relay: for one accepted client connection, a strictly
//! alternating loop that decodes one value from the client, re-encodes and
//! forwards it unmodified to the server, then relays exactly one reply the
//! same way back. No pipelining, no reordering: the step machine here
//! refuses bytes arriving out of turn, and a decode failure tears the relay
//! down.
use crate::decoder::{spec_decode, DecodeError, Decoder};
use crate::encoder::{encode_one, encode_spec};
use vstd::prelude::*;

verus! {

/// Whose value the relay is waiting for next.
#[derive(PartialEq, Eq, Structural, Clone, Copy, Debug)]
pub enum RelaySide {
    Client,
    Server,
}

/// The other side of the connection.
pub open spec fn opposite(s: RelaySide) -> RelaySide {
    match s {
        RelaySide::Client => RelaySide::Server,
        RelaySide::Server => RelaySide::Client,
    }
}

/// Why a relay step was refused: bytes arrived out of turn, or they did not
/// decode as one complete value.
#[derive(Debug)]
pub enum RelayError {
    OutOfTurn,
    Decode(DecodeError),
}

/// The per-connection relay state: strictly alternating, starting with the
/// client's first request. Connections are independent and share nothing.
pub struct Relay {
    turn: RelaySide,
}

impl Relay {
    /// Whose value the relay awaits next.
    pub closed spec fn turn(&self) -> RelaySide {
        self.turn
    }

    /// A fresh relay awaits the client's first request.
    pub fn new() -> (r: Relay)
        ensures
            r.turn() == RelaySide::Client,
    {
        Relay { turn: RelaySide::Client }
    }

    /// Whose value the relay awaits next.
    pub fn awaiting(&self) -> (s: RelaySide)
        ensures
            s == self.turn(),
    {
        self.turn
    }

    /// Handles one complete value arriving from `side`: decodes exactly one
    /// value off the bytes, re-encodes it for forwarding to the opposite
    /// side, and passes the turn. Bytes out of turn are refused with the
    /// state unchanged; bytes that do not begin with one complete,
    /// well-formed value fail, terminating the relay.
    pub fn on_bytes(&mut self, side: RelaySide, bytes: &[u8]) -> (r: Result<
        Vec<u8>,
        RelayError,
    >)
        ensures
            match r {
                Ok(out) => side == old(self).turn() && final(self).turn() == opposite(side) && (
                spec_decode(bytes@) matches Some((m, rest)) && out@ == encode_spec(m)),
                Err(e) => *final(self) == *old(self) && match e {
                    RelayError::OutOfTurn => side != old(self).turn(),
                    RelayError::Decode(_) => side == old(self).turn() && spec_decode(bytes@)
                        is None,
                },
            },
    {
        if side != self.turn {
            return Err(RelayError::OutOfTurn);
        }
        let mut decoder = Decoder::new(vstd::slice::slice_to_vec(bytes));
        match decoder.decode_one() {
            Ok(v) => {
                let out = encode_one(v);
                self.turn = match side {
                    RelaySide::Client => RelaySide::Server,
                    RelaySide::Server => RelaySide::Client,
                };
                Ok(out)
            },
            Err(e) => Err(RelayError::Decode(e)),
        }
    }
}

} // verus!

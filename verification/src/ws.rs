use vstd::prelude::*;

use crate::types::HttpMethod;

verus! {

/// Lifecycle states of one WebSocket connection; `Closed` is terminal.
#[derive(Clone, Copy, PartialEq, Eq, Structural, Debug)]
pub enum WsState {
    Connecting,
    Open,
    Closing,
    Closed,
}

/// What the transport or the server reports to the session machine.
#[derive(Clone, Copy, PartialEq, Eq, Structural, Debug)]
pub enum WsEvent {
    /// The upgrade handshake completed.
    HandshakeOk,
    /// A data frame arrived.
    InboundFrame,
    /// The peer sent a close frame.
    InboundClose,
    /// The server decided to close the connection.
    ServerClose,
    /// The close handshake finished.
    CloseComplete,
    /// The close handshake timed out.
    CloseTimeout,
    /// The transport failed.
    TransportError,
}

/// What the machine asks the embedding to invoke in reaction to an event.
#[derive(Clone, Copy, PartialEq, Eq, Structural, Debug)]
pub enum WsAction {
    InvokeConnect,
    InvokeMessage,
    InvokeClose,
    NoAction,
}

/// The state the session moves to on an event. A transport error, and any
/// event the current state cannot accept, jumps straight to `Closed`; frames
/// that arrive while closing are dropped; `Closed` absorbs everything.
pub open spec fn ws_next_spec(s: WsState, e: WsEvent) -> WsState {
    match s {
        WsState::Connecting => match e {
            WsEvent::HandshakeOk => WsState::Open,
            _ => WsState::Closed,
        },
        WsState::Open => match e {
            WsEvent::InboundFrame => WsState::Open,
            WsEvent::InboundClose => WsState::Closing,
            WsEvent::ServerClose => WsState::Closing,
            _ => WsState::Closed,
        },
        WsState::Closing => match e {
            WsEvent::CloseComplete => WsState::Closed,
            WsEvent::CloseTimeout => WsState::Closed,
            WsEvent::TransportError => WsState::Closed,
            WsEvent::HandshakeOk => WsState::Closed,
            _ => WsState::Closing,
        },
        WsState::Closed => WsState::Closed,
    }
}

/// The callable the embedding must invoke for this transition: on-connect
/// when the session opens, on-message for each frame while open, and
/// on-close exactly when the session first reaches `Closed`.
pub open spec fn ws_action_spec(s: WsState, e: WsEvent) -> WsAction {
    if s != WsState::Closed && ws_next_spec(s, e) == WsState::Closed {
        WsAction::InvokeClose
    } else if s == WsState::Connecting && e == WsEvent::HandshakeOk {
        WsAction::InvokeConnect
    } else if s == WsState::Open && e == WsEvent::InboundFrame {
        WsAction::InvokeMessage
    } else {
        WsAction::NoAction
    }
}

/// `Closed` is terminal: no event leaves it.
pub proof fn lemma_closed_terminal(e: WsEvent)
    ensures
        ws_next_spec(WsState::Closed, e) == WsState::Closed,
        ws_action_spec(WsState::Closed, e) == WsAction::NoAction,
{
}

/// The state a fresh connection is in after a sequence of events.
pub open spec fn ws_run(events: Seq<WsEvent>) -> WsState
    decreases events.len(),
{
    if events.len() == 0 {
        WsState::Connecting
    } else {
        ws_next_spec(ws_run(events.drop_last()), events.last())
    }
}

/// How many of the transitions along a sequence of events asked for the
/// on-close callable.
pub open spec fn close_count(events: Seq<WsEvent>) -> int
    decreases events.len(),
{
    if events.len() == 0 {
        0
    } else {
        close_count(events.drop_last()) + if ws_action_spec(
            ws_run(events.drop_last()),
            events.last(),
        ) == WsAction::InvokeClose {
            1int
        } else {
            0int
        }
    }
}

/// On-close is asked for exactly once on every path that reaches `Closed` —
/// graceful, peer-initiated or failed — and never before.
pub proof fn theorem_close_exactly_once(events: Seq<WsEvent>)
    ensures
        close_count(events) == if ws_run(events) == WsState::Closed {
            1int
        } else {
            0int
        },
    decreases events.len(),
{
    if events.len() > 0 {
        theorem_close_exactly_once(events.drop_last());
    }
}

/// One live WebSocket session: its current state, with the record of how
/// often on-close was requested.
pub struct WsSession {
    pub state: WsState,
    pub close_calls: u64,
    pub history: Ghost<Seq<WsEvent>>,
}

impl WsSession {
    /// The session's state and close count are exactly what its recorded
    /// events produce.
    pub open spec fn wf(self) -> bool {
        &&& self.state == ws_run(self.history@)
        &&& self.close_calls as int == close_count(self.history@)
    }

    /// A session for a connection whose upgrade was just accepted.
    pub fn new() -> (r: WsSession)
        ensures
            r.wf(),
            r.state == WsState::Connecting,
            r.close_calls == 0,
            r.history@ == Seq::<WsEvent>::empty(),
    {
        WsSession { state: WsState::Connecting, close_calls: 0, history: Ghost(Seq::empty()) }
    }

    /// Feeds one event to the session; returns which callable the embedding
    /// must now invoke. The session moves as `ws_next_spec` says, and the
    /// close count grows exactly on the transition into `Closed`.
    pub fn on_event(&mut self, e: WsEvent) -> (a: WsAction)
        requires
            old(self).wf(),
        ensures
            final(self).wf(),
            final(self).history@ == old(self).history@.push(e),
            final(self).state == ws_next_spec(old(self).state, e),
            a == ws_action_spec(old(self).state, e),
            final(self).close_calls == old(self).close_calls + if a == WsAction::InvokeClose {
                1u64
            } else {
                0u64
            },
    {
        proof {
            theorem_close_exactly_once(old(self).history@);
            let h2 = old(self).history@.push(e);
            assert(h2.drop_last() =~= old(self).history@);
        }
        let next = match self.state {
            WsState::Connecting => match e {
                WsEvent::HandshakeOk => WsState::Open,
                _ => WsState::Closed,
            },
            WsState::Open => match e {
                WsEvent::InboundFrame => WsState::Open,
                WsEvent::InboundClose => WsState::Closing,
                WsEvent::ServerClose => WsState::Closing,
                _ => WsState::Closed,
            },
            WsState::Closing => match e {
                WsEvent::CloseComplete => WsState::Closed,
                WsEvent::CloseTimeout => WsState::Closed,
                WsEvent::TransportError => WsState::Closed,
                WsEvent::HandshakeOk => WsState::Closed,
                _ => WsState::Closing,
            },
            WsState::Closed => WsState::Closed,
        };
        let a: WsAction;
        if !matches!(self.state, WsState::Closed) && matches!(next, WsState::Closed) {
            a = WsAction::InvokeClose;
            self.close_calls = self.close_calls + 1;
        } else if matches!(self.state, WsState::Connecting) && matches!(e, WsEvent::HandshakeOk) {
            a = WsAction::InvokeConnect;
        } else if matches!(self.state, WsState::Open) && matches!(e, WsEvent::InboundFrame) {
            a = WsAction::InvokeMessage;
        } else {
            a = WsAction::NoAction;
        }
        self.state = next;
        proof {
            self.history@ = old(self).history@.push(e);
        }
        a
    }
}

/// ASCII lowering of one byte.
pub open spec fn lower_byte(b: u8) -> u8 {
    if 65 <= b && b <= 90 {
        (b + 32) as u8
    } else {
        b
    }
}

pub open spec fn lower_bytes(s: Seq<u8>) -> Seq<u8> {
    s.map_values(|b: u8| lower_byte(b))
}

/// The token an upgrade request must name, already lowered: `websocket`.
pub open spec fn websocket_token() -> Seq<u8> {
    seq![119u8, 101u8, 98u8, 115u8, 111u8, 99u8, 107u8, 101u8, 116u8]
}

/// The protocol version this machine speaks: `13`.
pub open spec fn version_token() -> Seq<u8> {
    seq![49u8, 51u8]
}

/// When an upgrade request is accepted: a GET whose `Upgrade` header names
/// `websocket` in any letter case, whose `Sec-WebSocket-Version` is exactly
/// `13`, and which carries a `Sec-WebSocket-Key`.
pub open spec fn handshake_ok_spec(
    method: HttpMethod,
    upgrade: Option<Seq<u8>>,
    version: Option<Seq<u8>>,
    has_key: bool,
) -> bool {
    &&& method == HttpMethod::Get
    &&& match upgrade {
        Some(u) => lower_bytes(u) == websocket_token(),
        None => false,
    }
    &&& match version {
        Some(v) => v == version_token(),
        None => false,
    }
    &&& has_key
}

/// Lowers a byte string's ASCII letters.
pub fn to_lower(s: &Vec<u8>) -> (out: Vec<u8>)
    ensures
        out@ == lower_bytes(s@),
{
    let mut out: Vec<u8> = Vec::new();
    let mut k: usize = 0;
    while k < s.len()
        invariant
            k <= s.len(),
            out@.len() == k,
            forall|i: int| 0 <= i < k ==> out@[i] == lower_byte(s@[i]),
        decreases s.len() - k,
    {
        let b = s[k];
        if 65 <= b && b <= 90 {
            out.push(b + 32);
        } else {
            out.push(b);
        }
        k = k + 1;
    }
    proof {
        assert(out@ =~= lower_bytes(s@));
    }
    out
}

/// Decides the upgrade handshake from the request's plain values: the
/// method, the `Upgrade` and `Sec-WebSocket-Version` header values if
/// present, and whether a `Sec-WebSocket-Key` came with them. What the
/// decision means is exactly `handshake_ok_spec`; computing the accept
/// digest for the response is the transport layer's part.
pub fn handshake_ok(
    method: HttpMethod,
    upgrade: Option<&Vec<u8>>,
    version: Option<&Vec<u8>>,
    has_key: bool,
) -> (r: bool)
    ensures
        r <==> handshake_ok_spec(
            method,
            match upgrade {
                Some(u) => Some(u@),
                None => None,
            },
            match version {
                Some(v) => Some(v@),
                None => None,
            },
            has_key,
        ),
{
    if !matches!(method, HttpMethod::Get) || !has_key {
        return false;
    }
    let u = match upgrade {
        Some(u) => u,
        None => {
            return false;
        },
    };
    let v = match version {
        Some(v) => v,
        None => {
            return false;
        },
    };
    let lu = to_lower(u);
    let upgrade_named = lu.len() == 9 && lu[0] == 119 && lu[1] == 101 && lu[2] == 98 && lu[3]
        == 115 && lu[4] == 111 && lu[5] == 99 && lu[6] == 107 && lu[7] == 101 && lu[8] == 116;
    let version_named = v.len() == 2 && v[0] == 49 && v[1] == 51;
    proof {
        if upgrade_named {
            assert(lu@ =~= websocket_token());
        }
        if version_named {
            assert(v@ =~= version_token());
        }
    }
    upgrade_named && version_named
}

} // verus!

//! The lifecycle notifications a server emits, and how each is described.

use crate::ident::{hyphenated, lemma_hyphenated_is_one_line, ConnectionId};
use crate::text::{
    decimal, is_one_line, lemma_decimal_is_one_line, one_line, render_count, single_line,
};
use vstd::prelude::*;
use vstd::string::to_string_from_display_ensures;

verus! {

/// A payload with its destination; no destination means every connected
/// peer.
pub type Sending = (Vec<u8>, Option<ConnectionId>);

/// What a transport's own error type must offer to travel in events and in
/// the results of commands: it outlives any borrow, can be duplicated, can
/// cross threads, and can be shown as a message. The trait adds no
/// operation of its own.
pub trait Error: 'static + core::fmt::Debug + core::fmt::Display + Clone + Sync + Send {

}

/// Everything a server tells its consumer.
#[derive(Clone, Debug)]
pub enum Events<E: Error> {
    /// The server has begun to accept connections.
    Ready,
    /// The server has stopped for good.
    Shutdown,
    /// A connection was accepted under this identifier.
    Connected(ConnectionId),
    /// The connection has closed or was closed.
    Disconnected(ConnectionId),
    /// Bytes read from the connection, as they arrived.
    Received(ConnectionId, Vec<u8>),
    /// A non-fatal error the transport noticed, perhaps on one connection.
    Error(Option<ConnectionId>, String),
    /// A typed error of one connection, or of an attempt that never became one.
    ConnectionError(Option<ConnectionId>, E),
    /// A typed error of the server as a whole.
    ServerError(E),
}

/// How an optional identifier is shown: `None`, or the identifier in full
/// inside `Some(..)`.
pub open spec fn scope_text(scope: Option<ConnectionId>) -> Seq<char> {
    match scope {
        Some(id) => "Some("@ + hyphenated(id.value()) + ")"@,
        None => "None"@,
    }
}

/// Shows an optional identifier.
fn render_scope(scope: &Option<ConnectionId>) -> (out: String)
    ensures
        out@ == scope_text(*scope),
{
    match scope {
        Some(id) => {
            let mut out = String::from_str("Some(");
            let shown = id.to_text();
            out.append(shown.as_str());
            out.append(")");
            out
        },
        None => String::from_str("None"),
    }
}

impl<E: Error> Events<E> {
    /// The identifier of the connection that the event speaks of, if it
    /// speaks of one.
    pub open spec fn bearer(self) -> Option<ConnectionId> {
        match self {
            Events::Connected(id) => Some(id),
            Events::Disconnected(id) => Some(id),
            Events::Received(id, _) => Some(id),
            Events::Error(scope, _) => scope,
            Events::ConnectionError(scope, _) => scope,
            Events::Ready | Events::Shutdown | Events::ServerError(_) => None,
        }
    }

    /// Whether the event carries a typed error of the transport.
    pub open spec fn carries_error(self) -> bool {
        self is ConnectionError || self is ServerError
    }

    /// The one-line description of the event, given the message of the typed
    /// error it carries (ignored by the events that carry none). Identifiers
    /// are shown in full; received bytes only by their number; a note or a
    /// message is brought onto one line, with a space for each line break.
    pub open spec fn text(self, message: Seq<char>) -> Seq<char> {
        match self {
            Events::Ready => "Ready"@,
            Events::Shutdown => "Shutdown"@,
            Events::Connected(id) => "Connected("@ + hyphenated(id.value()) + ")"@,
            Events::Disconnected(id) => "Disconnected("@ + hyphenated(id.value()) + ")"@,
            Events::Received(id, bytes) => "Received("@ + hyphenated(id.value()) + ", "@ + decimal(
                bytes@.len(),
            ) + " bytes)"@,
            Events::Error(scope, note) => "Error("@ + scope_text(scope) + "): "@ + one_line(note@),
            Events::ConnectionError(scope, _) => "ConnectionError("@ + scope_text(scope) + "): "@
                + one_line(message),
            Events::ServerError(_) => "ServerError("@ + one_line(message) + ")"@,
        }
    }

    /// The connection that the event speaks of, if it speaks of one.
    pub fn connection(&self) -> (scope: Option<ConnectionId>)
        ensures
            scope == self.bearer(),
    {
        match self {
            Events::Connected(id) => Some(*id),
            Events::Disconnected(id) => Some(*id),
            Events::Received(id, _) => Some(*id),
            Events::Error(scope, _) => *scope,
            Events::ConnectionError(scope, _) => *scope,
            Events::Ready => None,
            Events::Shutdown => None,
            Events::ServerError(_) => None,
        }
    }

    /// Describes the event around a message that the caller has already
    /// obtained from the typed error, if the event carries one.
    pub fn describe_with(&self, message: &str) -> (out: String)
        ensures
            out@ == self.text(message@),
            is_one_line(out@),
    {
        proof {
            self.lemma_text_is_one_line(message@);
        }
        match self {
            Events::Ready => String::from_str("Ready"),
            Events::Shutdown => String::from_str("Shutdown"),
            Events::Connected(id) => {
                let mut out = String::from_str("Connected(");
                let shown = id.to_text();
                out.append(shown.as_str());
                out.append(")");
                out
            },
            Events::Disconnected(id) => {
                let mut out = String::from_str("Disconnected(");
                let shown = id.to_text();
                out.append(shown.as_str());
                out.append(")");
                out
            },
            Events::Received(id, bytes) => {
                let mut out = String::from_str("Received(");
                let shown = id.to_text();
                out.append(shown.as_str());
                out.append(", ");
                let count = render_count(bytes.len());
                out.append(count.as_str());
                out.append(" bytes)");
                out
            },
            Events::Error(scope, note) => {
                let mut out = String::from_str("Error(");
                let shown = render_scope(scope);
                out.append(shown.as_str());
                out.append("): ");
                let told = single_line(note.as_str());
                out.append(told.as_str());
                out
            },
            Events::ConnectionError(scope, _) => {
                let mut out = String::from_str("ConnectionError(");
                let shown = render_scope(scope);
                out.append(shown.as_str());
                out.append("): ");
                let told = single_line(message);
                out.append(told.as_str());
                out
            },
            Events::ServerError(_) => {
                let mut out = String::from_str("ServerError(");
                let told = single_line(message);
                out.append(told.as_str());
                out.append(")");
                out
            },
        }
    }

    /// Describes the event on one line. A typed error is shown by the
    /// message that its `Display` gives, brought onto one line.
    pub fn describe(&self) -> (out: String)
        ensures
            is_one_line(out@),
            !self.carries_error() ==> out@ == self.text(Seq::empty()),
            self matches Events::ConnectionError(_, err) ==> exists|message: String|
                to_string_from_display_ensures::<E>(&err, message) && out@ == self.text(message@),
            self matches Events::ServerError(err) ==> exists|message: String|
                to_string_from_display_ensures::<E>(&err, message) && out@ == self.text(message@),
    {
        match self {
            Events::ConnectionError(_, err) => {
                let message = err.to_string();
                self.describe_with(message.as_str())
            },
            Events::ServerError(err) => {
                let message = err.to_string();
                self.describe_with(message.as_str())
            },
            _ => self.describe_with(""),
        }
    }

    /// A description stays on one line, whatever the note or the message
    /// holds.
    pub proof fn lemma_text_is_one_line(self, message: Seq<char>)
        ensures
            is_one_line(self.text(message)),
    {
        reveal_strlit("Ready");
        reveal_strlit("Shutdown");
        reveal_strlit("Connected(");
        reveal_strlit("Disconnected(");
        reveal_strlit("Received(");
        reveal_strlit("Error(");
        reveal_strlit("ConnectionError(");
        reveal_strlit("ServerError(");
        reveal_strlit("Some(");
        reveal_strlit("None");
        reveal_strlit(", ");
        reveal_strlit(" bytes)");
        reveal_strlit("): ");
        reveal_strlit(")");
        match self {
            Events::Connected(id) => {
                lemma_hyphenated_is_one_line(id.value());
            },
            Events::Disconnected(id) => {
                lemma_hyphenated_is_one_line(id.value());
            },
            Events::Received(id, bytes) => {
                lemma_hyphenated_is_one_line(id.value());
                lemma_decimal_is_one_line(bytes@.len());
            },
            Events::Error(scope, _) => {
                if let Some(id) = scope {
                    lemma_hyphenated_is_one_line(id.value());
                }
            },
            Events::ConnectionError(scope, _) => {
                if let Some(id) = scope {
                    lemma_hyphenated_is_one_line(id.value());
                }
            },
            _ => {},
        }
    }

    /// A description never shows received bytes, only how many they are:
    /// two `Received` events of one connection with payloads of one length
    /// are described alike.
    pub proof fn lemma_payload_not_shown(
        id: ConnectionId,
        one: Vec<u8>,
        other: Vec<u8>,
        message: Seq<char>,
    )
        requires
            one@.len() == other@.len(),
        ensures
            Events::<E>::Received(id, one).text(message) == Events::<E>::Received(id, other).text(
                message,
            ),
    {
    }
}

} // verus!

use transport_server::{ConnectionId, Error, Events};

#[derive(Clone, Debug, PartialEq)]
struct Broken(&'static str);

impl std::fmt::Display for Broken {
    fn fmt(&self, f: &mut std::fmt::Formatter<'_>) -> std::fmt::Result {
        f.write_str(self.0)
    }
}

impl std::error::Error for Broken {}

impl Error for Broken {}

const SAMPLE: u128 = 0xa1a2a3a4b1b2c1c2d1d2d3d4d5d6d7d8;
const SAMPLE_TEXT: &str = "a1a2a3a4-b1b2-c1c2-d1d2-d3d4d5d6d7d8";

#[test]
fn identifier_is_shown_hyphenated_in_lower_case() {
    assert_eq!(ConnectionId::from_u128(SAMPLE).to_text(), SAMPLE_TEXT);
    assert_eq!(
        ConnectionId::from_u128(0).to_text(),
        "00000000-0000-0000-0000-000000000000"
    );
    assert_eq!(
        ConnectionId::from_u128(u128::MAX).to_text(),
        "ffffffff-ffff-ffff-ffff-ffffffffffff"
    );
    assert_eq!(
        ConnectionId::from_u128(0x0123456789abcdef0fedcba987654321).to_text(),
        "01234567-89ab-cdef-0fed-cba987654321"
    );
}

#[test]
fn identifier_matches_the_uuid_crate() {
    let bits: u128 = 0x6ba7b8109dad11d180b400c04fd430c8;
    let theirs = uuid::Uuid::from_u128(bits);
    assert_eq!(ConnectionId::from_u128(bits).to_text(), theirs.to_string());
    assert_eq!(ConnectionId::from_u128(theirs.as_u128()).as_u128(), bits);
}

#[test]
fn identifier_keeps_its_bits() {
    assert_eq!(ConnectionId::from_u128(SAMPLE).as_u128(), SAMPLE);
    assert_eq!(ConnectionId::from_u128(7), ConnectionId::from_u128(7));
    assert_ne!(ConnectionId::from_u128(7), ConnectionId::from_u128(8));
}

#[test]
fn ready_and_shutdown_are_shown_by_name() {
    assert_eq!(Events::<Broken>::Ready.describe(), "Ready");
    assert_eq!(Events::<Broken>::Shutdown.describe(), "Shutdown");
}

#[test]
fn connected_and_disconnected_show_the_identifier_in_full() {
    let id = ConnectionId::from_u128(SAMPLE);
    assert_eq!(
        Events::<Broken>::Connected(id).describe(),
        format!("Connected({})", SAMPLE_TEXT)
    );
    assert_eq!(
        Events::<Broken>::Disconnected(id).describe(),
        "Disconnected(a1a2a3a4-b1b2-c1c2-d1d2-d3d4d5d6d7d8)"
    );
}

#[test]
fn received_shows_the_length_and_not_the_bytes() {
    let id = ConnectionId::from_u128(SAMPLE);
    assert_eq!(
        Events::<Broken>::Received(id, b"ping".to_vec()).describe(),
        "Received(a1a2a3a4-b1b2-c1c2-d1d2-d3d4d5d6d7d8, 4 bytes)"
    );
    assert_eq!(
        Events::<Broken>::Received(id, Vec::new()).describe(),
        "Received(a1a2a3a4-b1b2-c1c2-d1d2-d3d4d5d6d7d8, 0 bytes)"
    );
    assert_eq!(
        Events::<Broken>::Received(id, vec![0x41; 1205]).describe(),
        "Received(a1a2a3a4-b1b2-c1c2-d1d2-d3d4d5d6d7d8, 1205 bytes)"
    );
    assert_eq!(
        Events::<Broken>::Received(id, b"secret".to_vec()).describe(),
        Events::<Broken>::Received(id, b"public".to_vec()).describe()
    );
}

#[test]
fn error_shows_its_scope_and_its_message() {
    let id = ConnectionId::from_u128(SAMPLE);
    assert_eq!(
        Events::<Broken>::Error(Some(id), String::from("reset by peer")).describe(),
        "Error(Some(a1a2a3a4-b1b2-c1c2-d1d2-d3d4d5d6d7d8)): reset by peer"
    );
    assert_eq!(
        Events::<Broken>::Error(None, String::from("accept failed")).describe(),
        "Error(None): accept failed"
    );
}

#[test]
fn typed_errors_are_shown_by_their_display() {
    let id = ConnectionId::from_u128(SAMPLE);
    assert_eq!(
        Events::ConnectionError(Some(id), Broken("handshake")).describe(),
        "ConnectionError(Some(a1a2a3a4-b1b2-c1c2-d1d2-d3d4d5d6d7d8)): handshake"
    );
    assert_eq!(
        Events::ConnectionError(None, Broken("handshake")).describe(),
        "ConnectionError(None): handshake"
    );
    assert_eq!(
        Events::ServerError(Broken("bind")).describe(),
        "ServerError(bind)"
    );
}

#[test]
fn describe_with_places_the_given_message() {
    let id = ConnectionId::from_u128(1);
    assert_eq!(
        Events::ServerError(Broken("ignored")).describe_with("given"),
        "ServerError(given)"
    );
    assert_eq!(
        Events::ConnectionError(Some(id), Broken("ignored")).describe_with("given"),
        "ConnectionError(Some(00000000-0000-0000-0000-000000000001)): given"
    );
    assert_eq!(
        Events::<Broken>::Connected(id).describe_with("given"),
        "Connected(00000000-0000-0000-0000-000000000001)"
    );
}

#[test]
fn describe_matches_the_formatting_of_the_standard_library() {
    let theirs = uuid::Uuid::from_u128(SAMPLE);
    let id = ConnectionId::from_u128(SAMPLE);
    assert_eq!(
        Events::<Broken>::Error(Some(id), String::from("x")).describe(),
        format!("Error({:?}): {}", Some(theirs), "x")
    );
    assert_eq!(
        Events::<Broken>::Received(id, vec![0; 18446]).describe(),
        format!("Received({}, {} bytes)", theirs, 18446)
    );
}

#[test]
fn connection_is_the_identifier_an_event_bears() {
    let id = ConnectionId::from_u128(SAMPLE);
    assert_eq!(Events::<Broken>::Ready.connection(), None);
    assert_eq!(Events::<Broken>::Shutdown.connection(), None);
    assert_eq!(Events::<Broken>::Connected(id).connection(), Some(id));
    assert_eq!(Events::<Broken>::Disconnected(id).connection(), Some(id));
    assert_eq!(Events::<Broken>::Received(id, vec![1]).connection(), Some(id));
    assert_eq!(Events::<Broken>::Error(Some(id), String::new()).connection(), Some(id));
    assert_eq!(Events::<Broken>::Error(None, String::new()).connection(), None);
    assert_eq!(Events::ConnectionError(Some(id), Broken("x")).connection(), Some(id));
    assert_eq!(Events::ConnectionError(None, Broken("x")).connection(), None);
    assert_eq!(Events::ServerError(Broken("x")).connection(), None);
}

#[test]
fn a_note_with_line_breaks_is_described_on_one_line() {
    let id = ConnectionId::from_u128(SAMPLE);
    assert_eq!(
        Events::<Broken>::Error(None, String::from("first\nsecond\r\nthird\r")).describe(),
        "Error(None): first second  third "
    );
    assert_eq!(
        Events::<Broken>::Error(Some(id), String::from("\n")).describe(),
        "Error(Some(a1a2a3a4-b1b2-c1c2-d1d2-d3d4d5d6d7d8)):  "
    );
}

#[test]
fn a_typed_error_with_line_breaks_is_described_on_one_line() {
    assert_eq!(
        Events::ServerError(Broken("bind failed\ncaused by: in use")).describe(),
        "ServerError(bind failed caused by: in use)"
    );
    assert_eq!(
        Events::ConnectionError(None, Broken("reset\r\n")).describe(),
        "ConnectionError(None): reset  "
    );
    assert_eq!(
        Events::ServerError(Broken("ignored")).describe_with("one\rtwo"),
        "ServerError(one two)"
    );
}

#[test]
fn no_description_holds_a_line_break() {
    let id = ConnectionId::from_u128(SAMPLE);
    let events = vec![
        Events::Ready,
        Events::Shutdown,
        Events::Connected(id),
        Events::Disconnected(id),
        Events::Received(id, b"a\nb\rc".to_vec()),
        Events::Error(Some(id), String::from("a\nb\rc")),
        Events::ConnectionError(Some(id), Broken("a\nb\rc")),
        Events::ServerError(Broken("\r\n\r\n")),
    ];
    for event in &events {
        let line = event.describe();
        assert!(!line.contains('\n'));
        assert!(!line.contains('\r'));
        let line = event.describe_with("x\ny");
        assert!(!line.contains('\n'));
        assert!(!line.contains('\r'));
    }
}

#[test]
fn other_characters_of_a_message_are_kept() {
    assert_eq!(
        Events::<Broken>::Error(None, String::from("tab\there, caf\u{e9} \u{1f980}")).describe(),
        "Error(None): tab\there, caf\u{e9} \u{1f980}"
    );
    assert_eq!(
        Events::ServerError(Broken("r\u{e9}seau\nco\u{fb} \u{4e2d}")).describe(),
        "ServerError(r\u{e9}seau co\u{fb} \u{4e2d})"
    );
}

#[test]
fn different_identifiers_are_shown_differently() {
    let one = ConnectionId::from_u128(1);
    let other = ConnectionId::from_u128(1 << 64);
    assert_ne!(one.to_text(), other.to_text());
    assert_eq!(other.to_text(), "00000000-0000-0001-0000-000000000000");
}

use copernica::address::{bloom_filter_index, HBFI};
use copernica::echo::{
    Echo, EchoAction, EchoError, EchoMode, Ping, ECHO, RELIABLE_ORDERED_ECHO,
    RELIABLE_SEQUENCED_ECHO, UNRELIABLE_SEQUENCED_ECHO,
};
use copernica::packet::NarrowWaistPacket;

fn service() -> Echo {
    Echo::new("echo service".to_string(), "alice")
}

fn asked(arg: &str, frm: u64) -> HBFI {
    HBFI::new("alice", "echo", "echo", "echo", arg).offset(frm)
}

fn encoded(text: &str) -> Vec<u8> {
    let mut bytes = (text.len() as u64).to_le_bytes().to_vec();
    bytes.extend_from_slice(text.as_bytes());
    bytes
}

#[test]
fn frames_spell_pingpong_and_then_pang() {
    let letters: Vec<&str> = (0..8).map(Echo::frame).collect();
    assert_eq!(letters, vec!["p", "i", "n", "g", "p", "o", "n", "g"]);
    assert_eq!(Echo::frame(8), "pang");
    assert_eq!(Echo::frame(u64::MAX), "pang");
}

#[test]
fn modes_have_their_names() {
    assert_eq!(EchoMode::UnreliableSequenced.name(), "unreliable_sequenced_echo");
    assert_eq!(EchoMode::ReliableOrdered.name(), "reliable_ordered_echo");
    assert_eq!(EchoMode::ReliableSequenced.name(), "reliable_sequenced_echo");
    assert_eq!(ECHO, "echo");
}

#[test]
fn argument_fragments_name_the_modes() {
    assert_eq!(
        Echo::mode_of(bloom_filter_index(UNRELIABLE_SEQUENCED_ECHO)),
        Some(EchoMode::UnreliableSequenced)
    );
    assert_eq!(
        Echo::mode_of(bloom_filter_index(RELIABLE_ORDERED_ECHO)),
        Some(EchoMode::ReliableOrdered)
    );
    assert_eq!(
        Echo::mode_of(bloom_filter_index(RELIABLE_SEQUENCED_ECHO)),
        Some(EchoMode::ReliableSequenced)
    );
    assert_eq!(Echo::mode_of(bloom_filter_index("echo")), None);
    assert_eq!(Echo::mode_of(0), None);
}

#[test]
fn service_keeps_its_label() {
    assert_eq!(service().get_label(), "echo service");
}

#[test]
fn request_for_a_frame_is_answered_with_its_encoded_text() {
    let hbfi = asked(UNRELIABLE_SEQUENCED_ECHO, 0);
    let action = service().on_packet(&NarrowWaistPacket::Request { hbfi });
    assert_eq!(
        action,
        EchoAction::Respond { hbfi, data: vec![1, 0, 0, 0, 0, 0, 0, 0, b'p'] }
    );
    let hbfi = asked(RELIABLE_ORDERED_ECHO, 5);
    let action = service().on_packet(&NarrowWaistPacket::Request { hbfi });
    assert_eq!(action, EchoAction::Respond { hbfi, data: encoded("o") });
}

#[test]
fn request_beyond_the_last_frame_is_answered_with_pang() {
    let hbfi = asked(RELIABLE_SEQUENCED_ECHO, 8);
    let action = service().on_packet(&NarrowWaistPacket::Request { hbfi });
    assert_eq!(
        action,
        EchoAction::Respond { hbfi, data: vec![4, 0, 0, 0, 0, 0, 0, 0, b'p', b'a', b'n', b'g'] }
    );
}

#[test]
fn request_for_somebody_else_is_ignored() {
    let hbfi = HBFI::new("bob", "echo", "echo", "echo", UNRELIABLE_SEQUENCED_ECHO);
    assert_eq!(service().on_packet(&NarrowWaistPacket::Request { hbfi }), EchoAction::Ignore);
}

#[test]
fn request_for_another_service_or_mode_is_ignored() {
    let other = HBFI::new("alice", "chat", "echo", "echo", UNRELIABLE_SEQUENCED_ECHO);
    assert_eq!(service().on_packet(&NarrowWaistPacket::Request { hbfi: other }), EchoAction::Ignore);
    let other = HBFI::new("alice", "echo", "chat", "echo", UNRELIABLE_SEQUENCED_ECHO);
    assert_eq!(service().on_packet(&NarrowWaistPacket::Request { hbfi: other }), EchoAction::Ignore);
    let other = HBFI::new("alice", "echo", "echo", "chat", UNRELIABLE_SEQUENCED_ECHO);
    assert_eq!(service().on_packet(&NarrowWaistPacket::Request { hbfi: other }), EchoAction::Ignore);
    let other = asked("whisper", 0);
    assert_eq!(service().on_packet(&NarrowWaistPacket::Request { hbfi: other }), EchoAction::Ignore);
}

#[test]
fn reply_is_delivered_by_mode_whoever_it_is_from() {
    let hbfi = HBFI::new("bob", "echo", "echo", "echo", RELIABLE_ORDERED_ECHO).offset(3);
    let reply = NarrowWaistPacket::Response { hbfi, data: encoded("g") };
    assert_eq!(
        service().on_packet(&reply),
        EchoAction::Deliver { mode: EchoMode::ReliableOrdered }
    );
    let hbfi = asked(UNRELIABLE_SEQUENCED_ECHO, 0);
    let reply = NarrowWaistPacket::Response { hbfi, data: Vec::new() };
    assert_eq!(
        service().on_packet(&reply),
        EchoAction::Deliver { mode: EchoMode::UnreliableSequenced }
    );
    let hbfi = asked(RELIABLE_SEQUENCED_ECHO, 0);
    let reply = NarrowWaistPacket::Response { hbfi, data: Vec::new() };
    assert_eq!(
        service().on_packet(&reply),
        EchoAction::Deliver { mode: EchoMode::ReliableSequenced }
    );
}

#[test]
fn reply_of_another_service_or_mode_is_ignored() {
    let hbfi = HBFI::new("alice", "chat", "echo", "echo", RELIABLE_ORDERED_ECHO);
    let reply = NarrowWaistPacket::Response { hbfi, data: Vec::new() };
    assert_eq!(service().on_packet(&reply), EchoAction::Ignore);
    let reply = NarrowWaistPacket::Response { hbfi: asked("whisper", 0), data: Vec::new() };
    assert_eq!(service().on_packet(&reply), EchoAction::Ignore);
}

fn expected_ping(mode: EchoMode, sealed: bool) -> Ping {
    Ping {
        hbfi: HBFI::new("bob", "echo", "echo", "echo", mode.name()),
        mode,
        sealed,
        first: 0,
        last: 7,
        retries: 5,
    }
}

#[test]
fn pings_ask_for_the_frames_zero_to_seven_with_five_retries() {
    let echo = service();
    assert_eq!(
        echo.unreliable_sequenced_cleartext_ping("bob"),
        expected_ping(EchoMode::UnreliableSequenced, false)
    );
    assert_eq!(
        echo.unreliable_sequenced_cyphertext_ping("bob"),
        expected_ping(EchoMode::UnreliableSequenced, true)
    );
    assert_eq!(
        echo.reliable_ordered_cleartext_ping("bob"),
        expected_ping(EchoMode::ReliableOrdered, false)
    );
    assert_eq!(
        echo.reliable_ordered_cyphertext_ping("bob"),
        expected_ping(EchoMode::ReliableOrdered, true)
    );
    assert_eq!(
        echo.reliable_sequenced_cleartext_ping("bob"),
        expected_ping(EchoMode::ReliableSequenced, false)
    );
    assert_eq!(
        echo.reliable_sequenced_cyphertext_ping("bob"),
        expected_ping(EchoMode::ReliableSequenced, true)
    );
}

#[test]
fn ping_of_a_service_is_answered_by_that_service() {
    let ping = service().reliable_ordered_cleartext_ping("alice");
    let action = service().on_packet(&NarrowWaistPacket::Request { hbfi: ping.hbfi });
    assert_eq!(action, EchoAction::Respond { hbfi: ping.hbfi, data: encoded("p") });
}

#[test]
fn the_eight_frames_read_pingpong() {
    let echo = service();
    let mut frames: Vec<Vec<u8>> = Vec::new();
    for frm in 0..=7u64 {
        let hbfi = asked(UNRELIABLE_SEQUENCED_ECHO, frm);
        match echo.on_packet(&NarrowWaistPacket::Request { hbfi }) {
            EchoAction::Respond { data, .. } => frames.push(data),
            other => panic!("no answer for frame {}: {:?}", frm, other),
        }
    }
    assert_eq!(Echo::pong(&frames), Ok("pingpong".to_string()));
}

#[test]
fn echo_of_no_frames_is_empty() {
    assert_eq!(Echo::pong(&Vec::new()), Ok(String::new()));
}

#[test]
fn pong_decodes_longer_texts_and_keeps_their_order() {
    let frames = vec![encoded("pa"), encoded(""), encoded("ng "), encoded("\u{e9}\u{4e16}")];
    assert_eq!(Echo::pong(&frames), Ok("pang \u{e9}\u{4e16}".to_string()));
}

#[test]
fn pong_accepts_bytes_behind_a_text() {
    let mut frame = encoded("p");
    frame.extend_from_slice(&[1, 2, 3]);
    assert_eq!(Echo::pong(&vec![frame, encoded("i")]), Ok("pi".to_string()));
}

#[test]
fn frame_that_is_too_short_makes_the_echo_undecodable() {
    assert_eq!(Echo::pong(&vec![encoded("p"), vec![1, 0, 0]]), Err(EchoError::Undecodable));
    assert_eq!(Echo::pong(&vec![Vec::new()]), Err(EchoError::Undecodable));
    assert_eq!(
        Echo::pong(&vec![vec![2, 0, 0, 0, 0, 0, 0, 0, b'p']]),
        Err(EchoError::Undecodable)
    );
}

#[test]
fn frame_that_is_not_utf8_makes_the_echo_undecodable() {
    assert_eq!(
        Echo::pong(&vec![vec![1, 0, 0, 0, 0, 0, 0, 0, 0xff]]),
        Err(EchoError::Undecodable)
    );
}

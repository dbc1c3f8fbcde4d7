//! The echo service: a small protocol on top of the forwarding core.
//!
//! A ping asks for the eight frames of an echo, one request per frame; the
//! service answers each frame with one short text, and the texts of the
//! frames 0 to 7 put together read "pingpong". Texts travel in the bincode
//! encoding of a string.
//!
//! This module decides and computes; asking the network for the frames and
//! handing packets to and from the links is left to the caller.
use crate::address::{bloom_filter_index, fnv1a, BFI, HBFI};
use crate::packet::{NarrowWaist, NarrowWaistPacket};
use vstd::bytes::{spec_u64_from_le_bytes, spec_u64_to_le_bytes};
use vstd::prelude::*;
use vstd::string::{StringExecFns, StringSliceAdditionalSpecFns};
use vstd::utf8::{decode_utf8, encode_utf8, valid_utf8};

verus! {

/// The name of every field of an echo address but the resource and the
/// argument.
pub const ECHO: &'static str = "echo";

/// The argument of an echo that is asked for unreliably, in sequence.
pub const UNRELIABLE_SEQUENCED_ECHO: &'static str = "unreliable_sequenced_echo";

/// The argument of an echo that is asked for reliably, in order.
pub const RELIABLE_ORDERED_ECHO: &'static str = "reliable_ordered_echo";

/// The argument of an echo that is asked for reliably, in sequence.
pub const RELIABLE_SEQUENCED_ECHO: &'static str = "reliable_sequenced_echo";

/// The first frame of an echo.
pub const FIRST_FRAME: u64 = 0;

/// The last frame of an echo.
pub const LAST_FRAME: u64 = 7;

/// How often the frames of an echo are asked for again before a ping gives
/// up.
pub const RETRIES: u8 = 5;

/// The error of the bincode crate.
#[verifier::external_type_specification]
#[verifier::external_body]
pub struct ExErrorKind(bincode::ErrorKind);

/// How the frames of an echo are asked for.
#[derive(Clone, Copy, Debug, PartialEq, Eq, Structural)]
pub enum EchoMode {
    UnreliableSequenced,
    ReliableOrdered,
    ReliableSequenced,
}

/// Why an echo could not be put together.
#[derive(Clone, Copy, Debug, PartialEq, Eq, Structural)]
pub enum EchoError {
    /// A frame of the echo is not the encoding of a text.
    Undecodable,
}

/// The bincode encoding of a text: the number of its UTF-8 bytes as a
/// little-endian word, and the bytes.
pub open spec fn text_bytes(text: Seq<char>) -> Seq<u8> {
    spec_u64_to_le_bytes(encode_utf8(text).len() as u64) + encode_utf8(text)
}

/// The text that bincode reads from the front of a byte string, if it reads
/// one: the bytes begin with a little-endian word, as many bytes as the
/// word says follow it, and those are valid UTF-8. What stands behind them
/// is not looked at.
pub open spec fn text_of(bytes: Seq<u8>) -> Option<Seq<char>> {
    if bytes.len() < 8 {
        None
    } else {
        let declared = spec_u64_from_le_bytes(bytes.subrange(0, 8));
        if declared > bytes.len() - 8 {
            None
        } else if !valid_utf8(bytes.subrange(8, 8 + declared)) {
            None
        } else {
            Some(decode_utf8(bytes.subrange(8, 8 + declared)))
        }
    }
}

/// Calls `bincode::serialize` on a string slice. The call writes the length
/// of the string in bytes as eight little-endian bytes and then the bytes
/// of the string, and does not fail: no size limit is set, and the bytes go
/// to a vector.
#[verifier::external_body]
fn encode_text(text: &str) -> (result: Result<Vec<u8>, Box<bincode::ErrorKind>>)
    ensures
        result is Ok,
        result matches Ok(bytes) ==> bytes@ == text_bytes(text@),
{
    bincode::serialize(&text)
}

/// Calls `bincode::deserialize` for a string slice and copies the slice it
/// gives into a `String`. The call reads eight bytes as a little-endian
/// length, fails if fewer bytes follow than the length says or if those
/// bytes are not valid UTF-8, and otherwise gives them as a string; bytes
/// behind them are accepted.
#[verifier::external_body]
fn decode_text(bytes: &[u8]) -> (result: Result<String, Box<bincode::ErrorKind>>)
    ensures
        result is Ok <==> text_of(bytes@) is Some,
        result matches Ok(text) ==> text_of(bytes@) == Some(text@),
{
    match bincode::deserialize::<&str>(bytes) {
        Ok(text) => Ok(text.to_string()),
        Err(e) => Err(e),
    }
}

/// Decoding an encoded text gives the text back.
pub proof fn lemma_text_round_trip(text: Seq<char>)
    requires
        encode_utf8(text).len() <= u64::MAX,
    ensures
        text_of(text_bytes(text)) == Some(text),
{
    vstd::bytes::lemma_auto_spec_u64_to_from_le_bytes();
    vstd::utf8::encode_utf8_valid_utf8(text);
    vstd::utf8::encode_utf8_decode_utf8(text);
    let bytes = text_bytes(text);
    let n = encode_utf8(text).len() as u64;
    assert(bytes.subrange(0, 8) =~= spec_u64_to_le_bytes(n));
    assert(bytes.subrange(8, 8 + n) =~= encode_utf8(text));
}

impl EchoMode {
    /// The argument under which an echo of this mode is asked for.
    pub open spec fn name_of(self) -> &'static str {
        match self {
            EchoMode::UnreliableSequenced => UNRELIABLE_SEQUENCED_ECHO,
            EchoMode::ReliableOrdered => RELIABLE_ORDERED_ECHO,
            EchoMode::ReliableSequenced => RELIABLE_SEQUENCED_ECHO,
        }
    }

    /// The fragment of that argument.
    pub open spec fn fragment(self) -> BFI {
        fnv1a(self.name_of().spec_bytes())
    }

    /// The argument under which an echo of this mode is asked for.
    pub fn name(self) -> (name: &'static str)
        ensures
            name == self.name_of(),
    {
        match self {
            EchoMode::UnreliableSequenced => UNRELIABLE_SEQUENCED_ECHO,
            EchoMode::ReliableOrdered => RELIABLE_ORDERED_ECHO,
            EchoMode::ReliableSequenced => RELIABLE_SEQUENCED_ECHO,
        }
    }
}

/// The fragment of the name "echo".
pub open spec fn service_fragment() -> BFI {
    fnv1a(ECHO.spec_bytes())
}

/// The mode that an argument fragment stands for, if it stands for one.
pub open spec fn mode_for(arg: BFI) -> Option<EchoMode> {
    if arg == EchoMode::UnreliableSequenced.fragment() {
        Some(EchoMode::UnreliableSequenced)
    } else if arg == EchoMode::ReliableOrdered.fragment() {
        Some(EchoMode::ReliableOrdered)
    } else if arg == EchoMode::ReliableSequenced.fragment() {
        Some(EchoMode::ReliableSequenced)
    } else {
        None
    }
}

/// The text of a frame of the echo: the letters of "pingpong" for the
/// frames 0 to 7, and "pang" for every other frame.
pub open spec fn frame_text(frm: u64) -> &'static str {
    if frm == 0 {
        "p"
    } else if frm == 1 {
        "i"
    } else if frm == 2 {
        "n"
    } else if frm == 3 {
        "g"
    } else if frm == 4 {
        "p"
    } else if frm == 5 {
        "o"
    } else if frm == 6 {
        "n"
    } else if frm == 7 {
        "g"
    } else {
        "pang"
    }
}

/// The address under which an echo is asked of the service with the public
/// identity `response_pid`.
pub open spec fn echo_address(response_pid: &str, mode: EchoMode) -> HBFI {
    HBFI {
        res: fnv1a(response_pid.spec_bytes()),
        app: service_fragment(),
        m0d: service_fragment(),
        fun: service_fragment(),
        arg: mode.fragment(),
        frm: 0,
    }
}

/// What a ping asks of the network: the frames `first` to `last` of the
/// address, in the given mode, asking again at most `retries` times. A
/// sealed ping names the one who asks, so that the echo can be encrypted
/// for them.
#[derive(Clone, Copy, Debug, PartialEq, Eq, Structural)]
pub struct Ping {
    pub hbfi: HBFI,
    pub mode: EchoMode,
    pub sealed: bool,
    pub first: u64,
    pub last: u64,
    pub retries: u8,
}

/// The ping of a mode to a service.
pub open spec fn ping_for(response_pid: &str, mode: EchoMode, sealed: bool) -> Ping {
    Ping {
        hbfi: echo_address(response_pid, mode),
        mode,
        sealed,
        first: FIRST_FRAME,
        last: LAST_FRAME,
        retries: RETRIES,
    }
}

/// What the service does with a packet.
#[derive(Debug, PartialEq, Eq)]
pub enum EchoAction {
    /// Answer the request for `hbfi` with `data`.
    Respond { hbfi: HBFI, data: Vec<u8> },
    /// Hand the reply to whoever waits for the echo of this mode.
    Deliver { mode: EchoMode },
    /// The packet is none of the service's business.
    Ignore,
}

/// What an [`EchoAction`] holds, as a mathematical value.
pub enum EchoActionView {
    Respond { hbfi: HBFI, data: Seq<u8> },
    Deliver { mode: EchoMode },
    Ignore,
}

impl View for EchoAction {
    type V = EchoActionView;

    open spec fn view(&self) -> EchoActionView {
        match *self {
            EchoAction::Respond { hbfi, data } => EchoActionView::Respond { hbfi, data: data@ },
            EchoAction::Deliver { mode } => EchoActionView::Deliver { mode },
            EchoAction::Ignore => EchoActionView::Ignore,
        }
    }
}

/// What the service with the resource fragment `res` does with a packet. It
/// answers a request for an echo of its own: a request whose resource is
/// `res`, whose application, module and function are "echo", and whose
/// argument names a mode. It passes on a reply whose application, module
/// and function are "echo" and whose argument names a mode. It ignores
/// everything else.
pub open spec fn action_for(res: BFI, nw: NarrowWaist) -> EchoActionView {
    match nw {
        NarrowWaist::Request { hbfi } => {
            if hbfi.res == res && hbfi.app == service_fragment() && hbfi.m0d
                == service_fragment() && hbfi.fun == service_fragment() && mode_for(
                hbfi.arg,
            ) is Some {
                EchoActionView::Respond { hbfi, data: text_bytes(frame_text(hbfi.frm)@) }
            } else {
                EchoActionView::Ignore
            }
        },
        NarrowWaist::Response { hbfi, .. } => {
            if hbfi.app == service_fragment() && hbfi.m0d == service_fragment() && hbfi.fun
                == service_fragment() {
                match mode_for(hbfi.arg) {
                    Some(mode) => EchoActionView::Deliver { mode },
                    None => EchoActionView::Ignore,
                }
            } else {
                EchoActionView::Ignore
            }
        },
    }
}

/// The frames of an echo, as mathematical values.
pub open spec fn frames(echo: Seq<Vec<u8>>) -> Seq<Seq<u8>> {
    echo.map_values(|frame: Vec<u8>| frame@)
}

/// The text that the frames of an echo give when each is decoded and the
/// texts are put together in order, if every frame can be decoded.
pub open spec fn joined(echo: Seq<Seq<u8>>) -> Option<Seq<char>>
    decreases echo.len(),
{
    if echo.len() == 0 {
        Some(Seq::empty())
    } else {
        match (joined(echo.drop_last()), text_of(echo.last())) {
            (Some(front), Some(text)) => Some(front + text),
            _ => None,
        }
    }
}

/// The echo service of one identity.
#[derive(Debug, PartialEq, Eq)]
pub struct Echo {
    label: String,
    res: BFI,
}

impl Echo {
    /// The label under which the service reports.
    pub closed spec fn label(&self) -> Seq<char> {
        self.label@
    }

    /// The fragment of the public identity of the service: the resource of
    /// the addresses it answers for.
    pub closed spec fn resource(&self) -> BFI {
        self.res
    }

    /// The service of the identity `public_id`, reporting as `label`.
    pub fn new(label: String, public_id: &str) -> (echo: Echo)
        ensures
            echo.label() == label@,
            echo.resource() == fnv1a(public_id.spec_bytes()),
    {
        Echo { label, res: bloom_filter_index(public_id) }
    }

    /// The label under which the service reports.
    pub fn get_label(&self) -> (label: String)
        ensures
            label@ == self.label(),
    {
        self.label.clone()
    }

    /// The text of a frame of the echo.
    pub fn frame(frm: u64) -> (text: &'static str)
        ensures
            text == frame_text(frm),
    {
        if frm == 0 {
            "p"
        } else if frm == 1 {
            "i"
        } else if frm == 2 {
            "n"
        } else if frm == 3 {
            "g"
        } else if frm == 4 {
            "p"
        } else if frm == 5 {
            "o"
        } else if frm == 6 {
            "n"
        } else if frm == 7 {
            "g"
        } else {
            "pang"
        }
    }

    /// The mode that an argument fragment stands for, if it stands for one.
    pub fn mode_of(arg: BFI) -> (mode: Option<EchoMode>)
        ensures
            mode == mode_for(arg),
    {
        if arg == bloom_filter_index(UNRELIABLE_SEQUENCED_ECHO) {
            Some(EchoMode::UnreliableSequenced)
        } else if arg == bloom_filter_index(RELIABLE_ORDERED_ECHO) {
            Some(EchoMode::ReliableOrdered)
        } else if arg == bloom_filter_index(RELIABLE_SEQUENCED_ECHO) {
            Some(EchoMode::ReliableSequenced)
        } else {
            None
        }
    }

    /// Decides what the service does with a packet.
    pub fn on_packet(&self, nw: &NarrowWaistPacket) -> (action: EchoAction)
        ensures
            action@ == action_for(self.resource(), nw@),
    {
        let service: BFI = bloom_filter_index(ECHO);
        match nw {
            NarrowWaistPacket::Request { hbfi } => {
                if hbfi.res == self.res && hbfi.app == service && hbfi.m0d == service && hbfi.fun
                    == service && Self::mode_of(hbfi.arg).is_some() {
                    match encode_text(Self::frame(hbfi.frm)) {
                        Ok(data) => EchoAction::Respond { hbfi: *hbfi, data },
                        // Encoding a text into a vector does not fail.
                        Err(_) => EchoAction::Ignore,
                    }
                } else {
                    EchoAction::Ignore
                }
            },
            NarrowWaistPacket::Response { hbfi, .. } => {
                if hbfi.app == service && hbfi.m0d == service && hbfi.fun == service {
                    match Self::mode_of(hbfi.arg) {
                        Some(mode) => EchoAction::Deliver { mode },
                        None => EchoAction::Ignore,
                    }
                } else {
                    EchoAction::Ignore
                }
            },
        }
    }

    /// The ping of a mode to the service with the public identity
    /// `response_pid`.
    fn ping(response_pid: &str, mode: EchoMode, sealed: bool) -> (ping: Ping)
        ensures
            ping == ping_for(response_pid, mode, sealed),
    {
        Ping {
            hbfi: HBFI::new(response_pid, ECHO, ECHO, ECHO, mode.name()),
            mode,
            sealed,
            first: FIRST_FRAME,
            last: LAST_FRAME,
            retries: RETRIES,
        }
    }

    /// The ping that asks for an echo unreliably, in sequence, in the
    /// clear.
    pub fn unreliable_sequenced_cleartext_ping(&self, response_pid: &str) -> (ping: Ping)
        ensures
            ping == ping_for(response_pid, EchoMode::UnreliableSequenced, false),
    {
        Self::ping(response_pid, EchoMode::UnreliableSequenced, false)
    }

    /// The ping that asks for an echo unreliably, in sequence, sealed.
    pub fn unreliable_sequenced_cyphertext_ping(&self, response_pid: &str) -> (ping: Ping)
        ensures
            ping == ping_for(response_pid, EchoMode::UnreliableSequenced, true),
    {
        Self::ping(response_pid, EchoMode::UnreliableSequenced, true)
    }

    /// The ping that asks for an echo reliably, in order, in the clear.
    pub fn reliable_ordered_cleartext_ping(&self, response_pid: &str) -> (ping: Ping)
        ensures
            ping == ping_for(response_pid, EchoMode::ReliableOrdered, false),
    {
        Self::ping(response_pid, EchoMode::ReliableOrdered, false)
    }

    /// The ping that asks for an echo reliably, in order, sealed.
    pub fn reliable_ordered_cyphertext_ping(&self, response_pid: &str) -> (ping: Ping)
        ensures
            ping == ping_for(response_pid, EchoMode::ReliableOrdered, true),
    {
        Self::ping(response_pid, EchoMode::ReliableOrdered, true)
    }

    /// The ping that asks for an echo reliably, in sequence, in the clear.
    pub fn reliable_sequenced_cleartext_ping(&self, response_pid: &str) -> (ping: Ping)
        ensures
            ping == ping_for(response_pid, EchoMode::ReliableSequenced, false),
    {
        Self::ping(response_pid, EchoMode::ReliableSequenced, false)
    }

    /// The ping that asks for an echo reliably, in sequence, sealed.
    pub fn reliable_sequenced_cyphertext_ping(&self, response_pid: &str) -> (ping: Ping)
        ensures
            ping == ping_for(response_pid, EchoMode::ReliableSequenced, true),
    {
        Self::ping(response_pid, EchoMode::ReliableSequenced, true)
    }

    /// Puts the echo together: decodes the frames that the network gave and
    /// joins their texts in order. The first frame that is not the encoding
    /// of a text makes the echo undecodable.
    pub fn pong(echo: &Vec<Vec<u8>>) -> (result: Result<String, EchoError>)
        ensures
            match joined(frames(echo@)) {
                Some(text) => result matches Ok(whole) && whole@ == text,
                None => result == Err::<String, EchoError>(EchoError::Undecodable),
            },
    {
        let mut whole = String::new();
        let mut i: usize = 0;
        let ghost all = frames(echo@);
        proof {
            assert(all.take(0) =~= Seq::<Seq<u8>>::empty());
        }
        while i < echo.len()
            invariant
                i <= echo.len(),
                all == frames(echo@),
                joined(all.take(i as int)) == Some(whole@),
            decreases echo.len() - i,
        {
            proof {
                assert(all.take(i + 1).drop_last() =~= all.take(i as int));
                assert(all.take(i + 1).last() == echo@[i as int]@);
            }
            match decode_text(echo[i].as_slice()) {
                Ok(text) => {
                    whole.append(text.as_str());
                },
                Err(_) => {
                    proof {
                        lemma_joined_fails(all, i as int);
                    }
                    return Err(EchoError::Undecodable);
                },
            }
            i = i + 1;
        }
        proof {
            assert(all.take(i as int) =~= all);
        }
        Ok(whole)
    }
}

/// An echo with a frame that cannot be decoded cannot be put together.
proof fn lemma_joined_fails(echo: Seq<Seq<u8>>, at: int)
    requires
        0 <= at < echo.len(),
        text_of(echo[at]) is None,
    ensures
        joined(echo) is None,
    decreases echo.len(),
{
    if at < echo.len() - 1 {
        lemma_joined_fails(echo.drop_last(), at);
    }
}

/// The frames 0 to 7 of an echo, as the service answers them, put together
/// read "pingpong".
pub proof fn lemma_echo_reads_pingpong()
    ensures
        joined(Seq::new(8, |frm: int| text_bytes(frame_text(frm as u64)@))) == Some("pingpong"@),
{
    reveal_strlit("p");
    reveal_strlit("i");
    reveal_strlit("n");
    reveal_strlit("g");
    reveal_strlit("o");
    reveal_strlit("pingpong");
    let echo = Seq::new(8, |frm: int| text_bytes(frame_text(frm as u64)@));
    assert forall|frm: int| 0 <= frm < 8 implies text_of(#[trigger] echo[frm]) == Some(
        frame_text(frm as u64)@,
    ) by {
        let text = frame_text(frm as u64)@;
        assert(text.len() == 1);
        vstd::utf8::is_ascii_chars_encode_utf8(text);
        lemma_text_round_trip(text);
    }
    reveal_with_fuel(joined, 9);
    assert(echo.take(0) =~= Seq::<Seq<u8>>::empty());
    let e1 = echo.take(1);
    let e2 = echo.take(2);
    let e3 = echo.take(3);
    let e4 = echo.take(4);
    let e5 = echo.take(5);
    let e6 = echo.take(6);
    let e7 = echo.take(7);
    assert(e1.drop_last() =~= echo.take(0));
    assert(e2.drop_last() =~= e1);
    assert(e3.drop_last() =~= e2);
    assert(e4.drop_last() =~= e3);
    assert(e5.drop_last() =~= e4);
    assert(e6.drop_last() =~= e5);
    assert(e7.drop_last() =~= e6);
    assert(echo.drop_last() =~= e7);
    assert(joined(e1) == Some("p"@)) by {
        assert(joined(echo.take(0)) == Some(Seq::<char>::empty()));
        assert(Seq::<char>::empty() + "p"@ =~= "p"@);
    }
    assert(joined(e2) == Some(seq!['p', 'i']));
    assert(joined(e3) == Some(seq!['p', 'i', 'n']));
    assert(joined(e4) == Some(seq!['p', 'i', 'n', 'g']));
    assert(joined(e5) == Some(seq!['p', 'i', 'n', 'g', 'p']));
    assert(joined(e6) == Some(seq!['p', 'i', 'n', 'g', 'p', 'o']));
    assert(joined(e7) == Some(seq!['p', 'i', 'n', 'g', 'p', 'o', 'n']));
    assert(joined(echo) == Some(seq!['p', 'i', 'n', 'g', 'p', 'o', 'n', 'g']));
    assert("pingpong"@ =~= seq!['p', 'i', 'n', 'g', 'p', 'o', 'n', 'g']);
}

} // verus!

//! The byte encoding of addresses and packets.
//!
//! The encoding of an address is the key under which the reply cache files a
//! reply; the encoding of a reply is the value it keeps. Both are
//! deterministic, and decoding gives back exactly what was encoded.
use crate::address::HBFI;
use crate::packet::{NarrowWaist, NarrowWaistPacket};
use vstd::bytes::{spec_u64_from_le_bytes, spec_u64_to_le_bytes};
use vstd::prelude::*;
use vstd::slice::slice_subrange;

verus! {

/// The number of bytes of an encoded address: six words of eight bytes.
pub const ADDRESS_LEN: usize = 48;

/// The first byte of an encoded request.
pub const KIND_REQUEST: u8 = 0;

/// The first byte of an encoded reply.
pub const KIND_RESPONSE: u8 = 1;

/// Why a byte string is not the encoding of an address or of a packet.
#[derive(Clone, Copy, Debug, PartialEq, Eq, Structural)]
pub enum DecodeError {
    /// The bytes end before the value does.
    Truncated,
    /// The first byte names no kind of packet.
    UnknownKind,
    /// Bytes follow the end of the value.
    TrailingBytes,
}

/// The eight bytes of a word, least significant first.
pub open spec fn word(x: u64) -> Seq<u8> {
    spec_u64_to_le_bytes(x)
}

/// The word that the eight bytes from position `at` encode.
pub open spec fn read_word(bytes: Seq<u8>, at: int) -> u64 {
    spec_u64_from_le_bytes(bytes.subrange(at, at + 8))
}

/// The encoding of an address: its six fields in order, one word each.
pub open spec fn address_bytes(hbfi: HBFI) -> Seq<u8> {
    word(hbfi.res) + word(hbfi.app) + word(hbfi.m0d) + word(hbfi.fun) + word(hbfi.arg) + word(
        hbfi.frm,
    )
}

/// The address that the 48 bytes from position `at` encode.
pub open spec fn read_address(bytes: Seq<u8>, at: int) -> HBFI {
    HBFI {
        res: read_word(bytes, at),
        app: read_word(bytes, at + 8),
        m0d: read_word(bytes, at + 16),
        fun: read_word(bytes, at + 24),
        arg: read_word(bytes, at + 32),
        frm: read_word(bytes, at + 40),
    }
}

/// The address that a byte string encodes, or why it encodes none.
pub open spec fn parse_address(bytes: Seq<u8>) -> Result<HBFI, DecodeError> {
    if bytes.len() < 48 {
        Err(DecodeError::Truncated)
    } else if bytes.len() > 48 {
        Err(DecodeError::TrailingBytes)
    } else {
        Ok(read_address(bytes, 0))
    }
}

/// The encoding of a packet: a kind byte and the address; for a reply the
/// length of the payload as a word and the payload follow.
pub open spec fn packet_bytes(nw: NarrowWaist) -> Seq<u8> {
    match nw {
        NarrowWaist::Request { hbfi } => seq![KIND_REQUEST] + address_bytes(hbfi),
        NarrowWaist::Response { hbfi, data } => seq![KIND_RESPONSE] + address_bytes(hbfi) + word(
            data.len() as u64,
        ) + data,
    }
}

/// The packet that a byte string encodes, or why it encodes none.
pub open spec fn parse_packet(bytes: Seq<u8>) -> Result<NarrowWaist, DecodeError> {
    if bytes.len() == 0 {
        Err(DecodeError::Truncated)
    } else if bytes[0] != KIND_REQUEST && bytes[0] != KIND_RESPONSE {
        Err(DecodeError::UnknownKind)
    } else if bytes.len() < 49 {
        Err(DecodeError::Truncated)
    } else if bytes[0] == KIND_REQUEST {
        if bytes.len() > 49 {
            Err(DecodeError::TrailingBytes)
        } else {
            Ok(NarrowWaist::Request { hbfi: read_address(bytes, 1) })
        }
    } else if bytes.len() < 57 {
        Err(DecodeError::Truncated)
    } else if bytes.len() - 57 < read_word(bytes, 49) {
        Err(DecodeError::Truncated)
    } else if bytes.len() - 57 > read_word(bytes, 49) {
        Err(DecodeError::TrailingBytes)
    } else {
        Ok(
            NarrowWaist::Response {
                hbfi: read_address(bytes, 1),
                data: bytes.subrange(57, bytes.len() as int),
            },
        )
    }
}

/// An encoded address is 48 bytes long, and reading it at the place where it
/// stands in a longer string gives the address back.
pub proof fn lemma_read_address(before: Seq<u8>, hbfi: HBFI, after: Seq<u8>)
    ensures
        address_bytes(hbfi).len() == 48,
        read_address(before + address_bytes(hbfi) + after, before.len() as int) == hbfi,
{
    vstd::bytes::lemma_auto_spec_u64_to_from_le_bytes();
    let all = before + address_bytes(hbfi) + after;
    let at = before.len() as int;
    assert(all.subrange(at, at + 8) =~= word(hbfi.res));
    assert(all.subrange(at + 8, at + 16) =~= word(hbfi.app));
    assert(all.subrange(at + 16, at + 24) =~= word(hbfi.m0d));
    assert(all.subrange(at + 24, at + 32) =~= word(hbfi.fun));
    assert(all.subrange(at + 32, at + 40) =~= word(hbfi.arg));
    assert(all.subrange(at + 40, at + 48) =~= word(hbfi.frm));
}

/// Encoding the address read from 48 bytes gives those bytes back.
pub proof fn lemma_address_bytes_of_read(bytes: Seq<u8>, at: int)
    requires
        0 <= at,
        at + 48 <= bytes.len(),
    ensures
        address_bytes(read_address(bytes, at)) == bytes.subrange(at, at + 48),
{
    vstd::bytes::lemma_auto_spec_u64_to_from_le_bytes();
    let hbfi = read_address(bytes, at);
    assert(word(hbfi.res) == bytes.subrange(at, at + 8));
    assert(word(hbfi.app) == bytes.subrange(at + 8, at + 16));
    assert(word(hbfi.m0d) == bytes.subrange(at + 16, at + 24));
    assert(word(hbfi.fun) == bytes.subrange(at + 24, at + 32));
    assert(word(hbfi.arg) == bytes.subrange(at + 32, at + 40));
    assert(word(hbfi.frm) == bytes.subrange(at + 40, at + 48));
    assert(address_bytes(hbfi) =~= bytes.subrange(at, at + 48));
}

/// Decoding an encoded address gives the address back.
pub proof fn lemma_address_round_trip(hbfi: HBFI)
    ensures
        parse_address(address_bytes(hbfi)) == Ok::<HBFI, DecodeError>(hbfi),
{
    lemma_read_address(Seq::empty(), hbfi, Seq::empty());
    assert(Seq::<u8>::empty() + address_bytes(hbfi) + Seq::<u8>::empty() =~= address_bytes(hbfi));
}

/// Two addresses with the same encoding are the same address: the cache
/// keeps the replies of different addresses apart.
pub proof fn lemma_address_bytes_injective(a: HBFI, b: HBFI)
    requires
        address_bytes(a) == address_bytes(b),
    ensures
        a == b,
{
    lemma_address_round_trip(a);
    lemma_address_round_trip(b);
}

/// A byte string that decodes to an address is the encoding of that address.
pub proof fn lemma_parse_address_canonical(bytes: Seq<u8>)
    requires
        parse_address(bytes) is Ok,
    ensures
        address_bytes(parse_address(bytes)->Ok_0) == bytes,
{
    lemma_address_bytes_of_read(bytes, 0);
    assert(bytes.subrange(0, 48) =~= bytes);
}

/// Decoding an encoded packet gives the packet back.
pub proof fn lemma_packet_round_trip(nw: NarrowWaist)
    requires
        nw matches NarrowWaist::Response { data, .. } ==> data.len() <= u64::MAX,
    ensures
        parse_packet(packet_bytes(nw)) == Ok::<NarrowWaist, DecodeError>(nw),
{
    vstd::bytes::lemma_auto_spec_u64_to_from_le_bytes();
    let bytes = packet_bytes(nw);
    match nw {
        NarrowWaist::Request { hbfi } => {
            lemma_read_address(seq![KIND_REQUEST], hbfi, Seq::empty());
            assert(seq![KIND_REQUEST] + address_bytes(hbfi) + Seq::<u8>::empty() =~= bytes);
        },
        NarrowWaist::Response { hbfi, data } => {
            let tail = word(data.len() as u64) + data;
            lemma_read_address(seq![KIND_RESPONSE], hbfi, tail);
            assert(seq![KIND_RESPONSE] + address_bytes(hbfi) + tail =~= bytes);
            assert(bytes.subrange(49, 57) =~= word(data.len() as u64));
            assert(bytes.subrange(57, bytes.len() as int) =~= data);
        },
    }
}

/// A byte string that decodes to a packet is the encoding of that packet.
pub proof fn lemma_parse_packet_canonical(bytes: Seq<u8>)
    requires
        parse_packet(bytes) is Ok,
    ensures
        packet_bytes(parse_packet(bytes)->Ok_0) == bytes,
{
    vstd::bytes::lemma_auto_spec_u64_to_from_le_bytes();
    lemma_address_bytes_of_read(bytes, 1);
    match parse_packet(bytes)->Ok_0 {
        NarrowWaist::Request { hbfi } => {
            assert(seq![KIND_REQUEST] + bytes.subrange(1, 49) =~= bytes);
        },
        NarrowWaist::Response { hbfi, data } => {
            assert(word(data.len() as u64) == bytes.subrange(49, 57));
            assert(seq![KIND_RESPONSE] + bytes.subrange(1, 49) + bytes.subrange(49, 57) + data
                =~= bytes);
        },
    }
}

/// Reads the word at position `at`.
fn get_word(bytes: &[u8], at: usize) -> (x: u64)
    requires
        at + 8 <= bytes.len(),
    ensures
        x == read_word(bytes@, at as int),
{
    vstd::bytes::u64_from_le_bytes(slice_subrange(bytes, at, at + 8))
}

/// Reads the address at position `at`.
fn get_address(bytes: &[u8], at: usize) -> (hbfi: HBFI)
    requires
        at + 48 <= bytes.len(),
    ensures
        hbfi == read_address(bytes@, at as int),
{
    HBFI {
        res: get_word(bytes, at),
        app: get_word(bytes, at + 8),
        m0d: get_word(bytes, at + 16),
        fun: get_word(bytes, at + 24),
        arg: get_word(bytes, at + 32),
        frm: get_word(bytes, at + 40),
    }
}

/// Appends the eight bytes of `x` to `out`.
fn put_word(out: &mut Vec<u8>, x: u64)
    ensures
        final(out)@ == old(out)@ + word(x),
{
    let mut bytes: Vec<u8> = vstd::bytes::u64_to_le_bytes(x);
    out.append(&mut bytes);
}

/// Appends the encoding of `hbfi` to `out`.
fn put_address(out: &mut Vec<u8>, hbfi: &HBFI)
    ensures
        final(out)@ == old(out)@ + address_bytes(*hbfi),
{
    put_word(out, hbfi.res);
    put_word(out, hbfi.app);
    put_word(out, hbfi.m0d);
    put_word(out, hbfi.fun);
    put_word(out, hbfi.arg);
    put_word(out, hbfi.frm);
    proof {
        assert(out@ =~= old(out)@ + address_bytes(*hbfi));
    }
}

/// Encodes an address: the key of its reply in the cache.
pub fn serialize_hbfi(hbfi: &HBFI) -> (bytes: Vec<u8>)
    ensures
        bytes@ == address_bytes(*hbfi),
{
    let mut bytes: Vec<u8> = Vec::new();
    put_address(&mut bytes, hbfi);
    proof {
        assert(bytes@ =~= address_bytes(*hbfi));
    }
    bytes
}

/// Decodes an address.
pub fn deserialize_hbfi(bytes: &[u8]) -> (result: Result<HBFI, DecodeError>)
    ensures
        result == parse_address(bytes@),
{
    if bytes.len() < ADDRESS_LEN {
        Err(DecodeError::Truncated)
    } else if bytes.len() > ADDRESS_LEN {
        Err(DecodeError::TrailingBytes)
    } else {
        Ok(get_address(bytes, 0))
    }
}

/// Encodes a packet: for a reply, the value that the cache keeps.
pub fn serialize_narrow_waist_packet(nw: &NarrowWaistPacket) -> (bytes: Vec<u8>)
    ensures
        bytes@ == packet_bytes(nw@),
{
    let mut bytes: Vec<u8> = Vec::new();
    match nw {
        NarrowWaistPacket::Request { hbfi } => {
            bytes.push(KIND_REQUEST);
            put_address(&mut bytes, hbfi);
            proof {
                assert(bytes@ =~= packet_bytes(nw@));
            }
        },
        NarrowWaistPacket::Response { hbfi, data } => {
            bytes.push(KIND_RESPONSE);
            put_address(&mut bytes, hbfi);
            put_word(&mut bytes, data.len() as u64);
            let mut payload: Vec<u8> = data.clone();
            assert(payload@ =~= data@);
            bytes.append(&mut payload);
            proof {
                assert(bytes@ =~= packet_bytes(nw@));
            }
        },
    }
    bytes
}

/// Decodes a packet.
pub fn deserialize_narrow_waist_packet(bytes: &[u8]) -> (result: Result<
    NarrowWaistPacket,
    DecodeError,
>)
    ensures
        result is Ok <==> parse_packet(bytes@) is Ok,
        result matches Ok(nw) ==> parse_packet(bytes@) == Ok::<NarrowWaist, DecodeError>(nw@),
        result matches Err(e) ==> parse_packet(bytes@) == Err::<NarrowWaist, DecodeError>(e),
{
    let len: usize = bytes.len();
    if len == 0 {
        return Err(DecodeError::Truncated);
    }
    let kind: u8 = bytes[0];
    if kind != KIND_REQUEST && kind != KIND_RESPONSE {
        return Err(DecodeError::UnknownKind);
    }
    if len < 49 {
        return Err(DecodeError::Truncated);
    }
    let hbfi: HBFI = get_address(bytes, 1);
    if kind == KIND_REQUEST {
        if len > 49 {
            return Err(DecodeError::TrailingBytes);
        }
        return Ok(NarrowWaistPacket::Request { hbfi });
    }
    if len < 57 {
        return Err(DecodeError::Truncated);
    }
    let declared: u64 = get_word(bytes, 49);
    let held: u64 = (len - 57) as u64;
    if held < declared {
        return Err(DecodeError::Truncated);
    }
    if held > declared {
        return Err(DecodeError::TrailingBytes);
    }
    let data: Vec<u8> = vstd::slice::slice_to_vec(slice_subrange(bytes, 57, len));
    Ok(NarrowWaistPacket::Response { hbfi, data })
}

} // verus!

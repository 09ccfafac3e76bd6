//! Framing for the TCP benchmark: each payload is sent after its length, as
//! a 4-byte little-endian integer. And the write modes that are measured.

use vstd::prelude::*;
use crate::bytes::{get32, le32, push32, read32};
use crate::text::str_eq;

verus! {

/// The length of a frame header.
pub const HEADER_LEN: usize = 4;

/// The frame of a payload: its length, truncated to 32 bits, then the
/// payload.
pub open spec fn framed(payload: Seq<u8>) -> Seq<u8> {
    le32(payload.len() as u32) + payload
}

/// Replaces `out` with the frame of `payload`.
pub fn frame(payload: &[u8], out: &mut Vec<u8>)
    ensures
        final(out)@ == framed(payload@),
{
    out.clear();
    push32(out, payload.len() as u32);
    let ghost start = out@;
    let mut i: usize = 0;
    while i < payload.len()
        invariant
            i <= payload@.len(),
            out@ == start + payload@.take(i as int),
        decreases payload@.len() - i,
    {
        out.push(payload[i]);
        i = i + 1;
        assert(out@ =~= start + payload@.take(i as int));
    }
    assert(payload@.take(i as int) =~= payload@);
    assert(out@ =~= framed(payload@));
}

/// The payload length that a frame header announces.
pub fn frame_payload_len(header: &[u8]) -> (r: usize)
    requires
        header@.len() == HEADER_LEN,
    ensures
        r == read32(header@, 0),
{
    get32(header, 0) as usize
}

/// The header of the frame of a payload is the payload's length as four
/// little-endian bytes, so it announces that length; the payload follows
/// it.
pub proof fn lemma_frame_header(payload: Seq<u8>)
    requires
        payload.len() <= u32::MAX,
    ensures
        framed(payload).subrange(0, 4) == le32(payload.len() as u32),
        read32(framed(payload), 0) == payload.len(),
        framed(payload).subrange(4, framed(payload).len() as int) == payload,
{
    let f = framed(payload);
    assert(f.subrange(0, 4) =~= le32(payload.len() as u32));
    crate::bytes::lemma_read32_le32(payload.len() as u32, f, 0);
    assert(f.subrange(4, f.len() as int) =~= payload);
}

/// How the sender writes its frames.
#[derive(Clone, Copy, Debug, PartialEq, Eq, Structural)]
pub enum Mode {
    Buffered,
    Unbuffered,
    Echo,
}

pub open spec fn mode_name(mode: Mode) -> Seq<char> {
    match mode {
        Mode::Buffered => "buffered"@,
        Mode::Unbuffered => "unbuffered"@,
        Mode::Echo => "echo"@,
    }
}

pub open spec fn mode_named(name: Seq<char>) -> Option<Mode> {
    if name == mode_name(Mode::Buffered) {
        Some(Mode::Buffered)
    } else if name == mode_name(Mode::Unbuffered) {
        Some(Mode::Unbuffered)
    } else if name == mode_name(Mode::Echo) {
        Some(Mode::Echo)
    } else {
        None
    }
}

impl Mode {
    /// Every mode, in the order in which they are measured.
    pub fn all() -> (r: [Mode; 3])
        ensures
            r@ == seq![Mode::Buffered, Mode::Unbuffered, Mode::Echo],
    {
        let r = [Mode::Buffered, Mode::Unbuffered, Mode::Echo];
        assert(r@ =~= seq![Mode::Buffered, Mode::Unbuffered, Mode::Echo]);
        r
    }

    pub fn name(self) -> (r: &'static str)
        ensures
            r@ == mode_name(self),
    {
        match self {
            Mode::Buffered => "buffered",
            Mode::Unbuffered => "unbuffered",
            Mode::Echo => "echo",
        }
    }

    /// The mode whose name is `name`, if any.
    pub fn parse(name: &str) -> (r: Option<Mode>)
        ensures
            r == mode_named(name@),
    {
        if str_eq(Mode::Buffered.name(), name) {
            Some(Mode::Buffered)
        } else if str_eq(Mode::Unbuffered.name(), name) {
            Some(Mode::Unbuffered)
        } else if str_eq(Mode::Echo.name(), name) {
            Some(Mode::Echo)
        } else {
            None
        }
    }
}

/// Parsing the name of a mode gives that mode back.
pub proof fn lemma_parse_mode_name(mode: Mode)
    ensures
        mode_named(mode_name(mode)) == Some(mode),
{
    reveal_strlit("buffered");
    reveal_strlit("unbuffered");
    reveal_strlit("echo");
    // The three names have three different lengths.
    assert(mode_name(Mode::Buffered).len() == 8);
    assert(mode_name(Mode::Unbuffered).len() == 10);
    assert(mode_name(Mode::Echo).len() == 4);
}

} // verus!

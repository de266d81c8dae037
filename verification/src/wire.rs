//! Wire framing of packets.
//!
//! Every packet on the wire is one format tag byte followed by the payload:
//! tag 0 is JSON, tag 1 is bincode. Decoding auto-detects the format from the
//! first byte; a buffer whose first byte is no known tag is read whole as
//! untagged JSON, so peers that predate tagging still decode.
use vstd::prelude::*;

verus! {

/// Wire format of a packet payload.
#[derive(Clone, Copy, Debug, PartialEq, Eq, Structural)]
pub enum PacketFormat {
    Json,
    Bincode,
}

impl PacketFormat {
    /// The tag byte that announces this format on the wire.
    pub open spec fn wire_tag(self) -> u8 {
        match self {
            PacketFormat::Json => 0,
            PacketFormat::Bincode => 1,
        }
    }

    /// The format a tag byte announces, if any.
    pub open spec fn tagged(tag: u8) -> Option<PacketFormat> {
        if tag == 0 {
            Some(PacketFormat::Json)
        } else if tag == 1 {
            Some(PacketFormat::Bincode)
        } else {
            None
        }
    }

    pub fn tag(self) -> (t: u8)
        ensures
            t == self.wire_tag(),
    {
        match self {
            PacketFormat::Json => 0,
            PacketFormat::Bincode => 1,
        }
    }

    pub fn from_tag(tag: u8) -> (f: Option<PacketFormat>)
        ensures
            f == PacketFormat::tagged(tag),
    {
        match tag {
            0 => Some(PacketFormat::Json),
            1 => Some(PacketFormat::Bincode),
            _ => None,
        }
    }

    /// The outgoing format held in a process-wide byte: 0 is JSON, any other
    /// value is bincode.
    pub fn from_stored_byte(stored: u8) -> (f: PacketFormat)
        ensures
            f == (if stored == 0 {
                PacketFormat::Json
            } else {
                PacketFormat::Bincode
            }),
    {
        match stored {
            0 => PacketFormat::Json,
            _ => PacketFormat::Bincode,
        }
    }
}

/// Reading a format back from its tag gives the format; a tag that names a
/// format is that format's tag.
pub proof fn lemma_tag_round_trip(format: PacketFormat, tag: u8)
    ensures
        PacketFormat::tagged(format.wire_tag()) == Some(format),
        PacketFormat::tagged(tag) == Some(format) ==> format.wire_tag() == tag,
{
}

/// Storing a format as its tag byte and reading it back gives the format.
pub proof fn lemma_stored_format_round_trip(format: PacketFormat)
    ensures
        (if format.wire_tag() == 0 {
            PacketFormat::Json
        } else {
            PacketFormat::Bincode
        }) == format,
{
}

/// Where the payload of a received buffer is and how to read it.
#[derive(Clone, Copy, Debug, PartialEq, Eq, Structural)]
pub struct Frame {
    pub format: PacketFormat,
    /// Index of the first payload byte in the buffer.
    pub payload_start: usize,
}

/// A buffer that cannot be framed.
#[derive(Clone, Copy, Debug, PartialEq, Eq, Structural)]
pub enum FrameError {
    /// The buffer is empty, so it holds no format tag.
    UnknownFormat,
}

/// The bytes sent for `payload` in `format`.
pub open spec fn framed(format: PacketFormat, payload: Seq<u8>) -> Seq<u8> {
    seq![format.wire_tag()] + payload
}

/// How a received buffer is read.
pub open spec fn frame_of(bytes: Seq<u8>) -> Result<Frame, FrameError> {
    if bytes.len() == 0 {
        Err(FrameError::UnknownFormat)
    } else {
        match PacketFormat::tagged(bytes[0]) {
            Some(format) => Ok(Frame { format, payload_start: 1 }),
            None => Ok(Frame { format: PacketFormat::Json, payload_start: 0 }),
        }
    }
}

/// Tags an encoded payload with its format.
pub fn frame_payload(format: PacketFormat, payload: &[u8]) -> (bytes: Vec<u8>)
    ensures
        bytes@ == framed(format, payload@),
{
    let mut tagged: Vec<u8> = Vec::new();
    tagged.push(format.tag());
    let mut i: usize = 0;
    while i < payload.len()
        invariant
            i <= payload@.len(),
            tagged@ == seq![format.wire_tag()] + payload@.take(i as int),
        decreases payload.len() - i,
    {
        tagged.push(payload[i]);
        i = i + 1;
        assert(tagged@ =~= seq![format.wire_tag()] + payload@.take(i as int));
    }
    assert(payload@.take(payload@.len() as int) =~= payload@);
    tagged
}

/// Detects the format of a received buffer.
pub fn split_frame(bytes: &[u8]) -> (res: Result<Frame, FrameError>)
    ensures
        res == frame_of(bytes@),
{
    if bytes.len() == 0 {
        return Err(FrameError::UnknownFormat);
    }
    match PacketFormat::from_tag(bytes[0]) {
        Some(format) => Ok(Frame { format, payload_start: 1 }),
        None => Ok(Frame { format: PacketFormat::Json, payload_start: 0 }),
    }
}

/// A framed payload is read back in its own format, starting right after the
/// tag, and the bytes from there on are the payload.
pub proof fn lemma_frame_round_trip(format: PacketFormat, payload: Seq<u8>)
    ensures
        frame_of(framed(format, payload)) == Ok::<Frame, FrameError>(
            Frame { format, payload_start: 1 },
        ),
        framed(format, payload).skip(1) == payload,
{
    assert(framed(format, payload)[0] == format.wire_tag());
    assert(framed(format, payload).skip(1) =~= payload);
}

/// A non-empty buffer whose first byte is no format tag is read whole as JSON.
pub proof fn lemma_untagged_is_legacy_json(bytes: Seq<u8>)
    requires
        bytes.len() > 0,
        bytes[0] != 0,
        bytes[0] != 1,
    ensures
        frame_of(bytes) == Ok::<Frame, FrameError>(
            Frame { format: PacketFormat::Json, payload_start: 0 },
        ),
{
}

} // verus!

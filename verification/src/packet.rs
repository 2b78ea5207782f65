//! Captured frame with its decoded header bundle.
//!
//! A `Packet` is created from raw link-layer bytes, decoded once, and then
//! only read.  Header decoding itself is done by the `etherparse` crate; the
//! decoded facts the engine needs (ports, TCP sequence, SYN/FIN flags, where
//! the payload starts) are kept as plain values in `PktHeader`.

use vstd::prelude::*;

verus! {

/// Largest frame the engine accepts, in bytes.
pub const MAX_PACKET_LEN: usize = 2048;

/// Which transport protocol the decoder found.
#[derive(Debug, Clone, Copy, PartialEq, Eq, Structural)]
pub enum TransportKind {
    Tcp,
    Udp,
    Other,
}

/// The decoded header facts of one frame, as plain values.
///
/// `payload_offset` is where the transport payload starts inside the frame
/// buffer and `payload_len` is everything from there to the end of the
/// captured bytes.  The TCP sequence number is kept in host byte order, as
/// the decoder delivers it.
#[derive(Debug, Clone, Copy, PartialEq, Eq, Structural)]
pub struct PktHeader {
    pub transport: TransportKind,
    pub sport: u16,
    pub dport: u16,
    pub seq: u32,
    pub syn: bool,
    pub fin: bool,
    pub payload_offset: usize,
    pub payload_len: usize,
}

impl PktHeader {
    /// Source port of a TCP or UDP frame, 0 otherwise.
    pub fn sport(&self) -> (r: u16)
        ensures
            r == self.sport,
    {
        self.sport
    }

    /// Destination port of a TCP or UDP frame, 0 otherwise.
    pub fn dport(&self) -> (r: u16)
        ensures
            r == self.dport,
    {
        self.dport
    }
}

/// What `decode_headers` hands back before the payload offset is computed.
pub struct DecodedFrame {
    pub transport: TransportKind,
    pub sport: u16,
    pub dport: u16,
    pub seq: u32,
    pub syn: bool,
    pub fin: bool,
    pub payload_len: usize,
}

/// What the header decoder yields on given frame bytes.  Decoding is a
/// function of the bytes alone: the same frame always decodes to the same
/// header facts.
pub uninterp spec fn spec_decode(data: Seq<u8>) -> Option<DecodedFrame>;

/// Relies on `etherparse::PacketHeaders::from_ethernet_slice`: on success the
/// undecoded rest of the frame (the payload) is a suffix of the input slice,
/// so its length is at most the input's length.  Port, sequence and flag
/// fields are returned exactly as that crate decoded them; the sequence
/// number is in host byte order.
#[verifier::external_body]
fn decode_headers(data: &[u8]) -> (r: Option<DecodedFrame>)
    ensures
        r == spec_decode(data@),
        r matches Some(d) ==> d.payload_len <= data@.len(),
{
    let h = match etherparse::PacketHeaders::from_ethernet_slice(data) { Ok(h) => h, Err(_) => return None };
    let payload_len = h.payload.len();
    Some(match h.transport {
        Some(etherparse::TransportHeader::Tcp(t)) => DecodedFrame {
            transport: TransportKind::Tcp, sport: t.source_port, dport: t.destination_port,
            seq: t.sequence_number, syn: t.syn, fin: t.fin, payload_len },
        Some(etherparse::TransportHeader::Udp(u)) => DecodedFrame {
            transport: TransportKind::Udp, sport: u.source_port, dport: u.destination_port,
            seq: 0, syn: false, fin: false, payload_len },
        _ => DecodedFrame {
            transport: TransportKind::Other, sport: 0, dport: 0,
            seq: 0, syn: false, fin: false, payload_len },
    })
}

/// Decoding failures reported by `Packet::decode`.
#[derive(Debug, Clone, Copy, PartialEq, Eq, Structural)]
pub enum PacketError {
    DecodeErr,
}

/// An immutable captured frame: timestamp, raw bytes, and, once `decode` has
/// run, the decoded header bundle.
#[derive(Debug, Clone, PartialEq, Eq)]
pub struct Packet {
    pub timestamp: u128,
    pub data: Vec<u8>,
    pub data_len: usize,
    pub header: Option<PktHeader>,
}

impl Packet {
    /// The buffer holds exactly the captured bytes, and a decoded header is
    /// consistent with the buffer: the payload is a suffix of the frame.
    pub open spec fn wf(self) -> bool {
        &&& self.data@.len() == self.data_len
        &&& self.data_len <= MAX_PACKET_LEN
        &&& match self.header {
            Some(h) => h.payload_offset + h.payload_len == self.data_len,
            None => true,
        }
    }

    /// `decode` has run and succeeded.
    pub open spec fn spec_decoded(self) -> bool {
        self.header is Some
    }

    /// The frame's transport layer is TCP.
    pub open spec fn spec_is_tcp(self) -> bool {
        match self.header {
            Some(h) => h.transport is Tcp,
            None => false,
        }
    }

    /// TCP sequence number in host order; 0 for anything that is not TCP.
    pub open spec fn spec_seq(self) -> u32 {
        match self.header {
            Some(h) => if h.transport is Tcp { h.seq } else { 0 },
            None => 0,
        }
    }

    pub open spec fn spec_payload_len(self) -> u32 {
        match self.header {
            Some(h) => h.payload_len as u32,
            None => 0,
        }
    }

    pub open spec fn spec_payload_offset(self) -> usize {
        match self.header {
            Some(h) => h.payload_offset,
            None => 0,
        }
    }

    pub open spec fn spec_syn(self) -> bool {
        match self.header {
            Some(h) => h.syn,
            None => false,
        }
    }

    pub open spec fn spec_fin(self) -> bool {
        match self.header {
            Some(h) => h.fin,
            None => false,
        }
    }

    /// Copy `len` bytes out of `data` into a fresh, undecoded frame.
    pub fn new(ts: u128, len: usize, data: &[u8]) -> (r: Packet)
        requires
            len <= data@.len(),
            len <= MAX_PACKET_LEN,
        ensures
            r.wf(),
            r.timestamp == ts,
            r.data_len == len,
            r.data@ == data@.subrange(0, len as int),
            r.header is None,
    {
        let mut buf: Vec<u8> = Vec::new();
        let mut i: usize = 0;
        while i < len
            invariant
                i <= len,
                len <= data@.len(),
                buf@ == data@.subrange(0, i as int),
            decreases len - i,
        {
            buf.push(data[i]);
            assert(buf@ == data@.subrange(0, i + 1 as int));
            i = i + 1;
        }
        Packet { timestamp: ts, data: buf, data_len: len, header: None }
    }

    /// Parse the link/network/transport headers and remember the result:
    /// decoding succeeds exactly when the decoder accepts the bytes, and
    /// the stored header carries the decoder's fields, with the payload
    /// located as the decoded suffix of the frame.  On failure the frame
    /// is left as it was, with no header.
    pub fn decode(&mut self) -> (r: Result<(), PacketError>)
        requires
            old(self).wf(),
        ensures
            final(self).wf(),
            final(self).timestamp == old(self).timestamp,
            final(self).data == old(self).data,
            final(self).data_len == old(self).data_len,
            r is Ok <==> spec_decode(old(self).data@) is Some,
            r is Ok ==> ({
                let d = spec_decode(old(self).data@).unwrap();
                final(self).header == Some(
                    (PktHeader {
                        transport: d.transport,
                        sport: d.sport,
                        dport: d.dport,
                        seq: d.seq,
                        syn: d.syn,
                        fin: d.fin,
                        payload_offset: (old(self).data_len - d.payload_len) as usize,
                        payload_len: d.payload_len,
                    }),
                )
            }),
            r is Err ==> *final(self) == *old(self),
    {
        match decode_headers(self.data.as_slice()) {
            Some(d) => {
                let payload_offset = self.data_len - d.payload_len;
                self.header = Some(PktHeader {
                    transport: d.transport,
                    sport: d.sport,
                    dport: d.dport,
                    seq: d.seq,
                    syn: d.syn,
                    fin: d.fin,
                    payload_offset,
                    payload_len: d.payload_len,
                });
                Ok(())
            }
            None => Err(PacketError::DecodeErr),
        }
    }

    /// TCP sequence number in host order; 0 for anything that is not TCP.
    pub fn seq(&self) -> (r: u32)
        requires
            self.spec_decoded(),
        ensures
            r == self.spec_seq(),
    {
        match &self.header {
            Some(h) => {
                match h.transport {
                    TransportKind::Tcp => h.seq,
                    _ => 0,
                }
            }
            None => 0,
        }
    }

    /// Number of payload bytes in the frame.
    pub fn payload_len(&self) -> (r: u32)
        requires
            self.wf(),
            self.spec_decoded(),
        ensures
            r == self.spec_payload_len(),
    {
        match &self.header {
            Some(h) => h.payload_len as u32,
            None => 0,
        }
    }

    /// Offset of the first payload byte inside the frame buffer.
    pub fn payload_offset(&self) -> (r: usize)
        requires
            self.spec_decoded(),
        ensures
            r == self.spec_payload_offset(),
    {
        match &self.header {
            Some(h) => h.payload_offset,
            None => 0,
        }
    }

    /// Whether the SYN flag is set.
    pub fn syn(&self) -> (r: bool)
        requires
            self.spec_decoded(),
        ensures
            r == self.spec_syn(),
    {
        match &self.header {
            Some(h) => h.syn,
            None => false,
        }
    }

    /// Whether the FIN flag is set.
    pub fn fin(&self) -> (r: bool)
        requires
            self.spec_decoded(),
        ensures
            r == self.spec_fin(),
    {
        match &self.header {
            Some(h) => h.fin,
            None => false,
        }
    }

    /// Whether the frame's transport layer is TCP.
    pub fn is_tcp(&self) -> (r: bool)
        requires
            self.spec_decoded(),
        ensures
            r == self.spec_is_tcp(),
    {
        match &self.header {
            Some(h) => matches!(h.transport, TransportKind::Tcp),
            None => false,
        }
    }
}

} // verus!

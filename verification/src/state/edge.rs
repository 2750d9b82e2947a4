//! The changing vertex connection of an edge, encoded in one u64 for the trail.
//!
//! 0 stands for no connection; otherwise bit 63 is set and the low bits hold the
//! next edge's face id (bits 0-5), its color index (bits 6-8) and the vertex id (bits 9-17).

use crate::geometry::constants::{NCOLORS, NFACES, NPOINTS};
use crate::geometry::edge::{CurveLink, EdgeRef};
use vstd::prelude::*;

verus! {

/// The bit that marks an encoded connection as present.
pub const CURVELINK_SOME_BIT: u64 = 0x8000_0000_0000_0000;

/// A connection whose fields fit the configured domains.
pub open spec fn link_in_range(l: CurveLink) -> bool {
    &&& l.next.face_id < NFACES
    &&& l.next.color_idx < NCOLORS
    &&& l.vertex_id < NPOINTS
}

/// The encoding of an optional connection.
pub open spec fn spec_encode(link: Option<CurveLink>) -> u64 {
    match link {
        None => 0,
        Some(l) => ((l.next.face_id as u64) | ((l.next.color_idx as u64) << 6u64) | ((l.vertex_id as u64) << 9u64))
            | CURVELINK_SOME_BIT,
    }
}

/// The decoding of a word.
pub open spec fn spec_decode(encoded: u64) -> Option<CurveLink> {
    if encoded & CURVELINK_SOME_BIT == 0 {
        None
    } else {
        let value = encoded & !CURVELINK_SOME_BIT;
        Some(
            CurveLink {
                next: EdgeRef { face_id: (value & 0x3F) as usize, color_idx: ((value >> 6u64) & 0x7) as usize },
                vertex_id: ((value >> 9u64) & 0x1FF) as usize,
            },
        )
    }
}

/// The bit facts behind the encoding: the marker bit is set in every encoding (and not in
/// 0), and fields within their widths are read back unchanged.
proof fn lemma_encoding_bits(f: u64, c: u64, v: u64)
    by (bit_vector)
    ensures
        ((f | (c << 6u64) | (v << 9u64)) | 0x8000_0000_0000_0000u64) & 0x8000_0000_0000_0000u64 != 0,
        ((f | (c << 6u64) | (v << 9u64)) | 0x8000_0000_0000_0000u64) != 0,
        0u64 & 0x8000_0000_0000_0000u64 == 0,
        (f < 64 && c < 8 && v < 512) ==> (((f | (c << 6u64) | (v << 9u64)) | 0x8000_0000_0000_0000u64)
            & !0x8000_0000_0000_0000u64) & 0x3F == f,
        (f < 64 && c < 8 && v < 512) ==> ((((f | (c << 6u64) | (v << 9u64)) | 0x8000_0000_0000_0000u64)
            & !0x8000_0000_0000_0000u64) >> 6u64) & 0x7 == c,
        (f < 64 && c < 8 && v < 512) ==> ((((f | (c << 6u64) | (v << 9u64)) | 0x8000_0000_0000_0000u64)
            & !0x8000_0000_0000_0000u64) >> 9u64) & 0x1FF == v,
{
}

/// Decoding an encoding gives back the connection.
pub proof fn lemma_decode_encode(link: Option<CurveLink>)
    requires
        link matches Some(l) ==> link_in_range(l),
    ensures
        spec_decode(spec_encode(link)) == link,
{
    if let Some(l) = link {
        let f = l.next.face_id as u64;
        let c = l.next.color_idx as u64;
        let v = l.vertex_id as u64;
        let e = (f | (c << 6u64) | (v << 9u64)) | 0x8000_0000_0000_0000u64;
        lemma_encoding_bits(f, c, v);
        assert(spec_encode(link) == e);
        let d = spec_decode(e);
        assert(d matches Some(dl) && dl.next.face_id == l.next.face_id && dl.next.color_idx == l.next.color_idx
            && dl.vertex_id == l.vertex_id);
    } else {
        lemma_encoding_bits(0, 0, 0);
    }
}

/// The encoding of a present connection is never the encoding of no connection.
pub proof fn lemma_encode_some_nonzero(l: CurveLink)
    ensures
        spec_encode(Some(l)) != 0,
{
    lemma_encoding_bits(l.next.face_id as u64, l.next.color_idx as u64, l.vertex_id as u64);
}

/// Changing edge data: the current vertex connection, encoded.
#[derive(Debug, Clone, Copy)]
pub struct DynamicEdge {
    /// The encoded connection (see the module documentation).
    pub to_encoded: u64,
}

impl DynamicEdge {
    /// No connection.
    pub fn new() -> (r: Self)
        ensures
            r.to_encoded == 0,
    {
        Self { to_encoded: 0 }
    }

    /// The current connection.
    pub fn get_to(&self) -> (r: Option<CurveLink>)
        ensures
            r == spec_decode(self.to_encoded),
    {
        decode_curve_link(self.to_encoded)
    }

    /// The encoding of a connection whose fields are in range.
    pub fn encode_to(link: Option<CurveLink>) -> (r: u64)
        requires
            link matches Some(l) ==> link_in_range(l),
        ensures
            r == spec_encode(link),
            spec_decode(r) == link,
    {
        encode_curve_link(link)
    }
}

impl Default for DynamicEdge {
    fn default() -> (r: Self)
        ensures
            r.to_encoded == 0,
    {
        Self::new()
    }
}

/// Encode an optional connection (fields must be within their configured domains).
pub fn encode_curve_link(link: Option<CurveLink>) -> (r: u64)
    requires
        link matches Some(l) ==> link_in_range(l),
    ensures
        r == spec_encode(link),
        spec_decode(r) == link,
{
    proof {
        lemma_decode_encode(link);
    }
    match link {
        None => 0,
        Some(l) => {
            let face_id = l.next.face_id as u64;
            let color_idx = l.next.color_idx as u64;
            let vertex_id = l.vertex_id as u64;
            let encoded = face_id | (color_idx << 6u64) | (vertex_id << 9u64);
            encoded | CURVELINK_SOME_BIT
        },
    }
}

/// Decode a word into an optional connection.
pub fn decode_curve_link(encoded: u64) -> (r: Option<CurveLink>)
    ensures
        r == spec_decode(encoded),
{
    if encoded & CURVELINK_SOME_BIT == 0 {
        None
    } else {
        let value = encoded & !CURVELINK_SOME_BIT;
        let face_id = (value & 0x3F) as usize;
        let color_idx = ((value >> 6u64) & 0x7) as usize;
        let vertex_id = ((value >> 9u64) & 0x1FF) as usize;
        Some(CurveLink::new(EdgeRef::new(face_id, color_idx), vertex_id))
    }
}

} // verus!

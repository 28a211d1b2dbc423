//! Reading the packets of a capture file's bytes.

use vstd::prelude::*;

use crate::hex::packets_view;

verus! {

/// The error type of the `pcap_file` crate.
#[verifier::external_type_specification]
#[verifier::external_body]
pub struct ExPcapError(pcap_file::Error);

/// The data of each packet of a capture in the pcap format, in order, when
/// the capture reads without error.
pub uninterp spec fn pcap_packet_data(capture: Seq<u8>) -> Option<Seq<Seq<u8>>>;

/// Reads every packet of a capture.
///
/// Trusted: `pcap_file::PcapReader::new` on the bytes (which checks the
/// global header), then the reader's `Iterator::next` until it yields `None`,
/// collected so that the first error stops the reading.  The contract claims
/// only that the outcome is a function of the bytes, named
/// [`pcap_packet_data`]: what the pcap format is, is left to that crate.
#[verifier::external_body]
fn parse_capture(capture: &[u8]) -> (res: Result<Vec<Vec<u8>>, pcap_file::Error>)
    ensures
        res is Ok <==> pcap_packet_data(capture@) is Some,
        res matches Ok(packets) ==> packets_view(packets@) == pcap_packet_data(capture@)->0,
{
    let reader = pcap_file::PcapReader::new(capture)?;
    reader.map(|packet| packet.map(|p| p.data.into_owned())).collect()
}

/// Why a capture could not be read.
#[derive(Debug)]
pub enum CaptureError {
    /// The bytes are not a capture in the pcap format, or a packet of it is cut
    /// short or malformed.
    Unreadable,
}

/// The packets of a capture, each as its data bytes, in the order of the
/// capture; an error when the capture does not read.
pub fn read_capture(capture: &[u8]) -> (res: Result<Vec<Vec<u8>>, CaptureError>)
    ensures
        res is Ok <==> pcap_packet_data(capture@) is Some,
        res matches Ok(packets) ==> packets_view(packets@) == pcap_packet_data(capture@)->0,
{
    match parse_capture(capture) {
        Ok(packets) => Ok(packets),
        Err(_) => Err(CaptureError::Unreadable),
    }
}

} // verus!

//! The decisions of a receiver task. Each message of an exporter is a length
//! `L` in eight little-endian bytes followed by `L` bytes that hold one
//! frame, header first. Connecting and reading are left to the caller, which
//! asks here what to do with what it read.

use crate::constants::{FIRST_EXPORTER_HOST, MM_IP_SUBNET, NUMBER_OF_COBOS};
use crate::error::{ECCReceiverError, GrawFrameError};
use crate::graw_frame::{decode_frame, GrawData, GrawFrame, GrawFrameHeader};
use vstd::prelude::*;

verus! {

/// What a receiver does after it has read the length of a message.
#[derive(Debug, Clone, Copy, PartialEq, Eq, Structural)]
pub enum ReadPlan {
    /// The length was 0: the socket was not ready after all. Wait again.
    Skip,
    /// Read this many bytes and decode them as one frame.
    ReadFrame(u64),
}

/// Decides what follows a message length.
pub fn plan_read(message_size: u64) -> (plan: ReadPlan)
    ensures
        plan == (if message_size == 0 {
            ReadPlan::Skip
        } else {
            ReadPlan::ReadFrame(message_size)
        }),
{
    if message_size == 0 {
        ReadPlan::Skip
    } else {
        ReadPlan::ReadFrame(message_size)
    }
}

/// Decodes the bytes of one message as a frame. A frame that does not decode
/// ends the receiver: the place in the stream is lost with it.
pub fn reciever_read_frame(message: &[u8]) -> (r: Result<GrawFrame, ECCReceiverError>)
    ensures
        match r {
            Ok(frame) => decode_frame(message@) == Ok::<
                (GrawFrameHeader, Seq<GrawData>),
                GrawFrameError,
            >((frame.header, frame.data@)) && frame.wf(),
            Err(e) => match decode_frame(message@) {
                Err(cause) => e == ECCReceiverError::BadFrame(cause),
                Ok(_) => false,
            },
        },
{
    match GrawFrame::from_buffer(message) {
        Ok(frame) => Ok(frame),
        Err(e) => Err(ECCReceiverError::from(e)),
    }
}

/// The IPv4 address of the exporter of CoBo `idx`.
pub fn exporter_address(idx: u8) -> (octets: [u8; 4])
    requires
        idx < NUMBER_OF_COBOS,
    ensures
        octets@ == seq![
            MM_IP_SUBNET[0],
            MM_IP_SUBNET[1],
            MM_IP_SUBNET[2],
            (FIRST_EXPORTER_HOST + idx) as u8,
        ],
{
    let octets: [u8; 4] = [
        MM_IP_SUBNET[0],
        MM_IP_SUBNET[1],
        MM_IP_SUBNET[2],
        FIRST_EXPORTER_HOST + idx,
    ];
    assert(octets@ =~= seq![
        MM_IP_SUBNET[0],
        MM_IP_SUBNET[1],
        MM_IP_SUBNET[2],
        (FIRST_EXPORTER_HOST + idx) as u8,
    ]);
    octets
}

} // verus!

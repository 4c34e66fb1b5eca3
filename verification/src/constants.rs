//! Deployment-fixed constants of the acquisition. To reconfigure a
//! deployment, change the value here and rebuild.

use vstd::prelude::*;

verus! {

/// Number of CoBo modules, and so of upstream endpoints.
pub const NUMBER_OF_COBOS: u8 = 11;

/// Number of AsAd boards per CoBo.
pub const NUMBER_OF_ASADS: u8 = 4;

/// Number of AGET chips per AsAd.
pub const NUMBER_OF_AGETS: u8 = 4;

/// Number of channels per AGET.
pub const NUMBER_OF_CHANNELS: u8 = 68;

/// Number of time buckets in one trace.
pub const NUMBER_OF_TIME_BUCKETS: u32 = 512;

/// Columns of one matrix row: five hardware columns and the trace.
pub const NUMBER_OF_MATRIX_COLUMNS: usize = 517;

/// The CoBo whose time stamp is in step with the other acquisition system.
pub const COBO_WITH_TIMESTAMP: u8 = 10;

/// Bytes per unit in which a frame states its own size and its header's size.
pub const SIZE_UNIT: u32 = 256;

/// The meta type every frame must carry.
pub const EXPECTED_META_TYPE: u8 = 8;

/// Header size, in size units, that every frame must carry.
pub const EXPECTED_HEADER_SIZE: u16 = 1;

/// Frame type of a partial-readout frame.
pub const EXPECTED_FRAME_TYPE_PARTIAL: u16 = 1;

/// Frame type of a full-readout frame.
pub const EXPECTED_FRAME_TYPE_FULL: u16 = 2;

/// Bytes per item in a partial-readout frame.
pub const EXPECTED_ITEM_SIZE_PARTIAL: u16 = 4;

/// Bytes per item in a full-readout frame.
pub const EXPECTED_ITEM_SIZE_FULL: u16 = 2;

/// Number of bytes of a frame header.
pub const HEADER_SIZE_BYTES: usize = 256;

/// Default bound on the number of frames held in the event cache.
pub const MAX_FRAME_CACHE: usize = 1000;

/// Port on which every data exporter listens.
pub const EXPORTER_PORT: u16 = 46005;

/// First three octets of the exporters' addresses.
pub const MM_IP_SUBNET: [u8; 3] = [192, 168, 41];

/// Last octet of the first exporter's address; exporter `idx` is at this plus `idx`.
pub const FIRST_EXPORTER_HOST: u8 = 60;

/// Capacity of the frame queue and of the event queue.
pub const CHANNEL_CAPACITY: usize = 40;

/// Seconds allowed for connecting to an exporter.
pub const CONNECTION_TIMEOUT_SECS: u64 = 120;

} // verus!

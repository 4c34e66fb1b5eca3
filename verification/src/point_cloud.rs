//! A blob of analysis results on its way to a client: the payload and its
//! length, sent as the length in eight little-endian bytes and then the payload.

use vstd::prelude::*;

verus! {

/// The `width` low bytes of `n`, lowest first.
pub open spec fn le_bytes(n: nat, width: nat) -> Seq<u8>
    decreases width,
{
    if width == 0 {
        Seq::empty()
    } else {
        seq![(n % 256) as u8] + le_bytes(n / 256, (width - 1) as nat)
    }
}

/// A payload and its length in bytes.
#[derive(Debug, Clone)]
pub struct PointCloud {
    pub size_bytes: u64,
    pub buffer: Vec<u8>,
}

impl PointCloud {
    /// The recorded length is the payload's.
    pub open spec fn wf(&self) -> bool {
        self.size_bytes == self.buffer@.len()
    }

    /// The bytes that go on the wire.
    pub open spec fn wire(&self) -> Seq<u8> {
        le_bytes(self.size_bytes as nat, 8) + self.buffer@
    }

    /// Wraps a payload.
    pub fn new(buffer: Vec<u8>) -> (cloud: PointCloud)
        ensures
            cloud.wf(),
            cloud.buffer@ == buffer@,
            cloud.size_bytes == buffer@.len(),
    {
        PointCloud { size_bytes: buffer.len() as u64, buffer }
    }

    /// The length in eight little-endian bytes, then the payload.
    pub fn into_bytes(self) -> (bytes: Vec<u8>)
        ensures
            bytes@ == self.wire(),
            bytes@.len() == 8 + self.buffer@.len(),
    {
        let mut full_buf: Vec<u8> = Vec::new();
        let mut rest: u64 = self.size_bytes;
        let mut i: usize = 0;
        while i < 8
            invariant
                i <= 8,
                full_buf@.len() == i,
                full_buf@ + le_bytes(rest as nat, (8 - i) as nat) == le_bytes(
                    self.size_bytes as nat,
                    8,
                ),
            decreases 8 - i,
        {
            let ghost before = full_buf@;
            full_buf.push((rest % 256) as u8);
            proof {
                assert(full_buf@ + le_bytes((rest / 256) as nat, (8 - i - 1) as nat) =~= before
                    + le_bytes(rest as nat, (8 - i) as nat));
            }
            rest = rest / 256;
            i = i + 1;
        }
        assert(full_buf@ =~= le_bytes(self.size_bytes as nat, 8));
        let mut j: usize = 0;
        while j < self.buffer.len()
            invariant
                j <= self.buffer.len(),
                full_buf@ == le_bytes(self.size_bytes as nat, 8) + self.buffer@.take(j as int),
                full_buf@.len() == 8 + j,
            decreases self.buffer.len() - j,
        {
            full_buf.push(self.buffer[j]);
            assert(full_buf@ =~= le_bytes(self.size_bytes as nat, 8) + self.buffer@.take(
                j as int + 1,
            ));
            j = j + 1;
        }
        assert(self.buffer@.take(j as int) =~= self.buffer@);
        full_buf
    }
}

} // verus!

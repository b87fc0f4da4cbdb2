//! RakNet packets and their wire formats.
pub mod ack;
pub mod consts;
pub mod frame;
pub mod frame_laws;
pub mod packets;

use crate::binary::{BinaryStream, BinaryUtilError};
use vstd::prelude::*;

verus! {

/// The bytes that mark an offline (unconnected) message.
pub open spec fn magic_bytes() -> Seq<u8> {
    seq![
        0x00u8, 0xff, 0xff, 0x00, 0xfe, 0xfe, 0xfe, 0xfe, 0xfd, 0xfd, 0xfd, 0xfd, 0x12, 0x34,
        0x56, 0x78,
    ]
}

/// The offline message marker.
pub fn magic() -> (r: [u8; 16])
    ensures
        r@ == magic_bytes(),
{
    let r = [
        0x00u8, 0xff, 0xff, 0x00, 0xfe, 0xfe, 0xfe, 0xfe, 0xfd, 0xfd, 0xfd, 0xfd, 0x12, 0x34,
        0x56, 0x78,
    ];
    assert(r@ =~= magic_bytes());
    r
}

/// Appends the offline message marker.
pub fn write_magic(stream: &mut BinaryStream)
    ensures
        final(stream).data() == old(stream).data() + magic_bytes(),
        final(stream).pos() == old(stream).pos(),
{
    let m = magic();
    stream.put(&m);
}

/// Reads sixteen bytes, which should be the offline message marker.
pub fn read_magic(stream: &mut BinaryStream) -> (r: Result<Vec<u8>, BinaryUtilError>)
    ensures
        BinaryStream::read_outcome(
            *old(stream),
            *final(stream),
            16,
            match r {
                Ok(v) => Ok(v@),
                Err(e) => Err(e),
            },
            old(stream).remaining().take(16),
        ),
{
    stream.get(16)
}

/// Whether sixteen bytes are the offline message marker.
pub fn check_magic(read: &[u8]) -> (r: bool)
    ensures
        r == (read@ == magic_bytes()),
{
    let m = magic();
    if read.len() != 16 {
        return false;
    }
    let mut i: usize = 0;
    while i < 16
        invariant
            i <= 16,
            read@.len() == 16,
            m@ == magic_bytes(),
            forall|j: int| 0 <= j < i ==> read@[j] == m@[j],
        decreases 16 - i,
    {
        if read[i] != m[i] {
            return false;
        }
        i = i + 1;
    }
    assert(read@ =~= magic_bytes());
    true
}

} // verus!

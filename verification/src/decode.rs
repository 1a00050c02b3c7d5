use vstd::prelude::*;

verus! {

/// The unsigned integer that `bytes` spells in little-endian byte order.
pub open spec fn le_bytes_value(bytes: Seq<u8>) -> nat
    decreases bytes.len(),
{
    if bytes.len() == 0 {
        0
    } else {
        bytes[0] as nat + 256 * le_bytes_value(bytes.drop_first())
    }
}

/// Reads one unsigned index of `raw_size` bytes (little endian) out of a raw
/// accessor buffer. The component sizes that occur in mesh index buffers are
/// 1, 2 and 4 bytes; any other size decodes to 0.
pub fn decode_int(buffer: &Vec<u8>, offset: usize, raw_size: usize) -> (r: u32)
    requires
        raw_size == 1 || raw_size == 2 || raw_size == 4 ==> offset + raw_size <= buffer.len(),
    ensures
        raw_size == 1 || raw_size == 2 || raw_size == 4 ==> r == le_bytes_value(
            buffer@.subrange(offset as int, offset + raw_size),
        ),
        !(raw_size == 1 || raw_size == 2 || raw_size == 4) ==> r == 0,
{
    if raw_size == 1 {
        let r = buffer[offset] as u32;
        proof {
            let s = buffer@.subrange(offset as int, offset + 1);
            assert(s.drop_first() =~= Seq::<u8>::empty());
            assert(le_bytes_value(s.drop_first()) == 0);
            assert(le_bytes_value(s) == s[0]);
        }
        r
    } else if raw_size == 2 {
        let b0 = buffer[offset] as u32;
        let b1 = buffer[offset + 1] as u32;
        let r = b0 + 256 * b1;
        proof {
            let s = buffer@.subrange(offset as int, offset + 2);
            let s1 = s.drop_first();
            assert(s1 =~= buffer@.subrange(offset + 1, offset + 2));
            assert(s1.drop_first() =~= Seq::<u8>::empty());
            assert(le_bytes_value(s1.drop_first()) == 0);
            assert(le_bytes_value(s1) == s1[0]);
            assert(le_bytes_value(s) == s[0] + 256 * le_bytes_value(s1));
        }
        r
    } else if raw_size == 4 {
        let b0 = buffer[offset] as u32;
        let b1 = buffer[offset + 1] as u32;
        let b2 = buffer[offset + 2] as u32;
        let b3 = buffer[offset + 3] as u32;
        let r = b0 + 256 * b1 + 65536 * b2 + 16777216 * b3;
        proof {
            let s = buffer@.subrange(offset as int, offset + 4);
            let s1 = s.drop_first();
            let s2 = s1.drop_first();
            let s3 = s2.drop_first();
            assert(s1 =~= buffer@.subrange(offset + 1, offset + 4));
            assert(s2 =~= buffer@.subrange(offset + 2, offset + 4));
            assert(s3 =~= buffer@.subrange(offset + 3, offset + 4));
            assert(s3.drop_first() =~= Seq::<u8>::empty());
            assert(le_bytes_value(s3.drop_first()) == 0);
            assert(le_bytes_value(s3) == s3[0]);
            assert(le_bytes_value(s2) == s2[0] + 256 * le_bytes_value(s3));
            assert(le_bytes_value(s1) == s1[0] + 256 * le_bytes_value(s2));
            assert(le_bytes_value(s) == s[0] + 256 * le_bytes_value(s1));
        }
        r
    } else {
        0
    }
}

} // verus!

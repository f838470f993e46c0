//! Editor state kept between sessions.
use vstd::prelude::*;

verus! {

/// The greatest line number the editor tracks.
pub const MAX_LINE_COUNT: u32 = 4294967295u32;

/// The greatest column number the editor tracks.
pub const MAX_COLUMN_COUNT: u32 = 4294967295u32;

/// The stored form of one checkbox: its line as four little-endian bytes,
/// then 1 if it is toggled and 0 if not.
pub open spec fn checkbox_record(line: u32, toggled: bool) -> Seq<u8> {
    seq![
        (line & 0xff) as u8,
        ((line >> 8u32) & 0xff) as u8,
        ((line >> 16u32) & 0xff) as u8,
        ((line >> 24u32) & 0xff) as u8,
        if toggled {
            1u8
        } else {
            0u8
        },
    ]
}

/// The stored form of the checkboxes, one record after the other.
pub open spec fn checkbox_bytes(data: Seq<(u32, bool)>) -> Seq<u8>
    decreases data.len(),
{
    if data.len() == 0 {
        Seq::empty()
    } else {
        checkbox_bytes(data.drop_last()) + checkbox_record(data.last().0, data.last().1)
    }
}

/// The bytes that store the checkbox states, given by line and whether each is toggled.
pub fn checkbox_state_bytes(data: &[(u32, bool)]) -> (r: Vec<u8>)
    ensures
        r@ == checkbox_bytes(data@),
{
    let mut out: Vec<u8> = Vec::new();
    let mut i: usize = 0;
    while i < data.len()
        invariant
            i <= data@.len(),
            out@ == checkbox_bytes(data@.subrange(0, i as int)),
        decreases data@.len() - i,
    {
        let (line, toggled) = data[i];
        let ghost before = out@;
        out.push((line & 0xff) as u8);
        out.push(((line >> 8u32) & 0xff) as u8);
        out.push(((line >> 16u32) & 0xff) as u8);
        out.push(((line >> 24u32) & 0xff) as u8);
        out.push(if toggled {
            1u8
        } else {
            0u8
        });
        proof {
            let sub = data@.subrange(0, i + 1);
            assert(sub.drop_last() == data@.subrange(0, i as int));
            assert(sub.last() == data@[i as int]);
            assert(out@ == before + checkbox_record(line, toggled));
        }
        i += 1;
    }
    proof {
        assert(data@.subrange(0, data@.len() as int) == data@);
    }
    out
}

} // verus!

//! Cell states and region labels as pixels of a frame.

use vstd::prelude::*;

verus! {

/// The pixel of a cell state in a frame that shows a page: white for state
/// 1, black for any other state.
pub open spec fn state_pixel(state: usize) -> u32 {
    if state == 1 {
        0xffffffu32
    } else {
        0u32
    }
}

/// The pixel of a region label in a frame that shows regions: black for
/// label 0, and for any other label a thousand times the label, cut to 32 bits.
pub open spec fn label_pixel(label: usize) -> u32 {
    if label == 0 {
        0u32
    } else {
        ((label as int % 0x1_0000_0000) * 1000 % 0x1_0000_0000) as u32
    }
}

/// The frame that shows a page, one pixel for each cell.
pub fn state_pixels(cells: &Vec<usize>) -> (buffer: Vec<u32>)
    ensures
        buffer@ == Seq::new(cells@.len(), |i: int| state_pixel(cells@[i])),
{
    let mut buffer: Vec<u32> = Vec::new();
    let mut index: usize = 0;
    while index < cells.len()
        invariant
            index <= cells.len(),
            buffer@ == Seq::new(index as nat, |i: int| state_pixel(cells@[i])),
        decreases cells.len() - index,
    {
        let pixel: u32 = if cells[index] == 1 {
            0xffffff
        } else {
            0x00
        };
        buffer.push(pixel);
        assert(buffer@ =~= Seq::new((index + 1) as nat, |i: int| state_pixel(cells@[i])));
        index = index + 1;
    }
    buffer
}

/// The frame that shows the regions of a page, one pixel for each label.
pub fn label_pixels(labels: &Vec<usize>) -> (buffer: Vec<u32>)
    ensures
        buffer@ == Seq::new(labels@.len(), |i: int| label_pixel(labels@[i])),
{
    let mut buffer: Vec<u32> = Vec::new();
    let mut index: usize = 0;
    while index < labels.len()
        invariant
            index <= labels.len(),
            buffer@ == Seq::new(index as nat, |i: int| label_pixel(labels@[i])),
        decreases labels.len() - index,
    {
        let cell: usize = labels[index];
        let pixel: u32 = if cell != 0 {
            let low: u64 = cell as u64 % 0x1_0000_0000;
            (low * 1000 % 0x1_0000_0000) as u32
        } else {
            0x00
        };
        buffer.push(pixel);
        assert(buffer@ =~= Seq::new((index + 1) as nat, |i: int| label_pixel(labels@[i])));
        index = index + 1;
    }
    buffer
}

} // verus!

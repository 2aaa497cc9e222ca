//! Word-aligned dirty rectangles for refreshing a resident class raster: the
//! raster packs four cells per word along x, so a delta always covers whole
//! words.
use vstd::prelude::*;

verus! {

/// A word-aligned dirty rectangle in cell space with fresh states.
pub struct ClassDelta {
    /// Inclusive min cell (x, y); `x` is 4-aligned.
    pub min: (usize, usize),
    /// Inclusive max cell (x, y); `x + 1` is 4-aligned.
    pub max: (usize, usize),
    /// Layer-major replacement states (`layers * h * w`).
    pub states: Vec<u8>,
}

/// The cells of the dirty x span `cx0..=cx1` widened to whole words: word
/// `w` holds cells `4w..=4w + 3` and is whole when it lies inside the row of
/// `nx` cells. The result covers exactly the whole words that hold a dirty
/// cell, provided the word of `cx0` is whole; `None` otherwise.
pub open spec fn aligned_span(cx0: int, cx1: int, nx: int) -> Option<(int, int)> {
    let w0 = cx0 / 4;
    let w1 = if cx1 / 4 < nx / 4 - 1 { cx1 / 4 } else { nx / 4 - 1 };
    if w0 > w1 {
        None
    } else {
        Some((4 * w0, 4 * w1 + 3))
    }
}

/// Widen the dirty x span `cx0..=cx1` of a row of `nx` cells to whole
/// words (see [`aligned_span`]).
pub fn word_aligned_span(cx0: usize, cx1: usize, nx: usize) -> (r: Option<(usize, usize)>)
    requires
        cx0 <= cx1 < nx,
        cx1 + 4 <= usize::MAX,
    ensures
        match r {
            Some((a0, a1)) => aligned_span(cx0 as int, cx1 as int, nx as int) == Some((a0 as int, a1 as int)),
            None => aligned_span(cx0 as int, cx1 as int, nx as int) is None,
        },
        r matches Some((a0, a1)) ==> a0 % 4 == 0 && (a1 + 1) % 4 == 0 && a0 <= cx0 && a0 <= a1 && a1 < nx,
{
    let ax0 = cx0 - cx0 % 4;
    let up = (cx1 + 1 + 3) / 4 * 4 - 1;
    let ax1 = if up < nx - 1 { up } else { nx - 1 };
    let ax1 = if (ax1 + 1) % 4 == 0 {
        ax1
    } else {
        let b = (ax1 + 1) - (ax1 + 1) % 4;
        if b == 0 {
            return None;
        }
        b - 1
    };
    if ax0 > ax1 {
        return None;
    }
    Some((ax0, ax1))
}

} // verus!

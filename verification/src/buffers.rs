//! Sizes and padding of the buffers handed to the graphics device.
use vstd::prelude::*;

verus! {

/// The number of pixels of an image of `size` (width, height).
pub fn count(size: [u32; 2]) -> (pixels: u64)
    ensures
        pixels == size[0] * size[1],
{
    assert(size[0] * size[1] <= u32::MAX * u32::MAX) by (nonlinear_arith)
        requires
            size[0] <= u32::MAX,
            size[1] <= u32::MAX,
    ;
    (size[0] as u64) * (size[1] as u64)
}

/// The length a buffer of `n` bytes is padded to: at least 16 bytes, and a
/// whole number of 4-byte words.
pub open spec fn padded_len(n: int) -> int {
    let at_least = if n < 16 { 16 } else { n };
    (at_least + 3) / 4 * 4
}

/// `bytes` followed by zeros up to `padded_len` of its length.
pub fn padded(bytes: &[u8]) -> (result: Vec<u8>)
    requires
        bytes@.len() + 3 <= usize::MAX,
    ensures
        result@.len() == padded_len(bytes@.len() as int),
        result@.take(bytes@.len() as int) == bytes@,
        forall|i: int| bytes@.len() <= i < result@.len() ==> #[trigger] result@[i] == 0,
{
    let n = bytes.len();
    let at_least = if n < 16 { 16 } else { n };
    let target = (at_least + 3) / 4 * 4;
    let mut result: Vec<u8> = Vec::new();
    let mut i: usize = 0;
    while i < target
        invariant
            n == bytes@.len(),
            target == padded_len(n as int),
            n <= target,
            i <= target,
            result@.len() == i,
            forall|j: int| 0 <= j < i && j < n ==> #[trigger] result@[j] == bytes@[j],
            forall|j: int| n <= j < i ==> #[trigger] result@[j] == 0,
        decreases target - i,
    {
        if i < n {
            result.push(bytes[i]);
        } else {
            result.push(0);
        }
        i = i + 1;
    }
    assert(result@.take(n as int) =~= bytes@);
    result
}

} // verus!

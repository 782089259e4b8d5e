//! The integer hashes behind the noise and film-grain adjustments: each pixel
//! or lattice point and a seed give 32 well-mixed bits, which the adjustments
//! then scale into their range.
use vstd::prelude::*;

verus! {

/// Product modulo 2^32.
pub open spec fn mul32(a: u32, b: u32) -> u32 {
    ((a as nat * b as nat) % 0x1_0000_0000) as u32
}

/// Sum modulo 2^32.
pub open spec fn add32(a: u32, b: u32) -> u32 {
    ((a as nat + b as nat) % 0x1_0000_0000) as u32
}

/// The 32-bit finalizing mix: xor-shift by 16 and multiply, xor-shift by 15
/// and multiply, then xor-shift by 16.
pub open spec fn mixed(v: u32) -> u32 {
    let a = mul32(v ^ (v >> 16u32), 0x7feb352d);
    let b = mul32(a ^ (a >> 15u32), 0x846ca68b);
    b ^ (b >> 16u32)
}

/// Mix the bits of `value`.
pub fn mix32(value: u32) -> (hash: u32)
    ensures
        hash == mixed(value),
{
    let a = (value ^ (value >> 16u32)).wrapping_mul(0x7feb352d);
    let b = (a ^ (a >> 15u32)).wrapping_mul(0x846ca68b);
    b ^ (b >> 16u32)
}

/// The bits the noise adjustment draws for pixel `(x, y)` under `seed`.
pub open spec fn noise_hash(x: u32, y: u32, seed: u32) -> u32 {
    let v = add32(add32(mul32(x, 374761393), mul32(y, 668265263)), seed);
    let w = mul32(v ^ (v >> 13u32), 1274126177);
    w ^ (w >> 16u32)
}

/// Hash pixel `(x, y)` under `seed` for the noise adjustment.
pub fn noise_bits(x: u32, y: u32, seed: u32) -> (hash: u32)
    ensures
        hash == noise_hash(x, y, seed),
{
    let v = x.wrapping_mul(374761393).wrapping_add(y.wrapping_mul(668265263)).wrapping_add(seed);
    let w = (v ^ (v >> 13u32)).wrapping_mul(1274126177);
    w ^ (w >> 16u32)
}

/// The bits film grain draws for lattice point `(x, y)` under `seed`; the
/// coordinates are taken modulo 2^32.
pub open spec fn lattice_hash(x: i32, y: i32, seed: u32) -> u32 {
    mixed(mul32(x as u32, 0x9e3779b1) ^ mixed(mul32(y as u32, 0x85ebca77) ^ seed))
}

/// Hash lattice point `(x, y)` under `seed` for film grain.
pub fn lattice_bits(x: i32, y: i32, seed: u32) -> (hash: u32)
    ensures
        hash == lattice_hash(x, y, seed),
{
    let inner = mix32((y as u32).wrapping_mul(0x85ebca77) ^ seed);
    mix32((x as u32).wrapping_mul(0x9e3779b1) ^ inner)
}

} // verus!

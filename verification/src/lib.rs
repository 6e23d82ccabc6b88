//! A small puzzle library built around a resumable integer byte-code
//! interpreter: a growable signed 64-bit memory tape, a decode/execute loop
//! with position, immediate and relative addressing, and a suspend-on-input
//! mechanism that lets a caller drive a program across several invocations.
//! Two further puzzle kernels live beside it: a four-body gravity simulation
//! and a sliding-window sum validator.

pub mod intcode;
pub mod moons;
pub mod xmas;

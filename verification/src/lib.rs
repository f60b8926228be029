//! CipherMount: a library for an encrypted userspace filesystem.
//!
//! Every regular file in the backing directory is stored as a single
//! authenticated envelope, `nonce ‖ ciphertext ‖ tag` (AES-256-GCM, 96-bit
//! nonce, 128-bit tag, empty associated data). The `crypto` module holds the
//! envelope codec; the `fuse` module holds the inode registry and the
//! kernel-protocol decision logic that turns offset-based reads and writes
//! into whole-file decrypt–modify–encrypt cycles.

pub mod crypto;
pub mod fuse;

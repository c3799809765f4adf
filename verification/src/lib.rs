//! Source-code similarity detection by winnowing: text is normalised, cut
//! into n-grams, hashed, and the minimum hash of every window of hashes is
//! kept as a fingerprint. Fingerprints of diff hunks are then compared
//! across repositories.

pub mod text;
pub mod winnowing;
pub mod diff;
pub mod detector;
pub mod repo;

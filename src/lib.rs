//! Packaging of project templates into self-describing byte bundles.
//!
//! The heart of the crate is the bundle codec: a sentinel-byte escaping
//! scheme ([`escape`]) and a streaming decoder written as an explicit state
//! machine ([`bowlfile`]). [`bundle_proofs`] proves what holds across
//! calls: decoding an encoded bundle gives it back, and a stream cut inside
//! its header or a path is refused. [`config`] and [`select`] hold the
//! template configuration and the rules on which files go into a bundle and
//! which come out of it.

pub mod symbols;
pub mod escape;
pub mod files;
pub mod bowlfile;
pub mod bundle_proofs;
pub mod config;
pub mod prompt;
pub mod select;

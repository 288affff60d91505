//! Passive decoding of Albion Online chat traffic: Photon Protocol18
//! decoding, link-layer packet parsing, CIDR host filtering and the text
//! handling around translation.
pub mod text;
pub mod protocol18;
pub mod fragments;
pub mod channel;
pub mod clock;
pub mod photon;
pub mod ip;
pub mod number;
pub mod hosts;
pub mod network;
pub mod sniffer;
pub mod translator;
pub mod license;
pub mod glossary;

//! Core of an RTK-GNSS bridge: NMEA-0183 framing and classification,
//! GPGGA decoding, credential and handshake helpers, and the supervisor
//! and bridge state machines that keep a serial receiver and a
//! correction service connected to each other.

pub mod bridge;
pub mod gpgga;
pub mod network;
pub mod nmea;
pub mod sentence;
pub mod serial;
pub mod supervisor;

pub use nmea::Buffer;
pub use nmea::xor;
pub use nmea::is_sentence;
pub use nmea::xor_seq;
pub use nmea::starts_sentence;
pub use nmea::drop_junk;
pub use nmea::extract_from;
pub use nmea::lemma_extract_step;
pub use nmea::lemma_extract_none;
pub use nmea::lemma_junk_transparent;
pub use nmea::cat_pieces;
pub use nmea::lemma_extract_of_interleaving;
pub use gpgga::Angle;
pub use gpgga::Decimal;
pub use gpgga::Gpgga;
pub use gpgga::GpggaParseError;
pub use gpgga::GpggaStatus;
pub use gpgga::parse_decimal;
pub use network::AuthFile;
pub use network::QXWZAccount;
pub use network::auth_request;
pub use network::encode_base64;
pub use network::handshake_ok;
pub use network::uplink_line;
pub use bridge::Bridge;
pub use bridge::BridgeEvent;
pub use bridge::bridge_step;
pub use bridge::bridge_fold;
pub use bridge::uplink_after;
pub use bridge::downlink_after;
pub use bridge::lemma_bridge_symmetry;
pub use serial::SerialStep;
pub use serial::serial_step;
pub use serial::OPEN_TIMEOUT_MS;
pub use serial::LINE_RECEIVE_TIMEOUT_MS;
pub use serial::SERIAL_WINDOW;
pub use supervisor::Emission;
pub use supervisor::Phase;
pub use supervisor::Supervisor;
pub use supervisor::round_outcome;
pub use supervisor::lemma_supervisor_progress;
pub use supervisor::lemma_supervisor_exhaustion;
pub use sentence::NmeaLine;
pub use sentence::classify;
pub use sentence::classify_matches;
pub use sentence::rebuild_nema;
pub use sentence::spec_rebuild;
pub use sentence::canonical_sentence;
pub use sentence::lemma_rebuild_round_trip;

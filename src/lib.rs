//! Verified core of a tracker-coordinated peer-to-peer file distribution system:
//! chunking and reassembly, the tracker's membership and content index, the
//! download coordinator's scheduling decisions and the adaptive fan-out policy.

pub mod fanout;
pub mod naming;
pub mod checksum;
pub mod chunker;
pub mod tracker;
pub mod text;
pub mod reconcile;
pub mod download;
pub mod share;
pub mod chat;

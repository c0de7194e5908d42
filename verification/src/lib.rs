//! Protocol rules of a content-addressed blob network.

pub mod authority_laws;
pub mod bearer;
pub mod bytes;
pub mod channel;
pub mod clock;
pub mod collection_activation;
pub mod collection_blob_inventory;
pub mod collection_delta;
pub mod collection_session;
pub mod dashboard;
pub mod dashboard_laws;
pub mod directory;
pub mod directory_laws;
pub mod encoded;
pub mod exchange;
pub mod hash;
pub mod health;
pub mod health_laws;
pub mod health_record;
pub mod hex_text;
pub mod inventory_laws;
pub mod inventory_progress;
pub mod key_map;
pub mod keys;
pub mod leech;
pub mod numbers;
pub mod observer_laws;
pub mod observers;
pub mod overlay_copy;
pub mod patch_summary;
pub mod probe;
pub mod probe_laws;
pub mod protocol;
pub mod provider;
pub mod publication_progress;
pub mod publisher;
pub mod publisher_laws;
pub mod recorder_laws;
pub mod repair_progress;
pub mod sample;
pub mod segments;
pub mod session_laws;
pub mod wire_laws;

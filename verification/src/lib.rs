//! Cell-site-simulator heuristics, an offline cell tower index and the
//! decisions behind the daemon's self-signed TLS certificate.

pub mod anomaly_laws;
pub mod cell_tower_anomaly;
pub mod opencellid;
pub mod text;
pub mod tls;

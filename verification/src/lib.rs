//! A zero-dimensional interstellar cloud model: ingestion and validation of
//! line-oriented cloud descriptors into a physical-state record.

pub mod text;
pub mod scalar;
pub mod hydrogen;
pub mod cloud;
pub mod laws;

pub use cloud::ChemNetwork;
pub use cloud::Cloud;
pub use cloud::CloudError;
pub use cloud::Composition;
pub use cloud::DustProp;
pub use cloud::Emitter;
pub use cloud::Radiation;
pub use scalar::Scalar;

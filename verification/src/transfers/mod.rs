//! The preparation of the pedestrian graph that transfers are measured on.

pub mod extraction;
pub mod index;
pub mod mapping;
pub mod patterns;
pub mod records;
pub mod reduction;
pub mod shards;
pub mod staging;
pub mod translation;

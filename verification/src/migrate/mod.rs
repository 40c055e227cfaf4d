//! Spring Boot → RustJVM migration: source and configuration converters,
//! and the migration report.
pub mod analyzer;
pub mod converter;
pub mod report;

//! RustJVM: a Java-source route compiler, a dependency-injection container,
//! and the manifest / migration generators around them.
pub mod text;
pub mod k8s;
pub mod hotreload;
pub mod cli;
pub mod fix;
pub mod compiler;
pub mod runtime;
pub mod migrate;

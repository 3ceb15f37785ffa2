//! Helpers for code that reports errors.
pub use crate::source_navigator::SourceNavigator;

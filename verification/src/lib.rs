//! A struct-of-arrays storage engine.
//!
//! Records of a fixed field set are stored column-wise: each field of the
//! record type occupies its own contiguous run of bytes, and all runs are
//! packed into a single allocation.  The [`layout`] module plans the per-field
//! byte offsets for a given capacity; the [`storage`] module owns the
//! allocation and grows, shrinks, relocates and accesses it; the [`record`]
//! module holds the plain-value form of a record and descriptor metadata;
//! the [`zst`] module is the degenerate path for records with no fields.

pub mod layout;
pub mod record;
pub mod storage;
pub mod zst;

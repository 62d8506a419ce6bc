//! Additional history strategies: a plain linearizable store and the
//! optimistic-linear store that keeps a chain of uncommitted snapshots.

pub mod linearizable;
pub mod optimistic;

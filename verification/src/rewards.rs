use vstd::prelude::*;

verus! {

/// Reputation for inviting a node.
pub const INVITE_BONUS: u64 = 10;
/// Reputation for joining by invitation.
pub const JOIN_BONUS: u64 = 5;
/// Reputation per megabyte stored.
pub const STORAGE_PER_MB: u64 = 1;
/// Reputation per hour online.
pub const UPTIME_PER_HOUR: u64 = 1;
/// Reputation for earning a badge.
pub const BADGE_BONUS: u64 = 50;
/// Reputation of a founding node.
pub const GENESIS_BONUS: u64 = 100;

} // verus!

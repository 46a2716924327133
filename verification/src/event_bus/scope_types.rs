//! Well-known scope type constants for `EntityScopeRef`.

use vstd::prelude::*;

verus! {

/// Global scope (no entity).
pub const GLOBAL: u32 = 0;
/// Province scope (raw = province raw id).
pub const PROVINCE: u32 = 1;
/// Nation scope (raw = nation raw id).
pub const NATION: u32 = 2;
/// Character scope (64-bit id split into `raw` (low) and `raw_hi` (high)).
pub const CHARACTER: u32 = 3;
/// Army scope (raw = army raw id).
pub const ARMY: u32 = 4;

} // verus!

//! A budget planning and distribution engine.
//!
//! A `Draft` of income sources and planned expenses is validated and
//! normalized into a `Plan`, in which every expense is a percentage of the
//! total expected income.  Applying a `Plan` to one concrete `Income` yields
//! a `Budget`: a categorized allocation of the income plus a remainder.
//!
//! Amounts are fixed-point decimals: money is kept in hundredths of the
//! currency unit (cents, kopecks), percentages in hundredths of a percent.
//! Whenever an exact result must be brought back to whole cents it is
//! rounded to the nearest cent, ties to the even cent; `finance` states
//! that rule once and every other module reuses it.

pub mod api;
pub mod distribute;
pub mod finance;
pub mod planning;
pub mod projection;
pub mod storage;
pub mod text;
pub mod tree;

//! A scripture corpus engine: it parses a structured translation text into a
//! queryable corpus, answers point, range and chapter lookups with
//! superscript verse markers, samples random verses, detects scripture
//! citations in free text, and partitions the corpus into daily reading
//! assignments across a calendar year.

pub mod bible;
pub mod detect;
pub mod lookup;
pub mod schedule;
pub mod text;

pub use bible::Bible;
pub use lookup::BibleLookup;
pub use schedule::{calculate_reading_for_day, PlanDate, Reading};

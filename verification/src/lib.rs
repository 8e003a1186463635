//! Decision core of a conversational agent runtime.

use vstd::prelude::*;

pub mod base64_text;
pub mod daily_reading;
pub mod dates;
pub mod memory_retrieval;
pub mod memory_summary;
pub mod memory_tools;
pub mod orchestrator;
pub mod records;
pub mod seqs;
pub mod text;
pub mod token_set;

verus! {

} // verus!

//! Fuzzy-matching scoring engine.
//!
//! Given a target string and a query string, decides whether the query's
//! characters occur as an ordered subsequence of the target and, if so,
//! computes a desirability score together with the exact positions used.
//! Callers rank many candidate targets by this score and highlight the
//! returned positions.

mod chars;
mod heatmap;
mod index;
mod search;

pub use chars::{boundary, capital, is_uppercase, word};
pub use chars::{boundary_spec, capital_spec, is_word_separator, lower_first, upper_first,
    word_spec};
pub use heatmap::{get_heatmap_str, heatmap_spec, inc_vec, max_heat, DEFAULT_SCORE, MAX_STR_LEN};
pub use index::{bigger_sublist, bigger_than, get_hash_for_string, index_entry,
    lemma_occurrences_wf, occurrences, records_at, CharEntry, StrInfo};
pub use search::{find_best_match, lemma_score_match_wf, lemma_search_wf, score, score_spec,
    search_spec, Result, ResultModel};

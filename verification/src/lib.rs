//! Flashcard collection logic: cards and their content hashes, Markdown
//! rendering of card faces, due-date selection, drill session planning, and
//! the statistics shown by the browser.

pub mod browse;
pub mod card;
pub mod card_hash;
pub mod card_html;
pub mod date;
pub mod db;
pub mod drill;
pub mod due;
pub mod error;
pub mod heatmap;
pub mod markdown;
pub mod orphans;
pub mod text;

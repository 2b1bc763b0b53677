//! Aligns a podcast outline with its transcript: time codes, outline
//! documents, heading anchors, and the marking of a transcript with section
//! headings and a table of contents; plus the small text helpers that
//! episode descriptions are built from.

pub mod episode;
pub mod lines;
pub mod marker;
pub mod outline;
pub mod slug;
pub mod text;
pub mod time_code;

pub use episode::{
    and_items, and_names, and_names_on_x, get_episode_slug, get_name_on_x, get_transcript_url,
    prepare_html, EpisodeInfo, Link, Noun, PodcastInfo,
};
pub use marker::{get_md_table_of_contents, mark_transcript};
pub use outline::{parse_outline, sort_by_time, OutlineEntry, ParseOutlineError};
pub use slug::{get_md_heading_url, slug, slug_from_lowercase};
pub use time_code::{TimeCode, TimeCodeError};

//! Corpus curation for episodic media: classifies a directory tree by chapter
//! metadata, extracts the opening-theme interval from chapter titles, builds
//! normalized per-file training labels, numbers catalog snapshots, and caches
//! spectral artifacts in a binary container.

pub mod ai_labels;
pub mod chapters;
pub mod error;
pub mod file;
pub mod mkv;
pub mod spectrogram;
pub mod strutil;
pub mod time;
pub mod utils;

//! The chapter model: named time-range markers as an external extractor
//! reports them, and the media metadata record built around them.

use vstd::prelude::*;
use crate::time::Duration;

verus! {

/// The displayed name of a chapter.
#[derive(Clone, Debug)]
pub struct ChapterDisplay {
    pub title: String,
}

/// A single named time-range marker of a media container: a start timestamp,
/// an optional end timestamp, and a title.
#[derive(Clone, Debug)]
pub struct ChapterAtom {
    pub start_time: String,
    pub end_time: Option<String>,
    pub display: ChapterDisplay,
}

/// One edition's list of chapter atoms.
#[derive(Clone, Debug)]
pub struct EditionEntry {
    pub chapters: Vec<ChapterAtom>,
}

/// The chapter track of a media file.
#[derive(Clone, Debug)]
pub struct Chapters {
    edition_entry: EditionEntry,
}

impl View for Chapters {
    type V = Seq<ChapterAtom>;

    closed spec fn view(&self) -> Seq<ChapterAtom> {
        self.edition_entry.chapters@
    }
}

impl Default for Chapters {
    /// An empty chapter track.
    fn default() -> (r: Self)
        ensures
            r@ == Seq::<ChapterAtom>::empty(),
    {
        let r = Chapters { edition_entry: EditionEntry { chapters: Vec::new() } };
        proof {
            assert(r@ =~= Seq::<ChapterAtom>::empty());
        }
        r
    }
}

impl Chapters {
    /// Builds a chapter track from its atoms.
    pub fn new(atoms: Vec<ChapterAtom>) -> (r: Self)
        ensures
            r@ == atoms@,
    {
        Chapters { edition_entry: EditionEntry { chapters: atoms } }
    }

    pub fn num_chapters(&self) -> (r: usize)
        ensures
            r == self@.len(),
    {
        self.edition_entry.chapters.len()
    }

    /// Read access to the atoms, in order.
    pub fn iter(&self) -> (r: &Vec<ChapterAtom>)
        ensures
            r@ == self@,
    {
        &self.edition_entry.chapters
    }

    /// Write access to the atoms, in order: what the caller leaves in the
    /// borrow is the new track.
    pub fn iter_mut(&mut self) -> (r: &mut Vec<ChapterAtom>)
        ensures
            r@ == old(self)@,
            final(self)@ == final(r)@,
    {
        &mut self.edition_entry.chapters
    }

    /// Consumes the track, handing its atoms out.
    pub fn into_atoms(self) -> (r: Vec<ChapterAtom>)
        ensures
            r@ == self@,
    {
        self.edition_entry.chapters
    }

    /// Appends a freshly written chapter marker.
    pub fn push_chapter(&mut self, timestamp: String, title: String)
        ensures
            final(self)@ == old(self)@.push(
                ChapterAtom {
                    start_time: timestamp,
                    end_time: None,
                    display: ChapterDisplay { title: title },
                },
            ),
    {
        let atom = ChapterAtom {
            start_time: timestamp,
            end_time: None,
            display: ChapterDisplay { title: title },
        };
        self.edition_entry.chapters.push(atom);
    }
}

/// Media metadata as the external prober reports it. The frame rate is kept
/// in thousandths of a frame per second; its `chapters` list is empty exactly
/// when the source had no chapter track.
#[derive(Clone, Debug)]
pub struct VideoMetadata {
    pub duration: Duration,
    pub frame_count: Option<u32>,
    pub frame_rate_millis: u32,
    pub width: u32,
    pub height: u32,
    pub video_codec: Option<String>,
    pub audio_codec: Option<String>,
    pub audio_language: Option<String>,
    pub audio_channels: Option<u8>,
    pub subtitle_languages: Vec<String>,
    pub container_format: Option<String>,
    pub is_vfr: bool,
    pub chapters: Vec<ChapterAtom>,
    pub tags: Vec<String>,
}

impl Default for VideoMetadata {
    /// All-empty metadata: zero duration, no streams, no chapters.
    fn default() -> (r: Self)
        ensures
            r.duration == (Duration { secs: 0, nanos: 0 }),
            r.frame_count is None,
            r.frame_rate_millis == 0,
            r.width == 0,
            r.height == 0,
            r.video_codec is None,
            r.audio_codec is None,
            r.audio_language is None,
            r.audio_channels is None,
            r.subtitle_languages@ == Seq::<String>::empty(),
            r.container_format is None,
            r.is_vfr == false,
            r.chapters@ == Seq::<ChapterAtom>::empty(),
            r.tags@ == Seq::<String>::empty(),
    {
        let r = VideoMetadata {
            duration: Duration { secs: 0, nanos: 0 },
            frame_count: None,
            frame_rate_millis: 0,
            width: 0,
            height: 0,
            video_codec: None,
            audio_codec: None,
            audio_language: None,
            audio_channels: None,
            subtitle_languages: Vec::new(),
            container_format: None,
            is_vfr: false,
            chapters: Vec::new(),
            tags: Vec::new(),
        };
        proof {
            assert(r.subtitle_languages@ =~= Seq::<String>::empty());
            assert(r.chapters@ =~= Seq::<ChapterAtom>::empty());
            assert(r.tags@ =~= Seq::<String>::empty());
        }
        r
    }
}

impl VideoMetadata {
    /// The source carries chapter metadata.
    pub fn has_chapters(&self) -> (r: bool)
        ensures
            r == (self.chapters@.len() > 0),
    {
        self.chapters.len() > 0
    }
}

} // verus!

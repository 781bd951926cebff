//! The data the library works on: timed events read from a json3 file,
//! cleaned cues ready to be written, playlists, and merge jobs.
use vstd::prelude::*;

verus! {

/// A raw timed segment read from the json3 source.
#[derive(Debug, Clone)]
pub struct Event {
    pub start_ms: i64,
    pub end_ms: Option<i64>,
    pub text: String,
}

/// A cleaned, timed subtitle cue ready to be written to any format.
#[derive(Debug, Clone)]
pub struct SubCue {
    pub index: usize,
    pub start_ms: i64,
    pub end_ms: i64,
    pub text: String,
}

/// Output subtitle format.
#[derive(Debug, Clone, Copy, PartialEq, Eq, Structural)]
pub enum SubFormat {
    Vtt,
    Srt,
}

/// Source subtitle type on YouTube.
#[derive(Debug, Clone, Copy, PartialEq, Eq, Structural)]
pub enum SubType {
    Manual,
    Auto,
}

/// A single video entry inside a playlist.
#[derive(Debug, Clone)]
pub struct PlaylistVideo {
    pub url: String,
    pub title: String,
}

/// A YouTube playlist with its title and video list.
#[derive(Debug, Clone)]
pub struct Playlist {
    pub title: String,
    pub videos: Vec<PlaylistVideo>,
}

/// A single subtitle file, named by its file name, paired with its language code.
#[derive(Debug, Clone)]
pub struct SubEntry {
    pub path: String,
    pub lang: String,
}

/// A video file, named by its file name, matched with its subtitle(s),
/// ready to be merged.
#[derive(Debug, Clone)]
pub struct MergeJob {
    pub video_path: String,
    pub subs: Vec<SubEntry>,
    pub output_name: String,
    /// 1 = ID match, 2 = title match, 3 = position match (fallback)
    pub match_stage: u8,
}

/// A subtitle entry as plain values.
pub struct EntryView {
    pub path: Seq<char>,
    pub lang: Seq<char>,
}

impl View for SubEntry {
    type V = EntryView;

    open spec fn view(&self) -> EntryView {
        EntryView { path: self.path@, lang: self.lang@ }
    }
}

pub open spec fn entry_views(v: Seq<SubEntry>) -> Seq<EntryView> {
    v.map_values(|e: SubEntry| e@)
}

/// A merge job as plain values.
pub struct JobView {
    pub video_path: Seq<char>,
    pub subs: Seq<EntryView>,
    pub output_name: Seq<char>,
    pub match_stage: u8,
}

impl View for MergeJob {
    type V = JobView;

    open spec fn view(&self) -> JobView {
        JobView {
            video_path: self.video_path@,
            subs: entry_views(self.subs@),
            output_name: self.output_name@,
            match_stage: self.match_stage,
        }
    }
}

impl SubEntry {
    /// A field-by-field copy.
    pub fn copy(&self) -> (r: SubEntry)
        ensures
            r == *self,
    {
        SubEntry { path: self.path.clone(), lang: self.lang.clone() }
    }
}

/// A field-by-field copy of a list of subtitle entries.
pub fn copy_entries(v: &Vec<SubEntry>) -> (r: Vec<SubEntry>)
    ensures
        r@ == v@,
{
    let mut r: Vec<SubEntry> = Vec::new();
    let mut i: usize = 0;
    while i < v.len()
        invariant
            i <= v.len(),
            r@ == v@.take(i as int),
        decreases v.len() - i,
    {
        r.push(v[i].copy());
        i += 1;
        assert(r@ =~= v@.take(i as int));
    }
    assert(v@.take(v.len() as int) =~= v@);
    r
}

} // verus!

//! Verified core of a YouTube subtitle downloader and cleaner: json3
//! parsing, cue grouping, VTT/SRT rendering, file-name rules, the matching
//! of videos with subtitle files, the yt-dlp and ffmpeg arguments, and the
//! decisions taken on the command line.
pub mod text;
pub mod types;
pub mod writer;
pub mod timecode;
pub mod decode;
pub mod json;
pub mod json3;
pub mod parser;
pub mod pacing;
pub mod util;
pub mod merger;
pub mod downloader;
pub mod cli;
pub mod wrap;

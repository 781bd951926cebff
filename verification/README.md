# subscrub

A YouTube subtitle downloader and cleaner: it downloads json3 captions with
yt-dlp, turns YouTube's rolling captions into clean cues, writes them as VTT
or SRT, and embeds subtitle files into videos with ffmpeg.

The library under `src/` is written in Verus and verified:

- `text`: whitespace, trimming, joining, number rendering, string order, stable sort.
- `types`: events, cues, playlists, merge jobs.
- `decode`, `json`, `json3`: decoding downloaded bytes, reading JSON through
  `serde_json`, and reading json3 caption documents.
- `parser`: tag cleaning and the grouping of words into cues.
- `writer`: VTT and SRT output; `timecode`: reading a timestamp back.
- `util`: safe file names and names that never overwrite.
- `merger`: reading subtitle and video file names, language metadata
  (through `isolang`), matching videos with subtitles, ffmpeg arguments.
- `downloader`: browser choice, yt-dlp arguments and answers, file names,
  retry waits.
- `cli`: command-line shapes, flag validation, language selection.
- `wrap`: packing a language list into terminal lines.

`app/` is the program around it: clap parsing, prompts, progress display,
and running yt-dlp, ffprobe and ffmpeg. `tests/` exercise the library.

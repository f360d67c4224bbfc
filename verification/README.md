# subx

A fansub toolkit: extract subtitles and audio from video, clean and retime
them, convert between SRT, ASS and WebVTT, translate them through
LibreTranslate or an OpenAI-compatible service, check reading speed, and mux
the result back.

## Layout

- `src/` is the library, written in Verus. Every function there carries a
  contract that Verus proves:
  - `subs/`: the subtitle model, the SRT, ASS and WebVTT parsers and
    writers, shifting, cleaning, keyword filtering, conversion and timing
    numbers. Writing and reading back is proved to give the same file: for
    SRT, for every list of events with non-negative times and no carriage
    return or blank line inside a text, compared on start, end and text (the only fields
    SRT carries); for WebVTT, for every file the parser returns from text
    whose `WEBVTT` line holds no `-->`, where the written file also parses
    again; for ASS, for every parsed file whose carriage returns all come
    before a line feed, with no second byte-order mark, whose last section
    is `[Events]`, whose events were all read under its final `Format:`
    columns, whose text column is not the first, and whose times are whole
    centiseconds;
  - `time.rs`, `num.rs`, `text.rs`: timestamps, decimal numbers and the
    character-level text functions the parsers are built on;
  - `pattern.rs`: regular expressions from the `regex` crate, whose results
    the contracts name rather than describe;
  - `translate/`: tag protection, the resume cache, prompts and replies,
    batching and the translation pipeline around the engine call;
  - `commands/`, `common/`, `media/`: the decisions of each command (file
    names, track order, ffmpeg and yt-dlp arguments, language codes).
- `app/` is the command-line program: argument parsing, files and folders,
  ffmpeg/ffprobe/yt-dlp processes, HTTP calls to the translation services,
  progress bars and the reports that need floating point.
- `tests/` exercises the library on concrete values.

# lowcat

A library for keeping local sounds: music and sound effects, each in a folder of its own, found again
by name, format and tags.

Files with the same name in different formats make up one sound. Tags, orders of preference and
preview waveforms are kept in a database; what a file says of itself in its comments becomes its
first tags.

## Layout

- `src/` is the verified library. Every function states what it does; Verus proves it.
  - `text`, `number`, `order`, `path`: texts, numbers, orders and paths.
  - `text_map`, `row_set`: the maps and sets that everything else is kept in.
  - `model`: categories, formats, sounds and searching.
  - `db`: the tables of the library, what changes them and what is read from them; `db/laws.rs`
    says what holds of every search.
  - `backend`: the tables together with the folders: scans, imports, conversions, renamings.
  - `downloader`, `media_tools`, `preview_waveform`, `opus_source`: the programs and formats that
    the library works with.
  - `config`: the settings.
  - `library`: the state that users work on; `library/laws.rs` says what holds of it whatever they
    do.
  - `ui`: what keys do.
- `app/` reads and writes: files, the database, the programs, the player.
- `tests/` runs the library on examples.

What is taken on trust stands in three places: lowercasing and appending to texts (`text`), the
statement that reads the files of a category (`db/statements`), and the comments of Opus and FLAC
files (`backend/scanner`).

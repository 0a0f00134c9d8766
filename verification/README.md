# fqdt

A downloader for web novels from the FanqieNovel services: search, chapter
catalogs, chapter text saved as text files or an EPUB book, audio, and a
bookshelf of favourite books.

The library (`src/`) is written in Verus and verified.  It holds the logic:

- `text`: trimming, lines, splitting, decimal numbers, replacing;
- `types`: books, chapters, chapter ranges (`1-50`, `-5`, `10-`, `7`),
  file names and headings;
- `config`: default settings, `config.ini`, command-line overrides, and
  the bookshelf file;
- `json`: JSON values as the library reads them, parsed from text by
  serde_json;
- `api`: service addresses, the order in which services are tried, and
  what their replies yield (books, chapters, chapter text from HTML);
- `download`: chapter files and the `info.list` index;
- `epub`: the files of an EPUB book and the dates it records;
- `audio`: voices, lyrics, audio file names and the audio `info.list`;
- `commands`: which chapters a command fetches and which result a user
  picked.

The program (`app/`) is plain Rust around it: the command line, HTTP and
curl, the cache files, ZIP archives, ID3 tags, progress bars,
worker threads and external programs (`edge-tts`, `lame`).

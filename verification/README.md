# game_scanner

Finds the PSP games that the PPSSPP emulator knows about and describes them.

- `src/` is the verified library (Verus):
  - `bytes.rs`: byte searches (`find_bytes`), prefixes, UTF-8 decoding;
  - `text.rs`: character-level string helpers (suffix and substring tests,
    trimming, splitting);
  - `ini.rs`: reading PPSSPP's settings file (through the `ini` crate) and
    looking values up in it;
  - `iso.rs`: ISO 9660 records, directory extents, the primary volume
    descriptor, and path lookup as a state machine;
  - `ppsspp.rs`: recent and shared games, game ids, `PARAM.SFO` titles and
    the game description;
  - `files.rs`: directory-listing filters, extraction checks, JSON reading;
  - `laws.rs`: properties proved across these functions.
- `app/` is the program around it: it reads and writes files, walks the disc
  images on disk, and holds the `iced` styles.
- `tests/` runs the library on concrete values.

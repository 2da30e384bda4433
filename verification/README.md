# dupsonic

Finds duplicate audio files by how they sound, with the rules proved in
[Verus](https://github.com/verus-lang/verus).

- `src/` is the library. Every function states what it returns, and Verus proves it.
- `tests/` runs the library on concrete values.
- `app/` is the program around it: the command line, the database, decoding, the network
  and the web interface.

## The library

| Module | What it decides |
|--------|-----------------|
| `scanner` | which files are scanned, and how results are batched |
| `fingerprint` | decoding sessions, the similarity of fingerprints and of durations |
| `container_repair` | the repair of truncated MP4 files |
| `database` | whether a cached file is current, and what is stored and removed |
| `lsh` | band hashes and candidate pairs |
| `union_find`, `matcher` | which files are duplicates of each other |
| `group`, `order` | what is in a group that is shown, its identifier, and the order |
| `hash`, `classify` | exact copies, the same audio, different recordings |
| `keep`, `exec` | which file is kept, and what is run on the others |
| `output` | what is printed |
| `tags`, `acoustid`, `identify` | recording IDs from tags and from AcoustID |
| `fpcalc` | cached fingerprints for Picard |
| `cli` | what the command line decides and says |
| `web` | who may connect, and what is answered |
| `globs` | ignore rules in gitignore syntax |
| `path`, `text` | paths and texts |

Durations are nanoseconds, and a similarity is a pair of numbers: how many bits are equal,
out of how many. `app/` turns both into floating-point numbers for people to read.

What the library takes from other crates (`chromaprint-next`, `rusty-chromaprint`, `base64`,
`globset`, `regex`, `sha2`, `ipnet`) stands behind small functions whose contracts are
believed, not proved. Each says in its comment what it claims.

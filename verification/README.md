# lh_core

Little Helper's engine: verifying, checksumming, converting, repairing, tagging and sharing
lossless recordings. `src/` is the library, in which every function carries a contract that
Verus proves; `app/` is the `lh` command around it, which reads and writes files, runs the
reference tools and prints what the library says.

The library works on bytes, samples and plain facts about the file system. Whatever changes a
folder is planned by it as a list of steps, together with the steps that take it back.

| Module | What it is about |
|--------|------------------|
| `format`, `model` | FLAC and WAV: headers, samples, audio digests, writing WAVs |
| `analysis`, `repair` | sector boundaries: reporting, planning and making a repair |
| `checksum`, `digest` | FFP, MD5 and ST5 checksums, and the files that list them |
| `convert`, `output`, `tools` | conversions, staged outputs, and the record of what did the work |
| `tag`, `etree`, `rename`, `infofile` | tags, etree names, renaming a set, info files |
| `sample` | short MP3 clips under a size limit |
| `torrent` | reading, making and checking torrents, and the tracker list |
| `scan`, `job`, `config` | working sets, batches of jobs, configuration |
| `report`, `display` | what the commands say |
| `text`, `path`, `bytes`, `seqs` | the ground that the rest stands on |

The laws that span functions are the public proof functions whose names begin with `law_`.
What is believed rather than proved are the wrappers around `claxon`, `metaflac`, `bendy`,
`hex`, the hash functions and a few functions of the standard library; each says in its doc
comment what it claims.

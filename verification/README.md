# pijul

The parts of a distributed version control system that read and write its
files, with their behaviour stated in contracts and proved by Verus.

- `src/pages.rs`: B-tree pages, and what it means for two trees to be the same.
- `src/copier.rs`, `src/restorer.rs`: copying a tree to consecutive pages, and
  back to pages of a database; `src/layout.rs`: why what was copied out can be
  copied back.
- `src/entry.rs`: the entries of the tables, and how change identifiers are
  read in another repository.
- `src/channel.rs`: all the tables of a channel.
- `src/tag.rs`: tag files.
- `src/change_file.rs`: change files.
- `src/zstd.rs`, `src/bytes.rs`: compressed streams, and numbers as bytes.
- `src/repository.rs`, `src/limits.rs`: finding and making repositories.
- `src/text_encoding.rs`: the encodings of texts.
- `src/cli.rs`: what the command line program decides.

`app/` is the program: arguments, files, and the pages of the database, which
are read and written with raw pointers.

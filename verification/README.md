# winnow

Source-code similarity detection by winnowing, written in Verus.

Text is cleaned (alphabetic characters only, lowercased), cut into n-grams,
each n-gram is hashed with std's `DefaultHasher`, and the minimum of every
window of n consecutive hashes is kept. Every added line of every hunk of a
patch produced by `git format-patch` is fingerprinted this way, and the
fingerprints of several repositories are grouped into documents (by
repository, commit and file), indexed by hash, pruned by popularity (the
number of other repositories that hold a hash), and every pair of documents
is compared and ranked by its number of matches.

Layout:

- `src/text.rs` — characters, words, lines and trimming.
- `src/winnowing.rs` — cleaning, n-grams, hashing, winnowing, fingerprints of
  a patch, and the winnowing guarantee.
- `src/diff.rs` — the parts of a unified diff that winnowing reads, taken
  from the `unidiff` crate, and a check of the texts that crate reads
  without panicking.
- `src/detector.rs` — documents, inverted index, popularity, pairing and
  ranking of document pairs.
- `src/repo.rs` — reading what `git` prints.
- `app/` — the command-line driver (running `git`, reading files, printing).

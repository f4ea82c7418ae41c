# tone_clone

A verified library for building a profile of a person's own writing from
their GitHub posts, and the command-line program around it.

The program scrapes the posts a user wrote on GitHub (issue and pull request
bodies, comments, reviews) into a local SQLite database, searches and
summarises them, and generates Markdown guides: a voice profile (word and
sentence statistics, style rates, punctuation, common phrases, a breakdown by
post type) and curated examples for each post type.

## Layout

- `src/` — the library, verified with Verus:
  - `text.rs`: whitespace, words, trimming, decimal numbers;
  - `order.rs`: sorting by count, lexicographic order of strings;
  - `analyze.rs` (with `analyze/ngrams.rs` and `analyze/examples.rs`): the
    statistics of a set of posts, common phrases, and the choice of varied
    examples;
  - `source/github.rs`: the scrape of a GitHub account as a state machine —
    which search requests to send, which items of each page are the user's
    own writing, which rows to store, and how the two passes advance;
  - `query.rs` and `store.rs`: the SQL statements of the program, each with
    as many placeholders as parameters, and what is read back from rows;
  - `generate.rs`: the Markdown of the voice profile and the example files;
  - `models.rs`: the stored records.
- `app/` — the program: command-line parsing, the database, running `gh`,
  printing and writing files, and the formatting of fractional figures.
- `tests/` — tests of the library.

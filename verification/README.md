# hashcards

A flashcard library, verified with Verus: cards and their content hashes,
Markdown rendering of card faces, due-date selection, drill-session
planning, the review heatmap grid, and the statistics of the collection
browser.

- `src/` is the verified library. Each public function states its result in
  its contract; the laws that relate several functions are public proof
  functions beside them (for example `browse::lemma_visible_count`: a deck's
  page lists as many cards as the index counts for it).
- `tests/` runs the library on concrete values.
- `app/` is ordinary Rust around it: the SQLite review database, HTML
  rendering with maud, command output and command-line values.

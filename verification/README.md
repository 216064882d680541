# simdxml

An XML parser that builds a flat structural index (tag offsets, kinds, names,
depths, parents, text ranges) and an engine for XPath 1.0 location paths,
unions and predicates that evaluates over that
index, written in Verus: the parser, the index, the XPath grammar and its
evaluation carry contracts over mathematical models and are proved.

## Layout

- `src/index/`: the structural index, its model (`IndexView`), the
  well-formedness invariant, the sequential parser (`parse`) and the tag and
  text accessors.
- `src/parallel/`: chunked parsing: where a document may be cut, the scan of
  one chunk, the merge of chunk scans into one index, and the proof that
  scanning in chunks records what scanning the whole document records.
- `src/simd/`: byte classification: the scalar classifier, which the SSE4.2
  entry point uses.
- `src/xpath/`: the expression grammar and parser, the meaning of an
  expression over the index model, the axes, evaluation, and laws relating
  them.
- `src/xpath_table.rs`: the row logic of the `xpath_text` table function.
- `src/cli.rs`: the computing parts of the `sxq` command line tool (sources,
  JSON output, statistics).
- `app/`: the `sxq` binary (arguments, files, terminal output, threads) and
  the DuckDB extension glue.
- `tests/`: tests run against the compiled library.

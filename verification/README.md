# noise_query

A verified parser for the query language of a document index. A query looks like this:

```text
find {title: ~="green tea", tags: [=="tea" || =="drink"]}
sort .year desc default=0, .title
return {title: .title, year: .year default=null}
limit 10
```

`find` says which documents are found, `sort` in which order, `return` in which form, and
`limit` how many. All but `find` may be missing.

## Layout

- `src/grammar` states the language: for each construct a function from a text and a
  position in it to what stands there, where it ends, and with which message it fails.
- `src/parser` reads queries. Each method is proved to return, and to leave the parser, as
  the function of the grammar says.
- `src/laws` proves what holds of the language as a whole. What can be written is read
  back: string literals, integers, all numbers of JSON, JSON values, key paths, filters,
  orders and forms of results. What is read can be written again. The white space between
  the tokens of a filter makes no difference, nor does a comma in place of `&&`. And no
  clause reads back or beyond the query.
- `src/filters.rs`, `src/query.rs`, `src/json_value.rs`, `src/key_builder.rs` hold what is
  read, and `src/error.rs` the errors.
- `src/text.rs` holds character classes, byte offsets and decimal numerals.
- `app` runs the parser over a RocksDB snapshot.

## What is trusted

`String::push` of the standard library, and the description and the display of the error
type of `capnp`.

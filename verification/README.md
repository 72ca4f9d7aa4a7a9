# rubyfmt

The layout engine of an opinionated Ruby formatter, written in Verus: every
function in `src/` carries a `requires`/`ensures` contract that Verus proves.

## Layout

- `src/parser_state.rs`: the state a formatter drives while it walks a
  program: indentation, breakable entries (argument lists, arrays, hashes,
  blocks, call chains), pending comments and heredocs, and the render queue.
- `src/render_targets.rs`, `src/delimiters.rs`: breakable entries and call
  chains, their delimiters, and their single-line lengths.
- `src/render_queue_writer.rs`, `src/intermediary.rs`: laying the render queue
  out into final tokens (one line if an entry fits in 120 columns, across
  lines otherwise; blank-line rules; call-chain indentation; heredoc bodies
  and closing symbols) and writing them. `queue_model` and `layout_of` state
  that layout as spec functions; the writers give exactly those tokens, up to
  which vectors hold their bytes (`toks_eq`).
- `src/file_comments.rs`, `src/comment_block.rs`, `src/ruby_comments.rs`: the
  comments of a source file and the lines that hold code.
- `src/heredoc_string.rs`, `src/string_escape.rs`: heredoc bodies and string
  escaping.
- `src/format_prism.rs`, `src/syntax_node.rs`, `src/format.rs`: the layout
  decisions a formatter takes on parsed nodes, over the library's own node
  type.
- `src/lib.rs`: errors, exit codes, and the syntax check that formatting a
  buffer starts with.
- `app/`: logging setup, and the conversion of the parser's nodes into the
  library's node type.
- `tests/`: tests of the library on concrete values.

The parser (`ruby-prism`) and `memchr` are called from `src/` through a few
trusted wrappers whose contracts name what the parser returns.

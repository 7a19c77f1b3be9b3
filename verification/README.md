# panicgraph

Reports which functions of a crate can panic, why, and through what call path.

The analysis reads the compiler's own control flow graphs, settles the checks
it can, and propagates what is left over the call graph. `src/` is the library
that does so, with its contracts proved; `app/` is what surrounds it.

- `category`, `model`, `graph`, `solve`, `witness`, `select`: the taxonomy, the
  recorded bodies, the merged call graph, which panics reach which function,
  and a shortest path to each.
- `check`, `report`, `api`, `svg`, `picture`, `serve`, `palette`, `args`, `run`,
  `verify`: what is asked and what is answered, as text, JSON, a picture, or
  over HTTP.
- `mir`, `value`, `ranges`, `places`, `state`, `read`, `branch`, `effects`,
  `summary`, `fold`, `edges`, `cover`, `height`, `fixpoint`, `flow`, `extract`,
  `record`, `sinks`: the walk over one body, what it claims of each value, why
  it ends and what it ends with holds, and the record made of it.
- `text`, `bytes`, `json`, `lists`, `table`: strings, documents and tables.

`app/main.rs` is the front end: arguments, builds, files and the server.
`app/driver` is the compiler driver it runs builds through. It links the
compiler's private libraries, so it is built on its own, with a nightly
toolchain that has the `rustc-dev` component.

Each law of the library is a public proof function beside the functions it
speaks of, with the law in words above it, or a clause of the function it is
about.

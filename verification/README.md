# obserde

Schema-first, versioned, validated data contracts. The library's logic is
proved by Verus against its contracts; the outside crates it calls (SHA-256,
base64, the `serde_json` parser) stand behind trusted items whose contracts
say what is assumed of them.

- `src/` is the verified library: contract identities and versions, the
  document tree and paths, schemas, validation, canonical form and content
  hashes, JSON decoding (text in, size checked before parsing) and the JSON
  value mapping, schema diff and compatibility analysis, migrations and the
  migration graph planner, and semantic annotations. Laws of the library are
  public proof functions named `law_*`.
- `app/` is the unverified edge: writing encoded JSON values out as text
  (which turns doubles back into floats), serde forms of the data types, one
  `std::error::Error` type for the library's errors, and the fixture
  generators that read and write files.
- `tests/` exercises the library from outside.

Doubles are carried as their IEEE-754 bit patterns; where a message shows a
double, the caller supplies the rendering (`app::render_f64` gives std's).
Migration transforms and semantic resolvers are supplied by users through
the `Transform` and `SemanticResolver` traits, each with a spec relation
that says which results it may give. A migration holds its transforms by
their own type `T`, so its contracts name the very transform it was built
with; migrations with transforms of different types share a graph as
`Migration<Box<dyn Transform>>`.

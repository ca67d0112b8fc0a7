# protov

`protov` keeps a vendored copy of protobuf sources in step with where they come
from, and generates code out of it with `buf`.

- `protov sync` brings the user's cache of remote sources up to date, fills
  `./vendor` from it and from local sources, and builds every target.
- `protov clean` removes what the last build of each target added, and nothing
  else.

Both read `protov.config.toml`:

```toml
[[source]]
type = "remote"
url = "https://github.com/org/public"
tag = "v1.2.3"
path = "protos"
name = "public"

[[source]]
type = "local"
path = "~/org/monorepo/protos"
name = "monorepo"

[[target]]
out_path = "./go"
out_gen_path = "./go/buf.go.yaml"
sources = ["public", "monorepo"]
```

The path of a local source may start with `~/`, the home directory, and may refer to
environment variables as `$NAME`. A reference to a variable that is not set stays as
it is written.

## Layout

- `src/` is the library, verified with Verus. It decides everything and touches
  nothing: each procedure is a *run* that asks for one piece of outside work at a
  time (`protocol::Request`) and is handed what came of it (`protocol::Reply`).
  A step function in the specification says what each step does; public proof
  functions named `law_…` say what holds of whole runs, whatever the replies; some
  of them speak of runs on a modelled disk (`disk`), such as that `clean` after a
  build restores the targets.
- `app/` is the program around it: the command line, the files in TOML and JSON,
  and the loop that does what a run asks for.
- `tests/` runs the library on given replies and against a disk in memory.

Paths are taken in the Unix form, as bytes.

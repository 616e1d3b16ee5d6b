# libpijul

A verified core of the Pijul version control system, written in Verus: the
application of changes to a channel (new vertices, edge maps, the removal of
obsolete pseudo-edges, the repair of zombies, missing contexts and cyclic
paths), the tables of a pristine held as vectors, the helpers of the output
of a working copy (file names, dead files, redundant edges, the order of
conflicting names), identities, configuration, interactive prompts, and the
decisions of the commands.

Layout:

- `src/` — the library, verified by Verus. Each module states its model in
  spec functions over `Seq`, `Set` and `Map`, and each public function its
  contract over that model. Calls into outside crates (`whoami`,
  `validator`, `chrono`, `dateparser`) go through small trusted wrappers,
  each with a doc comment that says what its contract claims of the crate.
  A result that depends on the clock is only bounded, not named.
  - `pristine`, `graph`, `txn`, `change`, `changestore`: the data model.
  - `atoms`, `apply`, `missing_context`, `application`: applying changes.
  - `output`, `path`, `working_copy`: the working copy.
  - `base32`, `config`, `identity`, `interaction`, `commands`: the rest.
- `tests/` — tests of the library on concrete values.
- `app/` — what is left outside the library: file and network input and
  output, the terminal (`dialoguer`, `indicatif`), and the serde forms of the
  configuration files.

What is not here: the walk of the graph that writes files out and collects
conflicts, and the name choice for a file, rest on tables that this library
does not model in full. The state of a channel is modelled as a fold of a
simple arithmetic step (`merkle_next`) over the hashes of its log, not as a
cryptographic accumulator.

# passbox

A password store for machines that run agents, with its decisions verified by Verus. Secrets are
age files; a broker decides who may open them, and an agent gets a value only inside one child
process.

- `src/` is the library. It touches no file, socket or process: an operation on the store returns
  the steps to take, and a conversation with the outside is a function from a state and an event to
  the next state and what to do. Every item is verified.
- `src/outside.rs` is what the library takes on trust: one function for each function of age, hex,
  sha2, rand, zeroize and serde_json that it calls, and for a few of std, with what is claimed of
  it. The claim for `String::push` stands in `src/text.rs`.
- `src/promises.rs`, `src/travel.rs`, `src/trust.rs`, `src/course.rs`, `src/alike.rs` and
  `src/shape.rs` state what holds across operations: of the files of a store, of a sync between two
  machines, of the broker, of a request to it as a whole, of two requests side by side, and of the
  tree of names.
- `tests/` runs the library against stores kept in memory.
- `app/` is the command line around it: files, sockets, processes and prompts.

| Module | What it decides |
|---|---|
| `store`, `history`, `index`, `lookup` | where things are, versions and tombstones, the list of names, finding a secret |
| `crypto`, `header`, `project`, `se` | keys and wraps, how an age file begins, manifests and grants, what the Secure Enclave helper is asked |
| `broker` | windows, leases, tokens, and every step of a request |
| `import`, `yubikey` | what comes out of a pass store, what a token is asked to do |
| `sync` | what is copied which way, and what stays at home |
| `mcp`, `commands`, `errands`, `setup` | the tools, the commands, and the commands that go back and forth with the outside |
| `disk`, `table`, `order`, `number`, `text`, `tree`, `problem` | what the rest is made of |

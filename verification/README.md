# codetracer_circom_recorder

A recorder of Circom circuits for CodeTracer: it compiles a circuit with
`circom`, runs the generated witness calculator (WASM through Wasmtime, or
the C++ generator), and writes the execution trace as a CTFS bundle.

The library in `src/` is written in Verus and verified; its calls into
`num-bigint`, `serde_json` and `String::push` stand behind a few small
trusted wrappers whose contracts restate those functions' documentation.

| Module             | What it holds                                                          |
| ------------------ | ---------------------------------------------------------------------- |
| `text`             | String helpers with their specifications (trim, split, digits, ...)    |
| `signal_hierarchy` | Dotted signal paths and the grouping of signals by component          |
| `ast`, `lexer`, `grammar`, `parser` | The structured parser of Circom templates and its grammar |
| `value`, `semantics`, `evaluator` | Compile-time evaluation of templates, events per line   |
| `tracer`           | Line scanners over the source and the `.sym` file, witness arithmetic |
| `cpp_witness`      | The compiler's source map, the `.wtns` witness format, the input JSON |
| `bignum`           | Field elements as bytes, with `num-bigint` doing the big arithmetic   |
| `recording`        | Signal values from the witness, calculator inputs, log gathering, switches |
| `plan`             | What a trace holds, as a list of trace-writer actions                 |

`app/` is the command-line program around the library: argument handling,
running `circom`, `make` and the witness calculators, file I/O, and playing
the planned actions into the trace writer.

Run the tests with `cargo test`; the proofs with Verus on `src/lib.rs`.

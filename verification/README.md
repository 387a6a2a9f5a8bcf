# blueberry-codegen

Code generation for Blueberry interface definitions, as a library that is verified with Verus.

- `src/ast.rs`, `src/annotations.rs`: the syntax tree as the generators read it.
- `src/common/`: what generators share: naming schemes, topics, the message collector.
- `src/c/`: the C emitter. `tables` resolves names and aliases, `layout` places fields on the wire,
  `builder` and `context` build messages, `docs`, `types`, `macros`, `prototypes` and `source` write
  their parts, `render` puts the two files together and `generate` is the way in. `used` shows which
  built-in names the files depend on.
- `src/typescript.rs`: enumerations in TypeScript.
- `src/cli/`: what the command line tool checks and changes before it generates: keys, imports,
  merging of files, diagnostics.
- `src/analysis.rs`: what an editor is told about a source.
- `app/`: the program around the library. It reads and writes files, draws diagnostics, and calls
  the parser and the generators that live in crates of their own.

Text is specified as a sequence of characters. Each function that writes text states in its
contract exactly which characters it appends. Public proof functions named `law_..` state what
holds across functions: that fields do not overlap, that keys are given out once, that merging
loses no definition, that a second pass changes nothing.

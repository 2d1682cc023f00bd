# reowolf

A verified library for the Reowolf protocol runtime: the protocol description language
(lexer, parsers, abstract syntax, evaluator and interpreter), the predicates and solution
storage of the synchronous round, the wire format, and the decisions of the runtime's
actors, each stated as a contract and proved with Verus.

Layout of `src/`:

- `common`, `arena`, `errors`, `endpoint`: keys, channels, messages and errors.
- `inputsource`, `lexer`, `grammar`, `parser`, `stmt_grammar`, `stmt_parser`, `ast`: source
  text, tokens and the parsers of expressions and statements.
- `eval`, `store`, `prompt`: values, expression evaluation and statement stepping.
- `predicate`, `queryable`, `solutions`, `tern`, `bitset`, `bititer`, `vec_storage`: predicates over
  channels, the solution storage of a round and the bit-level containers.
- `serde`: the byte encoding of messages.
- `setup`, `tree`: the planning of a controller's endpoints and the election of the sink
  tree when controllers connect.
- `round`: a controller's decisions during a synchronous round.
- `native`, `kickoff`: the native component's branches during a round.
- `polyp`: a protocol component's speculative branches during a round.

`app/` holds what touches the file system and standard output, and the loops that drive
a controller's set-up and rounds over a transport and the branches of a protocol component
through the interpreter.

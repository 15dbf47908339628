# rach

Rach is a small scripting language for automation: shell commands, files,
browsers driven over WebDriver, ASCII art and code templates. This crate is
its verified core, written in Verus.

## Layout

- `src/` — the library. Its functions are verified against their
  contracts, except a few small trusted wrappers around calls into std and
  serde_json (marked `external_body`, each with a doc comment saying what
  its contract claims of the call):
  - `lexer`, `parser`, `grammar`, `ast`: source text to tokens to syntax
    tree. The tokenizer is specified exactly. `grammar` states the token
    grammar as recognizers (expressions with their precedence levels, calls,
    brackets, lists, maps, statements, blocks, functions, structs, impl
    blocks and whole programs); the parser owes success, ending where the recognizer ends, on
    every phrase of it, and an error at the missing operand where one is
    missing. The parser's contracts also give the precedence tree of
    expressions built from numbers, names, symbol operators and `not`, the
    expression inside brackets, the arguments of calls, the items of lists
    and the entries of maps; for statements, the test of an `if`,
    assignments, `return`, bash DSL lines, and the conditions, loop
    variables, iterables, C-style `for` parts, `switch` arms, `try` rescue
    parts, `assert` messages and bodies of compound statements, nested
    blocks at every depth; the name, parameters, defaults and body of
    functions; the structs and impl blocks of a program, in order; and the
    depth limit.
  - `commands`: the command registry and how multi-word calls resolve.
  - `scopes`, `logging`: the interpreter's variable frames and its log
    ring buffer, with their laws (read after write, frames that undo).
  - `interpreter`: runtime errors and the rendering of diagnostics.
  - `text`, `numfmt`, `collections`, `json`, `time`: the string, number,
    list, JSON and date helpers the built-in commands use.
  - `native`: the CRC-32, base64 and byte reversal of the native helper
    commands.
  - `ascii`, `bash`, `ai`, `web`, `webdriver`, `http`, `system`, `os`,
    `script`, `repl`: the computing half of the built-in commands; sockets,
    processes and files are left to the application.
- `app/` — the `rach` command: reading scripts, the evaluator (its values
  include floating-point numbers), WebDriver sessions, processes and files.
- `tests/` — tests of the library.

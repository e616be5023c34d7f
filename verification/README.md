# termlang

TermLang is a language whose only memory is a grid of pixels, each with three `u8`
channels (red, green, blue), drawn in the terminal while the program runs. All numbers
are `u8`.

Source code goes through three stages, each verified with Verus against a
specification written over sequences:

1. **Kernel compilation** (`compiler::kernel`): the source is cut into lines at `;`,
   `{` and `}`, then rewritten pass by pass into the kernel language: `#size` and
   `#stack` commands, `define` names, references `#[..]` and `#name`, pointers `[x,y]`,
   functions `fn:` / `return:`, operators, memory writes, calls with a result address,
   `elseif` and missing `else` blocks.
2. **Tree building** (`parse::create_syntax_tree`): kernel lines become procedures of
   instructions (`Call`, `IfElse`, `While`) over values (numbers, arguments, memory reads).
3. **Interpretation** (`interpreter::run`): a call stack of frames runs the tree on a
   `sigma::Sigma` memory, step by step, with the builtins of `builtin`.

`renderer` computes the terminal frames (only the cells whose pixels changed are
redrawn). `app/` is the command: it reads files, queries the terminal size, shares the
memory with a drawing thread and prints.

Layout: `src/` the verified library, `tests/` its tests, `app/` the command.

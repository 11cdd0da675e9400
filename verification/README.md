# clitools

Small Unix text and file utilities (`cat`, `comm`, `echo`, `find`,
`fortune`, `grep`, `head`, `ls`, `uniq`, `wc`) whose computing part is a
library verified with Verus.

- `src/` is the verified library. Each tool has a module whose `run` takes
  the tool's options and what was read from disk (file contents, directory
  listings, walks, metadata) and returns a `Report`: standard output,
  standard error, and the error that ended the run. Contracts state the
  output over spec functions; public proof functions state the laws that
  hold across inputs (for example that `uniq`'s runs cover every line once,
  or that inverting a `grep` search keeps exactly the other lines).
- `src/text.rs` models reading input line by line, as a buffered reader
  does, including where reading stops on a line that is not UTF-8.
- Calls into `regex`, `rand`, `itertools` and `tabled`, and a few standard
  library functions, stand behind small trusted wrappers whose contracts say
  what the call returns.
- `tests/` exercises the library on concrete inputs.
- `app/` is the command-line program: argument parsing with `clap`, reading
  files and standard input, walking directories with `walkdir`, file
  metadata with `uzers` and `chrono`, and printing the reports. The tool is
  chosen by the name the program runs under or by its first argument.

# animfetch

An animated system fetch you can work inside: the fetch stays pinned at the top
of the terminal and keeps animating while your prompt and command output scroll
below it.

The logic is a library verified with Verus; the program around it is ordinary
Rust.

- `src/` is the library. Every function in it carries a `requires`/`ensures`
  contract, and Verus proves each one except five that are believed rather
  than proved: the calls into `unicode-width` (`unicode_char_width`,
  `unicode_str_width`) and into std (`char::is_alphanumeric`, the `{:?}`
  formatting of a string, and `String::push`), each stating only what that
  code is documented or seen to do.
  - `anim`: parsing frames into coverage masks, finding enclosed holes
    (`grid`), resampling to character cells, fitting a box, loading and listing
    animations.
  - `render`: composing the fetch pane and painting it incrementally.
  - `layout`: fitting the art beside the info pane and splitting the screen.
  - `color`, `palette`: colours, SGR sequences, gradients, desktop palettes.
  - `config`, `cli`: the configuration and the command line's overrides.
  - `fetch`: turning what was read from the machine into info rows.
  - `prompt`, `session`, `screen`, `term`: the interactive prompt, the
    decisions each mode makes, and the bytes written to the terminal.
  - `text`: the string helpers the rest is built on.
- `app/` is the program: arguments, the configuration file, reading `/proc`,
  `/sys` and `sysctl`, raw mode, child processes, forking for `--pin`, and the
  loops that tie them to the library.
- `tests/` runs the library on concrete inputs.

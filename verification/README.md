# oxc_tools

The decisions behind a formatter's file discovery and behind a linter's rename fixer, written
in Verus and proved.

- `src/` is the library. Paths are byte strings read the way Unix reads them; it is for such
  machines only, and `app/` compiles only there. What has to be read, loaded or sent is the
  caller's work: a function says what to do next, the caller does it and calls again with the
  answer. Loaded configurations are known by numbers.
  - `path`, `path_index`, `text`: paths, sets and maps of paths, byte strings.
  - `walker`: what the arguments of a command line are, where a run starts, what it comes to.
  - `direct`: files that are named outright.
  - `filter`, `visitor`, `glob`: which entries a walk enters, what becomes of each file, which
    files the glob patterns select.
  - `discovery`, `nested`: which file configures a directory, and what is known of the
    configurations so far.
  - `nearest`: the proof that every file falls under its nearest configuration, whatever order
    the threads of a walk come to things in.
  - `unused_names`: a free name for an unused binding.
- `app/` runs the decisions on a real file system, with a parallel walk, and on the bindings of
  a linter.
- `tests/` runs the library.

Public proof functions whose names begin with `law_` state what holds of several functions
together.

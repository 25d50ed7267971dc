# gig

Terminal autocomplete for any CLI tool, driven by TOML completion specs.

- `src/` is the verified library:
  - `command_spec`: specs, completion candidates for the typed words, and
    which directory listing or generator output a request needs;
  - `complete`: choosing a spec by command name and the text printed for
    the shell hook;
  - `installer`: the hook block added to and removed from a shell rc file;
  - `shell`: the zsh and bash integration scripts;
  - `tui`: the picker's state (fuzzy filter, selection, scrolling, keys);
  - `text`: character-level string operations.
- `app/` is the program around it: argument parsing, TOML parsing, file
  and directory access, running generator commands, and drawing the picker.

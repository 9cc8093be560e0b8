# ofi_pass

A password prompter for the `pass` password store, as a verified library and
a small program around it.

- `src/` is the library, verified with Verus:
  - `text`: lines, words, trimming, prefixes and suffixes, the order of strings;
  - `fields`: the fields of an entry, each name once;
  - `pass`: store entries, reading the text that `pass show` prints, the typing
    sequence, the names of entries found in the store's directory;
  - `conf`: the configuration and the file that remembers the last choice;
  - `menu`: what the menu tools (`rofi`, `wofi`) are run with and what their
    output chooses;
  - `typing`: the action that the field menu picks and the keystrokes that
    carry it out.
- `app/` runs the programs (`rofi`/`wofi`, `pass`, `wtype`), walks the store's
  directory and reads and writes the file of the last choice.
- `tests/` runs the library on concrete values.

# DeepSeek 桌面小部件 / DeepSeek desktop widget

A small widget that shows the use of a DeepSeek account: requests and tokens on each of the
last days, and the balance. The logic is a library verified with Verus; the windows, files and
requests around it are ordinary Rust.

- `src/`: the library. Dates and their text, usage and balance out of whatever JSON the platform
  answers, moving the dates of captured requests, the steps of sending them again, and what the
  widget, its settings and its tray icon show. Every public function has a contract, and what holds
  across functions is stated and proved in functions whose names begin with `law_`.
- `app/`: the program. `store.rs` reads and writes files and sends requests, `widget.rs` and
  `settings.rs` draw the two windows, `login.rs` is the window to log in and `tray.rs` the icon
  in the tray.
- `tests/`: the library on concrete values.

## Building the program

It runs on Windows. There `login.rs` and `tray.rs` further need the crates `tao`, `wry`,
`tray-icon` and `windows`, and two pictures of 32 and 64 pixels a side in bytes of red, green,
blue and alpha: `assets/icon_32.rgba` and `assets/icon_64.rgba`. Elsewhere only the library and
the rest of the program are built.

## What is trusted

JSON is read by `serde_json`, whose values are opened one level at a time in `src/decode.rs`;
the time comes from the system's clock in `src/clock.rs`; and `String::push` of std is described
in `src/text.rs`. Nothing else is taken on trust beyond Verus and its own library.

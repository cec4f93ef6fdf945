# cnterminal

The verified core of CNTerminal, a portable serial terminal with an egui window.

- `src/` is the library, written in Verus and verified:
  - `icon` draws the application icon as RGBA pixels and packs it into a multi-size ICO file;
  - `text` holds the string helpers (trimming, ASCII case, decimal numbers);
  - `codec` converts between bytes, HEX dumps and escaped ASCII;
  - `config` reads the `key=value` settings file and the old bauds-only file;
  - `console` is the terminal's state: console with its line cap, RX line assembly and idle
    split, worker events, sending with its history, the "will send" preview, and the settings
    text;
  - `worker` decides when the serial worker hands received bytes to the window.
- `app/` is the program around it: the egui window, the serial worker thread, the file dialog
  and the files next to the executable.
- `tests/` runs the library on concrete inputs.

The main laws proved in `src/`: saving the settings and reading them back gives them back;
the "will send" preview shows exactly the bytes that sending puts on the wire; HEX dumps and
escaped ASCII parse back to the bytes they show; how received bytes are chunked does not change
the console; the console never holds more than 5000 lines; the send history stays within 50
distinct entries, newest first; the custom baud rates stay valid and sorted.

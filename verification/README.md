# taskband

The logic of Taskband, a bar of status modules for the Windows taskbar, as a
library whose behaviour is stated in contracts and proved with Verus.

- `src/` is the verified library:
  - `editor`: the comment-preserving scanner and text edits of the JSON5
    config (`monitors` rewrite, catalog module append, content hash);
  - `markup`: the span markup a module may print, and plain-text lines;
  - `plugin`: which modules are due, and what a finished command shows;
  - `config`: the config model and the registry that routes modules to
    monitors;
  - `layout`: where the bar and its modules sit on a taskbar;
  - `catalog`: module manifests (read from their JSON5 text), their
    rendering as config text, and the palette order;
  - `server`: the configurator's arrangement logic, request routing and
    access token;
  - `css`: the `css` property values, each module's resolved style, and the
    merging of shared and module classes;
  - `tray`: the tray menu's entries and what each command does;
  - `taskbar`, `text`: monitor records and the string helpers the others
    share.
- `app/` is the program around it: reading the config file, running module
  commands on a worker thread, serving the configurator over HTTP, and, on
  Windows, monitor detection, the bar window embedded in the taskbar and the
  tray icon.
- `tests/` runs the library on concrete values.

Verify with Verus; the tests run with the outside crates linked.

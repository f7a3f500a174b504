# slot

The rules of the Slot+ handheld frontend's menus and services, written in Verus and proved
against their contracts.

- `src/` is the verified library: the quick menu and link screen choices (`quick_menu`,
  `link`), the Wi-Fi scan, profile and status parsers and the Wi-Fi screen (`wifi`,
  `wifi_menu`), the browser transfer server's routing and replies and its screen (`transfer`,
  `transfer_menu`), the updater's release checks and screen (`update`), the raster the screens
  draw on (`face`), and the sequence helpers they share (`text`, `sorting`).
- `tests/` runs the library on concrete values.
- `app/` is the handheld side: the Wi-Fi worker that runs the system tools, the transfer
  server's sockets and card files, and the updater's downloads. It asks the library for the
  routing, parsing, refusals and screen steps, and keeps the order in which files are written
  and system tools are run.

Outside crates: `httparse` reads request heads, `serde_json` reads release data and quotes
JSON strings, `pbkdf2` with `sha1` derives WPA keys. Each call stands behind one trusted
item in `src/` whose contract says what the crate's source shows.

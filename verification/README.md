# droidvm_core

The logic of a virtual machine host for phones, written in Verus: every function of the library is
verified against its contract, and what holds across functions is stated as public proof functions
beside them.

## The library (`src/`)

- `qcow` reads and writes the qcow2 image format. `header`, `geometry` and `tables` say what the
  bytes mean; `open` and `opening` open an image, and `rebuild`, `refblocks` and `rebuilding` repair
  its counts; `map`, `counts`, `refcount` and `place` find, fill, move and free clusters;
  `requests`, `cache` and `decompress` cut what the guest asks for into pieces; `sync` orders what
  goes to the file. The rest are laws: `uses`, `books` and `recount` that the pools, the counts and
  the tables agree, so that no cluster is used twice and none that is free is lost; `rebuilt` that
  what a rebuild leaves in the file are the references; `contents` what the guest sees, and
  `transfers` that it reads what it wrote.
- `shim`, `rm`, `fdt` and `fdt_laws` are the first code that a VM runs: it accepts memory through
  the resource manager's queue and edits the device tree in place.
- `snd` is a virtual sound device: its parameters, what it publishes, its worker, and the integer
  half of concealing underruns.
- `scanout`, `display`, `display_color`, `event_device`, `shared_allocation`, `vnc` and `android`
  are the displays: pixel conversion, imports, event routing, and the two sinks.

Nothing in the library touches a file, a socket or a thread. Where an operation needs something in
between, it is a state machine: a step says what it needs, and the next one is given what came of
it.

Two functions are trusted: `qcow::decompress::inflate` calls flate2, and
`qcow::header::utf8_text` calls `String::from_utf8`. Each says in its comment what is claimed.

## Around it

- `tests/` runs the library on concrete values; `qcow_image.rs` drives whole images in memory.
- `app/` is ordinary Rust: it performs what the library asks for, on files, sockets, threads and the
  platform's native interfaces, and holds what is computed in floating point.

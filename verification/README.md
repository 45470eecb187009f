# jj-android-device

Tools for an Android device that is reached through `adb`:

- `logs` collects the whole log of a device. It goes on by itself after a break in
  the connection, writes nothing that is older than its start, and loses and
  repeats nothing in between.
- `screenshot` keeps a picture of the screen.
- `netwatch` watches the bytes that an application sends and receives.
- `procs` lists the packages that have a process, or all processes.

## Layout

- `src/` is the library. It holds what the tools decide and compute: which lines of
  the log are stored and in which form, when the log reader is started again, how the
  answers of a device are read, and every text that is shown or kept. Each function
  states what it does as a contract, and Verus proves it.
- `app/` is the program around it: the command line, the runs of `adb`, files,
  signals and timers, and the few fields of the device profile that are computed in
  floating point.
- `tests/` runs the library.

What the library takes on trust stands in `src/clock.rs` (time zones and the writing
of dates, from `chrono`), `src/unicode.rs` (lower case and quoting, from the standard
library) and `src/text.rs` (adding a character to a string).

## Where to start

- `router` holds the rules that keep the log complete across breaks, and their laws.
- `collector` and `writer` are the machines that drive a session.
- `text`, `number` and `decimal` are the vocabulary that the rest is stated in.

# midi_staff_trainer

A sight-reading trainer for a MIDI keyboard: notes appear on a treble staff,
the player answers on the keyboard, and a Leitner scheduler brings weak notes
back more often. Songs can also be read from Standard MIDI Files, with their
note lengths and time signature.

The library under `src/` is written in Verus, and Verus proves the contract
of every function there except for four small wrappers: they call `rand`,
`midly` and the system clock, and their contracts are trusted, not proved
(`random.rs`, `smf.rs`, `clock.rs`).

| Module | What it holds |
|--------|---------------|
| `staff` | notes: names, octaves, staff positions, written lengths, how a note is written, naturals of a range |
| `scheduler` | the five-box scheduler and its weighted draw |
| `song` | random sessions, songs read from MIDI files, and `Song` over both |
| `smf` | the call into `midly` that reads a MIDI file |
| `trainer` | what the trainer shows, where bar lines go, and how it judges, scores and sets the range |
| `input` | raw MIDI messages, range keys, choosing an input port |
| `keyboard` | the 88-key piano drawn under the staff |
| `config`, `state` | keyboard configuration and the remembered training range |
| `random`, `clock` | the calls into `rand` and the system clock |

`app/` is the desktop program around the library: the egui window, the MIDI
connection through `midir`, file dialogs, and reading and writing the TOML
files. `tests/` runs the library on concrete values.

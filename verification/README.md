# galla

A minimal, keyboard-driven image and video thumbnail gallery. What it decides is
a library, proved with [Verus](https://github.com/verus-lang/verus); what it
reads, runs and draws is a thin program around it.

## Layout

- `src/` is the library. It takes plain values and gives plain values back.
  - `path`, `text`, `pieces`, `order`: paths as bytes, text, and the mathematics
    of cutting, trimming and stable sorting.
  - `media`: which files are shown, as what, and in which order.
  - `cache`: where still frames of videos are kept and where the configuration is.
  - `config`, `cli`: the external commands and the command line.
  - `codec`: pictures, through the `image` and `egui` crates.
  - `thumb`: how a thumbnail is made, step by step.
  - `gallery`, `layout`: the selection, the viewer, the keys, and the grid.
- `app/` is the program: files, processes, the clipboard and the window.
- `tests/` runs the library on concrete values.

## What is proved

The contract of each function says what it returns or changes for every input,
over a mathematical model of its data. Proof functions whose names start with
`law_` state what holds across functions: that stepping on shows every image
once, that the selection stays in the grid, that the gallery holds exactly the
media files that were asked for, in path order, that a value written to the
configuration is read back, and so on.

What the library has from `image`, `egui` and `std` is called behind a few
declarations whose contracts are believed without proof. Each says so in its doc
comment, which begins with the outside function's name.

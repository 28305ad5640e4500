# Gemma Suite

Tools for GRAFCET (sequential function charts) and the GEMMA (the guide of
the running and stopping modes of a machine), with the model and its rules
verified by Verus.

## Layout

- `src/` — the verified library.
  - `grafcet`: steps, transitions and identifier counters of a GRAFCET.
  - `gemma`: GEMMA states, transitions, conditions (`Expr`) and validation.
  - `circuits`: the simple closed circuits of a GEMMA.
  - `closing`: the rules that close the open circuits of a GEMMA.
  - `questionnaire`: the GEMMA questionnaire and what its answers add.
  - `generate`: the safety (`GS`) and command (`GC`) GRAFCETs, the GRAFCET of
    a circuit, circuit names and the text summary of a GRAFCET.
  - `layout`: the whole-number plan of the automatic GRAFCET layout (loops
    back, levels, columns, divergences, ranks of the return routes).
  - `simulation`: step-by-step simulation of a GEMMA.
  - `diagram`, `tabs`, `editing`: what the editors decide — state titles,
    draggable segments, the tab row, edits of a GEMMA or a GRAFCET.
  - `project`, `storage`, `session`: projects, where they are stored, and the
    application state (open project, section, status line).
  - `text`: trimming and character classes, and the calls into `std` that
    the proofs rely on.
- `tests/` — tests of the library.
- `app/` — a command-line program around the library: project files (JSON,
  with the canvas geometry), the questionnaire file, and the floating-point
  geometry of the canvas.

## Command line

```
gemma_suite new <name> | open <path> | answer <o/n/?…> | generate
            | link <from> <to> | layout <n> | summary | circuits
            | simulate <state…> | save
```

The questionnaire is read from `core/data/gemma_questionnaire.json`; saved
link routes from `data/gemma_routes.json`; the last opened project is
remembered in `data/last_project.txt`.

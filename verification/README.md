# neo_orchestrator

The core of an orchestrator for a statistics workbench, verified with Verus.

* `src/` is the library. It holds two things:
  * the engine that edits cached datasets: pasting blocks, inserting and deleting rows and
    columns, changing the schema, and undoing and redoing each of these (`serve` is the entry);
  * the router that pairs frontends with runners: registration, routing, waiting work, eviction
    and the catalog of modules (`router` is the entry). It is a state machine: each event gives
    the next state and the actions to perform outside.
* `app/` is the program around it: sockets, threads, files, floating-point text, and JSON.
* `tests/` runs the library on concrete values.

The contracts speak of mathematical tables, messages and states. What holds across calls is
stated by the public proof functions whose names begin with `law_`: among others that undo gives
the table back, that redo gives the edit back, that an edit without an issue lands, that numerals
count only as far as an edit consults them, and that no work is lost silently.

What is taken on trust is what the outside crates do: Arrow record batches and IPC files
(`src/capture.rs`), the tables in the headers of such files (`src/blob.rs`, where a file is looked
over before it is read), the insertion-ordered set behind dictionaries (`src/levels.rs`), JSON label
texts (`src/capture.rs`), and three functions of the standard library on text and characters.
Arrow files are written and read on little-endian machines.

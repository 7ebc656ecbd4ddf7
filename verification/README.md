# slacker_gui

The logic behind a GTK front end for `slacker`, the Slackware package tool,
written in Verus and proved against its contracts.

- `src/` is the verified library: the command lines the window runs, the
  parsers for everything slacker prints (status, updates, search, history,
  repositories, mirrors, freeze and pin rules, and the questions it asks),
  the cleaning of terminal output, the job queue, and what each page and
  dialog decides. Each public function states its result exactly; the laws
  that span several functions (or a run of calls) are public proof
  functions.
- `tests/` runs the library on concrete inputs.
- `app/` is the GTK and libadwaita window around the library: widgets,
  dialogs, the child process and its threads.

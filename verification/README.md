# git-mediate

Resolves the mechanically resolvable conflicts that git leaves in files
merged with the `diff3` conflict style: where one side matches the base the
other side is taken, where both sides agree they are taken, and conflicts
whose sides share lines at their edges are reduced to the lines that differ.
Line endings, tabs and indentation can be normalized first.

The library in `src/` is written in Verus and proved against its contracts:

- `parse`: reading a file into plain text and conflicts, and printing it back;
- `resolve`: the resolver and its strategies (`strategies`, `normalize`,
  `window`, `internal`, `split`), and the laws it keeps;
- `simple`: a resolver with a fixed sequence of strategies and no options;
- `diff`: showing the sides of a conflict as line diffs;
- `git`: reading `git status`, the conflict-style check, delete/modify
  conflicts, and the editor's arguments;
- `mediate`, `cli`: the settings of a run, what it decides for each file, and
  its report.

`app/` is the command: its flags, the git commands, the file writes and the
loop over the files. `tests/` exercises the library.

# git_review

A verified core for a GitHub-style code review tool: pick a commit to see
`git show`, or two endpoints to see `git diff from..to`, with a hierarchical
file tree and a syntax-highlighted unified diff.

`src/` is the library, verified with Verus:

- `model`, `collect`, `commits`: the diff model, the folding of libgit2's diff
  callbacks into it, and the commit list with the three kinds of diff.
- `selection`, `settings`, `palette`: what the view shows, how clicks change
  it and which diff query it needs, the toolbar settings, and the light and
  dark palettes.
- `tree`, `keyed_tree`, `nested_tree`, `lower_tree`, `parent_tree`,
  `sorted_tree`, `gtk_tree`: the file tree in the shapes the different front
  ends use, each with its folding of single-folder chains.
- `rows`, `render`, `panel_rows`, `slint_items`, `qt_model`, `web_model`,
  `widgets_model`, `gutter`: the diff view as the rows, items or messages a
  front end draws.
- `highlight`, `ids`, `dates`: the calls into syntect and two-face, git2 and
  jiff, behind small trusted wrappers.
- `paths`, `text`: path components, file icons, trimming, escaping and
  number formatting.

`tests/` runs the library on concrete diffs. `app/` is a command-line front
end that opens a repository with git2 and prints the rendered diff as JSON.

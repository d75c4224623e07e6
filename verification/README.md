# Code Map

Fly over a codebase as a zoomable GPU treemap: every file is a box sized by
its line count, grouped by folder; zoomed in far enough, the code appears
inside the box. A search lights up matching paths, a git heatmap colors files
by how recently or how often they changed, and a 3D city view stacks folders
as plates and files as towers.

## Layout

- `src/` is the library, verified with Verus: the project tree and what
  happens to it (inserting scanned entries, grafting ignored folders read on
  request, totals, git activity, search, heat ranks), reading `git log` and
  `git ls-files` output, the `.gitignore` rules, line summaries of files,
  the interface text in English and Simplified Chinese, and the state of an
  open map with every decision the widget makes on it.
- `app/` is the application around it: the Makepad window and widget,
  drawing, the camera, the floating point treemap layout, and the reading of
  files, folders and git output on background threads.
- `tests/` runs the library on concrete inputs.
- `extras/locales/` holds the translation catalogs, `en-US/main.ftl` and
  `zh-CN/main.ftl`, one `id = text` message per line. Put `locales/` next to
  the executable, or set `CODE_MAP_LOCALES_DIR`. A message missing from the
  chosen language comes from English; one missing there too shows its id.

## Run

```sh
code-map /path/to/some/project            # 2D treemap
code-map /path/to/some/project --3d       # start in 3D city mode
code-map /path/to/some/project --headless # no window, scan statistics only
```

`--lang=zh-CN` (or `CODE_MAP_LANG=zh-CN`) picks the interface language;
otherwise the locale decides, and English is the fallback.

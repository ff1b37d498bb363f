# filelist

A file browser for Wayland: a layer-shell window that lists a folder,
previews the thumbnail of the selected file and prints the path of an
activated row.

- `src/` is the library, verified with Verus:
  - `path`: Unix path names — components, file name, extension, and the
    order of paths component by component;
  - `order`: a stable sort by that order, with its laws;
  - `listing`: `FilePlus`, the listing of one folder, and the listing of a
    folder tree for a wanted extension (`dir_list_one`, `walk_dir`);
  - `browser`: the browser's own listings, which show `png` pictures too;
  - `screen`: the rows the list gets for a listing, for its folders, and
    for a search;
  - `session`: what each key does, row moves, activated rows, thumbnails;
  - `text`: characters of strings, suffix and substring tests.
- `app/` is the program: reading folders (in parallel), the GTK window, the
  thumbnail cache.
- `tests/` runs the library, and holds its path rules against std's `Path`.

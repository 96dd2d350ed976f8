# opfs_project

A package-lock dependency graph and an OPFS-backed project file system for
a browser package manager, written in Verus.

- `src/` is the verified library.
  - `dependency_graph.rs`: the dependency graph of a lock file (packages as
    nodes of a `petgraph` graph, dependency edges), module resolution by
    walking up `node_modules` directories, every simple walk from a package
    to the root package, and the tree that draws those walks.
  - `dep_tree.rs`: merging walks into an ordered tree, and the lines that
    draw it.
  - `model.rs`: the entries of a `package-lock.json` file and the graph they
    describe.
  - `opfs.rs`: path logic of the file system: absolute paths, the package a
    path lies in, `fuse.link` files, and the steps of reading a file or a
    directory through them; the working-directory state.
  - `package_manager.rs`: the install tasks of a lock file and the state
    machine that installs one package (check the store, read or download
    the tarball, unpack, link); tarball entry paths; `fuse.link` contents.
  - `tarball.rs`: the entries of a package tarball (read with `flate2` and
    `tar`) and the files that unpacking it writes.
  - `str_map.rs`: a string-keyed map that keeps insertion order.
  - `text.rs`: character-level string functions and their specifications.
  - `pkg_graph.rs`: the trusted interface to `petgraph`'s `Graph`.
- `app/` is the unverified shell: JSON parsing with serde, the asynchronous
  OPFS calls and downloads, each driven by the library's
  step functions.
- `tests/` runs the library on concrete values.

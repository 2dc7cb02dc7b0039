# libsearchlight

A file carver: it searches a disk image for the headers and footers of configured file types,
pairs them into potential files, validates and reconstructs each potential file (PNG, JPEG and
ZIP, with in-order fragmentation), and carves what it recognises, keeping a log of the carved
files from which they can be carved again.

The library under `src/` is written in Verus and verified:

- `search`: match ids (FNV-1a), the pattern automaton and its table (`search_common`), the
  proof that every added signature drives the table from the start state to the end state
  (`recognition`), the CPU searchers (`ac_cpu`, `pfac_cpu`, `pfac_common`), and the pairing of
  headers with footers (`pairing`).
- `validation`: the validators (`png`, `png2`, `jpeg`, `jpg`, `zip`) behind one trait, and the
  validator that hands each potential file to the validator of its type.
- `classifiers`: the classifier of JPEG scan data.
- `searchlight`: the queue of carving operations, the configuration, the carve log, and the
  computing steps of carving an image (`carving`).
- `io`: the manager of open files and their backends.
- `utils`: ranges, fragments, iterators over windows and chunks, pattern strings, cluster size
  estimation.

`app/` is the command line program around the library: argument handling, reading the TOML
configuration and the JSON carve log, mapping the image into memory, the entropy measure the
JPEG classifier is given, and writing the carved files.

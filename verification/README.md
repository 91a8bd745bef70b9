# ramparils

Automatic configuration of parametrised algorithms by iterated local search.

Given a parameter space, a set of instances and a time budget, the configurator
searches for the configuration with which a target algorithm does best on the
instances. Candidates are evaluated in parallel; results are kept in a cache.

- `src/` is the library, verified with Verus: parameter spaces and their text
  format, configurations, the search with its comparisons, neighbourhoods,
  rounds and checkpoints, the rules of the cache and of its export, scenarios.
  Real numbers are held by their encoding and compared there.
- `app/` is the program around it: command line, files, the database, worker
  threads and processes, floating-point arithmetic, the Python module.
- `tests/` runs the library.

A search is driven from outside. `Search::action` says what it waits for, such as
the evaluation of a configuration on the first so many instances;
`Search::advance` takes the answer.

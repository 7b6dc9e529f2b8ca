# step-redox

Cleanup of STEP Part 21 files that keeps what they mean, and recovery of what they were made
from: rows of instances, solids that repeat, chains within solids, pushed and turned solids.

- `src/` is the library. Every item of it is verified with Verus. It reads and writes files,
  changes their entities, and decides what can be recovered. It does not compute with floating
  point: numbers are kept as they are written or as bit patterns, and what must be measured is
  handed in as evidence.
- `app/` is the command line around it. It reads and writes files on disk, measures places and
  distances, builds models with a kernel, and prints reports.
- `tests/` runs the library, the STEP parser and the character decoder together.

`clean_again::clean_bytes` starts a run. Passes that need no measuring are made at once; at the
others the run stops, names the pass, and goes on with `clean::advance` when the matching function
of `measured` has made it. With the default passes the result is read back, and a file that a
second run would change is refused. `clean_report::report_clean` adds what was found in the
result.

Solids are compared up to quarter turns in `signatures` and `congruence`: points and directions
are handed in as whole billionths, seen from the center of each solid. Chains, formed sheets and
extruded solids are reported by `reports`; changes of numbers of sites run through `count_run`,
which says what has to be measured next.

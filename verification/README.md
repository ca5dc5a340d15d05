# prop_rs

Reading, editing and resolving the storage of Android system properties, in a
library whose functions are verified by Verus. A few small functions that call
prost or the standard library are trusted: their contracts say what those calls
do, and their doc comments name them.

The library (`src/`) covers

- property areas: lookups, listings, writes, deletions, scans of the
  allocations and packing (`prop_area`, `allocation_scan`, `compaction`);
- areas that other processes read while they change: the library lists the
  memory operations of a write in the order in which they are to be carried out
  (`mmap_prop_area`);
- the security contexts of properties, out of a binary table or of text files
  (`property_context`);
- persistent properties, in one protobuf file or in files of their own
  (`persistent_prop`, `legacy_props`), and how a file is replaced as a whole
  (`atomic_write`);
- what the tools `sysprop` and `resetprop` and their helpers decide (`sys_prop`,
  `resetprop`, `commands`, `deploy`).

What holds of the library as a whole is stated in the proof functions whose
names start with `law_`.

The tools themselves are in `app/`: arguments, files, shared memory and the
calls into the C library.

# ballast

A live view of a machine's storage: disks, partitions, loop devices, file
system types, mount points, usage and I/O rates.

- `src/` is the verified library. `text` holds the character-level parsing
  (lines, words, trimming, unsigned numbers); `disk` the device model;
  `disk_io` the `/proc/diskstats` table and the comparison of two samples;
  `platform` what the block-device scan decides from sysfs, `/proc/mounts`
  and the udev database; `name_map` the per-device tables; `tree` the device
  tree of the disk table; `table` its cells; `disks` the table's state
  (selection, options, samples); `app` tabs and key handling.
- `app/` is the terminal program: it reads the files, asks the file system
  for its usage, draws with ratatui, and turns the library's exact integer
  results into floating-point rates.
- `tests/` exercises the library on concrete values.

# format_table

Planning and repair of format tables, written in Verus.

A format table is nothing but data files in a tree of directories. The names of the directories
carry the values of the partition columns; a catalog may keep a list of the partitions.

- `src/` is the library. It decides which directories a scan reads, which of their files are data,
  which splits they make and in which order, and which partitions a repair registers and
  unregisters. Every function has a contract; the proof functions whose names begin with `law_`
  state what holds of several of them together.
- `app/` asks a catalog and a storage on behalf of the library.
- `tests/` runs the library on concrete tables.

How partitions are spelled in paths and in the catalog is left to a `PartitionDialect`.
`HiveDialect` is one for partition columns of character strings, whole numbers and truth values.

Two things are taken from the standard library without proof: that `String::push` appends a
character, and that writing a string by its `Debug` implementation depends on its characters alone.

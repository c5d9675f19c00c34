# ddh_move

Reads the groups of duplicate files that DDH reports (a JSON list of groups,
each with the paths of the copies of one file), orders the copies of each
group so that the one worth keeping comes first, and deletes the others (or,
on a dry run, reports what deleting them would reclaim).

The ordering is the verified library under `src/`:

- `path`: Unix paths held as bytes; their components, their order (by
  components), prefixes by whole components, and the lengths of their parent
  and file name.
- `ordering`: three-way comparisons and the lexicographic order.
- `sorting`: the orders by which copies are ranked (by path, by length, and
  under a prefix/whitelist/blacklist preference), the proof that each is a
  total preorder, and a stable sort whose result is proved unique.
- `dupes`: the groups of copies and the operations on them, with the laws on
  which copy is kept.
- `sizes`: totals of the sizes that could be read, and the binary unit in
  which a byte count is shown.

`app/` holds the command line, the JSON input, the file system, and the
formatting of scaled byte counts.

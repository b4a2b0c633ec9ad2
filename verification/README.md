# keepass

A KeePass database in memory, as a verified library: entries with their history, groups, custom
icons and attachments, the compaction of the attachment pool, and the two-way and three-way merging
of versions of the same database.

- `src/` is the library. `content`, `order`, `sorted_map` and `sorted_set` hold the collections,
  `ids`, `times`, `value`, `icon`, `attachment`, `entry`, `group` and `database` the data and their
  models, `tree`, `removal`, `references`, `remap`, `purge` and `compaction` the operations,
  `handles` the references through which callers change a database, and `merge` the merging.
  `laws` states what holds of the library as a whole: `outcome` says what becomes of each entry and
  each group by a merge, `ancestor` what of an ancestor and of the time matters, `remerge`, `quiet`
  and `self_merge` when a merge changes nothing, `compaction`, `remapping` and `soundness` that
  attachments are neither lost nor left dangling.
- `tests/` runs the library on concrete databases.
- `app/` converts to the types of other crates, serialises, and ends tracking on drop.

Each operation on a database is described by a function on its model, `DatabaseModel`, and its
contract says that the database afterwards holds what that function gives.

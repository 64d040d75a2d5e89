# minisqlr

A small relational database with a machine-checked core. SQL text is parsed,
lowered into relational algebra, planned by cost, compiled into programs of a
register machine, and run on B-trees in pages with a rollback journal.

- `src/engine` is storage: values and records as bytes, nodes, the page cache,
  the journal, B-trees, cursors and transactions.
- `src/sql` is SQL: the lexer, the grammar and the parser, the syntax tree,
  relational algebra, the search for the cheapest plan, programs and the machine
  that runs them, the schema, and what a shell decides.
- `app` is the shell: files, locks, terminal, JSON and floating point.
- `tests` run the library.

The library holds no files. It works on the contents of the database file and
its journal, and hands out the operations that are to be performed on them.

It does no floating-point arithmetic either. Reals are kept as the 64 bits of
their binary form; they are compared, and their sign is turned around, on the
bits. What takes arithmetic is asked of the caller, as a question, and goes on
once the answer is known.

The contracts say what a function returns and how it changes the pages, the rows
and the list of file operations. A row is refused only where a page would not hold
its cells.
Beyond that the library proves, among other things:

- what is written can be read back, and other keys and tables are left alone
  (`engine/laws.rs`), and small rows always have room (`engine/small.rs`);
- a tree shows the map of its keys and values, and all its nodes keep their shape,
  whatever is added and removed (`engine/shape.rs`);
- the files are what the operations that are handed out make of them, and what is
  found in them, wherever their writing stopped, is stated (`engine/recovery.rs`);
- what was committed is there when the files are opened again, and what was not
  leaves no trace (`engine/durability.rs`, `sql/session.rs`);
- wherever the writing of the files stopped, a transaction is there as a whole or not
  at all (`engine/durability.rs`). The one moment left out is when a journal that is
  emptied is in use again and still counts the pages of an earlier transaction;
- free pages are used again before the file grows (`engine/btree.rs`);
- plans find the rows of the relation they are for, in the order asked, within
  the bound (`sql/soundness.rs`, `sql/optimize.rs`), and the questions about reals
  that the search asks are fixed by its input and come to an end
  (`sql/asking.rs`);
- the tables that are listed are those that were made and not dropped since, each
  once and in order (`sql/listing.rs`);
- blanks part tokens (`sql/spacing.rs`), and extra semicolons change nothing
  (`sql/grammar.rs`, `sql/semicolons.rs`);
- programs jump only within themselves and halt only at their end
  (`sql/program.rs`), and the operations for an expression compute its value
  (`sql/evaluation.rs`);
- a query's program that runs through gives out the rows of its plan
  (`sql/results.rs`, `sql/running.rs`);
- INSERT adds its rows, DELETE removes and UPDATE changes the rows that the
  condition holds of, and no others (`sql/adding.rs`, `sql/changing.rs`);
- a statement that fails leaves no trace, and one that runs through is there as a
  whole or not at all (`sql/atomicity.rs`).

# recoll_next

The verified core of Recoll Next, a desktop full-text search service.

- `src/` is the library, verified with Verus:
  - `sdk`: API routes, FFI results, the service handle, health reports and
    search requests;
  - `search`: the query language (tokens, quoted phrases, `ext:`, `path:`,
    `size:>N`, `modified:>YYYY-MM-DD`) planned into text and filters, dates,
    the index schema and document layout, the code, file-name and Chinese
    tokenizers, snippet post-processing and the counts that ranking reads;
  - `watcher`: event-kind mapping, debouncing (times held as nanoseconds
    since the debouncer was made), reconciliation of the files on disk with
    the indexed ones, and paths compared by their components;
  - `windows`: service configuration, `sc.exe` arguments, the Explorer
    context menu, service states and cancellation tokens;
  - `text`, `number`, `path_set`: string helpers, decimal parsing and an
    ordered set of paths, ordered as paths are.
- `app/` holds what Verus does not take: tantivy's trait impls and query
  objects, the reader (its hits carry float scores), the writer, snippet
  generation, floating-point ranking, the notify watcher and the serde
  forms of the library's types.

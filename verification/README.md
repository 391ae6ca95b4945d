# batch_file_renamer

Renames, in one batch, the files one level below a chosen data directory,
following a two-column spreadsheet (`当前文件名称` / `新文件名称`). Only names
change; file contents are never copied. Every batch keeps a ledger
(`rename_backup/<time stamp>/rename_map.json` and `rename_map.xlsx`) from which
the renames can be undone.

## Layout

- `src/` — the library, verified with Verus:
  - `validate.rs`, `names.rs`, `text.rs`: the checks of a filled-in table and of
    new file names, the preview of what each row will do, and the check
    that a batch may run (`batch_to_run`);
  - `rename.rs`: the two-phase rename (all files to fresh temporary names, then
    to their new names) as a state machine that asks for each file-system step
    and is told how it went; `rename_laws.rs`: what a run does to a directory;
  - `ledger.rs`: the ledger and its entries;
  - `excel.rs`, `xlsx.rs`: the spreadsheet handed out and the reading of a
    filled-in one;
  - `scan.rs`, `size_text.rs`, `order.rs`: the directory listing and byte counts
    for people to read;
  - `clock.rs`, `paths.rs`, `strs.rs`: time stamps, path joining and small
    string helpers.
- `app/` — the desktop program: the window, dialogs, and all disk access
  (scanning, reading and writing files, performing the renames a run asks for).
- `tests/` — tests of the library.

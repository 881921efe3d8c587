# Mailgraph

Mailgraph builds a private graph of people, conversations, domains and mail history from mail
archives. It keeps metadata only: no bodies, no attachments.

- `src/` is the library. Verus proves its functions against their contracts. It works on plain
  values and never touches the disk. Three contracts are believed, not proved, as they are about
  code from elsewhere: `utc_now` (the clock of `chrono`), `decode_lossy`
  (`String::from_utf8_lossy`) and `String::push`.
- `app/` is the program around it: the command line, the files of an archive, and the SQLite
  database that an index is written down in. Started under the name `clean-email-list`, it
  cleans lists of addresses instead.
- `tests/` runs the library.

## The library

| module | what it holds |
| --- | --- |
| `archive`, `headers` | messages, and how they are read out of mail files and exported directories |
| `readers`, `paths` | which files of an archive hold messages, and in which order they are read; paths |
| `normalize`, `classify` | addresses and domains; people and everything else that sends mail |
| `tables`, `db`, `checking`, `room` | the tables of the index, writing to them, checking stored rows, room for more |
| `soundness`, `indexing`, `people` | what every write keeps, what indexing adds up to, and what becomes of contacts |
| `scanner` | scanning an archive into the index |
| `ranking`, `stats` | contacts by rank; numbers about the index |
| `cli`, `columns`, `reports`, `places` | queries from arguments, columns, what is told, where the index is |
| `clean`, `terms`, `csv` | cleaning lists of addresses; lists of terms; rows of values |
| `text`, `pieces`, `numbers`, `sort`, `lists`, `clock` | text, numbers, order, facts about lists, the time |

An index starts empty or from stored rows that do not contradict each other. It notes each row
that is written, and hands the list over to whoever writes the rows down:

```rust
let mut db = Database::open_memory()?;
let scan = db.begin_scan("sample.pst")?;
db.insert_message(scan, &message)?;
for row in db.take_changes() {
    // write the row down
}
let contacts = db.contacts(&ContactQuery::new(50))?;
```

## The program

```bash
mailgraph scan sample.pst
mailgraph scan-eml exported/
mailgraph scan-pff-export sample.export
mailgraph stats
mailgraph contacts --all --csv --preset address-book
clean-email-list --input raw.csv --output clean.csv
```

Without `--db`, a scan makes a database named after its input and notes its path in
`.mailgraph/current-db`; later commands use the noted one. Scanning Outlook archives needs
`pffexport`.

# syslab

Small Unix system-programming tools, with their logic verified by Verus:

* `src/shadow.rs`, `src/crack.rs` – `/etc/shadow` SHA-512 crypt entries, the
  dictionary reader and the search for the password of an entry;
* `src/users.rs`, `src/text.rs` – report lines about logged-in users built
  from utmpx records, C `char` arrays and decimal numbers as text;
* `src/cli.rs` and `src/*_args.rs` – the command lines of the tools;
* `src/command.rs` – splitting the timed command into words;
* `src/spawner.rs` – the decisions of the process spawner.

`app/` holds the programs themselves (`login-list`, `user-report`, `time`,
`spawn`, `crack`): system calls, signals, threads, files and printing.

# bebasin

A terminal program that merges a list of blocked hosts into the system hosts
file, after keeping a backup of the file as it was. It can also update itself
from the project's releases.

`src/` is the library, verified with Verus:

- `grammar` states the hosts-file format as spec functions: lines separated by
  `\n`, comments from `#` to the end of a line, words separated by spaces, tabs
  or carriage returns; an entry line is an IP address (hex digits, `.`, `:`)
  followed by one or more host names (ASCII letters and digits, `.`, `-`, `_`);
  a line with words that is not an entry is malformed. A file describes a map
  from each IP address to the set of all host names its entries give.
- `hosts_map` holds the table (`Hosts`) and its merge operations;
  `helpers::AppendableMap` is the merge of a whole table.
- `parser` reads a hosts file (`parse_from_str`) and writes one
  (`render_hosts`).
- `laws` proves that writing a table and reading it back gives the same table
  (for a header of blank and comment lines that, when the table has entries,
  does not end inside a comment,
  and a table whose addresses and names are well-formed words), and that
  reading two files one after the other merges their tables.
- `updater` decides whether a release is newer, which release assets belong to
  a platform, whether a download matches its published MD5 checksum, and takes
  the program out of the downloaded zip archive.
- `error` holds the errors and their messages; `os` and `hosts` hold the
  system paths of each platform, the admin check, file modes and the
  installed-list marker.

`app/` is the program around it: the terminal interface, file and network
access, and JSON decoding.

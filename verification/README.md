# ruk

An HTTP benchmarking tool. It keeps a number of connections busy with one request for a
while and reports how many requests were answered, how, and how fast.

- `src/` is the library: everything that the tool decides and counts, with contracts that
  Verus proves. It performs no I/O. A connection takes events (it became readable, so many
  bytes arrived, it was lost) and answers with actions (read, send, wait, connect again).
- `app/` is the program around it: the command line, name resolution, sockets, threads and
  the printed summary.
- `tests/` runs the library on concrete values.

| Module | What it holds |
| --- | --- |
| `url`, `request` | the URL that is benchmarked and the request that is sent |
| `head`, `headers` | the head of a response and what it says about the body |
| `chunked` | the scanner for chunked bodies |
| `connection`, `worker` | the state of a connection and the events of a worker |
| `stats`, `latency` | the counts and the latency histogram |
| `plan`, `report` | the division of the work and the lines of the summary |
| `seek`, `text`, `ascii` | searching, numbers and white space |

The modules whose names end in `_laws` state what holds across several functions.

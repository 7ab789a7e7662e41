# dadophoros

The verified core of an outbound-connection observer for Linux. Kernel hooks record every
outbound flow; a privileged daemon attributes each to a process and a host name and judges it
by rules; denied flows are remembered in the kernel; clients follow along over a Unix socket,
among them a terminal client that turns a row into a deny rule.

`src/` is the library. Every function in it carries a contract that Verus proves.

| Module | What it decides |
| --- | --- |
| `kernel` | which flows and packets the hooks record, and which they refuse |
| `common`, `bytes` | the records that cross the ring buffers, byte for byte |
| `addr` | the text of IPv4 and IPv6 addresses |
| `dns` | host names by address, for as long as DNS answers hold |
| `rules`, `rule_files` | what a rule matches, and in which order rules are tried |
| `toml_text` | quoting in rule files, and switching a rule on and off in place |
| `deny_rule` | the rule file made from a row |
| `daemon` | what becomes of a recorded flow |
| `stats` | totals, the busiest processes and hosts, recent activity |
| `proto` | messages, and the frames they travel in |
| `ipc` | a client's session, step by step |
| `app`, `input`, `term`, `tui`, `views` | the terminal client: its state, its keys, its bars |
| `xtask` | the steps of a build |
| `text` | strings, and what is taken on trust of the standard library |

What is trusted is marked `external_body` or `assume_specification`, with a comment that says
what is claimed: a few string functions in `text`, and the DNS parser in `dns`.

`app/` holds the programs around the library: system calls, sockets, the terminal, the eBPF
entry points, and the encoded copies of the message and rule types. `tests/` runs the library.

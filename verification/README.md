# iec61850

MMS and GOOSE of IEC 61850, verified with Verus.

One domain-specific variable of a server, a domain and an item, is one Stream:
reading it is an MMS read, writing it an MMS write, each an octet string. The
library writes and reads the messages and decides what the two ends of an
association do with them. It does no input or output.

| module     | what it holds                                                      |
|------------|--------------------------------------------------------------------|
| `octets`   | numbers as big-endian octets, and the shortest octets of a number  |
| `ber`      | the basic encoding rules: tag, length, contents                    |
| `text`     | text on the wire                                                   |
| `mms`      | the MMS PDUs                                                       |
| `goose`    | the GOOSE message and the frame that carries it                    |
| `session`  | the server's side of an association                                |
| `client`   | the client's side of an association                                |
| `exchange` | what the two sides come to together, as theorems                   |
| `endpoint` | addresses, variables, and how a target names them                  |
| `error`    | what can be wrong                                                  |
| `message`  | what is wrong, in words                                            |

Writing and reading are each stated as a function on sequences of octets, and
the theorems say how the two fit: what was written reads back, and what was cut
short, has bytes after it or is too long is refused.

`app/` puts the two ends on COTP and GOOSE on raw Ethernet.

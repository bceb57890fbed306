# fastboot-protocol

A client for the fastboot protocol over USB, verified with Verus.

`src/` is the library. It holds the rules: which interface and endpoints to use, what a command
looks like on the wire, what a response says, what follows on each transfer, and how downloaded
data is cut into blocks. It touches no bus. An operation is a sequence of steps: the library says
which transfer to make, takes the completion, and says what is next, until the operation is over.

| module     | what it holds                                                       |
|------------|---------------------------------------------------------------------|
| `buffer`   | the USB stack's transfer buffers, and completions                   |
| `client`   | commands and their replies                                          |
| `device`   | which devices speak fastboot, and over which endpoints              |
| `download` | downloads: the grant, the blocks, the end                           |
| `error`    | the errors                                                          |
| `fetch`    | fetching a range of a partition                                     |
| `packet`   | sizes in whole packets                                              |
| `protocol` | commands and responses on the wire                                  |
| `text`     | hexadecimal numbers, and the parts of a line                        |
| `vars`     | the listing of all variables                                        |

The proof functions whose names begin with `law_` state what holds of the library as a whole.

`app/` is the client on a bus: it makes the transfers, with `nusb`.

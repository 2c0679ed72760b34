# k210-flash

Loads and flashes programs on a Kendryte K210 over its serial line, and offers
a terminal to talk to them.

`src/` is the library, verified with Verus. It performs no input or output: it
says what to do next and takes what came of it.

| module     | what it holds                                                  |
|------------|----------------------------------------------------------------|
| `slip`     | SLIP frames: encoding, decoding, log text between frames        |
| `buffer`   | the byte buffers that frames are read from and written to       |
| `packet`   | command packets with their checksum, and acknowledgements       |
| `rom_cmd`  | the course of each command, retries and control lines           |
| `elf`      | what the loader reads of an ELF file                            |
| `steps`    | the steps of loading and flashing, and blocks of data           |
| `load`     | the steps that load a plain image or an ELF file                |
| `flash`    | sealing an image, and the steps that flash it                   |
| `session`  | loading or flashing a file from beginning to end                |
| `terminal` | the rules of the terminal and its keyboard reader               |
| `error`    | the errors that the library reports                             |

`app/` is the command line tool: serial line, files, keyboard and screen. It
expects the in-system programmer, `isp-image.bin`, beside its executable.

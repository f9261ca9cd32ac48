# defmt_persist

A `defmt` global logger that saves to non-volatile storage, verified with
[Verus](https://github.com/verus-lang/verus).

Messages are encoded into frames and put in a log buffer in RAM. When the
processor is idle the buffer is drained into a storage such as FLASH, from where
the frames can be read back, also after a restart.

| module | what it holds |
| --- | --- |
| `storage` | the traits that a storage implements, and the model of what it holds |
| `pseudo_flash`, `stack` | two storages in RAM, one that behaves as FLASH does |
| `layout` | where slices go in a storage: words, pages, wrapping |
| `frames` | what a frame is among the bytes of a storage |
| `helper` | the log in a storage: opening, writing, reading |
| `queue` | the log buffer, a queue of the `bbqueue` crate |
| `writer`, `producer` | encoding a message into the log buffer with the `rzcobs` crate |
| `packing` | what the bytes that `rzcobs` writes stand for |
| `logger` | who may write to the log, and what becomes of interrupts |
| `manager` | from the log buffer to the storage and back |
| `coding`, `cobs`, `checksum` | COBS with an optional checksum of the `crc` crate |
| `laws` | what holds of the log as a whole |

`app/` holds what a device adds: the statics, the interrupts and its NOR flash.

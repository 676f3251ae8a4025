# tcmu_mem

The user-space side of a SCSI disk that Linux exports through TCMU (target core module in
userspace). The kernel puts commands into a ring in shared memory; the handler answers them there.

`src/` is the library, verified with Verus. It sees the shared memory as a slice of bytes.

- `tcmu`: the layout of the mailbox, of an entry and of its reply, for a 64-bit little-endian
  machine
- `data_buffer`: the scattered buffers of a command, read and written as one
- `scsi`: the commands, and what each is answered
- `ring`: handling the entries from the tail to the head
- `uio`: the name and the size that the device gives, and when to wait for it
- `bytes`, `error`

The disk answers INQUIRY, MODE SENSE(6), READ CAPACITY, REPORT SUPPORTED OPERATION CODES and TEST
UNIT READY. Reads, writes and cache flushes are answered without moving data. Any other command is
refused with sense data.

`app/` is the program around it: it maps the memory, reads and writes the mailbox, and waits.

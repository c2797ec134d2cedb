# RustyPI

The hardware-independent parts of a small operating system for the Raspberry Pi 3, and of the
runtime that its user programs are linked with, written in Verus: contracts say what the public
functions return and change, and the laws that hold across functions are stated as public proof
functions next to the code they are about.

- `src/` is the verified library.
  - `abi`: the system call interface; `user`, `runtime`: its two sides.
  - `block`, `sd`, `mbr`, `fat`: storage, up to files on FAT16 and FAT32 volumes. `fat::read` and
    `fat::write` are the file system, `fat::change` says what each change leaves on the disk, and
    `fat::laws`, `fat::others`, `fat::upkeep`, `fat::paths`, `fat::listings`, `fat::counts` and
    `fat::replaced` what follows from that: of files, of what is beside a change, of the FAT, of
    looking things up, of listings, of free clusters and of files that are replaced. `fat::neat`
    and `fat::order` say what a directory and a whole volume in order are, and that every change
    keeps them so. `fat::cuts` says what the disk holds at every moment of a change, and so what a
    power cut leaves; `fat::failures` what a change leaves that fails.
  - `net`: Ethernet, ARP, IPv4, ICMP, UDP, DHCP, DNS and SNTP, and a network interface that
    speaks them; `usb`: descriptors, and the tree of devices behind hubs.
  - `heap`, `frames`, `paging`, `elf`: memory and programs; `sched`, `lock`: tasks.
  - `mailbox`, `graphics`, `console`, `keys`, `line`: the firmware, the screen and the keyboard.
  - `link`, `session`, `update`: the serial link and what goes over it.
  - `text`, `bytes`, `time`, `path`, `version`: what the others are made of.
- `tests/` runs the library on concrete values.
- `app/` is the ordinary Rust around it: the system call instruction, raw memory, and the
  standard library's traits on the library's types.

# rustfw

The verified core of a boot firmware for RISC-V machines: everything between the device
tree that the machine hands over and the kernel that is started.

- `src/` is the library. Each function states what it computes, and Verus proves it.
  - Device trees: `fdt_tokens`, `fdt_nodes`, `dtb_read`, `devicetree`, `dtb_memory` read
    them; `dtb_edit`, `fdt_splice`, `fdt_records`, `fdt_frame`, `dtb_change`, `dtb_write`
    change them inside of a checked header, `dtb_walk`, `dtb` by offsets into any blob;
    `dtb_agree` shows that both ways agree on proper trees.
  - Memory: `memory_map` holds the operations on EFI-style memory maps, `memory` the page
    allocator, `memory_laws` what the maps say of each address.
  - Block devices: `virtio`, `virtio_mmio`, `virtqueue`, `virtqueue_memory`,
    `virtio_block`, and `image` for a disk image in memory.
  - Partitions and filesystems: `partition`, `gpt`, `filesystem`, `fat`, `fat_names`,
    `ext4`, `ext4_format`, `path`.
  - Booting: `linux` and `firmware`; `print`, `diagnostics` and `interrupts` make the text
    that goes to the console.
- `tests/` runs the library on disk images, device trees and memory maps built by hand.
- `app/` is the firmware around the library: entry code, traps, the SBI console, volatile
  accesses to registers and shared memory, and the jump into the kernel.

What is proved rests on three assumptions:

- `core::str::from_utf8` accepts exactly the valid UTF-8 sequences and hands their bytes on
  unchanged (`bytes::utf8_text`).
- A block device outside of `src/`, such as the one in `app/disk.rs`, does what the trait
  `virtio::BlockDevice` states: what it reads is what is on the disk, and each error that it
  returns is a new one.
- `app/` carries out what the library asks for: the driver's register and memory accesses in
  their order, and the copies of loaded files to the addresses that were allocated for them.

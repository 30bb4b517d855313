//! Verified core of a RISC-V boot firmware.

pub mod boot_laws;
pub mod bytes;
pub mod devicetree;
pub mod diagnostics;
pub mod dtb;
pub mod dtb_agree;
pub mod dtb_change;
pub mod dtb_edit;
pub mod dtb_memory;
pub mod dtb_read;
pub mod dtb_walk;
pub mod dtb_write;
pub mod edit_laws;
pub mod ext4;
pub mod ext4_format;
pub mod ext4_laws;
pub mod fat;
pub mod fat_laws;
pub mod fat_name_laws;
pub mod fat_names;
pub mod fdt_frame;
pub mod fdt_laws;
pub mod fdt_nodes;
pub mod fdt_records;
pub mod fdt_splice;
pub mod fdt_stream_laws;
pub mod fdt_tokens;
pub mod filesystem;
pub mod firmware;
pub mod gpt;
pub mod gpt_laws;
pub mod image;
pub mod interrupts;
pub mod linux;
pub mod memory;
pub mod memory_laws;
pub mod memory_map;
pub mod memory_place_laws;
pub mod name_laws;
pub mod partition;
pub mod path;
pub mod path_laws;
pub mod print;
pub mod print_laws;
pub mod records;
pub mod region_laws;
pub mod tree_path_laws;
pub mod virtio;
pub mod virtio_block;
pub mod virtio_laws;
pub mod virtio_mmio;
pub mod virtqueue;
pub mod virtqueue_memory;

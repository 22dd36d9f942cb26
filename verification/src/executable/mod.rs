//! Programs as files: the formats that the kernel can load.

pub mod elf;

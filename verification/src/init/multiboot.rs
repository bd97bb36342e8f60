//! Constants of the Multiboot2 specification: tag types, header tags,
//! memory kinds and load preferences, each with its number.
use vstd::prelude::*;

verus! {

pub const MULTIBOOT2_HEADER_MAGIC: u32 = 0xe85250d6;
pub const MULTIBOOT2_BOOTLOADER_MAGIC: u32 = 0x36d76289;
pub const MULTIBOOT_TAG_ALIGN: u32 = 8;

/// Types of the tags of the boot information.
#[allow(non_camel_case_types)]
#[derive(Clone, Copy, PartialEq, Eq, Structural)]
pub enum MULTIBOOT_TAG_TYPE {
    MULTIBOOT_TAG_TYPE_END,
    MULTIBOOT_TAG_TYPE_CMDLINE,
    MULTIBOOT_TAG_TYPE_BOOT_LOADER_NAME,
    MULTIBOOT_TAG_TYPE_MODULE,
    MULTIBOOT_TAG_TYPE_BASIC_MEMINFO,
    MULTIBOOT_TAG_TYPE_BOOTDEV,
    MULTIBOOT_TAG_TYPE_MMAP,
    MULTIBOOT_TAG_TYPE_VBE,
    MULTIBOOT_TAG_TYPE_FRAMEBUFFER,
    MULTIBOOT_TAG_TYPE_ELF_SECTIONS,
    MULTIBOOT_TAG_TYPE_APM,
    MULTIBOOT_TAG_TYPE_EFI32,
    MULTIBOOT_TAG_TYPE_EFI64,
    MULTIBOOT_TAG_TYPE_SMBIOS,
    MULTIBOOT_TAG_TYPE_ACPI_OLD,
    MULTIBOOT_TAG_TYPE_ACPI_NEW,
    MULTIBOOT_TAG_TYPE_NETWORK,
    MULTIBOOT_TAG_TYPE_EFI_MMAP,
    MULTIBOOT_TAG_TYPE_EFI_BS,
    MULTIBOOT_TAG_TYPE_EFI32_IH,
    MULTIBOOT_TAG_TYPE_EFI64_IH,
    MULTIBOOT_TAG_TYPE_LOAD_BASE_ADDR,
}

/// The number of each tag type, 0 to 21 in declaration order.
pub open spec fn tag_type_number(t: MULTIBOOT_TAG_TYPE) -> u32 {
    match t {
        MULTIBOOT_TAG_TYPE::MULTIBOOT_TAG_TYPE_END => 0,
        MULTIBOOT_TAG_TYPE::MULTIBOOT_TAG_TYPE_CMDLINE => 1,
        MULTIBOOT_TAG_TYPE::MULTIBOOT_TAG_TYPE_BOOT_LOADER_NAME => 2,
        MULTIBOOT_TAG_TYPE::MULTIBOOT_TAG_TYPE_MODULE => 3,
        MULTIBOOT_TAG_TYPE::MULTIBOOT_TAG_TYPE_BASIC_MEMINFO => 4,
        MULTIBOOT_TAG_TYPE::MULTIBOOT_TAG_TYPE_BOOTDEV => 5,
        MULTIBOOT_TAG_TYPE::MULTIBOOT_TAG_TYPE_MMAP => 6,
        MULTIBOOT_TAG_TYPE::MULTIBOOT_TAG_TYPE_VBE => 7,
        MULTIBOOT_TAG_TYPE::MULTIBOOT_TAG_TYPE_FRAMEBUFFER => 8,
        MULTIBOOT_TAG_TYPE::MULTIBOOT_TAG_TYPE_ELF_SECTIONS => 9,
        MULTIBOOT_TAG_TYPE::MULTIBOOT_TAG_TYPE_APM => 10,
        MULTIBOOT_TAG_TYPE::MULTIBOOT_TAG_TYPE_EFI32 => 11,
        MULTIBOOT_TAG_TYPE::MULTIBOOT_TAG_TYPE_EFI64 => 12,
        MULTIBOOT_TAG_TYPE::MULTIBOOT_TAG_TYPE_SMBIOS => 13,
        MULTIBOOT_TAG_TYPE::MULTIBOOT_TAG_TYPE_ACPI_OLD => 14,
        MULTIBOOT_TAG_TYPE::MULTIBOOT_TAG_TYPE_ACPI_NEW => 15,
        MULTIBOOT_TAG_TYPE::MULTIBOOT_TAG_TYPE_NETWORK => 16,
        MULTIBOOT_TAG_TYPE::MULTIBOOT_TAG_TYPE_EFI_MMAP => 17,
        MULTIBOOT_TAG_TYPE::MULTIBOOT_TAG_TYPE_EFI_BS => 18,
        MULTIBOOT_TAG_TYPE::MULTIBOOT_TAG_TYPE_EFI32_IH => 19,
        MULTIBOOT_TAG_TYPE::MULTIBOOT_TAG_TYPE_EFI64_IH => 20,
        MULTIBOOT_TAG_TYPE::MULTIBOOT_TAG_TYPE_LOAD_BASE_ADDR => 21,
    }
}

impl MULTIBOOT_TAG_TYPE {
    /// The tag type numbered `n`; None above 21.
    pub fn from_number(n: u32) -> (r: Option<MULTIBOOT_TAG_TYPE>)
        ensures
            r is Some <==> n <= 21,
            r matches Some(t) ==> tag_type_number(t) == n,
    {
        match n {
            0 => Some(MULTIBOOT_TAG_TYPE::MULTIBOOT_TAG_TYPE_END),
            1 => Some(MULTIBOOT_TAG_TYPE::MULTIBOOT_TAG_TYPE_CMDLINE),
            2 => Some(MULTIBOOT_TAG_TYPE::MULTIBOOT_TAG_TYPE_BOOT_LOADER_NAME),
            3 => Some(MULTIBOOT_TAG_TYPE::MULTIBOOT_TAG_TYPE_MODULE),
            4 => Some(MULTIBOOT_TAG_TYPE::MULTIBOOT_TAG_TYPE_BASIC_MEMINFO),
            5 => Some(MULTIBOOT_TAG_TYPE::MULTIBOOT_TAG_TYPE_BOOTDEV),
            6 => Some(MULTIBOOT_TAG_TYPE::MULTIBOOT_TAG_TYPE_MMAP),
            7 => Some(MULTIBOOT_TAG_TYPE::MULTIBOOT_TAG_TYPE_VBE),
            8 => Some(MULTIBOOT_TAG_TYPE::MULTIBOOT_TAG_TYPE_FRAMEBUFFER),
            9 => Some(MULTIBOOT_TAG_TYPE::MULTIBOOT_TAG_TYPE_ELF_SECTIONS),
            10 => Some(MULTIBOOT_TAG_TYPE::MULTIBOOT_TAG_TYPE_APM),
            11 => Some(MULTIBOOT_TAG_TYPE::MULTIBOOT_TAG_TYPE_EFI32),
            12 => Some(MULTIBOOT_TAG_TYPE::MULTIBOOT_TAG_TYPE_EFI64),
            13 => Some(MULTIBOOT_TAG_TYPE::MULTIBOOT_TAG_TYPE_SMBIOS),
            14 => Some(MULTIBOOT_TAG_TYPE::MULTIBOOT_TAG_TYPE_ACPI_OLD),
            15 => Some(MULTIBOOT_TAG_TYPE::MULTIBOOT_TAG_TYPE_ACPI_NEW),
            16 => Some(MULTIBOOT_TAG_TYPE::MULTIBOOT_TAG_TYPE_NETWORK),
            17 => Some(MULTIBOOT_TAG_TYPE::MULTIBOOT_TAG_TYPE_EFI_MMAP),
            18 => Some(MULTIBOOT_TAG_TYPE::MULTIBOOT_TAG_TYPE_EFI_BS),
            19 => Some(MULTIBOOT_TAG_TYPE::MULTIBOOT_TAG_TYPE_EFI32_IH),
            20 => Some(MULTIBOOT_TAG_TYPE::MULTIBOOT_TAG_TYPE_EFI64_IH),
            21 => Some(MULTIBOOT_TAG_TYPE::MULTIBOOT_TAG_TYPE_LOAD_BASE_ADDR),
            _ => None,
        }
    }
}

/// Tags of the Multiboot2 header.
#[allow(non_camel_case_types)]
#[derive(Clone, Copy, PartialEq, Eq, Structural)]
pub enum MULTIBOOT_HEADER_TAG {
    MULTIBOOT_HEADER_TAG_END,
    MULTIBOOT_HEADER_TAG_INFORMATION_REQUEST,
    MULTIBOOT_HEADER_TAG_ADDRESS,
    MULTIBOOT_HEADER_TAG_ENTRY_ADDRESS,
    MULTIBOOT_HEADER_TAG_CONSOLE_FLAGS,
    MULTIBOOT_HEADER_TAG_FRAMEBUFFER,
    MULTIBOOT_HEADER_TAG_MODULE_ALIGN,
    MULTIBOOT_HEADER_TAG_EFI_BS,
    MULTIBOOT_HEADER_TAG_ENTRY_ADDRESS_EFI32,
    MULTIBOOT_HEADER_TAG_ENTRY_ADDRESS_EFI64,
    MULTIBOOT_HEADER_TAG_RELOCATABLE,
}

impl MULTIBOOT_HEADER_TAG {
    /// The number of each header tag, 0 to 10 in declaration order.
    pub fn number(self) -> (r: u16)
        ensures
            r <= 10,
            r == (match self {
                MULTIBOOT_HEADER_TAG::MULTIBOOT_HEADER_TAG_END => 0u16,
                MULTIBOOT_HEADER_TAG::MULTIBOOT_HEADER_TAG_INFORMATION_REQUEST => 1,
                MULTIBOOT_HEADER_TAG::MULTIBOOT_HEADER_TAG_ADDRESS => 2,
                MULTIBOOT_HEADER_TAG::MULTIBOOT_HEADER_TAG_ENTRY_ADDRESS => 3,
                MULTIBOOT_HEADER_TAG::MULTIBOOT_HEADER_TAG_CONSOLE_FLAGS => 4,
                MULTIBOOT_HEADER_TAG::MULTIBOOT_HEADER_TAG_FRAMEBUFFER => 5,
                MULTIBOOT_HEADER_TAG::MULTIBOOT_HEADER_TAG_MODULE_ALIGN => 6,
                MULTIBOOT_HEADER_TAG::MULTIBOOT_HEADER_TAG_EFI_BS => 7,
                MULTIBOOT_HEADER_TAG::MULTIBOOT_HEADER_TAG_ENTRY_ADDRESS_EFI32 => 8,
                MULTIBOOT_HEADER_TAG::MULTIBOOT_HEADER_TAG_ENTRY_ADDRESS_EFI64 => 9,
                MULTIBOOT_HEADER_TAG::MULTIBOOT_HEADER_TAG_RELOCATABLE => 10,
            }),
    {
        match self {
            MULTIBOOT_HEADER_TAG::MULTIBOOT_HEADER_TAG_END => 0,
            MULTIBOOT_HEADER_TAG::MULTIBOOT_HEADER_TAG_INFORMATION_REQUEST => 1,
            MULTIBOOT_HEADER_TAG::MULTIBOOT_HEADER_TAG_ADDRESS => 2,
            MULTIBOOT_HEADER_TAG::MULTIBOOT_HEADER_TAG_ENTRY_ADDRESS => 3,
            MULTIBOOT_HEADER_TAG::MULTIBOOT_HEADER_TAG_CONSOLE_FLAGS => 4,
            MULTIBOOT_HEADER_TAG::MULTIBOOT_HEADER_TAG_FRAMEBUFFER => 5,
            MULTIBOOT_HEADER_TAG::MULTIBOOT_HEADER_TAG_MODULE_ALIGN => 6,
            MULTIBOOT_HEADER_TAG::MULTIBOOT_HEADER_TAG_EFI_BS => 7,
            MULTIBOOT_HEADER_TAG::MULTIBOOT_HEADER_TAG_ENTRY_ADDRESS_EFI32 => 8,
            MULTIBOOT_HEADER_TAG::MULTIBOOT_HEADER_TAG_ENTRY_ADDRESS_EFI64 => 9,
            MULTIBOOT_HEADER_TAG::MULTIBOOT_HEADER_TAG_RELOCATABLE => 10,
        }
    }
}

/// Kinds of memory in the memory map.
#[allow(non_camel_case_types)]
#[derive(Clone, Copy, PartialEq, Eq, Structural)]
pub enum MULTIBOOT_MEMORY {
    MULTIBOOT_MEMORY_AVAILABLE,
    MULTIBOOT_MEMORY_RESERVED,
    MULTIBOOT_MEMORY_ACPI_RECLAIMABLE,
    MULTIBOOT_MEMORY_NVS,
    MULTIBOOT_MEMORY_BADRAM,
}

impl MULTIBOOT_MEMORY {
    /// The kind of a memory map entry of type `n` (1 to 5); None otherwise.
    pub fn from_number(n: u32) -> (r: Option<MULTIBOOT_MEMORY>)
        ensures
            r is Some <==> 1 <= n <= 5,
            n == 1 ==> r == Some(MULTIBOOT_MEMORY::MULTIBOOT_MEMORY_AVAILABLE),
            n == 2 ==> r == Some(MULTIBOOT_MEMORY::MULTIBOOT_MEMORY_RESERVED),
            n == 3 ==> r == Some(MULTIBOOT_MEMORY::MULTIBOOT_MEMORY_ACPI_RECLAIMABLE),
            n == 4 ==> r == Some(MULTIBOOT_MEMORY::MULTIBOOT_MEMORY_NVS),
            n == 5 ==> r == Some(MULTIBOOT_MEMORY::MULTIBOOT_MEMORY_BADRAM),
    {
        match n {
            1 => Some(MULTIBOOT_MEMORY::MULTIBOOT_MEMORY_AVAILABLE),
            2 => Some(MULTIBOOT_MEMORY::MULTIBOOT_MEMORY_RESERVED),
            3 => Some(MULTIBOOT_MEMORY::MULTIBOOT_MEMORY_ACPI_RECLAIMABLE),
            4 => Some(MULTIBOOT_MEMORY::MULTIBOOT_MEMORY_NVS),
            5 => Some(MULTIBOOT_MEMORY::MULTIBOOT_MEMORY_BADRAM),
            _ => None,
        }
    }
}

/// Where the boot loader should prefer to load the kernel.
#[allow(non_camel_case_types)]
#[derive(Clone, Copy, PartialEq, Eq, Structural)]
pub enum MULTIBOOT_LOAD_PREFERENCE {
    MULTIBOOT_LOAD_PREFERENCE_NONE,
    MULTIBOOT_LOAD_PREFERENCE_LOW,
    MULTIBOOT_LOAD_PREFERENCE_HIGH,
}

impl MULTIBOOT_LOAD_PREFERENCE {
    /// The number of each preference: 0, 1, 2.
    pub fn number(self) -> (r: u32)
        ensures
            r == (match self {
                MULTIBOOT_LOAD_PREFERENCE::MULTIBOOT_LOAD_PREFERENCE_NONE => 0u32,
                MULTIBOOT_LOAD_PREFERENCE::MULTIBOOT_LOAD_PREFERENCE_LOW => 1,
                MULTIBOOT_LOAD_PREFERENCE::MULTIBOOT_LOAD_PREFERENCE_HIGH => 2,
            }),
    {
        match self {
            MULTIBOOT_LOAD_PREFERENCE::MULTIBOOT_LOAD_PREFERENCE_NONE => 0,
            MULTIBOOT_LOAD_PREFERENCE::MULTIBOOT_LOAD_PREFERENCE_LOW => 1,
            MULTIBOOT_LOAD_PREFERENCE::MULTIBOOT_LOAD_PREFERENCE_HIGH => 2,
        }
    }
}

} // verus!

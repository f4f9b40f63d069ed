mod boot;
mod guid;

pub use boot::{
    BOOT_ABI_VERSION, BOOT_INFO_MAGIC, BootInfo, FramebufferInfo, MemoryMap, MemoryRegion,
};
pub use guid::{
    GptGuid, GuidParseError, ascii_bytes, format_guid, format_prefix, gpt_byte_order, hex, hex_digit,
    hex_value, is_canonical_guid_text, is_dash_position, lemma_format_then_parse,
    lemma_gpt_byte_order_involution, lemma_parse_then_format, nibble_pair, parse_guid_spec,
    text_position,
};

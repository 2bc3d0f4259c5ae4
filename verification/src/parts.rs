//! The data model: a named, offset-addressed byte range of the image, and the
//! errors that parsing a layout description can raise.

use vstd::prelude::*;

verus! {

/// One part of the firmware image.
///
/// `size` is either explicit (taken literally from the layout description,
/// `has_explicit_size` set) or filled in once by the size resolver.
/// `padding_byte` extends a too-short input file during packing; it defaults
/// to `0xFF` when the description gives no fourth field
/// (`use_custom_padding` unset).
pub struct FirmwarePart {
    pub name: String,
    pub offset: u64,
    pub size: u64,
    pub padding_byte: u8,
    pub use_custom_padding: bool,
    pub has_explicit_size: bool,
}

/// The mathematical image of a part: the same fields, with the name as a
/// character sequence.
pub ghost struct PartV {
    pub name: Seq<char>,
    pub offset: u64,
    pub size: u64,
    pub padding_byte: u8,
    pub use_custom_padding: bool,
    pub has_explicit_size: bool,
}

impl View for FirmwarePart {
    type V = PartV;

    open spec fn view(&self) -> PartV {
        PartV {
            name: self.name@,
            offset: self.offset,
            size: self.size,
            padding_byte: self.padding_byte,
            use_custom_padding: self.use_custom_padding,
            has_explicit_size: self.has_explicit_size,
        }
    }
}

/// The views of a sequence of parts, in order.
pub open spec fn part_views(parts: Seq<FirmwarePart>) -> Seq<PartV> {
    parts.map(|i: int, p: FirmwarePart| p@)
}

/// Why an operation failed: a malformed numeric field, or an unreadable
/// configuration. I/O failures arise only outside the library and are carried
/// by the caller.
#[derive(Debug)]
pub enum FirmwareError {
    Parse(String),
    Config(String),
}

} // verus!

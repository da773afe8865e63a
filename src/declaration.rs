//! A topology declaration as plain values: each attribute as the text the
//! declaration gave, or `None` where it gave none.
use vstd::prelude::*;

verus! {

/// The text of an optional attribute.
pub open spec fn text_view(o: Option<String>) -> Option<Seq<char>> {
    match o {
        Some(s) => Some(s@),
        None => None,
    }
}

/// A `memory_region` element.
pub struct MemoryRegionDecl {
    pub name: Option<String>,
    /// Hexadecimal, with or without a leading `0x`.
    pub size: Option<String>,
}

/// The `program_image` element of a protection domain.
pub struct ProgramImageDecl {
    pub path: Option<String>,
}

/// The `map` element of a protection domain.
pub struct MapDecl {
    pub mr: Option<String>,
    pub setvar_vaddr: Option<String>,
}

/// A `protection_domain` element.
pub struct ProtectionDomainDecl {
    pub name: Option<String>,
    /// Hexadecimal, with or without a leading `0x`; 4 KiB when absent.
    pub stack_size: Option<String>,
    pub program_image: Option<ProgramImageDecl>,
    pub map: Option<MapDecl>,
}

/// An `end` element of a channel.
pub struct ChannelEndDecl {
    pub pd: Option<String>,
    /// Decimal.
    pub id: Option<String>,
}

/// A `channel` element, with its ends in document order.
pub struct ChannelDecl {
    pub ends: Vec<ChannelEndDecl>,
}

/// A whole declaration: each kind of element in document order.
pub struct Declaration {
    pub memory_regions: Vec<MemoryRegionDecl>,
    pub protection_domains: Vec<ProtectionDomainDecl>,
    pub channels: Vec<ChannelDecl>,
}

} // verus!

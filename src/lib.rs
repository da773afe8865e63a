//! Materializes a declared multi-process topology: memory regions, protection
//! domains, their shared-memory mappings and the channels between them.

pub mod declaration;
pub mod error;
pub mod numeric;
pub mod plan;
pub mod registry;

pub use declaration::{
    ChannelDecl, ChannelEndDecl, Declaration, MapDecl, MemoryRegionDecl, ProgramImageDecl,
    ProtectionDomainDecl,
};
pub use error::{Attribute, Element, Fault, LoadError};
pub use numeric::{parse_hex, parse_number, strip_hex_prefix};
pub use plan::{
    image_load_path, plan_load, process_channels, process_memory_regions, process_protection_domains,
    stack_size_in_range, Step, StepModel, DEFAULT_STACK_SIZE, MAX_STACK_SIZE, MIN_STACK_SIZE,
};
pub use registry::{
    ChannelEntry, Launch, Loader, LoaderModel, MemoryRegionInfo, Process, ProcessHandle, ProcessInfo,
    ProcessModel, RegionModel, SharedMemory, SharedMemoryHandle, SharedMemoryStackNode, PAGE_SIZE,
    STACK_ALIGN,
};

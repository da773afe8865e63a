//! Why a topology load stops.
use vstd::prelude::*;

verus! {

/// The kinds of element in a topology declaration.
#[derive(Clone, Copy, Debug, PartialEq, Eq, Structural)]
pub enum Element {
    MemoryRegion,
    ProtectionDomain,
    ProgramImage,
    Mapping,
    ChannelEnd,
}

/// The attributes that the declaration's elements carry.
#[derive(Clone, Copy, Debug, PartialEq, Eq, Structural)]
pub enum Attribute {
    Name,
    Size,
    StackSize,
    Path,
    Mr,
    SetvarVaddr,
    Pd,
    Id,
}

/// A fatal load error. Every one of them aborts the whole load.
#[derive(Debug)]
pub enum LoadError {
    /// A required attribute is absent.
    MissingAttribute { element: Element, attribute: Attribute },
    /// A numeric attribute does not parse, or does not fit its width.
    MalformedNumber { element: Element, attribute: Attribute },
    /// A stack size outside 4 KiB to 16 MiB.
    StackSizeOutOfRange { process: String, stack_size: u32 },
    /// A channel that does not have exactly two ends.
    ChannelEndCount { ends: usize },
    /// A program image path too short to carry a three-character extension.
    ImagePathTooShort { process: String },
    /// A second process under a name already taken.
    DuplicateProcess { name: String },
    /// A second memory region under a name already taken.
    DuplicateMemoryRegion { name: String },
    /// A reference to a process that was never declared.
    UnknownProcess { name: String },
    /// A reference to a memory region that was never declared.
    UnknownMemoryRegion { name: String },
    /// A launch of a process that has no program image.
    NoImage { process: String },
    /// A second launch of one process.
    AlreadyLaunched { process: String },
    /// The resource provider handed back an object that breaks its guarantees
    /// (a null or reused handle, a misaligned buffer, a shared descriptor).
    ProviderFailure { name: String },
}

/// What a [`LoadError`] says, with names as character sequences.
pub enum Fault {
    MissingAttribute(Element, Attribute),
    MalformedNumber(Element, Attribute),
    StackSizeOutOfRange(Seq<char>, u32),
    ChannelEndCount(nat),
    ImagePathTooShort(Seq<char>),
    DuplicateProcess(Seq<char>),
    DuplicateMemoryRegion(Seq<char>),
    UnknownProcess(Seq<char>),
    UnknownMemoryRegion(Seq<char>),
    NoImage(Seq<char>),
    AlreadyLaunched(Seq<char>),
    ProviderFailure(Seq<char>),
}

impl View for LoadError {
    type V = Fault;

    open spec fn view(&self) -> Fault {
        match self {
            LoadError::MissingAttribute { element, attribute } => Fault::MissingAttribute(
                *element,
                *attribute,
            ),
            LoadError::MalformedNumber { element, attribute } => Fault::MalformedNumber(
                *element,
                *attribute,
            ),
            LoadError::StackSizeOutOfRange { process, stack_size } => Fault::StackSizeOutOfRange(
                process@,
                *stack_size,
            ),
            LoadError::ChannelEndCount { ends } => Fault::ChannelEndCount(*ends as nat),
            LoadError::ImagePathTooShort { process } => Fault::ImagePathTooShort(process@),
            LoadError::DuplicateProcess { name } => Fault::DuplicateProcess(name@),
            LoadError::DuplicateMemoryRegion { name } => Fault::DuplicateMemoryRegion(name@),
            LoadError::UnknownProcess { name } => Fault::UnknownProcess(name@),
            LoadError::UnknownMemoryRegion { name } => Fault::UnknownMemoryRegion(name@),
            LoadError::NoImage { process } => Fault::NoImage(process@),
            LoadError::AlreadyLaunched { process } => Fault::AlreadyLaunched(process@),
            LoadError::ProviderFailure { name } => Fault::ProviderFailure(name@),
        }
    }
}

} // verus!

//! The load protocol: a declaration becomes an ordered list of steps, in four
//! phases (memory regions, protection domains, channels, launch), or the
//! first error that aborts the load before any step runs.
use vstd::prelude::*;

use crate::declaration::{
    text_view, ChannelDecl, ChannelEndDecl, Declaration, MapDecl, MemoryRegionDecl,
    ProgramImageDecl, ProtectionDomainDecl,
};
use crate::error::{Attribute, Element, Fault, LoadError};
use crate::numeric::{hex_value, parse_hex, parse_number, parse_unsigned};

verus! {

/// Smallest stack a process may declare: 4 KiB.
pub const MIN_STACK_SIZE: u32 = 0x1000;

/// Largest stack a process may declare: 16 MiB.
pub const MAX_STACK_SIZE: u32 = 0x1000000;

/// Stack size of a process that declares none.
pub const DEFAULT_STACK_SIZE: u32 = 0x1000;

/// One step of a load, in the order the steps must run.
#[derive(Debug)]
pub enum Step {
    /// Have the provider make region `name` of `size` bytes, then register it.
    CreateMemory { name: String, size: u64 },
    /// Have the provider make process `name` with the given stack, then register it.
    CreateProcess { name: String, stack_size: u32 },
    /// Record the image that `process` will run.
    SetImage { process: String, path: String },
    /// Attach `region` to `process` under `varname`.
    Attach { process: String, region: String, varname: String },
    /// Install the routing entry `(from, id) -> to`.
    Connect { from: String, to: String, id: u64 },
    /// Launch every process that has an image, in registration order.
    LaunchAll,
}

/// A [`Step`] with names as character sequences.
pub enum StepModel {
    CreateMemory(Seq<char>, u64),
    CreateProcess(Seq<char>, u32),
    SetImage(Seq<char>, Seq<char>),
    Attach(Seq<char>, Seq<char>, Seq<char>),
    Connect(Seq<char>, Seq<char>, u64),
    LaunchAll,
}

impl View for Step {
    type V = StepModel;

    open spec fn view(&self) -> StepModel {
        match self {
            Step::CreateMemory { name, size } => StepModel::CreateMemory(name@, *size),
            Step::CreateProcess { name, stack_size } => StepModel::CreateProcess(name@, *stack_size),
            Step::SetImage { process, path } => StepModel::SetImage(process@, path@),
            Step::Attach { process, region, varname } => StepModel::Attach(
                process@,
                region@,
                varname@,
            ),
            Step::Connect { from, to, id } => StepModel::Connect(from@, to@, *id),
            Step::LaunchAll => StepModel::LaunchAll,
        }
    }
}

pub open spec fn steps_view(v: Seq<Step>) -> Seq<StepModel> {
    v.map_values(|s: Step| s@)
}

/// What a planning function returned, as a model.
pub open spec fn outcome(r: Result<Vec<Step>, LoadError>) -> Result<Seq<StepModel>, Fault> {
    match r {
        Ok(v) => Ok(steps_view(v@)),
        Err(e) => Err(e@),
    }
}

/// The steps of a phase: each element's steps in order, given the elements
/// before it, or the first element's error.
pub open spec fn phase<T>(
    xs: Seq<T>,
    f: spec_fn(T, Seq<T>) -> Result<Seq<StepModel>, Fault>,
) -> Result<Seq<StepModel>, Fault>
    decreases xs.len(),
{
    if xs.len() == 0 {
        Ok(Seq::empty())
    } else {
        match phase(xs.drop_last(), f) {
            Err(e) => Err(e),
            Ok(s) => match f(xs.last(), xs.drop_last()) {
                Err(e) => Err(e),
                Ok(t) => Ok(s + t),
            },
        }
    }
}

/// A region called `name` is among `rs`.
pub open spec fn declares_region(rs: Seq<MemoryRegionDecl>, name: Seq<char>) -> bool {
    exists|k: int| 0 <= k < rs.len() && text_view(#[trigger] rs[k].name) == Some(name)
}

/// A process called `name` is among `pds`.
pub open spec fn declares_process(pds: Seq<ProtectionDomainDecl>, name: Seq<char>) -> bool {
    exists|k: int| 0 <= k < pds.len() && text_view(#[trigger] pds[k].name) == Some(name)
}

/// The region's step, given the regions declared before it.
pub open spec fn region_steps(r: MemoryRegionDecl, earlier: Seq<MemoryRegionDecl>) -> Result<
    Seq<StepModel>,
    Fault,
> {
    match r.name {
        None => Err(Fault::MissingAttribute(Element::MemoryRegion, Attribute::Name)),
        Some(name) => match r.size {
            None => Err(Fault::MissingAttribute(Element::MemoryRegion, Attribute::Size)),
            Some(text) => match hex_value(text@, u64::MAX as nat) {
                None => Err(Fault::MalformedNumber(Element::MemoryRegion, Attribute::Size)),
                Some(size) => if declares_region(earlier, name@) {
                    Err(Fault::DuplicateMemoryRegion(name@))
                } else {
                    Ok(seq![StepModel::CreateMemory(name@, size as u64)])
                },
            },
        },
    }
}

/// The stack size a process declares, before the range check.
pub open spec fn declared_stack_size(text: Option<String>) -> Option<nat> {
    match text {
        None => Some(DEFAULT_STACK_SIZE as nat),
        Some(t) => hex_value(t@, u32::MAX as nat),
    }
}

pub open spec fn stack_size_allowed(size: nat) -> bool {
    MIN_STACK_SIZE <= size <= MAX_STACK_SIZE
}

/// Where the image declared as `raw` is loaded from: the build directory,
/// then `raw` without its last three characters, then the `so` extension.
pub open spec fn load_path(raw: Seq<char>) -> Seq<char> {
    "./build/"@ + raw.subrange(0, raw.len() - 3) + "so"@
}

pub open spec fn image_steps(name: Seq<char>, image: Option<ProgramImageDecl>) -> Result<
    Seq<StepModel>,
    Fault,
> {
    match image {
        None => Ok(Seq::empty()),
        Some(img) => match img.path {
            None => Err(Fault::MissingAttribute(Element::ProgramImage, Attribute::Path)),
            Some(p) => if p@.len() < 3 {
                Err(Fault::ImagePathTooShort(name))
            } else {
                Ok(seq![StepModel::SetImage(name, load_path(p@))])
            },
        },
    }
}

pub open spec fn map_steps(
    name: Seq<char>,
    map: Option<MapDecl>,
    regions: Seq<MemoryRegionDecl>,
) -> Result<Seq<StepModel>, Fault> {
    match map {
        None => Ok(Seq::empty()),
        Some(m) => match m.mr {
            None => Err(Fault::MissingAttribute(Element::Mapping, Attribute::Mr)),
            Some(mr) => match m.setvar_vaddr {
                None => Err(Fault::MissingAttribute(Element::Mapping, Attribute::SetvarVaddr)),
                Some(v) => if !declares_region(regions, mr@) {
                    Err(Fault::UnknownMemoryRegion(mr@))
                } else {
                    Ok(seq![StepModel::Attach(name, mr@, v@)])
                },
            },
        },
    }
}

/// The protection domain's steps, given the domains declared before it and
/// all regions: create, then record the image, then attach the mapping.
pub open spec fn domain_steps(
    pd: ProtectionDomainDecl,
    earlier: Seq<ProtectionDomainDecl>,
    regions: Seq<MemoryRegionDecl>,
) -> Result<Seq<StepModel>, Fault> {
    match pd.name {
        None => Err(Fault::MissingAttribute(Element::ProtectionDomain, Attribute::Name)),
        Some(name) => match declared_stack_size(pd.stack_size) {
            None => Err(Fault::MalformedNumber(Element::ProtectionDomain, Attribute::StackSize)),
            Some(stack) => if !stack_size_allowed(stack) {
                Err(Fault::StackSizeOutOfRange(name@, stack as u32))
            } else if declares_process(earlier, name@) {
                Err(Fault::DuplicateProcess(name@))
            } else {
                match image_steps(name@, pd.program_image) {
                    Err(e) => Err(e),
                    Ok(img) => match map_steps(name@, pd.map, regions) {
                        Err(e) => Err(e),
                        Ok(m) => Ok(seq![StepModel::CreateProcess(name@, stack as u32)] + img + m),
                    },
                }
            },
        },
    }
}

/// The channel's two routing steps, given all protection domains.
pub open spec fn channel_steps(ch: ChannelDecl, pds: Seq<ProtectionDomainDecl>) -> Result<
    Seq<StepModel>,
    Fault,
> {
    let ends = ch.ends@;
    if ends.len() != 2 {
        Err(Fault::ChannelEndCount(ends.len()))
    } else {
        match (ends[0].pd, ends[1].pd) {
            (None, _) => Err(Fault::MissingAttribute(Element::ChannelEnd, Attribute::Pd)),
            (_, None) => Err(Fault::MissingAttribute(Element::ChannelEnd, Attribute::Pd)),
            (Some(pd1), Some(pd2)) => match end_id(ends[0]) {
                Err(e) => Err(e),
                Ok(id1) => match end_id(ends[1]) {
                    Err(e) => Err(e),
                    Ok(id2) => if !declares_process(pds, pd1@) {
                        Err(Fault::UnknownProcess(pd1@))
                    } else if !declares_process(pds, pd2@) {
                        Err(Fault::UnknownProcess(pd2@))
                    } else {
                        Ok(
                            seq![
                                StepModel::Connect(pd1@, pd2@, id1),
                                StepModel::Connect(pd2@, pd1@, id2),
                            ],
                        )
                    },
                },
            },
        }
    }
}

/// The decimal id of a channel end.
pub open spec fn end_id(end: ChannelEndDecl) -> Result<u64, Fault> {
    match end.id {
        None => Err(Fault::MissingAttribute(Element::ChannelEnd, Attribute::Id)),
        Some(t) => match parse_unsigned(t@, 10, u64::MAX as nat) {
            None => Err(Fault::MalformedNumber(Element::ChannelEnd, Attribute::Id)),
            Some(v) => Ok(v as u64),
        },
    }
}

pub open spec fn region_rule() -> spec_fn(MemoryRegionDecl, Seq<MemoryRegionDecl>) -> Result<
    Seq<StepModel>,
    Fault,
> {
    |r: MemoryRegionDecl, e: Seq<MemoryRegionDecl>| region_steps(r, e)
}

pub open spec fn domain_rule(regions: Seq<MemoryRegionDecl>) -> spec_fn(
    ProtectionDomainDecl,
    Seq<ProtectionDomainDecl>,
) -> Result<Seq<StepModel>, Fault> {
    |pd: ProtectionDomainDecl, e: Seq<ProtectionDomainDecl>| domain_steps(pd, e, regions)
}

pub open spec fn channel_rule(pds: Seq<ProtectionDomainDecl>) -> spec_fn(
    ChannelDecl,
    Seq<ChannelDecl>,
) -> Result<Seq<StepModel>, Fault> {
    |ch: ChannelDecl, e: Seq<ChannelDecl>| channel_steps(ch, pds)
}

/// The memory-region phase.
pub open spec fn region_phase(rs: Seq<MemoryRegionDecl>) -> Result<Seq<StepModel>, Fault> {
    phase(rs, region_rule())
}

/// The protection-domain phase, which may refer to every declared region.
pub open spec fn domain_phase(
    pds: Seq<ProtectionDomainDecl>,
    regions: Seq<MemoryRegionDecl>,
) -> Result<Seq<StepModel>, Fault> {
    phase(pds, domain_rule(regions))
}

/// The channel phase, which may refer to every declared protection domain.
pub open spec fn channel_phase(
    chs: Seq<ChannelDecl>,
    pds: Seq<ProtectionDomainDecl>,
) -> Result<Seq<StepModel>, Fault> {
    phase(chs, channel_rule(pds))
}

/// The whole load: the four phases in order, or the first error.
pub open spec fn load_plan(d: Declaration) -> Result<Seq<StepModel>, Fault> {
    let rs = d.memory_regions@;
    let pds = d.protection_domains@;
    match region_phase(rs) {
        Err(e) => Err(e),
        Ok(a) => match domain_phase(pds, rs) {
            Err(e) => Err(e),
            Ok(b) => match channel_phase(d.channels@, pds) {
                Err(e) => Err(e),
                Ok(c) => Ok(a + b + c + seq![StepModel::LaunchAll]),
            },
        },
    }
}

/// A phase over a prefix unfolds by its last element.
proof fn lemma_phase_step<T>(
    xs: Seq<T>,
    f: spec_fn(T, Seq<T>) -> Result<Seq<StepModel>, Fault>,
    i: int,
)
    requires
        0 <= i < xs.len(),
    ensures
        phase(xs.take(i + 1), f) == match phase(xs.take(i), f) {
            Err(e) => Err(e),
            Ok(s) => match f(xs[i], xs.take(i)) {
                Err(e) => Err(e),
                Ok(t) => Ok(s + t),
            },
        },
{
    assert(xs.take(i + 1).drop_last() =~= xs.take(i));
    assert(xs.take(i + 1).last() == xs[i]);
}

/// Once a prefix of a phase fails, the phase fails with that error.
proof fn lemma_phase_prefix_err<T>(
    xs: Seq<T>,
    f: spec_fn(T, Seq<T>) -> Result<Seq<StepModel>, Fault>,
    k: int,
)
    requires
        0 <= k <= xs.len(),
        phase(xs.take(k), f) is Err,
    ensures
        phase(xs, f) == phase(xs.take(k), f),
    decreases xs.len() - k,
{
    if k == xs.len() {
        assert(xs.take(k) =~= xs);
    } else {
        lemma_phase_step(xs, f, k);
        lemma_phase_prefix_err(xs, f, k + 1);
    }
}

/// Whether a region called `name` is among the first `upto` of `rs`.
fn region_declared(rs: &Vec<MemoryRegionDecl>, upto: usize, name: &String) -> (r: bool)
    requires
        upto <= rs@.len(),
    ensures
        r == declares_region(rs@.take(upto as int), name@),
{
    let ghost pre = rs@.take(upto as int);
    let mut k: usize = 0;
    while k < upto
        invariant
            k <= upto <= rs@.len(),
            pre == rs@.take(upto as int),
            forall|j: int| 0 <= j < k ==> text_view(#[trigger] pre[j].name) != Some(name@),
        decreases upto - k,
    {
        assert(pre[k as int] == rs@[k as int]);
        if let Some(n) = &rs[k].name {
            if *n == *name {
                assert(text_view(pre[k as int].name) == Some(name@));
                return true;
            }
        }
        k = k + 1;
    }
    false
}

/// Whether a process called `name` is among the first `upto` of `pds`.
fn process_declared(pds: &Vec<ProtectionDomainDecl>, upto: usize, name: &String) -> (r: bool)
    requires
        upto <= pds@.len(),
    ensures
        r == declares_process(pds@.take(upto as int), name@),
{
    let ghost pre = pds@.take(upto as int);
    let mut k: usize = 0;
    while k < upto
        invariant
            k <= upto <= pds@.len(),
            pre == pds@.take(upto as int),
            forall|j: int| 0 <= j < k ==> text_view(#[trigger] pre[j].name) != Some(name@),
        decreases upto - k,
    {
        assert(pre[k as int] == pds@[k as int]);
        if let Some(n) = &pds[k].name {
            if *n == *name {
                assert(text_view(pre[k as int].name) == Some(name@));
                return true;
            }
        }
        k = k + 1;
    }
    false
}


/// A stack size lies within 4 KiB to 16 MiB, both included.
pub fn stack_size_in_range(size: u32) -> (r: bool)
    ensures
        r == stack_size_allowed(size as nat),
{
    MIN_STACK_SIZE <= size && size <= MAX_STACK_SIZE
}

/// Where a declared image is loaded from: `./build/`, then `raw` without its
/// three-character extension, then `so`.
pub fn image_load_path(raw: &str) -> (r: String)
    requires
        raw@.len() >= 3,
    ensures
        r@ == load_path(raw@),
{
    let len = raw.unicode_len();
    let mut path = "./build/".to_owned();
    path.append(raw.substring_char(0, len - 3));
    path.append("so");
    path
}

fn memory_region_steps(rs: &Vec<MemoryRegionDecl>, i: usize) -> (r: Result<Vec<Step>, LoadError>)
    requires
        i < rs@.len(),
    ensures
        outcome(r) == region_steps(rs@[i as int], rs@.take(i as int)),
{
    let r = &rs[i];
    let name = match &r.name {
        None => {
            return Err(
                LoadError::MissingAttribute {
                    element: Element::MemoryRegion,
                    attribute: Attribute::Name,
                },
            );
        },
        Some(n) => n,
    };
    let text = match &r.size {
        None => {
            return Err(
                LoadError::MissingAttribute {
                    element: Element::MemoryRegion,
                    attribute: Attribute::Size,
                },
            );
        },
        Some(t) => t,
    };
    let size = match parse_hex(text.as_str(), u64::MAX) {
        None => {
            return Err(
                LoadError::MalformedNumber {
                    element: Element::MemoryRegion,
                    attribute: Attribute::Size,
                },
            );
        },
        Some(v) => v,
    };
    if region_declared(rs, i, name) {
        return Err(LoadError::DuplicateMemoryRegion { name: name.clone() });
    }
    let mut out: Vec<Step> = Vec::new();
    out.push(Step::CreateMemory { name: name.clone(), size });
    assert(steps_view(out@) =~= seq![StepModel::CreateMemory(name@, size)]);
    Ok(out)
}

fn protection_domain_steps(
    pds: &Vec<ProtectionDomainDecl>,
    i: usize,
    regions: &Vec<MemoryRegionDecl>,
) -> (r: Result<Vec<Step>, LoadError>)
    requires
        i < pds@.len(),
    ensures
        outcome(r) == domain_steps(pds@[i as int], pds@.take(i as int), regions@),
{
    let pd = &pds[i];
    let name = match &pd.name {
        None => {
            return Err(
                LoadError::MissingAttribute {
                    element: Element::ProtectionDomain,
                    attribute: Attribute::Name,
                },
            );
        },
        Some(n) => n,
    };
    let stack: u32 = match &pd.stack_size {
        None => DEFAULT_STACK_SIZE,
        Some(t) => match parse_hex(t.as_str(), u32::MAX as u64) {
            None => {
                return Err(
                    LoadError::MalformedNumber {
                        element: Element::ProtectionDomain,
                        attribute: Attribute::StackSize,
                    },
                );
            },
            Some(v) => v as u32,
        },
    };
    assert(declared_stack_size(pd.stack_size) == Some(stack as nat));
    if !stack_size_in_range(stack) {
        return Err(LoadError::StackSizeOutOfRange { process: name.clone(), stack_size: stack });
    }
    if process_declared(pds, i, name) {
        return Err(LoadError::DuplicateProcess { name: name.clone() });
    }
    let mut out: Vec<Step> = Vec::new();
    out.push(Step::CreateProcess { name: name.clone(), stack_size: stack });
    let ghost created = steps_view(out@);
    assert(created =~= seq![StepModel::CreateProcess(name@, stack)]);
    let ghost img: Seq<StepModel> = Seq::empty();
    match &pd.program_image {
        None => {},
        Some(image) => match &image.path {
            None => {
                return Err(
                    LoadError::MissingAttribute {
                        element: Element::ProgramImage,
                        attribute: Attribute::Path,
                    },
                );
            },
            Some(p) => {
                if p.as_str().unicode_len() < 3 {
                    return Err(LoadError::ImagePathTooShort { process: name.clone() });
                }
                let path = image_load_path(p.as_str());
                out.push(Step::SetImage { process: name.clone(), path });
                proof {
                    img = seq![StepModel::SetImage(name@, load_path(p@))];
                }
            },
        },
    }
    assert(image_steps(name@, pd.program_image) == Ok::<Seq<StepModel>, Fault>(img));
    assert(steps_view(out@) =~= created + img);
    let ghost mapped: Seq<StepModel> = Seq::empty();
    match &pd.map {
        None => {},
        Some(m) => {
            let mr = match &m.mr {
                None => {
                    return Err(
                        LoadError::MissingAttribute {
                            element: Element::Mapping,
                            attribute: Attribute::Mr,
                        },
                    );
                },
                Some(mr) => mr,
            };
            let var = match &m.setvar_vaddr {
                None => {
                    return Err(
                        LoadError::MissingAttribute {
                            element: Element::Mapping,
                            attribute: Attribute::SetvarVaddr,
                        },
                    );
                },
                Some(v) => v,
            };
            let known = region_declared(regions, regions.len(), mr);
            assert(regions@.take(regions@.len() as int) =~= regions@);
            if !known {
                return Err(LoadError::UnknownMemoryRegion { name: mr.clone() });
            }
            let ghost before = steps_view(out@);
            out.push(Step::Attach { process: name.clone(), region: mr.clone(), varname: var.clone() });
            proof {
                mapped = seq![StepModel::Attach(name@, mr@, var@)];
                assert(steps_view(out@) =~= before + mapped);
            }
        },
    }
    assert(map_steps(name@, pd.map, regions@) == Ok::<Seq<StepModel>, Fault>(mapped));
    assert(steps_view(out@) =~= seq![StepModel::CreateProcess(name@, stack)] + img + mapped);
    Ok(out)
}

fn channel_end_id(end: &ChannelEndDecl) -> (r: Result<u64, LoadError>)
    ensures
        r matches Ok(v) ==> end_id(*end) == Ok::<u64, Fault>(v),
        r matches Err(e) ==> end_id(*end) == Err::<u64, Fault>(e@),
{
    match &end.id {
        None => Err(
            LoadError::MissingAttribute { element: Element::ChannelEnd, attribute: Attribute::Id },
        ),
        Some(t) => match parse_number(t.as_str(), 10, u64::MAX) {
            None => Err(
                LoadError::MalformedNumber { element: Element::ChannelEnd, attribute: Attribute::Id },
            ),
            Some(v) => Ok(v),
        },
    }
}

fn channel_step_list(ch: &ChannelDecl, pds: &Vec<ProtectionDomainDecl>) -> (r: Result<
    Vec<Step>,
    LoadError,
>)
    ensures
        outcome(r) == channel_steps(*ch, pds@),
{
    if ch.ends.len() != 2 {
        return Err(LoadError::ChannelEndCount { ends: ch.ends.len() });
    }
    let end1 = &ch.ends[0];
    let end2 = &ch.ends[1];
    let pd1 = match &end1.pd {
        None => {
            return Err(
                LoadError::MissingAttribute {
                    element: Element::ChannelEnd,
                    attribute: Attribute::Pd,
                },
            );
        },
        Some(p) => p,
    };
    let pd2 = match &end2.pd {
        None => {
            return Err(
                LoadError::MissingAttribute {
                    element: Element::ChannelEnd,
                    attribute: Attribute::Pd,
                },
            );
        },
        Some(p) => p,
    };
    let id1 = match channel_end_id(end1) {
        Err(e) => {
            return Err(e);
        },
        Ok(v) => v,
    };
    let id2 = match channel_end_id(end2) {
        Err(e) => {
            return Err(e);
        },
        Ok(v) => v,
    };
    assert(pds@.take(pds@.len() as int) =~= pds@);
    if !process_declared(pds, pds.len(), pd1) {
        return Err(LoadError::UnknownProcess { name: pd1.clone() });
    }
    if !process_declared(pds, pds.len(), pd2) {
        return Err(LoadError::UnknownProcess { name: pd2.clone() });
    }
    let mut out: Vec<Step> = Vec::new();
    out.push(Step::Connect { from: pd1.clone(), to: pd2.clone(), id: id1 });
    out.push(Step::Connect { from: pd2.clone(), to: pd1.clone(), id: id2 });
    assert(steps_view(out@) =~= seq![
        StepModel::Connect(pd1@, pd2@, id1),
        StepModel::Connect(pd2@, pd1@, id2),
    ]);
    Ok(out)
}

/// The memory-region phase of `decl`: one creation step per region.
pub fn process_memory_regions(decl: &Declaration) -> (r: Result<Vec<Step>, LoadError>)
    ensures
        outcome(r) == region_phase(decl.memory_regions@),
{
    let rs = &decl.memory_regions;
    let mut steps: Vec<Step> = Vec::new();
    let mut i: usize = 0;
    assert(rs@.take(0) =~= Seq::<MemoryRegionDecl>::empty());
    assert(steps_view(steps@) =~= Seq::<StepModel>::empty());
    while i < rs.len()
        invariant
            i <= rs@.len(),
            rs@ == decl.memory_regions@,
            phase(rs@.take(i as int), region_rule()) == Ok::<Seq<StepModel>, Fault>(
                steps_view(steps@),
            ),
        decreases rs@.len() - i,
    {
        proof {
            lemma_phase_step(rs@, region_rule(), i as int);
        }
        match memory_region_steps(rs, i) {
            Err(e) => {
                proof {
                    lemma_phase_prefix_err(rs@, region_rule(), i + 1);
                }
                return Err(e);
            },
            Ok(more) => {
                let mut more = more;
                let ghost a = steps@;
                let ghost b = more@;
                steps.append(&mut more);
                assert(steps_view(steps@) =~= steps_view(a) + steps_view(b));
            },
        }
        i = i + 1;
    }
    assert(rs@.take(i as int) =~= rs@);
    Ok(steps)
}

/// The protection-domain phase of `decl`: for each domain its creation, then
/// its image, then its mapping.
pub fn process_protection_domains(decl: &Declaration) -> (r: Result<Vec<Step>, LoadError>)
    ensures
        outcome(r) == domain_phase(decl.protection_domains@, decl.memory_regions@),
{
    let pds = &decl.protection_domains;
    let ghost rule = domain_rule(decl.memory_regions@);
    let mut steps: Vec<Step> = Vec::new();
    let mut i: usize = 0;
    assert(pds@.take(0) =~= Seq::<ProtectionDomainDecl>::empty());
    assert(steps_view(steps@) =~= Seq::<StepModel>::empty());
    while i < pds.len()
        invariant
            i <= pds@.len(),
            pds@ == decl.protection_domains@,
            rule == domain_rule(decl.memory_regions@),
            phase(pds@.take(i as int), rule) == Ok::<Seq<StepModel>, Fault>(steps_view(steps@)),
        decreases pds@.len() - i,
    {
        proof {
            lemma_phase_step(pds@, rule, i as int);
        }
        match protection_domain_steps(pds, i, &decl.memory_regions) {
            Err(e) => {
                proof {
                    lemma_phase_prefix_err(pds@, rule, i + 1);
                }
                return Err(e);
            },
            Ok(more) => {
                let mut more = more;
                let ghost a = steps@;
                let ghost b = more@;
                steps.append(&mut more);
                assert(steps_view(steps@) =~= steps_view(a) + steps_view(b));
            },
        }
        i = i + 1;
    }
    assert(pds@.take(i as int) =~= pds@);
    Ok(steps)
}

/// The channel phase of `decl`: two independent routing steps per channel.
pub fn process_channels(decl: &Declaration) -> (r: Result<Vec<Step>, LoadError>)
    ensures
        outcome(r) == channel_phase(decl.channels@, decl.protection_domains@),
{
    let chs = &decl.channels;
    let ghost rule = channel_rule(decl.protection_domains@);
    let mut steps: Vec<Step> = Vec::new();
    let mut i: usize = 0;
    assert(chs@.take(0) =~= Seq::<ChannelDecl>::empty());
    assert(steps_view(steps@) =~= Seq::<StepModel>::empty());
    while i < chs.len()
        invariant
            i <= chs@.len(),
            chs@ == decl.channels@,
            rule == channel_rule(decl.protection_domains@),
            phase(chs@.take(i as int), rule) == Ok::<Seq<StepModel>, Fault>(steps_view(steps@)),
        decreases chs@.len() - i,
    {
        proof {
            lemma_phase_step(chs@, rule, i as int);
        }
        match channel_step_list(&chs[i], &decl.protection_domains) {
            Err(e) => {
                proof {
                    lemma_phase_prefix_err(chs@, rule, i + 1);
                }
                return Err(e);
            },
            Ok(more) => {
                let mut more = more;
                let ghost a = steps@;
                let ghost b = more@;
                steps.append(&mut more);
                assert(steps_view(steps@) =~= steps_view(a) + steps_view(b));
            },
        }
        i = i + 1;
    }
    assert(chs@.take(i as int) =~= chs@);
    Ok(steps)
}

/// The whole load of `decl`: regions, then domains, then channels, then the
/// launch; or the first error, before any step has run.
pub fn plan_load(decl: &Declaration) -> (r: Result<Vec<Step>, LoadError>)
    ensures
        outcome(r) == load_plan(*decl),
{
    let mut steps = match process_memory_regions(decl) {
        Err(e) => {
            return Err(e);
        },
        Ok(s) => s,
    };
    let mut domains = match process_protection_domains(decl) {
        Err(e) => {
            return Err(e);
        },
        Ok(s) => s,
    };
    let mut channels = match process_channels(decl) {
        Err(e) => {
            return Err(e);
        },
        Ok(s) => s,
    };
    let ghost a = steps@;
    let ghost b = domains@;
    let ghost c = channels@;
    steps.append(&mut domains);
    steps.append(&mut channels);
    steps.push(Step::LaunchAll);
    assert(steps_view(steps@) =~= steps_view(a) + steps_view(b) + steps_view(c) + seq![
        StepModel::LaunchAll,
    ]);
    Ok(steps)
}


/// An element whose steps fail makes its whole phase fail.
proof fn lemma_phase_element_err<T>(
    xs: Seq<T>,
    f: spec_fn(T, Seq<T>) -> Result<Seq<StepModel>, Fault>,
    i: int,
)
    requires
        0 <= i < xs.len(),
        f(xs[i], xs.take(i)) is Err,
    ensures
        phase(xs, f) is Err,
{
    if phase(xs.take(i), f) is Err {
        lemma_phase_prefix_err(xs, f, i);
    } else {
        lemma_phase_step(xs, f, i);
        lemma_phase_prefix_err(xs, f, i + 1);
    }
}

/// A channel declared with other than two ends aborts the load: no step at
/// all is planned, so no routing entry is installed.
pub proof fn lemma_channel_end_count_rejected(d: Declaration, i: int)
    requires
        0 <= i < d.channels@.len(),
        d.channels@[i].ends@.len() != 2,
    ensures
        load_plan(d) is Err,
{
    let rule = channel_rule(d.protection_domains@);
    assert(rule(d.channels@[i], d.channels@.take(i)) is Err);
    lemma_phase_element_err(d.channels@, rule, i);
}

/// A mapping that names a memory region the declaration does not hold aborts
/// the load: no step at all is planned, so nothing is attached.
pub proof fn lemma_undeclared_region_rejected(d: Declaration, i: int)
    requires
        0 <= i < d.protection_domains@.len(),
        d.protection_domains@[i].map matches Some(m) && m.mr matches Some(mr)
            && !declares_region(d.memory_regions@, mr@),
    ensures
        load_plan(d) is Err,
{
    let pds = d.protection_domains@;
    let rule = domain_rule(d.memory_regions@);
    let m = pds[i].map->Some_0;
    assert(map_steps(pds[i].name->Some_0@, pds[i].map, d.memory_regions@) is Err);
    assert(rule(pds[i], pds.take(i)) is Err);
    lemma_phase_element_err(pds, rule, i);
}

/// A stack size is accepted exactly when it lies within 4 KiB to 16 MiB: a
/// domain whose declared stack size falls outside aborts the load with an
/// error naming it.
pub proof fn lemma_stack_size_out_of_range(d: Declaration, i: int, name: String, stack: nat)
    requires
        0 <= i < d.protection_domains@.len(),
        d.protection_domains@[i].name == Some(name),
        declared_stack_size(d.protection_domains@[i].stack_size) == Some(stack),
        !stack_size_allowed(stack),
    ensures
        domain_steps(
            d.protection_domains@[i],
            d.protection_domains@.take(i),
            d.memory_regions@,
        ) == Err::<Seq<StepModel>, Fault>(Fault::StackSizeOutOfRange(name@, stack as u32)),
        load_plan(d) is Err,
{
    let rule = domain_rule(d.memory_regions@);
    assert(rule(d.protection_domains@[i], d.protection_domains@.take(i)) is Err);
    lemma_phase_element_err(d.protection_domains@, rule, i);
}


/// Some step of `steps` creates process `name`.
pub open spec fn creates_process(steps: Seq<StepModel>, name: Seq<char>) -> bool {
    exists|j: int|
        0 <= j < steps.len() && (#[trigger] steps[j]) is CreateProcess && steps[j]->CreateProcess_0
            == name
}

/// Some step of `steps` creates memory region `name`.
pub open spec fn creates_region(steps: Seq<StepModel>, name: Seq<char>) -> bool {
    exists|j: int|
        0 <= j < steps.len() && (#[trigger] steps[j]) is CreateMemory && steps[j]->CreateMemory_0
            == name
}

/// A step of the protection-domain phase is in order after `earlier`: it
/// creates a process, or it concerns one that `earlier` created (and a
/// mapping names a declared region).
pub open spec fn domain_step_in_order(
    st: StepModel,
    earlier: Seq<StepModel>,
    regions: Seq<MemoryRegionDecl>,
) -> bool {
    match st {
        StepModel::CreateProcess(_, _) => true,
        StepModel::SetImage(p, _) => creates_process(earlier, p),
        StepModel::Attach(p, r, _) => creates_process(earlier, p) && declares_region(regions, r),
        _ => false,
    }
}

proof fn lemma_region_phase_creates(rs: Seq<MemoryRegionDecl>)
    requires
        region_phase(rs) is Ok,
    ensures
        forall|k: int|
            0 <= k < region_phase(rs)->Ok_0.len() ==> (#[trigger] region_phase(rs)->Ok_0[k]) is CreateMemory,
        forall|n: Seq<char>| declares_region(rs, n) ==> creates_region(region_phase(rs)->Ok_0, n),
    decreases rs.len(),
{
    if rs.len() > 0 {
        let pre = rs.drop_last();
        lemma_region_phase_creates(pre);
        let a0 = region_phase(pre)->Ok_0;
        let a = region_phase(rs)->Ok_0;
        let last = rs.last();
        assert(region_steps(last, pre) is Ok);
        let name = last.name->Some_0;
        assert(a == a0 + seq![StepModel::CreateMemory(name@, a[a0.len() as int]->CreateMemory_1)]);
        assert forall|k: int| 0 <= k < a.len() implies (#[trigger] a[k]) is CreateMemory by {
            if k < a0.len() {
                assert(a[k] == a0[k]);
            }
        }
        assert forall|n: Seq<char>| declares_region(rs, n) implies creates_region(a, n) by {
            let k = choose|k: int| 0 <= k < rs.len() && text_view(#[trigger] rs[k].name) == Some(n);
            if k < pre.len() {
                assert(pre[k] == rs[k]);
                assert(declares_region(pre, n));
                let j = choose|j: int|
                    0 <= j < a0.len() && (#[trigger] a0[j]) is CreateMemory && a0[j]->CreateMemory_0 == n;
                assert(a[j] == a0[j]);
            } else {
                assert(a[a0.len() as int] is CreateMemory);
            }
        }
    }
}


proof fn lemma_domain_steps_shape(
    pd: ProtectionDomainDecl,
    earlier: Seq<ProtectionDomainDecl>,
    regions: Seq<MemoryRegionDecl>,
)
    requires
        domain_steps(pd, earlier, regions) is Ok,
    ensures
        ({
            let t = domain_steps(pd, earlier, regions)->Ok_0;
            let name = pd.name->Some_0@;
            &&& pd.name is Some
            &&& t.len() >= 1
            &&& t[0] is CreateProcess && t[0]->CreateProcess_0 == name
            &&& forall|i: int|
                1 <= i < t.len() ==> ((#[trigger] t[i]) is SetImage && t[i]->SetImage_0 == name) || (
                t[i] is Attach && t[i]->Attach_0 == name && declares_region(regions, t[i]->Attach_1))
        }),
{
    let name = pd.name->Some_0@;
    let t = domain_steps(pd, earlier, regions)->Ok_0;
    let stack = declared_stack_size(pd.stack_size)->Some_0;
    let img = image_steps(name, pd.program_image)->Ok_0;
    let m = map_steps(name, pd.map, regions)->Ok_0;
    assert(t == seq![StepModel::CreateProcess(name, stack as u32)] + img + m);
    assert forall|i: int| 1 <= i < t.len() implies ((#[trigger] t[i]) is SetImage
        && t[i]->SetImage_0 == name) || (t[i] is Attach && t[i]->Attach_0 == name
        && declares_region(regions, t[i]->Attach_1)) by {
        if i < 1 + img.len() {
            assert(t[i] == img[i - 1]);
        } else {
            assert(t[i] == m[i - 1 - img.len()]);
        }
    }
}

proof fn lemma_domain_phase_order(pds: Seq<ProtectionDomainDecl>, regions: Seq<MemoryRegionDecl>)
    requires
        domain_phase(pds, regions) is Ok,
    ensures
        forall|k: int|
            0 <= k < domain_phase(pds, regions)->Ok_0.len() ==> domain_step_in_order(
                #[trigger] domain_phase(pds, regions)->Ok_0[k],
                domain_phase(pds, regions)->Ok_0.take(k),
                regions,
            ),
        forall|n: Seq<char>|
            declares_process(pds, n) ==> creates_process(domain_phase(pds, regions)->Ok_0, n),
    decreases pds.len(),
{
    if pds.len() > 0 {
        let pre = pds.drop_last();
        lemma_domain_phase_order(pre, regions);
        let b0 = domain_phase(pre, regions)->Ok_0;
        let b = domain_phase(pds, regions)->Ok_0;
        let last = pds.last();
        assert(domain_rule(regions)(last, pre) == domain_steps(last, pre, regions));
        lemma_domain_steps_shape(last, pre, regions);
        let t = domain_steps(last, pre, regions)->Ok_0;
        let name = last.name->Some_0@;
        assert(b == b0 + t);
        let base = b0.len() as int;
        assert(b[base] == t[0]);
        assert forall|k: int| 0 <= k < b.len() implies domain_step_in_order(
            #[trigger] b[k],
            b.take(k),
            regions,
        ) by {
            if k < base {
                assert(b[k] == b0[k]);
                assert(b.take(k) =~= b0.take(k));
                assert(domain_step_in_order(b0[k], b0.take(k), regions));
                if b[k] is SetImage || b[k] is Attach {
                    let p = if b[k] is SetImage { b[k]->SetImage_0 } else { b[k]->Attach_0 };
                    let j = choose|j: int|
                        0 <= j < b0.take(k).len() && (#[trigger] b0.take(k)[j]) is CreateProcess
                            && b0.take(k)[j]->CreateProcess_0 == p;
                    assert(b.take(k)[j] == b0.take(k)[j]);
                }
            } else if k > base {
                assert(b[k] == t[k - base]);
                assert(b.take(k)[base] == b[base]);
            }
        }
        assert forall|n: Seq<char>| declares_process(pds, n) implies creates_process(b, n) by {
            let k = choose|k: int| 0 <= k < pds.len() && text_view(#[trigger] pds[k].name) == Some(n);
            if k < pre.len() {
                assert(pre[k] == pds[k]);
                assert(declares_process(pre, n));
                let j = choose|j: int|
                    0 <= j < b0.len() && (#[trigger] b0[j]) is CreateProcess && b0[j]->CreateProcess_0 == n;
                assert(b[j] == b0[j]);
            } else {
                assert(b[base] is CreateProcess);
            }
        }
    }
}

proof fn lemma_channel_phase_connects(chs: Seq<ChannelDecl>, pds: Seq<ProtectionDomainDecl>)
    requires
        channel_phase(chs, pds) is Ok,
    ensures
        forall|k: int|
            0 <= k < channel_phase(chs, pds)->Ok_0.len() ==> {
                let st = #[trigger] channel_phase(chs, pds)->Ok_0[k];
                &&& st is Connect
                &&& declares_process(pds, st->Connect_0)
                &&& declares_process(pds, st->Connect_1)
            },
    decreases chs.len(),
{
    if chs.len() > 0 {
        let pre = chs.drop_last();
        lemma_channel_phase_connects(pre, pds);
        let c0 = channel_phase(pre, pds)->Ok_0;
        let c = channel_phase(chs, pds)->Ok_0;
        assert(channel_rule(pds)(chs.last(), pre) == channel_steps(chs.last(), pds));
        let t = channel_steps(chs.last(), pds)->Ok_0;
        assert(c == c0 + t);
        assert(t.len() == 2);
        assert forall|k: int| 0 <= k < c.len() implies {
            let st = #[trigger] c[k];
            &&& st is Connect
            &&& declares_process(pds, st->Connect_0)
            &&& declares_process(pds, st->Connect_1)
        } by {
            if k < c0.len() {
                assert(c[k] == c0[k]);
            } else {
                assert(c[k] == t[k - c0.len()]);
            }
        }
    }
}


/// A plan that succeeds runs in dependency order: first the memory regions;
/// then, per protection domain, its creation before the image and mapping
/// that concern it, each mapping naming a region created in the first phase;
/// then routing steps between processes created in the second phase; and the
/// launch last.
pub proof fn lemma_plan_dependency_order(d: Declaration)
    requires
        load_plan(d) is Ok,
    ensures
        ({
            let rs = d.memory_regions@;
            let pds = d.protection_domains@;
            let a = region_phase(rs)->Ok_0;
            let b = domain_phase(pds, rs)->Ok_0;
            let c = channel_phase(d.channels@, pds)->Ok_0;
            &&& load_plan(d) == Ok::<Seq<StepModel>, Fault>(a + b + c + seq![StepModel::LaunchAll])
            &&& forall|k: int| 0 <= k < a.len() ==> (#[trigger] a[k]) is CreateMemory
            &&& forall|k: int|
                0 <= k < b.len() ==> domain_step_in_order(#[trigger] b[k], b.take(k), rs)
            &&& forall|k: int|
                0 <= k < b.len() && (#[trigger] b[k]) is Attach ==> creates_region(a, b[k]->Attach_1)
            &&& forall|k: int|
                0 <= k < c.len() ==> {
                    &&& (#[trigger] c[k]) is Connect
                    &&& creates_process(b, c[k]->Connect_0)
                    &&& creates_process(b, c[k]->Connect_1)
                }
        }),
{
    let rs = d.memory_regions@;
    let pds = d.protection_domains@;
    lemma_region_phase_creates(rs);
    lemma_domain_phase_order(pds, rs);
    lemma_channel_phase_connects(d.channels@, pds);
    let b = domain_phase(pds, rs)->Ok_0;
    assert forall|k: int| 0 <= k < b.len() && (#[trigger] b[k]) is Attach implies creates_region(
        region_phase(rs)->Ok_0,
        b[k]->Attach_1,
    ) by {
        assert(domain_step_in_order(b[k], b.take(k), rs));
    }
}

} // verus!

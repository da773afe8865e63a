//! The topology registry: which processes and memory regions exist, under
//! which names and handles, what is attached to each process and how its
//! channels route.
use vstd::prelude::*;

use crate::declaration::text_view;
use crate::error::{Fault, LoadError};

verus! {

/// The identity of a process object made by the resource provider. Zero is null.
pub type ProcessHandle = usize;

/// The identity of a shared-memory block made by the resource provider. Zero is null.
pub type SharedMemoryHandle = usize;

/// Alignment of a shared-memory buffer.
pub const PAGE_SIZE: usize = 4096;

/// Alignment of a process's stacks.
pub const STACK_ALIGN: usize = 16;

/// The execution resources the provider gave a new process.
#[derive(Clone, Copy, Debug)]
pub struct Process {
    pub stack_top: usize,
    pub sig_handler_stack: usize,
    pub notification: i32,
    pub send_pipe: [i32; 2],
    pub receive_pipe: [i32; 2],
    pub ipc_buffer: usize,
}

impl Process {
    /// `fd` is one of this process's five descriptors.
    pub open spec fn holds_fd(self, fd: i32) -> bool {
        fd == self.notification || fd == self.send_pipe[0] || fd == self.send_pipe[1]
            || fd == self.receive_pipe[0] || fd == self.receive_pipe[1]
    }

    /// Both stacks are non-null, distinct and 16-byte aligned, the IPC buffer
    /// is mapped, and the five descriptors are valid and pairwise distinct.
    pub open spec fn well_formed(self) -> bool {
        &&& self.stack_top != 0
        &&& self.stack_top % 16 == 0
        &&& self.sig_handler_stack != 0
        &&& self.sig_handler_stack % 16 == 0
        &&& self.stack_top != self.sig_handler_stack
        &&& self.ipc_buffer != 0
        &&& self.notification >= 0
        &&& self.send_pipe[0] >= 0
        &&& self.send_pipe[1] >= 0
        &&& self.receive_pipe[0] >= 0
        &&& self.receive_pipe[1] >= 0
        &&& self.notification != self.send_pipe[0]
        &&& self.notification != self.send_pipe[1]
        &&& self.notification != self.receive_pipe[0]
        &&& self.notification != self.receive_pipe[1]
        &&& self.send_pipe[0] != self.send_pipe[1]
        &&& self.send_pipe[0] != self.receive_pipe[0]
        &&& self.send_pipe[0] != self.receive_pipe[1]
        &&& self.send_pipe[1] != self.receive_pipe[0]
        &&& self.send_pipe[1] != self.receive_pipe[1]
        &&& self.receive_pipe[0] != self.receive_pipe[1]
    }

    /// No descriptor of `self` is a descriptor of `other`.
    pub open spec fn shares_no_fd(self, other: Process) -> bool {
        &&& !other.holds_fd(self.notification)
        &&& !other.holds_fd(self.send_pipe[0])
        &&& !other.holds_fd(self.send_pipe[1])
        &&& !other.holds_fd(self.receive_pipe[0])
        &&& !other.holds_fd(self.receive_pipe[1])
    }

    pub fn is_well_formed(&self) -> (r: bool)
        ensures
            r == self.well_formed(),
    {
        let n = self.notification;
        let s0 = self.send_pipe[0];
        let s1 = self.send_pipe[1];
        let r0 = self.receive_pipe[0];
        let r1 = self.receive_pipe[1];
        self.stack_top != 0 && self.stack_top % STACK_ALIGN == 0 && self.sig_handler_stack != 0
            && self.sig_handler_stack % STACK_ALIGN == 0 && self.stack_top
            != self.sig_handler_stack && self.ipc_buffer != 0 && n >= 0 && s0 >= 0 && s1 >= 0
            && r0 >= 0 && r1 >= 0 && n != s0 && n != s1 && n != r0 && n != r1 && s0 != s1 && s0
            != r0 && s0 != r1 && s1 != r0 && s1 != r1 && r0 != r1
    }

    fn holds(&self, fd: i32) -> (r: bool)
        ensures
            r == self.holds_fd(fd),
    {
        fd == self.notification || fd == self.send_pipe[0] || fd == self.send_pipe[1] || fd
            == self.receive_pipe[0] || fd == self.receive_pipe[1]
    }

    pub fn shares_no_descriptor(&self, other: &Process) -> (r: bool)
        ensures
            r == self.shares_no_fd(*other),
    {
        !other.holds(self.notification) && !other.holds(self.send_pipe[0]) && !other.holds(
            self.send_pipe[1],
        ) && !other.holds(self.receive_pipe[0]) && !other.holds(self.receive_pipe[1])
    }
}

/// A shared-memory block as the provider made it.
#[derive(Clone, Copy, Debug)]
pub struct SharedMemory {
    pub shared_buffer: usize,
    pub size: u64,
}

impl SharedMemory {
    /// The buffer is non-null and page-aligned and has the declared size.
    pub open spec fn well_formed(self, declared: u64) -> bool {
        &&& self.shared_buffer != 0
        &&& self.shared_buffer % 4096 == 0
        &&& self.size == declared
    }
}

/// One attachment on a process's stack: a memory region's handle and the
/// variable name it is attached under.
#[derive(Debug)]
pub struct SharedMemoryStackNode {
    pub shm: SharedMemoryHandle,
    pub varname: String,
}

impl View for SharedMemoryStackNode {
    type V = (SharedMemoryHandle, Seq<char>);

    open spec fn view(&self) -> (SharedMemoryHandle, Seq<char>) {
        (self.shm, self.varname@)
    }
}

/// One routing entry: channel `id` of the owning process leads to `target`.
#[derive(Clone, Copy, Debug, PartialEq, Eq, Structural)]
pub struct ChannelEntry {
    pub id: u64,
    pub target: ProcessHandle,
}

/// What a launch hands to the provider.
#[derive(Debug)]
pub struct Launch {
    pub handle: ProcessHandle,
    pub image_path: String,
}

/// A registered process.
pub struct ProcessInfo {
    pub name: String,
    pub handle: ProcessHandle,
    pub stack_size: u32,
    pub process: Process,
    pub image_path: Option<String>,
    /// Attachments in the order they were made: the last is the head.
    pub shared_memory: Vec<SharedMemoryStackNode>,
    /// Routing entries in the order they were installed.
    pub channels: Vec<ChannelEntry>,
    pub launched: bool,
}

/// A registered memory region.
pub struct MemoryRegionInfo {
    pub name: String,
    pub handle: SharedMemoryHandle,
    pub memory: SharedMemory,
}

/// The abstract state of a registered process.
pub struct ProcessModel {
    pub name: Seq<char>,
    pub handle: ProcessHandle,
    pub stack_size: u32,
    pub process: Process,
    pub image: Option<Seq<char>>,
    pub attachments: Seq<(SharedMemoryHandle, Seq<char>)>,
    pub channels: Seq<ChannelEntry>,
    pub launched: bool,
}

/// The abstract state of a registered memory region.
pub struct RegionModel {
    pub name: Seq<char>,
    pub handle: SharedMemoryHandle,
    pub memory: SharedMemory,
}

/// The abstract state of a [`Loader`]: processes and regions in registration order.
pub struct LoaderModel {
    pub processes: Seq<ProcessModel>,
    pub regions: Seq<RegionModel>,
}

pub open spec fn launch_view(l: Launch) -> (ProcessHandle, Seq<char>) {
    (l.handle, l.image_path@)
}

impl View for ProcessInfo {
    type V = ProcessModel;

    open spec fn view(&self) -> ProcessModel {
        ProcessModel {
            name: self.name@,
            handle: self.handle,
            stack_size: self.stack_size,
            process: self.process,
            image: text_view(self.image_path),
            attachments: self.shared_memory@.map_values(|n: SharedMemoryStackNode| n@),
            channels: self.channels@,
            launched: self.launched,
        }
    }
}

impl View for MemoryRegionInfo {
    type V = RegionModel;

    open spec fn view(&self) -> RegionModel {
        RegionModel { name: self.name@, handle: self.handle, memory: self.memory }
    }
}

/// The target that the latest entry for `id` in `entries` routes to, if any.
pub open spec fn route(entries: Seq<ChannelEntry>, id: u64) -> Option<ProcessHandle>
    decreases entries.len(),
{
    if entries.len() == 0 {
        None
    } else if entries.last().id == id {
        Some(entries.last().target)
    } else {
        route(entries.drop_last(), id)
    }
}

/// The launch that a process owes, if it has an image and has not run yet.
pub open spec fn pending_launch(p: ProcessModel) -> Option<(ProcessHandle, Seq<char>)> {
    match p.image {
        Some(path) => if p.launched {
            None
        } else {
            Some((p.handle, path))
        },
        None => None,
    }
}

impl ProcessModel {
    /// The attachment stack, head (most recent) first.
    pub open spec fn stack(self) -> Seq<(SharedMemoryHandle, Seq<char>)> {
        self.attachments.reverse()
    }

    pub open spec fn marked_launched(self) -> ProcessModel {
        ProcessModel { launched: self.launched || self.image is Some, ..self }
    }
}

impl LoaderModel {
    pub open spec fn process_names(self) -> Seq<Seq<char>> {
        self.processes.map_values(|p: ProcessModel| p.name)
    }

    pub open spec fn region_names(self) -> Seq<Seq<char>> {
        self.regions.map_values(|r: RegionModel| r.name)
    }

    pub open spec fn has_process(self, name: Seq<char>) -> bool {
        self.process_names().contains(name)
    }

    pub open spec fn has_region(self, name: Seq<char>) -> bool {
        self.region_names().contains(name)
    }

    /// Where the process called `name` stands.
    pub open spec fn process_index(self, name: Seq<char>) -> int {
        self.process_names().index_of(name)
    }

    /// Where the region called `name` stands.
    pub open spec fn region_index(self, name: Seq<char>) -> int {
        self.region_names().index_of(name)
    }

    pub open spec fn process_handle(self, name: Seq<char>) -> Option<ProcessHandle> {
        if self.has_process(name) {
            Some(self.processes[self.process_index(name)].handle)
        } else {
            None
        }
    }

    pub open spec fn region_handle(self, name: Seq<char>) -> Option<SharedMemoryHandle> {
        if self.has_region(name) {
            Some(self.regions[self.region_index(name)].handle)
        } else {
            None
        }
    }

    pub open spec fn is_process_handle(self, h: ProcessHandle) -> bool {
        exists|i: int| 0 <= i < self.processes.len() && #[trigger] self.processes[i].handle == h
    }

    pub open spec fn is_region_handle(self, h: SharedMemoryHandle) -> bool {
        exists|i: int| 0 <= i < self.regions.len() && #[trigger] self.regions[i].handle == h
    }

    /// The attachment stack of the process called `name`, head first.
    pub open spec fn attachment_stack(self, name: Seq<char>) -> Seq<(SharedMemoryHandle, Seq<char>)> {
        self.processes[self.process_index(name)].stack()
    }

    /// Where channel `id` of the process called `from` leads.
    pub open spec fn channel_target(self, from: Seq<char>, id: u64) -> Option<ProcessHandle> {
        if self.has_process(from) {
            route(self.processes[self.process_index(from)].channels, id)
        } else {
            None
        }
    }

    pub open spec fn image_of(self, name: Seq<char>) -> Option<Seq<char>> {
        if self.has_process(name) {
            self.processes[self.process_index(name)].image
        } else {
            None
        }
    }

    /// Every registered process is well formed and distinct from the others
    /// in name, handle and descriptors; every region is well formed and
    /// distinct in name and handle; attachments and routes refer to
    /// registered objects.
    pub open spec fn wf(self) -> bool {
        &&& forall|i: int|
            0 <= i < self.processes.len() ==> {
                let p = #[trigger] self.processes[i];
                &&& p.handle != 0
                &&& p.process.well_formed()
                &&& forall|k: int|
                    0 <= k < p.attachments.len() ==> self.is_region_handle(
                        #[trigger] p.attachments[k].0,
                    )
                &&& forall|k: int|
                    0 <= k < p.channels.len() ==> self.is_process_handle(
                        #[trigger] p.channels[k].target,
                    )
            }
        &&& forall|i: int, j: int|
            #![trigger self.processes[i], self.processes[j]]
            0 <= i < self.processes.len() && 0 <= j < self.processes.len() && i != j ==> {
                &&& self.processes[i].name != self.processes[j].name
                &&& self.processes[i].handle != self.processes[j].handle
                &&& self.processes[i].process.shares_no_fd(self.processes[j].process)
            }
        &&& forall|i: int|
            0 <= i < self.regions.len() ==> {
                let r = #[trigger] self.regions[i];
                &&& r.handle != 0
                &&& r.memory.well_formed(r.memory.size)
            }
        &&& forall|i: int, j: int|
            #![trigger self.regions[i], self.regions[j]]
            0 <= i < self.regions.len() && 0 <= j < self.regions.len() && i != j ==> {
                &&& self.regions[i].name != self.regions[j].name
                &&& self.regions[i].handle != self.regions[j].handle
            }
    }

    /// The state after attaching region `mr` to process `pd` under `var`.
    pub open spec fn attach(self, pd: Seq<char>, mr: Seq<char>, var: Seq<char>) -> LoaderModel {
        let i = self.process_index(pd);
        let p = self.processes[i];
        let h = self.regions[self.region_index(mr)].handle;
        LoaderModel {
            processes: self.processes.update(
                i,
                ProcessModel { attachments: p.attachments.push((h, var)), ..p },
            ),
            regions: self.regions,
        }
    }

    /// The state after installing the routing entry `(from, id) -> to`.
    pub open spec fn connect(self, from: Seq<char>, to: Seq<char>, id: u64) -> LoaderModel {
        let i = self.process_index(from);
        let p = self.processes[i];
        let t = self.processes[self.process_index(to)].handle;
        LoaderModel {
            processes: self.processes.update(
                i,
                ProcessModel { channels: p.channels.push(ChannelEntry { id, target: t }), ..p },
            ),
            regions: self.regions,
        }
    }

    /// The state after recording `path` as the image of `pd`.
    pub open spec fn with_image(self, pd: Seq<char>, path: Seq<char>) -> LoaderModel {
        let i = self.process_index(pd);
        let p = self.processes[i];
        LoaderModel {
            processes: self.processes.update(i, ProcessModel { image: Some(path), ..p }),
            regions: self.regions,
        }
    }

    /// The provider's answer to a process creation may be registered: a
    /// non-null handle and well-formed resources, none of them already held by
    /// a registered process.
    pub open spec fn accepts_process(self, handle: ProcessHandle, process: Process) -> bool {
        &&& handle != 0
        &&& process.well_formed()
        &&& forall|i: int|
            0 <= i < self.processes.len() ==> {
                &&& (#[trigger] self.processes[i]).handle != handle
                &&& process.shares_no_fd(self.processes[i].process)
            }
    }

    /// The provider's answer to a memory creation of `size` bytes may be
    /// registered: a non-null handle not already registered and a well-formed
    /// buffer of that size.
    pub open spec fn accepts_region(self, handle: SharedMemoryHandle, memory: SharedMemory, size: u64) -> bool {
        &&& handle != 0
        &&& memory.well_formed(size)
        &&& forall|i: int| 0 <= i < self.regions.len() ==> (#[trigger] self.regions[i]).handle != handle
    }

    /// The state after registering a new process.
    pub open spec fn with_process(
        self,
        name: Seq<char>,
        stack_size: u32,
        handle: ProcessHandle,
        process: Process,
    ) -> LoaderModel {
        LoaderModel {
            processes: self.processes.push(
                ProcessModel {
                    name,
                    handle,
                    stack_size,
                    process,
                    image: None,
                    attachments: Seq::empty(),
                    channels: Seq::empty(),
                    launched: false,
                },
            ),
            regions: self.regions,
        }
    }

    /// The state after registering a new memory region.
    pub open spec fn with_region(self, name: Seq<char>, handle: SharedMemoryHandle, memory: SharedMemory) -> LoaderModel {
        LoaderModel {
            processes: self.processes,
            regions: self.regions.push(RegionModel { name, handle, memory }),
        }
    }

    /// The state after the process called `pd` is marked launched.
    pub open spec fn with_launched(self, pd: Seq<char>) -> LoaderModel {
        let i = self.process_index(pd);
        let p = self.processes[i];
        LoaderModel {
            processes: self.processes.update(i, ProcessModel { launched: true, ..p }),
            regions: self.regions,
        }
    }

    /// The launches owed, in registration order.
    pub open spec fn pending_launches(self) -> Seq<(ProcessHandle, Seq<char>)> {
        self.processes.filter_map(|p: ProcessModel| pending_launch(p))
    }
}

/// The registry of one topology load.
pub struct Loader {
    processes: Vec<ProcessInfo>,
    shared_memory: Vec<MemoryRegionInfo>,
}

impl View for Loader {
    type V = LoaderModel;

    closed spec fn view(&self) -> LoaderModel {
        LoaderModel {
            processes: self.processes@.map_values(|p: ProcessInfo| p@),
            regions: self.shared_memory@.map_values(|r: MemoryRegionInfo| r@),
        }
    }
}

/// In a sequence without repeats, `index_of` finds the one place of an element.
proof fn lemma_index_of_unique(names: Seq<Seq<char>>, i: int)
    requires
        0 <= i < names.len(),
        forall|a: int, b: int|
            0 <= a < names.len() && 0 <= b < names.len() && a != b ==> names[a] != names[b],
    ensures
        names.contains(names[i]),
        names.index_of(names[i]) == i,
{
    assert(names[i] == names[i]);
    let j = names.index_of(names[i]);
    assert(0 <= j < names.len() && names[j] == names[i]);
}

/// Growing or changing processes in place keeps every registered process handle.
proof fn lemma_process_handles_kept(a: LoaderModel, b: LoaderModel)
    requires
        a.processes.len() <= b.processes.len(),
        forall|i: int|
            0 <= i < a.processes.len() ==> (#[trigger] b.processes[i]).handle
                == a.processes[i].handle,
    ensures
        forall|h: ProcessHandle| a.is_process_handle(h) ==> b.is_process_handle(h),
{
    assert forall|h: ProcessHandle| a.is_process_handle(h) implies b.is_process_handle(h) by {
        let i = choose|i: int| 0 <= i < a.processes.len() && a.processes[i].handle == h;
        assert(b.processes[i].handle == h);
    }
}

/// Growing regions keeps every registered region handle.
proof fn lemma_region_handles_kept(a: LoaderModel, b: LoaderModel)
    requires
        a.regions.len() <= b.regions.len(),
        forall|i: int|
            0 <= i < a.regions.len() ==> (#[trigger] b.regions[i]).handle == a.regions[i].handle,
    ensures
        forall|h: SharedMemoryHandle| a.is_region_handle(h) ==> b.is_region_handle(h),
{
    assert forall|h: SharedMemoryHandle| a.is_region_handle(h) implies b.is_region_handle(h) by {
        let i = choose|i: int| 0 <= i < a.regions.len() && a.regions[i].handle == h;
        assert(b.regions[i].handle == h);
    }
}

proof fn lemma_with_process_wf(
    l: LoaderModel,
    name: Seq<char>,
    stack_size: u32,
    handle: ProcessHandle,
    process: Process,
)
    requires
        l.wf(),
        !l.has_process(name),
        l.accepts_process(handle, process),
    ensures
        l.with_process(name, stack_size, handle, process).wf(),
{
    let n = l.with_process(name, stack_size, handle, process);
    let last = l.processes.len() as int;
    lemma_process_handles_kept(l, n);
    assert forall|i: int| 0 <= i < l.processes.len() implies #[trigger] l.processes[i].name != name by {
        assert(l.process_names()[i] == l.processes[i].name);
    }
    assert forall|i: int, j: int|
        #![trigger n.processes[i], n.processes[j]]
        0 <= i < n.processes.len() && 0 <= j < n.processes.len() && i != j implies {
            &&& n.processes[i].name != n.processes[j].name
            &&& n.processes[i].handle != n.processes[j].handle
            &&& n.processes[i].process.shares_no_fd(n.processes[j].process)
        } by {
        if i < last && j < last {
            assert(l.processes[i] == n.processes[i] && l.processes[j] == n.processes[j]);
        } else if i == last {
            assert(l.processes[j] == n.processes[j]);
        } else {
            assert(l.processes[i] == n.processes[i]);
        }
    }
    assert forall|i: int| 0 <= i < n.processes.len() implies {
        let p = #[trigger] n.processes[i];
        &&& p.handle != 0
        &&& p.process.well_formed()
        &&& forall|k: int|
            0 <= k < p.attachments.len() ==> n.is_region_handle(#[trigger] p.attachments[k].0)
        &&& forall|k: int|
            0 <= k < p.channels.len() ==> n.is_process_handle(#[trigger] p.channels[k].target)
    } by {
        if i < last {
            assert(l.processes[i] == n.processes[i]);
            let p = n.processes[i];
            assert forall|k: int| 0 <= k < p.attachments.len() implies n.is_region_handle(
                #[trigger] p.attachments[k].0,
            ) by {
                let h = p.attachments[k].0;
                assert(l.is_region_handle(h));
                let w = choose|w: int| 0 <= w < l.regions.len() && l.regions[w].handle == h;
                assert(n.regions[w].handle == h);
            }
        }
    }
}

proof fn lemma_with_region_wf(l: LoaderModel, name: Seq<char>, handle: SharedMemoryHandle, memory: SharedMemory, size: u64)
    requires
        l.wf(),
        !l.has_region(name),
        l.accepts_region(handle, memory, size),
    ensures
        l.with_region(name, handle, memory).wf(),
{
    let n = l.with_region(name, handle, memory);
    let last = l.regions.len() as int;
    lemma_region_handles_kept(l, n);
    assert forall|i: int| 0 <= i < l.regions.len() implies #[trigger] l.regions[i].name != name by {
        assert(l.region_names()[i] == l.regions[i].name);
    }
    assert forall|i: int, j: int|
        #![trigger n.regions[i], n.regions[j]]
        0 <= i < n.regions.len() && 0 <= j < n.regions.len() && i != j implies {
            &&& n.regions[i].name != n.regions[j].name
            &&& n.regions[i].handle != n.regions[j].handle
        } by {
        if i < last && j < last {
            assert(l.regions[i] == n.regions[i] && l.regions[j] == n.regions[j]);
        } else if i == last {
            assert(l.regions[j] == n.regions[j]);
        } else {
            assert(l.regions[i] == n.regions[i]);
        }
    }
    assert forall|i: int| 0 <= i < n.regions.len() implies {
        let r = #[trigger] n.regions[i];
        &&& r.handle != 0
        &&& r.memory.well_formed(r.memory.size)
    } by {
        if i < last {
            assert(l.regions[i] == n.regions[i]);
        }
    }
    assert forall|i: int| 0 <= i < n.processes.len() implies {
        let p = #[trigger] n.processes[i];
        &&& p.handle != 0
        &&& p.process.well_formed()
        &&& forall|k: int|
            0 <= k < p.attachments.len() ==> n.is_region_handle(#[trigger] p.attachments[k].0)
        &&& forall|k: int|
            0 <= k < p.channels.len() ==> n.is_process_handle(#[trigger] p.channels[k].target)
    } by {
        assert(l.processes[i] == n.processes[i]);
        let p = n.processes[i];
        assert forall|k: int| 0 <= k < p.attachments.len() implies n.is_region_handle(
            #[trigger] p.attachments[k].0,
        ) by {
            assert(l.is_region_handle(p.attachments[k].0));
        }
        assert forall|k: int| 0 <= k < p.channels.len() implies n.is_process_handle(
            #[trigger] p.channels[k].target,
        ) by {
            let t = p.channels[k].target;
            assert(l.is_process_handle(t));
            let w = choose|w: int| 0 <= w < l.processes.len() && l.processes[w].handle == t;
            assert(n.processes[w].handle == t);
        }
    }
}

/// Replacing a process by one with the same name, handle and resources, whose
/// attachments and routes refer to registered objects, keeps the registry well
/// formed and every name where it was.
proof fn lemma_update_wf(l: LoaderModel, i: int, p: ProcessModel)
    requires
        l.wf(),
        0 <= i < l.processes.len(),
        p.name == l.processes[i].name,
        p.handle == l.processes[i].handle,
        p.process == l.processes[i].process,
        forall|k: int| 0 <= k < p.attachments.len() ==> l.is_region_handle(#[trigger] p.attachments[k].0),
        forall|k: int| 0 <= k < p.channels.len() ==> l.is_process_handle(#[trigger] p.channels[k].target),
    ensures
        (LoaderModel { processes: l.processes.update(i, p), regions: l.regions }).wf(),
        (LoaderModel { processes: l.processes.update(i, p), regions: l.regions }).process_names()
            == l.process_names(),
{
    let n = LoaderModel { processes: l.processes.update(i, p), regions: l.regions };
    assert(n.process_names() =~= l.process_names());
    lemma_process_handles_kept(l, n);
    assert forall|a: int, b: int|
        #![trigger n.processes[a], n.processes[b]]
        0 <= a < n.processes.len() && 0 <= b < n.processes.len() && a != b implies {
            &&& n.processes[a].name != n.processes[b].name
            &&& n.processes[a].handle != n.processes[b].handle
            &&& n.processes[a].process.shares_no_fd(n.processes[b].process)
        } by {
        assert(l.processes[a].name == n.processes[a].name);
        assert(l.processes[b].name == n.processes[b].name);
    }
    assert forall|a: int| 0 <= a < n.processes.len() implies {
        let q = #[trigger] n.processes[a];
        &&& q.handle != 0
        &&& q.process.well_formed()
        &&& forall|k: int|
            0 <= k < q.attachments.len() ==> n.is_region_handle(#[trigger] q.attachments[k].0)
        &&& forall|k: int|
            0 <= k < q.channels.len() ==> n.is_process_handle(#[trigger] q.channels[k].target)
    } by {
        let q = n.processes[a];
        assert(l.processes[a].handle == q.handle);
        assert forall|k: int| 0 <= k < q.attachments.len() implies n.is_region_handle(
            #[trigger] q.attachments[k].0,
        ) by {
            if a != i {
                assert(l.processes[a] == q);
            }
            let h = q.attachments[k].0;
            assert(l.is_region_handle(h));
            let w = choose|w: int| 0 <= w < l.regions.len() && l.regions[w].handle == h;
            assert(n.regions[w].handle == h);
        }
        assert forall|k: int| 0 <= k < q.channels.len() implies n.is_process_handle(
            #[trigger] q.channels[k].target,
        ) by {
            if a != i {
                assert(l.processes[a] == q);
            }
            assert(l.is_process_handle(q.channels[k].target));
        }
    }
    assert forall|a: int| 0 <= a < n.regions.len() implies {
        let r = #[trigger] n.regions[a];
        &&& r.handle != 0
        &&& r.memory.well_formed(r.memory.size)
    } by {
        assert(l.regions[a] == n.regions[a]);
    }
}

impl Loader {
    /// An empty registry.
    pub fn new() -> (r: Loader)
        ensures
            r@.processes.len() == 0,
            r@.regions.len() == 0,
            r@.wf(),
    {
        let r = Loader { processes: Vec::new(), shared_memory: Vec::new() };
        assert(r@.processes =~= Seq::empty());
        assert(r@.regions =~= Seq::empty());
        r
    }

    fn find_process(&self, name: &String) -> (r: Option<usize>)
        requires
            self@.wf(),
        ensures
            r matches Some(i) ==> self@.has_process(name@) && i == self@.process_index(name@)
                && i < self@.processes.len(),
            r is None ==> !self@.has_process(name@),
    {
        let ghost names = self@.process_names();
        let mut i: usize = 0;
        while i < self.processes.len()
            invariant
                i <= self.processes@.len(),
                names == self@.process_names(),
                names.len() == self.processes@.len(),
                self@.processes.len() == self.processes@.len(),
                self@.wf(),
                forall|k: int| 0 <= k < i ==> names[k] != name@,
            decreases self.processes@.len() - i,
        {
            assert(names[i as int] == self.processes@[i as int].name@);
            if self.processes[i].name == *name {
                proof {
                    assert forall|a: int, b: int|
                        0 <= a < names.len() && 0 <= b < names.len() && a != b implies names[a]
                        != names[b] by {
                        assert(self@.processes[a].name != self@.processes[b].name);
                    }
                    lemma_index_of_unique(names, i as int);
                }
                return Some(i);
            }
            i = i + 1;
        }
        assert(!names.contains(name@));
        None
    }

    fn find_region(&self, name: &String) -> (r: Option<usize>)
        requires
            self@.wf(),
        ensures
            r matches Some(i) ==> self@.has_region(name@) && i == self@.region_index(name@) && i
                < self@.regions.len(),
            r is None ==> !self@.has_region(name@),
    {
        let ghost names = self@.region_names();
        let mut i: usize = 0;
        while i < self.shared_memory.len()
            invariant
                i <= self.shared_memory@.len(),
                names == self@.region_names(),
                names.len() == self.shared_memory@.len(),
                self@.regions.len() == self.shared_memory@.len(),
                self@.wf(),
                forall|k: int| 0 <= k < i ==> names[k] != name@,
            decreases self.shared_memory@.len() - i,
        {
            assert(names[i as int] == self.shared_memory@[i as int].name@);
            if self.shared_memory[i].name == *name {
                proof {
                    assert forall|a: int, b: int|
                        0 <= a < names.len() && 0 <= b < names.len() && a != b implies names[a]
                        != names[b] by {
                        assert(self@.regions[a].name != self@.regions[b].name);
                    }
                    lemma_index_of_unique(names, i as int);
                }
                return Some(i);
            }
            i = i + 1;
        }
        assert(!names.contains(name@));
        None
    }
    /// Registers the process the provider made for `name`, once the provider's
    /// answer meets [`LoaderModel::accepts_process`].
    pub fn create_process(
        &mut self,
        name: &str,
        stack_size: u32,
        handle: ProcessHandle,
        process: Process,
    ) -> (r: Result<ProcessHandle, LoadError>)
        requires
            old(self)@.wf(),
        ensures
            final(self)@.wf(),
            old(self)@.has_process(name@) ==> (r matches Err(e) && e@ == Fault::DuplicateProcess(
                name@,
            )),
            !old(self)@.has_process(name@) && !old(self)@.accepts_process(handle, process) ==> (
            r matches Err(e) && e@ == Fault::ProviderFailure(name@)),
            !old(self)@.has_process(name@) && old(self)@.accepts_process(handle, process) ==> (r
                == Ok::<ProcessHandle, LoadError>(handle) && final(self)@ == old(self)@.with_process(
                name@,
                stack_size,
                handle,
                process,
            )),
            r is Err ==> final(self)@ == old(self)@,
    {
        let key = name.to_owned();
        if self.find_process(&key).is_some() {
            return Err(LoadError::DuplicateProcess { name: key });
        }
        if handle == 0 || !process.is_well_formed() {
            return Err(LoadError::ProviderFailure { name: key });
        }
        let mut i: usize = 0;
        while i < self.processes.len()
            invariant
                i <= self.processes@.len(),
                self@.processes.len() == self.processes@.len(),
                self@ == old(self)@,
                key@ == name@,
                self@.wf(),
                !self@.has_process(name@),
                handle != 0,
                process.well_formed(),
                forall|k: int|
                    0 <= k < i ==> (#[trigger] self@.processes[k]).handle != handle
                        && process.shares_no_fd(self@.processes[k].process),
            decreases self.processes@.len() - i,
        {
            assert(self@.processes[i as int] == self.processes@[i as int]@);
            if self.processes[i].handle == handle || !process.shares_no_descriptor(
                &self.processes[i].process,
            ) {
                return Err(LoadError::ProviderFailure { name: key });
            }
            i = i + 1;
        }
        let ghost before = self@;
        let info = ProcessInfo {
            name: key,
            handle,
            stack_size,
            process,
            image_path: None,
            shared_memory: Vec::new(),
            channels: Vec::new(),
            launched: false,
        };
        assert(info@.attachments =~= Seq::empty());
        assert(info@.channels =~= Seq::empty());
        self.processes.push(info);
        proof {
            assert(self@.processes =~= before.with_process(name@, stack_size, handle, process).processes);
            assert(self@.regions =~= before.regions);
            lemma_with_process_wf(before, name@, stack_size, handle, process);
        }
        Ok(handle)
    }

    /// Registers the memory block the provider made for region `name` of
    /// `size` bytes, once the provider's answer meets
    /// [`LoaderModel::accepts_region`].
    pub fn create_shared_memory(
        &mut self,
        name: &str,
        size: u64,
        handle: SharedMemoryHandle,
        memory: SharedMemory,
    ) -> (r: Result<SharedMemoryHandle, LoadError>)
        requires
            old(self)@.wf(),
        ensures
            final(self)@.wf(),
            old(self)@.has_region(name@) ==> (r matches Err(e) && e@
                == Fault::DuplicateMemoryRegion(name@)),
            !old(self)@.has_region(name@) && !old(self)@.accepts_region(handle, memory, size) ==> (
            r matches Err(e) && e@ == Fault::ProviderFailure(name@)),
            !old(self)@.has_region(name@) && old(self)@.accepts_region(handle, memory, size) ==> (r
                == Ok::<SharedMemoryHandle, LoadError>(handle) && final(self)@ == old(
                self,
            )@.with_region(name@, handle, memory)),
            r is Err ==> final(self)@ == old(self)@,
    {
        let key = name.to_owned();
        if self.find_region(&key).is_some() {
            return Err(LoadError::DuplicateMemoryRegion { name: key });
        }
        if handle == 0 || memory.shared_buffer == 0 || memory.shared_buffer % PAGE_SIZE != 0
            || memory.size != size {
            return Err(LoadError::ProviderFailure { name: key });
        }
        let mut i: usize = 0;
        while i < self.shared_memory.len()
            invariant
                i <= self.shared_memory@.len(),
                self@.regions.len() == self.shared_memory@.len(),
                self@ == old(self)@,
                key@ == name@,
                self@.wf(),
                !self@.has_region(name@),
                handle != 0,
                memory.well_formed(size),
                forall|k: int| 0 <= k < i ==> (#[trigger] self@.regions[k]).handle != handle,
            decreases self.shared_memory@.len() - i,
        {
            assert(self@.regions[i as int] == self.shared_memory@[i as int]@);
            if self.shared_memory[i].handle == handle {
                return Err(LoadError::ProviderFailure { name: key });
            }
            i = i + 1;
        }
        let ghost before = self@;
        self.shared_memory.push(MemoryRegionInfo { name: key, handle, memory });
        proof {
            assert(self@.regions =~= before.with_region(name@, handle, memory).regions);
            assert(self@.processes =~= before.processes);
            lemma_with_region_wf(before, name@, handle, memory, size);
        }
        Ok(handle)
    }
    /// Pushes region `mr_name` onto the attachment stack of process `pd_name`
    /// under `varname`, and hands back the two handles for the provider's
    /// attach call. An unknown name changes nothing.
    pub fn add_shared_memory(&mut self, pd_name: &str, mr_name: &str, varname: &str) -> (r: Result<
        (ProcessHandle, SharedMemoryHandle),
        LoadError,
    >)
        requires
            old(self)@.wf(),
        ensures
            final(self)@.wf(),
            !old(self)@.has_process(pd_name@) ==> (r matches Err(e) && e@ == Fault::UnknownProcess(
                pd_name@,
            )),
            old(self)@.has_process(pd_name@) && !old(self)@.has_region(mr_name@) ==> (r matches Err(
                e,
            ) && e@ == Fault::UnknownMemoryRegion(mr_name@)),
            old(self)@.has_process(pd_name@) && old(self)@.has_region(mr_name@) ==> (r matches Ok(
                hs,
            ) && Some(hs.0) == old(self)@.process_handle(pd_name@) && Some(hs.1) == old(
                self,
            )@.region_handle(mr_name@) && final(self)@ == old(self)@.attach(
                pd_name@,
                mr_name@,
                varname@,
            )),
            r is Err ==> final(self)@ == old(self)@,
    {
        let pd = pd_name.to_owned();
        let mr = mr_name.to_owned();
        let i = match self.find_process(&pd) {
            Some(i) => i,
            None => {
                return Err(LoadError::UnknownProcess { name: pd });
            },
        };
        let j = match self.find_region(&mr) {
            Some(j) => j,
            None => {
                return Err(LoadError::UnknownMemoryRegion { name: mr });
            },
        };
        let ghost before = self@;
        let shm = self.shared_memory[j].handle;
        let handle = self.processes[i].handle;
        assert(before.regions[j as int].handle == shm);
        assert(before.processes[i as int].handle == handle);
        let ghost old_info = self.processes@[i as int];
        self.processes[i].shared_memory.push(SharedMemoryStackNode { shm, varname: varname.to_owned() });
        proof {
            let p = before.processes[i as int];
            let np = ProcessModel { attachments: p.attachments.push((shm, varname@)), ..p };
            assert(self.processes@[i as int].shared_memory@.map_values(|n: SharedMemoryStackNode| n@)
                =~= old_info.shared_memory@.map_values(|n: SharedMemoryStackNode| n@).push((shm, varname@)));
            assert(self@.processes =~= before.processes.update(i as int, np));
            assert(self@.regions =~= before.regions);
            assert forall|k: int| 0 <= k < np.attachments.len() implies before.is_region_handle(
                #[trigger] np.attachments[k].0,
            ) by {
                if k < p.attachments.len() {
                    assert(np.attachments[k] == p.attachments[k]);
                } else {
                    assert(before.regions[j as int].handle == shm);
                }
            }
            lemma_update_wf(before, i as int, np);
        }
        Ok((handle, shm))
    }

    /// Installs the routing entry `(pd1, id) -> pd2` and hands back both
    /// handles for the provider's channel call. An unknown name changes nothing.
    pub fn create_channel(&mut self, pd1: &str, pd2: &str, id: u64) -> (r: Result<
        (ProcessHandle, ProcessHandle),
        LoadError,
    >)
        requires
            old(self)@.wf(),
        ensures
            final(self)@.wf(),
            !old(self)@.has_process(pd1@) ==> (r matches Err(e) && e@ == Fault::UnknownProcess(
                pd1@,
            )),
            old(self)@.has_process(pd1@) && !old(self)@.has_process(pd2@) ==> (r matches Err(e)
                && e@ == Fault::UnknownProcess(pd2@)),
            old(self)@.has_process(pd1@) && old(self)@.has_process(pd2@) ==> (r matches Ok(hs) && Some(
                hs.0,
            ) == old(self)@.process_handle(pd1@) && Some(hs.1) == old(self)@.process_handle(pd2@)
                && final(self)@ == old(self)@.connect(pd1@, pd2@, id)),
            r is Err ==> final(self)@ == old(self)@,
    {
        let from = pd1.to_owned();
        let to = pd2.to_owned();
        let i = match self.find_process(&from) {
            Some(i) => i,
            None => {
                return Err(LoadError::UnknownProcess { name: from });
            },
        };
        let j = match self.find_process(&to) {
            Some(j) => j,
            None => {
                return Err(LoadError::UnknownProcess { name: to });
            },
        };
        let ghost before = self@;
        let from_handle = self.processes[i].handle;
        let target = self.processes[j].handle;
        assert(before.processes[i as int].handle == from_handle);
        assert(before.processes[j as int].handle == target);
        let ghost old_info = self.processes@[i as int];
        self.processes[i].channels.push(ChannelEntry { id, target });
        proof {
            let p = before.processes[i as int];
            let np = ProcessModel { channels: p.channels.push(ChannelEntry { id, target }), ..p };
            assert(self@.processes =~= before.processes.update(i as int, np));
            assert(self@.regions =~= before.regions);
            assert forall|k: int| 0 <= k < np.channels.len() implies before.is_process_handle(
                #[trigger] np.channels[k].target,
            ) by {
                if k < p.channels.len() {
                    assert(np.channels[k] == p.channels[k]);
                } else {
                    assert(before.processes[j as int].handle == target);
                }
            }
            lemma_update_wf(before, i as int, np);
        }
        Ok((from_handle, target))
    }

    /// Records `image_path` as the program image that process `pd_name` will run.
    pub fn set_process_image(&mut self, pd_name: &str, image_path: String) -> (r: Result<
        (),
        LoadError,
    >)
        requires
            old(self)@.wf(),
        ensures
            final(self)@.wf(),
            !old(self)@.has_process(pd_name@) ==> (r matches Err(e) && e@ == Fault::UnknownProcess(
                pd_name@,
            ) && final(self)@ == old(self)@),
            old(self)@.has_process(pd_name@) ==> (r is Ok && final(self)@ == old(self)@.with_image(
                pd_name@,
                image_path@,
            )),
    {
        let pd = pd_name.to_owned();
        let i = match self.find_process(&pd) {
            Some(i) => i,
            None => {
                return Err(LoadError::UnknownProcess { name: pd });
            },
        };
        let ghost before = self@;
        let ghost path = image_path@;
        self.processes[i].image_path = Some(image_path);
        proof {
            let p = before.processes[i as int];
            let np = ProcessModel { image: Some(path), ..p };
            assert(self@.processes =~= before.processes.update(i as int, np));
            assert(self@.regions =~= before.regions);
            lemma_update_wf(before, i as int, np);
        }
        Ok(())
    }

    /// Marks process `pd_name` launched and hands back what the provider's
    /// launch call needs. A process runs once, and only with an image.
    pub fn run_process(&mut self, pd_name: &str) -> (r: Result<Launch, LoadError>)
        requires
            old(self)@.wf(),
        ensures
            final(self)@.wf(),
            !old(self)@.has_process(pd_name@) ==> (r matches Err(e) && e@ == Fault::UnknownProcess(
                pd_name@,
            )),
            old(self)@.has_process(pd_name@) ==> ({
                let p = old(self)@.processes[old(self)@.process_index(pd_name@)];
                &&& p.image is None ==> (r matches Err(e) && e@ == Fault::NoImage(pd_name@))
                &&& p.image is Some && p.launched ==> (r matches Err(e) && e@
                    == Fault::AlreadyLaunched(pd_name@))
                &&& p.image is Some && !p.launched ==> (r matches Ok(l) && launch_view(l) == (
                    p.handle,
                    p.image->Some_0,
                ) && final(self)@ == old(self)@.with_launched(pd_name@))
            }),
            r is Err ==> final(self)@ == old(self)@,
    {
        let pd = pd_name.to_owned();
        let i = match self.find_process(&pd) {
            Some(i) => i,
            None => {
                return Err(LoadError::UnknownProcess { name: pd });
            },
        };
        let ghost before = self@;
        if self.processes[i].launched {
            if self.processes[i].image_path.is_none() {
                return Err(LoadError::NoImage { process: pd });
            }
            return Err(LoadError::AlreadyLaunched { process: pd });
        }
        let path = match &self.processes[i].image_path {
            Some(p) => p.clone(),
            None => {
                return Err(LoadError::NoImage { process: pd });
            },
        };
        let handle = self.processes[i].handle;
        self.processes[i].launched = true;
        proof {
            let p = before.processes[i as int];
            let np = ProcessModel { launched: true, ..p };
            assert(self@.processes =~= before.processes.update(i as int, np));
            assert(self@.regions =~= before.regions);
            lemma_update_wf(before, i as int, np);
        }
        Ok(Launch { handle, image_path: path })
    }
    /// Marks launched every process that has an image and has not run, and
    /// hands back their launches in registration order.
    pub fn run_all_processes(&mut self) -> (r: Vec<Launch>)
        requires
            old(self)@.wf(),
        ensures
            final(self)@.wf(),
            r@.map_values(|l: Launch| launch_view(l)) == old(self)@.pending_launches(),
            final(self)@ == (LoaderModel {
                processes: old(self)@.processes.map_values(|p: ProcessModel| p.marked_launched()),
                regions: old(self)@.regions,
            }),
    {
        let ghost before = self@;
        let mut launches: Vec<Launch> = Vec::new();
        let mut i: usize = 0;
        assert(before.processes.take(0).filter_map(|p: ProcessModel| pending_launch(p)) =~= Seq::empty());
        while i < self.processes.len()
            invariant
                i <= self.processes@.len(),
                self@.processes.len() == before.processes.len(),
                self@.regions == before.regions,
                self.processes@.len() == before.processes.len(),
                forall|k: int|
                    0 <= k < i ==> #[trigger] self@.processes[k] == before.processes[k].marked_launched(),
                forall|k: int| i <= k < self@.processes.len() ==> #[trigger] self@.processes[k] == before.processes[k],
                launches@.map_values(|l: Launch| launch_view(l)) == before.processes.take(i as int).filter_map(
                    |p: ProcessModel| pending_launch(p),
                ),
            decreases self.processes@.len() - i,
        {
            let ghost p = before.processes[i as int];
            assert(before.processes.take(i + 1).drop_last() =~= before.processes.take(i as int));
            assert(before.processes.take(i + 1).last() == p);
            assert(self@.processes[i as int] == self.processes@[i as int]@);
            let ghost launches_before = launches@;
            if !self.processes[i].launched {
                if let Some(path) = &self.processes[i].image_path {
                    let l = Launch { handle: self.processes[i].handle, image_path: path.clone() };
                    launches.push(l);
                    let ghost cur = self@;
                    self.processes[i].launched = true;
                    assert(self@.processes =~= cur.processes.update(i as int, p.marked_launched()));
                    assert(launches@.map_values(|l: Launch| launch_view(l)) =~= launches_before.map_values(
                        |l: Launch| launch_view(l),
                    ).push((p.handle, p.image->Some_0)));
                }
            }
            assert(self@.processes[i as int] == p.marked_launched());
            i = i + 1;
        }
        assert(before.processes.take(i as int) =~= before.processes);
        assert(self@.processes =~= before.processes.map_values(|p: ProcessModel| p.marked_launched()));
        proof {
            let n = self@;
            lemma_process_handles_kept(before, n);
            lemma_region_handles_kept(before, n);
            assert forall|a: int, b: int|
                #![trigger n.processes[a], n.processes[b]]
                0 <= a < n.processes.len() && 0 <= b < n.processes.len() && a != b implies {
                    &&& n.processes[a].name != n.processes[b].name
                    &&& n.processes[a].handle != n.processes[b].handle
                    &&& n.processes[a].process.shares_no_fd(n.processes[b].process)
                } by {
                assert(before.processes[a].name == n.processes[a].name);
                assert(before.processes[b].name == n.processes[b].name);
            }
            assert forall|a: int| 0 <= a < n.processes.len() implies {
                let q = #[trigger] n.processes[a];
                &&& q.handle != 0
                &&& q.process.well_formed()
                &&& forall|k: int|
                    0 <= k < q.attachments.len() ==> n.is_region_handle(#[trigger] q.attachments[k].0)
                &&& forall|k: int|
                    0 <= k < q.channels.len() ==> n.is_process_handle(#[trigger] q.channels[k].target)
            } by {
                let q = n.processes[a];
                let o = before.processes[a];
                assert(q.attachments == o.attachments && q.channels == o.channels);
                assert forall|k: int| 0 <= k < q.attachments.len() implies n.is_region_handle(
                    #[trigger] q.attachments[k].0,
                ) by {
                    assert(before.is_region_handle(o.attachments[k].0));
                }
                assert forall|k: int| 0 <= k < q.channels.len() implies n.is_process_handle(
                    #[trigger] q.channels[k].target,
                ) by {
                    assert(before.is_process_handle(o.channels[k].target));
                }
            }
            assert forall|a: int| 0 <= a < n.regions.len() implies {
                let r = #[trigger] n.regions[a];
                &&& r.handle != 0
                &&& r.memory.well_formed(r.memory.size)
            } by {
                assert(before.regions[a] == n.regions[a]);
            }
        }
        launches
    }

    /// Where channel `channel_id` of process `from_process` leads: the peer's
    /// handle, or `None` when no such entry was installed.
    pub fn get_channel_target(&self, from_process: &str, channel_id: u64) -> (r: Option<ProcessHandle>)
        requires
            self@.wf(),
        ensures
            r == self@.channel_target(from_process@, channel_id),
    {
        let from = from_process.to_owned();
        let i = match self.find_process(&from) {
            Some(i) => i,
            None => {
                return None;
            },
        };
        let ghost entries = self@.processes[i as int].channels;
        assert(entries == self.processes@[i as int].channels@);
        let mut k: usize = self.processes[i].channels.len();
        assert(entries.take(k as int) =~= entries);
        while k > 0
            invariant
                k <= entries.len(),
                i < self.processes@.len(),
                entries == self.processes@[i as int].channels@,
                self@.has_process(from@),
                i == self@.process_index(from@),
                entries == self@.processes[i as int].channels,
                from@ == from_process@,
                route(entries.take(k as int), channel_id) == route(entries, channel_id),
            decreases k,
        {
            let e = self.processes[i].channels[k - 1];
            assert(entries.take(k as int).last() == e);
            if e.id == channel_id {
                return Some(e.target);
            }
            assert(entries.take(k as int).drop_last() =~= entries.take(k - 1));
            k = k - 1;
        }
        None
    }

    /// The handle registered for process `name`.
    pub fn process_handle(&self, name: &str) -> (r: Option<ProcessHandle>)
        requires
            self@.wf(),
        ensures
            r == self@.process_handle(name@),
    {
        let key = name.to_owned();
        match self.find_process(&key) {
            Some(i) => Some(self.processes[i].handle),
            None => None,
        }
    }

    /// The handle registered for memory region `name`.
    pub fn shared_memory_handle(&self, name: &str) -> (r: Option<SharedMemoryHandle>)
        requires
            self@.wf(),
        ensures
            r == self@.region_handle(name@),
    {
        let key = name.to_owned();
        match self.find_region(&key) {
            Some(i) => Some(self.shared_memory[i].handle),
            None => None,
        }
    }

    /// The memory block registered for region `name`.
    pub fn shared_memory(&self, name: &str) -> (r: Option<SharedMemory>)
        requires
            self@.wf(),
        ensures
            !self@.has_region(name@) ==> r is None,
            self@.has_region(name@) ==> r == Some(self@.regions[self@.region_index(name@)].memory),
    {
        let key = name.to_owned();
        match self.find_region(&key) {
            Some(i) => Some(self.shared_memory[i].memory),
            None => None,
        }
    }

    /// The resources registered for process `name`.
    pub fn process(&self, name: &str) -> (r: Option<Process>)
        requires
            self@.wf(),
        ensures
            !self@.has_process(name@) ==> r is None,
            self@.has_process(name@) ==> r == Some(self@.processes[self@.process_index(name@)].process),
    {
        let key = name.to_owned();
        match self.find_process(&key) {
            Some(i) => Some(self.processes[i].process),
            None => None,
        }
    }

    /// The image path recorded for process `name`.
    pub fn image_path(&self, name: &str) -> (r: Option<String>)
        requires
            self@.wf(),
        ensures
            text_view(r) == self@.image_of(name@),
    {
        let key = name.to_owned();
        match self.find_process(&key) {
            Some(i) => match &self.processes[i].image_path {
                Some(p) => Some(p.clone()),
                None => None,
            },
            None => None,
        }
    }

    /// The attachment stack of process `pd_name`, head (most recent) first.
    pub fn shared_memory_stack(&self, pd_name: &str) -> (r: Option<Vec<SharedMemoryStackNode>>)
        requires
            self@.wf(),
        ensures
            !self@.has_process(pd_name@) ==> r is None,
            self@.has_process(pd_name@) ==> (r matches Some(v) && v@.map_values(
                |n: SharedMemoryStackNode| n@,
            ) == self@.attachment_stack(pd_name@)),
    {
        let key = pd_name.to_owned();
        let i = match self.find_process(&key) {
            Some(i) => i,
            None => {
                return None;
            },
        };
        let ghost nodes = self@.processes[i as int].attachments;
        assert(nodes == self.processes@[i as int].shared_memory@.map_values(|n: SharedMemoryStackNode| n@));
        let len = self.processes[i].shared_memory.len();
        let mut out: Vec<SharedMemoryStackNode> = Vec::new();
        let mut k: usize = 0;
        while k < len
            invariant
                k <= len,
                len == nodes.len(),
                i < self.processes@.len(),
                nodes == self.processes@[i as int].shared_memory@.map_values(|n: SharedMemoryStackNode| n@),
                out@.map_values(|n: SharedMemoryStackNode| n@) =~= nodes.reverse().take(k as int),
            decreases len - k,
        {
            let node = &self.processes[i].shared_memory[len - 1 - k];
            assert(node@ == nodes[len - 1 - k]);
            out.push(SharedMemoryStackNode { shm: node.shm, varname: node.varname.clone() });
            assert(nodes.reverse().take(k + 1) =~= nodes.reverse().take(k as int).push(nodes[len - 1 - k]));
            k = k + 1;
        }
        assert(nodes.reverse().take(len as int) =~= nodes.reverse());
        Some(out)
    }
}


/// In a well-formed registry `index_of` finds each process name where it stands.
proof fn lemma_process_index(l: LoaderModel, i: int)
    requires
        l.wf(),
        0 <= i < l.processes.len(),
    ensures
        l.has_process(l.processes[i].name),
        l.process_index(l.processes[i].name) == i,
{
    let names = l.process_names();
    assert forall|a: int, b: int|
        0 <= a < names.len() && 0 <= b < names.len() && a != b implies names[a] != names[b] by {
        assert(l.processes[a].name != l.processes[b].name);
    }
    lemma_index_of_unique(names, i);
}

/// In a well-formed registry `index_of` finds each region name where it stands.
proof fn lemma_region_index(l: LoaderModel, i: int)
    requires
        l.wf(),
        0 <= i < l.regions.len(),
    ensures
        l.has_region(l.regions[i].name),
        l.region_index(l.regions[i].name) == i,
{
    let names = l.region_names();
    assert forall|a: int, b: int|
        0 <= a < names.len() && 0 <= b < names.len() && a != b implies names[a] != names[b] by {
        assert(l.regions[a].name != l.regions[b].name);
    }
    lemma_index_of_unique(names, i);
}

/// A process that the registry accepts has non-null, 16-byte-aligned stack
/// and signal-handler stack, and five valid, pairwise-distinct descriptors,
/// none of which another registered process holds; it is then found under
/// its name.
pub proof fn lemma_created_process(
    l: LoaderModel,
    name: Seq<char>,
    stack_size: u32,
    handle: ProcessHandle,
    process: Process,
)
    requires
        l.wf(),
        !l.has_process(name),
        l.accepts_process(handle, process),
    ensures
        ({
            let n = l.with_process(name, stack_size, handle, process);
            let p = n.processes[n.process_index(name)].process;
            &&& n.wf()
            &&& n.process_handle(name) == Some(handle)
            &&& p == process
            &&& p.stack_top != 0 && p.stack_top % 16 == 0
            &&& p.sig_handler_stack != 0 && p.sig_handler_stack % 16 == 0
            &&& p.well_formed()
            &&& forall|i: int|
                0 <= i < n.processes.len() && i != n.process_index(name) ==> p.shares_no_fd(
                    #[trigger] n.processes[i].process,
                )
        }),
{
    let n = l.with_process(name, stack_size, handle, process);
    lemma_with_process_wf(l, name, stack_size, handle, process);
    lemma_process_index(n, l.processes.len() as int);
}

/// Every registered process keeps the guarantees it was accepted with.
pub proof fn lemma_registered_process(l: LoaderModel, i: int)
    requires
        l.wf(),
        0 <= i < l.processes.len(),
    ensures
        l.processes[i].process.stack_top != 0,
        l.processes[i].process.stack_top % 16 == 0,
        l.processes[i].process.sig_handler_stack != 0,
        l.processes[i].process.sig_handler_stack % 16 == 0,
        l.processes[i].process.well_formed(),
{
}

/// A memory region that the registry accepts has a non-null, page-aligned
/// buffer whose size is the declared size; it is then found under its name.
pub proof fn lemma_created_region(
    l: LoaderModel,
    name: Seq<char>,
    size: u64,
    handle: SharedMemoryHandle,
    memory: SharedMemory,
)
    requires
        l.wf(),
        !l.has_region(name),
        l.accepts_region(handle, memory, size),
    ensures
        ({
            let n = l.with_region(name, handle, memory);
            let m = n.regions[n.region_index(name)].memory;
            &&& n.wf()
            &&& n.region_handle(name) == Some(handle)
            &&& m.shared_buffer != 0
            &&& m.shared_buffer % 4096 == 0
            &&& m.size == size
        }),
{
    let n = l.with_region(name, handle, memory);
    lemma_with_region_wf(l, name, handle, memory, size);
    lemma_region_index(n, l.regions.len() as int);
}

/// Every registered region keeps a non-null, page-aligned buffer.
pub proof fn lemma_registered_region(l: LoaderModel, i: int)
    requires
        l.wf(),
        0 <= i < l.regions.len(),
    ensures
        l.regions[i].memory.shared_buffer != 0,
        l.regions[i].memory.shared_buffer % 4096 == 0,
{
}

/// Attaching `r1` and then `r2` to a process with no attachments gives a
/// two-node stack: `r2` at the head, `r1` after it, and nothing after that.
pub proof fn lemma_attachment_order(
    l: LoaderModel,
    pd: Seq<char>,
    r1: Seq<char>,
    v1: Seq<char>,
    r2: Seq<char>,
    v2: Seq<char>,
)
    requires
        l.wf(),
        l.has_process(pd),
        l.has_region(r1),
        l.has_region(r2),
        l.attachment_stack(pd).len() == 0,
    ensures
        ({
            let s = l.attach(pd, r1, v1).attach(pd, r2, v2).attachment_stack(pd);
            &&& s.len() == 2
            &&& Some(s[0].0) == l.region_handle(r2) && s[0].1 == v2
            &&& Some(s[1].0) == l.region_handle(r1) && s[1].1 == v1
        }),
{
    let i = l.process_index(pd);
    let l1 = l.attach(pd, r1, v1);
    let l2 = l1.attach(pd, r2, v2);
    assert(l1.process_names() =~= l.process_names());
    assert(l2.process_names() =~= l1.process_names());
    let a = l.processes[i].attachments;
    assert(a.len() == 0);
    let h1 = l.regions[l.region_index(r1)].handle;
    let h2 = l.regions[l.region_index(r2)].handle;
    assert(l2.processes[i].attachments =~= seq![(h1, v1), (h2, v2)]);
    assert(l2.attachment_stack(pd) =~= seq![(h2, v2), (h1, v1)]);
}

/// A channel between `a` (id `id1`) and `b` (id `id2`) installs two
/// independent entries: `(a, id1)` leads to `b`, `(b, id2)` leads to `a`,
/// and `(b, id1)` resolves as before, there being no reverse entry under the
/// other end's id.
pub proof fn lemma_channel_directions(
    l: LoaderModel,
    a: Seq<char>,
    b: Seq<char>,
    id1: u64,
    id2: u64,
)
    requires
        l.wf(),
        l.has_process(a),
        l.has_process(b),
        a != b,
    ensures
        ({
            let n = l.connect(a, b, id1).connect(b, a, id2);
            &&& n.channel_target(a, id1) == l.process_handle(b)
            &&& n.channel_target(b, id2) == l.process_handle(a)
            &&& id1 != id2 ==> n.channel_target(b, id1) == l.channel_target(b, id1)
        }),
{
    let i = l.process_index(a);
    let j = l.process_index(b);
    let l1 = l.connect(a, b, id1);
    let n = l1.connect(b, a, id2);
    assert(l1.process_names() =~= l.process_names());
    assert(n.process_names() =~= l1.process_names());
    assert(l.process_names()[i] == a);
    assert(l.process_names()[j] == b);
    assert(i != j);
    let e1 = ChannelEntry { id: id1, target: l.processes[j].handle };
    let e2 = ChannelEntry { id: id2, target: l.processes[i].handle };
    assert(n.processes[i].channels == l.processes[i].channels.push(e1));
    assert(n.processes[j].channels == l.processes[j].channels.push(e2));
    assert(n.processes[i].channels.drop_last() == l.processes[i].channels);
    assert(n.processes[j].channels.drop_last() == l.processes[j].channels);
}

} // verus!

use loader_api::{Loader, LoadError, Process, SharedMemory};

/* --- HELPERS --- */

/// Resources as a provider hands them out: aligned stacks and five fresh descriptors.
fn resources(first_fd: i32, base: usize) -> Process {
    Process {
        stack_top: base + 0x8000,
        sig_handler_stack: base + 0x10000,
        notification: first_fd,
        send_pipe: [first_fd + 1, first_fd + 2],
        receive_pipe: [first_fd + 3, first_fd + 4],
        ipc_buffer: base + 0x20000,
    }
}

fn block(buffer: usize, size: u64) -> SharedMemory {
    SharedMemory { shared_buffer: buffer, size }
}

/* --- TESTS --- */

#[test]
fn test_process_creation() {
    let mut loader = Loader::new();
    let proc = loader.create_process("test_proc", 0x1000, 0x7000_0000, resources(3, 0x1000_0000)).unwrap();
    assert!(proc != 0);

    let p = loader.process("test_proc").unwrap();
    assert!(p.stack_top != 0, "Stack top should not be null");
    assert!(p.sig_handler_stack != 0, "Signal handler stack should not be null");
    assert!(p.ipc_buffer != 0, "IPC buffer should be mapped");
    assert!(loader.shared_memory_stack("test_proc").unwrap().is_empty(), "Shared memory list should initially be null");
    assert_eq!(loader.get_channel_target("test_proc", 0), None, "Channel map should be allocated");
    assert!(p.notification >= 0, "Notification fd should be valid");

    let send = p.send_pipe;
    let recv = p.receive_pipe;
    assert_ne!(send[0], send[1], "Send pipe ends should differ");
    assert_ne!(recv[0], recv[1], "Receive pipe ends should differ");

    let fds = [send[0], send[1], recv[0], recv[1], p.notification];
    for i in 0..fds.len() {
        for j in (i + 1)..fds.len() {
            assert_ne!(fds[i], fds[j], "Duplicate fds found: {} and {}", fds[i], fds[j]);
        }
    }

    assert_eq!(p.stack_top % 16, 0, "Stack should be 16-byte aligned");
    assert_eq!(p.sig_handler_stack % 16, 0, "Signal stack should be 16-byte aligned");
}

#[test]
fn test_shared_memory_creation() {
    let mut loader = Loader::new();
    loader.create_shared_memory("test_shm", 0x1000, 0x6000_0000, block(0x4000_0000, 0x1000)).unwrap();
    let shm = loader.shared_memory_handle("test_shm").unwrap();
    assert!(shm != 0, "Shared memory handle should not be null");

    let m = loader.shared_memory("test_shm").unwrap();
    assert_eq!(m.size, 0x1000, "Expected shared memory size 0x1000");
    assert!(m.shared_buffer != 0, "Shared buffer pointer should not be null");
    assert_eq!(m.shared_buffer % 4096, 0, "Shared buffer should be page aligned");
}

#[test]
fn test_add_shared_memory() {
    let mut loader = Loader::new();
    let proc = loader.create_process("test_proc", 0x1000, 0x7000_0000, resources(3, 0x1000_0000)).unwrap();
    loader.create_shared_memory("test_shm", 0x2000, 0x6000_0000, block(0x4000_0000, 0x2000)).unwrap();
    let (p, first_shm) = loader.add_shared_memory("test_proc", "test_shm", "var1").unwrap();
    assert_eq!(p, proc);

    let stack = loader.shared_memory_stack("test_proc").unwrap();
    assert!(!stack.is_empty(), "Shared memory stack should not be null");
    assert_eq!(stack[0].varname, "var1", "Varname for first node should not be null");
    assert_eq!(stack.len(), 1, "First node should be the only node initially");

    loader.create_shared_memory("test_shm2", 0x3000, 0x6000_1000, block(0x4001_0000, 0x3000)).unwrap();
    let (_, second_shm) = loader.add_shared_memory("test_proc", "test_shm2", "var2").unwrap();

    let stack = loader.shared_memory_stack("test_proc").unwrap();
    assert_eq!(stack.len(), 2, "New head should differ from previous stack");
    assert_eq!(stack[0].varname, "var2", "Varname for second node should not be null");
    assert_eq!(stack[0].shm, second_shm);
    assert_eq!(stack[1].varname, "var1", "Second node should point to first");
    assert_eq!(stack[1].shm, first_shm, "Original memory block should be unchanged");
    assert_ne!(second_shm, first_shm, "Each stack node should refer to a different memory block");
}

#[test]
fn test_channel_creation() {
    let mut loader = Loader::new();
    loader.create_process("sender", 0x1000, 0x7000_0000, resources(3, 0x1000_0000)).unwrap();
    let right = loader.create_process("receiver", 0x1000, 0x7000_1000, resources(10, 0x2000_0000)).unwrap();

    loader.create_channel("sender", "receiver", 42).unwrap();

    assert_eq!(
        loader.get_channel_target("sender", 42),
        Some(right),
        "Channel 42 should map sender to receiver"
    );

    assert_eq!(
        loader.get_channel_target("receiver", 42),
        None,
        "Channel mapping is unidirectional"
    );
}

#[test]
fn channel_ends_install_independent_entries() {
    let mut loader = Loader::new();
    let left = loader.create_process("left", 0x1000, 0x100, resources(3, 0x1000_0000)).unwrap();
    let right = loader.create_process("right", 0x1000, 0x200, resources(10, 0x2000_0000)).unwrap();
    assert_eq!(loader.create_channel("left", "right", 42).unwrap(), (left, right));
    assert_eq!(loader.create_channel("right", "left", 7).unwrap(), (right, left));
    assert_eq!(loader.get_channel_target("left", 42), Some(right));
    assert_eq!(loader.get_channel_target("right", 7), Some(left));
    assert_eq!(loader.get_channel_target("right", 42), None);
    assert_eq!(loader.get_channel_target("left", 7), None);
    assert_eq!(loader.get_channel_target("nobody", 42), None);
}

#[test]
fn later_channel_entry_wins() {
    let mut loader = Loader::new();
    loader.create_process("a", 0x1000, 0x100, resources(3, 0x1000_0000)).unwrap();
    let b = loader.create_process("b", 0x1000, 0x200, resources(10, 0x2000_0000)).unwrap();
    let c = loader.create_process("c", 0x1000, 0x300, resources(20, 0x3000_0000)).unwrap();
    loader.create_channel("a", "b", 1).unwrap();
    assert_eq!(loader.get_channel_target("a", 1), Some(b));
    loader.create_channel("a", "c", 1).unwrap();
    assert_eq!(loader.get_channel_target("a", 1), Some(c));
}

#[test]
fn channel_to_unknown_process_is_rejected() {
    let mut loader = Loader::new();
    loader.create_process("a", 0x1000, 0x100, resources(3, 0x1000_0000)).unwrap();
    match loader.create_channel("a", "ghost", 1) {
        Err(LoadError::UnknownProcess { name }) => assert_eq!(name, "ghost"),
        other => panic!("unexpected {:?}", other),
    }
    match loader.create_channel("ghost", "a", 1) {
        Err(LoadError::UnknownProcess { name }) => assert_eq!(name, "ghost"),
        other => panic!("unexpected {:?}", other),
    }
    assert_eq!(loader.get_channel_target("a", 1), None);
}

#[test]
fn mapping_an_unknown_region_attaches_nothing() {
    let mut loader = Loader::new();
    loader.create_process("pd", 0x1000, 0x100, resources(3, 0x1000_0000)).unwrap();
    match loader.add_shared_memory("pd", "missing", "v") {
        Err(LoadError::UnknownMemoryRegion { name }) => assert_eq!(name, "missing"),
        other => panic!("unexpected {:?}", other),
    }
    assert!(loader.shared_memory_stack("pd").unwrap().is_empty());
    match loader.add_shared_memory("nobody", "missing", "v") {
        Err(LoadError::UnknownProcess { name }) => assert_eq!(name, "nobody"),
        other => panic!("unexpected {:?}", other),
    }
    assert!(loader.shared_memory_stack("nobody").is_none());
}

#[test]
fn one_region_attached_to_two_processes() {
    let mut loader = Loader::new();
    loader.create_process("a", 0x1000, 0x100, resources(3, 0x1000_0000)).unwrap();
    loader.create_process("b", 0x1000, 0x200, resources(10, 0x2000_0000)).unwrap();
    let h = loader.create_shared_memory("buf", 0x1000, 0x900, block(0x4000_0000, 0x1000)).unwrap();
    loader.add_shared_memory("a", "buf", "in_a").unwrap();
    loader.add_shared_memory("b", "buf", "in_b").unwrap();
    let sa = loader.shared_memory_stack("a").unwrap();
    let sb = loader.shared_memory_stack("b").unwrap();
    assert_eq!((sa[0].shm, sa[0].varname.as_str()), (h, "in_a"));
    assert_eq!((sb[0].shm, sb[0].varname.as_str()), (h, "in_b"));
}

#[test]
fn provider_answers_that_break_guarantees_are_refused() {
    let mut loader = Loader::new();
    // null handle
    assert!(matches!(
        loader.create_process("a", 0x1000, 0, resources(3, 0x1000_0000)),
        Err(LoadError::ProviderFailure { .. })
    ));
    // misaligned stack
    let mut bad = resources(3, 0x1000_0000);
    bad.stack_top += 8;
    assert!(matches!(loader.create_process("a", 0x1000, 0x100, bad), Err(LoadError::ProviderFailure { .. })));
    // repeated descriptor inside one process
    let mut bad = resources(3, 0x1000_0000);
    bad.receive_pipe[1] = bad.send_pipe[0];
    assert!(matches!(loader.create_process("a", 0x1000, 0x100, bad), Err(LoadError::ProviderFailure { .. })));
    // negative descriptor
    let mut bad = resources(3, 0x1000_0000);
    bad.notification = -1;
    assert!(matches!(loader.create_process("a", 0x1000, 0x100, bad), Err(LoadError::ProviderFailure { .. })));

    loader.create_process("a", 0x1000, 0x100, resources(3, 0x1000_0000)).unwrap();
    // a descriptor that another process holds
    assert!(matches!(
        loader.create_process("b", 0x1000, 0x200, resources(7, 0x2000_0000)),
        Err(LoadError::ProviderFailure { .. })
    ));
    // a handle that another process holds
    assert!(matches!(
        loader.create_process("b", 0x1000, 0x100, resources(20, 0x2000_0000)),
        Err(LoadError::ProviderFailure { .. })
    ));
    assert_eq!(loader.process_handle("b"), None);

    // memory: misaligned buffer, wrong size, null handle, reused handle
    assert!(matches!(
        loader.create_shared_memory("m", 0x1000, 0x900, block(0x4000_0010, 0x1000)),
        Err(LoadError::ProviderFailure { .. })
    ));
    assert!(matches!(
        loader.create_shared_memory("m", 0x1000, 0x900, block(0x4000_0000, 0x2000)),
        Err(LoadError::ProviderFailure { .. })
    ));
    assert!(matches!(
        loader.create_shared_memory("m", 0x1000, 0, block(0x4000_0000, 0x1000)),
        Err(LoadError::ProviderFailure { .. })
    ));
    loader.create_shared_memory("m", 0x1000, 0x900, block(0x4000_0000, 0x1000)).unwrap();
    assert!(matches!(
        loader.create_shared_memory("n", 0x1000, 0x900, block(0x4001_0000, 0x1000)),
        Err(LoadError::ProviderFailure { .. })
    ));
    assert_eq!(loader.shared_memory_handle("n"), None);
}

#[test]
fn duplicate_names_are_refused() {
    let mut loader = Loader::new();
    loader.create_process("x", 0x1000, 0x100, resources(3, 0x1000_0000)).unwrap();
    match loader.create_process("x", 0x1000, 0x200, resources(10, 0x2000_0000)) {
        Err(LoadError::DuplicateProcess { name }) => assert_eq!(name, "x"),
        other => panic!("unexpected {:?}", other),
    }
    loader.create_shared_memory("x", 0x1000, 0x900, block(0x4000_0000, 0x1000)).unwrap();
    match loader.create_shared_memory("x", 0x1000, 0xa00, block(0x4001_0000, 0x1000)) {
        Err(LoadError::DuplicateMemoryRegion { name }) => assert_eq!(name, "x"),
        other => panic!("unexpected {:?}", other),
    }
    assert_eq!(loader.process_handle("x"), Some(0x100));
    assert_eq!(loader.shared_memory_handle("x"), Some(0x900));
}

#[test]
fn launches_follow_registration_order_and_skip_imageless() {
    let mut loader = Loader::new();
    let a = loader.create_process("a", 0x1000, 0x100, resources(3, 0x1000_0000)).unwrap();
    loader.create_process("headless", 0x1000, 0x200, resources(10, 0x2000_0000)).unwrap();
    let c = loader.create_process("c", 0x1000, 0x300, resources(20, 0x3000_0000)).unwrap();
    loader.set_process_image("c", "./build/c.so".to_string()).unwrap();
    loader.set_process_image("a", "./build/a.so".to_string()).unwrap();
    assert_eq!(loader.image_path("a"), Some("./build/a.so".to_string()));
    assert_eq!(loader.image_path("headless"), None);
    let launches = loader.run_all_processes();
    let got: Vec<(usize, String)> = launches.into_iter().map(|l| (l.handle, l.image_path)).collect();
    assert_eq!(got, vec![(a, "./build/a.so".to_string()), (c, "./build/c.so".to_string())]);
    // each runs once
    assert!(loader.run_all_processes().is_empty());
    assert!(matches!(loader.run_process("a"), Err(LoadError::AlreadyLaunched { .. })));
}

#[test]
fn run_process_needs_an_image() {
    let mut loader = Loader::new();
    let a = loader.create_process("a", 0x1000, 0x100, resources(3, 0x1000_0000)).unwrap();
    assert!(matches!(loader.run_process("a"), Err(LoadError::NoImage { .. })));
    assert!(matches!(loader.run_process("zz"), Err(LoadError::UnknownProcess { .. })));
    assert!(matches!(
        loader.set_process_image("zz", "p".to_string()),
        Err(LoadError::UnknownProcess { .. })
    ));
    loader.set_process_image("a", "./build/a.so".to_string()).unwrap();
    let l = loader.run_process("a").unwrap();
    assert_eq!((l.handle, l.image_path.as_str()), (a, "./build/a.so"));
    assert!(matches!(loader.run_process("a"), Err(LoadError::AlreadyLaunched { .. })));
}

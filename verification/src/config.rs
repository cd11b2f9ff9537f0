//! How large the kernel's fixed tables are.
use vstd::prelude::*;

verus! {

/// Threads one CPU's scheduler tracks.
pub const MAX_THREADS: usize = 64;

/// CPUs the kernel can run on.
pub const MAX_CPUS: usize = 8;

/// Bytes a message carries inline.
pub const MAX_INLINE_BYTES: usize = 256;

/// Handles a message carries.
pub const MAX_MSG_HANDLES: usize = 4;

/// Channels in the machine.
pub const MAX_CHANNELS: usize = 64;

/// Ports in the machine.
pub const MAX_PORTS: usize = 16;

/// Signal sources one port listens to.
pub const MAX_BINDINGS: usize = 16;

/// Threads parked on a user address at once.
pub const MAX_WAITERS: usize = 64;

/// Device nodes in the resource graph.
pub const MAX_DEVICES: usize = 16;

/// Interrupt routes one device holds at once.
pub const MAX_IRQ_ROUTES: usize = 4;

/// Dependents one device announces its changes to.
pub const MAX_DEPENDENTS: usize = 4;

/// Memory objects in the machine.
pub const MAX_MEMORY_OBJECTS: usize = 64;

/// Pages one memory object may span.
pub const MAX_OBJECT_PAGES: usize = 256;

/// Frame slots shared by every memory object.
pub const MAX_FRAME_SLOTS: usize = 1024;

/// Pages one object cache tracks.
pub const MAX_CACHED_PAGES: usize = 256;

/// Page-in requests in flight at once, and pagers bound at once.
pub const MAX_PAGERS: usize = 8;

/// Freed frames kept for reuse.
pub const MAX_FREE_FRAMES: usize = 512;

/// Frames tracked as shared at once.
pub const MAX_SHARED_FRAMES: usize = 128;

/// Bytes in one physical frame.
pub const FRAME_SIZE: u64 = 4096;

/// Bytes a parent may hand a child it starts.
pub const MAX_STARTUP_MESSAGE: u64 = 4096;

} // verus!

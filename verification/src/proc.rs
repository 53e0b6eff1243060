//! The process table.
use vstd::prelude::*;

verus! {

#[derive(Clone, Copy, PartialEq, Eq, Debug, Structural)]
pub enum ThreadState {
    Ready,
    Running,
    Sleeping,
    Blocked,
    Finished,
}

pub struct Process {
    pub pid: u32,
    pub pml4: u64,
    pub threads: Vec<u32>,
    pub parent: u32,
    pub uid: u32,
    pub cwd: String,
    pub exit_code: Option<i64>,
}

pub struct Thread {
    pub tid: u32,
    pub owner_pid: u32,
    pub rsp: u64,
    pub stack: Option<Vec<u8>>,
    pub tls_base: u64,
    pub state: ThreadState,
}

pub struct ProcessTable {
    pub processes: Vec<Process>,
}

/// Physical address of the page tables a new process starts with.
pub const INITIAL_PML4: u64 = 0x100000;

/// Every process's pid is 100 plus its position in the table.
pub open spec fn pids_sequential(t: &ProcessTable) -> bool {
    forall|i: int| 0 <= i < t.processes@.len() ==> #[trigger] t.processes@[i].pid == i + 100
}

impl ProcessTable {
    pub fn new() -> (r: Self)
        ensures
            r.processes@.len() == 0,
            pids_sequential(&r),
    {
        Self { processes: Vec::new() }
    }

    /// Adds a process and returns its pid, 100 plus its position in the
    /// table.
    pub fn create_process(&mut self, parent: u32, uid: u32, cwd: &str) -> (pid: u32)
        requires
            old(self).processes@.len() + 100 <= u32::MAX,
        ensures
            pid == old(self).processes@.len() + 100,
            final(self).processes@.len() == old(self).processes@.len() + 1,
            forall|i: int| 0 <= i < old(self).processes@.len() ==> final(self).processes@[i] == old(self).processes@[i],
            ({
                let p = final(self).processes@.last();
                &&& p.pid == pid
                &&& p.pml4 == INITIAL_PML4
                &&& p.threads@.len() == 0
                &&& p.parent == parent
                &&& p.uid == uid
                &&& p.cwd@ == cwd@
                &&& p.exit_code is None
            }),
            pids_sequential(&*old(self)) ==> pids_sequential(&*final(self)),
            pids_sequential(&*old(self)) ==> forall|i: int| 0 <= i < old(self).processes@.len() ==> (#[trigger] old(self).processes@[i]).pid != pid,
    {
        let pid: u32 = (self.processes.len() as u32) + 100;
        self.processes.push(
            Process {
                pid,
                pml4: INITIAL_PML4,
                threads: Vec::new(),
                parent,
                uid,
                cwd: crate::text::string_of(cwd),
                exit_code: None,
            },
        );
        pid
    }
}

/// In a table built by `create_process`, no two processes share a pid.
pub proof fn lemma_pids_distinct(t: &ProcessTable, i: int, j: int)
    requires
        pids_sequential(t),
        0 <= i < t.processes@.len(),
        0 <= j < t.processes@.len(),
        i != j,
    ensures
        t.processes@[i].pid != t.processes@[j].pid,
{
}

} // verus!

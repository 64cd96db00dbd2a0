//! The process model: identity, working directory, file descriptors and
//! the parent/child bookkeeping that fork and exit maintain.
//!
//! A process shares its address space with its threads; the space itself
//! lives in the memory model. Parent links are weak (a pid); children
//! are strong (recorded in the parent); a child that exits moves, with
//! its exit code, to the parent's exited list.

use vstd::prelude::*;

use crate::fs::FdTable;

verus! {

/// One process.
pub struct Process {
    pub pid: u64,
    /// The current working directory, as path bytes.
    pub cwd: Vec<u8>,
    /// The descriptor table; forked children share every description.
    pub fd_table: FdTable,
    /// The parent's pid — a weak back edge.
    pub parent: Option<u64>,
    /// Live children, by pid.
    pub children: Vec<u64>,
    /// Exited children with their exit codes, awaiting collection.
    pub children_exited: Vec<(u64, i64)>,
}

impl Process {
    /// The first process: root directory, standard descriptors, no
    /// parent.
    pub fn new_root(pid: u64) -> (r: Process)
        ensures
            r.pid == pid,
            r.cwd@.len() == 1 && r.cwd@[0] == 0x2f,
            r.fd_table.slots@.len() == 2,
            r.parent is None,
            r.children@.len() == 0,
            r.children_exited@.len() == 0,
    {
        let mut cwd: Vec<u8> = Vec::new();
        cwd.push(0x2f);
        Process {
            pid,
            cwd,
            fd_table: FdTable::new(),
            parent: None,
            children: Vec::new(),
            children_exited: Vec::new(),
        }
    }

    /// Fork the bookkeeping half of a process: the child inherits the
    /// working directory and shares every open description (the same ids
    /// stand in both tables); the parent records the child, the child
    /// points weakly back. The memory half is the address space's own
    /// fork.
    pub fn fork(&mut self, child_pid: u64) -> (r: Process)
        ensures
            r.pid == child_pid,
            r.cwd@ == old(self).cwd@,
            r.fd_table.slots@ == old(self).fd_table.slots@,
            r.parent == Some(old(self).pid),
            r.children@.len() == 0,
            r.children_exited@.len() == 0,
            final(self).children@ == old(self).children@.push(child_pid),
            final(self).pid == old(self).pid,
            final(self).cwd@ == old(self).cwd@,
            final(self).fd_table.slots@ == old(self).fd_table.slots@,
            final(self).parent == old(self).parent,
            final(self).children_exited@ == old(self).children_exited@,
    {
        let mut cwd: Vec<u8> = Vec::new();
        let mut i: usize = 0;
        while i < self.cwd.len()
            invariant
                i <= self.cwd.len(),
                cwd@.len() == i,
                forall|j: int| 0 <= j < i ==> cwd@[j] == self.cwd@[j],
            decreases self.cwd.len() - i,
        {
            cwd.push(self.cwd[i]);
            i = i + 1;
        }
        proof {
            assert(cwd@ =~= self.cwd@);
        }
        let fd_table = self.fd_table.duplicate();
        self.children.push(child_pid);
        Process {
            pid: child_pid,
            cwd,
            fd_table,
            parent: Some(self.pid),
            children: Vec::new(),
            children_exited: Vec::new(),
        }
    }

    /// Record a child's exit: the pid leaves the live-children list (its
    /// first occurrence) and joins the exited list with its code.
    pub fn record_child_exit(&mut self, child_pid: u64, code: i64) -> (r: bool)
        ensures
            r <==> old(self).children@.contains(child_pid),
            !r ==> final(self).children@ == old(self).children@ && final(self).children_exited@
                == old(self).children_exited@,
            r ==> exists|k: int|
                #![auto]
                {
                    &&& 0 <= k < old(self).children@.len()
                    &&& old(self).children@[k] == child_pid
                    &&& (forall|j: int| 0 <= j < k ==> old(self).children@[j] != child_pid)
                    &&& final(self).children@ == old(self).children@.remove(k)
                },
            r ==> final(self).children_exited@ == old(self).children_exited@.push(
                (child_pid, code),
            ),
            final(self).pid == old(self).pid,
            final(self).fd_table.slots@ == old(self).fd_table.slots@,
            final(self).cwd@ == old(self).cwd@,
            final(self).parent == old(self).parent,
    {
        let mut k: usize = 0;
        while k < self.children.len()
            invariant
                k <= self.children.len(),
                self.children@ == old(self).children@,
                self.children_exited@ == old(self).children_exited@,
                self.pid == old(self).pid,
                self.fd_table.slots@ == old(self).fd_table.slots@,
                self.cwd@ == old(self).cwd@,
                self.parent == old(self).parent,
                forall|j: int| 0 <= j < k ==> old(self).children@[j] != child_pid,
            decreases self.children.len() - k,
        {
            if self.children[k] == child_pid {
                self.children.remove(k);
                self.children_exited.push((child_pid, code));
                return true;
            }
            k = k + 1;
        }
        proof {
            assert(!old(self).children@.contains(child_pid));
        }
        false
    }
}

} // verus!

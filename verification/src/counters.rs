//! What the archive writer has done.
use vstd::prelude::*;

verus! {

/// Counters of the one archive writer in a process. They wrap around.
#[derive(Clone, Copy, Debug, PartialEq, Eq, Structural)]
pub struct ArchiveCounters {
    pub rows_written: u64,
    pub files_written: u64,
    pub bytes_written: u64,
    pub write_failures: u64,
    pub open_files: u64,
}

impl Default for ArchiveCounters {
    fn default() -> (c: ArchiveCounters)
        ensures
            c.rows_written == 0,
            c.files_written == 0,
            c.bytes_written == 0,
            c.write_failures == 0,
            c.open_files == 0,
    {
        ArchiveCounters {
            rows_written: 0,
            files_written: 0,
            bytes_written: 0,
            write_failures: 0,
            open_files: 0,
        }
    }
}

impl ArchiveCounters {
    /// One finished file reached the store.
    pub fn record_file(&mut self, rows: u64, bytes: u64)
        ensures
            *final(self) == (ArchiveCounters {
                files_written: old(self).files_written.wrapping_add(1),
                rows_written: old(self).rows_written.wrapping_add(rows),
                bytes_written: old(self).bytes_written.wrapping_add(bytes),
                ..*old(self)
            }),
    {
        self.files_written = self.files_written.wrapping_add(1);
        self.rows_written = self.rows_written.wrapping_add(rows);
        self.bytes_written = self.bytes_written.wrapping_add(bytes);
    }

    /// One write could not be completed: an event or a file is gone.
    pub fn record_failure(&mut self)
        ensures
            *final(self) == (ArchiveCounters {
                write_failures: old(self).write_failures.wrapping_add(1),
                ..*old(self)
            }),
    {
        self.write_failures = self.write_failures.wrapping_add(1);
    }

    /// How many files are open: each is data at risk until it is finished.
    pub fn set_open_files(&mut self, n: u64)
        ensures
            *final(self) == (ArchiveCounters { open_files: n, ..*old(self) }),
    {
        self.open_files = n;
    }

    pub fn rows_written(&self) -> (n: u64)
        ensures
            n == self.rows_written,
    {
        self.rows_written
    }

    pub fn files_written(&self) -> (n: u64)
        ensures
            n == self.files_written,
    {
        self.files_written
    }

    pub fn bytes_written(&self) -> (n: u64)
        ensures
            n == self.bytes_written,
    {
        self.bytes_written
    }

    pub fn write_failures(&self) -> (n: u64)
        ensures
            n == self.write_failures,
    {
        self.write_failures
    }

    pub fn open_files(&self) -> (n: u64)
        ensures
            n == self.open_files,
    {
        self.open_files
    }
}

} // verus!

//! Counters of one checking run.
use vstd::prelude::*;

verus! {

/// What a run has seen: files and directories checked, typos found, and
/// target files that could not be read.
pub struct CheckStats {
    pub files_checked: u32,
    pub dirs_checked: u32,
    pub typos_num: u64,
    pub errors: u32,
}

impl CheckStats {
    pub open spec fn is_zero(&self) -> bool {
        self.files_checked == 0 && self.dirs_checked == 0 && self.typos_num == 0 && self.errors == 0
    }

    /// Counts one more file checked, saturating at `u32::MAX`.
    pub fn count_file(&mut self)
        ensures
            final(self).files_checked == old(self).files_checked.saturating_add(1),
            final(self).dirs_checked == old(self).dirs_checked,
            final(self).typos_num == old(self).typos_num,
            final(self).errors == old(self).errors,
    {
        self.files_checked = self.files_checked.saturating_add(1);
    }

    /// Counts one more directory seen, saturating at `u32::MAX`.
    pub fn count_dir(&mut self)
        ensures
            final(self).dirs_checked == old(self).dirs_checked.saturating_add(1),
            final(self).files_checked == old(self).files_checked,
            final(self).typos_num == old(self).typos_num,
            final(self).errors == old(self).errors,
    {
        self.dirs_checked = self.dirs_checked.saturating_add(1);
    }

    /// Counts one more target that could not be read, saturating at `u32::MAX`.
    pub fn count_error(&mut self)
        ensures
            final(self).errors == old(self).errors.saturating_add(1),
            final(self).files_checked == old(self).files_checked,
            final(self).dirs_checked == old(self).dirs_checked,
            final(self).typos_num == old(self).typos_num,
    {
        self.errors = self.errors.saturating_add(1);
    }

    /// All counters at zero.
    pub fn new() -> (r: Self)
        ensures
            r.is_zero(),
    {
        Self { files_checked: 0, dirs_checked: 0, typos_num: 0, errors: 0 }
    }
}

impl Default for CheckStats {
    fn default() -> (r: Self)
        ensures
            r.is_zero(),
    {
        Self::new()
    }
}

} // verus!

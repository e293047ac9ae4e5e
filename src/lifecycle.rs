use vstd::prelude::*;

verus! {

/// Where a volume stands. Only an active volume takes entries; only a
/// finished one has been published under its target path.
#[derive(Clone, Copy, Debug, PartialEq, Eq, Structural)]
pub enum VolumePhase {
    Active,
    Finishing,
    Finished,
    Aborted,
}

/// The code that a failed process is reported with: its exit code, or
/// -1 where it was stopped by a signal.
pub open spec fn exit_code_of(code: Option<i32>) -> i32 {
    match code {
        Some(c) => c,
        None => -1i32,
    }
}

/// The order in which a volume is closed, and the answer to each event
/// of closing it: the archive writer is closed first; then a compression
/// process, if any, is waited for; only then may the file be published.
/// A volume left in any other way is rolled back.
pub struct VolumeLifecycle {
    phase: VolumePhase,
    subprocess: bool,
}

impl VolumeLifecycle {
    pub closed spec fn spec_phase(&self) -> VolumePhase {
        self.phase
    }

    /// Whether a compression process is attached and not yet waited for.
    pub closed spec fn spec_subprocess(&self) -> bool {
        self.subprocess
    }

    /// A volume just opened, with or without a compression process.
    pub fn new(has_subprocess: bool) -> (r: VolumeLifecycle)
        ensures
            r.spec_phase() == VolumePhase::Active,
            r.spec_subprocess() == has_subprocess,
    {
        VolumeLifecycle { phase: VolumePhase::Active, subprocess: has_subprocess }
    }

    pub fn phase(&self) -> (r: VolumePhase)
        ensures
            r == self.spec_phase(),
    {
        self.phase
    }

    /// Whether entries may still be written.
    pub fn is_active(&self) -> (r: bool)
        ensures
            r == (self.spec_phase() == VolumePhase::Active),
    {
        match self.phase {
            VolumePhase::Active => true,
            _ => false,
        }
    }

    /// The archive writer has been closed, its end markers written: the
    /// volume is finishing. Answers whether a compression process must now
    /// be waited for.
    pub fn writer_closed(&mut self) -> (wait: bool)
        requires
            old(self).spec_phase() == VolumePhase::Active,
        ensures
            final(self).spec_phase() == VolumePhase::Finishing,
            final(self).spec_subprocess() == old(self).spec_subprocess(),
            wait == old(self).spec_subprocess(),
    {
        self.phase = VolumePhase::Finishing;
        self.subprocess
    }

    /// The compression process has exited. A failure rolls the volume
    /// back, and gives the exit code, -1 where the process had none.
    pub fn subprocess_exited(&mut self, success: bool, code: Option<i32>) -> (r: Result<(), i32>)
        requires
            old(self).spec_phase() == VolumePhase::Finishing,
            old(self).spec_subprocess(),
        ensures
            !final(self).spec_subprocess(),
            success ==> r is Ok && final(self).spec_phase() == VolumePhase::Finishing,
            !success ==> final(self).spec_phase() == VolumePhase::Aborted && r == Err::<(), i32>(exit_code_of(code)),
    {
        self.subprocess = false;
        if success {
            Ok(())
        } else {
            self.phase = VolumePhase::Aborted;
            match code {
                Some(c) => Err(c),
                None => Err(-1),
            }
        }
    }

    /// Whether the file may now be moved to its target path: the writer is
    /// closed and no compression process is left to wait for.
    pub fn may_publish(&self) -> (r: bool)
        ensures
            r == (self.spec_phase() == VolumePhase::Finishing && !self.spec_subprocess()),
    {
        match self.phase {
            VolumePhase::Finishing => !self.subprocess,
            _ => false,
        }
    }

    /// The file has been moved to its target path.
    pub fn published(&mut self)
        requires
            old(self).spec_phase() == VolumePhase::Finishing,
            !old(self).spec_subprocess(),
        ensures
            final(self).spec_phase() == VolumePhase::Finished,
            !final(self).spec_subprocess(),
    {
        self.phase = VolumePhase::Finished;
    }

    /// The volume is left unfinished: it is rolled back and never
    /// published. Answers whether a compression process is still running
    /// and must be stopped. A finished volume stays as it is.
    pub fn abort(&mut self) -> (kill: bool)
        ensures
            old(self).spec_phase() == VolumePhase::Finished ==> *final(self) == *old(self) && !kill,
            old(self).spec_phase() != VolumePhase::Finished ==> final(self).spec_phase() == VolumePhase::Aborted
                && !final(self).spec_subprocess() && kill == old(self).spec_subprocess(),
    {
        match self.phase {
            VolumePhase::Finished => false,
            _ => {
                let kill = self.subprocess;
                self.phase = VolumePhase::Aborted;
                self.subprocess = false;
                kill
            },
        }
    }
}

} // verus!

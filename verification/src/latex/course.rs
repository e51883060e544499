//! The course of one file: from its source to the translation in its place.

use crate::latex::progress;
use crate::latex::progress::{ChunkRun, FilePlan};
use vstd::prelude::*;

verus! {

/// The steps of a file.
#[derive(Clone, Copy, Debug, PartialEq, Eq, Structural)]
pub enum FileStep {
    /// Make the directory in which translated chunks are saved.
    MakeSaveDir,
    /// Have the chunks translated, and save each of them.
    TranslateChunks,
    /// Put the translation in the place of the source, at once.
    Replace,
    /// Remove the saved chunks.
    RemoveSaveDir,
    /// The translation stands in the place of the source.
    Finished,
    /// There was nothing to translate.
    Skipped,
    /// A step could not be done. The source is as it was, and saved chunks remain.
    Failed,
}

/// What came of a step.
#[derive(Clone, Copy, Debug, PartialEq, Eq, Structural)]
pub enum FileEvent {
    Done,
    Error,
}

/// A file, and the step it has come to.
#[derive(Clone, Copy, Debug, PartialEq, Eq, Structural)]
pub struct FileCourse {
    pub step: FileStep,
}

/// The file is through.
pub open spec fn ended(step: FileStep) -> bool {
    step == FileStep::Finished || step == FileStep::Skipped || step == FileStep::Failed
}

/// The first step of a file.
pub open spec fn first_step(plan: FilePlan) -> FileStep {
    match plan {
        FilePlan::Skip => FileStep::Skipped,
        FilePlan::Translate { label: _ } => FileStep::MakeSaveDir,
    }
}

/// The step behind one of which this came. Saved chunks that cannot be removed do
/// no harm: the translation is in its place.
pub open spec fn next(step: FileStep, event: FileEvent) -> FileStep {
    match (step, event) {
        (FileStep::MakeSaveDir, FileEvent::Done) => FileStep::TranslateChunks,
        (FileStep::TranslateChunks, FileEvent::Done) => FileStep::Replace,
        (FileStep::Replace, FileEvent::Done) => FileStep::RemoveSaveDir,
        (FileStep::RemoveSaveDir, _) => FileStep::Finished,
        (_, FileEvent::Error) => FileStep::Failed,
        (s, FileEvent::Done) => s,
    }
}

/// The translation stands in the place of the source.
pub open spec fn replaced(step: FileStep) -> bool {
    step == FileStep::RemoveSaveDir || step == FileStep::Finished
}

/// How far a file has come.
pub open spec fn rank(step: FileStep) -> int {
    match step {
        FileStep::MakeSaveDir => 0,
        FileStep::TranslateChunks => 1,
        FileStep::Replace => 2,
        FileStep::RemoveSaveDir => 3,
        _ => 4,
    }
}

impl FileCourse {
    /// A file at its start.
    pub fn new(plan: &FilePlan) -> (r: Self)
        ensures
            r.step == first_step(*plan),
    {
        match plan {
            FilePlan::Skip => FileCourse { step: FileStep::Skipped },
            FilePlan::Translate { label: _ } => FileCourse { step: FileStep::MakeSaveDir },
        }
    }

    /// Takes the translated chunks, all of which have to be there, and goes on to
    /// put them in the place of the source.
    pub fn translated(&mut self, run: ChunkRun) -> (r: String)
        requires
            old(self).step == FileStep::TranslateChunks,
            run.wf(),
            run.complete(),
        ensures
            final(self).step == next(old(self).step, FileEvent::Done),
            r@ == progress::joined(run.results@),
    {
        self.step = FileStep::Replace;
        run.into_text()
    }

    /// Takes what came of any other step, or that the chunks could not be
    /// translated, and goes to the next one.
    pub fn advance(&mut self, event: FileEvent)
        requires
            !ended(old(self).step),
            old(self).step == FileStep::TranslateChunks ==> event == FileEvent::Error,
        ensures
            final(self).step == next(old(self).step, event),
    {
        self.step = match (self.step, event) {
            (FileStep::MakeSaveDir, FileEvent::Done) => FileStep::TranslateChunks,
            (FileStep::Replace, FileEvent::Done) => FileStep::RemoveSaveDir,
            (FileStep::RemoveSaveDir, _) => FileStep::Finished,
            (_, _) => FileStep::Failed,
        };
    }
}

/// A file only goes forward, so it ends.
pub proof fn files_end(step: FileStep, event: FileEvent)
    requires
        !ended(step),
    ensures
        rank(step) < rank(next(step, event)) <= 4,
{
}

/// The source is replaced only when all of its chunks are translated: no other
/// step leads there, and a file that fails before has its source as it was.
pub proof fn sources_are_replaced_last(step: FileStep, event: FileEvent)
    requires
        !ended(step),
    ensures
        next(step, event) == FileStep::Replace ==> step == FileStep::TranslateChunks && event
            == FileEvent::Done,
        replaced(next(step, event)) ==> replaced(step) || (step == FileStep::Replace && event
            == FileEvent::Done),
        next(step, event) == FileStep::Failed ==> !replaced(step),
{
}

/// Saved chunks are removed only when the translation is in the place of the
/// source, so a file that fails keeps them.
pub proof fn saved_chunks_outlive_failures(step: FileStep, event: FileEvent)
    requires
        !ended(step),
    ensures
        next(step, event) == FileStep::RemoveSaveDir ==> step == FileStep::Replace && event
            == FileEvent::Done,
        step == FileStep::RemoveSaveDir ==> next(step, event) == FileStep::Finished,
{
}

} // verus!

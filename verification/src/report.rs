//! What a run tells the outside world about its progress.

use crate::paths::PathParts;
use vstd::prelude::*;

verus! {

/// The weight of a log message.
#[derive(Clone, Copy, PartialEq, Eq, Structural, Debug)]
pub enum Level {
    Info,
    Warn,
    Error,
}

/// A report on the progress of a run.
#[derive(Debug)]
pub enum Event {
    Log { level: Level, message: String },
    ChaptersFound { total: usize },
    ChapterDone { index: usize, total: usize, name: String, images: usize },
    Finished { chapters: usize, images: usize, output: PathParts },
}

pub enum EventView {
    Log { level: Level, message: Seq<char> },
    ChaptersFound { total: nat },
    ChapterDone { index: nat, total: nat, name: Seq<char>, images: nat },
    Finished { chapters: nat, images: nat, output: Seq<Seq<char>> },
}

impl View for Event {
    type V = EventView;

    open spec fn view(&self) -> EventView {
        match self {
            Event::Log { level, message } => EventView::Log { level: *level, message: message@ },
            Event::ChaptersFound { total } => EventView::ChaptersFound { total: *total as nat },
            Event::ChapterDone { index, total, name, images } => EventView::ChapterDone {
                index: *index as nat,
                total: *total as nat,
                name: name@,
                images: *images as nat,
            },
            Event::Finished { chapters, images, output } => EventView::Finished {
                chapters: *chapters as nat,
                images: *images as nat,
                output: output@,
            },
        }
    }
}

pub open spec fn events_view(v: Seq<Event>) -> Seq<EventView> {
    v.map_values(|e: Event| e@)
}

/// Where a run sends its reports and learns whether it was cancelled; the
/// program that drives a run implements it.
pub trait Reporter {
    fn report(&self, event: Event);

    /// Whether the run was asked to stop; unless an implementation says
    /// otherwise, it never is.
    fn is_cancelled(&self) -> (r: bool)
        default_ensures
            !r,
    {
        false
    }
}

/// Reports go nowhere and nothing is ever cancelled.
impl Reporter for () {
    fn report(&self, event: Event) {
    }
}

} // verus!

//! The assembly of a book from chapter archives, as a state machine. The
//! machine decides; the program that drives it does the file-system work
//! that each step asks for and answers with what it found.
//!
//! A run checks the source, the cover and the output name, lists the chapter
//! archives in natural order, clears the output folder, puts the cover in as
//! page 1, and then moves the images of each chapter in, numbering the pages
//! on from where the previous chapter stopped.

use crate::archive::{
    archive_filter, find_archives, find_images, image_filter, is_stable_sort_of, paths_view,
};
use crate::error::{Error, ErrorView};
use crate::paths::{
    archive_extensions, display_name, extension, extension_of, has_extension_in, image_extensions,
    is_image, is_zip, join, join_of, parent, parent_of, shown_name,
    single_component, single_component_of, starts_with, starts_with_parts, PathParts,
    is_output_name, output_name_allowed, normalize, normalized,
};
use crate::report::{events_view, Event, EventView, Level};
use crate::text::{decimal, push_char, push_padded_decimal, trim, trimmed, zero_padded};
use vstd::prelude::*;

verus! {

/// A path as the names of its components.
pub type PathView = Seq<Seq<char>>;

/// What to assemble.
#[derive(Debug)]
pub struct Job {
    /// A `.zip` of chapters, or the folder that holds them.
    pub source: String,
    /// Where to put the result; empty or absent means beside the source.
    pub destination: Option<String>,
    /// An optional cover that becomes the first page.
    pub cover: Option<String>,
    pub output_name: String,
}

pub struct JobView {
    pub source: Seq<char>,
    pub destination: Option<Seq<char>>,
    pub cover: Option<Seq<char>>,
    pub output_name: Seq<char>,
}

pub open spec fn string_opt_view(o: Option<String>) -> Option<Seq<char>> {
    match o {
        Some(s) => Some(s@),
        None => None,
    }
}

pub open spec fn path_opt_view(o: Option<PathParts>) -> Option<PathView> {
    match o {
        Some(p) => Some(p@),
        None => None,
    }
}

impl View for Job {
    type V = JobView;

    open spec fn view(&self) -> JobView {
        JobView {
            source: self.source@,
            destination: string_opt_view(self.destination),
            cover: string_opt_view(self.cover),
            output_name: self.output_name@,
        }
    }
}

/// What a finished run produced.
#[derive(Debug)]
pub struct Outcome {
    pub output: PathParts,
    pub chapters: usize,
    pub images: usize,
}

/// One page to move into the output folder.
#[derive(Debug)]
pub struct PageMove {
    pub from: PathParts,
    pub to: PathParts,
}

/// What the driver must do next.
#[derive(Debug)]
pub enum Request {
    /// Make `path` absolute and answer `Reply::Source`.
    InspectSource { path: String },
    /// Make `path` absolute and answer `Reply::Cover`.
    InspectCover { path: String },
    /// Make `path` absolute and answer `Reply::Absolute`.
    Absolutize { path: String },
    /// Create the folder that will hold `output`, and a scratch folder beside
    /// the output for unpacking; answer `Reply::Done`.
    PrepareWorkspace { output: PathParts },
    /// List every file under `root`, at any depth; answer `Reply::Files`.
    ListFiles { root: PathParts },
    /// Unpack `archive` into a fresh scratch folder and list every file
    /// there; answer `Reply::Files`, or `Reply::BrokenArchive` when the
    /// archive cannot be read.
    UnpackSource { archive: PathParts },
    /// Answer `Reply::Exists`: does `output` exist?
    InspectOutput { output: PathParts },
    /// Remove `output` if `clear`, then create it; answer `Reply::Done`.
    CreateOutput { output: PathParts, clear: bool },
    /// Copy the cover `from` to `to`; answer `Reply::Done`.
    CopyCover { from: PathParts, to: PathParts },
    /// Answer `Reply::Cancelled`.
    CheckCancelled,
    /// As `UnpackSource`, for a chapter.
    UnpackChapter { archive: PathParts },
    /// Move each page (a rename, or a copy and a removal across volumes), then
    /// remove the scratch folder of the chapter; answer `Reply::Done`.
    MovePages { moves: Vec<PageMove> },
    /// The run is over and produced this.
    Finish(Outcome),
    /// The run is over and failed.
    Fail(Error),
}

/// What the driver found.
#[derive(Debug)]
pub enum Reply {
    Source { absolute: PathParts, exists: bool, is_dir: bool },
    Cover { absolute: PathParts, is_file: bool },
    Absolute(PathParts),
    Done,
    Files(Vec<PathParts>),
    Exists(bool),
    Cancelled(bool),
    /// The archive could not be read; the text says why.
    BrokenArchive(String),
    /// A file-system operation failed; the text says why.
    Io(String),
}

/// Reports to send, then a request to carry out.
#[derive(Debug)]
pub struct Step {
    pub events: Vec<Event>,
    pub request: Request,
}

/// The chapters being assembled and how many pages are in place.
pub struct Assembly {
    pub chapters: Vec<PathParts>,
    pub output: PathParts,
    pub cover_pages: usize,
    pub pages: usize,
}

/// Where a run stands: each stage awaits the answer to one request.
pub enum Stage {
    Source,
    Cover { source: PathParts, is_dir: bool },
    Destination { source: PathParts, is_dir: bool, cover: Option<PathParts>, name: String },
    Workspace { source: PathParts, is_dir: bool, cover: Option<PathParts>, output: PathParts },
    Chapters { source: PathParts, is_dir: bool, cover: Option<PathParts>, output: PathParts },
    OutputCheck { chapters: Vec<PathParts>, cover: Option<PathParts>, output: PathParts },
    OutputCreate { chapters: Vec<PathParts>, cover: Option<PathParts>, output: PathParts },
    CoverCopy { chapters: Vec<PathParts>, cover_file: PathParts, output: PathParts },
    Cancel { run: Assembly, position: usize },
    Chapter { run: Assembly, position: usize },
    Moves { run: Assembly, position: usize, count: usize },
    Over,
}

/// A run in progress. `numbered` records, in order, the page numbers that
/// the run has handed out so far.
pub struct Pipeline {
    pub job: Job,
    pub stage: Stage,
    pub numbered: Ghost<Seq<nat>>,
}

pub enum RequestView {
    InspectSource { path: Seq<char> },
    InspectCover { path: Seq<char> },
    Absolutize { path: Seq<char> },
    PrepareWorkspace { output: PathView },
    ListFiles { root: PathView },
    UnpackSource { archive: PathView },
    InspectOutput { output: PathView },
    CreateOutput { output: PathView, clear: bool },
    CopyCover { from: PathView, to: PathView },
    CheckCancelled,
    UnpackChapter { archive: PathView },
    MovePages { moves: Seq<(PathView, PathView)> },
    Finish { output: PathView, chapters: nat, images: nat },
    Fail(ErrorView),
}

pub open spec fn moves_view(v: Seq<PageMove>) -> Seq<(PathView, PathView)> {
    v.map_values(|m: PageMove| (m.from@, m.to@))
}

impl View for Request {
    type V = RequestView;

    open spec fn view(&self) -> RequestView {
        match self {
            Request::InspectSource { path } => RequestView::InspectSource { path: path@ },
            Request::InspectCover { path } => RequestView::InspectCover { path: path@ },
            Request::Absolutize { path } => RequestView::Absolutize { path: path@ },
            Request::PrepareWorkspace { output } => RequestView::PrepareWorkspace {
                output: output@,
            },
            Request::ListFiles { root } => RequestView::ListFiles { root: root@ },
            Request::UnpackSource { archive } => RequestView::UnpackSource { archive: archive@ },
            Request::InspectOutput { output } => RequestView::InspectOutput { output: output@ },
            Request::CreateOutput { output, clear } => RequestView::CreateOutput {
                output: output@,
                clear: *clear,
            },
            Request::CopyCover { from, to } => RequestView::CopyCover { from: from@, to: to@ },
            Request::CheckCancelled => RequestView::CheckCancelled,
            Request::UnpackChapter { archive } => RequestView::UnpackChapter {
                archive: archive@,
            },
            Request::MovePages { moves } => RequestView::MovePages { moves: moves_view(moves@) },
            Request::Finish(o) => RequestView::Finish {
                output: o.output@,
                chapters: o.chapters as nat,
                images: o.images as nat,
            },
            Request::Fail(e) => RequestView::Fail(e@),
        }
    }
}

pub enum ReplyView {
    Source { absolute: PathView, exists: bool, is_dir: bool },
    Cover { absolute: PathView, is_file: bool },
    Absolute(PathView),
    Done,
    Files(Seq<PathView>),
    Exists(bool),
    Cancelled(bool),
    BrokenArchive(Seq<char>),
    Io(Seq<char>),
}

impl View for Reply {
    type V = ReplyView;

    open spec fn view(&self) -> ReplyView {
        match self {
            Reply::Source { absolute, exists, is_dir } => ReplyView::Source {
                absolute: absolute@,
                exists: *exists,
                is_dir: *is_dir,
            },
            Reply::Cover { absolute, is_file } => ReplyView::Cover {
                absolute: absolute@,
                is_file: *is_file,
            },
            Reply::Absolute(p) => ReplyView::Absolute(p@),
            Reply::Done => ReplyView::Done,
            Reply::Files(v) => ReplyView::Files(paths_view(v@)),
            Reply::Exists(b) => ReplyView::Exists(*b),
            Reply::Cancelled(b) => ReplyView::Cancelled(*b),
            Reply::BrokenArchive(m) => ReplyView::BrokenArchive(m@),
            Reply::Io(m) => ReplyView::Io(m@),
        }
    }
}

pub struct StepView {
    pub events: Seq<EventView>,
    pub request: RequestView,
}

impl View for Step {
    type V = StepView;

    open spec fn view(&self) -> StepView {
        StepView { events: events_view(self.events@), request: self.request@ }
    }
}

pub struct AssemblyView {
    pub chapters: Seq<PathView>,
    pub output: PathView,
    pub cover_pages: nat,
    pub pages: nat,
}

impl View for Assembly {
    type V = AssemblyView;

    open spec fn view(&self) -> AssemblyView {
        AssemblyView {
            chapters: paths_view(self.chapters@),
            output: self.output@,
            cover_pages: self.cover_pages as nat,
            pages: self.pages as nat,
        }
    }
}

pub enum StageView {
    Source,
    Cover { source: PathView, is_dir: bool },
    Destination { source: PathView, is_dir: bool, cover: Option<PathView>, name: Seq<char> },
    Workspace { source: PathView, is_dir: bool, cover: Option<PathView>, output: PathView },
    Chapters { source: PathView, is_dir: bool, cover: Option<PathView>, output: PathView },
    OutputCheck { chapters: Seq<PathView>, cover: Option<PathView>, output: PathView },
    OutputCreate { chapters: Seq<PathView>, cover: Option<PathView>, output: PathView },
    CoverCopy { chapters: Seq<PathView>, cover_file: PathView, output: PathView },
    Cancel { run: AssemblyView, position: nat },
    Chapter { run: AssemblyView, position: nat },
    Moves { run: AssemblyView, position: nat, count: nat },
    Over,
}

impl View for Stage {
    type V = StageView;

    open spec fn view(&self) -> StageView {
        match self {
            Stage::Source => StageView::Source,
            Stage::Cover { source, is_dir } => StageView::Cover { source: source@, is_dir: *is_dir },
            Stage::Destination { source, is_dir, cover, name } => StageView::Destination {
                source: source@,
                is_dir: *is_dir,
                cover: path_opt_view(*cover),
                name: name@,
            },
            Stage::Workspace { source, is_dir, cover, output } => StageView::Workspace {
                source: source@,
                is_dir: *is_dir,
                cover: path_opt_view(*cover),
                output: output@,
            },
            Stage::Chapters { source, is_dir, cover, output } => StageView::Chapters {
                source: source@,
                is_dir: *is_dir,
                cover: path_opt_view(*cover),
                output: output@,
            },
            Stage::OutputCheck { chapters, cover, output } => StageView::OutputCheck {
                chapters: paths_view(chapters@),
                cover: path_opt_view(*cover),
                output: output@,
            },
            Stage::OutputCreate { chapters, cover, output } => StageView::OutputCreate {
                chapters: paths_view(chapters@),
                cover: path_opt_view(*cover),
                output: output@,
            },
            Stage::CoverCopy { chapters, cover_file, output } => StageView::CoverCopy {
                chapters: paths_view(chapters@),
                cover_file: cover_file@,
                output: output@,
            },
            Stage::Cancel { run, position } => StageView::Cancel {
                run: run@,
                position: *position as nat,
            },
            Stage::Chapter { run, position } => StageView::Chapter {
                run: run@,
                position: *position as nat,
            },
            Stage::Moves { run, position, count } => StageView::Moves {
                run: run@,
                position: *position as nat,
                count: *count as nat,
            },
            Stage::Over => StageView::Over,
        }
    }
}

// ---------------------------------------------------------------------------
// Messages
pub open spec fn info(message: Seq<char>) -> EventView {
    EventView::Log { level: Level::Info, message }
}

pub open spec fn warn(message: Seq<char>) -> EventView {
    EventView::Log { level: Level::Warn, message }
}

pub open spec fn looking_message() -> Seq<char> {
    "Ищу архивы глав…"@
}

pub open spec fn folder_source_message() -> Seq<char> {
    "Источник — папка с архивами глав, распаковка не нужна."@
}

pub open spec fn unpacking_message() -> Seq<char> {
    "Распаковываю главный архив…"@
}

pub open spec fn clearing_message(name: Seq<char>) -> Seq<char> {
    "Папка "@ + name + " уже существует — очищаю."@
}

pub open spec fn cover_message(name: Seq<char>) -> Seq<char> {
    "Обложка "@ + name + " стала первой страницей."@
}

pub open spec fn skipped_message(name: Seq<char>) -> Seq<char> {
    "Пропущена повреждённая глава: "@ + name
}

/// The file name of page `number`: the number padded with zeros to five
/// digits, then the extension of the file it comes from, if it has one.
pub open spec fn page_name(number: nat, ext: Option<Seq<char>>) -> Seq<char> {
    zero_padded(decimal(number), 5) + match ext {
        Some(e) => seq!['.'] + e,
        None => Seq::<char>::empty(),
    }
}

// ---------------------------------------------------------------------------
// The transition relation

/// A cover was given, and it is not empty.
pub open spec fn cover_given(job: JobView) -> bool {
    job.cover is Some && job.cover->0.len() > 0
}

/// A destination was given, and it is not empty.
pub open spec fn destination_given(job: JobView) -> bool {
    job.destination is Some && job.destination->0.len() > 0
}

pub open spec fn ask(events: Seq<EventView>, request: RequestView) -> StepView {
    StepView { events, request }
}

pub open spec fn fail(events: Seq<EventView>, e: ErrorView) -> StepView {
    StepView { events, request: RequestView::Fail(e) }
}

/// The parent of `source`, or `source` itself when it has none.
pub open spec fn beside(source: PathView) -> PathView {
    match parent_of(source) {
        Some(p) => p,
        None => source,
    }
}

/// The output would hold the source: the source starts with the output,
/// as written or as read lexically (`.` dropped, `..` resolved against the
/// name before it). The reading is of the text alone: symbolic links are not
/// followed, so a `..` after a linked folder is read as the folder's parent
/// in the text, not on disk.
pub open spec fn holds_source(source: PathView, output: PathView) -> bool {
    starts_with_parts(source, output) || starts_with_parts(normalized(source), normalized(output))
}

/// The output is settled: it must not be the source or a folder above it.
pub open spec fn output_settled(
    source: PathView,
    is_dir: bool,
    cover: Option<PathView>,
    output: PathView,
    ns: StageView,
    step: StepView,
) -> bool {
    if holds_source(source, output) {
        ns == StageView::Over && step == fail(seq![], ErrorView::InvalidOutputName)
    } else {
        ns == StageView::Workspace { source, is_dir, cover, output } && step == ask(
            seq![],
            RequestView::PrepareWorkspace { output },
        )
    }
}

/// Source and cover are settled, the trimmed output name is acceptable, and
/// `part` is its single component, if it has one.
pub open spec fn name_checked(
    job: JobView,
    source: PathView,
    is_dir: bool,
    cover: Option<PathView>,
    part: Option<Seq<char>>,
    ns: StageView,
    step: StepView,
) -> bool {
    if part is None {
        ns == StageView::Over && step == fail(seq![], ErrorView::InvalidOutputName)
    } else if destination_given(job) {
        ns == StageView::Destination { source, is_dir, cover, name: part->0 } && step == ask(
            seq![],
            RequestView::Absolutize { path: job.destination->0 },
        )
    } else {
        output_settled(source, is_dir, cover, join_of(beside(source), part->0), ns, step)
    }
}

/// Source and cover are settled; the output name is checked next. The name
/// is trimmed; it must be acceptable (not empty, not `..`, without a
/// separator) and one path component.
pub open spec fn cover_settled(
    job: JobView,
    source: PathView,
    is_dir: bool,
    cover: Option<PathView>,
    ns: StageView,
    step: StepView,
) -> bool {
    if !is_output_name(trimmed(job.output_name)) {
        ns == StageView::Over && step == fail(seq![], ErrorView::InvalidOutputName)
    } else {
        exists|part: Option<Seq<char>>|
        #[trigger] single_component_of(trimmed(job.output_name), part) && name_checked(
            job,
            source,
            is_dir,
            cover,
            part,
            ns,
            step,
        )
    }
}

/// The answer about the source has come.
pub open spec fn source_seen(
    job: JobView,
    absolute: PathView,
    exists: bool,
    is_dir: bool,
    ns: StageView,
    step: StepView,
) -> bool {
    if !exists {
        ns == StageView::Over && step == fail(seq![], ErrorView::SourceMissing(absolute))
    } else if !is_dir && !has_extension_in(absolute, archive_extensions()) {
        ns == StageView::Over && step == fail(seq![], ErrorView::UnsupportedSource)
    } else if cover_given(job) {
        ns == StageView::Cover { source: absolute, is_dir } && step == ask(
            seq![],
            RequestView::InspectCover { path: job.cover->0 },
        )
    } else {
        cover_settled(job, absolute, is_dir, None, ns, step)
    }
}

/// The page numbers `first`, `first + 1`, ... `first + count - 1`.
pub open spec fn numbers_from(first: nat, count: nat) -> Seq<nat> {
    Seq::new(count, |i: int| (first + i) as nat)
}

/// The pages already in the output of a run.
pub open spec fn placed(run: AssemblyView) -> nat {
    run.cover_pages + run.pages
}

/// A chapter is done with `images` pages; the next one starts, or the run
/// ends.
pub open spec fn chapter_done(
    run: AssemblyView,
    position: nat,
    images: nat,
    before: Seq<EventView>,
    ns: StageView,
    step: StepView,
) -> bool {
    let total = run.chapters.len();
    let events = before.push(
        EventView::ChapterDone {
            index: position + 1,
            total,
            name: shown_name(run.chapters[position as int]),
            images,
        },
    );
    if position + 1 < total {
        ns == StageView::Cancel { run, position: position + 1 } && step == ask(
            events,
            RequestView::CheckCancelled,
        )
    } else if run.pages == 0 {
        ns == StageView::Over && step == fail(events, ErrorView::NoImages)
    } else {
        ns == StageView::Over && step == ask(
            events.push(
                EventView::Finished { chapters: total, images: placed(run), output: run.output },
            ),
            RequestView::Finish { output: run.output, chapters: total, images: placed(run) },
        )
    }
}

/// The images of a chapter are listed: they are moved in, in natural order,
/// numbered on from the pages already placed.
pub open spec fn pages_planned(
    run: AssemblyView,
    position: nat,
    files: Seq<PathView>,
    numbered: Seq<nat>,
    ns: StageView,
    new_numbered: Seq<nat>,
    step: StepView,
) -> bool {
    match step.request {
        RequestView::MovePages { moves } => {
            &&& step.events == Seq::<EventView>::empty()
            &&& is_stable_sort_of(moves.map_values(|m: (PathView, PathView)| m.0), files.filter(image_filter()))
            &&& forall|k: int|
                0 <= k < moves.len() ==> (#[trigger] moves[k]).1 == run.output.push(
                    page_name((placed(run) + k + 1) as nat, extension_of(moves[k].0)),
                )
            &&& ns == StageView::Moves { run, position, count: moves.len() }
            &&& new_numbered == numbered + numbers_from(placed(run) + 1, moves.len())
        },
        _ => false,
    }
}

/// The chapter archives are listed.
pub open spec fn chapters_listed(
    cover: Option<PathView>,
    output: PathView,
    files: Seq<PathView>,
    ns: StageView,
    step: StepView,
) -> bool {
    if files.filter(archive_filter()).len() == 0 {
        ns == StageView::Over && step == fail(seq![], ErrorView::NoChapters)
    } else {
        match ns {
            StageView::OutputCheck { chapters, cover: c, output: o } => {
                &&& c == cover
                &&& o == output
                &&& is_stable_sort_of(chapters, files.filter(archive_filter()))
                &&& step == ask(
                    seq![EventView::ChaptersFound { total: chapters.len() }],
                    RequestView::InspectOutput { output },
                )
            },
            _ => false,
        }
    }
}

/// A failed file-system operation ends the run.
pub open spec fn io_failed(m: Seq<char>, ns: StageView, step: StepView) -> bool {
    ns == StageView::Over && step == fail(seq![], ErrorView::Io(m))
}

/// The replies that a stage awaits.
pub open spec fn accepts(stage: StageView, reply: ReplyView) -> bool {
    match stage {
        StageView::Source => reply is Source || reply is Io,
        StageView::Cover { .. } => reply is Cover || reply is Io,
        StageView::Destination { .. } => reply is Absolute || reply is Io,
        StageView::Workspace { .. } => reply is Done || reply is Io,
        StageView::Chapters { is_dir, .. } => reply is Files || reply is Io || (!is_dir
            && reply is BrokenArchive),
        StageView::OutputCheck { .. } => reply is Exists,
        StageView::OutputCreate { .. } => reply is Done || reply is Io,
        StageView::CoverCopy { .. } => reply is Done || reply is Io,
        StageView::Cancel { .. } => reply is Cancelled,
        StageView::Chapter { run, .. } => match reply {
            ReplyView::Files(files) => placed(run) + files.len() <= usize::MAX,
            ReplyView::BrokenArchive(_) => true,
            ReplyView::Io(_) => true,
            _ => false,
        },
        StageView::Moves { .. } => reply is Done || reply is Io,
        StageView::Over => false,
    }
}

/// One step of a run: in `stage`, with `numbered` pages handed out, the
/// answer `reply` leads to `ns`, with `new_numbered` handed out, and to
/// `step`.
pub open spec fn transition(
    job: JobView,
    stage: StageView,
    numbered: Seq<nat>,
    reply: ReplyView,
    ns: StageView,
    new_numbered: Seq<nat>,
    step: StepView,
) -> bool {
    match (stage, reply) {
        (StageView::Over, _) => false,
        (_, ReplyView::Io(m)) => io_failed(m, ns, step) && new_numbered == numbered,
        (StageView::Source, ReplyView::Source { absolute, exists, is_dir }) => source_seen(
            job,
            absolute,
            exists,
            is_dir,
            ns,
            step,
        ) && new_numbered == numbered,
        (StageView::Cover { source, is_dir }, ReplyView::Cover { absolute, is_file }) => {
            &&& new_numbered == numbered
            &&& if !is_file {
                ns == StageView::Over && step == fail(seq![], ErrorView::CoverMissing(absolute))
            } else if !has_extension_in(absolute, image_extensions()) {
                ns == StageView::Over && step == fail(seq![], ErrorView::UnsupportedCover)
            } else {
                cover_settled(job, source, is_dir, Some(absolute), ns, step)
            }
        },
        (StageView::Destination { source, is_dir, cover, name }, ReplyView::Absolute(d)) => {
            &&& new_numbered == numbered
            &&& output_settled(source, is_dir, cover, join_of(d, name), ns, step)
        },
        (StageView::Workspace { source, is_dir, cover, output }, ReplyView::Done) => {
            &&& new_numbered == numbered
            &&& ns == StageView::Chapters { source, is_dir, cover, output }
            &&& step == if is_dir {
                ask(
                    seq![info(looking_message()), info(folder_source_message())],
                    RequestView::ListFiles { root: source },
                )
            } else {
                ask(
                    seq![info(looking_message()), info(unpacking_message())],
                    RequestView::UnpackSource { archive: source },
                )
            }
        },
        (StageView::Chapters { cover, output, .. }, ReplyView::Files(files)) => {
            &&& new_numbered == numbered
            &&& chapters_listed(cover, output, files, ns, step)
        },
        (StageView::Chapters { source, .. }, ReplyView::BrokenArchive(m)) => {
            &&& new_numbered == numbered
            &&& ns == StageView::Over
            &&& step == fail(seq![], ErrorView::Archive { path: source, message: m })
        },
        (StageView::OutputCheck { chapters, cover, output }, ReplyView::Exists(existed)) => {
            &&& new_numbered == numbered
            &&& ns == StageView::OutputCreate { chapters, cover, output }
            &&& step == ask(
                if existed {
                    seq![warn(clearing_message(shown_name(output)))]
                } else {
                    Seq::<EventView>::empty()
                },
                RequestView::CreateOutput { output, clear: existed },
            )
        },
        (StageView::OutputCreate { chapters, cover, output }, ReplyView::Done) => match cover {
            Some(c) => {
                &&& new_numbered == numbered.push(1)
                &&& ns == StageView::CoverCopy { chapters, cover_file: c, output }
                &&& step == ask(
                    seq![],
                    RequestView::CopyCover {
                        from: c,
                        to: output.push(page_name(1, extension_of(c))),
                    },
                )
            },
            None => {
                &&& new_numbered == numbered
                &&& ns == StageView::Cancel {
                    run: AssemblyView { chapters, output, cover_pages: 0, pages: 0 },
                    position: 0,
                }
                &&& step == ask(seq![], RequestView::CheckCancelled)
            },
        },
        (StageView::CoverCopy { chapters, cover_file, output }, ReplyView::Done) => {
            &&& new_numbered == numbered
            &&& ns == StageView::Cancel {
                run: AssemblyView { chapters, output, cover_pages: 1, pages: 0 },
                position: 0,
            }
            &&& step == ask(
                seq![info(cover_message(shown_name(cover_file)))],
                RequestView::CheckCancelled,
            )
        },
        (StageView::Cancel { run, position }, ReplyView::Cancelled(cancelled)) => {
            &&& new_numbered == numbered
            &&& if cancelled {
                ns == StageView::Over && step == fail(seq![], ErrorView::Cancelled)
            } else {
                ns == StageView::Chapter { run, position } && step == ask(
                    seq![],
                    RequestView::UnpackChapter { archive: run.chapters[position as int] },
                )
            }
        },
        (StageView::Chapter { run, position }, ReplyView::Files(files)) => pages_planned(
            run,
            position,
            files,
            numbered,
            ns,
            new_numbered,
            step,
        ),
        (StageView::Chapter { run, position }, ReplyView::BrokenArchive(_)) => {
            &&& new_numbered == numbered
            &&& chapter_done(
                run,
                position,
                0,
                seq![warn(skipped_message(shown_name(run.chapters[position as int])))],
                ns,
                step,
            )
        },
        (StageView::Moves { run, position, count }, ReplyView::Done) => {
            &&& new_numbered == numbered
            &&& chapter_done(
                AssemblyView { pages: run.pages + count, ..run },
                position,
                count,
                seq![],
                ns,
                step,
            )
        },
        _ => false,
    }
}

/// `s` is 1, 2, ... `n`.
pub open spec fn counts_to(s: Seq<nat>, n: nat) -> bool {
    s.len() == n && forall|i: int| 0 <= i < s.len() ==> #[trigger] s[i] == i + 1
}

/// The invariant of a run.
pub open spec fn well_formed(stage: StageView, numbered: Seq<nat>) -> bool {
    match stage {
        StageView::OutputCheck { chapters, .. } => chapters.len() > 0 && numbered.len() == 0,
        StageView::OutputCreate { chapters, .. } => chapters.len() > 0 && numbered.len() == 0,
        StageView::CoverCopy { chapters, .. } => chapters.len() > 0 && counts_to(numbered, 1),
        StageView::Cancel { run, position } | StageView::Chapter { run, position } => {
            &&& position < run.chapters.len()
            &&& run.cover_pages <= 1
            &&& placed(run) <= usize::MAX
            &&& counts_to(numbered, placed(run))
        },
        StageView::Moves { run, position, count } => {
            &&& position < run.chapters.len()
            &&& run.cover_pages <= 1
            &&& placed(run) + count <= usize::MAX
            &&& counts_to(numbered, placed(run) + count)
        },
        StageView::Over => true,
        _ => numbered.len() == 0,
    }
}

impl Pipeline {
    pub open spec fn wf(&self) -> bool {
        well_formed(self.stage@, self.numbered@)
    }
}

// ---------------------------------------------------------------------------
// Executable steps

/// The file name of page `number`.
pub fn page_file_name(number: usize, ext: Option<String>) -> (r: String)
    ensures
        r@ == page_name(number as nat, string_opt_view(ext)),
{
    let mut name = String::new();
    push_padded_decimal(&mut name, number, 5);
    if let Some(e) = ext {
        push_char(&mut name, '.');
        name.append(e.as_str());
        proof {
            assert(zero_padded(decimal(number as nat), 5).push('.') + e@ =~= zero_padded(
                decimal(number as nat),
                5,
            ) + (seq!['.'] + e@));
        }
    } else {
        assert(name@ =~= name@ + Seq::<char>::empty());
    }
    name
}

fn log(level: Level, message: String) -> (r: Event)
    ensures
        r@ == (EventView::Log { level, message: message@ }),
{
    Event::Log { level, message }
}

/// `prefix`, then `name`, then `suffix`.
fn message_with(prefix: &str, name: &String, suffix: &str) -> (r: String)
    ensures
        r@ == prefix@ + name@ + suffix@,
{
    let mut m = prefix.to_owned();
    m.append(name.as_str());
    m.append(suffix);
    m
}

fn stop(events: Vec<Event>, e: Error) -> (r: (Stage, Step))
    ensures
        r.0@ == StageView::Over,
        r.1@ == fail(events_view(events@), e@),
{
    (Stage::Over, Step { events, request: Request::Fail(e) })
}

fn no_events() -> (r: Vec<Event>)
    ensures
        events_view(r@) == Seq::<EventView>::empty(),
{
    let v: Vec<Event> = Vec::new();
    assert(events_view(v@) =~= Seq::<EventView>::empty());
    v
}

fn one_event(e: Event) -> (r: Vec<Event>)
    ensures
        events_view(r@) == seq![e@],
{
    let mut v: Vec<Event> = Vec::new();
    v.push(e);
    assert(events_view(v@) =~= seq![e@]);
    v
}

fn push_event(v: &mut Vec<Event>, e: Event)
    ensures
        events_view(final(v)@) == events_view(old(v)@).push(e@),
{
    v.push(e);
    assert(events_view(v@) =~= events_view(old(v)@).push(e@));
}

/// The output is settled.
fn check_output(source: PathParts, is_dir: bool, cover: Option<PathParts>, output: PathParts) -> (r: (Stage, Step))
    ensures
        output_settled(source@, is_dir, path_opt_view(cover), output@, r.0@, r.1@),
{
    if starts_with(&source, &output) || starts_with(&normalize(&source), &normalize(&output)) {
        return stop(no_events(), Error::InvalidOutputName);
    }
    let request = Request::PrepareWorkspace { output: output.duplicate() };
    (Stage::Workspace { source, is_dir, cover, output }, Step { events: no_events(), request })
}

/// Source and cover are settled; checks the output name.
fn resolve_output(job: &Job, source: PathParts, is_dir: bool, cover: Option<PathParts>) -> (r: (Stage, Step))
    ensures
        cover_settled(job@, source@, is_dir, path_opt_view(cover), r.0@, r.1@),
{
    let ghost src = source@;
    let ghost cov = path_opt_view(cover);
    let name = trim(job.output_name.as_str());
    if !output_name_allowed(name.as_str()) {
        return stop(no_events(), Error::InvalidOutputName);
    }
    let part = single_component(name.as_str());
    let ghost part_view = string_opt_view(part);
    assert(single_component_of(name@, part_view));
    let r = match part {
        None => stop(no_events(), Error::InvalidOutputName),
        Some(p) => {
            let mut given = false;
            if let Some(d) = &job.destination {
                given = !d.as_str().is_empty();
            }
            if given {
                let d = job.destination.as_ref().unwrap();
                let request = Request::Absolutize { path: d.clone() };
                (
                    Stage::Destination { source, is_dir, cover, name: p },
                    Step { events: no_events(), request },
                )
            } else {
                let base = match parent(&source) {
                    Some(b) => b,
                    None => source.duplicate(),
                };
                let output = join(&base, &p);
                check_output(source, is_dir, cover, output)
            }
        },
    };
    assert(name_checked(job@, src, is_dir, cov, part_view, r.0@, r.1@));
    assert(single_component_of(trimmed(job@.output_name), part_view));
    r
}

/// The answer about the source has come.
fn resolve_source(job: &Job, absolute: PathParts, exists: bool, is_dir: bool) -> (r: (Stage, Step))
    ensures
        source_seen(job@, absolute@, exists, is_dir, r.0@, r.1@),
{
    if !exists {
        return stop(no_events(), Error::SourceMissing(absolute));
    }
    if !is_dir && !is_zip(&absolute) {
        return stop(no_events(), Error::UnsupportedSource);
    }
    if let Some(c) = &job.cover {
        if !c.as_str().is_empty() {
            let request = Request::InspectCover { path: c.clone() };
            return (Stage::Cover { source: absolute, is_dir }, Step { events: no_events(), request });
        }
    }
    resolve_output(job, absolute, is_dir, None)
}

/// The answer about the cover has come.
fn resolve_cover(job: &Job, source: PathParts, is_dir: bool, absolute: PathParts, is_file: bool) -> (r: (Stage, Step))
    ensures
        if !is_file {
            r.0@ == StageView::Over && r.1@ == fail(seq![], ErrorView::CoverMissing(absolute@))
        } else if !has_extension_in(absolute@, image_extensions()) {
            r.0@ == StageView::Over && r.1@ == fail(seq![], ErrorView::UnsupportedCover)
        } else {
            cover_settled(job@, source@, is_dir, Some(absolute@), r.0@, r.1@)
        },
{
    if !is_file {
        return stop(no_events(), Error::CoverMissing(absolute));
    }
    if !is_image(&absolute) {
        return stop(no_events(), Error::UnsupportedCover);
    }
    resolve_output(job, source, is_dir, Some(absolute))
}

pub proof fn lemma_sorted_len(out: Seq<PathView>, input: Seq<PathView>)
    requires
        is_stable_sort_of(out, input),
    ensures
        out.len() == input.len(),
{
}

/// The chapter archives are listed.
fn collect_chapters(cover: Option<PathParts>, output: PathParts, files: Vec<PathParts>) -> (r: (Stage, Step))
    ensures
        chapters_listed(path_opt_view(cover), output@, paths_view(files@), r.0@, r.1@),
        match r.0@ {
            StageView::OutputCheck { chapters, .. } => chapters.len() > 0,
            StageView::Over => true,
            _ => false,
        },
{
    let ghost listed = paths_view(files@);
    let chapters = find_archives(files);
    proof {
        lemma_sorted_len(paths_view(chapters@), listed.filter(archive_filter()));
    }
    if chapters.len() == 0 {
        return stop(no_events(), Error::NoChapters);
    }
    let events = one_event(Event::ChaptersFound { total: chapters.len() });
    let request = Request::InspectOutput { output: output.duplicate() };
    (Stage::OutputCheck { chapters, cover, output }, Step { events, request })
}

/// A chapter is done with `images` pages.
fn finish_chapter(run: Assembly, position: usize, images: usize, events: Vec<Event>) -> (r: (Stage, Step))
    requires
        position < run.chapters@.len(),
        placed(run@) <= usize::MAX,
    ensures
        chapter_done(run@, position as nat, images as nat, events_view(events@), r.0@, r.1@),
{
    let mut events = events;
    let total = run.chapters.len();
    let name = display_name(&run.chapters[position]);
    push_event(&mut events, Event::ChapterDone { index: position + 1, total, name, images });
    if position + 1 < total {
        return (
            Stage::Cancel { run, position: position + 1 },
            Step { events, request: Request::CheckCancelled },
        );
    }
    if run.pages == 0 {
        return stop(events, Error::NoImages);
    }
    let count = run.cover_pages + run.pages;
    push_event(
        &mut events,
        Event::Finished { chapters: total, images: count, output: run.output.duplicate() },
    );
    let outcome = Outcome { output: run.output, chapters: total, images: count };
    (Stage::Over, Step { events, request: Request::Finish(outcome) })
}

/// The files of a chapter are listed: plans the moves of its images.
fn unpack_chapter(run: Assembly, position: usize, files: Vec<PathParts>, numbered: Ghost<Seq<nat>>) -> (r: (Stage, Step, Ghost<Seq<nat>>))
    requires
        placed(run@) + files@.len() <= usize::MAX,
    ensures
        pages_planned(run@, position as nat, paths_view(files@), numbered@, r.0@, r.2@, r.1@),
{
    let ghost listed = paths_view(files@);
    let images = find_images(files);
    let ghost sorted = paths_view(images@);
    proof {
        lemma_sorted_len(sorted, listed.filter(image_filter()));
        listed.lemma_filter_len(image_filter());
    }
    let first = run.cover_pages + run.pages;
    let n = images.len();
    let mut rest = images;
    let mut moves: Vec<PageMove> = Vec::new();
    let mut k: usize = 0;
    assert(paths_view(rest@) =~= sorted.skip(0));
    while k < n
        invariant
            n == sorted.len(),
            first == placed(run@),
            first + n <= usize::MAX,
            k <= n,
            rest@.len() == n - k,
            paths_view(rest@) == sorted.skip(k as int),
            moves@.len() == k,
            forall|i: int| 0 <= i < k ==> (#[trigger] moves@[i]).from@ == sorted[i],
            forall|i: int|
                0 <= i < k ==> (#[trigger] moves@[i]).to@ == run@.output.push(
                    page_name((first + i + 1) as nat, extension_of(sorted[i])),
                ),
        decreases n - k,
    {
        let ghost before_rest = rest@;
        let from = rest.remove(0);
        proof {
            assert(paths_view(before_rest)[0] == from@);
            assert forall|i: int| 0 <= i < rest@.len() implies paths_view(rest@)[i] == sorted.skip(
                k + 1,
            )[i] by {
                assert(rest@[i] == before_rest[i + 1]);
                assert(paths_view(before_rest)[i + 1] == before_rest[i + 1]@);
            }
            assert(paths_view(rest@) =~= sorted.skip(k + 1));
        }
        let name = page_file_name(first + k + 1, extension(&from));
        let mut to = run.output.duplicate();
        let ghost to_before = to.parts@;
        to.parts.push(name);
        proof {
            assert(to@ =~= run@.output.push(page_name((first + k + 1) as nat, extension_of(sorted[k as int]))));
        }
        moves.push(PageMove { from, to });
        k = k + 1;
    }
    let ghost mv = moves_view(moves@);
    proof {
        assert(mv.map_values(|m: (PathView, PathView)| m.0) =~= sorted);
        assert forall|i: int| 0 <= i < mv.len() implies (#[trigger] mv[i]).1 == run@.output.push(
            page_name((placed(run@) + i + 1) as nat, extension_of(mv[i].0)),
        ) by {
            assert(mv[i] == (moves@[i].from@, moves@[i].to@));
        }
    }
    let ghost new_numbered = numbered@ + numbers_from(placed(run@) + 1, n as nat);
    (
        Stage::Moves { run, position, count: n },
        Step { events: no_events(), request: Request::MovePages { moves } },
        Ghost(new_numbered),
    )
}

/// Takes one step from `stage` on `reply`.
fn advance(job: &Job, stage: Stage, numbered: Ghost<Seq<nat>>, reply: Reply) -> (r: (Stage, Step, Ghost<Seq<nat>>))
    requires
        well_formed(stage@, numbered@),
        accepts(stage@, reply@),
    ensures
        transition(job@, stage@, numbered@, reply@, r.0@, r.2@, r.1@),
        well_formed(r.0@, r.2@),
{
    let ghost st = stage@;
    if let Reply::Io(m) = reply {
        let (s, t) = stop(no_events(), Error::Io(m));
        return (s, t, numbered);
    }
    match stage {
        Stage::Source => match reply {
            Reply::Source { absolute, exists, is_dir } => {
                let (s, t) = resolve_source(job, absolute, exists, is_dir);
                (s, t, numbered)
            },
            _ => {
                assert(false);
                let (s, t) = stop(no_events(), Error::Cancelled);
                (s, t, numbered)
            },
        },
        Stage::Cover { source, is_dir } => match reply {
            Reply::Cover { absolute, is_file } => {
                let (s, t) = resolve_cover(job, source, is_dir, absolute, is_file);
                (s, t, numbered)
            },
            _ => {
                assert(false);
                let (s, t) = stop(no_events(), Error::Cancelled);
                (s, t, numbered)
            },
        },
        Stage::Destination { source, is_dir, cover, name } => match reply {
            Reply::Absolute(d) => {
                let output = join(&d, &name);
                let (s, t) = check_output(source, is_dir, cover, output);
                (s, t, numbered)
            },
            _ => {
                assert(false);
                let (s, t) = stop(no_events(), Error::Cancelled);
                (s, t, numbered)
            },
        },
        Stage::Workspace { source, is_dir, cover, output } => {
            let mut events = one_event(log(Level::Info, "Ищу архивы глав…".to_owned()));
            let request = if is_dir {
                push_event(
                    &mut events,
                    log(Level::Info, "Источник — папка с архивами глав, распаковка не нужна.".to_owned()),
                );
                Request::ListFiles { root: source.duplicate() }
            } else {
                push_event(&mut events, log(Level::Info, "Распаковываю главный архив…".to_owned()));
                Request::UnpackSource { archive: source.duplicate() }
            };
            proof {
                assert(seq![info(looking_message())].push(info(folder_source_message())) =~= seq![
                    info(looking_message()),
                    info(folder_source_message()),
                ]);
                assert(seq![info(looking_message())].push(info(unpacking_message())) =~= seq![
                    info(looking_message()),
                    info(unpacking_message()),
                ]);
            }
            (Stage::Chapters { source, is_dir, cover, output }, Step { events, request }, numbered)
        },
        Stage::Chapters { source, is_dir, cover, output } => match reply {
            Reply::Files(files) => {
                let (s, t) = collect_chapters(cover, output, files);
                (s, t, numbered)
            },
            Reply::BrokenArchive(m) => {
                let (s, t) = stop(no_events(), Error::Archive { path: source, message: m });
                (s, t, numbered)
            },
            _ => {
                assert(false);
                let (s, t) = stop(no_events(), Error::Cancelled);
                (s, t, numbered)
            },
        },
        Stage::OutputCheck { chapters, cover, output } => match reply {
            Reply::Exists(existed) => {
                let events = if existed {
                    let name = display_name(&output);
                    let message = message_with("Папка ", &name, " уже существует — очищаю.");
                    one_event(log(Level::Warn, message))
                } else {
                    no_events()
                };
                let request = Request::CreateOutput { output: output.duplicate(), clear: existed };
                (Stage::OutputCreate { chapters, cover, output }, Step { events, request }, numbered)
            },
            _ => {
                assert(false);
                let (s, t) = stop(no_events(), Error::Cancelled);
                (s, t, numbered)
            },
        },
        Stage::OutputCreate { chapters, cover, output } => match cover {
            Some(c) => {
                let name = page_file_name(1, extension(&c));
                let mut to = output.duplicate();
                to.parts.push(name);
                let request = Request::CopyCover { from: c.duplicate(), to };
                let ghost pushed = numbered@.push(1);
                proof {
                    assert(to@ =~= output@.push(page_name(1, extension_of(c@))));
                    assert(counts_to(pushed, 1));
                }
                (
                    Stage::CoverCopy { chapters, cover_file: c, output },
                    Step { events: no_events(), request },
                    Ghost(pushed),
                )
            },
            None => {
                let run = Assembly { chapters, output, cover_pages: 0, pages: 0 };
                (
                    Stage::Cancel { run, position: 0 },
                    Step { events: no_events(), request: Request::CheckCancelled },
                    numbered,
                )
            },
        },
        Stage::CoverCopy { chapters, cover_file, output } => {
            let name = display_name(&cover_file);
            let message = message_with("Обложка ", &name, " стала первой страницей.");
            let events = one_event(log(Level::Info, message));
            let run = Assembly { chapters, output, cover_pages: 1, pages: 0 };
            (
                Stage::Cancel { run, position: 0 },
                Step { events, request: Request::CheckCancelled },
                numbered,
            )
        },
        Stage::Cancel { run, position } => match reply {
            Reply::Cancelled(cancelled) => {
                if cancelled {
                    let (s, t) = stop(no_events(), Error::Cancelled);
                    (s, t, numbered)
                } else {
                    let archive = run.chapters[position].duplicate();
                    (
                        Stage::Chapter { run, position },
                        Step { events: no_events(), request: Request::UnpackChapter { archive } },
                        numbered,
                    )
                }
            },
            _ => {
                assert(false);
                let (s, t) = stop(no_events(), Error::Cancelled);
                (s, t, numbered)
            },
        },
        Stage::Chapter { run, position } => match reply {
            Reply::Files(files) => {
                let r = unpack_chapter(run, position, files, numbered);
                proof {
                    let n = (r.2@.len() - numbered@.len()) as nat;
                    assert forall|i: int| 0 <= i < r.2@.len() implies #[trigger] r.2@[i] == i + 1 by {
                        if i >= numbered@.len() {
                            assert(r.2@[i] == numbers_from(placed(st->Chapter_run) + 1, n)[i
                                - numbered@.len()]);
                        }
                    }
                }
                r
            },
            Reply::BrokenArchive(_) => {
                let name = display_name(&run.chapters[position]);
                let message = message_with("Пропущена повреждённая глава: ", &name, "");
                proof {
                    reveal_strlit("");
                    assert("Пропущена повреждённая глава: "@ + name@ + ""@ =~= skipped_message(name@));
                }
                let events = one_event(log(Level::Warn, message));
                let (s, t) = finish_chapter(run, position, 0, events);
                (s, t, numbered)
            },
            _ => {
                assert(false);
                let (s, t) = stop(no_events(), Error::Cancelled);
                (s, t, numbered)
            },
        },
        Stage::Moves { run, position, count } => {
            let grown = Assembly {
                chapters: run.chapters,
                output: run.output,
                cover_pages: run.cover_pages,
                pages: run.pages + count,
            };
            proof {
                assert(grown@ == (AssemblyView { pages: (run@.pages + count) as nat, ..run@ }));
            }
            let (s, t) = finish_chapter(grown, position, count, no_events());
            (s, t, numbered)
        },
        Stage::Over => {
            assert(false);
            let (s, t) = stop(no_events(), Error::Cancelled);
            (s, t, numbered)
        },
    }
}

impl Pipeline {
    /// Whether the current stage awaits `reply` (and, for the listing of a
    /// chapter, whether the page numbers would still fit in a `usize`).
    pub fn accepts_reply(&self, reply: &Reply) -> (r: bool)
        ensures
            r == accepts(self.stage@, reply@),
    {
        match (&self.stage, reply) {
            (_, Reply::Io(_)) => !matches!(self.stage, Stage::OutputCheck { .. } | Stage::Cancel { .. } | Stage::Over),
            (Stage::Source, Reply::Source { .. }) => true,
            (Stage::Cover { .. }, Reply::Cover { .. }) => true,
            (Stage::Destination { .. }, Reply::Absolute(_)) => true,
            (Stage::Workspace { .. }, Reply::Done) => true,
            (Stage::Chapters { .. }, Reply::Files(_)) => true,
            (Stage::Chapters { is_dir, .. }, Reply::BrokenArchive(_)) => !*is_dir,
            (Stage::OutputCheck { .. }, Reply::Exists(_)) => true,
            (Stage::OutputCreate { .. }, Reply::Done) => true,
            (Stage::CoverCopy { .. }, Reply::Done) => true,
            (Stage::Cancel { .. }, Reply::Cancelled(_)) => true,
            (Stage::Chapter { run, .. }, Reply::Files(files)) => {
                match run.cover_pages.checked_add(run.pages) {
                    Some(placed) => files.len() <= usize::MAX - placed,
                    None => false,
                }
            },
            (Stage::Chapter { .. }, Reply::BrokenArchive(_)) => true,
            (Stage::Moves { .. }, Reply::Done) => true,
            _ => false,
        }
    }

    /// Takes the step that `reply` (the answer to the last request) leads
    /// to.
    pub fn step(&mut self, reply: Reply) -> (s: Step)
        requires
            old(self).wf(),
            accepts(old(self).stage@, reply@),
        ensures
            final(self).job@ == old(self).job@,
            transition(
                old(self).job@,
                old(self).stage@,
                old(self).numbered@,
                reply@,
                final(self).stage@,
                final(self).numbered@,
                s@,
            ),
            final(self).wf(),
    {
        let mut stage = Stage::Over;
        std::mem::swap(&mut stage, &mut self.stage);
        let (next, s, numbered) = advance(&self.job, stage, self.numbered, reply);
        self.stage = next;
        self.numbered = numbered;
        s
    }
}

/// Starts a run of `job`: the first step asks about the source.
pub fn run(job: Job) -> (r: (Pipeline, Step))
    ensures
        r.0.job@ == job@,
        r.0.stage@ == StageView::Source,
        r.0.numbered@ == Seq::<nat>::empty(),
        r.1@ == ask(seq![], RequestView::InspectSource { path: job.source@ }),
        r.0.wf(),
{
    let request = Request::InspectSource { path: job.source.clone() };
    let pipeline = Pipeline { job, stage: Stage::Source, numbered: Ghost(Seq::empty()) };
    (pipeline, Step { events: no_events(), request })
}

} // verus!

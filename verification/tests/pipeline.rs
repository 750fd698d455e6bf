//! Runs of the assembly, driven against an imagined file system.

use manga_parser_core::error::Error;
use manga_parser_core::paths::PathParts;
use manga_parser_core::pipeline::{run, Job, Outcome, Reply, Request};
use manga_parser_core::report::{Event, Level};
use std::collections::HashMap;

/// `/a/b` as components.
fn abs(path: &str) -> PathParts {
    let mut parts = vec!["/".to_string()];
    parts.extend(path.split('/').filter(|s| !s.is_empty()).map(|s| s.to_string()));
    PathParts { parts }
}

fn show(path: &PathParts) -> String {
    let mut s = String::new();
    for (i, part) in path.parts.iter().enumerate() {
        if i > 1 {
            s.push('/');
        }
        s.push_str(part);
    }
    s
}

#[derive(Default)]
struct World {
    dirs: Vec<String>,
    /// Files and their contents as page names (for archives) or a marker.
    files: Vec<String>,
    /// What each archive holds once unpacked, or `None` when it is broken.
    archives: HashMap<String, Option<Vec<String>>>,
    output_exists: bool,
    cancel: bool,
    /// Creating the output folder fails with this message.
    create_fails: Option<String>,
}

#[derive(Default)]
struct Trace {
    events: Vec<Event>,
    moved: Vec<(String, String)>,
    copied: Vec<(String, String)>,
    cleared: Vec<(String, bool)>,
    requests: usize,
}

impl World {
    fn absolute(&self, path: &str) -> PathParts {
        if path.starts_with('/') {
            abs(path)
        } else {
            abs(&format!("/work/{path}"))
        }
    }

    fn under(&self, root: &str) -> Vec<PathParts> {
        self.files
            .iter()
            .filter(|f| f.starts_with(&format!("{root}/")))
            .map(|f| abs(f))
            .collect()
    }

    fn drive(&self, job: Job) -> (Result<Outcome, Error>, Trace) {
        let mut trace = Trace::default();
        let (mut pipeline, mut step) = run(job);
        let mut scratch = 0;
        loop {
            trace.requests += 1;
            trace.events.extend(step.events);
            let reply = match step.request {
                Request::InspectSource { path } => {
                    let absolute = self.absolute(&path);
                    let shown = show(&absolute);
                    Reply::Source {
                        exists: self.dirs.contains(&shown) || self.files.contains(&shown),
                        is_dir: self.dirs.contains(&shown),
                        absolute,
                    }
                }
                Request::InspectCover { path } => {
                    let absolute = self.absolute(&path);
                    let shown = show(&absolute);
                    Reply::Cover { is_file: self.files.contains(&shown), absolute }
                }
                Request::Absolutize { path } => Reply::Absolute(self.absolute(&path)),
                Request::PrepareWorkspace { .. } => Reply::Done,
                Request::ListFiles { root } => Reply::Files(self.under(&show(&root))),
                Request::UnpackSource { archive } | Request::UnpackChapter { archive } => {
                    match self.archives.get(&show(&archive)) {
                        Some(Some(entries)) => {
                            scratch += 1;
                            Reply::Files(
                                entries
                                    .iter()
                                    .map(|e| abs(&format!("/work/.scratch{scratch}/{e}")))
                                    .collect(),
                            )
                        }
                        _ => Reply::BrokenArchive("invalid Zip archive".to_string()),
                    }
                }
                Request::InspectOutput { .. } => Reply::Exists(self.output_exists),
                Request::CreateOutput { output, clear } => match &self.create_fails {
                    Some(message) => Reply::Io(message.clone()),
                    None => {
                        trace.cleared.push((show(&output), clear));
                        Reply::Done
                    }
                },
                Request::CopyCover { from, to } => {
                    trace.copied.push((show(&from), show(&to)));
                    Reply::Done
                }
                Request::CheckCancelled => Reply::Cancelled(self.cancel),
                Request::MovePages { moves } => {
                    for m in moves {
                        trace.moved.push((show(&m.from), show(&m.to)));
                    }
                    Reply::Done
                }
                Request::Finish(outcome) => return (Ok(outcome), trace),
                Request::Fail(error) => return (Err(error), trace),
            };
            assert!(pipeline.accepts_reply(&reply));
            step = pipeline.step(reply);
        }
    }
}

fn job(source: &str, destination: Option<&str>, cover: Option<&str>, name: &str) -> Job {
    Job {
        source: source.to_string(),
        destination: destination.map(|d| d.to_string()),
        cover: cover.map(|c| c.to_string()),
        output_name: name.to_string(),
    }
}

fn chapters_world() -> World {
    let mut world = World::default();
    world.dirs = vec!["/root".into(), "/root/chapters".into()];
    world.files = vec![
        "/root/chapters/ch_10.zip".into(),
        "/root/chapters/ch_2.zip".into(),
        "/root/chapters/ch_1.zip".into(),
    ];
    world.archives.insert("/root/chapters/ch_10.zip".into(), Some(vec!["1.jpg".into()]));
    world.archives.insert(
        "/root/chapters/ch_2.zip".into(),
        Some(vec!["1.png".into(), "10.png".into(), "2.png".into()]),
    );
    world.archives.insert(
        "/root/chapters/ch_1.zip".into(),
        Some(vec!["cover.jpg".into(), "notes.txt".into()]),
    );
    world
}

fn targets(trace: &Trace) -> Vec<String> {
    let mut all: Vec<String> = trace.copied.iter().map(|(_, to)| to.clone()).collect();
    all.extend(trace.moved.iter().map(|(_, to)| to.clone()));
    all
}

#[test]
fn chapters_are_flattened_into_continuous_page_numbers() {
    let world = chapters_world();
    let (result, trace) = world.drive(job("/root/chapters", None, None, "ready"));
    let outcome = result.unwrap();
    assert_eq!(outcome.chapters, 3);
    assert_eq!(outcome.images, 5);
    assert_eq!(show(&outcome.output), "/root/ready");
    assert_eq!(
        trace.moved,
        [
            ("/work/.scratch1/cover.jpg".to_string(), "/root/ready/00001.jpg".to_string()),
            ("/work/.scratch2/1.png".to_string(), "/root/ready/00002.png".to_string()),
            ("/work/.scratch2/2.png".to_string(), "/root/ready/00003.png".to_string()),
            ("/work/.scratch2/10.png".to_string(), "/root/ready/00004.png".to_string()),
            ("/work/.scratch3/1.jpg".to_string(), "/root/ready/00005.jpg".to_string()),
        ]
    );
    assert!(matches!(trace.events[0], Event::Log { level: Level::Info, .. }));
    assert!(matches!(trace.events[2], Event::ChaptersFound { total: 3 }));
    assert!(matches!(
        trace.events.last().unwrap(),
        Event::Finished { chapters: 3, images: 5, .. }
    ));
    assert_eq!(trace.cleared, [("/root/ready".to_string(), false)]);
}

#[test]
fn nested_archive_is_unpacked_before_chapters() {
    let mut world = World::default();
    world.dirs = vec!["/root".into()];
    world.files = vec!["/root/manga.zip".into()];
    world.archives.insert("/root/manga.zip".into(), Some(vec!["ch_1.zip".into()]));
    world.archives.insert("/work/.scratch1/ch_1.zip".into(), Some(vec!["a.webp".into()]));
    let (result, trace) = world.drive(job("/root/manga.zip", None, None, "ready"));
    let outcome = result.unwrap();
    assert_eq!(targets(&trace), ["/root/ready/00001.webp"]);
    assert_eq!(outcome.images, 1);
    match &trace.events[1] {
        Event::Log { message, .. } => assert_eq!(message, "Распаковываю главный архив…"),
        other => panic!("unexpected {other:?}"),
    }
}

#[test]
fn broken_chapter_is_skipped_not_fatal() {
    let mut world = World::default();
    world.dirs = vec!["/root".into(), "/root/chapters".into()];
    world.files = vec!["/root/chapters/ch_1.zip".into(), "/root/chapters/ch_2.zip".into()];
    world.archives.insert("/root/chapters/ch_1.zip".into(), Some(vec!["a.jpg".into()]));
    world.archives.insert("/root/chapters/ch_2.zip".into(), None);
    let (result, trace) = world.drive(job("/root/chapters", None, None, "ready"));
    let outcome = result.unwrap();
    assert_eq!(outcome.images, 1);
    assert!(trace.events.iter().any(|e| matches!(
        e,
        Event::Log { level: Level::Warn, message } if message == "Пропущена повреждённая глава: ch_2.zip"
    )));
    assert!(trace.events.iter().any(|e| matches!(
        e,
        Event::ChapterDone { index: 2, total: 2, images: 0, .. }
    )));
}

#[test]
fn cover_becomes_the_first_page_and_shifts_the_rest() {
    let mut world = World::default();
    world.dirs = vec!["/root".into(), "/root/chapters".into()];
    world.files = vec!["/root/chapters/ch_1.zip".into(), "/root/cover.png".into()];
    world.archives.insert(
        "/root/chapters/ch_1.zip".into(),
        Some(vec!["a.jpg".into(), "b.jpg".into()]),
    );
    let (result, trace) = world.drive(job("/root/chapters", None, Some("/root/cover.png"), "ready"));
    let outcome = result.unwrap();
    assert_eq!(outcome.images, 3);
    assert_eq!(
        targets(&trace),
        ["/root/ready/00001.png", "/root/ready/00002.jpg", "/root/ready/00003.jpg"]
    );
    assert_eq!(trace.copied[0].0, "/root/cover.png");
    assert!(trace.events.iter().any(|e| matches!(
        e,
        Event::Log { level: Level::Info, message } if message == "Обложка cover.png стала первой страницей."
    )));
}

#[test]
fn cover_must_be_an_existing_image() {
    let mut world = chapters_world();
    world.files.push("/root/notes.txt".into());
    let (result, trace) = world.drive(job("/root/chapters", None, Some("/root/notes.txt"), "ready"));
    assert!(matches!(result.unwrap_err(), Error::UnsupportedCover));
    assert!(trace.cleared.is_empty());
    let (result, trace) = world.drive(job("/root/chapters", None, Some("/root/ghost.png"), "ready"));
    match result.unwrap_err() {
        Error::CoverMissing(p) => assert_eq!(show(&p), "/root/ghost.png"),
        other => panic!("unexpected {other:?}"),
    }
    assert!(trace.cleared.is_empty());
}

#[test]
fn output_folder_cannot_swallow_the_source() {
    let world = chapters_world();
    let (result, trace) = world.drive(job("/root/chapters", Some("/root"), None, "chapters"));
    assert!(matches!(result.unwrap_err(), Error::InvalidOutputName));
    assert!(trace.cleared.is_empty());
    let (result, _) = world.drive(job("/root/chapters", Some("/"), None, "root"));
    assert!(matches!(result.unwrap_err(), Error::InvalidOutputName));
}

#[test]
fn existing_output_is_cleared_before_assembly() {
    let mut world = chapters_world();
    world.output_exists = true;
    let (result, trace) = world.drive(job("/root/chapters", None, None, "ready"));
    result.unwrap();
    assert_eq!(trace.cleared, [("/root/ready".to_string(), true)]);
    assert!(trace.events.iter().any(|e| matches!(
        e,
        Event::Log { level: Level::Warn, message } if message == "Папка ready уже существует — очищаю."
    )));
}

#[test]
fn output_name_is_trimmed_and_must_be_one_component() {
    let world = chapters_world();
    let (result, _) = world.drive(job("/root/chapters", None, None, "  ready \n"));
    assert_eq!(show(&result.unwrap().output), "/root/ready");
    for name in ["", "   ", "a/b"] {
        let (result, _) = world.drive(job("/root/chapters", None, None, name));
        assert!(matches!(result.unwrap_err(), Error::InvalidOutputName), "{name:?}");
    }
}

#[test]
fn destination_and_relative_paths() {
    let mut world = chapters_world();
    world.dirs.push("/work".into());
    world.dirs.push("/work/in".into());
    world.files.push("/work/in/ch_1.zip".into());
    world.archives.insert("/work/in/ch_1.zip".into(), Some(vec!["p.gif".into()]));
    let (result, _) = world.drive(job("in", Some("/books"), None, "done"));
    assert_eq!(show(&result.unwrap().output), "/books/done");
    let (result, _) = world.drive(job("/root/chapters", Some(""), None, "done"));
    assert_eq!(show(&result.unwrap().output), "/root/done");
}

#[test]
fn missing_or_unsupported_source_is_refused() {
    let mut world = chapters_world();
    world.files.push("/root/book.rar".into());
    match world.drive(job("/root/nothing", None, None, "ready")).0.unwrap_err() {
        Error::SourceMissing(p) => assert_eq!(show(&p), "/root/nothing"),
        other => panic!("unexpected {other:?}"),
    }
    assert!(matches!(
        world.drive(job("/root/book.rar", None, None, "ready")).0.unwrap_err(),
        Error::UnsupportedSource
    ));
}

#[test]
fn broken_source_archive_is_fatal() {
    let mut world = World::default();
    world.dirs = vec!["/root".into()];
    world.files = vec!["/root/manga.zip".into()];
    world.archives.insert("/root/manga.zip".into(), None);
    match world.drive(job("/root/manga.zip", None, None, "ready")).0.unwrap_err() {
        Error::Archive { path, message } => {
            assert_eq!(show(&path), "/root/manga.zip");
            assert_eq!(message, "invalid Zip archive");
        }
        other => panic!("unexpected {other:?}"),
    }
}

#[test]
fn no_chapters_no_images_and_cancel() {
    let mut world = World::default();
    world.dirs = vec!["/root".into(), "/root/empty".into()];
    assert!(matches!(
        world.drive(job("/root/empty", None, None, "ready")).0.unwrap_err(),
        Error::NoChapters
    ));

    let mut world = chapters_world();
    world.files.push("/root/cover.jpg".into());
    for value in world.archives.values_mut() {
        *value = Some(vec!["notes.txt".into()]);
    }
    // A cover alone is not a book.
    assert!(matches!(
        world.drive(job("/root/chapters", None, Some("/root/cover.jpg"), "ready")).0.unwrap_err(),
        Error::NoImages
    ));

    let mut world = chapters_world();
    world.cancel = true;
    let (result, trace) = world.drive(job("/root/chapters", None, None, "ready"));
    assert!(matches!(result.unwrap_err(), Error::Cancelled));
    assert!(trace.moved.is_empty());
}

#[test]
fn a_file_system_error_ends_the_run() {
    let mut world = chapters_world();
    world.create_fails = Some("permission denied".to_string());
    let (result, trace) = world.drive(job("/root/chapters", None, None, "ready"));
    match result.unwrap_err() {
        Error::Io(message) => assert_eq!(message, "permission denied"),
        other => panic!("unexpected {other:?}"),
    }
    assert!(trace.moved.is_empty());
}

#[test]
fn names_with_separators_or_dots_and_outputs_above_the_source_are_refused() {
    let world = chapters_world();
    for name in ["ready/", "/abs", "a\\b", ".", "..", " .. "] {
        let (result, _) = world.drive(job("/root/chapters", None, None, name));
        assert!(matches!(result.unwrap_err(), Error::InvalidOutputName), "{name:?}");
    }
    let (result, _) =
        world.drive(job("/root/chapters", Some("/root/chapters/.."), None, "chapters"));
    assert!(matches!(result.unwrap_err(), Error::InvalidOutputName));
    let (result, _) = world.drive(job("/root/chapters", Some("/root/x/.."), None, "done"));
    assert_eq!(show(&result.unwrap().output), "/root/x/../done");
}

#[test]
fn names_with_a_colon_and_the_current_folder() {
    let world = chapters_world();
    let (result, _) = world.drive(job("/root/chapters", None, None, " Re:Zero "));
    assert_eq!(show(&result.unwrap().output), "/root/Re:Zero");
    let (result, _) = world.drive(job("/root/chapters", Some("/books"), None, "."));
    assert_eq!(show(&result.unwrap().output), "/books");
    let (result, _) = world.drive(job("/root/chapters", Some("/books/sub"), None, ".."));
    assert_eq!(show(&result.unwrap().output), "/books/sub/..");
    let (result, _) = world.drive(job("/root/chapters", None, None, "A:B"));
    assert_eq!(show(&result.unwrap().output), "/root/A:B");
}

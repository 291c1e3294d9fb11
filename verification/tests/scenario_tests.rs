use std::collections::HashMap;

use resub::engine::{FileDecision, ReadOutcome, Rule};
use resub::filter::FilterSpec;
use resub::walker::{EntryKind, FsEntry, Step, Walker};

/// The whole run over an in-memory tree: root `src` holds `a.swift`,
/// the excluded directory `private` (with `b.swift` inside), and
/// `notes.md` with the wrong extension. Only `a.swift` is selected and
/// rewritten; the other two files are never touched, and the excluded
/// directory is never enumerated.
#[test]
fn end_to_end_walk_and_substitute() {
    let mut contents: HashMap<String, String> = HashMap::new();
    contents.insert("src/a.swift".to_string(), "Constants.c1.rawValue".to_string());
    contents.insert("src/private/b.swift".to_string(), "Constants.c2.rawValue".to_string());
    contents.insert("src/notes.md".to_string(), "Constants.c3.rawValue".to_string());

    let filter = FilterSpec {
        included_extensions: vec!["swift".to_string()],
        excluded_names: vec!["private".to_string()],
    };
    let mut walker = Walker::new("src".to_string());
    let mut enumerated = Vec::new();
    loop {
        match walker.step() {
            Step::Done => break,
            Step::Progress => {}
            Step::NeedDir(dir) => {
                enumerated.push(dir.clone());
                let children = if dir == "src" {
                    vec![
                        FsEntry {
                            path: "src/a.swift".to_string(),
                            name: "a.swift".to_string(),
                            kind: EntryKind::File,
                        },
                        FsEntry {
                            path: "src/private".to_string(),
                            name: "private".to_string(),
                            kind: EntryKind::Directory,
                        },
                        FsEntry {
                            path: "src/notes.md".to_string(),
                            name: "notes.md".to_string(),
                            kind: EntryKind::File,
                        },
                    ]
                } else if dir == "src/private" {
                    vec![FsEntry {
                        path: "src/private/b.swift".to_string(),
                        name: "b.swift".to_string(),
                        kind: EntryKind::File,
                    }]
                } else {
                    Vec::new()
                };
                walker.on_entries(children, &filter);
            }
        }
    }
    let paths = walker.into_paths();
    assert_eq!(paths, vec!["src/a.swift".to_string()]);
    assert_eq!(enumerated, vec!["src".to_string()]);

    let rule = Rule::new(
        r"Constants\.c(\d+)\.rawValue".to_string(),
        "Constants.c$1".to_string(),
    )
    .unwrap();
    for path in &paths {
        let outcome = ReadOutcome::Content(contents[path].clone());
        match rule.process_one(outcome) {
            FileDecision::Write(out) => {
                contents.insert(path.clone(), out);
            }
            FileDecision::Unchanged => {}
            FileDecision::ReadFailed => panic!("no read failure in this scenario"),
        }
    }
    assert_eq!(contents["src/a.swift"], "Constants.c1");
    assert_eq!(contents["src/private/b.swift"], "Constants.c2.rawValue");
    assert_eq!(contents["src/notes.md"], "Constants.c3.rawValue");
}

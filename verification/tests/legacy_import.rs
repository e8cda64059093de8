use cora::export::choose_export_root;
use cora::legacy::{doc_name_of, plan_dropped, plan_legacy, DropStep, Dropped, FoundDir, ImportFile};
use cora::store::StoreError;

fn dir(name: &str, files: &[&str]) -> FoundDir {
    FoundDir { name: Some(name.to_string()), files: files.iter().map(|f| f.to_string()).collect() }
}

fn file(file_name: &str, doc_name: &str) -> ImportFile {
    ImportFile { file_name: file_name.to_string(), doc_name: doc_name.to_string() }
}

#[test]
fn text_files_are_known_by_their_extension() {
    assert_eq!(doc_name_of("chapter.txt"), Some("chapter".to_string()));
    assert_eq!(doc_name_of("Chapter One.TXT"), Some("Chapter One".to_string()));
    assert_eq!(doc_name_of("a.b.tXt"), Some("a.b".to_string()));
    assert_eq!(doc_name_of("notes.md"), None);
    assert_eq!(doc_name_of("txt"), None);
    assert_eq!(doc_name_of(".txt"), None);
    assert_eq!(doc_name_of("x.txt2"), None);
    assert_eq!(doc_name_of("x.tx"), None);
    assert_eq!(doc_name_of("x."), None);
    assert_eq!(doc_name_of(""), None);
}

#[test]
fn directories_become_folders_sorted_without_regard_to_case() {
    let dirs = vec![dir("b", &["2.txt", "skip.md", "1.TXT"]), dir("C", &[]), dir("\u{c9}t\u{e9}", &["x.txt"]), dir("a", &["z.txt"])];
    let files = vec!["loose b.txt".to_string(), "readme".to_string(), "Loose a.txt".to_string()];
    let plan = plan_legacy(Some("My Book"), &dirs, &files);
    assert_eq!(plan.project_name, "My Book");
    let names: Vec<&str> = plan.groups.iter().map(|g| g.name.as_str()).collect();
    assert_eq!(names, vec!["a", "b", "C", "\u{c9}t\u{e9}", "UNSORTED"]);
    let sources: Vec<Option<usize>> = plan.groups.iter().map(|g| g.source).collect();
    assert_eq!(sources, vec![Some(3), Some(0), Some(1), Some(2), None]);
    assert_eq!(plan.groups[1].files, vec![file("2.txt", "2"), file("1.TXT", "1")]);
    assert_eq!(plan.groups[2].files, vec![]);
    assert_eq!(plan.groups[4].files, vec![file("Loose a.txt", "Loose a"), file("loose b.txt", "loose b")]);
}

#[test]
fn without_loose_text_files_there_is_no_last_folder() {
    let dirs = vec![FoundDir { name: None, files: vec![] }];
    let plan = plan_legacy(None, &dirs, &vec!["picture.png".to_string()]);
    assert_eq!(plan.project_name, "Imported Project");
    assert_eq!(plan.groups.len(), 1);
    assert_eq!(plan.groups[0].name, "Folder");
}

#[test]
fn dropped_directories_become_top_level_folders() {
    let items = vec![
        Dropped::File("one.txt".to_string()),
        Dropped::File("two.pdf".to_string()),
        Dropped::Dir(dir("Part", &["a.txt", "b.doc"])),
        Dropped::Dir(FoundDir { name: None, files: vec![] }),
    ];
    let steps = plan_dropped(&items);
    assert_eq!(steps.len(), 3);
    assert_eq!(steps[0], DropStep::IntoTarget(0, file("one.txt", "one")));
    match &steps[1] {
        DropStep::NewGroup(g) => {
            assert_eq!(g.name, "Part");
            assert_eq!(g.source, Some(2));
            assert_eq!(g.files, vec![file("a.txt", "a")]);
        }
        other => panic!("unexpected step {:?}", other),
    }
    match &steps[2] {
        DropStep::NewGroup(g) => {
            assert_eq!(g.name, "Imported Folder");
            assert_eq!(g.files.len(), 0);
        }
        other => panic!("unexpected step {:?}", other),
    }
}

#[test]
fn the_export_root_takes_the_first_free_name() {
    let taken: Vec<String> = vec![];
    assert_eq!(choose_export_root(" My: Book ", &taken), Ok("My_ Book".to_string()));
    let taken = vec!["Book".to_string(), "Book export 3".to_string()];
    assert_eq!(choose_export_root("Book", &taken), Ok("Book export 2".to_string()));
    let taken = vec!["Book".to_string(), "Book export 2".to_string(), "Book export 3".to_string()];
    assert_eq!(choose_export_root("Book", &taken), Ok("Book export 4".to_string()));
    assert_eq!(choose_export_root("", &vec!["Untitled".to_string()]), Ok("Untitled export 2".to_string()));
}

#[test]
fn the_export_root_gives_up_when_every_name_is_taken() {
    let mut taken = vec!["B".to_string()];
    for n in 2..=9998 {
        taken.push(format!("B export {}", n));
    }
    assert_eq!(choose_export_root("B", &taken), Err(StoreError::NoFreeName));
    taken.pop();
    assert_eq!(choose_export_root("B", &taken), Ok("B export 9998".to_string()));
}

use athena_viewer::message_holder::file_helper::{FileGroupHolder, FileHolder};
use athena_viewer::message_holder::{MessageHolder, Resolution, SubmitAction};
use athena_viewer::state_holder::{InputMode, StateHolder, ViewMode};

const ROOT: &str = "/tmp/athena_fixture";

/// A directory tree held in memory: each directory with its entries (name, is a file), and
/// the text of each file.
struct Tree {
    dirs: Vec<(String, Vec<(String, bool)>)>,
    files: Vec<(String, String)>,
}

impl Tree {
    fn nested_structure() -> Tree {
        let d = |p: &str| format!("{}{}", ROOT, p);
        let e = |n: &str, f: bool| (n.to_string(), f);
        Tree {
            dirs: vec![
                (
                    d(""),
                    vec![
                        e("README.md", true),
                        e("main.rs", true),
                        e(".gitkeep", true),
                        e("src", false),
                        e("empty", false),
                    ],
                ),
                (d("/src"), vec![e("lib.rs", true), e("module.rs", true), e("nested", false)]),
                (d("/src/nested"), vec![e("deep", false)]),
                (d("/src/nested/deep"), vec![e("file.txt", true)]),
                (d("/empty"), vec![]),
            ],
            files: vec![
                (d("/README.md"), "# Test Project\nThis is a readme.".to_string()),
                (d("/main.rs"), "fn main() { println!(\"hello\"); }".to_string()),
                (d("/.gitkeep"), String::new()),
                (d("/src/lib.rs"), "pub fn helper() {}".to_string()),
                (d("/src/module.rs"), "mod tests { /* ... */ }".to_string()),
                (d("/src/nested/deep/file.txt"), "deep content".to_string()),
            ],
        }
    }

    fn remove_folder(&mut self, rel: &str) {
        let p = format!("{}/{}", ROOT, rel);
        self.dirs.retain(|(d, _)| d != &p && !d.starts_with(&format!("{}/", p)));
        self.files.retain(|(f, _)| !f.starts_with(&format!("{}/", p)));
    }

    fn canonical(path: &str) -> String {
        let mut parts: Vec<&str> = Vec::new();
        for c in path.split('/') {
            match c {
                "" | "." => {}
                ".." => {
                    parts.pop();
                }
                _ => parts.push(c),
            }
        }
        format!("/{}", parts.join("/"))
    }

    fn resolve(&self, path: &str) -> Resolution {
        let p = Tree::canonical(path);
        if self.dirs.iter().any(|(d, _)| d == &p) {
            Resolution::Directory(p)
        } else if self.files.iter().any(|(f, _)| f == &p) {
            Resolution::File(p)
        } else {
            Resolution::Missing
        }
    }

    fn snapshot(&self, dir: &str) -> FileGroupHolder {
        let names = self.dirs.iter().find(|(d, _)| d == dir).unwrap().1.clone();
        FileGroupHolder::new(dir.to_string(), true, names)
    }

    fn text(&self, file: &str) -> String {
        self.files.iter().find(|(f, _)| f == file).unwrap().1.clone()
    }
}

struct Session {
    tree: Tree,
    state: StateHolder,
    view: MessageHolder,
    typed: String,
}

impl Session {
    fn new(tree: Tree) -> Session {
        let view = MessageHolder::new(ROOT.to_string(), tree.snapshot(ROOT));
        Session { tree, state: StateHolder::default(), view, typed: String::new() }
    }

    fn type_chars(&mut self, s: &str) {
        for c in s.chars() {
            self.typed.push(c);
            self.view.update(&self.state, Some(self.typed.clone()));
        }
    }

    fn perform(&mut self, target: Option<String>) {
        let resolution = match target {
            Some(p) => self.tree.resolve(&p),
            None => Resolution::Missing,
        };
        match self.view.submit(&mut self.state, resolution).unwrap() {
            SubmitAction::EnterDirectory(p) => {
                let listing = if self.view.folder_holder.is_cached(&p) {
                    None
                } else {
                    Some(self.tree.snapshot(&p))
                };
                self.view.folder_holder.submit_new_working_directory(&self.state, p, listing).unwrap();
            }
            SubmitAction::OpenFile(p) => {
                let text = self.tree.text(&p);
                self.view.open_file(&mut self.state, p, text.len() as u64, &text).unwrap();
            }
            SubmitAction::RefreshCurrent => {
                let dir = self.view.folder_holder.current_directory.clone();
                let snapshot = self.tree.snapshot(&dir);
                self.view.refresh_current_folder_cache(&self.state, snapshot);
            }
            SubmitAction::Done => {}
        }
    }

    fn enter(&mut self) {
        let target = self.view.submit_target();
        self.perform(target);
        if !self.state.is_file_view() {
            self.typed.clear();
        }
    }

    fn visible_items(&self) -> Vec<String> {
        let history = self.state.is_history_search();
        self.view
            .folder_holder
            .selected_path_holder
            .iter()
            .map(|e: &FileHolder| {
                if history {
                    e.to_path()
                } else {
                    e.relative_to(&self.view.folder_holder.current_directory).unwrap()
                }
            })
            .collect()
    }
}

#[test]
fn test_browse_directory_and_select_file() {
    let mut s = Session::new(Tree::nested_structure());
    assert_eq!(s.view.folder_holder.current_directory, ROOT);

    assert!(s.state.is_edit());
    assert_eq!(s.state.view_mode, ViewMode::Search);

    let mut visible_items = vec!["..", "README.md", "main.rs", "src", "empty", ".gitkeep"];
    visible_items.sort();
    assert_eq!(s.visible_items(), visible_items);

    s.type_chars("src");
    s.enter();
    assert!(
        s.view.folder_holder.current_directory.ends_with("src"),
        "{}",
        s.view.folder_holder.current_directory
    );
    let mut visible_items = vec!["..", "lib.rs", "module.rs", "nested"];
    visible_items.sort();
    assert_eq!(s.visible_items(), visible_items);

    s.type_chars("lib.rs");
    s.enter();
    assert_eq!(s.visible_items(), vec!["lib.rs"]);
    assert!(s.state.is_file_view());
    assert!(s.view.file_opened.is_some());
    assert!(s.view.file_opened.clone().unwrap().ends_with("lib.rs"));

    s.view.reset_file_view();
    s.state.restore_previous_state();
    assert_eq!(s.visible_items(), vec!["lib.rs"]);
}

#[test]
fn test_navigate_to_parent_directory() {
    let mut s = Session::new(Tree::nested_structure());
    assert_eq!(s.view.folder_holder.current_directory, ROOT);

    s.type_chars("src");
    s.enter();
    assert!(
        s.view.folder_holder.current_directory.ends_with("src"),
        "{}",
        s.view.folder_holder.current_directory
    );

    s.state.to_search();
    assert_eq!(s.state.input_mode, InputMode::Normal);
    let target = s.view.to_parent(&s.state);
    s.perform(target);
    assert_eq!(s.view.folder_holder.current_directory, ROOT);
}

fn visit_src_nested(s: &mut Session, deep: bool) {
    s.type_chars("src");
    s.enter();
    s.type_chars("nested");
    s.enter();
    if deep {
        s.type_chars("deep");
        s.enter();
    }
    s.state.to_search();
    s.state.to_history_search();
    s.view.reset(&s.state);
    s.typed.clear();
}

#[test]
fn test_history_navigation() {
    let mut s = Session::new(Tree::nested_structure());
    visit_src_nested(&mut s, true);
    assert!(s.state.is_history_search());

    let mut history = Vec::new();
    let mut expected_suffix = ["src/nested/deep", "src/nested", "src"];
    for x in expected_suffix.iter_mut() {
        history.push(format!("{}/{}", ROOT, x));
    }
    history.push(ROOT.to_string());
    assert_eq!(s.visible_items(), history);

    s.view.move_down();
    s.view.move_down();
    s.enter();
    let mut visible_items = vec!["..", "lib.rs", "module.rs", "nested"];
    visible_items.sort();
    assert_eq!(s.visible_items(), visible_items);
}

#[test]
fn test_history_navigation_removed_handling() {
    let mut s = Session::new(Tree::nested_structure());
    visit_src_nested(&mut s, false);
    assert!(s.state.is_history_search());

    let mut history = Vec::new();
    let mut expected_suffix = ["src/nested", "src"];
    for x in expected_suffix.iter_mut() {
        history.push(format!("{}/{}", ROOT, x));
    }
    history.push(ROOT.to_string());
    assert_eq!(s.visible_items(), history);

    history.clear();
    s.tree.remove_folder("src/nested");
    let mut expected_suffix = ["src"];
    for x in expected_suffix.iter_mut() {
        history.push(format!("{}/{}", ROOT, x));
    }
    history.push(ROOT.to_string());

    s.enter();
    assert_eq!(s.visible_items(), history);
    assert_eq!(s.view.folder_holder.cached_paths(), history);
}

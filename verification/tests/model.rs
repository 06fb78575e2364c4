use dryad_files::ErrorKind;
use dryad_files::entry::FileEntry;
use dryad_files::entry::sort_entries;
use dryad_files::fs::FsModel;
use dryad_files::process::ProcessResult;
use dryad_files::process::greet;
use dryad_files::process::init_args;
use dryad_files::process::init_result;
use dryad_files::process::project_type_of;
use dryad_files::process::run_args;
use dryad_files::process::run_result;

fn path_of(parts: &[&str]) -> Vec<String> {
    let mut v = Vec::new();
    for p in parts {
        v.push(p.to_string());
    }
    v
}

fn entry_of(name: &str, path: &str, is_dir: bool) -> FileEntry {
    FileEntry { name: name.to_string(), path: path.to_string(), is_dir }
}

#[test]
fn listing_sorts_dirs_before_files_and_names_ascending() {
    let entries = vec![
        entry_of("b.txt", "b.txt", false),
        entry_of("A", "A", true),
        entry_of("a.txt", "a.txt", false),
        entry_of("B", "B", true),
    ];
    let sorted = sort_entries(entries);
    let names: Vec<&str> = sorted.iter().map(|e| e.name.as_str()).collect();
    assert_eq!(names, vec!["A", "B", "a.txt", "b.txt"]);
    assert!(sorted[0].is_dir && sorted[1].is_dir);
    assert!(!sorted[2].is_dir && !sorted[3].is_dir);
}

#[test]
fn write_then_read_round_trip() {
    let mut m = FsModel::new();
    let p = path_of(&["notes.txt"]);
    assert!(m.write_file(&p, "hello world".to_string()).is_ok());
    assert_eq!(m.read_file(&p).unwrap(), "hello world");
}

#[test]
fn write_then_read_empty_content() {
    let mut m = FsModel::new();
    let p = path_of(&["empty.txt"]);
    assert!(m.write_file(&p, String::new()).is_ok());
    assert_eq!(m.read_file(&p).unwrap(), "");
}

#[test]
fn create_file_truncates_existing() {
    let mut m = FsModel::new();
    let p = path_of(&["f.txt"]);
    assert!(m.write_file(&p, "old text".to_string()).is_ok());
    assert!(m.create_file(&p).is_ok());
    assert_eq!(m.read_file(&p).unwrap(), "");
}

#[test]
fn write_file_missing_parent_fails() {
    let mut m = FsModel::new();
    let p = path_of(&["missing", "f.txt"]);
    let r = m.write_file(&p, "text".to_string());
    assert!(matches!(r, Err(ErrorKind::IoError)));
    assert!(matches!(m.read_file(&p), Err(ErrorKind::IoError)));
}

#[test]
fn create_dir_creates_missing_ancestors_and_is_idempotent() {
    let mut m = FsModel::new();
    let p = path_of(&["a", "b", "c"]);
    assert!(m.create_dir(&p).is_ok());
    assert!(m.create_dir(&p).is_ok());
    let listing = m.list_dir(&path_of(&["a"])).unwrap();
    assert_eq!(listing.len(), 1);
    assert_eq!(listing[0].name, "b");
    assert_eq!(listing[0].path, "a/b");
    assert!(listing[0].is_dir);
    let inner = m.list_dir(&p).unwrap();
    assert!(inner.is_empty());
}

#[test]
fn create_dir_over_file_fails() {
    let mut m = FsModel::new();
    assert!(m.write_file(&path_of(&["a"]), "file".to_string()).is_ok());
    let r = m.create_dir(&path_of(&["a", "b"]));
    assert!(matches!(r, Err(ErrorKind::IoError)));
    assert_eq!(m.read_file(&path_of(&["a"])).unwrap(), "file");
}

#[test]
fn delete_dir_removes_descendants_and_listing_excludes_it() {
    let mut m = FsModel::new();
    assert!(m.create_dir(&path_of(&["top", "sub"])).is_ok());
    assert!(m.write_file(&path_of(&["top", "sub", "f.txt"]), "x".to_string()).is_ok());
    assert!(m.write_file(&path_of(&["top", "g.txt"]), "y".to_string()).is_ok());
    assert!(m.delete_path(&path_of(&["top", "sub"])).is_ok());
    let listing = m.list_dir(&path_of(&["top"])).unwrap();
    let names: Vec<&str> = listing.iter().map(|e| e.name.as_str()).collect();
    assert_eq!(names, vec!["g.txt"]);
    assert!(matches!(
        m.read_file(&path_of(&["top", "sub", "f.txt"])),
        Err(ErrorKind::IoError)
    ));
}

#[test]
fn delete_single_file() {
    let mut m = FsModel::new();
    assert!(m.write_file(&path_of(&["f.txt"]), "x".to_string()).is_ok());
    assert!(m.delete_path(&path_of(&["f.txt"])).is_ok());
    assert!(matches!(m.read_file(&path_of(&["f.txt"])), Err(ErrorKind::IoError)));
}

#[test]
fn rename_then_read_new_path_and_old_path_fails() {
    let mut m = FsModel::new();
    let old_p = path_of(&["old.txt"]);
    let new_p = path_of(&["new.txt"]);
    assert!(m.write_file(&old_p, "content".to_string()).is_ok());
    assert!(m.rename_path(&old_p, &new_p).is_ok());
    assert_eq!(m.read_file(&new_p).unwrap(), "content");
    assert!(matches!(m.read_file(&old_p), Err(ErrorKind::IoError)));
}

#[test]
fn rename_directory_carries_descendants() {
    let mut m = FsModel::new();
    assert!(m.create_dir(&path_of(&["d"])).is_ok());
    assert!(m.write_file(&path_of(&["d", "f.txt"]), "inner".to_string()).is_ok());
    assert!(m.rename_path(&path_of(&["d"]), &path_of(&["e"])).is_ok());
    assert_eq!(m.read_file(&path_of(&["e", "f.txt"])).unwrap(), "inner");
    assert!(matches!(m.read_file(&path_of(&["d", "f.txt"])), Err(ErrorKind::IoError)));
}

#[test]
fn operations_on_missing_paths_fail_and_leave_fs_unchanged() {
    let mut m = FsModel::new();
    assert!(m.write_file(&path_of(&["keep.txt"]), "kept".to_string()).is_ok());
    let missing = path_of(&["nope"]);
    assert!(matches!(m.read_file(&missing), Err(ErrorKind::IoError)));
    assert!(matches!(m.delete_path(&missing), Err(ErrorKind::IoError)));
    assert!(matches!(
        m.rename_path(&missing, &path_of(&["other"])),
        Err(ErrorKind::IoError)
    ));
    assert!(matches!(m.list_dir(&missing), Err(ErrorKind::IoError)));
    let listing = m.list_dir(&Vec::new()).unwrap();
    let names: Vec<&str> = listing.iter().map(|e| e.name.as_str()).collect();
    assert_eq!(names, vec!["keep.txt"]);
    assert_eq!(m.read_file(&path_of(&["keep.txt"])).unwrap(), "kept");
}

#[test]
fn list_dir_on_file_fails() {
    let mut m = FsModel::new();
    assert!(m.write_file(&path_of(&["f.txt"]), "x".to_string()).is_ok());
    assert!(matches!(m.list_dir(&path_of(&["f.txt"])), Err(ErrorKind::IoError)));
}

#[test]
fn project_type_flag_for_library_template() {
    assert_eq!(project_type_of(&"library".to_string()), "library");
    let args = init_args(&"demo".to_string(), &"library".to_string());
    assert_eq!(args, vec!["init", "demo", "--type=library"]);
}

#[test]
fn project_type_flag_for_other_template() {
    assert_eq!(project_type_of(&"app".to_string()), "project");
    let args = init_args(&"demo".to_string(), &"app".to_string());
    assert_eq!(args, vec!["init", "demo", "--type=project"]);
}

#[test]
fn run_args_shape() {
    let args = run_args(&"script.dr".to_string());
    assert_eq!(args, vec!["run", "script.dr"]);
}

#[test]
fn init_result_success_message() {
    let out = ProcessResult {
        exit_success: true,
        stdout: String::new(),
        stderr: String::new(),
    };
    let r = init_result(&"demo".to_string(), &"/tmp/x".to_string(), out);
    assert_eq!(r.unwrap(), "Project demo created successfully at /tmp/x");
}

#[test]
fn init_result_failure_carries_stderr() {
    let out = ProcessResult {
        exit_success: false,
        stdout: String::new(),
        stderr: "boom".to_string(),
    };
    let e = init_result(&"demo".to_string(), &"/tmp/x".to_string(), out).unwrap_err();
    assert_eq!(e.kind, ErrorKind::ProcessExitError);
    assert_eq!(e.message, "boom");
}

#[test]
fn run_result_success_returns_stdout() {
    let out = ProcessResult {
        exit_success: true,
        stdout: "output text".to_string(),
        stderr: String::new(),
    };
    assert_eq!(run_result(out).unwrap(), "output text");
}

#[test]
fn run_result_failure_returns_stderr() {
    let out = ProcessResult {
        exit_success: false,
        stdout: String::new(),
        stderr: "script error".to_string(),
    };
    let e = run_result(out).unwrap_err();
    assert_eq!(e.kind, ErrorKind::ProcessExitError);
    assert_eq!(e.message, "script error");
}

#[test]
fn greet_names_the_caller() {
    assert_eq!(greet("Ada"), "Hello, Ada! You've been greeted from Rust!");
}

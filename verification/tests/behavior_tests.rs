use ephie::command::Command;
use ephie::errors::FsError;
use ephie::paths::same_path;
use ephie::session::Session;
use ephie::system::FileSystem;
use ephie::trie::FsLike::{self, FileLike};

fn seeded_store() -> FileSystem {
    let mut system = FsLike::new();
    system.insert("/", FsLike::new()).unwrap();
    system.insert("/Documents", FsLike::new()).unwrap();
    system.insert("/Downloads", FsLike::new()).unwrap();
    system
        .insert(
            "/Downloads/test.hello",
            FileLike { data: String::from("hello world").into_bytes() },
        )
        .unwrap();
    FileSystem::new(system)
}

fn seeded_session() -> Session {
    Session::new("TestUser".to_string(), seeded_store())
}

// Insert idempotence: touching the same file twice keeps its content.
#[test]
fn touch_twice_keeps_content() {
    let mut session = seeded_session();
    session.touch("Downloads/test.hello".to_string()).unwrap();
    session.touch("Downloads/test.hello".to_string()).unwrap();
    let out = session.read_file("Downloads/test.hello".to_string()).unwrap();
    assert_eq!(out, "hello world".as_bytes());
}

// Insert idempotence: touching an existing directory keeps its children.
#[test]
fn touch_existing_dir_keeps_children() {
    let mut session = seeded_session();
    session.touch("/Downloads".to_string()).unwrap();
    let out = session.read_file("Downloads/test.hello".to_string()).unwrap();
    assert_eq!(out, "hello world".as_bytes());
}

// Path resolution: a nested parent marker fails deterministically.
#[test]
fn nested_parent_marker_is_rejected() {
    let mut session = seeded_session();
    session.make_dir("/Documents/paperwork".to_string()).unwrap();
    session
        .change_dir("Documents/paperwork".to_string())
        .unwrap();
    let before = session.current_dir().to_string();
    assert_eq!(session.change_dir("../..".to_string()), Err(FsError::InvalidPath));
    assert!(same_path(session.current_dir(), &before));
}

// Path resolution: a parent marker in an absolute path is rejected, and so
// is one while the working directory is the root.
#[test]
fn parent_marker_misuse_is_rejected() {
    let mut session = seeded_session();
    assert_eq!(
        session.change_dir("/Documents/..".to_string()),
        Err(FsError::InvalidPath)
    );
    assert_eq!(session.change_dir("..".to_string()), Err(FsError::InvalidPath));
}

// Removal: removing a missing path fails with NotFound and changes nothing.
#[test]
fn remove_missing_reports_not_found_and_keeps_tree() {
    let mut session = seeded_session();
    assert_eq!(session.remove("/Missing".to_string()), Err(FsError::NotFound));
    let out = session.list();
    assert!(out.iter().any(|n| n == "Documents"));
    assert!(out.iter().any(|n| n == "Downloads"));
    assert_eq!(out.len(), 2);
}

// Removal: the root itself cannot be removed.
#[test]
fn remove_root_is_rejected() {
    let mut session = seeded_session();
    assert_eq!(session.remove("/".to_string()), Err(FsError::InvalidPath));
}

// Copy/move: a move copies the file and then removes the source.
#[test]
fn move_leaves_only_the_destination() {
    let mut session = seeded_session();
    session
        .mv(
            "Downloads/test.hello".to_string(),
            "Documents/test.hello".to_string(),
        )
        .unwrap();
    let copied = session.read_file("Documents/test.hello".to_string()).unwrap();
    assert_eq!(copied, "hello world".as_bytes());
    assert_eq!(
        session.read_file("Downloads/test.hello".to_string()),
        Err(FsError::NotFound)
    );
}

// Copy refuses a directory source.
#[test]
fn copy_of_directory_is_rejected() {
    let mut session = seeded_session();
    assert_eq!(
        session.copy("/Downloads".to_string(), "/Documents/copy".to_string()),
        Err(FsError::NotAFile)
    );
}

// A directory cannot replace an existing file.
#[test]
fn mkdir_over_file_is_rejected() {
    let mut session = seeded_session();
    assert_eq!(
        session.make_dir("/Downloads/test.hello".to_string()),
        Err(FsError::NotADirectory)
    );
}

// An intermediate file blocks the walk.
#[test]
fn file_in_the_middle_of_a_path_is_rejected() {
    let mut session = seeded_session();
    assert_eq!(
        session.touch("/Downloads/test.hello/inner".to_string()),
        Err(FsError::NotADirectory)
    );
}

#[test]
fn change_dir_to_file_is_rejected() {
    let mut session = seeded_session();
    assert_eq!(
        session.change_dir("/Downloads/test.hello".to_string()),
        Err(FsError::NotADirectory)
    );
}

// Concurrency convergence: two sessions over one store create directories
// under the same missing parent; both end up present, neither is lost,
// whichever session went first.
#[test]
fn concurrent_make_dirs_converge() {
    let store = seeded_store();
    let mut alice = Session::new("alice".to_string(), store.clone());
    let mut bob = Session::new("bob".to_string(), store.clone());
    alice.make_dir("/shared/from_alice".to_string()).unwrap();
    bob.make_dir("/shared/from_bob".to_string()).unwrap();
    let mut probe = Session::new("probe".to_string(), store);
    probe.change_dir("/shared".to_string()).unwrap();
    let out = probe.list();
    assert!(out.iter().any(|n| n == "from_alice"));
    assert!(out.iter().any(|n| n == "from_bob"));
    assert_eq!(out.len(), 2);
}

// Sessions over one store see each other's writes; working directories stay
// per-session.
#[test]
fn sessions_share_the_store_but_not_the_working_dir() {
    let store = seeded_store();
    let mut alice = Session::new("alice".to_string(), store.clone());
    let bob = Session::new("bob".to_string(), store.clone());
    alice.change_dir("/Documents".to_string()).unwrap();
    bob.write_file("/Documents/note".to_string(), "shared".to_string()).unwrap();
    assert_eq!(alice.read_file("note".to_string()).unwrap(), "shared".as_bytes());
    assert!(same_path(alice.current_dir(), "/Documents"));
    assert!(same_path(bob.current_dir(), "/"));
}

// The dispatcher: responses for each command shape, driven over the wire
// command set.
#[test]
fn handle_serves_reads_and_fixed_texts() {
    let mut session = seeded_session();
    assert_eq!(session.handle(Command::WHO), "TestUser");
    assert_eq!(session.handle(Command::PWD), "/");
    assert_eq!(session.handle(Command::UNKNOWN), "Unknown Command");
    let listing = session.handle(Command::LS);
    assert_eq!(listing, "Documents | Downloads");
    // the read goes through the store and back out as text; a response that
    // ignored the stored bytes could not produce it
    let read = session.handle(Command::READ("Downloads/test.hello".to_string()));
    assert_eq!(read, "hello world");
}

#[test]
fn handle_write_then_read_round_trips() {
    let mut session = seeded_session();
    let resp = session.handle(Command::WRITE("Documents/memo~%%~dear diary".to_string()));
    assert_eq!(resp, "");
    let read = session.handle(Command::READ("Documents/memo".to_string()));
    assert_eq!(read, "dear diary");
}

#[test]
fn handle_rejects_malformed_two_argument_commands() {
    let mut session = seeded_session();
    assert_eq!(session.handle(Command::WRITE("no delimiter".to_string())), "Mismatched input");
    assert_eq!(session.handle(Command::CP("a~%%~b~%%~c".to_string())), "Mismatched input");
    assert_eq!(session.handle(Command::MV("lonely".to_string())), "Mismatched input");
}

#[test]
fn handle_reports_errors_as_text() {
    let mut session = seeded_session();
    assert_eq!(session.handle(Command::CD("missing".to_string())), "Not Found");
    assert_eq!(
        session.handle(Command::READ("Downloads".to_string())),
        "Not a file"
    );
    assert_eq!(session.handle(Command::RM("ghost".to_string())), "Not Found");
}

#[test]
fn handle_find_matches_and_misses() {
    let mut session = seeded_session();
    assert_eq!(session.handle(Command::FIND("Do".to_string())), "Documents | Downloads");
    assert_eq!(session.handle(Command::FIND("zzz".to_string())), "pattern not found");
}

// The path-equality helper follows segment structure, not raw text.
#[test]
fn same_path_ignores_redundant_separators() {
    assert!(same_path("/Documents/", "/Documents"));
    assert!(same_path("/a//b", "/a/b"));
    assert!(same_path("a/./b", "a/b"));
    assert!(!same_path("/a/b", "/a/c"));
    assert!(!same_path("/a", "a"));
}

// Overwriting with a non-empty file replaces content; an empty write is a
// touch and preserves it.
#[test]
fn empty_write_never_erases() {
    let session = seeded_session();
    session
        .write_file("Downloads/test.hello".to_string(), String::new())
        .unwrap();
    let out = session.read_file("Downloads/test.hello".to_string()).unwrap();
    assert_eq!(out, "hello world".as_bytes());
}

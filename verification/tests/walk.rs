use file_server::dir::Dir;
use file_server::metadata::{FileStat, Metadata};
use file_server::walker::{ListOutcome, Reply, Request, StatOutcome, WalkError, Walker};
use std::collections::HashMap;

/// A filesystem held in memory: what a metadata query and what a listing
/// answers for each path. A path that is not in it does not exist.
struct Disk {
    stats: HashMap<Vec<u8>, FileStat>,
    lists: HashMap<Vec<u8>, Listing>,
}

enum Listing {
    Entries(Vec<Vec<u8>>),
    Refused(String),
    Broken(String),
}

fn file_stat(len: u64) -> FileStat {
    FileStat { is_dir: false, is_file: true, is_symlink: false, len }
}

fn dir_stat() -> FileStat {
    FileStat { is_dir: true, is_file: false, is_symlink: false, len: 4096 }
}

impl Disk {
    fn new() -> Disk {
        Disk { stats: HashMap::new(), lists: HashMap::new() }
    }

    fn file(mut self, path: &str, len: u64) -> Disk {
        self.stats.insert(path.as_bytes().to_vec(), file_stat(len));
        self
    }

    fn dir(mut self, path: &str, entries: &[&str]) -> Disk {
        self.stats.insert(path.as_bytes().to_vec(), dir_stat());
        let entries = entries.iter().map(|e| e.as_bytes().to_vec()).collect();
        self.lists.insert(path.as_bytes().to_vec(), Listing::Entries(entries));
        self
    }

    fn refusing(mut self, path: &str, reason: &str) -> Disk {
        self.stats.insert(path.as_bytes().to_vec(), dir_stat());
        self.lists.insert(path.as_bytes().to_vec(), Listing::Refused(reason.to_string()));
        self
    }

    fn breaking(mut self, path: &str, reason: &str) -> Disk {
        self.stats.insert(path.as_bytes().to_vec(), dir_stat());
        self.lists.insert(path.as_bytes().to_vec(), Listing::Broken(reason.to_string()));
        self
    }

    fn stat(&self, path: &Vec<u8>) -> StatOutcome {
        match self.stats.get(path) {
            Some(stat) => StatOutcome::Found(*stat),
            None => StatOutcome::Failed("No such file or directory (os error 2)".to_string()),
        }
    }

    fn list(&self, path: &Vec<u8>) -> ListOutcome {
        match self.lists.get(path) {
            Some(Listing::Entries(entries)) => ListOutcome::Entries(entries.clone()),
            Some(Listing::Refused(reason)) => ListOutcome::Refused(reason.clone()),
            Some(Listing::Broken(reason)) => ListOutcome::Broken(reason.clone()),
            None => ListOutcome::Refused("Not a directory (os error 20)".to_string()),
        }
    }

    /// Answers every request of a walk of `roots` until it has none left.
    /// Also gives the requests in the order they came.
    fn walk_all(&self, roots: &[&str], depth: usize) -> (Result<Vec<Dir>, WalkError>, Vec<Request>) {
        let roots = roots.iter().map(|r| r.as_bytes().to_vec()).collect();
        let mut walker = Walker::start(roots, depth);
        let mut asked = Vec::new();
        loop {
            let request = walker.request();
            let reply = match &request {
                Request::Stat(paths) => Reply::Stat(paths.iter().map(|p| self.stat(p)).collect()),
                Request::List(paths) => Reply::List(paths.iter().map(|p| self.list(p)).collect()),
                Request::Nothing => break,
            };
            asked.push(request);
            walker = walker.advance(reply);
        }
        (walker.finish(), asked)
    }

    fn walk(&self, root: &str, depth: usize) -> Dir {
        let mut trees = self.walk_all(&[root], depth).0.unwrap();
        assert_eq!(trees.len(), 1);
        trees.pop().unwrap()
    }
}

fn paths(names: &[&str]) -> Vec<Vec<u8>> {
    names.iter().map(|n| n.as_bytes().to_vec()).collect()
}

fn leaf(path: &str, metadata: Metadata) -> Dir {
    Dir { path: Some(path.to_string()), metadata: Some(metadata), children: None }
}

fn branch(path: &str, children: Vec<Dir>) -> Dir {
    Dir {
        path: Some(path.to_string()),
        metadata: Some(Metadata::new(&dir_stat())),
        children: Some(children),
    }
}

fn file_leaf(path: &str, len: u64) -> Dir {
    leaf(path, Metadata::new(&file_stat(len)))
}

fn sample() -> Disk {
    Disk::new()
        .dir("/srv", &["/srv/b.txt", "/srv/docs", "/srv/a.txt"])
        .file("/srv/b.txt", 20)
        .file("/srv/a.txt", 10)
        .dir("/srv/docs", &["/srv/docs/deep", "/srv/docs/note.md"])
        .dir("/srv/docs/deep", &["/srv/docs/deep/x"])
        .file("/srv/docs/note.md", 7)
        .file("/srv/docs/deep/x", 1)
}

#[test]
fn a_regular_file_is_a_leaf_at_every_depth() {
    let disk = sample();
    for depth in [0usize, 1, 2, 7] {
        let tree = disk.walk("/srv/a.txt", depth);
        let metadata = tree.metadata.clone().unwrap();
        assert!(metadata.is_file);
        assert!(!metadata.is_dir);
        assert!(metadata.status);
        assert_eq!(metadata.size, 10);
        assert_eq!(metadata.message, None);
        assert!(tree.children.is_none());
        assert_eq!(tree, file_leaf("/srv/a.txt", 10));
    }
}

#[test]
fn a_file_is_never_listed() {
    let disk = sample();
    let (_, asked) = disk.walk_all(&["/srv/a.txt"], 4);
    assert_eq!(asked, vec![Request::Stat(paths(&["/srv/a.txt"]))]);
}

#[test]
fn a_directory_has_one_child_for_each_entry_in_listing_order() {
    let disk = sample();
    let tree = disk.walk("/srv", 1);
    let expected = branch(
        "/srv",
        vec![
            file_leaf("/srv/b.txt", 20),
            leaf("/srv/docs", Metadata::new(&dir_stat())),
            file_leaf("/srv/a.txt", 10),
        ],
    );
    assert_eq!(tree, expected);
    assert_eq!(tree.children.as_ref().unwrap().len(), 3);
}

#[test]
fn each_child_is_walked_with_one_level_less() {
    let disk = sample();
    for depth in 1usize..5 {
        let tree = disk.walk("/srv", depth);
        let children = tree.children.unwrap();
        assert_eq!(children.len(), 3);
        assert_eq!(children[0], disk.walk("/srv/b.txt", depth - 1));
        assert_eq!(children[1], disk.walk("/srv/docs", depth - 1));
        assert_eq!(children[2], disk.walk("/srv/a.txt", depth - 1));
    }
}

#[test]
fn a_walk_of_depth_two_goes_two_levels_down() {
    let disk = sample();
    let tree = disk.walk("/srv", 2);
    let expected = branch(
        "/srv",
        vec![
            file_leaf("/srv/b.txt", 20),
            branch(
                "/srv/docs",
                vec![
                    leaf("/srv/docs/deep", Metadata::new(&dir_stat())),
                    file_leaf("/srv/docs/note.md", 7),
                ],
            ),
            file_leaf("/srv/a.txt", 10),
        ],
    );
    assert_eq!(tree, expected);
}

#[test]
fn a_deep_walk_reaches_the_bottom() {
    let disk = sample();
    let tree = disk.walk("/srv", 10);
    let expected = branch(
        "/srv",
        vec![
            file_leaf("/srv/b.txt", 20),
            branch(
                "/srv/docs",
                vec![
                    branch("/srv/docs/deep", vec![file_leaf("/srv/docs/deep/x", 1)]),
                    file_leaf("/srv/docs/note.md", 7),
                ],
            ),
            file_leaf("/srv/a.txt", 10),
        ],
    );
    assert_eq!(tree, expected);
}

#[test]
fn depth_zero_gives_no_children_whatever_the_directory_holds() {
    let disk = sample();
    let tree = disk.walk("/srv", 0);
    assert!(tree.children.is_none());
    assert!(tree.metadata.as_ref().unwrap().is_dir);
    assert_eq!(tree, leaf("/srv", Metadata::new(&dir_stat())));
    let (_, asked) = disk.walk_all(&["/srv"], 0);
    assert_eq!(asked, vec![Request::Stat(paths(&["/srv"]))]);
}

#[test]
fn a_directory_reports_size_zero() {
    let disk = sample();
    let tree = disk.walk("/srv", 0);
    assert_eq!(tree.metadata.unwrap().size, 0);
}

#[test]
fn an_empty_directory_has_children_and_they_are_none() {
    let disk = Disk::new().dir("/empty", &[]);
    let tree = disk.walk("/empty", 3);
    assert_eq!(tree, branch("/empty", vec![]));
    assert_eq!(tree.children, Some(vec![]));
}

#[test]
fn a_missing_path_is_reported_in_its_metadata_at_every_depth() {
    let disk = sample();
    for depth in 0usize..4 {
        let tree = disk.walk("/nowhere", depth);
        let metadata = tree.metadata.clone().unwrap();
        assert!(!metadata.status);
        let message = metadata.message.clone().unwrap();
        assert!(!message.is_empty());
        assert_eq!(message, "No such file or directory (os error 2)");
        assert!(!metadata.is_dir);
        assert!(!metadata.is_file);
        assert!(!metadata.is_symlink);
        assert_eq!(metadata.size, 0);
        assert!(tree.children.is_none());
        assert_eq!(tree.path, Some("/nowhere".to_string()));
    }
}

#[test]
fn a_missing_entry_does_not_stop_its_siblings() {
    let disk = Disk::new().dir("/d", &["/d/gone", "/d/here"]).file("/d/here", 5);
    let tree = disk.walk("/d", 1);
    let expected = branch(
        "/d",
        vec![
            leaf("/d/gone", Metadata::error("No such file or directory (os error 2)".to_string())),
            file_leaf("/d/here", 5),
        ],
    );
    assert_eq!(tree, expected);
}

#[test]
fn two_walks_of_an_unchanged_tree_are_alike() {
    let disk = sample();
    for depth in 0usize..5 {
        let first = disk.walk("/srv", depth);
        let second = disk.walk("/srv", depth);
        assert_eq!(first, second);
    }
}

#[test]
fn a_change_outside_the_walked_tree_changes_nothing() {
    let before = sample();
    let after = sample().file("/elsewhere", 99).dir("/srv/docs/deep", &[]);
    assert_eq!(before.walk("/srv", 2), after.walk("/srv", 2));
    assert_ne!(before.walk("/srv", 3), after.walk("/srv", 3));
}

#[test]
fn a_directory_that_refuses_its_listing_is_reported_and_its_siblings_stay() {
    let disk = Disk::new()
        .dir("/", &["/restricted", "/open"])
        .refusing("/restricted", "Permission denied (os error 13)")
        .dir("/open", &["/open/f"])
        .file("/open/f", 3);
    let (result, _) = disk.walk_all(&["/"], 2);
    let trees = result.unwrap();
    let children = trees[0].children.as_ref().unwrap();
    let restricted = &children[0];
    assert_eq!(restricted.path, Some("/restricted".to_string()));
    let metadata = restricted.metadata.clone().unwrap();
    assert!(!metadata.status);
    assert_eq!(metadata.message, Some("Permission denied (os error 13)".to_string()));
    assert!(!metadata.is_dir);
    assert_eq!(metadata.size, 0);
    assert!(restricted.children.is_none());
    assert_eq!(children[1], branch("/open", vec![file_leaf("/open/f", 3)]));
}

#[test]
fn a_refused_root_is_reported_and_the_walk_succeeds() {
    let disk = Disk::new().refusing("/restricted", "Permission denied (os error 13)");
    let tree = disk.walk("/restricted", 1);
    assert_eq!(
        tree,
        leaf("/restricted", Metadata::error("Permission denied (os error 13)".to_string()))
    );
    assert_eq!(disk.walk("/restricted", 0), leaf("/restricted", Metadata::new(&dir_stat())));
}

#[test]
fn a_listing_that_breaks_fails_the_whole_walk() {
    let disk = Disk::new()
        .dir("/", &["/ok", "/bad"])
        .dir("/ok", &[])
        .breaking("/bad", "Input/output error (os error 5)");
    let (result, _) = disk.walk_all(&["/"], 2);
    assert_eq!(result, Err(WalkError::Broken("Input/output error (os error 5)".to_string())));
    let (result, _) = disk.walk_all(&["/"], 1);
    assert!(result.is_ok());
}

#[test]
fn the_first_broken_listing_of_a_level_gives_the_reason() {
    let disk = Disk::new()
        .dir("/", &["/one", "/two", "/three"])
        .breaking("/one", "first")
        .dir("/two", &[])
        .breaking("/three", "second");
    let (result, _) = disk.walk_all(&["/"], 2);
    assert_eq!(result, Err(WalkError::Broken("first".to_string())));
}

#[test]
fn a_failed_walk_asks_nothing_more() {
    let walker = Walker::start(paths(&["/bad"]), 1);
    let walker = walker.advance(Reply::Stat(vec![StatOutcome::Found(dir_stat())]));
    let walker = walker.advance(Reply::List(vec![ListOutcome::Broken("torn".to_string())]));
    assert_eq!(walker.request(), Request::Nothing);
    let walker = walker.advance(Reply::Stat(vec![]));
    assert_eq!(walker.finish(), Err(WalkError::Broken("torn".to_string())));
}

#[test]
fn a_walk_goes_level_by_level() {
    let disk = sample();
    let (_, asked) = disk.walk_all(&["/srv"], 3);
    assert_eq!(
        asked,
        vec![
            Request::Stat(paths(&["/srv"])),
            Request::List(paths(&["/srv"])),
            Request::Stat(paths(&["/srv/b.txt", "/srv/docs", "/srv/a.txt"])),
            Request::List(paths(&["/srv/docs"])),
            Request::Stat(paths(&["/srv/docs/deep", "/srv/docs/note.md"])),
            Request::List(paths(&["/srv/docs/deep"])),
            Request::Stat(paths(&["/srv/docs/deep/x"])),
        ]
    );
}

#[test]
fn a_level_holds_the_entries_of_all_its_directories() {
    let disk = Disk::new()
        .dir("/a", &["/a/1", "/a/2"])
        .dir("/b", &["/b/1"])
        .file("/a/1", 1)
        .file("/a/2", 2)
        .file("/b/1", 3)
        .file("/c", 4);
    let (result, asked) = disk.walk_all(&["/a", "/c", "/b"], 1);
    assert_eq!(
        asked,
        vec![
            Request::Stat(paths(&["/a", "/c", "/b"])),
            Request::List(paths(&["/a", "/b"])),
            Request::Stat(paths(&["/a/1", "/a/2", "/b/1"])),
        ]
    );
    assert_eq!(
        result.unwrap(),
        vec![
            branch("/a", vec![file_leaf("/a/1", 1), file_leaf("/a/2", 2)]),
            file_leaf("/c", 4),
            branch("/b", vec![file_leaf("/b/1", 3)]),
        ]
    );
}

#[test]
fn a_walk_without_roots_is_done_at_once() {
    let walker = Walker::start(vec![], 3);
    assert_eq!(walker.request(), Request::Nothing);
    assert_eq!(walker.finish(), Ok(vec![]));
}

#[test]
fn a_walk_that_has_not_ended_has_no_trees() {
    let walker = Walker::start(paths(&["/srv"]), 1);
    assert_eq!(walker.finish(), Err(WalkError::Pending));
    let walker = Walker::start(paths(&["/srv"]), 1);
    let walker = walker.advance(Reply::Stat(vec![StatOutcome::Found(dir_stat())]));
    assert_eq!(walker.finish(), Err(WalkError::Pending));
}

#[test]
fn a_reply_of_the_wrong_kind_changes_nothing() {
    let walker = Walker::start(paths(&["/srv"]), 1);
    let walker = walker.advance(Reply::List(vec![ListOutcome::Entries(vec![])]));
    assert_eq!(walker.request(), Request::Stat(paths(&["/srv"])));
    let walker = walker.advance(Reply::Stat(vec![StatOutcome::Found(dir_stat())]));
    let walker = walker.advance(Reply::Stat(vec![StatOutcome::Found(dir_stat())]));
    assert_eq!(walker.request(), Request::List(paths(&["/srv"])));
}

#[test]
fn a_reply_with_the_wrong_number_of_answers_changes_nothing() {
    let walker = Walker::start(paths(&["/a", "/b"]), 1);
    let walker = walker.advance(Reply::Stat(vec![StatOutcome::Found(dir_stat())]));
    assert_eq!(walker.request(), Request::Stat(paths(&["/a", "/b"])));
    let walker = walker.advance(Reply::Stat(vec![
        StatOutcome::Found(dir_stat()),
        StatOutcome::Found(file_stat(1)),
    ]));
    assert_eq!(walker.request(), Request::List(paths(&["/a"])));
    let walker = walker.advance(Reply::List(vec![]));
    assert_eq!(walker.request(), Request::List(paths(&["/a"])));
    let walker = walker.advance(Reply::List(vec![
        ListOutcome::Entries(vec![]),
        ListOutcome::Entries(vec![]),
    ]));
    assert_eq!(walker.request(), Request::List(paths(&["/a"])));
    let walker = walker.advance(Reply::List(vec![ListOutcome::Entries(vec![])]));
    assert_eq!(walker.request(), Request::Nothing);
}

#[test]
fn a_symlink_keeps_its_flag_and_is_not_listed() {
    let link = FileStat { is_dir: false, is_file: false, is_symlink: true, len: 9 };
    let walker = Walker::start(paths(&["/link"]), 2);
    let walker = walker.advance(Reply::Stat(vec![StatOutcome::Found(link)]));
    assert_eq!(walker.request(), Request::Nothing);
    let trees = walker.finish().unwrap();
    let metadata = trees[0].metadata.clone().unwrap();
    assert!(metadata.is_symlink);
    assert_eq!(metadata.size, 9);
    assert!(trees[0].children.is_none());
}

#[test]
fn an_entry_without_a_string_form_has_no_path_and_is_still_queried() {
    let odd: Vec<u8> = vec![b'/', b'd', b'/', 0xff, 0xfe];
    let walker = Walker::start(paths(&["/d"]), 1);
    let walker = walker.advance(Reply::Stat(vec![StatOutcome::Found(dir_stat())]));
    let walker = walker.advance(Reply::List(vec![ListOutcome::Entries(vec![odd.clone()])]));
    assert_eq!(walker.request(), Request::Stat(vec![odd]));
    let walker = walker.advance(Reply::Stat(vec![StatOutcome::Found(file_stat(4))]));
    let trees = walker.finish().unwrap();
    let children = trees[0].children.as_ref().unwrap();
    assert_eq!(children.len(), 1);
    assert_eq!(children[0].path, None);
    assert_eq!(children[0].metadata, Some(Metadata::new(&file_stat(4))));
}

#[test]
fn no_tree_goes_deeper_than_the_depth() {
    fn height(tree: &Dir) -> usize {
        match &tree.children {
            Some(children) => 1 + children.iter().map(height).max().unwrap_or(0),
            None => 0,
        }
    }
    let disk = sample();
    assert_eq!(height(&disk.walk("/srv", 0)), 0);
    assert_eq!(height(&disk.walk("/srv", 1)), 1);
    assert_eq!(height(&disk.walk("/srv", 2)), 2);
    assert_eq!(height(&disk.walk("/srv", 3)), 3);
    assert_eq!(height(&disk.walk("/srv", 9)), 3);
}

#[test]
fn an_entry_without_status_never_has_children() {
    fn inspect(tree: &Dir) {
        let metadata = tree.metadata.as_ref().unwrap();
        assert_eq!(metadata.status, metadata.message.is_none());
        if let Some(children) = &tree.children {
            assert!(metadata.status);
            assert!(metadata.is_dir);
            for child in children {
                inspect(child);
            }
        }
    }
    let disk = Disk::new()
        .dir("/", &["/restricted", "/gone", "/open"])
        .refusing("/restricted", "Permission denied (os error 13)")
        .dir("/open", &["/open/f", "/open/missing"])
        .file("/open/f", 3);
    inspect(&disk.walk("/", 5));
}

#[test]
fn a_walker_accepts_exactly_the_answers_it_asked_for() {
    let walker = Walker::start(paths(&["/a", "/b"]), 1);
    assert!(!walker.accepts(&Reply::Stat(vec![StatOutcome::Found(dir_stat())])));
    assert!(!walker.accepts(&Reply::List(vec![
        ListOutcome::Entries(vec![]),
        ListOutcome::Entries(vec![]),
    ])));
    let found = Reply::Stat(vec![StatOutcome::Found(dir_stat()), StatOutcome::Found(file_stat(1))]);
    assert!(walker.accepts(&found));
    let walker = walker.advance(found);
    assert!(!walker.accepts(&Reply::List(vec![])));
    assert!(!walker.accepts(&Reply::Stat(vec![StatOutcome::Found(dir_stat())])));
    let told = Reply::List(vec![ListOutcome::Entries(vec![])]);
    assert!(walker.accepts(&told));
    let walker = walker.advance(told);
    assert!(!walker.accepts(&Reply::Stat(vec![])));
    assert!(!walker.accepts(&Reply::List(vec![])));
}

#[test]
fn a_symlink_to_a_directory_is_not_followed() {
    let link = FileStat { is_dir: true, is_file: false, is_symlink: true, len: 4096 };
    for depth in [0usize, 1, 2, 9] {
        let walker = Walker::start(paths(&["/link"]), depth);
        assert_eq!(walker.request(), Request::Stat(paths(&["/link"])));
        let walker = walker.advance(Reply::Stat(vec![StatOutcome::Found(link)]));
        assert_eq!(walker.request(), Request::Nothing);
        assert!(!walker.accepts(&Reply::List(vec![ListOutcome::Entries(vec![b"/link/x".to_vec()])])));
        let trees = walker.finish().unwrap();
        assert_eq!(trees.len(), 1);
        let metadata = trees[0].metadata.clone().unwrap();
        assert!(metadata.is_symlink);
        assert!(metadata.is_dir);
        assert!(metadata.status);
        assert_eq!(metadata.size, 0);
        assert!(trees[0].children.is_none());
    }
}

#[test]
fn a_symlink_among_directories_is_the_only_one_not_listed() {
    let link = FileStat { is_dir: true, is_file: false, is_symlink: true, len: 4096 };
    let walker = Walker::start(paths(&["/a", "/link", "/b"]), 1);
    let walker = walker.advance(Reply::Stat(vec![
        StatOutcome::Found(dir_stat()),
        StatOutcome::Found(link),
        StatOutcome::Found(dir_stat()),
    ]));
    assert_eq!(walker.request(), Request::List(paths(&["/a", "/b"])));
    let walker = walker.advance(Reply::List(vec![
        ListOutcome::Entries(vec![]),
        ListOutcome::Entries(paths(&["/b/link"])),
    ]));
    assert_eq!(walker.request(), Request::Stat(paths(&["/b/link"])));
    let walker = walker.advance(Reply::Stat(vec![StatOutcome::Found(link)]));
    assert_eq!(walker.request(), Request::Nothing);
    let trees = walker.finish().unwrap();
    assert_eq!(trees[0].children, Some(vec![]));
    assert!(trees[1].children.is_none());
    assert!(trees[1].metadata.as_ref().unwrap().is_symlink);
    let below = trees[2].children.as_ref().unwrap();
    assert_eq!(below.len(), 1);
    assert!(below[0].children.is_none());
    assert!(below[0].metadata.as_ref().unwrap().is_symlink);
}

use file_server::dir::Dir;
use file_server::metadata::{FileStat, Metadata};
use file_server::params::{
    depth_from_text, drive_root, greeting, FileDirParams, FileParams, ParamError, Plan, Target,
    UserParams, DEFAULT_DEPTH,
};
use file_server::walker::{Reply, Request, StatOutcome};

fn leaf(path: &str) -> Dir {
    let stat = FileStat { is_dir: false, is_file: true, is_symlink: false, len: 1 };
    Dir { path: Some(path.to_string()), metadata: Some(Metadata::new(&stat)), children: None }
}

#[test]
fn a_negative_depth_is_refused() {
    let params = FileDirParams { path: Some("/srv".to_string()), depth: Some(-1) };
    assert_eq!(params.plan(), Err(ParamError::NegativeDepth));
    let params = FileDirParams { path: None, depth: Some(-1) };
    assert_eq!(params.plan(), Err(ParamError::NegativeDepth));
    let params = FileDirParams { path: None, depth: Some(isize::MIN) };
    assert_eq!(params.plan(), Err(ParamError::NegativeDepth));
}

#[test]
fn the_default_depth_is_one() {
    assert_eq!(DEFAULT_DEPTH, 1);
}

#[test]
fn a_missing_depth_is_the_default() {
    let params = FileDirParams { path: Some("/srv".to_string()), depth: None };
    assert_eq!(params.plan(), Ok(Plan { target: Target::Path("/srv".to_string()), depth: 1 }));
    let params = FileDirParams { path: None, depth: None };
    assert_eq!(params.plan(), Ok(Plan { target: Target::Volumes, depth: 1 }));
}

#[test]
fn a_missing_path_asks_for_the_volumes() {
    let params = FileDirParams { path: None, depth: Some(3) };
    assert_eq!(params.plan(), Ok(Plan { target: Target::Volumes, depth: 3 }));
}

#[test]
fn a_given_depth_is_kept() {
    let params = FileDirParams { path: Some("/srv".to_string()), depth: Some(0) };
    assert_eq!(params.plan(), Ok(Plan { target: Target::Path("/srv".to_string()), depth: 0 }));
    let params = FileDirParams { path: Some("x".to_string()), depth: Some(isize::MAX) };
    assert_eq!(
        params.plan(),
        Ok(Plan { target: Target::Path("x".to_string()), depth: isize::MAX as usize })
    );
}

#[test]
fn an_empty_path_is_still_a_path() {
    let params = FileDirParams { path: Some(String::new()), depth: Some(2) };
    assert_eq!(params.plan(), Ok(Plan { target: Target::Path(String::new()), depth: 2 }));
}

#[test]
fn a_plan_for_a_path_walks_that_path_alone() {
    let plan = Plan { target: Target::Path("/srv/\u{e9}".to_string()), depth: 2 };
    let mut root = b"/srv/".to_vec();
    root.extend_from_slice(&[0xc3, 0xa9]);
    let walker = plan.begin(vec![b"/ignored".to_vec()]);
    assert_eq!(walker.request(), Request::Stat(vec![root.clone()]));
    let walker = plan.start(true, Vec::new()).unwrap();
    assert_eq!(walker.request(), Request::Stat(vec![root]));
}

#[test]
fn a_plan_for_a_path_answers_with_the_tree_of_the_path() {
    let plan = Plan { target: Target::Path("/srv/a".to_string()), depth: 1 };
    let walker = plan.start(true, Vec::new()).unwrap();
    let stat = FileStat { is_dir: false, is_file: true, is_symlink: false, len: 1 };
    let walker = walker.advance(Reply::Stat(vec![StatOutcome::Found(stat)]));
    let answer = plan.assemble(walker.finish().unwrap());
    assert_eq!(answer, Some(leaf("/srv/a")));
}

#[test]
fn a_path_takes_exactly_one_tree() {
    let plan = Plan { target: Target::Path("/srv".to_string()), depth: 1 };
    assert_eq!(plan.assemble(vec![leaf("/srv")]), Some(leaf("/srv")));
    assert_eq!(plan.assemble(vec![]), None);
    assert_eq!(plan.assemble(vec![leaf("/a"), leaf("/b")]), None);
}

#[test]
fn the_volumes_take_any_number_of_trees() {
    let plan = Plan { target: Target::Volumes, depth: 1 };
    let answer = plan.assemble(vec![leaf("/a"), leaf("/b")]).unwrap();
    assert_eq!(
        answer,
        Dir {
            path: Some("/".to_string()),
            metadata: None,
            children: Some(vec![leaf("/a"), leaf("/b")]),
        }
    );
}

#[test]
fn files_are_served_from_the_named_directory() {
    let params = FileParams { drive_path: "/srv/files".to_string() };
    assert_eq!(drive_root(Some(params)), "/srv/files");
}

#[test]
fn files_are_served_from_the_root_without_a_parameter() {
    assert_eq!(drive_root(None), "/");
}

#[test]
fn a_greeting_names_the_path_and_the_user() {
    let params = UserParams { username: "bob".to_string() };
    assert_eq!(greeting("alice", &params), "Hello: alice,bob");
}

#[test]
fn a_greeting_of_nobody_keeps_its_frame() {
    let params = UserParams { username: String::new() };
    assert_eq!(greeting("", &params), "Hello: ,");
}

#[test]
fn a_text_of_digits_writes_a_depth() {
    assert_eq!(depth_from_text("0"), Some(0));
    assert_eq!(depth_from_text("7"), Some(7));
    assert_eq!(depth_from_text("42"), Some(42));
    assert_eq!(depth_from_text("007"), Some(7));
    assert_eq!(depth_from_text("00000000000000000000000000000000000012"), Some(12));
}

#[test]
fn a_sign_may_come_first() {
    assert_eq!(depth_from_text("+3"), Some(3));
    assert_eq!(depth_from_text("-1"), Some(-1));
    assert_eq!(depth_from_text("-0"), Some(0));
    assert_eq!(depth_from_text("-250"), Some(-250));
}

#[test]
fn a_text_that_is_no_integer_writes_no_depth() {
    for text in [
        "", "+", "-", "abc", "1.5", "1e3", " 1", "1 ", "--1", "+-1", "1-", "0x10", "1_000",
        "\u{663}", "2\u{e9}", "\u{ff11}", "one",
    ] {
        assert_eq!(depth_from_text(text), None);
    }
}

#[test]
fn a_depth_must_fit_the_word() {
    assert_eq!(depth_from_text(&isize::MAX.to_string()), Some(isize::MAX));
    assert_eq!(depth_from_text(&isize::MIN.to_string()), Some(isize::MIN));
    assert_eq!(depth_from_text(&format!("+{}", isize::MAX)), Some(isize::MAX));
    assert_eq!(depth_from_text("9223372036854775808"), None);
    assert_eq!(depth_from_text("-9223372036854775809"), None);
    assert_eq!(depth_from_text("99999999999999999999999999999999999999999999"), None);
    assert_eq!(depth_from_text("-99999999999999999999999999999999999999999999"), None);
}

#[test]
fn the_depth_of_a_text_is_what_the_language_reads_from_it() {
    for text in [
        "0", "1", "+1", "-1", "12345", "-12345", "", "x", "+", "-", "1x", "9223372036854775807",
        "9223372036854775808", "-9223372036854775808", "-9223372036854775809", "0000", "+0",
    ] {
        assert_eq!(depth_from_text(text), text.parse::<isize>().ok());
    }
}

#[test]
fn a_depth_that_is_no_integer_falls_back_to_the_default() {
    let params = FileDirParams::read(Some("/srv".to_string()), Some("deep".to_string()));
    assert_eq!(params, FileDirParams { path: Some("/srv".to_string()), depth: None });
    assert_eq!(params.plan(), Ok(Plan { target: Target::Path("/srv".to_string()), depth: 1 }));
    let params = FileDirParams::read(None, Some(String::new()));
    assert_eq!(params.plan(), Ok(Plan { target: Target::Volumes, depth: 1 }));
    let params = FileDirParams::read(None, Some("1.0".to_string()));
    assert_eq!(params.plan(), Ok(Plan { target: Target::Volumes, depth: 1 }));
}

#[test]
fn parameters_are_read_from_their_text() {
    let params = FileDirParams::read(Some("/srv".to_string()), Some("3".to_string()));
    assert_eq!(params, FileDirParams { path: Some("/srv".to_string()), depth: Some(3) });
    let params = FileDirParams::read(None, None);
    assert_eq!(params, FileDirParams { path: None, depth: None });
    assert_eq!(params.plan(), Ok(Plan { target: Target::Volumes, depth: 1 }));
}

#[test]
fn a_negative_depth_read_from_text_is_refused() {
    let params = FileDirParams::read(Some("/srv".to_string()), Some("-1".to_string()));
    assert_eq!(params.depth, Some(-1));
    assert_eq!(params.plan(), Err(ParamError::NegativeDepth));
}

use file_server::dir::Dir;
use file_server::metadata::{FileStat, Metadata};

#[test]
fn new_records_a_file_with_its_length() {
    let stat = FileStat { is_dir: false, is_file: true, is_symlink: false, len: 1234 };
    let metadata = Metadata::new(&stat);
    assert_eq!(
        metadata,
        Metadata {
            is_dir: false,
            is_file: true,
            is_symlink: false,
            size: 1234,
            status: true,
            message: None,
        }
    );
}

#[test]
fn new_records_a_directory_with_size_zero() {
    let stat = FileStat { is_dir: true, is_file: false, is_symlink: false, len: 4096 };
    let metadata = Metadata::new(&stat);
    assert_eq!(
        metadata,
        Metadata {
            is_dir: true,
            is_file: false,
            is_symlink: false,
            size: 0,
            status: true,
            message: None,
        }
    );
}

#[test]
fn new_keeps_every_flag_that_the_query_reports() {
    let stat = FileStat { is_dir: true, is_file: false, is_symlink: true, len: 11 };
    let metadata = Metadata::new(&stat);
    assert!(metadata.is_dir);
    assert!(metadata.is_symlink);
    assert!(!metadata.is_file);
    assert_eq!(metadata.size, 0);
    let stat = FileStat { is_dir: false, is_file: false, is_symlink: true, len: 11 };
    let metadata = Metadata::new(&stat);
    assert!(metadata.is_symlink);
    assert_eq!(metadata.size, 11);
}

#[test]
fn new_takes_the_largest_length() {
    let stat = FileStat { is_dir: false, is_file: true, is_symlink: false, len: u64::MAX };
    assert_eq!(Metadata::new(&stat).size, u64::MAX);
}

#[test]
fn error_holds_the_message_and_zeroes_the_rest() {
    let metadata = Metadata::error("Permission denied (os error 13)".to_string());
    assert_eq!(
        metadata,
        Metadata {
            is_dir: false,
            is_file: false,
            is_symlink: false,
            size: 0,
            status: false,
            message: Some("Permission denied (os error 13)".to_string()),
        }
    );
}

#[test]
fn error_keeps_an_empty_message_as_it_is() {
    let metadata = Metadata::error(String::new());
    assert!(!metadata.status);
    assert_eq!(metadata.message, Some(String::new()));
}

#[test]
fn status_is_true_exactly_without_a_message() {
    let found = Metadata::new(&FileStat { is_dir: false, is_file: true, is_symlink: false, len: 1 });
    assert!(found.status && found.message.is_none());
    let failed = Metadata::error("gone".to_string());
    assert!(!failed.status && failed.message.is_some());
}

#[test]
fn default_metadata_knows_nothing() {
    let metadata = Metadata::default();
    assert_eq!(
        metadata,
        Metadata {
            is_dir: false,
            is_file: false,
            is_symlink: false,
            size: 0,
            status: false,
            message: None,
        }
    );
}

#[test]
fn a_clone_is_equal() {
    let metadata = Metadata::error("gone".to_string());
    assert_eq!(metadata.clone(), metadata);
    let metadata = Metadata::new(&FileStat { is_dir: false, is_file: true, is_symlink: false, len: 5 });
    assert_eq!(metadata.clone(), metadata);
}

#[test]
fn default_dir_is_empty() {
    let dir = Dir::default();
    assert_eq!(dir, Dir { path: None, metadata: None, children: None });
}

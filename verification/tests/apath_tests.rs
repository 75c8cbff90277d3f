use conserve::apath::{bytes_lt, SLASH};
use conserve::{Apath, CopyStats, Error};

#[test]
fn apath_validation() {
    assert!(Apath::new(b"/".to_vec()).is_some());
    assert!(Apath::new(b"/hello".to_vec()).is_some());
    assert!(Apath::new(b"/a/b/c".to_vec()).is_some());
    assert!(Apath::new(Vec::new()).is_none());
    assert!(Apath::new(b"hello".to_vec()).is_none());
    assert!(Apath::new(b"/trailing/".to_vec()).is_none());
    assert!(Apath::new(b"//double".to_vec()).is_none());
}

#[test]
fn apath_ordering_puts_directories_first() {
    let parent = Apath::new(b"/subdir".to_vec()).unwrap();
    let child = Apath::new(b"/subdir/subfile".to_vec()).unwrap();
    assert!(parent.lt(&child));
    assert!(!child.lt(&parent));
    let root = Apath::new(b"/".to_vec()).unwrap();
    assert!(root.lt(&parent));
}

#[test]
fn apath_subtree_membership() {
    let prefix = Apath::new(b"/subdir".to_vec()).unwrap();
    let inside = Apath::new(b"/subdir/subfile".to_vec()).unwrap();
    let sibling = Apath::new(b"/subdirx".to_vec()).unwrap();
    assert!(inside.is_in_subtree(&prefix));
    assert!(prefix.is_in_subtree(&prefix));
    assert!(!sibling.is_in_subtree(&prefix));
    let root = Apath::new(b"/".to_vec()).unwrap();
    assert!(inside.is_in_subtree(&root));
}

#[test]
fn byte_order_is_lexicographic() {
    assert!(bytes_lt(&b"/a".to_vec(), &b"/b".to_vec()));
    assert!(bytes_lt(&b"/a".to_vec(), &b"/a/b".to_vec()));
    assert!(!bytes_lt(&b"/a".to_vec(), &b"/a".to_vec()));
    assert_eq!(SLASH, b'/');
}

#[test]
fn stats_zero_is_identity_and_addition_saturates() {
    let mut total = CopyStats::default();
    let part = CopyStats { files: 2, uncompressed_bytes: 7 };
    total.add(&part);
    total.add(&CopyStats::default());
    assert_eq!(total, CopyStats { files: 2, uncompressed_bytes: 7 });
    let mut big = CopyStats { files: 0, uncompressed_bytes: u64::MAX - 1 };
    big.add(&CopyStats { files: 0, uncompressed_bytes: 5 });
    assert_eq!(big.uncompressed_bytes, u64::MAX);
}

#[test]
fn error_descriptions() {
    assert_eq!(
        Error::NoCompleteBands.describe(),
        "Archive has no complete bands"
    );
    assert_eq!(Error::BandNotFound.describe(), "Band not found");
}

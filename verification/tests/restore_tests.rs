use conserve::excludes::from_strings;
use conserve::{
    Apath, Archive, BandId, BandSelectionPolicy, Entry, Error, FsNode, FsPayload, Problem, Report,
    RestoreOptions, RestoreTree, StoredTree,
};

fn apath(s: &str) -> Apath {
    Apath::new(s.as_bytes().to_vec()).unwrap()
}

/// An archive holding two committed versions: the second adds `/hello2`
/// and `/link` to the first's `/hello`, `/subdir`, `/subdir/subfile`.
fn store_two_versions() -> Archive {
    let mut archive = Archive::new();
    let mut t0 = StoredTree::new();
    t0.push(Entry::new_file(apath("/hello"), 100), b"hello world".to_vec());
    t0.push(Entry::new_dir(apath("/subdir"), 110), Vec::new());
    t0.push(Entry::new_file(apath("/subdir/subfile"), 120), b"junk".to_vec());
    archive.add_band(BandId::new(&[0]), true, t0);
    let mut t1 = StoredTree::new();
    t1.push(Entry::new_file(apath("/hello"), 100), b"hello world".to_vec());
    t1.push(Entry::new_file(apath("/hello2"), 130), b"contents".to_vec());
    t1.push(
        Entry::new_symlink(apath("/link"), 140, Some(b"target".to_vec())),
        Vec::new(),
    );
    t1.push(Entry::new_dir(apath("/subdir"), 110), Vec::new());
    t1.push(Entry::new_file(apath("/subdir/subfile"), 120), b"junk".to_vec());
    archive.add_band(BandId::new(&[1]), true, t1);
    archive
}

fn restore_all(
    archive: &Archive,
    existing: Vec<FsNode>,
    options: &RestoreOptions,
    symlinks: bool,
    report: &mut Report,
) -> Result<(conserve::CopyStats, RestoreTree), Error> {
    archive.restore(b"restore".to_vec(), existing, symlinks, options, report)
}

#[test]
fn simple_restore() {
    let archive = store_two_versions();
    let options = RestoreOptions::default();
    let mut report = Report::new();
    let (stats, dest) =
        restore_all(&archive, Vec::new(), &options, true, &mut report).expect("restore");
    assert_eq!(stats.files, 3);
    assert!(matches!(
        dest.find_node(&b"restore/hello".to_vec()).unwrap().payload,
        FsPayload::File(_)
    ));
    assert!(matches!(
        dest.find_node(&b"restore/hello2".to_vec()).unwrap().payload,
        FsPayload::File(_)
    ));
    assert!(matches!(
        dest.find_node(&b"restore/subdir".to_vec()).unwrap().payload,
        FsPayload::Dir
    ));
    assert!(matches!(
        dest.find_node(&b"restore/subdir/subfile".to_vec())
            .unwrap()
            .payload,
        FsPayload::File(_)
    ));
    match &dest.find_node(&b"restore/link".to_vec()).unwrap().payload {
        FsPayload::Symlink(target) => assert_eq!(target, b"target"),
        other => panic!("expected a symlink, got {:?}", other),
    }
}

#[test]
fn restore_named_band() {
    let archive = store_two_versions();
    let band_id = BandId::new(&[0]);
    let options = RestoreOptions {
        band_selection: BandSelectionPolicy::Specified(band_id),
        ..RestoreOptions::default()
    };
    let mut report = Report::new();
    let (stats, dest) =
        restore_all(&archive, Vec::new(), &options, true, &mut report).expect("restore");
    // Does not have the 'hello2' file added in the second version.
    assert_eq!(stats.files, 2);
    assert!(dest.find_node(&b"restore/hello2".to_vec()).is_none());
}

#[test]
fn decline_to_overwrite() {
    let existing = vec![FsNode {
        path: b"restore/existing".to_vec(),
        mtime: Some(0),
        payload: FsPayload::File(Vec::new()),
    }];
    let restore_err = match RestoreTree::create(b"restore".to_vec(), existing, true) {
        Err(e) => e,
        Ok(_) => panic!("expected an error"),
    };
    assert!(restore_err
        .describe()
        .contains("Destination directory not empty"));
    assert!(matches!(restore_err, Error::DestinationNotEmpty { .. }));
}

#[test]
fn forced_overwrite() {
    let archive = store_two_versions();
    let existing = vec![FsNode {
        path: b"restore/existing".to_vec(),
        mtime: Some(0),
        payload: FsPayload::File(b"old".to_vec()),
    }];
    let options = RestoreOptions {
        overwrite: true,
        ..RestoreOptions::default()
    };
    let mut report = Report::new();
    let (stats, dest) =
        restore_all(&archive, existing, &options, true, &mut report).expect("restore");
    assert_eq!(stats.files, 3);
    assert!(matches!(
        dest.find_node(&b"restore/hello".to_vec()).unwrap().payload,
        FsPayload::File(_)
    ));
    // The unrelated pre-existing file is untouched.
    match &dest.find_node(&b"restore/existing".to_vec()).unwrap().payload {
        FsPayload::File(content) => assert_eq!(content, b"old"),
        other => panic!("expected a file, got {:?}", other),
    }
}

#[test]
fn exclude_files() {
    let archive = store_two_versions();
    let options = RestoreOptions {
        overwrite: true,
        excludes: from_strings(&["/**/subfile"]).unwrap(),
        ..RestoreOptions::default()
    };
    let mut report = Report::new();
    let (stats, dest) =
        restore_all(&archive, Vec::new(), &options, true, &mut report).expect("restore");
    assert!(matches!(
        dest.find_node(&b"restore/hello".to_vec()).unwrap().payload,
        FsPayload::File(_)
    ));
    assert!(matches!(
        dest.find_node(&b"restore/hello2".to_vec()).unwrap().payload,
        FsPayload::File(_)
    ));
    assert!(matches!(
        dest.find_node(&b"restore/subdir".to_vec()).unwrap().payload,
        FsPayload::Dir
    ));
    assert!(dest.find_node(&b"restore/subdir/subfile".to_vec()).is_none());
    assert_eq!(stats.files, 2);
}

#[test]
fn directories_restored_before_their_children() {
    let archive = store_two_versions();
    let options = RestoreOptions {
        print_filenames: true,
        ..RestoreOptions::default()
    };
    let mut report = Report::new();
    restore_all(&archive, Vec::new(), &options, true, &mut report).expect("restore");
    let echoed: Vec<&[u8]> = report.filenames.iter().map(|f| f.as_slice()).collect();
    assert_eq!(
        echoed,
        vec![
            b"/hello".as_slice(),
            b"/hello2".as_slice(),
            b"/link".as_slice(),
            b"/subdir".as_slice(),
            b"/subdir/subfile".as_slice(),
        ]
    );
}

#[test]
fn copy_dir_twice_is_idempotent() {
    let mut dest = RestoreTree::create(b"d".to_vec(), Vec::new(), true).unwrap();
    let entry = Entry::new_dir(apath("/subdir"), 42);
    dest.copy_dir(&entry).unwrap();
    dest.copy_dir(&entry).unwrap();
    assert_eq!(dest.node_count(), 1);
    assert!(matches!(
        dest.find_node(&b"d/subdir".to_vec()).unwrap().payload,
        FsPayload::Dir
    ));
}

#[test]
fn create_on_empty_destination_succeeds() {
    assert!(RestoreTree::create(b"restore".to_vec(), Vec::new(), true).is_ok());
}

#[test]
fn round_trip_byte_fidelity() {
    let archive = store_two_versions();
    let options = RestoreOptions::default();
    let mut report = Report::new();
    let (stats, dest) =
        restore_all(&archive, Vec::new(), &options, true, &mut report).expect("restore");
    match &dest.find_node(&b"restore/hello".to_vec()).unwrap().payload {
        FsPayload::File(content) => assert_eq!(content, b"hello world"),
        other => panic!("expected a file, got {:?}", other),
    }
    // 11 + 8 + 4 bytes over /hello, /hello2 and /subdir/subfile.
    assert_eq!(stats.uncompressed_bytes, 23);
}

#[test]
fn symlink_degradation_without_platform_support() {
    let archive = store_two_versions();
    let options = RestoreOptions::default();
    let mut report = Report::new();
    let (stats, dest) =
        restore_all(&archive, Vec::new(), &options, false, &mut report).expect("restore");
    assert_eq!(stats.files, 3);
    assert!(dest.find_node(&b"restore/link".to_vec()).is_none());
    assert_eq!(report.problems.len(), 1);
    match &report.problems[0] {
        Problem::SymlinksUnsupported { apath } => assert_eq!(apath, b"/link"),
        other => panic!("expected a symlink problem, got {:?}", other),
    }
}

#[test]
fn symlink_without_target_is_reported() {
    let mut archive = Archive::new();
    let mut t = StoredTree::new();
    t.push(Entry::new_symlink(apath("/link"), 5, None), Vec::new());
    archive.add_band(BandId::new(&[0]), true, t);
    let options = RestoreOptions::default();
    let mut report = Report::new();
    let (_, dest) =
        restore_all(&archive, Vec::new(), &options, true, &mut report).expect("restore");
    assert!(dest.find_node(&b"restore/link".to_vec()).is_none());
    assert_eq!(report.problems.len(), 1);
    assert!(matches!(
        report.problems[0],
        Problem::SymlinkMissingTarget { .. }
    ));
}

#[test]
fn only_subtree_restores_that_subtree() {
    let archive = store_two_versions();
    let options = RestoreOptions {
        only_subtree: Some(apath("/subdir")),
        ..RestoreOptions::default()
    };
    let mut report = Report::new();
    let (stats, dest) =
        restore_all(&archive, Vec::new(), &options, true, &mut report).expect("restore");
    assert_eq!(stats.files, 1);
    assert!(dest.find_node(&b"restore/hello".to_vec()).is_none());
    assert!(matches!(
        dest.find_node(&b"restore/subdir".to_vec()).unwrap().payload,
        FsPayload::Dir
    ));
    assert!(matches!(
        dest.find_node(&b"restore/subdir/subfile".to_vec())
            .unwrap()
            .payload,
        FsPayload::File(_)
    ));
}

#[test]
fn latest_closed_skips_open_bands() {
    let mut archive = Archive::new();
    let mut t0 = StoredTree::new();
    t0.push(Entry::new_file(apath("/hello"), 1), b"one".to_vec());
    archive.add_band(BandId::new(&[0]), true, t0);
    let mut t1 = StoredTree::new();
    t1.push(Entry::new_file(apath("/hello"), 2), b"two".to_vec());
    t1.push(Entry::new_file(apath("/more"), 3), b"more".to_vec());
    archive.add_band(BandId::new(&[1]), false, t1);
    let options = RestoreOptions::default();
    let mut report = Report::new();
    let (stats, dest) =
        restore_all(&archive, Vec::new(), &options, true, &mut report).expect("restore");
    assert_eq!(stats.files, 1);
    assert!(dest.find_node(&b"restore/more".to_vec()).is_none());
}

#[test]
fn no_complete_bands_is_an_error() {
    let mut archive = Archive::new();
    let mut t = StoredTree::new();
    t.push(Entry::new_file(apath("/hello"), 1), b"one".to_vec());
    archive.add_band(BandId::new(&[0]), false, t);
    let options = RestoreOptions::default();
    let mut report = Report::new();
    let err = match restore_all(&archive, Vec::new(), &options, true, &mut report) {
        Err(e) => e,
        Ok(_) => panic!("expected an error"),
    };
    assert!(matches!(err, Error::NoCompleteBands));
}

#[test]
fn absent_band_is_an_error() {
    let archive = store_two_versions();
    let options = RestoreOptions {
        band_selection: BandSelectionPolicy::Specified(BandId::new(&[9])),
        ..RestoreOptions::default()
    };
    let mut report = Report::new();
    let err = match restore_all(&archive, Vec::new(), &options, true, &mut report) {
        Err(e) => e,
        Ok(_) => panic!("expected an error"),
    };
    assert!(matches!(err, Error::BandNotFound));
}

#[test]
fn bad_exclusion_pattern_is_refused() {
    let err = from_strings(&["[unclosed"]);
    assert!(matches!(err, Err(Error::BadGlob)));
}

#[test]
fn directory_mtimes_applied_on_finish() {
    let archive = store_two_versions();
    let options = RestoreOptions::default();
    let mut report = Report::new();
    let (_, dest) =
        restore_all(&archive, Vec::new(), &options, true, &mut report).expect("restore");
    let subdir = dest.find_node(&b"restore/subdir".to_vec()).unwrap();
    assert_eq!(subdir.mtime, Some(110));
    let hello = dest.find_node(&b"restore/hello".to_vec()).unwrap();
    assert_eq!(hello.mtime, Some(100));
}

#[test]
fn content_unavailable_for_non_file_entries() {
    let mut tree = StoredTree::new();
    tree.push(Entry::new_dir(apath("/subdir"), 1), Vec::new());
    let err = match tree.file_contents(0) {
        Err(e) => e,
        Ok(_) => panic!("expected an error"),
    };
    assert!(matches!(err, Error::ContentUnavailable { .. }));
}

#[test]
fn symlink_collision_aborts_the_run() {
    let mut archive = Archive::new();
    let mut t = StoredTree::new();
    t.push(
        Entry::new_symlink(apath("/link"), 5, Some(b"target".to_vec())),
        Vec::new(),
    );
    archive.add_band(BandId::new(&[0]), true, t);
    let existing = vec![FsNode {
        path: b"restore/link".to_vec(),
        mtime: Some(0),
        payload: FsPayload::File(Vec::new()),
    }];
    let options = RestoreOptions {
        overwrite: true,
        ..RestoreOptions::default()
    };
    let mut report = Report::new();
    let err = match restore_all(&archive, existing, &options, true, &mut report) {
        Err(e) => e,
        Ok(_) => panic!("expected an error"),
    };
    assert!(matches!(err, Error::Restore { .. }));
}

#[test]
fn empty_file_restores_with_no_bytes() {
    let mut archive = Archive::new();
    let mut t = StoredTree::new();
    t.push(Entry::new_file(apath("/empty"), 7), Vec::new());
    archive.add_band(BandId::new(&[0]), true, t);
    let options = RestoreOptions::default();
    let mut report = Report::new();
    let (stats, dest) =
        restore_all(&archive, Vec::new(), &options, true, &mut report).expect("restore");
    assert_eq!(stats.files, 1);
    assert_eq!(stats.uncompressed_bytes, 0);
    match &dest.find_node(&b"restore/empty".to_vec()).unwrap().payload {
        FsPayload::File(content) => assert!(content.is_empty()),
        other => panic!("expected a file, got {:?}", other),
    }
}

#[test]
fn colliding_file_is_replaced_on_overwrite() {
    let archive = store_two_versions();
    let existing = vec![FsNode {
        path: b"restore/hello".to_vec(),
        mtime: Some(1),
        payload: FsPayload::File(b"stale".to_vec()),
    }];
    let options = RestoreOptions {
        overwrite: true,
        ..RestoreOptions::default()
    };
    let mut report = Report::new();
    let (_, dest) = restore_all(&archive, existing, &options, true, &mut report).expect("restore");
    match &dest.find_node(&b"restore/hello".to_vec()).unwrap().payload {
        FsPayload::File(content) => assert_eq!(content, b"hello world"),
        other => panic!("expected a file, got {:?}", other),
    }
}

#[test]
fn directory_in_the_way_of_a_file_aborts() {
    let mut archive = Archive::new();
    let mut t = StoredTree::new();
    t.push(Entry::new_file(apath("/x"), 1), b"data".to_vec());
    archive.add_band(BandId::new(&[0]), true, t);
    let existing = vec![FsNode {
        path: b"restore/x".to_vec(),
        mtime: Some(0),
        payload: FsPayload::Dir,
    }];
    let options = RestoreOptions {
        overwrite: true,
        ..RestoreOptions::default()
    };
    let mut report = Report::new();
    let err = match restore_all(&archive, existing, &options, true, &mut report) {
        Err(e) => e,
        Ok(_) => panic!("expected an error"),
    };
    assert!(matches!(err, Error::Restore { .. }));
}

use minipacked::archive::{
    EntryAction, EntryKind, PathComponent, SourceEntry, UnpackPlan, entry_action, inspect_source,
    suggested_archive_name, tally_walk, validate_output_path,
};
use minipacked::error::PackError;

fn n(s: &str) -> PathComponent {
    PathComponent::Normal(s.as_bytes().to_vec())
}

#[test]
fn suggested_names() {
    let name = Some("report.txt".to_string());
    let stem = Some("report".to_string());
    assert_eq!(suggested_archive_name(true, name.clone(), stem.clone()).unwrap(), "report.minipacked");
    assert_eq!(suggested_archive_name(false, name, stem).unwrap(), "report.txt.minipacked");
    assert_eq!(suggested_archive_name(false, None, None).err(), Some(PackError::NoFileName));
    assert_eq!(
        suggested_archive_name(true, Some("x".into()), None).err(),
        Some(PackError::NoFileName)
    );
}

#[test]
fn tally_adds_files_and_saturates() {
    let walk = [
        SourceEntry { kind: EntryKind::Directory, len: 4096 },
        SourceEntry { kind: EntryKind::File, len: 10 },
        SourceEntry { kind: EntryKind::File, len: 5 },
    ];
    assert_eq!(tally_walk(&walk), Ok(15));
    let big = [
        SourceEntry { kind: EntryKind::File, len: u64::MAX - 1 },
        SourceEntry { kind: EntryKind::File, len: 5 },
    ];
    assert_eq!(tally_walk(&big), Ok(u64::MAX));
    let bad = [
        SourceEntry { kind: EntryKind::File, len: 1 },
        SourceEntry { kind: EntryKind::Other, len: 0 },
        SourceEntry { kind: EntryKind::Other, len: 0 },
    ];
    assert_eq!(tally_walk(&bad), Err(PackError::UnsupportedSourcePath(1)));
    assert_eq!(tally_walk(&[]), Ok(0));
}

#[test]
fn inspect_sources() {
    let info = inspect_source(Some("f".into()), EntryKind::File, 77, &[]).unwrap();
    assert_eq!(info.root_name, "f");
    assert_eq!(info.total_bytes, 77);
    let walk = [SourceEntry { kind: EntryKind::File, len: 3 }];
    let info = inspect_source(Some("d".into()), EntryKind::Directory, 0, &walk).unwrap();
    assert_eq!(info.total_bytes, 3);
    assert!(matches!(
        inspect_source(None, EntryKind::File, 1, &[]),
        Err(PackError::NoFileName)
    ));
    assert!(matches!(
        inspect_source(Some("s".into()), EntryKind::Other, 1, &[]),
        Err(PackError::UnsupportedSourceKind)
    ));
}

#[test]
fn output_paths() {
    let parts = validate_output_path(&[n("dir"), PathComponent::CurDir, n("a.txt")]).unwrap();
    assert_eq!(parts, vec![b"dir".to_vec(), b"a.txt".to_vec()]);
    assert_eq!(
        validate_output_path(&[n("dir"), PathComponent::ParentDir, n("x")]).err(),
        Some(PackError::InvalidOutputPath)
    );
    assert_eq!(
        validate_output_path(&[PathComponent::RootDir, n("etc")]).err(),
        Some(PackError::InvalidOutputPath)
    );
    assert_eq!(
        validate_output_path(&[PathComponent::Prefix, n("x")]).err(),
        Some(PackError::InvalidOutputPath)
    );
    assert_eq!(validate_output_path(&[PathComponent::CurDir]).err(), Some(PackError::EmptyOutputPath));
    assert_eq!(validate_output_path(&[]).err(), Some(PackError::EmptyOutputPath));
}

#[test]
fn entry_actions() {
    assert_eq!(entry_action(EntryKind::Directory, false), Ok(EntryAction::CreateDir));
    assert_eq!(entry_action(EntryKind::File, false), Ok(EntryAction::WriteFile));
    assert_eq!(entry_action(EntryKind::Other, false), Err(PackError::UnsupportedEntry));
    assert_eq!(entry_action(EntryKind::File, true), Err(PackError::OverwriteRefused));
    assert_eq!(entry_action(EntryKind::Directory, true), Err(PackError::OverwriteRefused));
}

#[test]
fn unpack_plan_records_first_top_level() {
    let mut plan = UnpackPlan::new();
    assert!(plan.admit_entry(&[PathComponent::ParentDir, n("x")]).is_err());
    plan.admit_entry(&[n("project")]).unwrap();
    plan.admit_entry(&[n("other"), n("f")]).unwrap();
    assert_eq!(plan.finish().unwrap(), b"project".to_vec());

    let mut plan = UnpackPlan::new();
    plan.admit_entry(&[PathComponent::CurDir, n("a")]).unwrap();
    assert_eq!(plan.finish().unwrap(), b".".to_vec());

    assert_eq!(UnpackPlan::new().finish().err(), Some(PackError::EmptyArchive));
}

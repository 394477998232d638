use filesystem::extent_tree::Extent;
use filesystem::file_errors::FileError;
use filesystem::files::{blocks_in_range, check_directory, extent_block_list, open_step, File, OpenStep, ReadPlan};

#[test]
fn open_existing_and_create() {
    assert_eq!(open_step(Some(4), 0), Ok(OpenStep::Existing { inode: 4, must_be_dir: false }));
    assert_eq!(open_step(Some(4), 0o100 | 0o200), Err(FileError::NameExists));
    assert_eq!(open_step(Some(4), 0o200000), Ok(OpenStep::Existing { inode: 4, must_be_dir: true }));
    assert_eq!(open_step(None, 0), Err(FileError::NameNotFound));
    assert_eq!(open_step(None, 0o100), Ok(OpenStep::Create));
}

#[test]
fn directory_check() {
    assert_eq!(check_directory(0o040755), Ok(()));
    assert_eq!(check_directory(0o100644), Err(FileError::NotDirectory));
}

#[test]
fn read_plan_clips_to_size() {
    let f = File::opened(3, 0);
    assert_eq!(f.read_plan(0o040755, 100, 10), Err(FileError::NotFile));
    assert_eq!(f.read_plan(0o100644, 0, 10), Ok(None));
    assert_eq!(
        f.read_plan(0o100644, 5000, 10000),
        Ok(Some(ReadPlan { end_offset: 5000, read_len: 5000, start_block: 0, end_block: 2, clip_start: 0 }))
    );
}

#[test]
fn read_advances_offset() {
    let mut f = File::opened(3, 0);
    let plan = f.read_plan(0o100644, 10, 4).unwrap().unwrap();
    let data: Vec<u8> = (0..20).collect();
    assert_eq!(f.finish_read(&data, &plan), vec![0, 1, 2, 3]);
    assert_eq!(f.offset(), 4);
    let plan = f.read_plan(0o100644, 10, 100).unwrap().unwrap();
    assert_eq!(plan, ReadPlan { end_offset: 10, read_len: 6, start_block: 0, end_block: 1, clip_start: 4 });
    assert_eq!(f.finish_read(&data, &plan), vec![4, 5, 6, 7, 8, 9]);
    assert_eq!(f.read_plan(0o100644, 10, 100), Ok(None));
    assert_eq!(f.inode(), 3);
}

#[test]
fn blocks_in_logical_range() {
    let exts = vec![
        Extent { logical_start: 0, physical_start: 100, length: 3 },
        Extent { logical_start: 3, physical_start: 50, length: 4 },
    ];
    assert_eq!(blocks_in_range(&exts, 2, 5), vec![102, 50, 51]);
    assert_eq!(extent_block_list(&exts), vec![100, 101, 102, 50, 51, 52, 53]);
}

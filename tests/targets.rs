use tasks::date::Date;
use tasks::error::TaskError;
use tasks::store::{MemStore, Store};
use tasks::target::{join_path, AnyTarget, DatedFileTarget, FileTarget, NullTarget, Target};

#[test]
fn lib_file_target() {
    let mut store = MemStore::new();
    let ft = FileTarget::new("/tmp", "test_target.txt");
    ft.delete(&mut store).unwrap();
    assert!(!ft.is_present(&store).unwrap());
    ft.write(&mut store, "test data".as_bytes()).unwrap();
    assert!(ft.is_present(&store).unwrap());
    assert_eq!(ft.read(&store).unwrap(), "test data".as_bytes().to_vec());
}

#[test]
fn lib_dated_file_target() {
    let mut store = MemStore::new();
    let ft = DatedFileTarget::new(
        "/tmp",
        "dated_test_target.txt",
        Date::from_ymd_opt(2021, 9, 3).unwrap(),
    );
    ft.delete(&mut store).unwrap();
    assert!(!ft.is_present(&store).unwrap());
    ft.write(&mut store, "test data".as_bytes()).unwrap();
    assert!(ft.is_present(&store).unwrap());
    assert_eq!(ft.read(&store).unwrap(), "test data".as_bytes().to_vec());
}

#[test]
fn task_lib_file_target() {
    let mut store = MemStore::new();
    let ft = FileTarget::new("/tmp", "test_target.txt");
    ft.delete(&mut store).unwrap();
    assert!(!ft.is_present(&store).expect("exists failed"));
    ft.write(&mut store, "test data".as_bytes()).unwrap();
    assert!(ft.is_present(&store).expect("exists failed"));
    assert_eq!(ft.read(&store).unwrap(), "test data".as_bytes().to_vec());
}

#[test]
fn task_lib_dated_file_target() {
    let mut store = MemStore::new();
    let ft = DatedFileTarget::new(
        "/tmp",
        "dated_test_target.txt",
        Date::from_ymd_opt(2021, 9, 3).unwrap(),
    );
    ft.delete(&mut store).unwrap();
    assert!(!ft.is_present(&store).expect("exists failed"));
    ft.write(&mut store, "test data".as_bytes()).unwrap();
    assert!(ft.is_present(&store).expect("exists failed"));
    assert_eq!(ft.read(&store).unwrap(), "test data".as_bytes().to_vec());
}

#[test]
fn dated_target_writes_date_prefixed_artifact() {
    let mut store = MemStore::new();
    let ft = DatedFileTarget::new("/tmp", "t.txt", Date::from_ymd_opt(2021, 9, 3).unwrap());
    assert_eq!(ft.filename(), "/tmp/20210903_t.txt");
    ft.write(&mut store, "test data".as_bytes()).unwrap();
    assert!(store.contains("/tmp/20210903_t.txt").unwrap());
    let plain = FileTarget::new("/tmp", "20210903_t.txt");
    assert!(plain.is_present(&store).unwrap());
    assert_eq!(plain.read(&store).unwrap(), "test data".as_bytes().to_vec());
}

#[test]
fn date_stamp_pads_small_fields() {
    let d = Date::from_ymd_opt(987, 1, 2).unwrap();
    assert_eq!(d.stamp(), "09870102");
    assert_eq!((d.year(), d.month(), d.day()), (987, 1, 2));
    assert_eq!(Date::from_ymd_opt(2024, 12, 31).unwrap().stamp(), "20241231");
}

#[test]
fn date_rejects_days_that_do_not_exist() {
    assert!(Date::from_ymd_opt(2023, 2, 29).is_none());
    assert!(Date::from_ymd_opt(2024, 2, 29).is_some());
    assert!(Date::from_ymd_opt(1900, 2, 29).is_none());
    assert!(Date::from_ymd_opt(2000, 2, 29).is_some());
    assert!(Date::from_ymd_opt(2021, 4, 31).is_none());
    assert!(Date::from_ymd_opt(2021, 13, 1).is_none());
    assert!(Date::from_ymd_opt(2021, 0, 1).is_none());
    assert!(Date::from_ymd_opt(2021, 1, 0).is_none());
    assert!(Date::from_ymd_opt(262142, 12, 31).is_some());
    assert!(Date::from_ymd_opt(262143, 1, 1).is_none());
    assert!(Date::from_ymd_opt(-262143, 1, 1).is_some());
    assert!(Date::from_ymd_opt(-262144, 1, 1).is_none());
}

#[test]
fn file_target_joins_directory_and_name() {
    assert_eq!(FileTarget::new("/tmp", "t1.txt").filename(), "/tmp/t1.txt");
    assert_eq!(FileTarget::new("/tmp/", "t1.txt").filename(), "/tmp/t1.txt");
    assert_eq!(FileTarget::new("", "t1.txt").filename(), "t1.txt");
    assert_eq!(FileTarget::new("/tmp", "/var/t1.txt").filename(), "/var/t1.txt");
    assert_eq!(join_path("a/b", "c"), "a/b/c");
}

#[test]
fn null_target_is_a_sink() {
    let mut store = MemStore::new();
    let nt = NullTarget {};
    assert_eq!(nt.address(), None);
    nt.write(&mut store, "ignored".as_bytes()).unwrap();
    assert!(!nt.is_present(&store).unwrap());
    assert_eq!(nt.read(&store).unwrap(), Vec::<u8>::new());
    nt.delete(&mut store).unwrap();
    assert!(!nt.is_present(&store).unwrap());
}

#[test]
fn write_delete_round_trip() {
    let mut store = MemStore::new();
    let ft = FileTarget::new("/tmp", "round_trip.txt");
    ft.write(&mut store, "first".as_bytes()).unwrap();
    assert_eq!(ft.read(&store).unwrap(), "first".as_bytes().to_vec());
    ft.write(&mut store, "second".as_bytes()).unwrap();
    assert_eq!(ft.read(&store).unwrap(), "second".as_bytes().to_vec());
    ft.delete(&mut store).unwrap();
    assert!(!ft.is_present(&store).unwrap());
    // deleting what does not exist succeeds
    ft.delete(&mut store).unwrap();
    assert!(!ft.is_present(&store).unwrap());
}

#[test]
fn reading_an_absent_target_fails() {
    let store = MemStore::new();
    let ft = FileTarget::new("/tmp", "never_written.txt");
    assert_eq!(
        ft.read(&store),
        Err(TaskError::NotFound("/tmp/never_written.txt".to_string()))
    );
}

#[test]
fn mem_store_keeps_keys_apart() {
    let mut store = MemStore::new();
    store.write("a", &[1, 2]).unwrap();
    store.write("b", &[3]).unwrap();
    store.write("a", &[4]).unwrap();
    assert_eq!(store.read("a").unwrap(), vec![4]);
    assert_eq!(store.read("b").unwrap(), vec![3]);
    store.remove("a").unwrap();
    assert!(!store.contains("a").unwrap());
    assert!(store.contains("b").unwrap());
    store.write("", &[]).unwrap();
    assert!(store.contains("").unwrap());
    assert_eq!(store.read("").unwrap(), Vec::<u8>::new());
}

#[test]
fn date_stamp_signs_years_outside_four_digits() {
    assert_eq!(Date::from_ymd_opt(10000, 1, 1).unwrap().stamp(), "+100000101");
    assert_eq!(Date::from_ymd_opt(-1, 1, 1).unwrap().stamp(), "-00010101");
    assert_eq!(Date::from_ymd_opt(0, 3, 4).unwrap().stamp(), "00000304");
}

#[test]
fn any_target_addresses_like_its_variant() {
    let dated = AnyTarget::Dated(DatedFileTarget::new(
        "/tmp",
        "t.txt",
        Date::from_ymd_opt(2021, 9, 3).unwrap(),
    ));
    assert_eq!(dated.address(), Some("/tmp/20210903_t.txt".to_string()));
    assert_eq!(AnyTarget::Null(NullTarget {}).address(), None);
    assert_eq!(
        AnyTarget::File(FileTarget::new("/tmp", "t1.txt")).address(),
        Some("/tmp/t1.txt".to_string())
    );
}

use std::sync::atomic::{AtomicUsize, Ordering};

use tasks::error::TaskError;
use tasks::store::{MemStore, Store};
use tasks::target::{AnyTarget, FileTarget, NullTarget, Target};
use tasks::task::{Task, TaskProtocol};

fn dep_target(deps: &[(String, FileTarget)], label: &str) -> Option<FileTarget> {
    for (name, target) in deps {
        if name == label {
            return Some(FileTarget::new(&target.cache_dir, &target.local_filename));
        }
    }
    None
}

struct FileTask {
    calls: AtomicUsize,
}

impl Task for FileTask {
    type Output = FileTarget;

    fn validate(&self, _data: &[u8]) -> Result<(), TaskError> {
        Ok(())
    }

    fn get_target(&self) -> Result<FileTarget, TaskError> {
        Ok(FileTarget::new("/tmp", "test_task_target.txt"))
    }

    fn compute_output<S: Store>(&self, _store: &S) -> Result<Vec<u8>, TaskError> {
        self.calls.fetch_add(1, Ordering::SeqCst);
        Ok("some data".as_bytes().to_vec())
    }

    fn get_dep_tasks(&self) -> Result<Vec<(String, Self)>, TaskError> {
        Ok(Vec::new())
    }
}

fn file_task() -> FileTask {
    FileTask { calls: AtomicUsize::new(0) }
}

#[test]
fn lib_file_task() {
    let mut store = MemStore::new();
    let task = file_task();
    let target = task.get_target().expect("Can't get target");
    // test with no starting data
    target.delete(&mut store).unwrap();
    // generate the data
    task.run(&mut store).unwrap();
    assert_eq!(target.read(&store).unwrap(), "some data".as_bytes().to_vec());
    // test with cached starting data
    assert_eq!(target.read(&store).unwrap(), "some data".as_bytes().to_vec());
}

#[test]
fn task_lib_file_task() {
    let mut store = MemStore::new();
    let task = file_task();
    let target = task.get_target().expect("Can't get target");
    target.delete(&mut store).unwrap();
    task.run(&mut store).unwrap();
    assert_eq!(target.read(&store).unwrap(), "some data".as_bytes().to_vec());
    assert_eq!(target.read(&store).unwrap(), "some data".as_bytes().to_vec());
}

#[test]
fn second_run_reuses_output() {
    let mut store = MemStore::new();
    let task = file_task();
    let target = task.get_target().unwrap();
    target.delete(&mut store).unwrap();
    task.run(&mut store).unwrap();
    assert_eq!(task.get_data(&store).unwrap(), "some data".as_bytes().to_vec());
    task.run(&mut store).unwrap();
    assert_eq!(task.get_data(&store).unwrap(), "some data".as_bytes().to_vec());
    assert_eq!(task.calls.load(Ordering::SeqCst), 1);
    assert_eq!(task.run_and_get_data(&mut store).unwrap(), "some data".as_bytes().to_vec());
    assert_eq!(task.calls.load(Ordering::SeqCst), 1);
}

#[test]
fn existing_output_is_not_recomputed() {
    let mut store = MemStore::new();
    let task = file_task();
    task.get_target().unwrap().write(&mut store, "cached".as_bytes()).unwrap();
    task.run(&mut store).unwrap();
    task.run_no_deps(&mut store).unwrap();
    assert_eq!(task.calls.load(Ordering::SeqCst), 0);
    assert_eq!(task.get_data(&store).unwrap(), "cached".as_bytes().to_vec());
}

#[test]
fn get_data_fails_before_run() {
    let store = MemStore::new();
    let task = file_task();
    assert!(task.get_data(&store).is_err());
}

struct T1Task {
    calls: AtomicUsize,
}

impl Task for T1Task {
    type Output = FileTarget;

    fn validate(&self, _data: &[u8]) -> Result<(), TaskError> {
        Ok(())
    }

    fn get_target(&self) -> Result<FileTarget, TaskError> {
        Ok(FileTarget::new("/tmp", "t1.txt"))
    }

    fn compute_output<S: Store>(&self, _store: &S) -> Result<Vec<u8>, TaskError> {
        self.calls.fetch_add(1, Ordering::SeqCst);
        Ok("some data".as_bytes().to_vec())
    }

    fn get_dep_tasks(&self) -> Result<Vec<(String, Self)>, TaskError> {
        Ok(Vec::new())
    }
}

#[test]
fn single_file_task_computes_once() {
    let mut store = MemStore::new();
    let task = T1Task { calls: AtomicUsize::new(0) };
    store.remove("/tmp/t1.txt").unwrap();
    task.run(&mut store).unwrap();
    assert_eq!(store.read("/tmp/t1.txt").unwrap(), "some data".as_bytes().to_vec());
    task.run(&mut store).unwrap();
    assert_eq!(task.calls.load(Ordering::SeqCst), 1);
}

struct ValidatedTask {
    min_len: usize,
}

impl Task for ValidatedTask {
    type Output = FileTarget;

    fn get_target(&self) -> Result<FileTarget, TaskError> {
        Ok(FileTarget::new("/tmp", "test_validation_target.txt"))
    }

    fn compute_output<S: Store>(&self, _store: &S) -> Result<Vec<u8>, TaskError> {
        Ok("some data".as_bytes().to_vec())
    }

    fn get_dep_tasks(&self) -> Result<Vec<(String, Self)>, TaskError> {
        Ok(Vec::new())
    }

    fn validate(&self, data: &[u8]) -> Result<(), TaskError> {
        if data.len() < self.min_len {
            Err(TaskError::Validation("not enough data!".to_string()))
        } else {
            Ok(())
        }
    }
}

#[test]
fn validation() {
    let mut store = MemStore::new();
    let task = ValidatedTask { min_len: 1000 };
    let target = task.get_target().expect("Can't get target");
    // test with no starting data
    target.delete(&mut store).unwrap();
    // generate the data - should fail validation
    assert!(task.run(&mut store).is_err());
    assert!(!target.is_present(&store).unwrap());
    let task = ValidatedTask { min_len: 1 };
    // generate the data - should pass validation
    assert!(!task.run(&mut store).is_err());
    assert!(target.is_present(&store).unwrap());
}

#[test]
fn validation_failure_reports_validation_error() {
    let mut store = MemStore::new();
    let task = ValidatedTask { min_len: 1000 };
    assert_eq!(
        task.run(&mut store),
        Err(TaskError::Validation("not enough data!".to_string()))
    );
    assert!(!task.get_target().unwrap().is_present(&store).unwrap());
}

struct SerdeTask {
    value: f64,
}

impl SerdeTask {
    fn get_value<S: Store>(&self, store: &S) -> f64 {
        let v: f64 = serde_json::from_slice(
            &self.get_target().expect("Can't get target").read(store).unwrap(),
        )
        .unwrap();
        v
    }
}

impl Task for SerdeTask {
    type Output = FileTarget;

    fn validate(&self, _data: &[u8]) -> Result<(), TaskError> {
        Ok(())
    }

    fn get_target(&self) -> Result<FileTarget, TaskError> {
        Ok(FileTarget::new("/tmp", "test_serde_task_target.txt"))
    }

    fn compute_output<S: Store>(&self, _store: &S) -> Result<Vec<u8>, TaskError> {
        let s = serde_json::to_vec(&self.value).unwrap();
        Ok(s)
    }

    fn get_dep_tasks(&self) -> Result<Vec<(String, Self)>, TaskError> {
        Ok(Vec::new())
    }
}

#[test]
fn lib_serde_task() {
    let mut store = MemStore::new();
    let task = SerdeTask { value: 1.23 };
    let target = task.get_target().expect("Can't get target");
    target.delete(&mut store).unwrap();
    task.run(&mut store).unwrap();
    assert_eq!(task.get_value(&store), 1.23);
}

#[test]
fn task_lib_serde_task() {
    let mut store = MemStore::new();
    let task = SerdeTask { value: 1.23 };
    let target = task.get_target().expect("Can't get target");
    target.delete(&mut store).unwrap();
    task.run(&mut store).unwrap();
    assert_eq!(task.get_value(&store), 1.23);
}

/// The tasks of a two-level dependency chain.
enum ChainTask {
    Dep1,
    Dep2,
    Final,
}

impl Task for ChainTask {
    type Output = FileTarget;

    fn validate(&self, _data: &[u8]) -> Result<(), TaskError> {
        Ok(())
    }

    fn get_target(&self) -> Result<FileTarget, TaskError> {
        let name = match self {
            ChainTask::Dep1 => "test_task_target_dep1.txt",
            ChainTask::Dep2 => "test_task_target_dep2.txt",
            ChainTask::Final => "test_task_target_depfinal.txt",
        };
        Ok(FileTarget { cache_dir: "/tmp".to_string(), local_filename: name.to_string() })
    }

    fn get_dep_tasks(&self) -> Result<Vec<(String, Self)>, TaskError> {
        match self {
            ChainTask::Final => Ok(vec![
                ("dep1".to_string(), ChainTask::Dep1),
                ("dep2".to_string(), ChainTask::Dep2),
            ]),
            _ => Ok(Vec::new()),
        }
    }

    fn compute_output<S: Store>(&self, store: &S) -> Result<Vec<u8>, TaskError> {
        match self {
            ChainTask::Dep1 => Ok("dep1 data".as_bytes().to_vec()),
            ChainTask::Dep2 => Ok("dep2 data".as_bytes().to_vec()),
            ChainTask::Final => {
                let dep_targets = self
                    .get_dep_targets()
                    .expect("Couldn't get dependent targets");
                let mut s1 = dep_target(&dep_targets, "dep1").unwrap().read(store)?;
                s1.extend(" - ".as_bytes());
                s1.extend(dep_target(&dep_targets, "dep2").unwrap().read(store)?);
                Ok(s1)
            }
        }
    }
}

fn dep<'a>(deps: &'a [(String, ChainTask)], label: &str) -> &'a ChainTask {
    &deps.iter().find(|(name, _)| name == label).unwrap().1
}

#[test]
fn lib_dependent_file_task() {
    let mut store = MemStore::new();
    let task = ChainTask::Final;
    let requires = task.get_dep_tasks().unwrap();
    task.recursively_delete_deps(&mut store).unwrap();
    task.run(&mut store).unwrap();
    assert_eq!(
        dep(&requires, "dep1").get_data(&store).unwrap(),
        "dep1 data".as_bytes().to_vec()
    );
    assert_eq!(
        dep(&requires, "dep2").get_data(&store).unwrap(),
        "dep2 data".as_bytes().to_vec()
    );
    assert_eq!(
        task.get_data(&store).unwrap(),
        "dep1 data - dep2 data".as_bytes().to_vec()
    );
}

#[test]
fn task_lib_dependent_file_task() {
    let mut store = MemStore::new();
    let task = ChainTask::Final;
    let requires = task.get_dep_tasks().expect("get_dep_tasks() failed");
    task.recursively_delete_data(&mut store).unwrap();
    task.run(&mut store).unwrap();
    assert_eq!(
        dep(&requires, "dep1").compute_output(&store).unwrap(),
        "dep1 data".as_bytes().to_vec()
    );
    assert_eq!(
        dep(&requires, "dep2").compute_output(&store).unwrap(),
        "dep2 data".as_bytes().to_vec()
    );
    assert_eq!(
        task.compute_output(&store).unwrap(),
        "dep1 data - dep2 data".as_bytes().to_vec()
    );
}

#[test]
fn dependency_chain_writes_joined_output() {
    let mut store = MemStore::new();
    let task = ChainTask::Final;
    task.recursively_delete_data(&mut store).unwrap();
    task.run(&mut store).unwrap();
    assert_eq!(
        store.read("/tmp/test_task_target_depfinal.txt").unwrap(),
        "dep1 data - dep2 data".as_bytes().to_vec()
    );
}

#[test]
fn recursive_delete_clears_every_dependency() {
    let mut store = MemStore::new();
    let task = ChainTask::Final;
    task.run(&mut store).unwrap();
    store.write("/tmp/unrelated.txt", "keep".as_bytes()).unwrap();
    task.recursively_delete_data(&mut store).unwrap();
    for t in [ChainTask::Dep1, ChainTask::Dep2, ChainTask::Final] {
        assert!(!t.get_target().unwrap().is_present(&store).unwrap());
    }
    assert_eq!(store.read("/tmp/unrelated.txt").unwrap(), "keep".as_bytes().to_vec());
}

#[test]
fn delete_deps_leaves_own_output() {
    let mut store = MemStore::new();
    let task = ChainTask::Final;
    task.run(&mut store).unwrap();
    task.delete_deps(&mut store).unwrap();
    assert!(!ChainTask::Dep1.get_target().unwrap().is_present(&store).unwrap());
    assert!(!ChainTask::Dep2.get_target().unwrap().is_present(&store).unwrap());
    assert!(task.get_target().unwrap().is_present(&store).unwrap());
    task.delete_data(&mut store).unwrap();
    assert!(!task.get_target().unwrap().is_present(&store).unwrap());
}

#[test]
fn run_without_dependencies_needs_inputs() {
    let mut store = MemStore::new();
    let task = ChainTask::Final;
    assert_eq!(
        task.run_no_deps(&mut store),
        Err(TaskError::MissingInput("dep1".to_string()))
    );
    assert!(!task.get_target().unwrap().is_present(&store).unwrap());
    ChainTask::Dep1.run_no_deps(&mut store).unwrap();
    ChainTask::Dep2.run_no_deps(&mut store).unwrap();
    task.run_no_deps(&mut store).unwrap();
    assert_eq!(task.get_data(&store).unwrap(), "dep1 data - dep2 data".as_bytes().to_vec());
}

#[test]
fn default_name_is_a_placeholder() {
    assert_eq!(ChainTask::Dep1.get_name(), "Unimplemented");
}

/// A wrapper task: its value is running its dependency.
enum WrapperTask {
    Wrapper,
    Leaf,
}

impl Task for WrapperTask {
    type Output = AnyTarget;

    fn validate(&self, _data: &[u8]) -> Result<(), TaskError> {
        Ok(())
    }

    fn get_target(&self) -> Result<AnyTarget, TaskError> {
        match self {
            WrapperTask::Wrapper => Ok(AnyTarget::Null(NullTarget {})),
            WrapperTask::Leaf => Ok(AnyTarget::File(FileTarget::new("/tmp", "leaf.txt"))),
        }
    }

    fn get_dep_tasks(&self) -> Result<Vec<(String, Self)>, TaskError> {
        match self {
            WrapperTask::Wrapper => Ok(vec![("leaf".to_string(), WrapperTask::Leaf)]),
            WrapperTask::Leaf => Ok(Vec::new()),
        }
    }

    fn compute_output<S: Store>(&self, _store: &S) -> Result<Vec<u8>, TaskError> {
        Ok("leaf data".as_bytes().to_vec())
    }
}

#[test]
fn wrapper_task_runs_its_dependency_every_time() {
    let mut store = MemStore::new();
    let task = WrapperTask::Wrapper;
    task.run(&mut store).unwrap();
    assert_eq!(store.read("/tmp/leaf.txt").unwrap(), "leaf data".as_bytes().to_vec());
    assert!(!task.get_target().unwrap().is_present(&store).unwrap());
    assert_eq!(task.get_data(&store).unwrap(), Vec::<u8>::new());
    task.run(&mut store).unwrap();
    assert!(!task.get_target().unwrap().is_present(&store).unwrap());
}

use cortex::checkpoint::{Checkpoint, CheckpointManager};
use cortex::scheduler::{
    JobScheduler, RecoveryConfig, ScheduledJob, ScheduledJobStatus, SchedulerConfig,
};
use cortex::secrets::local::LocalSecretStore;
use cortex::secrets::openbao::OpenBaoSecretStore;
use cortex::secrets::SecretError;

fn job(id: &str, name: &str) -> ScheduledJob {
    ScheduledJob {
        id: id.to_string(),
        name: name.to_string(),
        schedule: "0/30 * * * * * *".to_string(),
        last_run: None,
        next_run: 1_700_000_000_000,
        status: ScheduledJobStatus::Pending,
    }
}

fn scheduler() -> JobScheduler {
    JobScheduler::new(SchedulerConfig {
        storage_path: "scheduler/jobs.json".to_string(),
        recovery: RecoveryConfig { missed_window_ms: 300_000, max_per_restart: 2, stagger_ms: 0 },
    })
}

#[test]
fn local_store_reads_what_was_set() {
    let mut store = LocalSecretStore::new();
    store.set("api", "one").unwrap();
    store.set("db", "two").unwrap();
    assert_eq!(store.get("api").unwrap(), "one");
    store.set("api", "three").unwrap();
    assert_eq!(store.get("api").unwrap(), "three");
    assert_eq!(store.get("db").unwrap(), "two");
}

#[test]
fn local_store_missing_and_deleted_keys_are_not_found() {
    let mut store = LocalSecretStore::new();
    match store.get("nope") {
        Err(SecretError::NotFound(k)) => assert_eq!(k, "nope"),
        _ => panic!("expected NotFound"),
    }
    store.set("k", "v").unwrap();
    store.delete("k").unwrap();
    assert!(matches!(store.get("k"), Err(SecretError::NotFound(_))));
    store.delete("never-set").unwrap();
}

#[test]
fn openbao_store_is_not_implemented() {
    let store = OpenBaoSecretStore::new("http://127.0.0.1:8200", "root");
    for r in [store.get("k").err(), store.set("k", "v").err(), store.delete("k").err()] {
        match r {
            Some(SecretError::ProviderError(m)) => {
                assert_eq!(m, "OpenBao provider not yet fully implemented")
            }
            _ => panic!("expected a provider error"),
        }
    }
}

#[test]
fn scheduler_adds_and_lists_jobs() {
    let mut s = scheduler();
    assert!(s.jobs().is_empty());
    s.add_job(job("job-a", "index"));
    assert_eq!(s.jobs().len(), 1);
    assert_eq!(s.jobs()[0].id, "job-a");
    assert_eq!(s.config().storage_path, "scheduler/jobs.json");
}

#[test]
fn upsert_replaces_by_id_or_appends() {
    let mut s = scheduler();
    s.upsert_job(job("job-a", "first"));
    s.upsert_job(job("job-b", "second"));
    s.upsert_job(job("job-a", "renamed"));
    assert_eq!(s.jobs().len(), 2);
    assert_eq!(s.jobs()[0].name, "renamed");
    assert_eq!(s.jobs()[1].name, "second");
}

#[test]
fn jobs_mut_changes_jobs_in_place() {
    let mut s = scheduler();
    s.add_job(job("job-a", "index"));
    s.jobs_mut()[0].status = ScheduledJobStatus::Completed;
    assert_eq!(s.jobs()[0].status, ScheduledJobStatus::Completed);
}

#[test]
fn checkpoints_load_what_was_saved() {
    let mut m = CheckpointManager::new();
    m.save(Checkpoint::new("t1".to_string(), "a".to_string(), serde_json::Value::Bool(true)));
    m.save(Checkpoint::new("t1".to_string(), "b".to_string(), serde_json::Value::Null));
    m.save(Checkpoint::new("t2".to_string(), "a".to_string(), serde_json::Value::Null));
    let c = m.load("t1", "a").unwrap();
    assert_eq!(c.data, serde_json::Value::Bool(true));
    assert_eq!(m.list("t1").len(), 2);
    m.save(Checkpoint::new("t1".to_string(), "a".to_string(), serde_json::Value::Null));
    assert_eq!(m.load("t1", "a").unwrap().data, serde_json::Value::Null);
    assert_eq!(m.list("t1").len(), 2);
    m.delete("t1", "a");
    assert!(m.load("t1", "a").is_none());
    assert_eq!(CheckpointManager::key("t1", "a"), "t1::a");
}

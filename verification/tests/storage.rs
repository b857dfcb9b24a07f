use doc_storage::{DocRecord, SqliteDocStorage, StorageError};

fn snapshot(doc_id: &str, data: Vec<u8>, timestamp: i64) -> DocRecord {
    DocRecord {
        doc_id: doc_id.to_string(),
        data,
        timestamp,
    }
}

#[test]
fn init_tables() {
    let mut storage = SqliteDocStorage::new();

    storage.set_doc_snapshot(snapshot("test", vec![0, 0], 1000));

    let result = storage.get_doc_snapshot("test".to_string());

    assert!(result.is_some());
}

#[test]
fn push_updates() {
    let mut storage = SqliteDocStorage::new();

    let updates = vec![vec![0, 0], vec![0, 1], vec![1, 0], vec![1, 1]];

    for update in updates.iter() {
        storage
            .push_update("test".to_string(), update.clone())
            .unwrap();
    }

    let result = storage.get_doc_updates("test".to_string());

    assert_eq!(result.len(), 4);
    assert_eq!(
        result.iter().map(|u| u.data.clone()).collect::<Vec<_>>(),
        updates
    );
}

#[test]
fn get_doc_snapshot() {
    let mut storage = SqliteDocStorage::new();

    let none = storage.get_doc_snapshot("test".to_string());

    assert!(none.is_none());

    storage.set_doc_snapshot(snapshot("test", vec![0, 0], 1000));

    let result = storage.get_doc_snapshot("test".to_string());

    assert!(result.is_some());
    assert_eq!(result.unwrap().data, vec![0, 0]);
}

#[test]
fn set_doc_snapshot() {
    let mut storage = SqliteDocStorage::new();

    storage.set_doc_snapshot(snapshot("test", vec![0, 0], 1000));

    let result = storage.get_doc_snapshot("test".to_string());

    assert!(result.is_some());
    assert_eq!(result.unwrap().data, vec![0, 0]);

    // can't update because its timestamp is older
    storage.set_doc_snapshot(snapshot("test", vec![0, 1], 0));

    let result = storage.get_doc_snapshot("test".to_string());

    assert!(result.is_some());
    assert_eq!(result.unwrap().data, vec![0, 0]);
}

#[test]
fn get_doc_clocks() {
    let mut storage = SqliteDocStorage::new();

    let clocks = storage.get_doc_clocks(None);

    assert_eq!(clocks.len(), 0);

    let mut latest: i64 = 0;
    for i in 1..5u32 {
        let t = storage
            .push_update(format!("test_{i}"), vec![0, 0])
            .unwrap();
        latest = latest.max(t);
    }

    let clocks = storage.get_doc_clocks(None);

    assert_eq!(clocks.len(), 4);
    assert_eq!(
        clocks.iter().map(|c| c.doc_id.as_str()).collect::<Vec<_>>(),
        vec!["test_1", "test_2", "test_3", "test_4"]
    );

    let clocks = storage.get_doc_clocks(Some(latest));

    assert_eq!(clocks.len(), 0);
}

#[test]
fn mark_updates_merged() {
    let mut storage = SqliteDocStorage::new();

    let updates = [vec![0, 0], vec![0, 1], vec![1, 0], vec![1, 1]];

    for update in updates.iter() {
        storage
            .push_update("test".to_string(), update.clone())
            .unwrap();
    }

    let updates = storage.get_doc_updates("test".to_string());

    let result = storage.mark_updates_merged(
        "test".to_string(),
        updates
            .iter()
            .skip(1)
            .map(|u| u.created_at)
            .collect::<Vec<_>>(),
    );

    assert_eq!(result, 3);

    let updates = storage.get_doc_updates("test".to_string());

    assert_eq!(updates.len(), 1);
}

#[test]
fn duplicate_timestamp_is_an_error() {
    let mut storage = SqliteDocStorage::new();

    assert!(storage
        .push_update_at("test".to_string(), vec![1], 7)
        .is_ok());
    assert_eq!(
        storage.push_update_at("test".to_string(), vec![2], 7),
        Err(StorageError)
    );

    // the failed push changed nothing
    let updates = storage.get_doc_updates("test".to_string());
    assert_eq!(updates.len(), 1);
    assert_eq!(updates[0].data, vec![1]);
}

#[test]
fn stale_write_is_rejected() {
    let mut storage = SqliteDocStorage::new();

    assert!(storage.set_doc_snapshot(snapshot("test", vec![0], 10)));
    assert!(!storage.set_doc_snapshot(snapshot("test", vec![1], 5)));
    assert_eq!(
        storage.get_doc_snapshot("test".to_string()).unwrap().data,
        vec![0]
    );

    // a tie favors the new write
    assert!(storage.set_doc_snapshot(snapshot("test", vec![2], 10)));
    assert_eq!(
        storage.get_doc_snapshot("test".to_string()).unwrap().data,
        vec![2]
    );
}

#[test]
fn retirement_is_idempotent() {
    let mut storage = SqliteDocStorage::new();

    for t in [1, 2, 3] {
        storage
            .push_update_at("test".to_string(), vec![t as u8], t)
            .unwrap();
    }

    let first = storage.mark_updates_merged("test".to_string(), vec![1, 2, 3]);
    assert_eq!(first, 3);

    let second = storage.mark_updates_merged("test".to_string(), vec![1, 2, 3]);
    assert_eq!(second, 0);
}

#[test]
fn deletion_removes_every_row() {
    let mut storage = SqliteDocStorage::new();

    storage
        .push_update_at("gone".to_string(), vec![1], 1)
        .unwrap();
    storage.set_doc_snapshot(snapshot("gone", vec![1], 1));
    storage
        .push_update_at("kept".to_string(), vec![2], 2)
        .unwrap();
    storage.set_doc_snapshot(snapshot("kept", vec![2], 2));

    storage.delete_doc("gone".to_string());

    assert!(storage.get_doc_snapshot("gone".to_string()).is_none());
    assert_eq!(storage.get_doc_updates("gone".to_string()).len(), 0);
    let clocks = storage.get_doc_clocks(None);
    assert!(clocks.iter().all(|c| c.doc_id != "gone"));

    // the other document is untouched
    assert!(storage.get_doc_snapshot("kept".to_string()).is_some());
    assert_eq!(storage.get_doc_updates("kept".to_string()).len(), 1);
    assert_eq!(clocks.len(), 1);
    assert_eq!(clocks[0].doc_id, "kept");

    // deleting a document with no rows is a quiet no-op
    storage.delete_doc("gone".to_string());
}

#[test]
fn checkpoint_filter_is_strict() {
    let mut storage = SqliteDocStorage::new();

    for (d, t) in [("a", 1), ("b", 2), ("c", 3)] {
        storage.push_update_at(d.to_string(), vec![0], t).unwrap();
    }

    let clocks = storage.get_doc_clocks(Some(1));
    assert_eq!(
        clocks
            .iter()
            .map(|c| (c.doc_id.as_str(), c.timestamp))
            .collect::<Vec<_>>(),
        vec![("b", 2), ("c", 3)]
    );

    let clocks = storage.get_doc_clocks(Some(3));
    assert_eq!(clocks.len(), 0);
}

#[test]
fn clocks_come_out_ordered_by_doc_id() {
    let mut storage = SqliteDocStorage::new();

    for (d, t) in [("beta", 1), ("alpha", 2), ("gamma", 3), ("alp", 4)] {
        storage.push_update_at(d.to_string(), vec![0], t).unwrap();
    }

    let clocks = storage.get_doc_clocks(None);
    assert_eq!(
        clocks.iter().map(|c| c.doc_id.as_str()).collect::<Vec<_>>(),
        vec!["alp", "alpha", "beta", "gamma"]
    );
}

#[test]
fn clock_follows_the_last_push() {
    let mut storage = SqliteDocStorage::new();

    storage
        .push_update_at("test".to_string(), vec![0], 5)
        .unwrap();
    storage
        .push_update_at("test".to_string(), vec![1], 3)
        .unwrap();

    // last write wins, even when it is older
    let clocks = storage.get_doc_clocks(None);
    assert_eq!(clocks.len(), 1);
    assert_eq!(clocks[0].timestamp, 3);
}

#[test]
fn push_returns_the_stored_timestamp() {
    let mut storage = SqliteDocStorage::new();

    let t = storage.push_update("test".to_string(), vec![9]).unwrap();

    let updates = storage.get_doc_updates("test".to_string());
    assert_eq!(updates.len(), 1);
    assert_eq!(updates[0].created_at, t);
    assert_eq!(updates[0].doc_id, "test");

    let clocks = storage.get_doc_clocks(None);
    assert_eq!(clocks.len(), 1);
    assert_eq!(clocks[0].timestamp, t);
}

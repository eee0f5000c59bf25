use rustaria::chunk::BlockDesc;
use rustaria::registry::{Id, RegistryError, Storage};

fn desc(collision: bool) -> BlockDesc {
    BlockDesc { collision }
}

#[test]
fn storage_builds_from_shuffled_contiguous_ids() {
    let pairs = vec![
        (Id::new(2), desc(true)),
        (Id::new(0), desc(false)),
        (Id::new(1), desc(true)),
    ];
    let storage: Storage<BlockDesc, BlockDesc> = Storage::from_pairs(pairs).unwrap();
    assert_eq!(storage.len(), 3);
    assert_eq!(storage.get(Id::new(0)).collision, false);
    assert_eq!(storage.get(Id::new(1)).collision, true);
    assert_eq!(storage.get(Id::new(2)).collision, true);
}

#[test]
fn storage_iterates_in_ascending_id_order() {
    let pairs = vec![
        (Id::new(1), desc(true)),
        (Id::new(0), desc(false)),
    ];
    let storage: Storage<BlockDesc, BlockDesc> = Storage::from_pairs(pairs).unwrap();
    let mut iter = storage.iter();
    let mut seen: Vec<(usize, bool)> = Vec::new();
    while let Some((id, value)) = iter.next() {
        seen.push((id.index(), value.collision));
    }
    assert_eq!(seen, vec![(0, false), (1, true)]);
}

#[test]
fn storage_rejects_skipped_id() {
    let pairs = vec![
        (Id::new(0), desc(false)),
        (Id::new(1), desc(false)),
        (Id::new(3), desc(false)),
    ];
    let r: Result<Storage<BlockDesc, BlockDesc>, _> = Storage::from_pairs(pairs);
    assert_eq!(r.err().unwrap(), RegistryError::SkippedId);
}

#[test]
fn storage_rejects_duplicate_id() {
    let pairs = vec![
        (Id::new(0), desc(false)),
        (Id::new(0), desc(true)),
        (Id::new(1), desc(false)),
    ];
    let r: Result<Storage<BlockDesc, BlockDesc>, _> = Storage::from_pairs(pairs);
    assert_eq!(r.err().unwrap(), RegistryError::DuplicateId);
}

#[test]
fn storage_rejects_nonzero_start() {
    let pairs = vec![(Id::new(1), desc(false)), (Id::new(2), desc(false))];
    let r: Result<Storage<BlockDesc, BlockDesc>, _> = Storage::from_pairs(pairs);
    assert_eq!(r.err().unwrap(), RegistryError::NonZeroStart);
}

#[test]
fn storage_reports_a_duplicate_before_a_skip() {
    let pairs = vec![
        (Id::new(0), desc(false)),
        (Id::new(5), desc(false)),
        (Id::new(5), desc(true)),
    ];
    let r: Result<Storage<BlockDesc, BlockDesc>, _> = Storage::from_pairs(pairs);
    assert_eq!(r.err().unwrap(), RegistryError::DuplicateId);
}

#[test]
fn storage_accepts_empty() {
    let pairs: Vec<(Id<BlockDesc>, BlockDesc)> = Vec::new();
    let storage: Storage<BlockDesc, BlockDesc> = Storage::from_pairs(pairs).unwrap();
    assert_eq!(storage.len(), 0);
}

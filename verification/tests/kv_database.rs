use raft_kv::kv::btree::branch_node::BranchPage;
use raft_kv::kv::btree::leaf_node::LeafPage;
use raft_kv::kv::btree::node::page_is_sound;
use raft_kv::kv::btree::tree::Tree;
use raft_kv::kv::db::{header_len, validate_page_size, Database, Recovery, RecoveryStep};
use raft_kv::kv::error::Error;
use raft_kv::kv::pages::header::DbHeader;
use raft_kv::kv::pages::page::Page;
use raft_kv::kv::transactions::read_transaction::{ReadStep, ReadTransaction};
use raft_kv::kv::transactions::write_transaction::{PathStep, WriteTransaction};
use std::collections::BTreeMap;

const PAGE_SIZE: u64 = 4096;

/// A file in memory.
#[derive(Clone)]
struct Disk {
    bytes: Vec<u8>,
}

impl Disk {
    fn len(&self) -> u64 {
        self.bytes.len() as u64
    }

    fn grow(&mut self, pages: u64) -> u64 {
        self.bytes.resize((self.len() + pages * PAGE_SIZE) as usize, 0);
        self.len() / PAGE_SIZE
    }

    fn read(&self, offset: u64, len: usize) -> Vec<u8> {
        self.bytes[offset as usize..offset as usize + len].to_vec()
    }

    fn write(&mut self, offset: u64, data: &[u8]) {
        self.bytes[offset as usize..offset as usize + data.len()].copy_from_slice(data);
    }
}

struct Store {
    disk: Disk,
    db: Database,
}

fn create() -> Store {
    let (mut page_io, file) = Database::open_new(PAGE_SIZE, 64).unwrap();
    let mut disk = Disk { bytes: Vec::new() };
    disk.grow(file.page_count);
    for page in [file.header_page, file.root_page] {
        let offset = page_io.write_page(&page).unwrap();
        disk.write(offset, page.data());
        page_io.finish_write(page);
    }
    let db = Database::from_parts(disk.len(), page_io, file.header);
    Store { disk, db }
}

fn open(disk: Disk) -> Result<Store, Error> {
    let header_bytes = disk.read(0, header_len(disk.len())?);
    let (mut page_io, header) = Database::open_existing(&header_bytes, 64)?;
    let mut recovery = Recovery::begin(disk.len(), header)?;
    let mut loaded = None;
    let header = loop {
        match recovery.recover_header(&mut page_io, loaded)? {
            RecoveryStep::Done(header) => break header,
            RecoveryStep::Moved => loaded = None,
            RecoveryStep::Load { offset, len, .. } => loaded = Some(disk.read(offset, len)),
        }
    };
    let db = Database::from_parts(disk.len(), page_io, header);
    Ok(Store { disk, db })
}

impl Store {
    fn insert(&mut self, transaction: &mut WriteTransaction, key: &[u8], value: &[u8]) -> Result<(), Error> {
        let oldest = self.db.read_tracker.oldest_active_transaction();
        let mut path = transaction.begin_insert()?;
        let mut loaded = None;
        loop {
            assert!(!path.has_loop());
            match transaction.advance(&mut self.db.page_manager, oldest, &mut path, loaded, key)? {
                PathStep::Reached => break,
                PathStep::Moved => loaded = None,
                PathStep::Load { offset, len, .. } => loaded = Some(self.disk.read(offset, len)),
            }
        }
        assert!(Tree::can_insert(&self.db.page_manager, path.as_pages(), key, value));
        transaction.insert(&mut self.db.page_manager, oldest, &path, key, value)?;
        while let Some(pages) = self.db.page_manager.growth() {
            let count = self.disk.grow(pages);
            self.db.page_manager.reserve(count);
        }
        Ok(())
    }

    fn write(&mut self, page: Page) {
        let offset = self.db.page_manager.write_page(&page).unwrap();
        self.disk.write(offset, page.data());
        self.db.page_manager.finish_write(page);
    }

    fn commit(&mut self, transaction: WriteTransaction) -> Result<(), Error> {
        let mut pending = transaction.commit()?;
        while let Some(page) = pending.next_page() {
            self.write(page);
        }
        let (header, header_page) = self.db.prepare_commit(&pending);
        self.write(header_page);
        self.db.finish_commit(pending, header);
        Ok(())
    }

    fn put(&mut self, key: &[u8], value: &[u8]) {
        let mut transaction = self.db.begin_write();
        self.insert(&mut transaction, key, value).unwrap();
        self.commit(transaction).unwrap();
    }

    fn read(&mut self, transaction: &ReadTransaction, key: &[u8]) -> Option<Vec<u8>> {
        let mut lookup = transaction.begin();
        let mut loaded = None;
        loop {
            match transaction.read(&mut self.db.page_manager, &mut lookup, loaded, key).unwrap() {
                ReadStep::Found(value) => return value,
                ReadStep::Moved => loaded = None,
                ReadStep::Load { offset, len, .. } => loaded = Some(self.disk.read(offset, len)),
            }
        }
    }

    fn page(&self, page_id: u64) -> Vec<u8> {
        self.disk.read(page_id * PAGE_SIZE, PAGE_SIZE as usize)
    }

    fn keys(&self, page_id: u64) -> Vec<Vec<u8>> {
        let page = self.page(page_id);
        let leaf = LeafPage::from_page(&page).unwrap();
        (0..leaf.num_pairs()).map(|i| leaf.entry_key(i).to_vec()).collect()
    }

    fn children(&self, page_id: u64) -> Vec<(Vec<u8>, u64)> {
        let page = self.page(page_id);
        let branch = BranchPage::from_page(&page).unwrap();
        (0..branch.num_entries())
            .map(|i| (branch.entry_key(i).to_vec(), branch.child_page_id_at_index(i)))
            .collect()
    }

    fn get(&mut self, key: &[u8]) -> Option<Vec<u8>> {
        let transaction = self.db.begin_read();
        let value = self.read(&transaction, key);
        self.db.end_read(&transaction);
        value
    }
}

fn database_text(error: Error) -> String {
    match error {
        Error::DatabaseError(text) => text,
        other => panic!("expected a database error, got {other:?}"),
    }
}

/// Numbers that look random.
fn scatter(seed: &mut u64) -> u64 {
    *seed = seed.wrapping_mul(6364136223846793005).wrapping_add(1442695040888963407);
    *seed >> 33
}

#[test]
fn new_database_is_empty() {
    let mut store = create();
    assert_eq!(store.disk.len(), 2 * PAGE_SIZE);
    assert_eq!(store.get(b"key"), None);
    assert_eq!(store.get(b""), None);
    assert_eq!(open(store.disk.clone()).unwrap().get(b"key"), None);
}

#[test]
fn read_gives_back_what_was_written() {
    let mut store = create();
    store.put(b"one", b"one");
    assert_eq!(store.get(b"one"), Some(b"one".to_vec()));
    store.put(b"one", b"two");
    assert_eq!(store.get(b"one"), Some(b"two".to_vec()));
    store.put(b"", b"");
    assert_eq!(store.get(b""), Some(Vec::new()));
    assert_eq!(store.get(b"on"), None);
    let mut again = open(store.disk.clone()).unwrap();
    assert_eq!(again.get(b"one"), Some(b"two".to_vec()));
    assert_eq!(again.get(b""), Some(Vec::new()));
}

#[test]
fn root_is_known_by_its_checksum() {
    let mut store = create();
    store.put(b"key", b"value");
    let slot = store.db.commit.active_slot();
    let root = store.disk.read(slot.root_page_id * PAGE_SIZE, PAGE_SIZE as usize);
    assert_eq!(slot.root_page_checksum, twox_hash::XxHash3_128::oneshot(&root));
    assert_eq!(slot.transaction_id, 1);
    assert_eq!(slot.next_page_id, 3);
}

#[test]
fn many_pairs_survive_splits_and_reopening() {
    let mut store = create();
    let mut model = BTreeMap::new();
    let mut seed = 7;
    for round in 0..20 {
        let mut transaction = store.db.begin_write();
        for _ in 0..60 {
            let key = format!("key-{:05}", scatter(&mut seed) % 900).into_bytes();
            let value = vec![round as u8; (scatter(&mut seed) % 200) as usize];
            store.insert(&mut transaction, &key, &value).unwrap();
            model.insert(key, value);
        }
        store.commit(transaction).unwrap();
    }
    for (key, value) in &model {
        assert_eq!(store.get(key).as_ref(), Some(value));
    }
    let mut again = open(store.disk.clone()).unwrap();
    for (key, value) in &model {
        assert_eq!(again.get(key).as_ref(), Some(value));
    }
    for number in 900..950 {
        assert_eq!(again.get(format!("key-{number:05}").as_bytes()), None);
    }
}

#[test]
fn deep_trees_are_searched_and_changed() {
    let mut store = create();
    for step in 0..400u32 {
        let number = step * 37 % 400;
        let mut key = vec![b'k'; 500];
        key.extend_from_slice(&number.to_be_bytes());
        store.put(&key, &number.to_le_bytes());
    }
    let mut again = open(store.disk.clone()).unwrap();
    for number in 0..400u32 {
        let mut key = vec![b'k'; 500];
        key.extend_from_slice(&number.to_be_bytes());
        assert_eq!(store.get(&key), Some(number.to_le_bytes().to_vec()));
        assert_eq!(again.get(&key), Some(number.to_le_bytes().to_vec()));
    }
}

#[test]
fn searches_find_sound_pages() {
    let mut store = create();
    for number in 0..200u32 {
        store.put(&number.to_be_bytes(), &[7; 100]);
    }
    let reader = store.db.begin_read();
    for number in 0..200u32 {
        let mut lookup = reader.begin();
        let mut pages = 0;
        let value = loop {
            let page = store.page(lookup.next_page_id());
            assert!(page_is_sound(&page));
            pages += 1;
            let key = number.to_be_bytes();
            match reader.read(&mut store.db.page_manager, &mut lookup, Some(page), &key).unwrap() {
                ReadStep::Found(value) => break value,
                ReadStep::Moved => {}
                ReadStep::Load { .. } => panic!("the page was passed in"),
            }
        };
        assert_eq!(value, Some(vec![7; 100]));
        assert_eq!(pages, 2);
    }
}

#[test]
fn readers_keep_their_snapshot() {
    let mut store = create();
    store.put(b"key", b"old");
    let reader = store.db.begin_read();
    for round in 0..10u8 {
        store.put(b"key", &[round]);
    }
    assert_eq!(store.read(&reader, b"key"), Some(b"old".to_vec()));
    assert_eq!(store.get(b"key"), Some(vec![9]));
    assert_eq!(reader.transaction_id(), 1);
    store.db.end_read(&reader);
    assert_eq!(store.get(b"key"), Some(vec![9]));
}

#[test]
fn every_reader_keeps_its_snapshot_over_a_run() {
    let mut store = create();
    let mut model: BTreeMap<Vec<u8>, Vec<u8>> = BTreeMap::new();
    let mut readers = Vec::new();
    let mut seed = 11;
    for round in 0..30u8 {
        readers.push((store.db.begin_read(), model.clone()));
        let mut transaction = store.db.begin_write();
        let mut draft = model.clone();
        for _ in 0..20 {
            let key = format!("key-{:03}", scatter(&mut seed) % 60).into_bytes();
            let value = vec![round; (scatter(&mut seed) % 300) as usize];
            store.insert(&mut transaction, &key, &value).unwrap();
            draft.insert(key, value);
        }
        match round % 3 {
            0 => drop(transaction),
            _ => {
                store.commit(transaction).unwrap();
                model = draft;
            }
        }
        if round % 5 == 4 {
            let (reader, _) = readers.swap_remove(readers.len() / 2);
            store.db.end_read(&reader);
        }
        for (reader, snapshot) in &readers {
            for number in 0..60 {
                let key = format!("key-{number:03}").into_bytes();
                assert_eq!(store.read(reader, &key).as_ref(), snapshot.get(&key));
            }
        }
    }
}

#[test]
fn commit_shows_all_that_was_stored() {
    let mut store = create();
    store.put(b"a", b"0");
    store.put(b"d", b"4");
    let mut transaction = store.db.begin_write();
    let all: [&[u8]; 4] = [b"a", b"b", b"c", b"d"];
    for (key, value) in [(b"a", b"1"), (b"b", b"2"), (b"a", b"3"), (b"b", b"5"), (b"a", b"6")] {
        store.insert(&mut transaction, key, value).unwrap();
        let found: Vec<_> = all.iter().map(|key| store.get(key)).collect();
        assert_eq!(found, vec![Some(b"0".to_vec()), None, None, Some(b"4".to_vec())]);
    }
    let before = store.db.begin_read();
    store.commit(transaction).unwrap();
    let found: Vec<_> = all.iter().map(|key| store.get(key)).collect();
    assert_eq!(
        found,
        vec![Some(b"6".to_vec()), Some(b"5".to_vec()), None, Some(b"4".to_vec())]
    );
    assert_eq!(store.read(&before, b"a"), Some(b"0".to_vec()));
    assert_eq!(store.read(&before, b"b"), None);
    store.db.end_read(&before);
}

#[test]
fn uncommitted_changes_are_not_seen() {
    let mut store = create();
    store.put(b"key", b"old");
    let mut transaction = store.db.begin_write();
    store.insert(&mut transaction, b"key", b"new").unwrap();
    assert_eq!(store.get(b"key"), Some(b"old".to_vec()));
    drop(transaction);
    assert_eq!(store.get(b"key"), Some(b"old".to_vec()));
    assert_eq!(open(store.disk.clone()).unwrap().get(b"key"), Some(b"old".to_vec()));
}

#[test]
fn transaction_sees_its_own_changes() {
    let mut store = create();
    let mut transaction = store.db.begin_write();
    let root = transaction.get_root_page();
    store.insert(&mut transaction, b"a", b"1").unwrap();
    let changed = transaction.get_root_page();
    assert_ne!(changed, root);
    store.insert(&mut transaction, b"b", b"2").unwrap();
    store.insert(&mut transaction, b"a", b"3").unwrap();
    assert_eq!(transaction.get_root_page(), changed);
    store.commit(transaction).unwrap();
    assert_eq!(store.get(b"a"), Some(b"3".to_vec()));
    assert_eq!(store.get(b"b"), Some(b"2".to_vec()));
}

#[test]
fn commit_survives_partial_writes() {
    let mut store = create();
    store.put(b"key", b"old");
    let mut transaction = store.db.begin_write();
    store.insert(&mut transaction, b"key", b"new").unwrap();
    let mut pending = transaction.commit().unwrap();
    let mut disks = vec![store.disk.clone()];
    while let Some(page) = pending.next_page() {
        store.write(page);
        disks.push(store.disk.clone());
    }
    for disk in disks {
        assert_eq!(open(disk).unwrap().get(b"key"), Some(b"old".to_vec()));
    }
    let (header, header_page) = store.db.prepare_commit(&pending);
    store.write(header_page);
    assert_eq!(open(store.disk.clone()).unwrap().get(b"key"), Some(b"new".to_vec()));
    store.db.finish_commit(pending, header);
    assert_eq!(store.get(b"key"), Some(b"new".to_vec()));
}

#[test]
fn damaged_commit_falls_back_to_the_one_before() {
    let mut store = create();
    store.put(b"key", b"old");
    store.put(b"key", b"new");
    let slot = store.db.commit.active_slot();
    let mut disk = store.disk.clone();
    disk.bytes[(slot.root_page_id * PAGE_SIZE + 100) as usize] ^= 1;
    let mut recovered = open(disk).unwrap();
    assert_eq!(recovered.get(b"key"), Some(b"old".to_vec()));
    recovered.put(b"key", b"newer");
    assert_eq!(open(recovered.disk.clone()).unwrap().get(b"key"), Some(b"newer".to_vec()));
}

#[test]
fn two_damaged_commits_cannot_be_recovered() {
    let mut store = create();
    store.put(b"key", b"value");
    let mut disk = store.disk.clone();
    disk.bytes[(PAGE_SIZE + 100) as usize] ^= 1;
    disk.bytes[(2 * PAGE_SIZE + 100) as usize] ^= 1;
    assert_eq!(database_text(open(disk).err().unwrap()), "Checksum mismatch for page 1");
}

#[test]
fn damage_below_the_root_is_found() {
    let mut store = create();
    for number in 0..200u32 {
        store.put(&number.to_be_bytes(), &[7; 100]);
    }
    let slot = store.db.commit.active_slot();
    let mut disk = store.disk.clone();
    let pages = slot.next_page_id;
    let mut refused = 0;
    for page in 1..pages {
        let at = (page * PAGE_SIZE + 4000) as usize;
        disk.bytes[at] ^= 1;
        if open(disk.clone()).is_err() {
            refused += 1;
        }
        disk.bytes[at] ^= 1;
    }
    assert!(refused > 0);
    assert!(open(disk).is_ok());
}

#[test]
fn nodes_of_unknown_kind_are_refused() {
    let mut root = vec![0; PAGE_SIZE as usize];
    root[0] = 7;
    let header = DbHeader::initial(PAGE_SIZE, twox_hash::XxHash3_128::oneshot(&root));
    let mut bytes = header.encode_page();
    bytes.extend_from_slice(&root);
    assert_eq!(database_text(open(Disk { bytes }).err().unwrap()), "invalid node type 7");
}

#[test]
fn nodes_that_count_too_many_entries_are_refused() {
    let mut root = vec![0; PAGE_SIZE as usize];
    root[8] = 200;
    let header = DbHeader::initial(PAGE_SIZE, twox_hash::XxHash3_128::oneshot(&root));
    let mut bytes = header.encode_page();
    bytes.extend_from_slice(&root);
    match open(Disk { bytes }).err().unwrap() {
        Error::ZerocopyError(text) => assert_eq!(text, "Zerocopy conversion error"),
        other => panic!("expected a conversion error, got {other:?}"),
    }
}

#[test]
fn short_files_are_refused() {
    let store = create();
    let mut disk = store.disk.clone();
    disk.bytes.truncate(103);
    assert_eq!(
        database_text(open(disk).err().unwrap()),
        "Database file size is less than header size"
    );
    let mut disk = store.disk.clone();
    disk.bytes.truncate(4095);
    assert_eq!(
        database_text(open(disk).err().unwrap()),
        "Database file size is less than page size"
    );
}

#[test]
fn small_pages_are_refused() {
    assert!(validate_page_size(4096).is_ok());
    assert_eq!(
        database_text(validate_page_size(4095).unwrap_err()),
        "page size must be at least 4096, got 4095"
    );
    assert_eq!(
        database_text(Database::open_new(100, 10).err().unwrap()),
        "page size must be at least 4096, got 100"
    );
    let mut disk = create().disk;
    disk.bytes[17] = 8;
    assert_eq!(
        database_text(open(disk).err().unwrap()),
        "page size must be at least 4096, got 2048"
    );
}

#[test]
fn failed_transactions_stay_failed() {
    let mut store = create();
    let mut transaction = store.db.begin_write();
    store.insert(&mut transaction, b"key", b"value").unwrap();
    transaction.fail();
    assert!(matches!(
        store.insert(&mut transaction, b"key", b"value"),
        Err(Error::TransactionFailed)
    ));
    assert!(matches!(store.commit(transaction), Err(Error::TransactionFailed)));
    assert_eq!(store.get(b"key"), None);
}

#[test]
fn pages_that_are_too_small_for_a_pair_are_known() {
    let mut store = create();
    let mut transaction = store.db.begin_write();
    let mut path = transaction.begin_insert().unwrap();
    while let PathStep::Moved =
        transaction.advance(&mut store.db.page_manager, None, &mut path, None, b"key").unwrap()
    {}
    assert!(path.next_page_id().is_none());
    assert_eq!(path.as_pages().len(), 1);
    let pages = &store.db.page_manager;
    assert!(Tree::can_insert(pages, path.as_pages(), b"key", &[1; 4000]));
    assert!(!Tree::can_insert(pages, path.as_pages(), b"key", &[1; 4090]));
}

#[test]
fn freed_pages_are_used_again() {
    let mut store = create();
    for round in 0..100u8 {
        store.put(b"key", &[round]);
    }
    assert!(store.db.page_manager.next_page_id() <= 4);

    let reader = store.db.begin_read();
    let before = store.db.page_manager.next_page_id();
    for round in 0..10u8 {
        store.put(b"key", &[round]);
    }
    assert!(store.db.page_manager.next_page_id() >= before + 8);
    assert_eq!(store.read(&reader, b"key"), Some(vec![99]));
    store.db.end_read(&reader);
}

#[test]
fn pages_are_taken_in_order_when_nodes_are_split() {
    let mut store = create();
    let mut transaction = store.db.begin_write();
    for key in [b"a", b"b", b"c"] {
        store.insert(&mut transaction, key, &[1; 2000]).unwrap();
    }
    assert_eq!(transaction.get_root_page(), 4);
    store.commit(transaction).unwrap();
    assert_eq!(store.children(4), vec![(b"".to_vec(), 2), (b"b".to_vec(), 3)]);
    assert_eq!(store.keys(2), vec![b"a".to_vec()]);
    assert_eq!(store.keys(3), vec![b"b".to_vec(), b"c".to_vec()]);
    assert_eq!(store.db.page_manager.next_page_id(), 5);

    let mut transaction = store.db.begin_write();
    store.insert(&mut transaction, b"b", &[9; 2000]).unwrap();
    assert_eq!(transaction.get_root_page(), 1);
    store.commit(transaction).unwrap();
    assert_eq!(
        store.children(1),
        vec![(b"".to_vec(), 2), (b"b".to_vec(), 5), (b"c".to_vec(), 6)]
    );
    assert_eq!(store.keys(5), vec![b"b".to_vec()]);
    assert_eq!(store.keys(6), vec![b"c".to_vec()]);
    assert_eq!(store.get(b"b"), Some(vec![9; 2000]));
    assert_eq!(store.db.page_manager.next_page_id(), 7);
    assert!(!store.db.page_manager.is_in_use(3));
    assert!(!store.db.page_manager.is_in_use(4));
}

#[test]
fn pages_a_reader_needs_are_not_taken() {
    let mut store = create();
    let reader = store.db.begin_read();
    store.put(b"key", b"1");
    assert_eq!(store.db.commit.active_slot().root_page_id, 2);
    store.put(b"key", b"2");
    assert_eq!(store.db.commit.active_slot().root_page_id, 3);
    assert_eq!(store.read(&reader, b"key"), None);
    store.db.end_read(&reader);
    store.put(b"key", b"3");
    assert_eq!(store.db.commit.active_slot().root_page_id, 1);
    store.put(b"key", b"4");
    assert_eq!(store.db.commit.active_slot().root_page_id, 2);
    assert_eq!(store.db.page_manager.next_page_id(), 4);
}

#[test]
fn a_page_that_is_no_node_costs_the_pages_of_the_path() {
    let mut store = create();
    let mut transaction = store.db.begin_write();
    for key in [b"a", b"b", b"c"] {
        store.insert(&mut transaction, key, &[1; 2000]).unwrap();
    }
    store.commit(transaction).unwrap();
    store.disk.bytes[3 * PAGE_SIZE as usize] = 7;
    store.db.page_manager.finish_read(3, store.disk.read(3 * PAGE_SIZE, PAGE_SIZE as usize));

    let mut transaction = store.db.begin_write();
    let error = store.insert(&mut transaction, b"b", b"value").unwrap_err();
    assert_eq!(database_text(error), "invalid node type 7");
    assert!(store.db.page_manager.is_in_use(1));
    assert_eq!(store.db.page_manager.next_page_id(), 6);
    assert!(transaction.has_copy(1) && transaction.has_copy(5));
    assert!(!transaction.has_copy(4) && !transaction.has_copy(3));
    assert!(matches!(
        store.insert(&mut transaction, b"a", b"value"),
        Err(Error::TransactionFailed)
    ));
    assert!(matches!(store.commit(transaction), Err(Error::TransactionFailed)));
    assert_eq!(store.get(b"a"), Some(vec![1; 2000]));
    store.put(b"a", b"value");
    assert_eq!(store.db.commit.active_slot().root_page_id, 6);
}

#[test]
fn giving_up_on_the_way_costs_the_pages_so_far() {
    let mut store = create();
    let mut transaction = store.db.begin_write();
    for key in [b"a", b"b", b"c"] {
        store.insert(&mut transaction, key, &[1; 2000]).unwrap();
    }
    store.commit(transaction).unwrap();

    let mut transaction = store.db.begin_write();
    let mut path = transaction.begin_insert().unwrap();
    transaction.abandon(&mut store.db.page_manager, None, &path);
    assert!(!store.db.page_manager.is_in_use(1));
    assert!(transaction.begin_insert().is_err());

    let mut transaction = store.db.begin_write();
    let step = transaction.advance(&mut store.db.page_manager, None, &mut path, None, b"b");
    assert!(matches!(step.unwrap(), PathStep::Moved));
    assert_eq!(path.next_page_id(), Some(3));
    transaction.abandon(&mut store.db.page_manager, None, &path);
    assert!(store.db.page_manager.is_in_use(1));
    assert_eq!(store.db.page_manager.next_page_id(), 5);
    assert!(transaction.has_copy(1));
    assert!(transaction.begin_insert().is_err());
}

#[test]
fn file_grows_in_batches() {
    let mut store = create();
    store.put(b"key", b"value");
    assert_eq!(store.disk.len(), (2 + 1024) * PAGE_SIZE);
    store.put(b"key", b"other");
    assert_eq!(store.disk.len(), (2 + 1024) * PAGE_SIZE);
}

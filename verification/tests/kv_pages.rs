use raft_kv::kv::bytes::{copy_within, read_u128, read_u64, to_vec, write_data_at_offset};
use raft_kv::kv::error::Error;
use raft_kv::kv::keys::{compare_keys, KeyOrder};
use raft_kv::kv::pages::header::{DbHeader, HEADER_SIZE};
use raft_kv::kv::pages::page::{Page, PageMut};
use raft_kv::kv::pages::page_allocator::{PageAllocator, PAGE_ALLOCATION_BATCH};
use raft_kv::kv::pages::page_cache::PageCache;
use raft_kv::kv::pages::page_io::{PageIO, PageRead};
use raft_kv::kv::pages::page_manager::PageManager;
use raft_kv::kv::text::push_decimal;
use raft_kv::kv::transactions::dirty_pages::DirtyPageTracker;
use raft_kv::kv::transactions::read_tracker::ReadTracker;
use std::sync::Arc;

fn database_text(error: Error) -> String {
    match error {
        Error::DatabaseError(text) => text,
        other => panic!("expected a database error, got {other:?}"),
    }
}

fn zerocopy_text(error: Error) -> String {
    match error {
        Error::ZerocopyError(text) => text,
        other => panic!("expected a conversion error, got {other:?}"),
    }
}

/// A leaf without pairs.
fn sound_page(size: usize) -> Vec<u8> {
    raft_kv::kv::btree::node::get_empty_leaf_page(size)
}

#[test]
fn numbers_are_little_endian() {
    let bytes = [9, 1, 2, 0, 0, 0, 0, 0, 0x80, 7, 7, 7, 7, 7, 7, 7, 7];
    assert_eq!(read_u64(&bytes, 1), 0x8000_0000_0000_0201);
    assert_eq!(read_u64(&bytes, 0), 0x0201_09);
    let mut wide = vec![0; 20];
    write_data_at_offset(&mut wide, &[1, 2, 3, 4, 5, 6, 7, 8, 9, 10, 11, 12, 13, 14, 15, 16], 2);
    assert_eq!(read_u128(&wide, 2), 0x100f_0e0d_0c0b_0a09_0807_0605_0403_0201);
}

#[test]
fn bytes_are_moved_within_a_page() {
    let mut page = vec![1, 2, 3, 4, 5, 6];
    copy_within(&mut page, 0, 4, 2);
    assert_eq!(page, vec![1, 2, 1, 2, 3, 4]);
    assert_eq!(to_vec(&page[2..4]), vec![1, 2]);
}

#[test]
fn decimals_are_written_out() {
    let mut text = String::new();
    push_decimal(&mut text, 0);
    text.push_str(" ");
    push_decimal(&mut text, 10);
    text.push_str(" ");
    push_decimal(&mut text, 9_876_543_210);
    text.push_str(" ");
    push_decimal(&mut text, u64::MAX);
    assert_eq!(text, "0 10 9876543210 18446744073709551615");
}

#[test]
fn keys_are_in_byte_order() {
    assert!(matches!(compare_keys(b"", b""), KeyOrder::Equal));
    assert!(matches!(compare_keys(b"", b"a"), KeyOrder::Less));
    assert!(matches!(compare_keys(b"ab", b"a"), KeyOrder::Greater));
    assert!(matches!(compare_keys(b"ab", b"b"), KeyOrder::Less));
    assert!(matches!(compare_keys(&[0xff], &[0x7f, 0xff]), KeyOrder::Greater));
    assert!(matches!(compare_keys(b"key", b"key"), KeyOrder::Equal));
}

#[test]
fn header_round_trip() {
    let header = DbHeader::initial(4096, 0x0102_0304_0506_0708_090a_0b0c_0d0e_0f10)
        .with_commit(77, u128::MAX - 5, 3, 99);
    let page = header.encode_page();
    assert_eq!(page.len(), 4096);
    assert_eq!(&page[..8], b"RUSTDB01");
    assert_eq!(page[8], 1);
    assert_eq!(read_u64(&page, 16), 4096);
    assert!(page[HEADER_SIZE..].iter().all(|byte| *byte == 0));

    let parsed = DbHeader::parse(&page).unwrap();
    assert_eq!(parsed.page_size(), 4096);
    let active = parsed.active_slot();
    assert_eq!(active.root_page_id, 77);
    assert_eq!(active.root_page_checksum, u128::MAX - 5);
    assert_eq!(active.transaction_id, 3);
    assert_eq!(active.next_page_id, 99);
    let inactive = parsed.inactive_slot();
    assert_eq!(inactive.root_page_id, 1);
    assert_eq!(inactive.root_page_checksum, 0x0102_0304_0506_0708_090a_0b0c_0d0e_0f10);
    assert_eq!(inactive.transaction_id, 0);
    assert_eq!(inactive.next_page_id, 2);
}

#[test]
fn header_switch() {
    let mut header = DbHeader::initial(4096, 1).with_commit(5, 6, 7, 8);
    let active = header.active_slot().root_page_id;
    let inactive = header.inactive_slot().root_page_id;
    header.switch_to_inactive_slot();
    assert_eq!((header.active_slot().root_page_id, header.inactive_slot().root_page_id), (inactive, active));
    header.switch_to_inactive_slot();
    assert_eq!((header.active_slot().root_page_id, header.inactive_slot().root_page_id), (active, inactive));
}

#[test]
fn commits_take_turns_in_the_slots() {
    let first = DbHeader::initial(4096, 1);
    let second = first.with_commit(10, 11, 1, 12);
    let third = second.with_commit(20, 21, 2, 22);
    assert_eq!(second.inactive_slot().transaction_id, 0);
    assert_eq!(third.active_slot().root_page_id, 20);
    assert_eq!(third.inactive_slot().root_page_id, 10);
    assert_eq!(third.encode_page()[8], 0);
}

#[test]
fn damaged_headers_are_refused() {
    let page = DbHeader::initial(4096, 1).encode_page();
    assert_eq!(zerocopy_text(DbHeader::parse(&page[..HEADER_SIZE - 1]).unwrap_err()), "Zerocopy size error");
    let mut magic = page.clone();
    magic[7] = b'2';
    assert_eq!(database_text(DbHeader::parse(&magic).unwrap_err()), "invalid database header magic");
    let mut slot = page.clone();
    slot[8] = 2;
    assert_eq!(database_text(DbHeader::parse(&slot).unwrap_err()), "invalid active commit slot");
    assert!(DbHeader::parse(&page[..HEADER_SIZE]).is_ok());
}

#[test]
fn pages_hand_on_their_contents() {
    let mut page = PageMut::zeroed(4, 3);
    assert_eq!(page.data(), &[0, 0, 0]);
    page.copy_page_from(&[1, 2, 3]);
    let frozen = page.freeze();
    assert_eq!(frozen.id(), 4);
    assert_eq!(frozen.data(), &[1, 2, 3]);
    let shared = frozen.share_data();
    assert_eq!(*shared, vec![1, 2, 3]);
    assert!(Arc::ptr_eq(&shared, &frozen.into_arc()));
    assert_eq!(PageMut::with_data(9, vec![5]).into_data(), vec![5]);
}

#[test]
fn cache_keeps_the_latest_contents() {
    let mut cache = PageCache::new(100);
    assert!(cache.get(1).is_none());
    cache.insert(1, Arc::new(vec![1]));
    cache.insert(2, Arc::new(vec![2]));
    assert_eq!(*cache.get(1).unwrap(), vec![1]);
    cache.insert(1, Arc::new(vec![3]));
    assert_eq!(*cache.get(1).unwrap(), vec![3]);
    cache.remove(1);
    assert!(cache.get(1).is_none());
    assert_eq!(*cache.get(2).unwrap(), vec![2]);
}

#[test]
fn cache_is_as_large_as_it_was_asked_to_be() {
    let at_hand = |capacity: usize| {
        let mut cache = PageCache::new(capacity);
        for page_id in 0..20_000 {
            cache.insert(page_id, Arc::new(vec![1]));
        }
        (0..20_000).filter(|page_id| cache.get(*page_id).is_some()).count()
    };
    assert_eq!(at_hand(100_000), 20_000);
    assert!(at_hand(8) < 10_000);
}

#[test]
fn pages_are_read_once() {
    let mut pages = PageIO::new(4096, 10);
    assert_eq!(pages.page_size(), 4096);
    match pages.read_page(3) {
        PageRead::Load { offset, len } => assert_eq!((offset, len), (3 * 4096, 4096)),
        PageRead::Cached(_) => panic!("nothing was read yet"),
    }
    let page = pages.finish_read(3, sound_page(4096));
    assert_eq!(page.id(), 3);
    match pages.read_page(3) {
        PageRead::Cached(page) => assert_eq!(page.data(), &sound_page(4096)[..]),
        PageRead::Load { .. } => panic!("the page is at hand"),
    }
    pages.remove_page(3);
    assert!(matches!(pages.read_page(3), PageRead::Load { .. }));
}

#[test]
fn damaged_pages_are_kept_at_hand_too() {
    let mut pages = PageIO::new(4096, 10);
    let mut damaged = sound_page(4096);
    damaged[8] = 1;
    assert!(!raft_kv::kv::btree::node::page_is_sound(&damaged));
    assert_eq!(pages.finish_read(3, damaged.clone()).data(), &damaged[..]);
    match pages.read_page(3) {
        PageRead::Cached(page) => assert_eq!(page.data(), &damaged[..]),
        PageRead::Load { .. } => panic!("the page is at hand"),
    }
}

#[test]
fn what_the_cache_had_decides_how_a_page_is_read() {
    let pages = PageIO::new(4096, 10);
    match pages.read_with(7, Some(Arc::new(vec![1, 2, 3]))) {
        PageRead::Cached(page) => {
            assert_eq!(page.id(), 7);
            assert_eq!(page.data(), &[1, 2, 3]);
        }
        PageRead::Load { .. } => panic!("the page is at hand"),
    }
    match pages.read_with(7, None) {
        PageRead::Load { offset, len } => assert_eq!((offset, len), (7 * 4096, 4096)),
        PageRead::Cached(_) => panic!("the page is not at hand"),
    }
}

#[test]
fn written_pages_are_at_hand() {
    let mut pages = PageIO::new(4096, 10);
    let page = Page::new(5, Arc::new(sound_page(4096)));
    assert_eq!(pages.write_page(&page).unwrap(), 5 * 4096);
    pages.finish_write(page);
    assert!(matches!(pages.read_page(5), PageRead::Cached(_)));
}

#[test]
fn pages_of_the_wrong_size_are_refused() {
    let pages = PageIO::new(4096, 10);
    let short = Page::new(17, Arc::new(vec![0; 100]));
    assert_eq!(
        database_text(pages.write_page(&short).unwrap_err()),
        "page 17 has size 100, expected 4096"
    );
}

#[test]
fn freed_pages_are_reused_once_no_reader_needs_them() {
    let mut allocator = PageAllocator::new(10 * 4096, 4096, 5);
    assert_eq!(allocator.allocate_page_id(None), 5);
    allocator.free_page(3, 7);
    assert!(!allocator.is_in_use(3));
    assert_eq!(allocator.allocate_page_id(Some(7)), 6);
    assert_eq!(allocator.allocate_page_id(Some(8)), 3);
    assert!(allocator.is_in_use(3));
    allocator.free_page(4, 9);
    assert_eq!(allocator.allocate_page_id(None), 4);
    assert_eq!(allocator.next_page_id(), 7);
}

#[test]
fn freed_pages_are_reused_in_the_order_they_were_freed() {
    let mut allocator = PageAllocator::new(10 * 4096, 4096, 8);
    allocator.free_page(5, 2);
    allocator.free_page(3, 1);
    assert_eq!(allocator.allocate_page_id(Some(2)), 8);
    assert_eq!(allocator.allocate_page_id(Some(3)), 5);
    assert_eq!(allocator.allocate_page_id(Some(3)), 3);
}

#[test]
fn file_grows_when_its_pages_run_out() {
    let mut allocator = PageAllocator::new(3 * 4096 + 17, 4096, 2);
    assert_eq!(allocator.allocate_page_id(None), 2);
    assert_eq!(allocator.growth(), None);
    assert_eq!(allocator.allocate_page_id(None), 3);
    assert_eq!(allocator.growth(), Some(PAGE_ALLOCATION_BATCH));
    allocator.reserve(3 + 1024);
    assert_eq!(allocator.growth(), None);
}

#[test]
fn allocated_pages_are_empty_and_not_cached() {
    let mut pages = PageManager::new(PageIO::new(4096, 10), 100 * 4096, 2);
    pages.free_page(1, 1);
    pages.finish_read(1, sound_page(4096));
    let page = pages.allocate_page(None);
    assert_eq!(page.id(), 1);
    assert!(page.data().iter().all(|byte| *byte == 0));
    assert_eq!(page.data().len(), 4096);
    assert!(matches!(pages.read_page(1), PageRead::Load { .. }));
    assert_eq!(pages.next_page_id(), 2);
}

#[test]
fn oldest_reader_is_known() {
    let mut tracker = ReadTracker::new();
    assert_eq!(tracker.oldest_active_transaction(), None);
    tracker.begin_read(5);
    tracker.begin_read(3);
    tracker.begin_read(3);
    assert_eq!(tracker.oldest_active_transaction(), Some(3));
    tracker.end_read(3);
    assert_eq!(tracker.oldest_active_transaction(), Some(3));
    tracker.end_read(3);
    assert_eq!(tracker.oldest_active_transaction(), Some(5));
    tracker.end_read(4);
    tracker.end_read(5);
    assert_eq!(tracker.oldest_active_transaction(), None);
}

#[test]
fn dirty_pages_are_checked_out_and_returned() {
    let mut dirty = DirtyPageTracker::new();
    assert!(!dirty.contains(4));
    let mut page = dirty.add(PageMut::zeroed(4, 2));
    assert!(dirty.contains(4));
    assert!(dirty.peek(4).is_none());
    page.copy_page_from(&[1, 2]);
    dirty.return_page(page);
    assert_eq!(dirty.peek(4), Some(&[1u8, 2][..]));
    let page = dirty.check_out(4);
    assert_eq!(page.data(), &[1, 2]);
    dirty.return_page(page);
    let other = dirty.add(PageMut::zeroed(6, 2));
    dirty.return_page(other);
    let mut ids: Vec<u64> = dirty.into_pages().iter().map(|page| page.id()).collect();
    ids.sort();
    assert_eq!(ids, vec![4, 6]);
}

#[test]
fn an_error_carries_what_the_file_system_says() {
    let cause = std::io::Error::from(std::io::ErrorKind::UnexpectedEof);
    match Error::IoError(cause) {
        Error::IoError(error) => assert_eq!(error.kind(), std::io::ErrorKind::UnexpectedEof),
        other => panic!("expected an input error, got {other:?}"),
    }
}

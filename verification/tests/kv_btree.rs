use raft_kv::kv::btree::branch_node::{branch_has_room, BranchBuilder, BranchPage, BranchPageMutator};
use raft_kv::kv::btree::leaf_node::{leaf_has_room, LeafBuilder, LeafPage, LeafPageMutator};
use raft_kv::kv::btree::node::{get_empty_leaf_page, page_is_sound, NodeKind, NodePage};
use raft_kv::kv::btree::tree::Tree;
use raft_kv::kv::btree::tree_search::GetStep;
use raft_kv::kv::btree::tree_verify::{TreeVerifier, VerifyStep};
use raft_kv::kv::bytes::{read_u128, read_u64};
use raft_kv::kv::error::Error;
use raft_kv::kv::pages::page_io::PageIO;

fn leaf_of(pairs: &[(&[u8], &[u8])], size: usize) -> Vec<u8> {
    let mut builder = LeafBuilder::empty();
    for (key, value) in pairs {
        builder.insert(key, value);
    }
    let mut page = vec![0; size];
    builder.build_page_at_buf(&mut page);
    page
}

fn pairs_of(page: &[u8]) -> Vec<(Vec<u8>, Vec<u8>)> {
    let leaf = LeafPage::from_page(page).unwrap();
    (0..leaf.num_pairs()).map(|i| (leaf.entry_key(i).to_vec(), leaf.entry_value(i).to_vec())).collect()
}

fn children_of(page: &[u8]) -> Vec<(Vec<u8>, u64, u128)> {
    let branch = BranchPage::from_page(page).unwrap();
    (0..branch.num_entries())
        .map(|i| {
            (
                branch.entry_key(i).to_vec(),
                branch.child_page_id_at_index(i),
                branch.child_page_checksum_at_index(i),
            )
        })
        .collect()
}

fn root_of(separators: &[&[u8]], size: usize) -> Vec<u8> {
    let mut builder = BranchBuilder::new_root(10, 1000, separators[0], 11, 1001);
    for (i, separator) in separators.iter().enumerate().skip(1) {
        builder.insert(separator, 11 + i as u64, 1001 + i as u128);
    }
    let mut page = vec![0; size];
    builder.build_page_at_buf(&mut page);
    page
}

fn is_conversion(error: Error) -> bool {
    match error {
        Error::ZerocopyError(text) => text == "Zerocopy conversion error",
        _ => false,
    }
}

#[test]
fn empty_leaf_is_laid_out() {
    let page = get_empty_leaf_page(4096);
    assert_eq!(page.len(), 4096);
    assert_eq!(read_u64(&page, 0), 0);
    assert_eq!(read_u64(&page, 8), 0);
    assert_eq!(read_u64(&page, 16), 4096);
    assert!(page_is_sound(&page));
}

#[test]
fn leaf_is_laid_out_from_both_ends() {
    let page = leaf_of(&[(b"b", b"22"), (b"a", b"1")], 128);
    assert_eq!(read_u64(&page, 0), 0);
    assert_eq!(read_u64(&page, 8), 2);
    assert_eq!(read_u64(&page, 16), 123);
    assert_eq!((read_u64(&page, 24), read_u64(&page, 32)), (1, 126));
    assert_eq!((read_u64(&page, 40), read_u64(&page, 48)), (1, 127));
    assert_eq!((read_u64(&page, 56), read_u64(&page, 64)), (1, 123));
    assert_eq!((read_u64(&page, 72), read_u64(&page, 80)), (2, 124));
    assert_eq!(&page[123..], b"b22a1");
}

#[test]
fn leaf_is_searched_by_key() {
    let page = leaf_of(&[(b"b", b"2"), (b"d", b"4"), (b"f", b"")], 4096);
    let leaf = LeafPage::from_page(&page).unwrap();
    assert_eq!(leaf.get_value(b"d"), Some(&b"4"[..]));
    assert_eq!(leaf.get_value(b"f"), Some(&b""[..]));
    assert_eq!(leaf.get_value(b"e"), None);
    assert_eq!(leaf.search_entry_index(b"a"), Err(0));
    assert_eq!(leaf.search_entry_index(b"b"), Ok(0));
    assert_eq!(leaf.search_entry_index(b"e"), Err(2));
    assert_eq!(leaf.search_entry_index(b"z"), Err(3));
    assert_eq!(leaf.find_entry_index(b"f"), Some(2));
    assert_eq!(leaf.find_entry_index(b"g"), None);
    assert_eq!(leaf.metadata(0).kv_size(), 2);
}

#[test]
fn leaf_is_changed_in_place() {
    let mut leaf = LeafPageMutator::from_page(get_empty_leaf_page(200));
    for (key, value) in [(&b"m"[..], &b"13"[..]), (b"c", b"3"), (b"z", b"26"), (b"m", b"x"), (b"c", b"333")] {
        assert!(leaf.fits(key, value).unwrap());
        leaf.insert(key, value).unwrap();
    }
    let page = leaf.into_page();
    assert!(page_is_sound(&page));
    assert_eq!(
        pairs_of(&page),
        vec![
            (b"c".to_vec(), b"333".to_vec()),
            (b"m".to_vec(), b"x".to_vec()),
            (b"z".to_vec(), b"26".to_vec()),
        ]
    );
}

#[test]
fn full_leaf_takes_a_value_that_is_no_longer() {
    let page = leaf_of(&[(b"a", &[1; 10]), (b"b", &[2; 10])], 110);
    assert!(!leaf_has_room(&page, 1, 10));
    let mut leaf = LeafPageMutator::from_page(page);
    leaf.insert(b"b", &[3; 10]).unwrap();
    leaf.insert(b"a", b"4").unwrap();
    let page = leaf.into_page();
    assert!(page_is_sound(&page));
    assert_eq!(
        pairs_of(&page),
        vec![(b"a".to_vec(), b"4".to_vec()), (b"b".to_vec(), vec![3; 10])]
    );
    assert_eq!(read_u64(&page, 16), 88);
}

#[test]
fn leaf_builder_keeps_the_order_of_a_page() {
    let mut page = leaf_of(&[(b"a", b"1"), (b"b", b"22")], 128);
    let (first, second) = (page[24..56].to_vec(), page[56..88].to_vec());
    page[24..56].copy_from_slice(&second);
    page[56..88].copy_from_slice(&first);
    assert!(!page_is_sound(&page));
    let mut out = vec![0; 128];
    LeafBuilder::from_page(&page).unwrap().build_page_at_buf(&mut out);
    assert_eq!(
        pairs_of(&out),
        vec![(b"b".to_vec(), b"22".to_vec()), (b"a".to_vec(), b"1".to_vec())]
    );
    assert_eq!(&out[123..], b"a1b22");
}

#[test]
fn branch_without_children_is_laid_out() {
    let mut page = vec![0; 128];
    page[0] = 1;
    page[16] = 128;
    let mut out = vec![0; 128];
    BranchBuilder::from_page(&page).unwrap().build_page_at_buf(&mut out);
    assert_eq!(out, page);
}

#[test]
fn leaf_knows_when_it_is_full() {
    let page = get_empty_leaf_page(100);
    let leaf = LeafPageMutator::from_page(page.clone());
    assert!(leaf.fits(&[1; 20], &[2; 24]).unwrap());
    assert!(!leaf.fits(&[1; 20], &[2; 25]).unwrap());
    assert!(leaf_has_room(&page, 20, 24));
    assert!(!leaf_has_room(&page, 20, 25));
}

#[test]
fn leaf_is_split_in_the_middle() {
    let mut builder = LeafBuilder::empty();
    for key in [b"a", b"b", b"c", b"d", b"e"] {
        builder.insert(key, b"v");
    }
    assert_eq!(builder.len(), 5);
    assert!(builder.halves_fit(4096));
    assert!(!builder.halves_fit(100));
    assert_eq!(builder.separator_key(), b"c".to_vec());
    let mut left = vec![0; 4096];
    let mut right = vec![0; 4096];
    assert_eq!(builder.build_split_pages(&mut left, &mut right), b"c".to_vec());
    let keys = |page: &[u8]| pairs_of(page).into_iter().map(|pair| pair.0).collect::<Vec<_>>();
    assert_eq!(keys(&left), vec![b"a".to_vec(), b"b".to_vec()]);
    assert_eq!(keys(&right), vec![b"c".to_vec(), b"d".to_vec(), b"e".to_vec()]);
}

#[test]
fn leaf_builder_takes_over_a_page() {
    let page = leaf_of(&[(b"a", b"1"), (b"c", b"3")], 4096);
    let mut builder = LeafBuilder::from_page(&page).unwrap();
    builder.insert(b"b", b"2");
    builder.insert(b"c", b"4");
    let mut rebuilt = vec![0xee; 4096];
    builder.build_page_at_buf(&mut rebuilt);
    assert_eq!(pairs_of(&rebuilt).len(), 3);
    assert_eq!(LeafPage::from_page(&rebuilt).unwrap().get_value(b"c"), Some(&b"4"[..]));
}

#[test]
fn branch_is_laid_out() {
    let page = root_of(&[b"m"], 200);
    assert_eq!(read_u64(&page, 0), 1);
    assert_eq!(read_u64(&page, 8), 2);
    assert_eq!(read_u64(&page, 16), 199);
    assert_eq!((read_u64(&page, 24), read_u64(&page, 40)), (0, 10));
    assert_eq!(read_u128(&page, 48), 1000);
    assert_eq!((read_u64(&page, 64), read_u64(&page, 72), read_u64(&page, 80)), (1, 199, 11));
    assert_eq!(read_u128(&page, 88), 1001);
    assert_eq!(page[199], b'm');
    assert!(page_is_sound(&page));
}

#[test]
fn branch_leads_to_the_child_for_a_key() {
    let page = root_of(&[b"f", b"m", b"t"], 4096);
    let branch = BranchPage::from_page(&page).unwrap();
    assert_eq!(branch.num_entries(), 4);
    for (key, child) in [("", 10), ("a", 10), ("f", 11), ("l", 11), ("m", 12), ("s", 12), ("t", 13), ("z", 13)] {
        assert_eq!(branch.child_page_id_for_key(key.as_bytes()), child);
        assert_eq!(branch.child_index_for_key(key.as_bytes()) as u64, child - 10);
    }
    assert_eq!(branch.search_entry_index(b"m"), Ok(2));
    assert_eq!(branch.search_entry_index(b"n"), Err(3));
}

#[test]
fn branch_is_changed_in_place() {
    let mut branch = BranchPageMutator::from_page(root_of(&[b"m"], 4096));
    assert!(branch.fits(b"t").unwrap());
    branch.insert(b"t", 20, 2000).unwrap();
    branch.insert(b"c", 30, 3000).unwrap();
    assert_eq!(branch.child_page_for_key(b"d").unwrap(), (1, 30));
    branch.set_child_at_index(0, 40, 4000).unwrap();
    let page = branch.into_page();
    assert!(page_is_sound(&page));
    assert_eq!(
        children_of(&page),
        vec![
            (b"".to_vec(), 40, 4000),
            (b"c".to_vec(), 30, 3000),
            (b"m".to_vec(), 11, 1001),
            (b"t".to_vec(), 20, 2000),
        ]
    );
}

#[test]
fn branch_knows_when_it_is_full() {
    let page = root_of(&[b"m"], 145);
    let branch = BranchPageMutator::from_page(page.clone());
    assert!(!branch.fits(b"t").unwrap());
    assert!(branch.fits(b"").unwrap());
    assert!(branch_has_room(&page, 0));
    assert!(!branch_has_room(&page, 1));
}

#[test]
fn branch_is_split_in_the_middle() {
    let page = root_of(&[b"f", b"m", b"t"], 4096);
    let mut builder = BranchBuilder::from_page(&page).unwrap();
    builder.insert(b"x", 99, 9900);
    assert_eq!(builder.len(), 5);
    assert!(builder.halves_fit(4096));
    assert_eq!(builder.separator_key(), b"m".to_vec());
    let mut left = vec![0; 4096];
    let mut right = vec![0; 4096];
    assert_eq!(builder.build_split_pages(&mut left, &mut right), b"m".to_vec());
    assert_eq!(children_of(&left).len(), 2);
    let right = children_of(&right);
    assert_eq!(right.len(), 3);
    assert_eq!((right[0].1, right[1].1, right[2].1), (12, 13, 99));
    assert_eq!(right[1].0, b"t".to_vec());
}

#[test]
fn node_kinds_are_told_apart() {
    assert_eq!(NodeKind::parse(&get_empty_leaf_page(64)).unwrap(), NodeKind::Leaf);
    assert_eq!(NodeKind::parse(&root_of(&[b"m"], 200)).unwrap(), NodeKind::Branch);
    assert!(is_conversion(NodeKind::parse(&[0; 7]).unwrap_err()));
    let mut strange = vec![0; 64];
    strange[1] = 1;
    match NodeKind::parse(&strange).unwrap_err() {
        Error::DatabaseError(text) => assert_eq!(text, "invalid node type 256"),
        other => panic!("expected a database error, got {other:?}"),
    }
}

#[test]
fn pages_that_do_not_hold_their_entries_do_not_parse() {
    let mut leaf = get_empty_leaf_page(87);
    assert!(LeafPage::from_page(&leaf[..23]).is_err());
    leaf[8] = 1;
    assert!(LeafPage::from_page(&leaf).is_ok());
    leaf[8] = 2;
    assert!(is_conversion(LeafPage::from_page(&leaf).err().unwrap()));
    assert!(is_conversion(NodePage::from_page(&leaf).err().unwrap()));
    let mut branch = root_of(&[b"m"], 200);
    branch[8] = 5;
    assert!(is_conversion(BranchPage::from_page(&branch).err().unwrap()));
    let mut huge = get_empty_leaf_page(64);
    huge[8..16].copy_from_slice(&[0xff; 8]);
    assert!(LeafPage::from_page(&huge).is_err());
}

#[test]
fn damaged_nodes_are_not_sound() {
    let page = leaf_of(&[(b"a", b"1"), (b"b", b"2")], 128);
    assert!(page_is_sound(&page));
    let mut unsorted = page.clone();
    unsorted[126] = b'z';
    assert!(!page_is_sound(&unsorted));
    let mut beyond = page.clone();
    beyond[24] = 200;
    assert!(!page_is_sound(&beyond));
    let mut branch = root_of(&[b"f", b"m"], 200);
    assert!(page_is_sound(&branch));
    branch[199] = b'z';
    assert!(!page_is_sound(&branch));
    assert!(page_is_sound(&[9; 64]));
}

#[test]
fn search_goes_one_page_at_a_time() {
    let branch = root_of(&[b"m"], 4096);
    match Tree::get_step(&branch, b"q").unwrap() {
        GetStep::Child(child) => assert_eq!(child, 11),
        GetStep::Value(_) => panic!("expected to go on"),
    }
    let leaf = leaf_of(&[(b"q", b"17")], 4096);
    match Tree::get_step(&leaf, b"q").unwrap() {
        GetStep::Value(value) => assert_eq!(value, Some(b"17".to_vec())),
        GetStep::Child(_) => panic!("expected to be done"),
    }
    assert!(Tree::get_step(&[3; 4096], b"q").is_err());
}

#[test]
fn tree_is_verified_page_by_page() {
    let leaf = leaf_of(&[(b"a", b"1")], 4096);
    let checksum = twox_hash::XxHash3_128::oneshot(&leaf);
    let builder = BranchBuilder::new_root(4, checksum, b"m", 5, checksum);
    let mut root = vec![0; 4096];
    builder.build_page_at_buf(&mut root);

    for damaged in [None, Some(3), Some(4), Some(5)] {
        let mut pages = PageIO::new(4096, 10);
        let mut verification = TreeVerifier::new(3, twox_hash::XxHash3_128::oneshot(&root));
        let mut loaded = None;
        let mut asked = Vec::new();
        let result = loop {
            match verification.verify_pages(&mut pages, loaded) {
                Ok(VerifyStep::Done) => break Ok(()),
                Ok(VerifyStep::Moved) => loaded = None,
                Ok(VerifyStep::Load { page_id, offset, len }) => {
                    assert_eq!((offset, len), (page_id * 4096, 4096));
                    asked.push(page_id);
                    let mut data = if page_id == 3 { root.clone() } else { leaf.clone() };
                    if damaged == Some(page_id) {
                        data[2000] ^= 1;
                    }
                    loaded = Some(data);
                }
                Err(error) => break Err(error),
            }
        };
        match damaged {
            None => {
                assert!(result.is_ok());
                assert_eq!(asked, vec![3, 4, 5]);
            }
            Some(page_id) => match result.unwrap_err() {
                Error::DatabaseError(text) => {
                    assert_eq!(text, format!("Checksum mismatch for page {page_id}"))
                }
                other => panic!("expected a database error, got {other:?}"),
            },
        }
    }
}

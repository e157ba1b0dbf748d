use pallet_posts::pallet::{ensure_signed, POST_ENCRYPTED_WEIGHT, POST_WEIGHT};
use pallet_posts::v1;
use pallet_posts::{Content, Entry, Error, Event, Origin, Pallet, Post, Version};

const ALICE: u64 = 1;
const BOB: u64 = 2;

fn legacy_post(n: u8) -> v1::Post {
    v1::Post { title: vec![b't', n], content: vec![n; 5], author: ALICE + u64::from(n) }
}

#[test]
fn new_store_is_empty() {
    let store = Pallet::new();
    assert_eq!(store.next_post(), 0);
    assert!(store.events().is_empty());
    assert!(!store.contains(0));
    assert_eq!(store.entry(0), None);
    assert_eq!(store.get(0), Err(Error::NotFound));
}

#[test]
fn post_stores_plain_record_under_id_zero() {
    let mut store = Pallet::new();
    assert_eq!(store.post(Origin::Signed(ALICE), b"hi".to_vec(), b"world".to_vec()), Ok(()));
    assert_eq!(
        store.get(0),
        Ok(Post { title: b"hi".to_vec(), content: Content::Plain(b"world".to_vec()), author: ALICE })
    );
    assert_eq!(store.next_post(), 1);
    assert_eq!(store.events(), &vec![Event::RecordStored(0, ALICE)]);
}

#[test]
fn post_writes_the_current_layout() {
    let mut store = Pallet::new();
    store.post(Origin::Signed(ALICE), b"hi".to_vec(), b"world".to_vec()).unwrap();
    let mut expected = vec![8, b'h', b'i', 1, 20, b'w', b'o', b'r', b'l', b'd'];
    expected.extend_from_slice(&[1, 0, 0, 0, 0, 0, 0, 0]);
    assert_eq!(store.entry(0), Some(&Entry { version: Version::V2, bytes: expected }));
}

#[test]
fn two_callers_get_consecutive_ids() {
    let mut store = Pallet::new();
    assert_eq!(store.post_encrypted(Origin::Signed(ALICE), b"t".to_vec(), b"cipher".to_vec()), Ok(()));
    assert_eq!(store.post(Origin::Signed(BOB), b"u".to_vec(), b"clear".to_vec()), Ok(()));
    assert_eq!(store.next_post(), 2);
    assert_eq!(
        store.get(0),
        Ok(Post {
            title: b"t".to_vec(),
            content: Content::Encrypted(b"cipher".to_vec()),
            author: ALICE
        })
    );
    assert_eq!(
        store.get(1),
        Ok(Post { title: b"u".to_vec(), content: Content::Plain(b"clear".to_vec()), author: BOB })
    );
    assert_eq!(
        store.events(),
        &vec![Event::RecordStored(0, ALICE), Event::RecordStored(1, BOB)]
    );
}

#[test]
fn ids_follow_call_order_without_gaps() {
    let mut store = Pallet::new();
    for n in 0..50u32 {
        assert_eq!(store.next_post(), n);
        let origin = Origin::Signed(u64::from(n) + 100);
        if n % 2 == 0 {
            assert_eq!(store.post(origin, vec![1], vec![2]), Ok(()));
        } else {
            assert_eq!(store.post_encrypted(origin, vec![1], vec![2]), Ok(()));
        }
        assert_eq!(store.events().len(), n as usize + 1);
        assert_eq!(store.events()[n as usize], Event::RecordStored(n, u64::from(n) + 100));
        assert!(store.contains(n));
        assert!(!store.contains(n + 1));
    }
    assert_eq!(store.next_post(), 50);
}

#[test]
fn rejected_calls_consume_no_id() {
    let mut store = Pallet::new();
    assert_eq!(store.post(Origin::Unsigned, vec![1], vec![2]), Err(Error::BadOrigin));
    assert_eq!(store.post(Origin::Signed(ALICE), vec![1], vec![2]), Ok(()));
    assert_eq!(store.post_encrypted(Origin::Root, vec![1], vec![2]), Err(Error::BadOrigin));
    assert_eq!(store.post_encrypted(Origin::Signed(BOB), vec![1], vec![2]), Ok(()));
    assert_eq!(store.events(), &vec![Event::RecordStored(0, ALICE), Event::RecordStored(1, BOB)]);
    assert_eq!(store.next_post(), 2);
}

#[test]
fn unsigned_origin_is_rejected_and_changes_nothing() {
    let mut store = Pallet::new();
    store.post(Origin::Signed(ALICE), vec![1], vec![2]).unwrap();
    let before = store.clone();
    assert_eq!(store.post(Origin::Unsigned, vec![1], vec![2]), Err(Error::BadOrigin));
    assert_eq!(store.post(Origin::Root, vec![1], vec![2]), Err(Error::BadOrigin));
    assert_eq!(store.post_encrypted(Origin::Unsigned, vec![1], vec![2]), Err(Error::BadOrigin));
    assert_eq!(store, before);
}

#[test]
fn ensure_signed_yields_the_signer() {
    assert_eq!(ensure_signed(Origin::Signed(BOB)), Ok(BOB));
    assert_eq!(ensure_signed(Origin::Unsigned), Err(Error::BadOrigin));
    assert_eq!(ensure_signed(Origin::Root), Err(Error::BadOrigin));
}

#[test]
fn allocate_id_returns_counter_then_advances() {
    let mut store = Pallet::with_counter(41);
    assert_eq!(store.allocate_id(), Ok(41));
    assert_eq!(store.allocate_id(), Ok(42));
    assert_eq!(store.next_post(), 43);
}

#[test]
fn allocate_id_fails_at_largest_id() {
    let mut store = Pallet::with_counter(u32::MAX);
    assert_eq!(store.allocate_id(), Err(Error::StorageOverflow));
    assert_eq!(store.next_post(), u32::MAX);
}

#[test]
fn allocate_id_hands_out_last_id_below_the_limit() {
    let mut store = Pallet::with_counter(u32::MAX - 1);
    assert_eq!(store.allocate_id(), Ok(u32::MAX - 1));
    assert_eq!(store.next_post(), u32::MAX);
    assert_eq!(store.allocate_id(), Err(Error::StorageOverflow));
}

#[test]
fn post_at_exhausted_counter_overflows_and_changes_nothing() {
    let mut store = Pallet::with_counter(u32::MAX);
    let before = store.clone();
    assert_eq!(store.post(Origin::Signed(ALICE), vec![1], vec![2]), Err(Error::StorageOverflow));
    assert_eq!(
        store.post_encrypted(Origin::Signed(ALICE), vec![1], vec![2]),
        Err(Error::StorageOverflow)
    );
    assert_eq!(store, before);
    assert_eq!(store.post(Origin::Unsigned, vec![1], vec![2]), Err(Error::BadOrigin));
}

#[test]
fn insert_rejects_an_id_in_use() {
    let mut store = Pallet::new();
    let first = Post { title: vec![1], content: Content::Plain(vec![2]), author: ALICE };
    let second = Post { title: vec![3], content: Content::Encrypted(vec![4]), author: BOB };
    assert_eq!(store.insert(7, &first), Ok(()));
    assert_eq!(store.insert(7, &second), Err(Error::Conflict));
    assert_eq!(store.insert_legacy(7, &legacy_post(1)), Err(Error::Conflict));
    assert_eq!(store.get(7), Ok(first));
    assert_eq!(store.insert(8, &second), Ok(()));
    assert_eq!(store.get(8), Ok(second));
    assert_eq!(store.next_post(), 0);
}

#[test]
fn failed_insert_rolls_the_counter_back() {
    let mut store = Pallet::with_counter(3);
    let squatter = Post { title: vec![9], content: Content::Plain(vec![9]), author: BOB };
    store.insert(3, &squatter).unwrap();
    let before = store.clone();
    assert_eq!(store.post(Origin::Signed(ALICE), vec![1], vec![2]), Err(Error::Conflict));
    assert_eq!(store.next_post(), 3);
    assert!(store.events().is_empty());
    assert_eq!(store.get(3), Ok(squatter));
    assert_eq!(store, before);
    assert_eq!(store.post_encrypted(Origin::Signed(ALICE), vec![1], vec![2]), Err(Error::Conflict));
    assert_eq!(store, before);
}

#[test]
fn get_reads_legacy_entry_through_upgrade() {
    let mut store = Pallet::with_counter(1);
    store.insert_legacy(0, &legacy_post(4)).unwrap();
    assert_eq!(store.entry(0).map(|e| e.version), Some(Version::V1));
    assert_eq!(
        store.get(0),
        Ok(Post { title: vec![b't', 4], content: Content::Plain(vec![4; 5]), author: ALICE + 4 })
    );
}

#[test]
fn get_reports_undecodable_entry() {
    let mut store = Pallet::new();
    store.insert_entry(0, Entry { version: Version::V2, bytes: vec![0xff] }).unwrap();
    store.insert_entry(1, Entry { version: Version::V1, bytes: Vec::new() }).unwrap();
    assert_eq!(store.get(0), Err(Error::DecodeError));
    assert_eq!(store.get(1), Err(Error::DecodeError));
    assert_eq!(store.get(2), Err(Error::NotFound));
}

fn mixed_store() -> Pallet {
    let mut store = Pallet::with_counter(3);
    store.insert_legacy(0, &legacy_post(1)).unwrap();
    store.insert_entry(1, Entry { version: Version::V1, bytes: vec![0xfc, 1, 2] }).unwrap();
    store.insert_legacy(2, &legacy_post(2)).unwrap();
    store.post(Origin::Signed(BOB), b"new".to_vec(), b"text".to_vec()).unwrap();
    store.post_encrypted(Origin::Signed(BOB), b"new".to_vec(), b"cipher".to_vec()).unwrap();
    store
}

#[test]
fn migrate_rewrites_legacy_entries() {
    let mut store = mixed_store();
    let events = store.events().clone();
    assert_eq!(store.migrate(), vec![1]);
    assert_eq!(store.next_post(), 5);
    assert_eq!(store.events(), &events);
    for id in [0u32, 2] {
        let n = if id == 0 { 1u8 } else { 2u8 };
        let upgraded =
            Post { title: vec![b't', n], content: Content::Plain(vec![n; 5]), author: ALICE + u64::from(n) };
        assert_eq!(
            store.entry(id),
            Some(&Entry { version: Version::V2, bytes: upgraded.encode() })
        );
        assert_eq!(store.get(id), Ok(upgraded));
    }
    assert_eq!(store.entry(1), Some(&Entry { version: Version::V1, bytes: vec![0xfc, 1, 2] }));
}

#[test]
fn migrate_leaves_current_entries_alone() {
    let mut store = mixed_store();
    let third = store.entry(3).cloned();
    let fourth = store.entry(4).cloned();
    store.migrate();
    assert_eq!(store.entry(3).cloned(), third);
    assert_eq!(store.entry(4).cloned(), fourth);
    assert_eq!(
        store.get(4),
        Ok(Post { title: b"new".to_vec(), content: Content::Encrypted(b"cipher".to_vec()), author: BOB })
    );
}

#[test]
fn migrate_keeps_what_every_id_reads() {
    let mut store = mixed_store();
    let before: Vec<Result<Post, Error>> = (0..6).map(|id| store.get(id)).collect();
    store.migrate();
    let after: Vec<Result<Post, Error>> = (0..6).map(|id| store.get(id)).collect();
    assert_eq!(before, after);
    assert_eq!(after[1], Err(Error::DecodeError));
    assert_eq!(after[5], Err(Error::NotFound));
}

#[test]
fn migrate_twice_is_migrate_once() {
    let mut store = mixed_store();
    let first = store.migrate();
    let once = store.clone();
    let second = store.migrate();
    assert_eq!(store, once);
    assert_eq!(first, second);
}

#[test]
fn migrate_on_empty_store_does_nothing() {
    let mut store = Pallet::new();
    assert_eq!(store.migrate(), Vec::<u32>::new());
    assert_eq!(store, Pallet::new());
}

#[test]
fn post_after_migration_continues_the_ids() {
    let mut store = mixed_store();
    store.migrate();
    assert_eq!(store.post(Origin::Signed(ALICE), vec![1], vec![2]), Ok(()));
    assert_eq!(store.next_post(), 6);
    assert_eq!(store.events().last(), Some(&Event::RecordStored(5, ALICE)));
}

#[test]
fn declared_weights_are_zero() {
    assert_eq!(POST_WEIGHT, 0);
    assert_eq!(POST_ENCRYPTED_WEIGHT, 0);
}

#[test]
fn reserved_error_kind_is_distinct() {
    assert_ne!(Error::NoneValue, Error::StorageOverflow);
    assert_ne!(Error::NoneValue, Error::BadOrigin);
}

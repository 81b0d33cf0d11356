use marble::codec::{decode, encode, Corrupted};
use marble::config::{default_shard_function, Config, PageId};
use marble::error::Error;
use marble::file_name::{is_temp, HeapFileName};
use marble::index_format::{location_value, page_key, value_location, value_watermark, watermark_value, WATERMARK_KEY};
use marble::index_log::{frame_batch, index_updates, parse_log};
use marble::maintenance::{next_generation, plan_rewrite, reclaim, select, survivors, Selection};
use marble::reader::{read_record, record_len, resolve};
use marble::page_index::PageIndex;
use marble::recovery::recover;
use marble::registry::{FileMeta, Registry};
use marble::writer::{commit_rewrite, plan_batch, superseded, BatchPlan};

fn page(id: u64, payload: Vec<u8>) -> (PageId, Vec<u8>) {
    (PageId(id), payload)
}

fn read_at(plan: &BatchPlan, loc: u64, id: u64) -> Result<Vec<u8>, Error> {
    let off = (loc - plan.name.base_lsn) as usize;
    read_record(&plan.bytes[off..], id)
}

fn publish(files: &mut Registry, plan: &BatchPlan) {
    assert!(files.insert(plan.file_meta()));
}

#[test]
fn default_shard_is_zero() {
    assert_eq!(default_shard_function(PageId(7), 100, 3), 0);
}

#[test]
fn config_defaults() {
    let c = Config::default();
    assert_eq!(c.target_file_size, 256 * 1024 * 1024);
    assert_eq!(c.file_compaction_percent, 60);
}

#[test]
fn record_layout() {
    let bytes = encode(0x0102, &[9, 8, 7]);
    assert_eq!(bytes.len(), 23);
    assert_eq!(&bytes[4..12], &0x0102u64.to_le_bytes());
    assert_eq!(&bytes[12..20], &3u64.to_le_bytes());
    assert_eq!(&bytes[20..], &[9, 8, 7]);
    let crc = crc32fast::hash(&bytes[4..]);
    assert_eq!(&bytes[0..4], &crc.to_le_bytes());
}

#[test]
fn record_round_trip() {
    let payload: Vec<u8> = (0..200u32).map(|i| (i * 7) as u8).collect();
    let mut bytes = encode(42, &payload);
    bytes.extend_from_slice(&[1, 2, 3]);
    assert_eq!(decode(&bytes), Ok((42, payload)));
}

#[test]
fn empty_payload_round_trip() {
    let bytes = encode(5, &[]);
    assert_eq!(bytes.len(), 20);
    assert_eq!(decode(&bytes), Ok((5, vec![])));
}

#[test]
fn flipped_byte_is_corruption() {
    let mut bytes = encode(5, &[1, 2, 3, 4]);
    bytes[21] ^= 0x40;
    assert_eq!(decode(&bytes), Err(Corrupted));
    assert_eq!(read_record(&bytes, 5), Err(Error::Corruption));
}

#[test]
fn short_or_overlong_record_is_corruption() {
    let bytes = encode(5, &[1, 2, 3, 4]);
    assert_eq!(decode(&bytes[..10]), Err(Corrupted));
    assert_eq!(decode(&bytes[..23]), Err(Corrupted));
    assert_eq!(record_len(&bytes[..20], 24), Ok(24));
    assert_eq!(record_len(&bytes[..20], 23), Err(Error::Corruption));
    assert_eq!(record_len(&bytes[..12], 24), Err(Error::Corruption));
}

#[test]
fn record_of_other_page_is_corruption() {
    let bytes = encode(5, &[1]);
    assert_eq!(read_record(&bytes, 6), Err(Error::Corruption));
    assert_eq!(read_record(&bytes, 5), Ok(vec![1]));
}

#[test]
fn heap_file_name_format() {
    let n = HeapFileName { shard: 0x1a, base_lsn: 0x10, size_class: 2, generation: 0xf, capacity: 5 };
    assert_eq!(n.to_name(), b"1a-0000000000000010-2-f-0000000000000005".to_vec());
    assert_eq!(n.to_temp_name(), b"1a-0000000000000010-2-f-0000000000000005-tmp".to_vec());
    assert_eq!(HeapFileName::parse(&n.to_name()), Some(n));
}

#[test]
fn heap_file_name_rejects_garbage() {
    assert_eq!(HeapFileName::parse(b"notes.txt"), None);
    assert_eq!(HeapFileName::parse(b"1a-0000000000000010-2-f-000000000000000g"), None);
    assert_eq!(HeapFileName::parse(b"1a+0000000000000010-2-f-0000000000000005"), None);
    assert_eq!(HeapFileName::parse(b"1A-0000000000000010-2-f-0000000000000005"), None);
    assert!(is_temp(b"00-0000000000000000-0-0-0000000000000001-tmp"));
    assert!(!is_temp(b"00-0000000000000000-0-0-0000000000000001"));
    assert!(!is_temp(b"tmp"));
}

#[test]
fn empty_batch_is_invalid() {
    assert!(matches!(plan_batch(1, &vec![], 0, 0, 0), Err(Error::InvalidArgument)));
}

#[test]
fn zero_id_is_invalid() {
    let pages = vec![page(3, vec![1]), page(0, vec![2])];
    assert!(matches!(plan_batch(1, &pages, 0, 0, 0), Err(Error::InvalidArgument)));
}

#[test]
fn watermark_id_is_invalid() {
    let pages = vec![page(u64::MAX, vec![1])];
    assert!(matches!(plan_batch(1, &pages, 0, 0, 0), Err(Error::InvalidArgument)));
    assert!(plan_batch(1, &vec![page(u64::MAX - 1, vec![1])], 0, 0, 0).is_ok());
}

#[test]
fn batch_past_location_space_is_invalid() {
    let pages = vec![page(3, vec![1])];
    assert!(matches!(plan_batch(u64::MAX - 21, &pages, 0, 0, 0), Err(Error::InvalidArgument)));
    assert!(plan_batch(u64::MAX - 22, &pages, 0, 0, 0).is_ok());
}

#[test]
fn batch_layout() {
    let pages = vec![page(1, vec![0xaa; 10]), page(2, vec![0xbb; 10])];
    let plan = plan_batch(100, &pages, 3, 1, 2).ok().unwrap();
    assert_eq!(plan.name, HeapFileName { shard: 3, base_lsn: 100, size_class: 1, generation: 2, capacity: 2 });
    assert_eq!(plan.bytes.len(), 60);
    assert_eq!(plan.locations, vec![(1, 100), (2, 130)]);
    assert_eq!(plan.next_lsn, 161);
    let meta = plan.file_meta();
    assert_eq!((meta.size, meta.live), (60, 2));
}

#[test]
fn write_read_overwrite() {
    let mut files = Registry::new();
    let b1 = vec![page(1, vec![0xaa; 10]), page(2, vec![0xbb; 10])];
    let plan_a = plan_batch(1, &b1, 0, 0, 0).ok().unwrap();
    publish(&mut files, &plan_a);
    let (l1, l2) = (plan_a.locations[0].1, plan_a.locations[1].1);
    assert_eq!(read_at(&plan_a, l1, 1), Ok(vec![0xaa; 10]));
    assert_eq!(read_at(&plan_a, l2, 2), Ok(vec![0xbb; 10]));

    let b2 = vec![page(1, vec![0xcc; 10])];
    let plan_b = plan_batch(plan_a.next_lsn, &b2, 0, 0, 0).ok().unwrap();
    publish(&mut files, &plan_b);
    let gone = superseded(&plan_b.locations, &vec![Some(l1)]);
    assert_eq!(gone, vec![l1]);
    files.release_all(&gone);
    assert_eq!(files.get(0).live, 1);
    assert_eq!(files.get(1).live, 1);

    let (i, off) = resolve(&files, plan_b.locations[0].1).ok().unwrap();
    assert_eq!((i, off), (1, 0));
    assert_eq!(read_at(&plan_b, plan_b.locations[0].1, 1), Ok(vec![0xcc; 10]));
    let (j, off2) = resolve(&files, l2).ok().unwrap();
    assert_eq!(j, 0);
    assert_eq!(read_record(&plan_a.bytes[off2 as usize..], 2), Ok(vec![0xbb; 10]));
}

#[test]
fn hundred_pages_in_ten_batches() {
    let mut files = Registry::new();
    let mut next = 1u64;
    let mut plans = vec![];
    for b in 0..10u64 {
        let pages: Vec<(PageId, Vec<u8>)> =
            (b * 10 + 1..=b * 10 + 10).map(|id| page(id, id.to_be_bytes().to_vec())).collect();
        let plan = plan_batch(next, &pages, 0, 0, 0).ok().unwrap();
        next = plan.next_lsn;
        publish(&mut files, &plan);
        plans.push(plan);
    }
    for plan in &plans {
        for &(id, loc) in &plan.locations {
            let (i, _) = resolve(&files, loc).ok().unwrap();
            assert_eq!(files.get(i).name.base_lsn, plan.name.base_lsn);
            assert_eq!(read_at(plan, loc, id), Ok(id.to_be_bytes().to_vec()));
        }
    }
}

#[test]
fn same_id_twice_in_one_batch() {
    let pages = vec![page(4, vec![1]), page(4, vec![2])];
    let plan = plan_batch(10, &pages, 0, 0, 0).ok().unwrap();
    let gone = superseded(&plan.locations, &vec![Some(3), Some(3)]);
    assert_eq!(gone, vec![10, 3]);
}

#[test]
fn location_outside_files_is_corruption() {
    let mut files = Registry::new();
    let plan = plan_batch(50, &vec![page(1, vec![1])], 0, 0, 0).ok().unwrap();
    publish(&mut files, &plan);
    assert_eq!(resolve(&files, 49), Err(Error::Corruption));
    assert_eq!(resolve(&files, 50 + 21), Err(Error::Corruption));
    assert_eq!(resolve(&files, 50 + 20), Ok((0, 20)));
    assert_eq!(files.locate(49), None);
    assert_eq!(files.locate(1000), Some(0));
}

fn name_of(shard: u8, base: u64, cap: u64) -> Vec<u8> {
    HeapFileName { shard, base_lsn: base, size_class: 0, generation: 0, capacity: cap }.to_name()
}

#[test]
fn recovery_drops_orphans_and_rebuilds_live() {
    // first batch at 1 (two records, 42 bytes), second at 44 published but never
    // reached the index
    let entries = vec![
        (name_of(0, 44, 1), 21u64),
        (b"junk".to_vec(), 3),
        (name_of(0, 1, 2), 42),
        (name_of(0, 90, 1).into_iter().chain(b"-tmp".iter().copied()).collect(), 21),
    ];
    let r = recover(1, &entries, &vec![1, 22]);
    assert_eq!(r.remove, vec![0, 3]);
    assert_eq!(r.files.len(), 1);
    let f = r.files.get(0);
    assert_eq!((f.name.base_lsn, f.size, f.live), (1, 42, 2));
    assert_eq!(r.next_lsn, 44);
}

#[test]
fn recovery_counts_live_per_file() {
    let entries = vec![(name_of(0, 1, 3), 63u64), (name_of(0, 65, 2), 42)];
    let r = recover(65, &entries, &vec![1, 65, 86, 500]);
    assert!(r.remove.is_empty());
    assert_eq!(r.files.get(0).live, 1);
    assert_eq!(r.files.get(1).live, 2);
    assert_eq!(r.next_lsn, 108);
}

#[test]
fn recovery_of_empty_directory() {
    let r = recover(0, &vec![], &vec![]);
    assert_eq!(r.files.len(), 0);
    assert_eq!(r.next_lsn, 1);
}

fn meta(base: u64, cap: u64, live: u64) -> FileMeta {
    FileMeta {
        name: HeapFileName { shard: 0, base_lsn: base, size_class: 0, generation: 0, capacity: cap },
        size: cap * 30,
        live,
    }
}

#[test]
fn maintenance_selection() {
    let mut files = Registry::new();
    files.insert(meta(1, 10, 0));
    files.insert(meta(1000, 10, 5));
    files.insert(meta(2000, 10, 6));
    files.insert(meta(3000, 0, 0));
    let s = select(&files, 60);
    assert_eq!(s.delete, vec![1, 3000]);
    assert_eq!(s.defrag, vec![meta(1000, 10, 5)]);
    let mut bases = s.delete.clone();
    bases.extend(s.defrag.iter().map(|f| f.name.base_lsn));
    reclaim(&mut files, &bases);
    assert_eq!(files.len(), 1);
    assert_eq!(files.get(0).name.base_lsn, 2000);
    let again = select(&files, 60);
    assert!(again.delete.is_empty() && again.defrag.is_empty());
}

#[test]
fn maintenance_of_mostly_overwritten_file() {
    // ten records in the first file, nine of them overwritten into a second
    let first: Vec<(PageId, Vec<u8>)> = (1..=10u64).map(|id| page(id, vec![id as u8; 4])).collect();
    let plan_a = plan_batch(1, &first, 0, 0, 0).ok().unwrap();
    let second: Vec<(PageId, Vec<u8>)> = (1..=9u64).map(|id| page(id, vec![0; 4])).collect();
    let plan_b = plan_batch(plan_a.next_lsn, &second, 0, 0, 0).ok().unwrap();
    let mut files = Registry::new();
    publish(&mut files, &plan_a);
    publish(&mut files, &plan_b);
    let prev: Vec<Option<u64>> = plan_a.locations[..9].iter().map(|&(_, l)| Some(l)).collect();
    files.release_all(&superseded(&plan_b.locations, &prev));
    assert_eq!(files.get(0).live, 1);

    let s = select(&files, 60);
    assert!(s.delete.is_empty());
    assert_eq!(s.defrag.len(), 1);
    let mut index: Vec<(u64, u64)> = plan_b.locations.clone();
    index.push(plan_a.locations[9]);
    let keep = survivors(&s.defrag[0], &index);
    assert_eq!(keep, vec![plan_a.locations[9]]);
    assert_eq!(read_at(&plan_a, keep[0].1, 10), Ok(vec![10; 4]));
    assert_eq!(next_generation(s.defrag[0].name.generation), 1);
    assert_eq!(next_generation(15), 15);
}

#[test]
fn registry_refuses_duplicate_base() {
    let mut files = Registry::new();
    assert!(files.insert(meta(5, 1, 1)));
    assert!(!files.insert(meta(5, 2, 2)));
    assert_eq!(files.len(), 1);
    assert_eq!(files.remove(5), Some(meta(5, 1, 1)));
    assert_eq!(files.remove(5), None);
}

#[test]
fn index_formats() {
    assert_eq!(page_key(0x0102030405060708), [1, 2, 3, 4, 5, 6, 7, 8]);
    assert_eq!(location_value(0x10), [0, 0, 0, 0, 0, 0, 0, 0x10]);
    assert_eq!(value_location([0, 0, 0, 0, 0, 0, 1, 0]), 256);
    assert_eq!(watermark_value(0x0102), [2, 1, 0, 0, 0, 0, 0, 0]);
    assert_eq!(value_watermark(Some([2, 1, 0, 0, 0, 0, 0, 0])), 0x0102);
    assert_eq!(value_watermark(None), 0);
    assert_eq!(WATERMARK_KEY, u64::MAX.to_le_bytes());
    assert!(page_key(1) < page_key(256));
}

#[test]
fn index_log_round_trip() {
    let a = vec![([0, 0, 0, 0, 0, 0, 0, 1], Some([9; 8])), ([0, 0, 0, 0, 0, 0, 0, 2], None)];
    let b = vec![([0xff; 8], Some([1; 8]))];
    let mut log = frame_batch(&a);
    assert_eq!(log.len(), 8 + 2 * 17 + 4);
    assert_eq!(&log[0..8], &2u64.to_le_bytes());
    let crc = crc32fast::hash(&log[..42]);
    assert_eq!(&log[42..46], &crc.to_le_bytes());
    log.extend(frame_batch(&b));
    let mut expected = a.clone();
    expected.extend(b.clone());
    assert_eq!(parse_log(&log), expected);
    // a torn last frame is dropped whole
    let torn = &log[..log.len() - 1];
    assert_eq!(parse_log(torn), a);
    let mut flipped = log.clone();
    flipped[10] ^= 1;
    assert_eq!(parse_log(&flipped), vec![]);
    assert_eq!(parse_log(&[]), vec![]);
}

#[test]
fn index_updates_for_batch() {
    let u = index_updates(&vec![(1, 0x10), (2, 0x20)], 5, 3);
    assert_eq!(u.len(), 3);
    assert_eq!(u[0], ([0, 0, 0, 0, 0, 0, 0, 1], Some([0, 0, 0, 0, 0, 0, 0, 0x10])));
    assert_eq!(u[1], ([0, 0, 0, 0, 0, 0, 0, 2], Some([0, 0, 0, 0, 0, 0, 0, 0x20])));
    assert_eq!(u[2], ([0xff; 8], Some(5u64.to_le_bytes())));
    let raised = index_updates(&vec![], 5, 9);
    assert_eq!(raised, vec![([0xff; 8], Some(9u64.to_le_bytes()))]);
}

#[test]
fn survivors_once_each_in_order() {
    let f = meta(100, 2, 2);
    let entries = vec![(3, 130), (1, 100), (9, 20), (4, 160), (5, 159)];
    assert_eq!(survivors(&f, &entries), vec![(3, 130), (1, 100), (5, 159)]);
}

#[test]
fn rewrite_plan_generation_and_bases() {
    let mut a = meta(10, 4, 1);
    a.name.generation = 3;
    let mut b = meta(20, 4, 1);
    b.name.generation = 15;
    let sel = Selection { delete: vec![30, 40], defrag: vec![a, b] };
    let r = plan_rewrite(&sel);
    assert_eq!(r.generation, 15);
    assert_eq!(r.remove, vec![10, 20, 30, 40]);
    let only = plan_rewrite(&Selection { delete: vec![], defrag: vec![a] });
    assert_eq!(only.generation, 4);
    let none = plan_rewrite(&Selection { delete: vec![7], defrag: vec![] });
    assert_eq!((none.generation, none.remove), (0, vec![7]));
}

#[test]
fn rewrite_keeps_newer_writes() {
    // page 1 still points where it was read from; page 2 was overwritten meanwhile
    let locs = vec![(1, 500), (2, 521)];
    let (keep, gone) = commit_rewrite(&locs, &vec![Some(10), Some(99)], &vec![10, 31]);
    assert_eq!(keep, vec![(1, 500)]);
    assert_eq!(gone, vec![10, 521]);
}

#[test]
fn page_index_second_write_wins() {
    let mut index = PageIndex::new();
    assert_eq!(index.get(1), None);
    index.publish(&vec![(1, 10), (2, 30)], 10);
    index.publish(&vec![(1, 52)], 52);
    assert_eq!(index.get(1), Some(52));
    assert_eq!(index.get(2), Some(30));
    assert_eq!(index.watermark(), 52);
    index.publish(&vec![(3, 5), (3, 7)], 5);
    assert_eq!(index.get(3), Some(7));
    assert_eq!(index.watermark(), 52);
    assert_eq!(index.entries(), vec![(1, 52), (2, 30), (3, 7)]);
}

#[test]
fn page_index_replays_its_log() {
    let mut log = frame_batch(&index_updates(&vec![(1, 10), (2, 30)], 0, 10));
    log.extend(frame_batch(&index_updates(&vec![(1, 52)], 10, 52)));
    let mut index = PageIndex::new();
    for u in parse_log(&log) {
        index.replay(&u);
    }
    assert_eq!(index.entries(), vec![(1, 52), (2, 30)]);
    assert_eq!(index.watermark(), 52);
    index.replay(&([0, 0, 0, 0, 0, 0, 0, 2], None));
    assert_eq!(index.get(2), None);
}

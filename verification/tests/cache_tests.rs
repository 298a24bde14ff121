use sort_visualizer::cache::{cache_dir_name, cache_file_name, cache_path, decode, encode, fnv1a, CacheHeader, Visualization, HEADER_LEN};
use sort_visualizer::sort::{Algo, Event};

fn sample_header() -> CacheHeader {
    CacheHeader {
        seed: 42,
        image_hash: 0xdead_beef_cafe_f00d,
        cols: 4,
        rows: 3,
        algo: Algo::Bubble.code(),
        key: 0,
        n: 12,
    }
}

fn sample_visualization() -> Visualization {
    Visualization {
        base: vec![5, 2, 9, 0, 11, 3, 7, 1, 10, 4, 8, 6],
        events: vec![
            Event::Cmp { a: 0, b: 1 },
            Event::Swap { a: 0, b: 1 },
            Event::Write { idx: 3, value: 7 },
        ],
    }
}

#[test]
fn roundtrip() {
    let header = sample_header();
    let viz = sample_visualization();
    let data = encode(&header, &viz.base, &viz.events);
    let loaded = decode(&data, &header).expect("load");
    assert_eq!(loaded.base, viz.base);
    assert_eq!(loaded.events.len(), viz.events.len());
    for (a, b) in loaded.events.iter().zip(&viz.events) {
        match (a, b) {
            (Event::Cmp { a: x, b: y }, Event::Cmp { a, b })
            | (Event::Swap { a: x, b: y }, Event::Swap { a, b })
            | (Event::Write { idx: x, value: y }, Event::Write { idx: a, value: b }) => {
                assert!((x, y) == (a, b), "mismatched event payload");
            }
            _ => panic!("event order/variant changed"),
        }
    }
}

#[test]
fn header_mismatch_is_a_miss() {
    let header = sample_header();
    let viz = sample_visualization();
    let data = encode(&header, &viz.base, &viz.events);

    let mut wrong = sample_header();
    wrong.seed = 99;
    assert!(decode(&data, &wrong).is_none());

    wrong = sample_header();
    wrong.n = 13;
    assert!(decode(&data, &wrong).is_none());
}

#[test]
fn corrupted_payload_is_a_miss() {
    let header = sample_header();
    let viz = sample_visualization();
    let mut data = encode(&header, &viz.base, &viz.events);

    // Corrupt something in the middle of the blob.
    let mid = data.len() / 2;
    data[mid] ^= 0xFF;
    assert!(decode(&data, &header).is_none());

    // A truncated blob must also be a miss.
    let data2 = encode(&header, &viz.base, &viz.events);
    assert!(decode(&data2[..data2.len() / 2], &header).is_none());
}

#[test]
fn every_truncation_is_a_miss() {
    let header = sample_header();
    let viz = sample_visualization();
    let data = encode(&header, &viz.base, &viz.events);
    assert_eq!(data.len(), HEADER_LEN + 4 * 12 + 8 + 9 * 3);
    for k in 0..data.len() {
        assert!(decode(&data[..k], &header).is_none(), "prefix of length {k} decoded");
    }
    assert!(decode(&data, &header).is_some());
}

#[test]
fn every_header_field_is_checked() {
    let header = sample_header();
    let viz = sample_visualization();
    let data = encode(&header, &viz.base, &viz.events);
    let variants: Vec<Box<dyn Fn(&mut CacheHeader)>> = vec![
        Box::new(|h| h.image_hash ^= 1),
        Box::new(|h| h.cols = 5),
        Box::new(|h| h.rows = 2),
        Box::new(|h| h.algo = Algo::Merge.code()),
        Box::new(|h| h.key = 1),
    ];
    for change in variants {
        let mut other = sample_header();
        change(&mut other);
        assert!(decode(&data, &other).is_none());
    }
}

#[test]
fn encoding_layout() {
    let header = sample_header();
    let data = encode(&header, &[1, 0], &[Event::Write { idx: 1, value: 0 }]);
    assert_eq!(&data[..8], b"ISORTVC1");
    assert_eq!(&data[8..12], &[1, 0, 0, 0]);
    assert_eq!(&data[12..20], &42u64.to_le_bytes());
    assert_eq!(&data[20..28], &0xdead_beef_cafe_f00du64.to_le_bytes());
    assert_eq!(&data[28..32], &[4, 0, 0, 0]);
    assert_eq!(&data[32..36], &[3, 0, 0, 0]);
    assert_eq!(data[36], 0);
    assert_eq!(data[37], 0);
    assert_eq!(&data[38..42], &[12, 0, 0, 0]);
    assert_eq!(&data[42..50], &[1, 0, 0, 0, 0, 0, 0, 0]);
    assert_eq!(&data[50..58], &[1, 0, 0, 0, 0, 0, 0, 0]);
    assert_eq!(&data[58..], &[2, 1, 0, 0, 0, 0, 0, 0, 0]);
}

#[test]
fn out_of_range_ids_are_a_miss() {
    let mut header = sample_header();
    header.n = 2;
    assert!(decode(&encode(&header, &[0, 2], &[]), &header).is_none());
    assert!(decode(&encode(&header, &[0, 1], &[Event::Swap { a: 0, b: 2 }]), &header).is_none());
    assert!(decode(&encode(&header, &[0, 1], &[Event::Write { idx: 1, value: 5 }]), &header).is_none());
    let mut bad_tag = encode(&header, &[0, 1], &[Event::Cmp { a: 0, b: 1 }]);
    let tag_at = bad_tag.len() - 9;
    bad_tag[tag_at] = 3;
    assert!(decode(&bad_tag, &header).is_none());
    let mut bad_magic = encode(&header, &[0, 1], &[]);
    bad_magic[0] = b'J';
    assert!(decode(&bad_magic, &header).is_none());
    let mut bad_version = encode(&header, &[0, 1], &[]);
    bad_version[8] = 2;
    assert!(decode(&bad_version, &header).is_none());
}

#[test]
fn oversized_event_count_is_a_miss() {
    let mut header = sample_header();
    header.n = 1;
    let mut data = encode(&header, &[0], &[]);
    let at = HEADER_LEN + 4;
    data[at..at + 8].copy_from_slice(&u64::MAX.to_le_bytes());
    assert!(decode(&data, &header).is_none());
}

#[test]
fn trailing_bytes_are_ignored() {
    let header = sample_header();
    let viz = sample_visualization();
    let mut data = encode(&header, &viz.base, &viz.events);
    data.extend_from_slice(&[7, 7, 7]);
    let loaded = decode(&data, &header).expect("load");
    assert_eq!(loaded.base, viz.base);
    assert_eq!(loaded.events, viz.events);
}

#[test]
fn fnv_is_stable() {
    assert_eq!(fnv1a(b"hello world"), fnv1a(b"hello world"));
    assert_ne!(fnv1a(b"hello world"), fnv1a(b"hello worlD"));
}

#[test]
fn fnv_known_values() {
    assert_eq!(fnv1a(b""), 0xcbf2_9ce4_8422_2325);
    assert_eq!(fnv1a(b"a"), 0xaf63_dc4c_8601_ec8c);
    assert_eq!(fnv1a(b"foobar"), 0x8594_4171_f739_67e8);
}

#[test]
fn cache_names() {
    let header = sample_header();
    assert_eq!(cache_dir_name(&header), "deadbeefcafef00d");
    assert_eq!(cache_file_name(&header), "s42_c4x3_abubble_kindex.bin");
    let mut h = sample_header();
    h.image_hash = 0xff;
    h.seed = 0;
    h.algo = 9;
    h.key = 1;
    assert_eq!(cache_dir_name(&h), "00000000000000ff");
    assert_eq!(cache_file_name(&h), "s0_c4x3_aunknown_kluma.bin");
    h.algo = Algo::Heap.code();
    h.seed = u64::MAX;
    assert_eq!(cache_file_name(&h), "s18446744073709551615_c4x3_aheap_kluma.bin");
}

#[test]
fn cache_paths_join_components() {
    let header = sample_header();
    assert_eq!(
        cache_path("/tmp/cache", &header),
        "/tmp/cache/deadbeefcafef00d/s42_c4x3_abubble_kindex.bin"
    );
    assert_eq!(
        cache_path("/tmp/cache/", &header),
        "/tmp/cache/deadbeefcafef00d/s42_c4x3_abubble_kindex.bin"
    );
    assert_eq!(cache_path("", &header), "deadbeefcafef00d/s42_c4x3_abubble_kindex.bin");
    let p = std::path::Path::new("/tmp/cache").join(cache_dir_name(&header)).join(cache_file_name(&header));
    assert_eq!(p.to_str().unwrap(), cache_path("/tmp/cache", &header));
}

#[test]
fn truncated_invalid_blob_is_a_miss() {
    // Cell ids and event positions out of range: the whole blob is a miss,
    // and so is every prefix of it.
    let mut header = sample_header();
    header.n = 3;
    let base = vec![7usize, 8, 9];
    let events = vec![Event::Swap { a: 5, b: 6 }, Event::Cmp { a: 0, b: 1 }];
    let data = encode(&header, &base, &events);
    assert_eq!(data.len(), HEADER_LEN + 4 * 3 + 8 + 9 * 2);
    assert!(decode(&data, &header).is_none());
    for k in 0..data.len() {
        assert!(decode(&data[..k], &header).is_none(), "prefix of length {k} decoded");
    }
}

#[test]
fn cache_paths_differ_with_each_field() {
    let header = sample_header();
    let p = cache_path("cache", &header);
    let mut other = header;
    other.seed = 43;
    assert_ne!(cache_path("cache", &other), p);
    let mut other = header;
    other.image_hash ^= 1;
    assert_ne!(cache_path("cache", &other), p);
    let mut other = header;
    other.cols = 40;
    assert_ne!(cache_path("cache", &other), p);
    let mut other = header;
    other.rows = 30;
    assert_ne!(cache_path("cache", &other), p);
    let mut other = header;
    other.algo = Algo::Merge.code();
    assert_ne!(cache_path("cache", &other), p);
    let mut other = header;
    other.key = 1;
    assert_ne!(cache_path("cache", &other), p);
}

#[test]
fn fnv_changes_with_every_single_byte() {
    let data: Vec<u8> = (0u8..32).collect();
    let h = fnv1a(&data);
    for i in 0..data.len() {
        for delta in [1u8, 0x80, 0xff] {
            let mut changed = data.clone();
            changed[i] = changed[i].wrapping_add(delta);
            assert_ne!(fnv1a(&changed), h, "byte {i} changed by {delta}");
        }
    }
}

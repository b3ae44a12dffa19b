use std::cmp::Ordering;
use suffix_merge::codec::{from_bytes, pointer_width, to_bytes, CodecError};
use suffix_merge::construct::build_suffix_array;
use suffix_merge::layout::{check_part_range, common_width, table_width, LayoutError};
use suffix_merge::merge::{
    fragment_offsets, has_long_repeat, merge_sources, to_global, MergeEntry, HACKSIZE,
};
use suffix_merge::order::{check_suffix_table, compare_suffixes, locate, matched_len};
use suffix_merge::partition::{cut_point_of, plan_partitions, Partition};

fn merged_positions(texts: &Vec<Vec<u8>>, margin: usize, threads: usize) -> Vec<u64> {
    let tables: Vec<Vec<u64>> = texts.iter().map(|t| build_suffix_array(t)).collect();
    let plan = plan_partitions(texts, &tables, threads);
    let offsets = fragment_offsets(texts, margin);
    let mut all = Vec::new();
    for part in plan.iter() {
        let entries = merge_sources(texts, &tables, part, margin);
        all.extend(to_global(&entries, &offsets));
    }
    all
}

#[test]
fn round_trip_every_width() {
    for w in 1..=8usize {
        let max: u64 = if w == 8 { u64::MAX } else { (1u64 << (8 * w)) - 1 };
        let vals = vec![0, 1, max / 3, max - 1, max];
        let bytes = to_bytes(&vals, w);
        assert_eq!(bytes.len(), vals.len() * w);
        assert_eq!(from_bytes(bytes, w), Ok(vals));
    }
}

#[test]
fn encode_is_little_endian() {
    assert_eq!(to_bytes(&[0x0102_0304], 3), vec![0x04, 0x03, 0x02]);
    assert_eq!(to_bytes(&[1, 258], 2), vec![1, 0, 2, 1]);
    assert_eq!(to_bytes(&[], 4), Vec::<u8>::new());
}

#[test]
fn encode_truncates_values_too_wide() {
    assert_eq!(to_bytes(&[0x1_23], 1), vec![0x23]);
    assert_eq!(from_bytes(to_bytes(&[0x1_23], 1), 1), Ok(vec![0x23]));
}

#[test]
fn decode_rejects_uneven_length() {
    assert_eq!(from_bytes(vec![1, 2, 3], 2), Err(CodecError::Length));
}

#[test]
fn decode_rejects_bad_width() {
    assert_eq!(from_bytes(vec![1, 2], 0), Err(CodecError::BadWidth));
    assert_eq!(from_bytes(vec![0; 9], 9), Err(CodecError::BadWidth));
}

#[test]
fn decode_empty() {
    assert_eq!(from_bytes(vec![], 3), Ok(vec![]));
}

#[test]
fn pointer_width_values() {
    assert_eq!(pointer_width(0), 0);
    assert_eq!(pointer_width(1), 0);
    assert_eq!(pointer_width(2), 1);
    assert_eq!(pointer_width(6), 1);
    assert_eq!(pointer_width(256), 1);
    assert_eq!(pointer_width(257), 2);
    assert_eq!(pointer_width(65536), 2);
    assert_eq!(pointer_width(65537), 3);
    assert_eq!(pointer_width(u64::MAX), 8);
}

#[test]
fn compare_suffix_order() {
    let a = b"banana";
    assert_eq!(compare_suffixes(a, 5, a, 3), Ordering::Less);
    assert_eq!(compare_suffixes(a, 1, a, 3), Ordering::Greater);
    assert_eq!(compare_suffixes(a, 0, b"xbanana", 1), Ordering::Equal);
    assert_eq!(compare_suffixes(a, 6, a, 5), Ordering::Less);
}

#[test]
fn matched_len_counts_common_prefix() {
    let a = b"banana";
    assert_eq!(matched_len(a, 1, a, 3, 100), 3);
    assert_eq!(matched_len(a, 1, a, 3, 2), 2);
    assert_eq!(matched_len(a, 0, a, 1, 100), 0);
}

#[test]
fn banana_suffix_array() {
    let sa = build_suffix_array(b"banana");
    assert_eq!(sa, vec![5, 3, 1, 0, 4, 2]);
    let w = pointer_width(6);
    assert_eq!(w, 1);
    assert_eq!(from_bytes(to_bytes(&sa, w), w), Ok(sa));
}

#[test]
fn suffix_array_of_empty_and_single() {
    assert_eq!(build_suffix_array(b""), Vec::<u64>::new());
    assert_eq!(build_suffix_array(b"x"), vec![0]);
    assert_eq!(build_suffix_array(b"aaa"), vec![2, 1, 0]);
}

#[test]
fn locate_insertion_points() {
    let text = b"banana";
    let sa = build_suffix_array(text);
    assert_eq!(locate(text, &sa, b"a"), 0);
    assert_eq!(locate(text, &sa, b"an"), 1);
    assert_eq!(locate(text, &sa, b"b"), 3);
    assert_eq!(locate(text, &sa, b"c"), 4);
    assert_eq!(locate(text, &sa, b""), 0);
    assert_eq!(locate(text, &sa, b"nb"), 6);
    assert_eq!(locate(text, &sa, b"na"), 4);
}

#[test]
fn locate_keeps_order_when_inserting() {
    let text = b"mississippi";
    let sa = build_suffix_array(text);
    for q in [&b"i"[..], b"is", b"ss", b"zz", b"m", b"pi", b"p"] {
        let p = locate(text, &sa, q);
        for i in 0..sa.len() {
            let s = &text[sa[i] as usize..];
            if i < p {
                assert!(s < q);
            } else {
                assert!(s >= q);
            }
        }
    }
}

#[test]
fn cut_points() {
    assert_eq!(cut_point_of(6, 4, 0), 2);
    assert_eq!(cut_point_of(6, 4, 2), 6);
    assert_eq!(cut_point_of(100, 3, 1), 68);
}

#[test]
fn plan_covers_every_index_once() {
    let texts = vec![b"abracadabra".to_vec(), b"alakazam".to_vec(), b"zebra".to_vec()];
    let tables: Vec<Vec<u64>> = texts.iter().map(|t| build_suffix_array(t)).collect();
    for threads in 1..6usize {
        let plan: Vec<Partition> = plan_partitions(&texts, &tables, threads);
        assert_eq!(plan.len(), threads);
        for j in 0..texts.len() {
            assert_eq!(plan[0].starts[j], 0);
            assert_eq!(plan[threads - 1].ends[j], tables[j].len());
            for i in 0..threads {
                assert!(plan[i].starts[j] <= plan[i].ends[j]);
                if i + 1 < threads {
                    assert_eq!(plan[i].ends[j], plan[i + 1].starts[j]);
                }
            }
        }
    }
}

#[test]
fn plan_clamps_cut_past_table_end() {
    let texts = vec![b"abc".to_vec(), b"xyz".to_vec()];
    let tables: Vec<Vec<u64>> = texts.iter().map(|t| build_suffix_array(t)).collect();
    let plan = plan_partitions(&texts, &tables, 3);
    assert_eq!(plan[0].ends, vec![2, 0]);
    assert_eq!(plan[1].ends, vec![3, 3]);
    assert_eq!(plan[2].starts, vec![3, 3]);
    assert_eq!(plan[2].ends, vec![3, 3]);
}

#[test]
fn merge_of_one_fragment_is_its_table() {
    let texts = vec![b"mississippi".to_vec()];
    let all = merged_positions(&texts, 0, 3);
    assert_eq!(all, build_suffix_array(b"mississippi"));
}

#[test]
fn split_banana_merges_to_whole() {
    // "banana$banana" split at byte 7; the first fragment keeps a copy of
    // the second one's six bytes as its margin.
    let whole = b"banana$banana".to_vec();
    let texts = vec![whole.clone(), whole[7..].to_vec()];
    for threads in 1..5usize {
        let all = merged_positions(&texts, 6, threads);
        assert_eq!(all, build_suffix_array(&whole));
    }
}

#[test]
fn three_fragments_merge_to_whole() {
    let whole = b"the quick brown fox jumps over the lazy dog; the quick end".to_vec();
    let margin = 12;
    let texts = vec![
        whole[0..20 + margin].to_vec(),
        whole[20..40 + margin].to_vec(),
        whole[40..].to_vec(),
    ];
    for threads in 1..7usize {
        let all = merged_positions(&texts, margin, threads);
        assert_eq!(all, build_suffix_array(&whole));
    }
}

#[test]
fn merge_skips_margin_positions() {
    let texts = vec![b"abcxy".to_vec(), b"xyz".to_vec()];
    let tables: Vec<Vec<u64>> = texts.iter().map(|t| build_suffix_array(t)).collect();
    let part = Partition { starts: vec![0, 0], ends: vec![5, 3] };
    let entries = merge_sources(&texts, &tables, &part, 2);
    assert_eq!(
        entries,
        vec![
            MergeEntry { source: 0, position: 0 },
            MergeEntry { source: 0, position: 1 },
            MergeEntry { source: 0, position: 2 },
            MergeEntry { source: 1, position: 0 },
            MergeEntry { source: 1, position: 1 },
            MergeEntry { source: 1, position: 2 },
        ]
    );
}

#[test]
fn merge_of_empty_ranges_is_empty() {
    let texts = vec![b"abc".to_vec(), b"bcd".to_vec()];
    let tables: Vec<Vec<u64>> = texts.iter().map(|t| build_suffix_array(t)).collect();
    let part = Partition { starts: vec![3, 1], ends: vec![3, 1] };
    assert_eq!(merge_sources(&texts, &tables, &part, 0), vec![]);
}

#[test]
fn offsets_of_fragments() {
    let texts = vec![vec![0u8; 10], vec![0u8; 7], vec![0u8; 4]];
    assert_eq!(fragment_offsets(&texts, 3), vec![0, 7, 11, 15]);
    assert_eq!(fragment_offsets(&texts, 0), vec![0, 10, 17, 21]);
}

#[test]
fn global_positions() {
    let entries = vec![
        MergeEntry { source: 1, position: 2 },
        MergeEntry { source: 0, position: 5 },
    ];
    assert_eq!(to_global(&entries, &vec![0, 7, 11]), vec![9, 5]);
}

#[test]
fn long_repeats_detected() {
    let texts = vec![b"aaaaaaaaaa".to_vec()];
    let tables = vec![build_suffix_array(&texts[0])];
    let part = Partition { starts: vec![0], ends: vec![10] };
    let entries = merge_sources(&texts, &tables, &part, 0);
    assert!(has_long_repeat(&texts, &entries, 100, 5));
    assert!(!has_long_repeat(&texts, &entries, 100, 9));
    assert!(!has_long_repeat(&texts, &entries, 5, 5));
    let plain = vec![b"abcdef".to_vec()];
    let t2 = vec![build_suffix_array(&plain[0])];
    let p2 = Partition { starts: vec![0], ends: vec![6] };
    let e2 = merge_sources(&plain, &t2, &p2, 0);
    assert!(!has_long_repeat(&plain, &e2, 100, 0));
}

#[test]
fn margin_constant() {
    assert_eq!(HACKSIZE, 100000);
}

#[test]
fn part_ranges() {
    assert_eq!(check_part_range(0, 10, 10), Ok(()));
    assert_eq!(check_part_range(5, 5, 10), Err(LayoutError::EmptyRange));
    assert_eq!(check_part_range(6, 5, 10), Err(LayoutError::EmptyRange));
    assert_eq!(check_part_range(0, 11, 10), Err(LayoutError::PastEnd));
}

#[test]
fn table_widths() {
    assert_eq!(table_width(24, 6), Ok(4));
    assert_eq!(table_width(24, 0), Err(LayoutError::EmptyText));
    assert_eq!(table_width(25, 6), Err(LayoutError::UnevenTable));
    assert_eq!(table_width(54, 6), Err(LayoutError::BadWidth));
    assert_eq!(table_width(0, 6), Err(LayoutError::BadWidth));
}

#[test]
fn common_widths() {
    assert_eq!(common_width(&vec![3, 3, 3]), Ok(3));
    assert_eq!(common_width(&vec![3, 2]), Err(LayoutError::WidthMismatch));
    assert_eq!(common_width(&vec![]), Err(LayoutError::WidthMismatch));
}

#[test]
fn suffix_table_check() {
    let text = b"banana";
    assert!(check_suffix_table(text, &[5, 3, 1, 0, 4, 2]));
    assert!(check_suffix_table(text, &[]));
    assert!(check_suffix_table(text, &[5, 5, 3]));
    assert!(!check_suffix_table(text, &[3, 5, 1, 0, 4, 2]));
    assert!(!check_suffix_table(text, &[5, 6]));
}

use boomphf::Mphf;
use liushu::dict::{build, build2, build_defs, distinct_texts, parse_dict_source};
use patricia_tree::{StringPatriciaMap, StringPatriciaSet};

fn slots_for(texts: &[String]) -> (Mphf<String>, Vec<u64>) {
    let phf = Mphf::new(1.7, &texts.to_vec());
    let slots: Vec<u64> = texts.iter().map(|t| phf.hash(t)).collect();
    (phf, slots)
}

#[test]
fn distinct_texts_collapse_duplicates() {
    let items =
        parse_dict_source("你\tni\t5\n好\thao\t9\n你\tni2\t7\n").unwrap();
    let texts = distinct_texts(&items);
    let mut got: Vec<String> = texts.clone();
    got.sort();
    assert_eq!(got, vec!["你".to_string(), "好".to_string()]);
}

#[test]
fn perfect_hash_slots_never_collide() {
    let items = parse_dict_source(
        "你\tni\t5\n好\thao\t9\n你好\tni hao\t7\n码\tma\t2\n",
    )
    .unwrap();
    let texts = distinct_texts(&items);
    let (_phf, slots) = slots_for(&texts);
    for a in 0..slots.len() {
        assert!(slots[a] < texts.len() as u64);
        for b in (a + 1)..slots.len() {
            assert_ne!(slots[a], slots[b]);
        }
    }
    assert!(build_defs(&items, &texts, &slots).is_ok());
}

#[test]
fn definition_table_keeps_the_first_occurrence() {
    let items = parse_dict_source(
        "你\tni\t5\tfirst\n好\thao\t9\n你\tni2\t7\tsecond\n",
    )
    .unwrap();
    let texts = distinct_texts(&items);
    let (phf, slots) = slots_for(&texts);
    let defs = build_defs(&items, &texts, &slots).unwrap();
    let ni_slot = phf.hash(&"你".to_string()) as usize;
    // The duplicate text keeps the weight and comment of its first row.
    assert_eq!(defs[ni_slot].0, 5);
    assert_eq!(defs[ni_slot].1, Some("first".to_string()));
    let hao_slot = phf.hash(&"好".to_string()) as usize;
    assert_eq!(defs[hao_slot].0, 9);
    assert_eq!(defs[hao_slot].1, None);
}

#[test]
fn build_defs_rejects_bad_assignments() {
    let items = parse_dict_source("你\tni\t5\n好\thao\t9\n").unwrap();
    let texts = distinct_texts(&items);
    // Wrong length.
    assert!(build_defs(&items, &texts, &vec![0]).is_err());
    // Out of range.
    assert!(build_defs(&items, &texts, &vec![0, 2]).is_err());
    // A collision.
    assert!(build_defs(&items, &texts, &vec![1, 1]).is_err());
}

#[test]
fn build2_artifacts_deserialize_to_set_trie_and_defs() {
    let items = parse_dict_source(
        "你\tni\t5\n泥\tni\t3\n你\tni\t7\n好\thao\t9\n",
    )
    .unwrap();
    let texts = distinct_texts(&items);
    let (phf, slots) = slots_for(&texts);
    let (index_bytes, def_bytes) = build2(&items, &texts, &slots).unwrap();

    let trie: StringPatriciaMap<StringPatriciaSet> =
        bincode::deserialize(&index_bytes[..]).unwrap();
    // Same-code duplicates collapse into a set of distinct texts.
    let ni: Vec<String> = trie.get("ni").unwrap().iter().collect();
    let mut ni_sorted = ni.clone();
    ni_sorted.sort();
    assert_eq!(ni_sorted, vec!["你".to_string(), "泥".to_string()]);

    let defs: Vec<(u32, Option<String>)> = bincode::deserialize(&def_bytes[..]).unwrap();
    assert_eq!(defs.len(), texts.len());
    let ni_slot = phf.hash(&"你".to_string()) as usize;
    assert_eq!(defs[ni_slot], (5, None));
}

#[test]
fn build_serializes_rows_grouped_by_code() {
    let sources = vec!["你\tni\t5\n泥\tni\t3\thmm\n好\thao\t9\n".to_string()];
    let bytes = build(&sources).unwrap();
    let trie: StringPatriciaMap<Vec<(String, String, u32, Option<String>)>> =
        bincode::deserialize(&bytes[..]).unwrap();
    let ni = trie.get("ni").unwrap();
    assert_eq!(
        ni,
        &vec![
            ("你".to_string(), "ni".to_string(), 5, None),
            ("泥".to_string(), "ni".to_string(), 3, Some("hmm".to_string()))
        ]
    );
    assert_eq!(trie.get("hao").unwrap().len(), 1);

    let bad = vec!["no tabs here\n".to_string()];
    assert!(build(&bad).is_err());
}

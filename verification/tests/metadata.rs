use paradox_defs::mods::{u32_to_string, Mod};
use paradox_defs::ordered_map::IndexedOrderedMap;
use paradox_defs::path::RelPath;

fn rp(segs: &[&str]) -> RelPath {
    RelPath::from_segs(segs.iter().map(|s| s.to_string()).collect())
}

fn sample_mod(supported: Option<&str>) -> Mod {
    let mut m = Mod::new(0, true, "Sample".to_string(), "1.0".to_string(), rp(&["m"]), false);
    m.supported_version = supported.map(|s| s.to_string());
    m
}

#[test]
fn decimal_rendering() {
    assert_eq!(u32_to_string(0), "0");
    assert_eq!(u32_to_string(7), "7");
    assert_eq!(u32_to_string(10), "10");
    assert_eq!(u32_to_string(90210), "90210");
}

#[test]
fn dup_name_suffixes_duplicates() {
    let mut m = sample_mod(None);
    assert_eq!(m.dup_name(), "Sample");
    m.set_dup_id(3);
    assert_eq!(m.dup_name(), "Sample#3");
}

#[test]
fn enabled_first_changes_sort() {
    let mut m = Mod::new(2, false, "A".to_string(), "1".to_string(), rp(&["m"]), true);
    assert_eq!(m.sort_index, 1);
    m.set_enabled(true);
    assert_eq!(m.sort_index, 0);
}

#[test]
fn outdated_compares_numerically() {
    assert!(sample_mod(Some("1.9.2")).is_outdated("1.10.0"));
    assert!(!sample_mod(Some("1.10.0")).is_outdated("1.9.2"));
    assert!(!sample_mod(Some("1.10")).is_outdated("1.10.5"));
    assert!(sample_mod(Some("1.12.*")).is_outdated("1.13.0"));
    assert!(!sample_mod(Some("1.*.3")).is_outdated("1.5.0"));
    assert!(!sample_mod(None).is_outdated("2.0"));
    assert!(sample_mod(Some(" 1.9 ")).is_outdated("1.10"));
    assert!(!sample_mod(Some("1.10.1")).is_outdated("1.10.1"));
}

#[test]
fn ordered_map_keeps_insertion_order() {
    let mut m: IndexedOrderedMap<String> = IndexedOrderedMap::new();
    assert!(m.is_empty());
    m.insert(5, "five".to_string());
    m.insert(1, "one".to_string());
    m.insert(5, "FIVE".to_string());
    assert_eq!(m.len(), 2);
    assert_eq!(m.get(5), Some(&"FIVE".to_string()));
    assert_eq!(m.get(2), None);
    assert!(m.contains_key(1));
    // the overwritten key keeps its position
    assert_eq!(m.first().map(|e| e.0), Some(5));
    assert_eq!(m.last().map(|e| e.0), Some(1));
    let removed = m.shift_remove(5);
    assert_eq!(removed, Some("FIVE".to_string()));
    assert_eq!(m.first().map(|e| e.0), Some(1));
    m.clear();
    assert!(m.is_empty());
}

#[test]
fn rel_path_operations() {
    let p = rp(&["a", "b"]);
    assert_eq!(p.len(), 2);
    let q = p.join("c");
    assert_eq!(q.segments(), &vec!["a".to_string(), "b".to_string(), "c".to_string()]);
    let parent = q.parent().unwrap();
    assert!(parent.eq_path(&p));
    assert!(RelPath::empty().parent().is_none());
    assert!(!p.eq_path(&q));
    assert_eq!(q.last_seg().map(|s| s.as_str()), Some("c"));
}

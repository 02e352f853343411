use factorio_solver::names::{NameMap, NameSet};

#[test]
fn a_name_set_holds_each_name_once_in_order() {
    let s = NameSet::from_names(vec!["iron-plate".to_string(), "copper-cable".to_string(), "iron-plate".to_string()]);
    assert_eq!(s.len(), 2);
    assert!(s.contains("iron-plate"));
    assert!(!s.contains("iron"));
    assert_eq!(s.names(), &vec!["copper-cable".to_string(), "iron-plate".to_string()]);
}

#[test]
fn inserting_into_a_name_set_keeps_it_sorted() {
    let mut s = NameSet::new();
    assert!(s.is_empty());
    for n in ["pipe", "coal", "stone", "coal"] {
        s.insert(n.to_string());
    }
    assert_eq!(s.into_names(), vec!["coal".to_string(), "pipe".to_string(), "stone".to_string()]);
}

#[test]
fn a_name_map_reads_back_the_last_write() {
    let mut m = NameMap::new();
    assert!(m.get("copper-cable").is_none());
    m.insert("copper-cable".to_string(), "copper-cable".to_string());
    m.insert("iron-plate".to_string(), "casting-iron".to_string());
    m.insert("copper-cable".to_string(), "casting-copper-cable".to_string());
    assert_eq!(m.get("copper-cable").unwrap(), "casting-copper-cable");
    assert_eq!(m.get("iron-plate").unwrap(), "casting-iron");
    assert!(m.contains_key("iron-plate"));
    assert!(!m.contains_key("iron-gear-wheel"));
}

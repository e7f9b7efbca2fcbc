use backend_rs::utils::rotate_map;
use std::collections::HashMap;

fn table(contents: &[&str]) -> HashMap<u8, String> {
    let mut map = HashMap::new();
    for (slot, content) in contents.iter().enumerate() {
        map.insert(slot as u8, content.to_string());
    }
    map
}

#[test]
fn rotate_three_slots() {
    let out = rotate_map(&table(&["A", "B", "C"]));
    assert_eq!(out.len(), 3);
    assert_eq!(out[&0], "C");
    assert_eq!(out[&1], "A");
    assert_eq!(out[&2], "B");
}

#[test]
fn rotate_empty_table() {
    let out = rotate_map(&HashMap::new());
    assert!(out.is_empty());
}

#[test]
fn rotate_single_slot_keeps_it() {
    let out = rotate_map(&table(&["only"]));
    assert_eq!(out.len(), 1);
    assert_eq!(out[&0], "only");
}

#[test]
fn rotate_two_slots_swaps_them() {
    let out = rotate_map(&table(&["left", "right"]));
    assert_eq!(out, table(&["right", "left"]));
}

#[test]
fn rotate_leaves_the_input_as_it_was() {
    let input = table(&["A", "B", "C", "D"]);
    let out = rotate_map(&input);
    assert_eq!(input, table(&["A", "B", "C", "D"]));
    assert_eq!(out, table(&["D", "A", "B", "C"]));
}

#[test]
fn rotate_as_often_as_there_are_slots_is_the_identity() {
    let start = table(&["a", "b", "c", "d", "e", "f", "g", "h"]);
    let mut current = rotate_map(&start);
    assert_ne!(current, start);
    for _ in 1..8 {
        current = rotate_map(&current);
    }
    assert_eq!(current, start);
}

#[test]
fn rotate_full_byte_range() {
    let mut map = HashMap::new();
    for slot in 0..=255u8 {
        map.insert(slot, format!("c{slot}"));
    }
    let out = rotate_map(&map);
    assert_eq!(out.len(), 256);
    assert_eq!(out[&0], "c255");
    assert_eq!(out[&1], "c0");
    assert_eq!(out[&255], "c254");
}

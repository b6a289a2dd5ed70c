use ccx::parents::rec_parents;
use ccx::slots::{AppliedId, SlotMap};
use ccx::worklist::{contains_id, count_nodes, delete_element, update, wo_no_us, FindTable};

fn aid(id: usize, pairs: &[(u32, u32)]) -> AppliedId {
    let mut m = SlotMap::new();
    for (k, v) in pairs {
        m.insert(*k, *v);
    }
    AppliedId::new(id, m)
}

fn ids(v: &Vec<AppliedId>) -> Vec<usize> {
    v.iter().map(|a| a.id).collect()
}

#[test]
fn wo_no_us_removes_shared_elements() {
    let mut wo = vec![aid(1, &[]), aid(2, &[(0, 1)]), aid(3, &[])];
    let us = vec![aid(2, &[(0, 1)]), aid(3, &[(0, 4)])];
    wo_no_us(&mut wo, &us);
    assert_eq!(ids(&wo), vec![1, 3]);
}

#[test]
fn delete_element_removes_every_copy() {
    let mut w = vec![aid(1, &[]), aid(2, &[]), aid(1, &[])];
    delete_element(&mut w, &aid(1, &[]));
    assert_eq!(ids(&w), vec![2]);
}

#[test]
fn contains_id_compares_classes() {
    let find = FindTable { canon: vec![0, 0, 2, 2] };
    let w = vec![aid(1, &[]), aid(3, &[])];
    assert!(contains_id(&find, &w, &aid(0, &[])));
    assert!(contains_id(&find, &w, &aid(2, &[])));
    let w2 = vec![aid(3, &[])];
    assert!(!contains_id(&find, &w2, &aid(1, &[])));
}

#[test]
fn update_keeps_one_element_per_class() {
    let find = FindTable { canon: vec![0, 0, 2, 2] };
    let reps = vec![aid(0, &[]), aid(2, &[]), aid(0, &[]), aid(2, &[])];
    let w = update(&find, &reps);
    assert_eq!(ids(&w), vec![0, 2]);
}

#[test]
fn count_nodes_adds_class_sizes() {
    assert_eq!(count_nodes(&vec![3, 0, 4]), 7);
    assert_eq!(count_nodes(&vec![]), 0);
}

#[test]
fn rec_parents_climbs_application_nodes() {
    // classes 0..5, each its own representative; edges child -> parent
    let find = FindTable { canon: vec![0, 1, 2, 3, 4] };
    let edges = vec![(0, 1), (1, 2), (3, 4)];
    let wo = vec![aid(2, &[]), aid(4, &[]), aid(0, &[]), aid(3, &[])];
    let changed = vec![0];
    let out = rec_parents(&find, &edges, &wo, &changed);
    assert_eq!(ids(&out), vec![2, 0]);
}

#[test]
fn rec_parents_uses_classes_of_changed_ids() {
    let find = FindTable { canon: vec![0, 0, 2] };
    let edges = vec![(0, 2)];
    let wo = vec![aid(2, &[]), aid(1, &[])];
    let out = rec_parents(&find, &edges, &wo, &vec![1]);
    assert_eq!(ids(&out), vec![2, 1]);
    let none = rec_parents(&find, &edges, &wo, &vec![]);
    assert!(none.is_empty());
}

#[test]
fn push_unique_id_keeps_ids_once() {
    let mut v: Vec<usize> = vec![];
    ccx::worklist::push_unique_id(&mut v, 3);
    ccx::worklist::push_unique_id(&mut v, 1);
    ccx::worklist::push_unique_id(&mut v, 3);
    assert_eq!(v, vec![3, 1]);
}

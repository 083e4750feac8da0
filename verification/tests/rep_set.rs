use hugr_taso::compile::{compile_eccs, Attempt, CompiledTrie, PatternHit};
use hugr_taso::rep_set::{load_eccs, remove_blanks, Circuit, RepCircSet};

fn circ(graph: &'static str, node_count: usize) -> Circuit<&'static str> {
    Circuit { graph, node_count, blank_wires: vec![] }
}

fn wires(graph: &'static str, node_count: usize, blank_wires: &[bool]) -> Circuit<&'static str> {
    Circuit { graph, node_count, blank_wires: blank_wires.to_vec() }
}

fn names(circs: &[Circuit<&'static str>]) -> Vec<&'static str> {
    circs.iter().map(|c| c.graph).collect()
}

#[test]
fn the_given_representative_leads() {
    let set = RepCircSet::new(circ("rep", 9), vec![circ("a", 1), circ("b", 2)]);
    assert_eq!(set.len(), 3);
    assert_eq!(set.rep_circ().graph, "rep");
    assert_eq!(names(set.others()), vec!["a", "b"]);
    assert_eq!(names(set.circuits()), vec!["rep", "a", "b"]);
    let single = RepCircSet::new(circ("rep", 9), vec![]);
    assert_eq!(single.len(), 1);
    assert!(single.others().is_empty());
}

#[test]
fn the_smallest_circuit_changes_places_with_the_first() {
    let set = RepCircSet::from_circs(vec![circ("a", 5), circ("b", 3), circ("c", 2), circ("d", 2)]);
    assert_eq!(names(set.circuits()), vec!["c", "b", "a", "d"]);
    let set = RepCircSet::from_circs(vec![circ("a", 2), circ("b", 2)]);
    assert_eq!(names(set.circuits()), vec!["a", "b"]);
}

#[test]
fn all_circuits_become_the_representative_and_it_becomes_all() {
    let set = RepCircSet::new(circ("rep", 1), vec![circ("a", 1), circ("b", 2), circ("c", 2)]);
    let rules = set.rewrite_rules();
    assert_eq!(rules.len(), 4);
    assert_eq!(rules[&0], vec![1, 2, 3]);
    assert_eq!(rules[&1], vec![0]);
    assert_eq!(rules[&2], vec![0]);
    assert_eq!(rules[&3], vec![0]);
    let single = RepCircSet::new(circ("rep", 1), vec![]);
    let rules = single.rewrite_rules();
    assert_eq!(rules.len(), 1);
    assert!(rules[&0].is_empty());
}

#[test]
fn each_class_of_a_file_is_led_by_its_smallest_circuit() {
    let eccs = load_eccs(vec![
        vec![circ("a", 4), circ("b", 3)],
        vec![circ("c", 1), circ("d", 2)],
        vec![circ("e", 7)],
    ]);
    assert_eq!(eccs.len(), 3);
    assert_eq!(names(eccs[0].circuits()), vec!["b", "a"]);
    assert_eq!(names(eccs[1].circuits()), vec!["c", "d"]);
    assert_eq!(names(eccs[2].circuits()), vec!["e"]);
    assert!(load_eccs::<u8>(vec![]).is_empty());
}

/// The circuit without the given wires.
fn strip(circ: &Circuit<&'static str>, blanks: &Vec<bool>) -> Circuit<&'static str> {
    let kept = circ.blank_wires.iter().zip(blanks).filter(|(_, removed)| !**removed);
    Circuit {
        graph: circ.graph,
        node_count: circ.node_count,
        blank_wires: kept.map(|(blank, _)| *blank).collect(),
    }
}

#[test]
fn blank_wires_are_removed_class_by_class() {
    let eccs = vec![
        RepCircSet::new(wires("a", 2, &[true]), vec![wires("b", 3, &[false])]),
        RepCircSet::new(wires("c", 4, &[false, true]), vec![]),
    ];
    let sets = remove_blanks(&eccs, &strip);
    assert_eq!(sets.len(), 3);
    assert_eq!(names(sets[0].circuits()), vec!["a"]);
    assert!(sets[0].rep_circ().blank_wires.is_empty());
    assert_eq!(names(sets[1].circuits()), vec!["a", "b"]);
    assert_eq!(names(sets[2].circuits()), vec!["c"]);
    assert_eq!(sets[2].rep_circ().blank_wires, vec![false]);
    assert!(remove_blanks(&vec![], &strip).is_empty());
}

#[test]
fn wires_that_are_blank_throughout_are_removed() {
    // "a" has no blank wire, "b" has the second one, "c" and "d" have both.
    let set = RepCircSet::new(
        wires("a", 6, &[false, false]),
        vec![
            wires("b", 5, &[false, true]),
            wires("c", 3, &[true, true]),
            wires("d", 4, &[true, true]),
        ],
    );
    let sets = set.no_blank_eccs(&strip);
    assert_eq!(sets.len(), 3);
    // No wire removed: every circuit is there, and the smallest one leads.
    assert_eq!(names(sets[0].circuits()), vec!["c", "b", "a", "d"]);
    assert!(sets[0].circuits().iter().all(|c| c.blank_wires.len() == 2));
    // The second wire removed: "a" needs it.
    assert_eq!(names(sets[1].circuits()), vec!["c", "b", "d"]);
    assert_eq!(sets[1].rep_circ().blank_wires, vec![true]);
    assert!(sets[1].circuits().iter().all(|c| c.blank_wires.len() == 1));
    // Both removed.
    assert_eq!(names(sets[2].circuits()), vec!["c", "d"]);
    assert!(sets[2].circuits().iter().all(|c| c.blank_wires.is_empty()));
}

/// Two classes; the second circuit of the second one is fit for no pattern.
fn two_classes() -> CompiledTrie<&'static str> {
    let eccs = vec![
        RepCircSet::new(circ("a", 3), vec![circ("b", 4), circ("c", 8)]),
        RepCircSet::new(circ("d", 2), vec![circ("e", 9), circ("f", 5)]),
    ];
    let ids = vec![vec![Some(10), Some(11), Some(12)], vec![Some(20), None, Some(22)]];
    compile_eccs(eccs, &ids)
}

#[test]
fn rules_speak_of_circuits_by_their_places() {
    let trie = two_classes();
    assert!(trie.is_consistent());
    assert_eq!(names(&trie.all_circs), vec!["a", "b", "c", "d", "e", "f"]);
    assert_eq!(trie.rewrite_rules.len(), 5);
    assert_eq!(trie.rewrite_rules[&10], vec![1, 2]);
    assert_eq!(trie.rewrite_rules[&11], vec![0]);
    assert_eq!(trie.rewrite_rules[&12], vec![0]);
    assert_eq!(trie.rewrite_rules[&20], vec![4, 5]);
    assert_eq!(trie.rewrite_rules[&22], vec![3]);
    assert_eq!(trie.pattern2circ.len(), 5);
    assert_eq!(trie.pattern2circ[&10], 0);
    assert_eq!(trie.pattern2circ[&12], 2);
    assert_eq!(trie.pattern2circ[&20], 3);
    assert_eq!(trie.pattern2circ[&22], 5);
}

#[test]
fn a_later_circuit_takes_over_a_pattern() {
    let eccs = vec![
        RepCircSet::new(circ("a", 3), vec![circ("b", 4)]),
        RepCircSet::new(circ("c", 2), vec![circ("d", 9)]),
    ];
    let trie = compile_eccs(eccs, &vec![vec![Some(1), Some(2)], vec![Some(2), None]]);
    assert_eq!(trie.rewrite_rules[&1], vec![1]);
    assert_eq!(trie.rewrite_rules[&2], vec![3]);
    assert_eq!(trie.pattern2circ[&2], 2);
}

#[test]
fn filters_drop_rules_that_grow_circuits() {
    let mut trie = two_classes();
    trie.filter_rewrites(3);
    assert_eq!(trie.rewrite_rules[&10], vec![1]);
    assert_eq!(trie.rewrite_rules[&11], vec![0]);
    assert_eq!(trie.rewrite_rules[&20], vec![5]);
    assert_eq!(trie.rewrite_rules[&22], vec![3]);
    trie.filter_rewrites(5);
    assert_eq!(trie.rewrite_rules[&10], vec![1]);
    trie.filter_rewrites(0);
    assert!(trie.rewrite_rules[&10].is_empty());
    assert_eq!(trie.rewrite_rules[&11], vec![0]);
    assert_eq!(trie.rewrite_rules.len(), 5);
    assert!(trie.is_consistent());
}

#[test]
fn a_table_with_a_loose_end_is_inconsistent() {
    let mut trie = two_classes();
    trie.rewrite_rules.insert(11, vec![0, 6]);
    assert!(!trie.is_consistent());
    let mut trie = two_classes();
    trie.pattern2circ.insert(11, 6);
    assert!(!trie.is_consistent());
    let mut trie = two_classes();
    trie.pattern2circ.insert(99, 0);
    assert!(!trie.is_consistent());
    let mut trie = two_classes();
    trie.rewrite_rules.insert(99, vec![]);
    assert!(!trie.is_consistent());
}

fn hit(id: usize, root: usize, pattern_op: Option<&str>, host_op: Option<&str>) -> PatternHit {
    PatternHit {
        id,
        root,
        pattern_op: pattern_op.map(str::to_string),
        host_op: host_op.map(str::to_string),
    }
}

#[test]
fn all_rules_of_a_match_are_tried_where_the_roots_agree() {
    let trie = two_classes();
    let hits = vec![
        hit(10, 7, Some("H"), Some("H")),
        hit(11, 7, Some("CX"), Some("H")),
        hit(11, 8, Some("CX"), None),
        hit(22, 9, None, Some("T")),
    ];
    let attempts = trie.attempts(&hits);
    assert_eq!(
        attempts,
        vec![
            Attempt { id: 10, root: 7, pattern: 0, replacement: 1 },
            Attempt { id: 10, root: 7, pattern: 0, replacement: 2 },
            Attempt { id: 22, root: 9, pattern: 5, replacement: 3 },
        ]
    );
    assert!(trie.attempts(&vec![]).is_empty());
}

use sppf_tester::classify::ambiguity_check;
use sppf_tester::classify::ambiguity_check_visits;
use sppf_tester::forest::Forest;
use sppf_tester::forest::MoreThanOne;
use sppf_tester::forest::NodeShape;

fn forest(nodes: Vec<NodeShape>) -> Forest {
    let f = Forest { nodes };
    assert!(f.is_well_formed());
    f
}

#[test]
fn opaque_root_is_unambiguous() {
    let f = forest(vec![NodeShape::Opaque]);
    assert_eq!(ambiguity_check(&f, 0), Ok(()));
}

#[test]
fn alias_forwards_its_single_child() {
    let f = forest(vec![NodeShape::Alias(1), NodeShape::Opaque]);
    assert_eq!(ambiguity_check(&f, 0), Ok(()));
    assert_eq!(f.unpack_alias(0), 1);
}

#[test]
fn opt_with_present_child_is_unambiguous() {
    let f = forest(vec![NodeShape::Opt(Some(1)), NodeShape::Opaque]);
    assert_eq!(f.unpack_opt(0), Some(1));
    assert_eq!(ambiguity_check(&f, 0), Ok(()));
}

#[test]
fn opt_with_absent_child_is_unambiguous() {
    let f = forest(vec![NodeShape::Opt(None)]);
    assert_eq!(f.unpack_opt(0), None);
    assert_eq!(ambiguity_check(&f, 0), Ok(()));
}

#[test]
fn choice_with_one_alternative_passes() {
    let f = forest(vec![NodeShape::Choice(vec![1]), NodeShape::Opaque]);
    assert_eq!(f.one_choice(0), Ok(1));
    assert_eq!(ambiguity_check(&f, 0), Ok(()));
}

#[test]
fn choice_with_two_alternatives_fails() {
    let f = forest(vec![
        NodeShape::Choice(vec![1, 2]),
        NodeShape::Opaque,
        NodeShape::Opaque,
    ]);
    assert_eq!(f.one_choice(0), Err(MoreThanOne));
    assert_eq!(ambiguity_check(&f, 0), Err(MoreThanOne));
}

#[test]
fn split_with_one_pairing_passes() {
    let f = forest(vec![
        NodeShape::Split(vec![(1, 2)]),
        NodeShape::Opaque,
        NodeShape::Opaque,
    ]);
    assert_eq!(f.one_split(0), Ok((1, 2)));
    assert_eq!(ambiguity_check(&f, 0), Ok(()));
}

#[test]
fn split_with_two_pairings_fails() {
    let f = forest(vec![
        NodeShape::Split(vec![(1, 2), (2, 1)]),
        NodeShape::Opaque,
        NodeShape::Opaque,
    ]);
    assert_eq!(f.one_split(0), Err(MoreThanOne));
    assert_eq!(ambiguity_check(&f, 0), Err(MoreThanOne));
}

#[test]
fn classifying_the_same_root_twice_agrees() {
    let f = forest(vec![
        NodeShape::Split(vec![(1, 2)]),
        NodeShape::Choice(vec![2]),
        NodeShape::Opt(Some(3)),
        NodeShape::Opaque,
    ]);
    assert_eq!(ambiguity_check(&f, 0), ambiguity_check(&f, 0));
    let g = forest(vec![NodeShape::Choice(vec![1, 1]), NodeShape::Opaque]);
    assert_eq!(ambiguity_check(&g, 0), ambiguity_check(&g, 0));
}

#[test]
fn ambiguity_found_behind_a_long_unambiguous_chain() {
    // 1000 alias nodes lead to a choice node with two alternatives: the
    // signal must still come back.
    let mut nodes = Vec::new();
    for i in 0..1000 {
        nodes.push(NodeShape::Alias(i + 1));
    }
    nodes.push(NodeShape::Choice(vec![1001, 1002]));
    nodes.push(NodeShape::Opaque);
    nodes.push(NodeShape::Opaque);
    let f = forest(nodes);
    assert_eq!(ambiguity_check(&f, 0), Err(MoreThanOne));
}

#[test]
fn shared_nodes_are_visited_once() {
    // A ladder of 60 split nodes whose two children are the same next node:
    // the forest is a DAG with 61 distinct nodes, but a traversal without a
    // visited-set would walk 2^60 paths. The visit count stays at most the
    // number of distinct nodes.
    let levels = 60;
    let mut nodes = Vec::new();
    for i in 0..levels {
        nodes.push(NodeShape::Split(vec![(i + 1, i + 1)]));
    }
    nodes.push(NodeShape::Opaque);
    let f = forest(nodes);
    let (result, visits) = ambiguity_check_visits(&f, 0);
    assert_eq!(result, Ok(()));
    assert!(visits <= levels + 1);
}

#[test]
fn well_formedness_rejects_bad_forests() {
    let out_of_range = Forest {
        nodes: vec![NodeShape::Alias(5)],
    };
    assert!(!out_of_range.is_well_formed());
    let empty_choice = Forest {
        nodes: vec![NodeShape::Choice(vec![])],
    };
    assert!(!empty_choice.is_well_formed());
    let empty_split = Forest {
        nodes: vec![NodeShape::Split(vec![])],
    };
    assert!(!empty_split.is_well_formed());
    let ok = Forest {
        nodes: vec![NodeShape::Opt(None)],
    };
    assert!(ok.is_well_formed());
    assert_eq!(ok.node_count(), 1);
}

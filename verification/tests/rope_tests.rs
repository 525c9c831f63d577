use iacc::rope::{Rope, RopeNode, LEAF_LENGTH};

fn long_text() -> String {
    let mut s = String::new();
    for i in 0..40 {
        s.push_str(&format!("line {} of the text; ", i));
    }
    s
}

fn leaf_lengths(node: &RopeNode, out: &mut Vec<usize>) {
    match node {
        RopeNode::Leaf(s) => out.push(s.len()),
        RopeNode::Internal { left, right, .. } => {
            leaf_lengths(left, out);
            leaf_lengths(right, out);
        }
    }
}

#[test]
fn test_new_rope() {
    let rope = Rope::new("Hello");
    assert_eq!(rope.len(), 5);
}

#[test]
fn test_collect_leaf() {
    let rope = Rope::new("Hello");
    assert_eq!(rope.collect(), "Hello");
}

#[test]
fn test_collect_internal() {
    let rope = Rope {
        root: RopeNode::Internal {
            length: 12,
            left: Box::new(RopeNode::Leaf("Hello, ".to_string())),
            right: Box::new(RopeNode::Leaf("World".to_string())),
        },
    };
    assert_eq!(rope.collect(), "Hello, World");
}

#[test]
fn test_nested_collect() {
    let rope = Rope {
        root: RopeNode::Internal {
            length: 6,
            left: Box::new(RopeNode::Internal {
                length: 3,
                left: Box::new(RopeNode::Leaf("Pat".to_string())),
                right: Box::new(RopeNode::Leaf("rik".to_string())),
            }),
            right: Box::new(RopeNode::Leaf(" the Barbarian".to_string())),
        },
    };

    let result = "Patrik the Barbarian";
    assert_eq!(rope.collect(), result);
    assert_eq!(rope.len(), result.len());
}

#[test]
fn rope_len_counts_bytes() {
    let rope = Rope::new("h\u{e9}llo");
    assert_eq!(rope.len(), 6);
    assert_eq!(rope.collect(), "h\u{e9}llo");
}

#[test]
fn rope_empty() {
    let rope = Rope::new("");
    assert_eq!(rope.len(), 0);
    assert_eq!(rope.collect(), "");
    let built = Rope::build_balanced("");
    assert!(matches!(built.root, RopeNode::Leaf(_)));
    assert_eq!(built.collect(), "");
}

#[test]
fn build_balanced_short_is_one_leaf() {
    let text = "a".repeat(LEAF_LENGTH);
    let rope = Rope::build_balanced(&text);
    assert!(matches!(rope.root, RopeNode::Leaf(_)));
    assert_eq!(rope.collect(), text);
    assert_eq!(rope.len(), 64);
}

#[test]
fn build_balanced_splits_long_text() {
    let text = "a".repeat(LEAF_LENGTH + 1);
    let rope = Rope::build_balanced(&text);
    match &rope.root {
        RopeNode::Internal { length, left, right } => {
            assert_eq!(*length, 32);
            assert!(matches!(**left, RopeNode::Leaf(_)));
            assert!(matches!(**right, RopeNode::Leaf(_)));
            assert_eq!(left.len(), 32);
            assert_eq!(right.len(), 33);
        }
        RopeNode::Leaf(_) => panic!("a text of 65 bytes does not fit in one leaf"),
    }
    assert_eq!(rope.collect(), text);
    assert_eq!(rope.len(), 65);
}

#[test]
fn build_balanced_keeps_text_and_bounds_leaves() {
    let text = long_text();
    let rope = Rope::build_balanced(&text);
    assert_eq!(rope.collect(), text);
    assert_eq!(rope.len(), text.len());
    let mut lengths = Vec::new();
    leaf_lengths(&rope.root, &mut lengths);
    assert!(lengths.len() > 1);
    for n in lengths {
        assert!(n <= LEAF_LENGTH);
    }
}

#[test]
fn build_balanced_splits_between_characters() {
    let text = "\u{4e16}\u{754c}".repeat(40);
    let rope = Rope::build_balanced(&text);
    assert_eq!(rope.collect(), text);
    assert_eq!(rope.len(), 240);
    let node = Rope::build_balanced_node(&text);
    assert_eq!(node.len(), 240);
}

#[test]
fn concat_joins_texts() {
    let left = Rope::new("Hello, ");
    let rope = left.concat(Rope::new("World"));
    assert_eq!(rope.collect(), "Hello, World");
    assert_eq!(rope.len(), 12);
    match &rope.root {
        RopeNode::Internal { length, .. } => assert_eq!(*length, 7),
        RopeNode::Leaf(_) => panic!("a concatenation is an internal node"),
    }
    assert_eq!(left.collect(), "Hello, ");
}

#[test]
fn rebalance_keeps_text() {
    let mut rope = Rope::new("");
    let text = long_text();
    for word in text.split(' ') {
        rope = rope.concat(Rope::new(word));
        rope = rope.concat(Rope::new(" "));
    }
    let flat = rope.collect();
    let balanced = rope.rebalance();
    assert_eq!(balanced.collect(), flat);
    assert_eq!(balanced.len(), flat.len());
    let mut lengths = Vec::new();
    leaf_lengths(&balanced.root, &mut lengths);
    for n in lengths {
        assert!(n <= LEAF_LENGTH);
    }
}

#[test]
fn duplicate_copies_the_tree() {
    let rope = Rope::new("Hello").concat(Rope::new(", World"));
    let copy = Rope { root: rope.root.duplicate() };
    assert_eq!(copy.collect(), "Hello, World");
    assert_eq!(copy.len(), rope.len());
}

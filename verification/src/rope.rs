//! A rope: text held as a binary tree of string leaves.
//!
//! The rope is a text buffer of its own; the compiler pipeline does not use
//! it.

use std::collections::VecDeque;
use vstd::prelude::*;
use vstd::string::*;
use vstd::utf8::encode_utf8;

verus! {

/// The greatest length, in bytes, of a leaf that `build_balanced` makes.
pub const LEAF_LENGTH: usize = 64;

/// A rope.
#[derive(Debug)]
pub struct Rope {
    pub root: RopeNode,
}

/// A node of a rope.
#[derive(Debug)]
pub enum RopeNode {
    Leaf(String),
    Internal {
        /// The length in bytes of the text of the left subtree.
        length: usize,
        left: Box<RopeNode>,
        right: Box<RopeNode>,
    },
}

/// The length of `text` in bytes of UTF-8.
pub open spec fn byte_len(text: Seq<char>) -> nat {
    encode_utf8(text).len()
}

/// The length of a string in bytes.
fn byte_length(s: &str) -> (n: usize)
    ensures
        n == byte_len(s@),
{
    s.as_bytes().len()
}

/// The bytes of a string are in memory, so their number fits in a `usize`.
fn bytes_fit(s: &str)
    ensures
        byte_len(s@) <= usize::MAX,
{
    let _n: usize = byte_length(s);
}

impl RopeNode {
    /// The text of the subtree: that of its leaves, from left to right.
    pub open spec fn text(&self) -> Seq<char>
        decreases self,
    {
        match self {
            RopeNode::Leaf(s) => s@,
            RopeNode::Internal { left, right, .. } => left.text() + right.text(),
        }
    }

    /// The length that `len` computes: the bytes of a leaf; for an internal
    /// node its `length` and the length of its right subtree.
    pub open spec fn spec_len(&self) -> nat
        decreases self,
    {
        match self {
            RopeNode::Leaf(s) => byte_len(s@),
            RopeNode::Internal { length, right, .. } => *length as nat + right.spec_len(),
        }
    }

    /// Every internal node holds the length of its left subtree.
    pub open spec fn wf(&self) -> bool
        decreases self,
    {
        match self {
            RopeNode::Leaf(_) => true,
            RopeNode::Internal { length, left, right } => {
                &&& *length as nat == left.spec_len()
                &&& left.wf()
                &&& right.wf()
            },
        }
    }

    /// No leaf is longer than `LEAF_LENGTH` bytes.
    pub open spec fn leaves_bounded(&self) -> bool
        decreases self,
    {
        match self {
            RopeNode::Leaf(s) => byte_len(s@) <= LEAF_LENGTH,
            RopeNode::Internal { left, right, .. } => left.leaves_bounded()
                && right.leaves_bounded(),
        }
    }

    /// At every internal node the left subtree holds as many characters as
    /// the right one, or one fewer.
    pub open spec fn balanced(&self) -> bool
        decreases self,
    {
        match self {
            RopeNode::Leaf(_) => true,
            RopeNode::Internal { left, right, .. } => {
                &&& left.text().len() <= right.text().len() <= left.text().len() + 1
                &&& left.balanced()
                &&& right.balanced()
            },
        }
    }

    /// Whether the subtree is the one that is built for `text`: a leaf where
    /// `text` is at most `LEAF_LENGTH` bytes long, and else an internal
    /// node over the trees built for the two halves of its characters, the
    /// left half being the shorter where the halves differ.
    pub open spec fn built_from(&self, text: Seq<char>) -> bool
        decreases self,
    {
        match self {
            RopeNode::Leaf(s) => s@ == text && byte_len(text) <= LEAF_LENGTH,
            RopeNode::Internal { length, left, right } => {
                let mid = text.len() as int / 2;
                &&& byte_len(text) > LEAF_LENGTH
                &&& *length as nat == byte_len(text.subrange(0, mid))
                &&& left.built_from(text.subrange(0, mid))
                &&& right.built_from(text.subrange(mid, text.len() as int))
            },
        }
    }

    /// The number of nodes of the subtree.
    pub open spec fn size(&self) -> nat
        decreases self,
    {
        match self {
            RopeNode::Leaf(_) => 1,
            RopeNode::Internal { left, right, .. } => 1 + left.size() + right.size(),
        }
    }

    /// The length of the text in bytes.
    pub fn len(&self) -> (n: usize)
        requires
            self.spec_len() <= usize::MAX,
        ensures
            n == self.spec_len(),
        decreases self,
    {
        match self {
            RopeNode::Leaf(s) => byte_length(s.as_str()),
            RopeNode::Internal { length, right, .. } => *length + right.len(),
        }
    }

    /// A copy of the subtree.
    pub fn duplicate(&self) -> (copy: RopeNode)
        ensures
            copy == *self,
        decreases self,
    {
        match self {
            RopeNode::Leaf(s) => RopeNode::Leaf(s.clone()),
            RopeNode::Internal { length, left, right } => RopeNode::Internal {
                length: *length,
                left: Box::new(left.duplicate()),
                right: Box::new(right.duplicate()),
            },
        }
    }
}

impl Clone for RopeNode {
    fn clone(&self) -> (copy: Self)
        ensures
            copy == *self,
    {
        self.duplicate()
    }
}

impl Clone for Rope {
    fn clone(&self) -> (copy: Self)
        ensures
            copy == *self,
    {
        Rope { root: self.root.duplicate() }
    }
}

/// The text still to be collected from a stack of subtrees: that of the top
/// of the stack first.
pub open spec fn pending_text(stack: Seq<&RopeNode>) -> Seq<char>
    decreases stack.len(),
{
    if stack.len() == 0 {
        Seq::empty()
    } else {
        stack.last().text() + pending_text(stack.drop_last())
    }
}

/// The number of nodes in a stack of subtrees.
pub open spec fn pending_size(stack: Seq<&RopeNode>) -> nat
    decreases stack.len(),
{
    if stack.len() == 0 {
        0
    } else {
        stack.last().size() + pending_size(stack.drop_last())
    }
}

/// A subtree pushed on a stack is collected first and adds its nodes.
pub proof fn lemma_pending_push(stack: Seq<&RopeNode>, node: &RopeNode)
    ensures
        pending_text(stack.push(node)) == node.text() + pending_text(stack),
        pending_size(stack.push(node)) == node.size() + pending_size(stack),
{
    assert(stack.push(node).drop_last() =~= stack);
}

/// The bytes of a text are those of its first part, then those of the rest.
pub proof fn lemma_encode_concat(a: Seq<char>, b: Seq<char>)
    ensures
        encode_utf8(a + b) == encode_utf8(a) + encode_utf8(b),
    decreases a.len(),
{
    if a.len() == 0 {
        assert(a + b =~= b);
        assert(encode_utf8(a) + encode_utf8(b) =~= encode_utf8(b));
    } else {
        assert((a + b).drop_first() =~= a.drop_first() + b);
        lemma_encode_concat(a.drop_first(), b);
        assert((a + b)[0] == a[0]);
        assert(encode_utf8(a + b) =~= encode_utf8(a) + encode_utf8(b));
    }
}

/// A character takes at most four bytes.
pub proof fn lemma_byte_len_bound(text: Seq<char>)
    ensures
        byte_len(text) <= 4 * text.len(),
    decreases text.len(),
{
    if text.len() > 0 {
        lemma_byte_len_bound(text.drop_first());
    }
}

/// In a well-formed rope, `len` is the length of the text in bytes.
pub proof fn lemma_len_is_byte_len(node: &RopeNode)
    requires
        node.wf(),
    ensures
        node.spec_len() == byte_len(node.text()),
    decreases node,
{
    match node {
        RopeNode::Leaf(_) => {},
        RopeNode::Internal { left, right, .. } => {
            lemma_len_is_byte_len(left);
            lemma_len_is_byte_len(right);
            lemma_encode_concat(left.text(), right.text());
        },
    }
}

impl Rope {
    /// A rope of one leaf that holds `s`.
    pub fn new(s: &str) -> (rope: Self)
        ensures
            rope.root matches RopeNode::Leaf(leaf) && leaf@ == s@,
            rope.root.text() == s@,
            rope.root.wf(),
            rope.root.spec_len() <= usize::MAX,
    {
        bytes_fit(s);
        Rope { root: RopeNode::Leaf(String::from_str(s)) }
    }

    /// The length of the text in bytes.
    pub fn len(&self) -> (n: usize)
        requires
            self.root.spec_len() <= usize::MAX,
        ensures
            n == self.root.spec_len(),
    {
        self.root.len()
    }

    /// A well-formed, balanced rope that holds `s`, with no leaf longer than
    /// `LEAF_LENGTH` bytes.
    pub fn build_balanced(s: &str) -> (rope: Self)
        ensures
            rope.root.built_from(s@),
            rope.root.text() == s@,
            rope.root.wf(),
            rope.root.leaves_bounded(),
            rope.root.balanced(),
            rope.root.spec_len() <= usize::MAX,
    {
        if s.is_empty() {
            proof {
                reveal_strlit("");
                assert(s@ =~= ""@);
            }
            return Rope::new("");
        }
        if byte_length(s) <= LEAF_LENGTH {
            return Rope::new(s);
        }
        Rope { root: Self::build_balanced_node(s) }
    }

    /// The root of a well-formed, balanced tree that holds `s`: a leaf where
    /// `s` is at most `LEAF_LENGTH` bytes long, and else an internal node
    /// over the two halves of its characters.
    pub fn build_balanced_node(s: &str) -> (node: RopeNode)
        ensures
            node.built_from(s@),
            node.text() == s@,
            node.wf(),
            node.leaves_bounded(),
            node.balanced(),
            node.spec_len() <= usize::MAX,
        decreases s@.len(),
    {
        bytes_fit(s);
        if byte_length(s) <= LEAF_LENGTH {
            return RopeNode::Leaf(String::from_str(s));
        }
        proof {
            lemma_byte_len_bound(s@);
        }
        let count = s.unicode_len();
        let mid = count / 2;
        let left_s = s.substring_char(0, mid);
        let right_s = s.substring_char(mid, count);
        let left = Self::build_balanced_node(left_s);
        let right = Self::build_balanced_node(right_s);
        proof {
            assert(s@ =~= left_s@ + right_s@);
            lemma_len_is_byte_len(&left);
            lemma_len_is_byte_len(&right);
            lemma_encode_concat(left_s@, right_s@);
        }
        RopeNode::Internal {
            length: byte_length(left_s),
            left: Box::new(left),
            right: Box::new(right),
        }
    }

    /// A balanced rope that holds the same text.
    pub fn rebalance(&self) -> (rope: Rope)
        ensures
            rope.root.built_from(self.root.text()),
            rope.root.spec_len() <= usize::MAX,
            rope.root.text() == self.root.text(),
            rope.root.wf(),
            rope.root.leaves_bounded(),
            rope.root.balanced(),
    {
        let s = self.collect();
        Rope::build_balanced(s.as_str())
    }

    /// The text of the rope as one string.
    pub fn collect(&self) -> (s: String)
        ensures
            s@ == self.root.text(),
    {
        let mut out = String::new();
        let mut deque: VecDeque<&RopeNode> = VecDeque::new();
        deque.push_back(&self.root);
        proof {
            lemma_pending_push(Seq::empty(), &self.root);
            assert(deque@ =~= Seq::<&RopeNode>::empty().push(&self.root));
            assert(out@ + pending_text(deque@) =~= self.root.text());
        }
        while deque.len() > 0
            invariant
                out@ + pending_text(deque@) == self.root.text(),
            decreases pending_size(deque@),
        {
            let ghost before = deque@;
            let ghost text = out@;
            let node = deque.pop_back().unwrap();
            proof {
                assert(before =~= deque@.push(node));
                lemma_pending_push(deque@, node);
            }
            match node {
                RopeNode::Leaf(s) => {
                    out.append(s.as_str());
                    assert(out@ + pending_text(deque@) =~= text + pending_text(before));
                },
                RopeNode::Internal { left, right, .. } => {
                    let ghost rest = deque@;
                    deque.push_back(&**right);
                    deque.push_back(&**left);
                    proof {
                        lemma_pending_push(rest, &**right);
                        lemma_pending_push(rest.push(&**right), &**left);
                        assert(out@ + pending_text(deque@) =~= text + pending_text(before));
                    }
                },
            }
        }
        proof {
            assert(out@ + pending_text(deque@) =~= out@);
        }
        out
    }

    /// A rope that holds the text of `self`, then that of `other`.
    pub fn concat(&self, other: Rope) -> (rope: Rope)
        requires
            self.root.spec_len() <= usize::MAX,
        ensures
            rope.root == (RopeNode::Internal {
                length: self.root.spec_len() as usize,
                left: Box::new(self.root),
                right: Box::new(other.root),
            }),
            rope.root.text() == self.root.text() + other.root.text(),
            self.root.wf() && other.root.wf() ==> rope.root.wf(),
            rope.root.spec_len() == self.root.spec_len() + other.root.spec_len(),
    {
        Rope {
            root: RopeNode::Internal {
                length: self.len(),
                left: Box::new(self.root.duplicate()),
                right: Box::new(other.root),
            },
        }
    }
}

} // verus!

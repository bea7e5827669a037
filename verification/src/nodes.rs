//! The node model: the syntax tree as an arena. Every element of the tree,
//! token or node, is one entry; an entry names its parent by handle, and a
//! node's children are the entries that name it, in the order of the input.

use vstd::prelude::*;
use crate::tokens::Token;

verus! {

/// The kinds of node.
#[derive(Copy, Clone, PartialEq, Eq, Structural, Debug)]
pub enum NodeKind {
    Root,
    Section,
    KeyValue,
    QuoteBlock,
    VerbatimBlock,
    Error,
}

/// What an entry is: a token, by its index in the token stream, or a node.
#[derive(Copy, Clone, PartialEq, Eq, Structural, Debug)]
pub enum Item {
    Token(usize),
    Node(NodeKind),
}

/// One element of the tree and the handle of the node it belongs to.
#[derive(Copy, Clone, PartialEq, Eq, Structural, Debug)]
pub struct Entry {
    pub item: Item,
    pub parent: usize,
}

/// The handle `h` names a node among `entries`.
pub open spec fn is_node_handle(entries: Seq<Entry>, h: usize) -> bool {
    h < entries.len() && entries[h as int].item is Node
}

/// The entries form one tree: the first is the root, and every other entry
/// belongs to a node that stands before it.
pub open spec fn tree_wf(entries: Seq<Entry>) -> bool {
    &&& entries.len() >= 1
    &&& entries[0] == (Entry { item: Item::Node(NodeKind::Root), parent: 0 })
    &&& forall|i: int|
        0 < i < entries.len() ==> (#[trigger] entries[i]).parent < i && is_node_handle(
            entries,
            entries[i].parent,
        )
}

/// The handles of the children of `h` among the first `n` entries, in
/// order.
pub open spec fn children_upto(entries: Seq<Entry>, h: usize, n: int) -> Seq<usize>
    decreases n,
{
    if n <= 1 || n > entries.len() {
        Seq::empty()
    } else if entries[n - 1].parent == h {
        children_upto(entries, h, n - 1).push((n - 1) as usize)
    } else {
        children_upto(entries, h, n - 1)
    }
}

/// How many steps lead from the entry `h` up to the root.
pub open spec fn depth_of(entries: Seq<Entry>, h: int) -> nat
    decreases h,
{
    if 0 < h < entries.len() && entries[h].parent < h {
        1 + depth_of(entries, entries[h].parent as int)
    } else {
        0
    }
}

/// A node as its children's owner sees it: its handle and its kind.
#[derive(Copy, Clone, PartialEq, Eq, Structural, Debug)]
pub struct Node {
    pub handle: usize,
    pub kind: NodeKind,
}

/// A child of a node: a token of the stream, or a node of the tree.
#[derive(Debug)]
pub enum SyntaxElement<'a> {
    Token(&'a Token<'a>),
    Node(Node),
}

/// A syntax tree. The root has the handle 0.
#[derive(Debug)]
pub struct SyntaxTree {
    pub entries: Vec<Entry>,
}

impl SyntaxTree {
    /// The entries form one tree.
    pub open spec fn wf(&self) -> bool {
        tree_wf(self.entries@)
    }

    /// The number of entries; handles are the numbers below it.
    pub fn len(&self) -> (n: usize)
        ensures
            n == self.entries@.len(),
    {
        self.entries.len()
    }

    /// The entry with the handle `h`.
    pub fn entry(&self, h: usize) -> (e: Entry)
        requires
            h < self.entries@.len(),
        ensures
            e == self.entries@[h as int],
    {
        self.entries[h]
    }

    /// The kind of the node with the handle `h`; `None` where `h` names a
    /// token or nothing.
    pub fn kind(&self, h: usize) -> (k: Option<NodeKind>)
        ensures
            k == (if h < self.entries@.len() {
                match self.entries@[h as int].item {
                    Item::Node(kind) => Some(kind),
                    Item::Token(_) => None,
                }
            } else {
                None
            }),
    {
        if h < self.entries.len() {
            match self.entries[h].item {
                Item::Node(kind) => Some(kind),
                Item::Token(_) => None,
            }
        } else {
            None
        }
    }

    /// The element with the handle `h`: a node, or the token of `tokens`
    /// that the entry names. `None` where `h` names no entry, or the entry
    /// a token that `tokens` does not hold.
    pub fn element<'a>(&self, tokens: &'a Vec<Token<'a>>, h: usize) -> (out: Option<SyntaxElement<'a>>)
        ensures
            h >= self.entries@.len() ==> out is None,
            h < self.entries@.len() ==> match self.entries@[h as int].item {
                Item::Node(kind) => out == Some(SyntaxElement::Node(Node { handle: h, kind })),
                Item::Token(i) => if i < tokens@.len() {
                    out == Some(SyntaxElement::Token(&tokens@[i as int]))
                } else {
                    out is None
                },
            },
    {
        if h >= self.entries.len() {
            return None;
        }
        match self.entries[h].item {
            Item::Node(kind) => Some(SyntaxElement::Node(Node { handle: h, kind })),
            Item::Token(i) => if i < tokens.len() {
                Some(SyntaxElement::Token(&tokens[i]))
            } else {
                None
            },
        }
    }

    /// The handles of the children of `h`, in the order of the input.
    pub fn children(&self, h: usize) -> (list: Vec<usize>)
        ensures
            list@ == children_upto(self.entries@, h, self.entries@.len() as int),
    {
        let n: usize = self.entries.len();
        let mut list: Vec<usize> = Vec::new();
        let mut i: usize = 1;
        while i < n
            invariant
                n == self.entries@.len(),
                1 <= i,
                i <= n || n == 0,
                list@ == children_upto(self.entries@, h, i as int),
            decreases n - i,
        {
            if self.entries[i].parent == h {
                list.push(i);
            }
            i = i + 1;
        }
        list
    }

    /// The number of steps from the entry `h` up to the root.
    pub fn depth(&self, h: usize) -> (d: usize)
        requires
            self.wf(),
            h < self.entries@.len(),
        ensures
            d == depth_of(self.entries@, h as int),
    {
        let mut at: usize = h;
        let mut d: usize = 0;
        while at > 0
            invariant
                self.wf(),
                at < self.entries@.len(),
                d + at <= h,
                depth_of(self.entries@, h as int) == d + depth_of(self.entries@, at as int),
            decreases at,
        {
            at = self.entries[at].parent;
            d = d + 1;
        }
        d
    }
}

} // verus!

use vstd::prelude::*;
use crate::tag::QName;

verus! {

/// An attribute of a start tag.
#[derive(PartialEq, Eq, Debug)]
pub struct Attr {
    pub name: QName,
    pub value: String,
}

/// Content of an element, as the tokenizer delivers it.
#[derive(PartialEq, Eq, Debug)]
pub enum Node {
    Elem(Element),
    Text(String),
}

/// An element: its name, its attributes in source order and its content in
/// source order. A self-closing element has no content.
#[derive(PartialEq, Eq, Debug)]
pub struct Element {
    pub name: QName,
    pub attrs: Vec<Attr>,
    pub children: Vec<Node>,
}

/// The text of the last text node among the first `n` nodes, if any.
pub open spec fn last_text(nodes: Seq<Node>, n: nat) -> Option<Seq<char>>
    decreases n,
{
    if n == 0 || n > nodes.len() {
        None
    } else {
        match nodes[n - 1] {
            Node::Text(s) => Some(s@),
            Node::Elem(_) => last_text(nodes, (n - 1) as nat),
        }
    }
}

/// The text content of an element: its last text node, or empty.
pub open spec fn text_of(e: Element) -> Seq<char> {
    match last_text(e.children@, e.children.len() as nat) {
        Some(s) => s,
        None => Seq::empty(),
    }
}

impl Element {
    /// Reads the element's text content.
    pub fn text(&self) -> (r: String)
        ensures
            r@ == text_of(*self),
    {
        let mut i: usize = self.children.len();
        while i > 0
            invariant
                i <= self.children.len(),
                last_text(self.children@, self.children.len() as nat) == last_text(
                    self.children@,
                    i as nat,
                ),
            decreases i,
        {
            match &self.children[i - 1] {
                Node::Text(s) => {
                    return s.clone();
                },
                Node::Elem(_) => {},
            }
            i = i - 1;
        }
        String::new()
    }
}

} // verus!

//! Trees written down as text.

use crate::tree::Tree;
use core::fmt::Debug;
use vstd::prelude::*;
use vstd::string::StringExecFns;

verus! {

/// The text of one node: the key's text in square brackets, followed inside
/// them by the left and the right subtree's text, each in parentheses.
pub open spec fn bracketed(key: Seq<char>, left: Seq<char>, right: Seq<char>) -> Seq<char> {
    seq!['['] + key + seq!['('] + left + seq![')', '('] + right + seq![')', ']']
}

impl<T> Tree<T> {
    /// `text` writes this tree down: an empty tree as nothing, a node as
    /// `bracketed` says, with some text for its item.
    pub open spec fn written_as(self, text: Seq<char>) -> bool
        decreases self,
    {
        match self {
            Tree::Empty => text == Seq::<char>::empty(),
            Tree::Node { left, item, right } => exists|k: Seq<char>, l: Seq<char>, r: Seq<char>|
                #![trigger bracketed(k, l, r)]
                left.written_as(l) && right.written_as(r) && text == bracketed(k, l, r),
        }
    }
}

/// The text that `Debug` gives for `item`. A type's `Debug` impl is its own
/// affair, so nothing is claimed of the text.
#[verifier::external_body]
pub(crate) fn debug_text<T: Debug>(item: &T) -> (text: String) {
    format!("{:?}", item)
}

/// Writes down one node from the texts of its key and of its two subtrees.
pub fn frame(key: &str, left: &str, right: &str) -> (text: String)
    ensures
        text@ == bracketed(key@, left@, right@),
{
    let mut text = String::from_str("[");
    text.append(key);
    text.append("(");
    text.append(left);
    text.append(")(");
    text.append(right);
    text.append(")]");
    proof {
        reveal_strlit("[");
        reveal_strlit("(");
        reveal_strlit(")(");
        reveal_strlit(")]");
        assert(text@ =~= bracketed(key@, left@, right@));
    }
    text
}

} // verus!

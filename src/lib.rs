//! JSON pointers (RFC 6901) and the operations that read, resolve and insert
//! values at the location a pointer addresses inside a JSON tree.

mod error;
pub mod pointer;
pub mod value;

pub use error::Error;
pub use pointer::Pointer;
pub use value::Value;

use vstd::prelude::*;

use crate::pointer::{decode, parent_text, raw_key, tokens_of};

verus! {

/// Manipulation of a JSON tree through pointers.
///
/// A tree type states, through the spec functions below, which node a path of
/// decoded tokens addresses, what replacing such a node gives, and how a keyed
/// (object) node takes an entry.
pub trait ValueExt: Sized {
    /// The node that the decoded tokens `toks` address, if it exists.
    spec fn node_at(&self, toks: Seq<Seq<char>>) -> Option<Self>;

    /// `r` is this tree with its node at `toks` replaced by `n`.
    spec fn with_node_at(&self, toks: Seq<Seq<char>>, n: Self, r: Self) -> bool;

    /// For a keyed node, the value it holds under `k` (`Some(None)` when there
    /// is none); `None` for a node that takes no keys.
    spec fn keyed_entry(&self, k: Seq<char>) -> Option<Option<Self>>;

    /// `r` is this keyed node with `x` under `k`.
    spec fn with_entry(&self, k: Seq<char>, x: Self, r: Self) -> bool;

    /// Inserts `value` at the location `pointer` addresses, and gives back the
    /// value that was there.
    ///
    /// The root pointer replaces the whole tree. Otherwise the parent of the
    /// pointer must exist (no missing node on the way is created) and take keys;
    /// the pointer's key is then set in it.
    fn insert_at(&mut self, pointer: &Pointer, value: Self) -> (r: Result<Option<Self>, Error>)
        ensures
            pointer@.len() == 0 ==> {
                &&& r == Ok::<Option<Self>, Error>(Some(*old(self)))
                &&& *final(self) == value
            },
            pointer@.len() > 0 ==> match old(self).node_at(tokens_of(parent_text(pointer@))) {
                None => {
                    &&& r == Err::<Option<Self>, Error>(Error::KeyNotFound)
                    &&& *final(self) == *old(self)
                },
                Some(node) => match node.keyed_entry(decode(raw_key(pointer@))) {
                    None => {
                        &&& r == Err::<Option<Self>, Error>(Error::UnsupportedInsertion)
                        &&& *final(self) == *old(self)
                    },
                    Some(previous) => {
                        &&& r == Ok::<Option<Self>, Error>(previous)
                        &&& exists|n2: Self|
                            node.with_entry(decode(raw_key(pointer@)), value, n2)
                            && old(self).with_node_at(tokens_of(parent_text(pointer@)), n2, *final(self))
                    },
                },
            },
    ;

    /// Sets `value` under `key` in this node when it takes keys, and gives back
    /// the value that was there.
    fn insert(&mut self, key: String, value: Self) -> (r: Result<Option<Self>, Error>)
        ensures
            match old(self).keyed_entry(key@) {
                Some(previous) => {
                    &&& r == Ok::<Option<Self>, Error>(previous)
                    &&& old(self).with_entry(key@, value, *final(self))
                },
                None => {
                    &&& r == Err::<Option<Self>, Error>(Error::UnsupportedInsertion)
                    &&& *final(self) == *old(self)
                },
            },
    ;

    /// Looks up the node that `pointer` addresses; `None` when the path does not exist.
    fn pointer(&self, pointer: &Pointer) -> (r: Option<&Self>)
        ensures
            r is Some <==> self.node_at(tokens_of(pointer@)) is Some,
            r is Some ==> *r->0 == self.node_at(tokens_of(pointer@))->0,
    ;

    /// Looks up the node that `pointer` addresses, for change in place.
    ///
    /// When the path exists, what is written through the result lands at that
    /// node of the tree; otherwise the tree is left as it was.
    fn pointer_mut(&mut self, pointer: &Pointer) -> (r: Option<&mut Self>)
        ensures
            r is Some <==> old(self).node_at(tokens_of(pointer@)) is Some,
            r is None ==> *final(self) == *old(self),
            r is Some ==> *r->0 == old(self).node_at(tokens_of(pointer@))->0,
            r is Some ==> old(self).with_node_at(tokens_of(pointer@), *final(r->0), *final(self)),
    ;
}

} // verus!

use vstd::prelude::*;
use smallvec::SmallVec;
use crate::document::join_dots;

verus! {

/// The stack of keys from the document root to the mapping being converted, held
/// inline for the first 32 levels.
#[verifier::external_body]
pub struct KeyStack {
    keys: SmallVec<[String; 32]>,
}

/// The keys held by a key stack, root first.
pub uninterp spec fn stack_keys(s: KeyStack) -> Seq<Seq<char>>;

/// Relies on smallvec's SmallVec::with_capacity: a new vector holds nothing.
#[verifier::external_body]
pub(crate) fn new_stack(capacity: usize) -> (r: KeyStack)
    ensures
        stack_keys(r) == Seq::<Seq<char>>::empty(),
{
    KeyStack { keys: SmallVec::with_capacity(capacity) }
}

/// Relies on smallvec's SmallVec::push: the key goes on top.
#[verifier::external_body]
pub(crate) fn push_key(s: &mut KeyStack, key: String)
    ensures
        stack_keys(*final(s)) == stack_keys(*old(s)).push(key@),
{
    s.keys.push(key)
}

/// Relies on smallvec's SmallVec::pop: the top key is removed.
#[verifier::external_body]
pub(crate) fn pop_key(s: &mut KeyStack)
    requires
        stack_keys(*old(s)).len() > 0,
    ensures
        stack_keys(*final(s)) == stack_keys(*old(s)).drop_last(),
{
    s.keys.pop();
}

/// Relies on std's slice join (reached through SmallVec's deref to a slice): the keys
/// joined with `'.'`.
#[verifier::external_body]
pub(crate) fn joined_keys(s: &KeyStack) -> (r: String)
    ensures
        r@ == join_dots(stack_keys(*s)),
{
    s.keys.join(".")
}

} // verus!

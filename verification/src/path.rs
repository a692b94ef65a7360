//! Repository-relative paths as sequences of name components.
//!
//! A path is kept as bytes throughout; it is never decoded to text here.

use vstd::prelude::*;
use crate::oid::bytes_eq;

verus! {

/// The byte that separates the components of a path.
pub const SEPARATOR: u8 = 0x2f;

/// The component that `cur` forms, if it holds anything.
pub open spec fn finished(cur: Seq<u8>) -> Seq<Seq<u8>> {
    if cur.len() == 0 {
        seq![]
    } else {
        seq![cur]
    }
}

/// The components of `cur` followed by `bytes`, where `cur` is the part of the
/// current component that has been read.
pub open spec fn split_from(bytes: Seq<u8>, cur: Seq<u8>) -> Seq<Seq<u8>>
    decreases bytes.len(),
{
    if bytes.len() == 0 {
        finished(cur)
    } else if bytes[0] == SEPARATOR {
        finished(cur) + split_from(bytes.drop_first(), seq![])
    } else {
        split_from(bytes.drop_first(), cur.push(bytes[0]))
    }
}

/// The components of a path: the maximal runs of bytes between separators.
/// Empty runs (a leading, trailing or doubled separator) give no component.
pub open spec fn split_path(bytes: Seq<u8>) -> Seq<Seq<u8>> {
    split_from(bytes, seq![])
}

/// The bytes of a path: its components with one separator between neighbours.
pub open spec fn join_path(components: Seq<Seq<u8>>) -> Seq<u8>
    decreases components.len(),
{
    if components.len() == 0 {
        seq![]
    } else if components.len() == 1 {
        components[0]
    } else {
        join_path(components.drop_last()) + seq![SEPARATOR] + components.last()
    }
}

/// Whether a component can be a name in a tree: it is not empty and holds no
/// separator.
pub open spec fn is_name(component: Seq<u8>) -> bool {
    component.len() > 0 && forall|i: int| 0 <= i < component.len() ==> component[i] != SEPARATOR
}

/// Whether every component is a name.
pub open spec fn all_names(components: Seq<Seq<u8>>) -> bool {
    forall|i: int| 0 <= i < components.len() ==> is_name(#[trigger] components[i])
}

proof fn lemma_split_from_names(bytes: Seq<u8>, cur: Seq<u8>)
    requires
        forall|i: int| 0 <= i < cur.len() ==> cur[i] != SEPARATOR,
    ensures
        all_names(split_from(bytes, cur)),
    decreases bytes.len(),
{
    if bytes.len() == 0 {
    } else if bytes[0] == SEPARATOR {
        lemma_split_from_names(bytes.drop_first(), seq![]);
    } else {
        lemma_split_from_names(bytes.drop_first(), cur.push(bytes[0]));
    }
}

/// Splitting yields names only.
pub proof fn lemma_split_path_names(bytes: Seq<u8>)
    ensures
        all_names(split_path(bytes)),
{
    lemma_split_from_names(bytes, seq![]);
}

proof fn lemma_split_from_append(a: Seq<u8>, b: Seq<u8>, cur: Seq<u8>)
    requires
        forall|i: int| 0 <= i < a.len() ==> a[i] != SEPARATOR,
    ensures
        split_from(a + b, cur) == split_from(b, cur + a),
    decreases a.len(),
{
    if a.len() == 0 {
        assert(a + b =~= b);
        assert(cur + a =~= cur);
    } else {
        assert((a + b).drop_first() =~= a.drop_first() + b);
        assert(cur.push(a[0]) + a.drop_first() =~= cur + a);
        lemma_split_from_append(a.drop_first(), b, cur.push(a[0]));
    }
}

/// Splitting what joining made gives the components back, when each of them
/// is a name.
pub proof fn lemma_split_join(components: Seq<Seq<u8>>)
    requires
        all_names(components),
    ensures
        split_path(join_path(components)) == components,
    decreases components.len(),
{
    lemma_split_join_from(components, seq![]);
    if components.len() == 0 {
    } else {
        assert(seq![] + join_path(components) =~= join_path(components));
    }
}

/// Reading the joined components after some bytes without a separator gives
/// the components, the first of them lengthened by those bytes.
proof fn lemma_split_join_from(components: Seq<Seq<u8>>, cur: Seq<u8>)
    requires
        all_names(components),
        forall|i: int| 0 <= i < cur.len() ==> cur[i] != SEPARATOR,
    ensures
        components.len() == 0 ==> split_from(join_path(components), cur) == finished(cur),
        components.len() > 0 ==> split_from(join_path(components), cur) == seq![
            cur + components[0],
        ] + components.drop_first(),
    decreases components.len(),
{
    if components.len() == 0 {
    } else if components.len() == 1 {
        let c = components[0];
        assert(is_name(c));
        assert(c + seq![] =~= c);
        lemma_split_from_append(c, seq![], cur);
        assert(seq![cur + c] + components.drop_first() =~= seq![cur + c]);
    } else {
        let init = components.drop_last();
        let last = components.last();
        assert(is_name(last));
        assert forall|i: int| 0 <= i < init.len() implies is_name(#[trigger] init[i]) by {
            assert(init[i] == components[i]);
        }
        lemma_split_join_from(init, cur);
        lemma_split_tail(join_path(init), last, cur);
        assert(seq![cur + init[0]] + init.drop_first() + seq![last] =~= seq![cur + components[0]]
            + components.drop_first());
    }
}

/// A separator and a name after `a` add that name to the components of `a`.
proof fn lemma_split_tail(a: Seq<u8>, name: Seq<u8>, cur: Seq<u8>)
    requires
        is_name(name),
    ensures
        split_from(a + seq![SEPARATOR] + name, cur) == split_from(a, cur) + seq![name],
    decreases a.len(),
{
    let whole = a + seq![SEPARATOR] + name;
    if a.len() == 0 {
        assert(whole.drop_first() =~= name);
        assert(name + seq![] =~= name);
        lemma_split_from_append(name, seq![], seq![]);
        assert(seq![] + name =~= name);
        assert(finished(cur) + seq![name] =~= split_from(a, cur) + seq![name]);
    } else {
        assert(whole.drop_first() =~= a.drop_first() + seq![SEPARATOR] + name);
        if a[0] == SEPARATOR {
            lemma_split_tail(a.drop_first(), name, seq![]);
            assert(finished(cur) + (split_from(a.drop_first(), seq![]) + seq![name]) =~= (finished(
                cur,
            ) + split_from(a.drop_first(), seq![])) + seq![name]);
        } else {
            lemma_split_tail(a.drop_first(), name, cur.push(a[0]));
        }
    }
}

/// A path inside a tree: the names to follow from the root, outermost first.
#[derive(Debug, PartialEq, Eq, PartialOrd, Ord, Hash)]
pub struct TreePath {
    /// The names, outermost first.
    pub components: Vec<Vec<u8>>,
}

impl View for TreePath {
    type V = Seq<Seq<u8>>;

    open spec fn view(&self) -> Seq<Seq<u8>> {
        Seq::new(self.components@.len(), |i: int| self.components@[i]@)
    }
}

impl Clone for TreePath {
    fn clone(&self) -> (r: TreePath)
        ensures
            r@ == self@,
    {
        let mut components: Vec<Vec<u8>> = Vec::new();
        let mut i: usize = 0;
        while i < self.components.len()
            invariant
                i <= self.components@.len(),
                components@.len() == i,
                forall|k: int| 0 <= k < i ==> components@[k]@ == self.components@[k]@,
            decreases self.components@.len() - i,
        {
            components.push(vstd::slice::slice_to_vec(self.components[i].as_slice()));
            i += 1;
        }
        let r = TreePath { components };
        assert(r@ =~= self@);
        r
    }
}

impl TreePath {
    /// Reads a path from its bytes.
    pub fn from_bytes(bytes: &[u8]) -> (path: TreePath)
        ensures
            path@ == split_path(bytes@),
            all_names(path@),
    {
        let mut components: Vec<Vec<u8>> = Vec::new();
        let mut cur: Vec<u8> = Vec::new();
        let mut i: usize = 0;
        let ghost mut done: Seq<Seq<u8>> = seq![];
        assert(bytes@.skip(0) =~= bytes@);
        while i < bytes.len()
            invariant
                i <= bytes@.len(),
                done == Seq::new(components@.len(), |k: int| components@[k]@),
                split_path(bytes@) == done + split_from(bytes@.skip(i as int), cur@),
            decreases bytes@.len() - i,
        {
            let ghost rest = bytes@.skip(i as int);
            assert(rest[0] == bytes@[i as int]);
            assert(rest.drop_first() =~= bytes@.skip(i + 1));
            let b: u8 = bytes[i];
            let ghost old_cur = cur@;
            let ghost before = done;
            if b == SEPARATOR {
                assert(split_from(rest, old_cur) == finished(old_cur) + split_from(
                    rest.drop_first(),
                    seq![],
                ));
                if cur.len() > 0 {
                    proof {
                        done = done.push(cur@);
                    }
                    components.push(cur);
                    assert(done =~= Seq::new(components@.len(), |k: int| components@[k]@));
                    cur = Vec::new();
                    assert(before + (seq![old_cur] + split_from(rest.drop_first(), seq![])) =~= done
                        + split_from(rest.drop_first(), cur@));
                } else {
                    assert(cur@ =~= seq![]);
                    assert(before + (finished(old_cur) + split_from(rest.drop_first(), seq![]))
                        =~= done + split_from(rest.drop_first(), cur@));
                }
            } else {
                cur.push(b);
                assert(split_from(rest, old_cur) == split_from(
                    rest.drop_first(),
                    old_cur.push(rest[0]),
                ));
            }
            i += 1;
        }
        if cur.len() > 0 {
            proof {
                done = done.push(cur@);
            }
            components.push(cur);
        }
        let path = TreePath { components };
        proof {
            assert(path@ =~= split_path(bytes@));
            lemma_split_path_names(bytes@);
        }
        path
    }

    /// Writes the path as bytes.
    pub fn to_bytes(&self) -> (bytes: Vec<u8>)
        ensures
            bytes@ == join_path(self@),
    {
        let mut out: Vec<u8> = Vec::new();
        let mut i: usize = 0;
        while i < self.components.len()
            invariant
                i <= self.components@.len(),
                out@ == join_path(self@.take(i as int)),
            decreases self.components@.len() - i,
        {
            if i > 0 {
                out.push(SEPARATOR);
            }
            let component = &self.components[i];
            let ghost start = out@;
            let mut j: usize = 0;
            while j < component.len()
                invariant
                    j <= component@.len(),
                    out@ == start + component@.take(j as int),
                decreases component@.len() - j,
            {
                out.push(component[j]);
                assert(component@.take(j + 1) =~= component@.take(j as int).push(
                    component@[j as int],
                ));
                j += 1;
            }
            proof {
                assert(component@.take(j as int) =~= component@);
                let next = self@.take(i + 1);
                assert(next.drop_last() =~= self@.take(i as int));
                assert(next.last() == component@);
                if i == 0 {
                    assert(out@ =~= component@);
                }
            }
            i += 1;
        }
        assert(self@.take(i as int) =~= self@);
        out
    }

    /// The number of components.
    pub fn len(&self) -> (n: usize)
        ensures
            n == self@.len(),
    {
        self.components.len()
    }

    /// Whether two paths have the same components.
    pub fn same_as(&self, other: &TreePath) -> (r: bool)
        ensures
            r == (self@ == other@),
    {
        if self.components.len() != other.components.len() {
            return false;
        }
        let mut i: usize = 0;
        while i < self.components.len()
            invariant
                self@.len() == other@.len(),
                i <= self@.len(),
                forall|k: int| 0 <= k < i ==> self@[k] == other@[k],
            decreases self@.len() - i,
        {
            if !bytes_eq(self.components[i].as_slice(), other.components[i].as_slice()) {
                assert(self@[i as int] != other@[i as int]);
                return false;
            }
            i += 1;
        }
        assert(self@ =~= other@);
        true
    }

    /// Whether this path leads to `other` or to something above it.
    pub fn is_prefix_of(&self, other: &TreePath) -> (r: bool)
        ensures
            r == self@.is_prefix_of(other@),
    {
        if self.components.len() > other.components.len() {
            return false;
        }
        let mut i: usize = 0;
        while i < self.components.len()
            invariant
                self@.len() <= other@.len(),
                i <= self@.len(),
                forall|k: int| 0 <= k < i ==> self@[k] == other@[k],
            decreases self@.len() - i,
        {
            if !bytes_eq(self.components[i].as_slice(), other.components[i].as_slice()) {
                assert(self@[i as int] != other@.subrange(0, self@.len() as int)[i as int]);
                return false;
            }
            i += 1;
        }
        assert(self@ =~= other@.subrange(0, self@.len() as int));
        true
    }
}

} // verus!

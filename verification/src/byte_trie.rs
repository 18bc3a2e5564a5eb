//! A prefix dictionary of byte separators.
//!
//! The trie records every non-empty prefix of every separator stored in it.
//! Nodes carry no end-of-word marker: a stored path counts as a complete
//! separator exactly when nothing stored extends it.

use std::collections::HashMap;
use vstd::prelude::*;

verus! {

broadcast use vstd::std_specs::hash::group_hash_axioms;

/// A rooted tree whose edges are labelled by single bytes.
#[derive(Debug, PartialEq)]
pub struct ByteTrie {
    children: HashMap<u8, ByteTrie>,
}

/// What a trie knows about a candidate separator.
#[derive(Debug, Clone, Copy, PartialEq, Eq, Structural)]
pub enum Membership {
    /// No stored separator begins with the candidate.
    NotIncluded,
    /// The candidate is stored, and so is something longer that begins with it.
    Included,
    /// The candidate is stored and nothing stored extends it.
    IncludedAndTerminal,
}

/// The non-empty prefixes of `s`.
pub open spec fn prefixes(s: Seq<u8>) -> Set<Seq<u8>> {
    Set::new(|p: Seq<u8>| 0 < p.len() <= s.len() && p == s.subrange(0, p.len() as int))
}

/// Whether `p` is a prefix of `s`; the empty string and `s` itself count.
pub open spec fn is_prefix_of(p: Seq<u8>, s: Seq<u8>) -> bool {
    p.len() <= s.len() && p == s.subrange(0, p.len() as int)
}

/// What a trie stores once every member of `separators` has been inserted
/// into it: the non-empty prefixes of the members.
pub open spec fn closure(separators: Set<Seq<u8>>) -> Set<Seq<u8>> {
    Set::new(
        |p: Seq<u8>| exists|s: Seq<u8>| separators.contains(s) && #[trigger] prefixes(s).contains(p),
    )
}

/// The stored paths after `s` has been inserted into a trie that stored `paths`.
pub open spec fn inserted(paths: Set<Seq<u8>>, s: Seq<u8>) -> Set<Seq<u8>> {
    paths.union(prefixes(s))
}

/// The stored paths after a trie that stored `theirs` has been merged into
/// one that stored `ours`.
pub open spec fn merged(ours: Set<Seq<u8>>, theirs: Set<Seq<u8>>) -> Set<Seq<u8>> {
    ours.union(theirs)
}

/// The answer that a set of stored paths gives for the candidate `p`.  The
/// empty candidate begins every stored path: it is included as soon as
/// anything is stored, and it is never a separator itself.
pub open spec fn membership_in(paths: Set<Seq<u8>>, p: Seq<u8>) -> Membership {
    if p.len() == 0 {
        if paths == Set::<Seq<u8>>::empty() {
            Membership::NotIncluded
        } else {
            Membership::Included
        }
    } else if !paths.contains(p) {
        Membership::NotIncluded
    } else if exists|b: u8| paths.contains(p.push(b)) {
        Membership::Included
    } else {
        Membership::IncludedAndTerminal
    }
}

impl View for ByteTrie {
    type V = Set<Seq<u8>>;

    /// The stored paths: every non-empty byte string that labels a walk from the root.
    closed spec fn view(&self) -> Set<Seq<u8>> {
        Set::new(|p: Seq<u8>| self.has_path(p))
    }
}

impl ByteTrie {
    /// Whether `path` labels a walk from the root.
    pub closed spec fn has_path(&self, path: Seq<u8>) -> bool
        decreases path.len(),
    {
        path.len() > 0 && self.children@.contains_key(path[0]) && (path.len() == 1
            || self.children@[path[0]].has_path(path.drop_first()))
    }

    /// An empty trie.
    pub fn new() -> (trie: ByteTrie)
        ensures
            trie@ == Set::<Seq<u8>>::empty(),
    {
        let trie = ByteTrie { children: HashMap::new() };
        assert(trie@ =~= Set::<Seq<u8>>::empty());
        trie
    }

    /// Whether nothing is stored.
    pub fn is_empty(&self) -> (empty: bool)
        ensures
            empty == (self@ == Set::<Seq<u8>>::empty()),
    {
        let empty = self.children.is_empty();
        proof {
            if empty {
                assert(self@ =~= Set::<Seq<u8>>::empty());
            } else {
                let b = choose|b: u8| self.children@.contains_key(b);
                assert(self.has_path(seq![b]));
                assert(self@.contains(seq![b]));
            }
        }
        empty
    }

    /// Stores `path`, and with it each of its non-empty prefixes.  An empty
    /// `path` stores nothing.
    pub fn insert(&mut self, path: &[u8])
        ensures
            final(self)@ == inserted(old(self)@, path@),
    {
        self.insert_from(path, 0);
        proof {
            assert(path@.subrange(0, path@.len() as int) =~= path@);
            assert(final(self)@ =~= inserted(old(self)@, path@));
        }
    }

    fn insert_from(&mut self, path: &[u8], start: usize)
        requires
            start <= path@.len(),
        ensures
            forall|p: Seq<u8>|
                final(self).has_path(p) <==> old(self).has_path(p) || prefixes(
                    path@.subrange(start as int, path@.len() as int),
                ).contains(p),
        decreases path@.len() - start,
    {
        if start >= path.len() {
            return ;
        }
        let head = path[start];
        let ghost tail = path@.subrange(start as int, path@.len() as int);
        let ghost rest = path@.subrange(start + 1, path@.len() as int);
        let mut child = match self.children.remove(&head) {
            Some(child) => child,
            None => ByteTrie::new(),
        };
        let ghost before = child;
        proof {
            if old(self).children@.contains_key(head) {
                assert(before == old(self).children@[head]);
            } else {
                assert(forall|q: Seq<u8>| before@.contains(q) == before.has_path(q));
            }
        }
        child.insert_from(path, start + 1);
        self.children.insert(head, child);
        proof {
            assert(tail.drop_first() =~= rest);
            assert forall|p: Seq<u8>|
                self.has_path(p) <==> old(self).has_path(p) || prefixes(tail).contains(p) by {
                lemma_prefixes_step(tail, p);
                if p.len() > 0 && p[0] == head && p.len() > 1 {
                    assert(before.has_path(p.drop_first()) <==> old(self).has_path(p));
                }
            }
        }
    }

    /// Classifies the candidate `path` against the stored separators.
    pub fn membership(&self, path: &[u8]) -> (m: Membership)
        ensures
            m == membership_in(self@, path@),
    {
        if path.len() == 0 {
            return if self.is_empty() {
                Membership::NotIncluded
            } else {
                Membership::Included
            };
        }
        let mut node = self;
        let mut i: usize = 0;
        while i < path.len()
            invariant
                i <= path@.len(),
                i > 0 ==> self.has_path(path@.subrange(0, i as int)),
                forall|q: Seq<u8>|
                    q.len() > 0 ==> (self.has_path(path@.subrange(0, i as int) + q)
                        <==> node.has_path(q)),
            decreases path@.len() - i,
        {
            let ghost seen = path@.subrange(0, i as int);
            match node.children.get(&path[i]) {
                None => {
                    proof {
                        let unseen = path@.subrange(i as int, path@.len() as int);
                        assert(seen + unseen =~= path@);
                        assert(!node.has_path(unseen));
                    }
                    return Membership::NotIncluded;
                },
                Some(child) => {
                    proof {
                        let next = path@.subrange(0, i + 1);
                        assert(seen + seq![path@[i as int]] =~= next);
                        assert(node.has_path(seq![path@[i as int]]));
                        assert forall|q: Seq<u8>| q.len() > 0 implies (self.has_path(next + q)
                            <==> child.has_path(q)) by {
                            let longer = seq![path@[i as int]] + q;
                            assert(seen + longer =~= next + q);
                            assert(longer.drop_first() =~= q);
                            assert(longer[0] == path@[i as int]);
                            assert(node.has_path(longer) <==> child.has_path(q));
                        }
                    }
                    node = child;
                    i += 1;
                },
            }
        }
        let terminal = node.children.is_empty();
        proof {
            assert(path@.subrange(0, i as int) =~= path@);
            assert forall|b: u8| self.has_path(#[trigger] path@.push(b)) <==> node.children@.contains_key(b) by {
                assert(path@ + seq![b] =~= path@.push(b));
                assert(node.has_path(seq![b]) <==> node.children@.contains_key(b));
            }
            if !terminal {
                let b = choose|b: u8| node.children@.contains_key(b);
                assert(self@.contains(path@.push(b)));
            }
        }
        if terminal {
            Membership::IncludedAndTerminal
        } else {
            Membership::Included
        }
    }
}

impl ByteTrie {
    /// Stores everything that `other` stores.
    pub fn merge(&mut self, other: ByteTrie)
        ensures
            final(self)@ == merged(old(self)@, other@),
    {
        self.merge_from(other);
        proof {
            assert(final(self)@ =~= merged(old(self)@, other@));
        }
    }

    fn merge_from(&mut self, other: ByteTrie)
        ensures
            forall|p: Seq<u8>|
                #![trigger final(self).has_path(p)]
                #![trigger old(self).has_path(p)]
                #![trigger other.has_path(p)]
                final(self).has_path(p) <==> old(self).has_path(p) || other.has_path(p),
        decreases other,
    {
        let mut theirs = other.children;
        let mut next: u16 = 0;
        while next < 256
            invariant
                next <= 256,
                theirs@.dom().finite(),
                forall|b: u8|
                    theirs@.contains_key(b) <==> b >= next && other.children@.contains_key(b),
                forall|b: u8| theirs@.contains_key(b) ==> theirs@[b] == other.children@[b],
                forall|b: u8|
                    b >= next ==> (self.children@.contains_key(b) <==> old(
                        self,
                    ).children@.contains_key(b)),
                forall|b: u8|
                    b >= next && self.children@.contains_key(b) ==> self.children@[b] == old(
                        self,
                    ).children@[b],
                forall|p: Seq<u8>|
                    #![trigger self.has_path(p)]
                    #![trigger old(self).has_path(p)]
                    #![trigger other.has_path(p)]
                    p.len() > 0 && p[0] < next ==> (self.has_path(p) <==> old(self).has_path(p)
                        || other.has_path(p)),
            decreases 256 - next,
        {
            let byte = next as u8;
            let ghost entered = *self;
            match theirs.remove(&byte) {
                None => {},
                Some(their_child) => {
                    assert(their_child == other.children@[byte]);
                    match self.children.remove(&byte) {
                        Some(mut mine) => {
                            let ghost before = mine;
                            assert(before == old(self).children@[byte]);
                            mine.merge_from(their_child);
                            self.children.insert(byte, mine);
                            assert forall|p: Seq<u8>| p.len() > 0 && p[0] == byte implies (
                            self.has_path(p) <==> old(self).has_path(p) || other.has_path(p)) by {
                                if p.len() > 1 {
                                    let q = p.drop_first();
                                    assert(mine.has_path(q) <==> before.has_path(q)
                                        || their_child.has_path(q));
                                }
                            }
                        },
                        None => {
                            self.children.insert(byte, their_child);
                        },
                    }
                },
            }
            proof {
                assert forall|p: Seq<u8>| p.len() > 0 && p[0] <= byte implies (self.has_path(p)
                    <==> old(self).has_path(p) || other.has_path(p)) by {
                    if p[0] < byte {
                        let b = p[0];
                        assert(self.children@.contains_key(b) == entered.children@.contains_key(b));
                        if self.children@.contains_key(b) {
                            assert(self.children@[b] == entered.children@[b]);
                        }
                        assert(entered.has_path(p) <==> self.has_path(p));
                    }
                }
            }
            next += 1;
        }
        proof {
            assert forall|p: Seq<u8>|
                self.has_path(p) <==> old(self).has_path(p) || other.has_path(p) by {
                if p.len() > 0 {
                    assert(p[0] < 256);
                }
            }
        }
    }
}

impl ByteTrie {
    /// Every stored path is non-empty, and its non-empty prefixes are stored too.
    pub proof fn lemma_prefix_closed(&self, p: Seq<u8>, k: int)
        requires
            self@.contains(p),
            0 < k <= p.len(),
        ensures
            p.len() > 0,
            self@.contains(p.subrange(0, k)),
        decreases p.len(),
    {
        let q = p.subrange(0, k);
        if k > 1 {
            let child = self.children@[p[0]];
            assert(child@.contains(p.drop_first()));
            child.lemma_prefix_closed(p.drop_first(), k - 1);
            assert(q.drop_first() =~= p.drop_first().subrange(0, k - 1));
        }
        assert(self.has_path(q));
    }
}

/// The closure of no separators is empty, which is what a new trie stores.
pub proof fn lemma_closure_of_nothing()
    ensures
        closure(Set::<Seq<u8>>::empty()) == Set::<Seq<u8>>::empty(),
{
    assert(closure(Set::<Seq<u8>>::empty()) =~= Set::<Seq<u8>>::empty());
}

/// Inserting `s` takes the closure of `separators` to the closure of
/// `separators` with `s` added.
pub proof fn lemma_closure_of_insert(separators: Set<Seq<u8>>, s: Seq<u8>)
    ensures
        closure(separators.insert(s)) == inserted(closure(separators), s),
{
    let grown = separators.insert(s);
    assert forall|p: Seq<u8>| closure(grown).contains(p) == inserted(
        closure(separators),
        s,
    ).contains(p) by {
        if closure(grown).contains(p) {
            let t = choose|t: Seq<u8>| grown.contains(t) && #[trigger] prefixes(t).contains(p);
            if t != s {
                assert(separators.contains(t));
            }
        }
        if closure(separators).contains(p) {
            let t = choose|t: Seq<u8>|
                separators.contains(t) && #[trigger] prefixes(t).contains(p);
            assert(grown.contains(t));
        }
        if prefixes(s).contains(p) {
            assert(grown.contains(s));
        }
    }
    assert(closure(grown) =~= inserted(closure(separators), s));
}

/// Merging takes the closures of two sets of separators to the closure of
/// their union.
pub proof fn lemma_closure_of_merge(ours: Set<Seq<u8>>, theirs: Set<Seq<u8>>)
    ensures
        closure(ours.union(theirs)) == merged(closure(ours), closure(theirs)),
{
    let both = ours.union(theirs);
    assert forall|p: Seq<u8>| closure(both).contains(p) == merged(
        closure(ours),
        closure(theirs),
    ).contains(p) by {
        if closure(both).contains(p) {
            let t = choose|t: Seq<u8>| both.contains(t) && #[trigger] prefixes(t).contains(p);
            assert(ours.contains(t) || theirs.contains(t));
        }
        if closure(ours).contains(p) {
            let t = choose|t: Seq<u8>| ours.contains(t) && #[trigger] prefixes(t).contains(p);
            assert(both.contains(t));
        }
        if closure(theirs).contains(p) {
            let t = choose|t: Seq<u8>| theirs.contains(t) && #[trigger] prefixes(t).contains(p);
            assert(both.contains(t));
        }
    }
    assert(closure(both) =~= merged(closure(ours), closure(theirs)));
}

/// A trie that stores exactly the members of `separators`, none of them
/// empty, answers `IncludedAndTerminal` for a member that no other member
/// extends, and `Included` for a member that another one extends.
pub proof fn lemma_membership_of_separator(
    trie: &ByteTrie,
    separators: Set<Seq<u8>>,
    s: Seq<u8>,
)
    requires
        trie@ == closure(separators),
        forall|t: Seq<u8>| separators.contains(t) ==> t.len() > 0,
        separators.contains(s),
    ensures
        membership_in(trie@, s) == if exists|t: Seq<u8>|
            separators.contains(t) && t.len() > s.len() && is_prefix_of(s, t) {
            Membership::Included
        } else {
            Membership::IncludedAndTerminal
        },
{
    let paths = closure(separators);
    assert(s.subrange(0, s.len() as int) =~= s);
    assert(prefixes(s).contains(s));
    assert(paths.contains(s));
    if exists|t: Seq<u8>| separators.contains(t) && t.len() > s.len() && is_prefix_of(s, t) {
        let t = choose|t: Seq<u8>|
            separators.contains(t) && t.len() > s.len() && is_prefix_of(s, t);
        let b = t[s.len() as int];
        assert(s.push(b) =~= t.subrange(0, s.len() as int + 1));
        assert(prefixes(t).contains(s.push(b)));
        assert(paths.contains(s.push(b)));
    } else {
        assert forall|b: u8| !paths.contains(s.push(b)) by {
            if paths.contains(s.push(b)) {
                let t = choose|t: Seq<u8>|
                    separators.contains(t) && #[trigger] prefixes(t).contains(s.push(b));
                assert(s =~= t.subrange(0, s.len() as int)) by {
                    assert(s =~= s.push(b).subrange(0, s.len() as int));
                }
                assert(is_prefix_of(s, t));
            }
        }
    }
}

/// A trie that stores exactly the members of `separators` answers
/// `NotIncluded` for a candidate that is a prefix of none of them.
pub proof fn lemma_membership_of_stranger(
    trie: &ByteTrie,
    separators: Set<Seq<u8>>,
    p: Seq<u8>,
)
    requires
        trie@ == closure(separators),
        forall|s: Seq<u8>| separators.contains(s) ==> !is_prefix_of(p, s),
    ensures
        membership_in(trie@, p) == Membership::NotIncluded,
{
    let paths = closure(separators);
    if p.len() == 0 {
        assert forall|q: Seq<u8>| !paths.contains(q) by {
            if paths.contains(q) {
                let s = choose|s: Seq<u8>|
                    separators.contains(s) && #[trigger] prefixes(s).contains(q);
                assert(p =~= s.subrange(0, 0));
                assert(is_prefix_of(p, s));
            }
        }
        assert(paths =~= Set::<Seq<u8>>::empty());
    } else if paths.contains(p) {
        let s = choose|s: Seq<u8>| separators.contains(s) && #[trigger] prefixes(s).contains(p);
        assert(is_prefix_of(p, s));
    }
}

/// Merging is associative.
pub proof fn lemma_merge_associative(a: Set<Seq<u8>>, b: Set<Seq<u8>>, c: Set<Seq<u8>>)
    ensures
        merged(merged(a, b), c) == merged(a, merged(b, c)),
{
    assert(merged(merged(a, b), c) =~= merged(a, merged(b, c)));
}

/// Merging is commutative.
pub proof fn lemma_merge_commutative(a: Set<Seq<u8>>, b: Set<Seq<u8>>)
    ensures
        merged(a, b) == merged(b, a),
{
    assert(merged(a, b) =~= merged(b, a));
}

/// Inserting a separator a second time changes nothing.
pub proof fn lemma_insert_idempotent(paths: Set<Seq<u8>>, s: Seq<u8>)
    ensures
        inserted(inserted(paths, s), s) == inserted(paths, s),
{
    assert(inserted(inserted(paths, s), s) =~= inserted(paths, s));
}

/// A non-empty prefix of `s` starts with the first byte of `s` and goes on
/// with a prefix of the rest.
proof fn lemma_prefixes_step(s: Seq<u8>, p: Seq<u8>)
    requires
        s.len() > 0,
    ensures
        prefixes(s).contains(p) <==> p.len() > 0 && p[0] == s[0] && (p.len() == 1 || prefixes(
            s.drop_first(),
        ).contains(p.drop_first())),
{
    let rest = s.drop_first();
    if p.len() > 0 && p[0] == s[0] {
        if p.len() == 1 {
            assert(p =~= s.subrange(0, 1));
        } else {
            let q = p.drop_first();
            if p.len() <= s.len() {
                if p == s.subrange(0, p.len() as int) {
                    assert(q =~= rest.subrange(0, q.len() as int));
                }
                if q == rest.subrange(0, q.len() as int) {
                    assert forall|i: int| 0 <= i < p.len() implies p[i] == s[i] by {
                        if i > 0 {
                            assert(p[i] == q[i - 1]);
                            assert(rest.subrange(0, q.len() as int)[i - 1] == rest[i - 1]);
                        }
                    }
                    assert(p =~= s.subrange(0, p.len() as int));
                }
            }
        }
    }
}

} // verus!

//! An ordered map backed by an unbalanced binary search tree.
//!
//! Keys are `u64`; values may be any type. The map supports point
//! insertion (overwriting on an existing key), point lookup, and point
//! deletion; deletion of an interior node with two children promotes the
//! in-order successor, the least key of the right subtree.

use vstd::prelude::*;

pub mod laws;

verus! {

/// The sole domain error: a lookup or a deletion named a key that the map
/// does not currently bind.
#[derive(Debug, PartialEq, Eq)]
pub enum MapError {
    KeyNotFound,
}

struct Node<V> {
    key: u64,
    value: V,
    left: Option<Box<Node<V>>>,
    right: Option<Box<Node<V>>>,
}

/// An unbalanced binary search tree holding one value per key.
pub struct BinaryTreeMap<V> {
    root: Option<Box<Node<V>>>,
}

impl<V> Node<V> {
    /// The bindings held in the subtree rooted at this node.
    spec fn entries(self) -> Map<u64, V>
        decreases self,
    {
        Node::link_entries(self.left)
            .union_prefer_right(Node::link_entries(self.right))
            .insert(self.key, self.value)
    }

    /// The bindings held below an optional child link.
    spec fn link_entries(link: Option<Box<Node<V>>>) -> Map<u64, V>
        decreases link,
    {
        match link {
            None => Map::empty(),
            Some(n) => n.entries(),
        }
    }

    /// Every key bound under `link` lies strictly below `bound`.
    spec fn keys_below(link: Option<Box<Node<V>>>, bound: u64) -> bool {
        forall|k: u64| Node::link_entries(link).dom().contains(k) ==> k < bound
    }

    /// Every key bound under `link` lies strictly above `bound`.
    spec fn keys_above(link: Option<Box<Node<V>>>, bound: u64) -> bool {
        forall|k: u64| Node::link_entries(link).dom().contains(k) ==> k > bound
    }

    /// The search-tree ordering: smaller keys on the left, larger on the
    /// right, at every node of the subtree.
    spec fn ordered(self) -> bool
        decreases self,
    {
        &&& Node::keys_below(self.left, self.key)
        &&& Node::keys_above(self.right, self.key)
        &&& Node::link_ordered(self.left)
        &&& Node::link_ordered(self.right)
    }

    /// Ordering of an optional subtree; an absent child is ordered.
    spec fn link_ordered(link: Option<Box<Node<V>>>) -> bool
        decreases link,
    {
        match link {
            None => true,
            Some(n) => n.ordered(),
        }
    }

    /// The keys of this node's subtree in the order an in-order walk
    /// visits them: left subtree, then this node, then right subtree.
    spec fn in_order(self) -> Seq<u64>
        decreases self,
    {
        Node::link_in_order(self.left) + seq![self.key] + Node::link_in_order(self.right)
    }

    /// The in-order key sequence below an optional child link.
    spec fn link_in_order(link: Option<Box<Node<V>>>) -> Seq<u64>
        decreases link,
    {
        match link {
            None => Seq::empty(),
            Some(n) => n.in_order(),
        }
    }
}

/// Below an ordered link, the in-order key sequence is strictly
/// increasing, and it carries exactly the keys that the subtree binds.
proof fn lemma_link_in_order_sorted<V>(link: Option<Box<Node<V>>>)
    requires
        Node::link_ordered(link),
    ensures
        forall|i: int, j: int|
            0 <= i < j < Node::link_in_order(link).len() ==> Node::link_in_order(link)[i]
                < Node::link_in_order(link)[j],
        forall|k: u64| #[trigger]
            Node::link_in_order(link).contains(k) <==> Node::link_entries(link).dom().contains(k),
    decreases link,
{
    match link {
        None => {
        },
        Some(n) => {
            lemma_link_in_order_sorted(n.left);
            lemma_link_in_order_sorted(n.right);
            let ls = Node::link_in_order(n.left);
            let rs = Node::link_in_order(n.right);
            let s = Node::link_in_order(link);
            assert(s == ls + seq![n.key] + rs);
            assert forall|i: int| 0 <= i < ls.len() implies ls[i] < n.key by {
                assert(ls.contains(ls[i]));
            }
            assert forall|i: int| 0 <= i < rs.len() implies rs[i] > n.key by {
                assert(rs.contains(rs[i]));
            }
            assert forall|k: u64| #[trigger]
                s.contains(k) implies Node::link_entries(link).dom().contains(k) by {
                let i = choose|i: int| 0 <= i < s.len() && s[i] == k;
                if i < ls.len() {
                    assert(ls.contains(k));
                } else if i > ls.len() {
                    assert(rs[i - ls.len() - 1] == k);
                    assert(rs.contains(k));
                }
            }
            assert forall|k: u64|
                Node::link_entries(link).dom().contains(k) implies #[trigger] s.contains(k) by {
                if k == n.key {
                    assert(s[ls.len() as int] == k);
                } else if Node::link_entries(n.left).dom().contains(k) {
                    assert(ls.contains(k));
                    let i = choose|i: int| 0 <= i < ls.len() && ls[i] == k;
                    assert(s[i] == k);
                } else {
                    assert(Node::link_entries(n.right).dom().contains(k));
                    assert(rs.contains(k));
                    let i = choose|i: int| 0 <= i < rs.len() && rs[i] == k;
                    assert(s[ls.len() + 1 + i] == k);
                }
            }
        },
    }
}

impl<V> View for BinaryTreeMap<V> {
    type V = Map<u64, V>;

    /// The abstract contents of the map: each bound key with its value.
    closed spec fn view(&self) -> Map<u64, V> {
        Node::link_entries(self.root)
    }
}

impl<V> BinaryTreeMap<V> {
    /// The search-tree ordering holds of the whole tree. Every operation
    /// of the map preserves it.
    #[verifier::type_invariant]
    pub closed spec fn well_formed(self) -> bool {
        Node::link_ordered(self.root)
    }

    /// The keys of the map in the order an in-order walk of the tree
    /// visits them.
    pub closed spec fn in_order_keys(self) -> Seq<u64> {
        Node::link_in_order(self.root)
    }

    /// The search-tree order invariant, observed at the interface: an
    /// in-order walk of a well-formed tree visits keys in strictly
    /// increasing order, and it visits exactly the keys the map binds.
    pub proof fn lemma_in_order_keys_sorted(self)
        requires
            self.well_formed(),
        ensures
            forall|i: int, j: int|
                0 <= i < j < self.in_order_keys().len() ==> self.in_order_keys()[i]
                    < self.in_order_keys()[j],
            forall|k: u64| #[trigger] self.in_order_keys().contains(k) <==> self@.dom().contains(k),
    {
        lemma_link_in_order_sorted(self.root);
    }

    /// Returns an empty map: no key is bound.
    pub fn new() -> (m: Self)
        ensures
            m@ == Map::<u64, V>::empty(),
    {
        BinaryTreeMap { root: None }
    }

    /// Binds `key` to `value`. A previous binding of `key`, if any, is
    /// overwritten; every other binding is kept unchanged.
    pub fn insert(&mut self, key: u64, value: V)
        ensures
            final(self)@ == old(self)@.insert(key, value),
            final(self)@.dom() == old(self)@.dom().insert(key),
    {
        proof {
            use_type_invariant(&*self);
        }
        let mut link: Option<Box<Node<V>>> = None;
        std::mem::swap(&mut link, &mut self.root);
        self.root = Self::insert_recursive(link, key, value);
    }

    fn insert_recursive(link: Option<Box<Node<V>>>, key: u64, value: V) -> (out: Option<
        Box<Node<V>>,
    >)
        requires
            Node::link_ordered(link),
        ensures
            Node::link_ordered(out),
            Node::link_entries(out) =~= Node::link_entries(link).insert(key, value),
        decreases link,
    {
        match link {
            None => Some(
                Box::new(Node { key, value, left: None, right: None }),
            ),
            Some(mut n) => {
                if key == n.key {
                    n.value = value;
                    proof {
                        assert(!Node::link_entries(n.left).dom().contains(key));
                        assert(!Node::link_entries(n.right).dom().contains(key));
                    }
                    Some(n)
                } else if key < n.key {
                    let child = n.left.take();
                    n.left = Self::insert_recursive(child, key, value);
                    proof {
                        assert(!Node::link_entries(n.right).dom().contains(key));
                    }
                    Some(n)
                } else {
                    let child = n.right.take();
                    n.right = Self::insert_recursive(child, key, value);
                    proof {
                        assert(!Node::link_entries(n.left).dom().contains(key));
                    }
                    Some(n)
                }
            },
        }
    }

    /// Removes the binding of `key` and yields the owned value, or
    /// returns `KeyNotFound` when the map does not bind `key`; in that
    /// case the map is left exactly as it was.
    pub fn delete(&mut self, key: &u64) -> (result: Result<V, MapError>)
        ensures
            old(self)@.dom().contains(*key) ==> (result == Result::<V, MapError>::Ok(
                old(self)@[*key],
            ) && final(self)@ == old(self)@.remove(*key)),
            !old(self)@.dom().contains(*key) ==> (result == Result::<V, MapError>::Err(
                MapError::KeyNotFound,
            ) && final(self)@ == old(self)@),
    {
        proof {
            use_type_invariant(&*self);
        }
        let mut deleted_value: Option<V> = None;
        let mut link: Option<Box<Node<V>>> = None;
        std::mem::swap(&mut link, &mut self.root);
        self.root = Self::delete_recursive(link, key, &mut deleted_value);
        match deleted_value {
            Some(v) => Ok(v),
            None => Err(MapError::KeyNotFound),
        }
    }

    fn delete_recursive(
        link: Option<Box<Node<V>>>,
        key: &u64,
        deleted_value: &mut Option<V>,
    ) -> (out: Option<Box<Node<V>>>)
        requires
            Node::link_ordered(link),
        ensures
            Node::link_ordered(out),
            Node::link_entries(link).dom().contains(*key) ==> (Node::link_entries(out)
                =~= Node::link_entries(link).remove(*key) && *final(deleted_value) == Some(
                Node::link_entries(link)[*key],
            )),
            !Node::link_entries(link).dom().contains(*key) ==> (Node::link_entries(out)
                =~= Node::link_entries(link) && *final(deleted_value) == *old(deleted_value)),
        decreases link,
    {
        match link {
            None => None,
            Some(mut n) => {
                if *key < n.key {
                    let child = n.left.take();
                    n.left = Self::delete_recursive(child, key, deleted_value);
                    proof {
                        assert(!Node::link_entries(n.right).dom().contains(*key));
                    }
                    Some(n)
                } else if *key > n.key {
                    let child = n.right.take();
                    n.right = Self::delete_recursive(child, key, deleted_value);
                    proof {
                        assert(!Node::link_entries(n.left).dom().contains(*key));
                    }
                    Some(n)
                } else {
                    let left = n.left.take();
                    let right = n.right.take();
                    proof {
                        assert(!Node::link_entries(left).dom().contains(*key));
                        assert(!Node::link_entries(right).dom().contains(*key));
                    }
                    match (left, right) {
                        (None, None) => {
                            *deleted_value = Some(n.value);
                            None
                        },
                        (Some(l), None) => {
                            *deleted_value = Some(n.value);
                            Some(l)
                        },
                        (None, Some(r)) => {
                            *deleted_value = Some(n.value);
                            Some(r)
                        },
                        (Some(l), Some(r)) => {
                            proof {
                                assert(Node::link_ordered(Some(r)));
                            }
                            let (successor_value, successor_key, new_right) = Self::extract_min(r);
                            *deleted_value = Some(n.value);
                            Some(
                                Box::new(
                                    Node {
                                        key: successor_key,
                                        value: successor_value,
                                        left: Some(l),
                                        right: new_right,
                                    },
                                ),
                            )
                        },
                    }
                }
            },
        }
    }

    /// Detaches the least-keyed node of `node`'s subtree, yielding its
    /// value, its key, and the subtree with that node spliced out.
    fn extract_min(node: Box<Node<V>>) -> (out: (V, u64, Option<Box<Node<V>>>))
        requires
            node.ordered(),
        ensures
            node.entries().dom().contains(out.1),
            out.0 == node.entries()[out.1],
            forall|k: u64| node.entries().dom().contains(k) ==> out.1 <= k,
            Node::link_ordered(out.2),
            Node::link_entries(out.2) =~= node.entries().remove(out.1),
        decreases node,
    {
        let mut n = node;
        let taken_left = n.left.take();
        match taken_left {
            None => {
                let right = n.right.take();
                let min_key = n.key;
                let min_value = n.value;
                proof {
                    assert(!Node::link_entries(right).dom().contains(min_key));
                }
                (min_value, min_key, right)
            },
            Some(left) => {
                let (min_value, min_key, new_left) = Self::extract_min(left);
                proof {
                    assert(Node::link_entries(node.left) == left.entries());
                    assert(min_key < node.key);
                    assert(!Node::link_entries(node.right).dom().contains(min_key));
                }
                n.left = new_left;
                (min_value, min_key, Some(n))
            },
        }
    }

    /// Looks `key` up. Returns a borrow of the bound value, or
    /// `KeyNotFound` when the map does not bind `key`. The map is not
    /// changed.
    pub fn get(&self, key: &u64) -> (result: Result<&V, MapError>)
        ensures
            match result {
                Ok(v) => self@.dom().contains(*key) && *v == self@[*key],
                Err(e) => !self@.dom().contains(*key) && e == MapError::KeyNotFound,
            },
    {
        proof {
            use_type_invariant(&*self);
        }
        Self::get_recursive(&self.root, key)
    }

    fn get_recursive<'a>(link: &'a Option<Box<Node<V>>>, key: &u64) -> (result: Result<
        &'a V,
        MapError,
    >)
        requires
            Node::link_ordered(*link),
        ensures
            match result {
                Ok(v) => Node::link_entries(*link).dom().contains(*key) && *v
                    == Node::link_entries(*link)[*key],
                Err(e) => !Node::link_entries(*link).dom().contains(*key) && e
                    == MapError::KeyNotFound,
            },
        decreases link,
    {
        match link {
            None => Err(MapError::KeyNotFound),
            Some(n) => {
                if *key == n.key {
                    Ok(&n.value)
                } else if *key < n.key {
                    proof {
                        assert(!Node::link_entries(n.right).dom().contains(*key));
                    }
                    Self::get_recursive(&n.left, key)
                } else {
                    proof {
                        assert(!Node::link_entries(n.left).dom().contains(*key));
                    }
                    Self::get_recursive(&n.right, key)
                }
            },
        }
    }
}

} // verus!

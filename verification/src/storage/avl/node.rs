//! AVL tree node.
//!
//! The node is the heart of the persistent ordered map: a binary search
//! tree in which every mutating operation returns a fresh node while the
//! untouched subtrees are shared through reference counting. Every node
//! caches the height of the subtree rooted in it, and the tree keeps the
//! heights of the two subtrees of any node within one of each other.
//!
//! The abstract view of a subtree is the finite map from key views to
//! value views that it stores.

use std::sync::Arc;

use vstd::prelude::*;

use crate::order::{Cmp, Duplicable, TotalOrder};

verus! {

/// The larger of two natural numbers.
pub open spec fn nat_max(a: nat, b: nat) -> nat {
    if a >= b {
        a
    } else {
        b
    }
}

/// The views of a sequence of key-value pairs.
pub open spec fn entry_views<K: View, V: View>(s: Seq<(K, V)>) -> Seq<(K::V, V::V)> {
    s.map_values(|p: (K, V)| (p.0@, p.1@))
}

/// AVL tree node.
pub struct Node<K, V> {
    /// Key of the key-value pair.
    pub k: K,
    /// Value of the key-value pair.
    pub v: V,
    /// Subtree height, rooted in this node.
    pub h: usize,
    /// Left subtree.
    pub l: Option<Arc<Node<K, V>>>,
    /// Right subtree.
    pub r: Option<Arc<Node<K, V>>>,
}

impl<K: TotalOrder, V: Duplicable> Node<K, V> {
    /// The map stored in an optional subtree.
    pub open spec fn opt_map(o: Option<Arc<Node<K, V>>>) -> Map<K::V, V::V>
        decreases o,
    {
        match o {
            None => Map::empty(),
            Some(n) => n.as_map(),
        }
    }

    /// The map stored in the subtree rooted in this node.
    pub open spec fn as_map(self) -> Map<K::V, V::V>
        decreases self,
    {
        Node::<K, V>::opt_map(self.l).union_prefer_right(Node::<K, V>::opt_map(self.r)).insert(
            self.k@,
            self.v@,
        )
    }

    /// The height recorded for an optional subtree.
    pub open spec fn opt_h(o: Option<Arc<Node<K, V>>>) -> nat {
        match o {
            None => 0,
            Some(n) => n.h as nat,
        }
    }

    /// Search-tree ordering at this node alone: everything on the left is
    /// strictly below the key, everything on the right strictly above.
    pub open spec fn bst_at(self) -> bool {
        &&& forall|e: K::V|
            #[trigger] Node::<K, V>::opt_map(self.l).dom().contains(e) ==> K::le(e, self.k@)
                && e != self.k@
        &&& forall|e: K::V|
            #[trigger] Node::<K, V>::opt_map(self.r).dom().contains(e) ==> K::le(self.k@, e)
                && e != self.k@
    }

    /// Search-tree ordering, everywhere in the subtree.
    pub open spec fn ordered(self) -> bool
        decreases self,
    {
        &&& self.bst_at()
        &&& match self.l {
            Some(n) => n.ordered(),
            None => true,
        }
        &&& match self.r {
            Some(n) => n.ordered(),
            None => true,
        }
    }

    /// The cached heights are exact, everywhere in the subtree.
    pub open spec fn heights_ok(self) -> bool
        decreases self,
    {
        &&& self.h as nat == 1 + nat_max(
            Node::<K, V>::opt_h(self.l),
            Node::<K, V>::opt_h(self.r),
        )
        &&& match self.l {
            Some(n) => n.heights_ok(),
            None => true,
        }
        &&& match self.r {
            Some(n) => n.heights_ok(),
            None => true,
        }
    }

    /// The recorded subtree heights differ by at most one, everywhere.
    pub open spec fn balanced(self) -> bool
        decreases self,
    {
        &&& Node::<K, V>::opt_h(self.l) <= Node::<K, V>::opt_h(self.r) + 1
        &&& Node::<K, V>::opt_h(self.r) <= Node::<K, V>::opt_h(self.l) + 1
        &&& match self.l {
            Some(n) => n.balanced(),
            None => true,
        }
        &&& match self.r {
            Some(n) => n.balanced(),
            None => true,
        }
    }

    /// Everything an AVL subtree promises.
    pub open spec fn wf(self) -> bool {
        self.ordered() && self.heights_ok() && self.balanced()
    }

    /// [`Node::wf`] lifted to an optional subtree.
    pub open spec fn opt_wf(o: Option<Arc<Node<K, V>>>) -> bool {
        match o {
            None => true,
            Some(n) => n.wf(),
        }
    }

    /// [`Node::heights_ok`] lifted to an optional subtree.
    pub open spec fn opt_heights_ok(o: Option<Arc<Node<K, V>>>) -> bool {
        match o {
            None => true,
            Some(n) => n.heights_ok(),
        }
    }

    /// How the stored map decomposes at this node, given the ordering: the
    /// key sets of the parts are disjoint, so every key is found in exactly
    /// one of them.
    pub proof fn lemma_parts(&self)
        requires
            self.ordered(),
        ensures
            self.as_map().dom().contains(self.k@),
            self.as_map()[self.k@] == self.v@,
            forall|e: K::V|
                #[trigger] self.as_map().dom().contains(e) <==> (e == self.k@ || Node::<
                    K,
                    V,
                >::opt_map(self.l).dom().contains(e) || Node::<K, V>::opt_map(
                    self.r,
                ).dom().contains(e)),
            forall|e: K::V|
                #[trigger] Node::<K, V>::opt_map(self.l).dom().contains(e) ==> self.as_map()[e]
                    == Node::<K, V>::opt_map(self.l)[e],
            forall|e: K::V|
                #[trigger] Node::<K, V>::opt_map(self.r).dom().contains(e) ==> self.as_map()[e]
                    == Node::<K, V>::opt_map(self.r)[e],
            !Node::<K, V>::opt_map(self.l).dom().contains(self.k@),
            !Node::<K, V>::opt_map(self.r).dom().contains(self.k@),
            forall|e: K::V|
                Node::<K, V>::opt_map(self.l).dom().contains(e) ==> !(#[trigger] Node::<
                    K,
                    V,
                >::opt_map(self.r).dom().contains(e)),
    {
        assert forall|e: K::V|
            Node::<K, V>::opt_map(self.l).dom().contains(e) implies !(#[trigger] Node::<
            K,
            V,
        >::opt_map(self.r).dom().contains(e)) by {
            if Node::<K, V>::opt_map(self.r).dom().contains(e) {
                K::antisymmetric(e, self.k@);
            }
        }
        assert forall|e: K::V|
            #[trigger] Node::<K, V>::opt_map(self.l).dom().contains(e) implies self.as_map()[e]
            == Node::<K, V>::opt_map(self.l)[e] by {
            assert(e != self.k@);
            assert(!Node::<K, V>::opt_map(self.r).dom().contains(e));
        }
    }

    /// An optional subtree with exact heights is empty exactly when its
    /// recorded height is zero.
    pub proof fn lemma_opt_h_zero(o: Option<Arc<Node<K, V>>>)
        requires
            match o {
                Some(n) => n.heights_ok(),
                None => true,
            },
        ensures
            Node::<K, V>::opt_h(o) == 0 <==> o is None,
            o is None ==> Node::<K, V>::opt_map(o) == Map::<K::V, V::V>::empty(),
    {
    }

    /// The number of nodes in an optional subtree.
    pub open spec fn opt_count(o: Option<Arc<Node<K, V>>>) -> nat
        decreases o,
    {
        match o {
            None => 0,
            Some(n) => n.count(),
        }
    }

    /// The number of nodes in the subtree rooted in this node.
    pub open spec fn count(self) -> nat
        decreases self,
    {
        1 + Node::<K, V>::opt_count(self.l) + Node::<K, V>::opt_count(self.r)
    }

    /// An ordered subtree stores one key per node: the stored map is
    /// finite and has exactly as many keys as the subtree has nodes.
    pub proof fn lemma_count(&self)
        requires
            self.ordered(),
        ensures
            self.as_map().dom().finite(),
            self.as_map().dom().len() == self.count(),
        decreases self,
    {
        self.lemma_parts();
        let lm = Node::<K, V>::opt_map(self.l);
        let rm = Node::<K, V>::opt_map(self.r);
        if let Some(l) = self.l {
            l.lemma_count();
        }
        if let Some(r) = self.r {
            r.lemma_count();
        }
        assert(lm.dom().finite() && lm.dom().len() == Node::<K, V>::opt_count(self.l));
        assert(rm.dom().finite() && rm.dom().len() == Node::<K, V>::opt_count(self.r));
        assert(lm.dom().disjoint(rm.dom()));
        lemma_len_disjoint_union(lm.dom(), rm.dom());
        let u = lm.union_prefer_right(rm);
        assert(u.dom() =~= lm.dom().union(rm.dom()));
        assert(self.as_map().dom() =~= u.dom().insert(self.k@));
        assert(!u.dom().contains(self.k@));
    }

    /// A subtree with exact heights has at least as many nodes as its
    /// height.
    proof fn lemma_count_ge_h(&self)
        requires
            self.heights_ok(),
        ensures
            self.count() >= self.h,
        decreases self,
    {
        if let Some(l) = self.l {
            l.lemma_count_ge_h();
        }
        if let Some(r) = self.r {
            r.lemma_count_ge_h();
        }
    }

    /// In a balanced subtree with exact heights, the height is bounded by
    /// the node count: `2 * h <= count + 2`.
    pub proof fn lemma_height_bound(&self)
        requires
            self.heights_ok(),
            self.balanced(),
        ensures
            2 * self.h <= self.count() + 2,
    {
        if self.h >= 2 {
            if let Some(l) = self.l {
                l.lemma_count_ge_h();
            }
            if let Some(r) = self.r {
                r.lemma_count_ge_h();
            }
            Self::lemma_opt_h_zero(self.l);
            Self::lemma_opt_h_zero(self.r);
        }
    }

    /// Construct a leaf node.
    pub fn leaf(k: K, v: V) -> (n: Self)
        ensures
            n.wf(),
            n.h == 1,
            n.k == k,
            n.v == v,
            n.l is None,
            n.r is None,
            n.as_map() == Map::<K::V, V::V>::empty().insert(k@, v@),
    {
        let n = Self { k, v, h: 1, l: None, r: None };
        proof {
            assert(n.as_map() =~= Map::<K::V, V::V>::empty().insert(n.k@, n.v@));
        }
        n
    }

    /// Duplicate an optional shared subtree; the copy is the same subtree.
    pub fn clone_link(o: &Option<Arc<Node<K, V>>>) -> (r: Option<Arc<Node<K, V>>>)
        ensures
            r == *o,
    {
        match o {
            None => None,
            Some(a) => Some(Arc::clone(a)),
        }
    }

    /// Duplicate this node; subtrees are shared, key and value are copied
    /// exactly.
    pub fn clone_node(&self) -> (n: Self)
        ensures
            n == *self,
    {
        Self {
            k: self.k.dup(),
            v: self.v.dup(),
            h: self.h,
            l: Self::clone_link(&self.l),
            r: Self::clone_link(&self.r),
        }
    }

    /// Return the current node with its height recomputed from the heights
    /// recorded in its subtrees.
    pub fn recompute_height(self) -> (res: Self)
        requires
            nat_max(Node::<K, V>::opt_h(self.l), Node::<K, V>::opt_h(self.r)) < usize::MAX,
        ensures
            res.k == self.k,
            res.v == self.v,
            res.l == self.l,
            res.r == self.r,
            res.h as nat == 1 + nat_max(Node::<K, V>::opt_h(self.l), Node::<K, V>::opt_h(self.r)),
    {
        let hl = height(&self.l);
        let hr = height(&self.r);
        let m = if hl >= hr {
            hl
        } else {
            hr
        };
        Self { h: m + 1, ..self }
    }

    /// Rotate the tree left with the pivot of `self`.
    ///
    /// The right child becomes the root of the subtree; the old root moves
    /// into its left position, adopting the pivot's old left subtree.
    pub fn rotate_left(&self) -> (res: Self)
        requires
            self.r is Some,
            self.ordered(),
            Node::<K, V>::opt_heights_ok(self.l),
            Node::<K, V>::opt_heights_ok(self.r.unwrap().l),
            Node::<K, V>::opt_heights_ok(self.r.unwrap().r),
            Node::<K, V>::opt_h(self.l) < usize::MAX - 1,
            Node::<K, V>::opt_h(self.r.unwrap().l) < usize::MAX - 1,
            Node::<K, V>::opt_h(self.r.unwrap().r) < usize::MAX - 1,
        ensures
            ({
                let rn = self.r.unwrap();
                &&& res.k == rn.k
                &&& res.v == rn.v
                &&& res.r == rn.r
                &&& res.l matches Some(nl) && nl.k == self.k && nl.v == self.v && nl.l == self.l
                    && nl.r == rn.l && nl.h as nat == 1 + nat_max(
                    Node::<K, V>::opt_h(self.l),
                    Node::<K, V>::opt_h(rn.l),
                )
                &&& res.h as nat == 1 + nat_max(
                    1 + nat_max(Node::<K, V>::opt_h(self.l), Node::<K, V>::opt_h(rn.l)),
                    Node::<K, V>::opt_h(rn.r),
                )
                &&& res.ordered()
                &&& res.heights_ok()
                &&& res.as_map() == self.as_map()
            }),
    {
        let rn = self.r.as_ref().unwrap();
        let inner = Self { r: Self::clone_link(&rn.l), ..self.clone_node() };
        let inner = inner.recompute_height();
        let res = Self { l: Some(Arc::new(inner)), r: Self::clone_link(&rn.r), ..rn.clone_node() };
        let res = res.recompute_height();
        proof {
            let nl = *res.l.unwrap();
            assert(nl.heights_ok());
            assert(res.heights_ok());
            Self::lemma_rotate(*self, res, false);
        }
        res
    }

    /// Rotate the tree right with the pivot of `self`.
    ///
    /// The left child becomes the root of the subtree; the old root moves
    /// into its right position, adopting the pivot's old right subtree.
    pub fn rotate_right(&self) -> (res: Self)
        requires
            self.l is Some,
            self.ordered(),
            Node::<K, V>::opt_heights_ok(self.r),
            Node::<K, V>::opt_heights_ok(self.l.unwrap().l),
            Node::<K, V>::opt_heights_ok(self.l.unwrap().r),
            Node::<K, V>::opt_h(self.r) < usize::MAX - 1,
            Node::<K, V>::opt_h(self.l.unwrap().l) < usize::MAX - 1,
            Node::<K, V>::opt_h(self.l.unwrap().r) < usize::MAX - 1,
        ensures
            ({
                let ln = self.l.unwrap();
                &&& res.k == ln.k
                &&& res.v == ln.v
                &&& res.l == ln.l
                &&& res.r matches Some(nr) && nr.k == self.k && nr.v == self.v && nr.r == self.r
                    && nr.l == ln.r && nr.h as nat == 1 + nat_max(
                    Node::<K, V>::opt_h(ln.r),
                    Node::<K, V>::opt_h(self.r),
                )
                &&& res.h as nat == 1 + nat_max(
                    Node::<K, V>::opt_h(ln.l),
                    1 + nat_max(Node::<K, V>::opt_h(ln.r), Node::<K, V>::opt_h(self.r)),
                )
                &&& res.ordered()
                &&& res.heights_ok()
                &&& res.as_map() == self.as_map()
            }),
    {
        let ln = self.l.as_ref().unwrap();
        let inner = Self { l: Self::clone_link(&ln.r), ..self.clone_node() };
        let inner = inner.recompute_height();
        let res = Self { r: Some(Arc::new(inner)), l: Self::clone_link(&ln.l), ..ln.clone_node() };
        let res = res.recompute_height();
        proof {
            let nr = *res.r.unwrap();
            assert(nr.heights_ok());
            assert(res.heights_ok());
            Self::lemma_rotate(*self, res, true);
        }
        res
    }

    /// Restore the balance of a node whose subtrees are sound AVL trees
    /// but whose own subtree heights may differ by two.
    ///
    /// The rotation is chosen by the balance of the taller subtree: a
    /// single rotation when that subtree leans the same way or not at all,
    /// a double rotation when it leans the other way. After an insertion
    /// the taller subtree always leans one way or the other, so the same
    /// selection also implements the insertion rule of rotating by the
    /// direction of the descent.
    fn rebalance(self) -> (res: Self)
        requires
            Node::<K, V>::opt_wf(self.l),
            Node::<K, V>::opt_wf(self.r),
            self.bst_at(),
            self.h as nat == 1 + nat_max(Node::<K, V>::opt_h(self.l), Node::<K, V>::opt_h(self.r)),
            Node::<K, V>::opt_h(self.l) <= Node::<K, V>::opt_h(self.r) + 2,
            Node::<K, V>::opt_h(self.r) <= Node::<K, V>::opt_h(self.l) + 2,
            self.h < usize::MAX,
        ensures
            res.wf(),
            res.as_map() == self.as_map(),
            res.h == self.h || res.h as nat + 1 == self.h as nat,
            Node::<K, V>::opt_h(self.l) <= Node::<K, V>::opt_h(self.r) + 1 && Node::<K, V>::opt_h(
                self.r,
            ) <= Node::<K, V>::opt_h(self.l) + 1 ==> res == self,
    {
        let lh = height(&self.l);
        let rh = height(&self.r);
        if lh > rh && lh - rh == 2 {
            let ln = self.l.as_ref().unwrap();
            let llh = height(&ln.l);
            let lrh = height(&ln.r);
            proof {
                assert(self.ordered());
                assert(ln.heights_ok() && ln.balanced() && ln.ordered());
            }
            if llh >= lrh {
                let res = self.rotate_right();
                proof {
                    let nr = *res.r.unwrap();
                    assert(nr.balanced());
                    assert(res.balanced());
                }
                res
            } else {
                proof {
                    let lnode = *self.l.unwrap();
                    Self::lemma_opt_h_zero(lnode.r);
                    let lr = *lnode.r.unwrap();
                    assert(lr.heights_ok() && lr.balanced());
                }
                let nl = ln.rotate_left();
                let mid = Self { l: Some(Arc::new(nl)), ..self.clone_node() };
                let mid = mid.recompute_height();
                proof {
                    assert(mid.ordered()) by {
                        assert(nl.as_map() == ln.as_map());
                        assert(Node::<K, V>::opt_map(mid.l) == Node::<K, V>::opt_map(self.l));
                        assert(mid.bst_at());
                    }
                    let inner1 = *nl.l.unwrap();
                    assert(inner1.heights_ok());
                    assert(inner1.balanced());
                }
                let res = mid.rotate_right();
                proof {
                    assert(mid.as_map() == self.as_map()) by {
                        assert(nl.as_map() == ln.as_map());
                        assert(Node::<K, V>::opt_map(mid.l) == Node::<K, V>::opt_map(self.l));
                    }
                    let nr2 = *res.r.unwrap();
                    assert(nr2.balanced());
                    assert(res.balanced());
                }
                res
            }
        } else if rh > lh && rh - lh == 2 {
            let rn = self.r.as_ref().unwrap();
            let rlh = height(&rn.l);
            let rrh = height(&rn.r);
            proof {
                assert(self.ordered());
                assert(rn.heights_ok() && rn.balanced() && rn.ordered());
            }
            if rrh >= rlh {
                let res = self.rotate_left();
                proof {
                    let nl = *res.l.unwrap();
                    assert(nl.balanced());
                    assert(res.balanced());
                }
                res
            } else {
                proof {
                    let rnode = *self.r.unwrap();
                    Self::lemma_opt_h_zero(rnode.l);
                    let rl = *rnode.l.unwrap();
                    assert(rl.heights_ok() && rl.balanced());
                }
                let nr = rn.rotate_right();
                let mid = Self { r: Some(Arc::new(nr)), ..self.clone_node() };
                let mid = mid.recompute_height();
                proof {
                    assert(mid.ordered()) by {
                        assert(nr.as_map() == rn.as_map());
                        assert(Node::<K, V>::opt_map(mid.r) == Node::<K, V>::opt_map(self.r));
                        assert(mid.bst_at());
                    }
                    let inner1 = *nr.r.unwrap();
                    assert(inner1.heights_ok());
                    assert(inner1.balanced());
                }
                let res = mid.rotate_left();
                proof {
                    assert(mid.as_map() == self.as_map()) by {
                        assert(nr.as_map() == rn.as_map());
                        assert(Node::<K, V>::opt_map(mid.r) == Node::<K, V>::opt_map(self.r));
                    }
                    let nl2 = *res.l.unwrap();
                    assert(nl2.balanced());
                    assert(res.balanced());
                }
                res
            }
        } else {
            proof {
                assert(self.ordered());
                assert(self.heights_ok());
                assert(self.balanced());
            }
            self
        }
    }

    /// Rebalance the subtree after an insert.
    pub fn rebalance_insert(self) -> (res: Self)
        requires
            Node::<K, V>::opt_wf(self.l),
            Node::<K, V>::opt_wf(self.r),
            self.bst_at(),
            self.h as nat == 1 + nat_max(Node::<K, V>::opt_h(self.l), Node::<K, V>::opt_h(self.r)),
            Node::<K, V>::opt_h(self.l) <= Node::<K, V>::opt_h(self.r) + 2,
            Node::<K, V>::opt_h(self.r) <= Node::<K, V>::opt_h(self.l) + 2,
            self.h < usize::MAX,
        ensures
            res.wf(),
            res.as_map() == self.as_map(),
            res.h == self.h || res.h as nat + 1 == self.h as nat,
            Node::<K, V>::opt_h(self.l) <= Node::<K, V>::opt_h(self.r) + 1 && Node::<K, V>::opt_h(
                self.r,
            ) <= Node::<K, V>::opt_h(self.l) + 1 ==> res == self,
    {
        self.rebalance()
    }

    /// Rebalance the subtree after a remove.
    pub fn rebalance_remove(self) -> (res: Self)
        requires
            Node::<K, V>::opt_wf(self.l),
            Node::<K, V>::opt_wf(self.r),
            self.bst_at(),
            self.h as nat == 1 + nat_max(Node::<K, V>::opt_h(self.l), Node::<K, V>::opt_h(self.r)),
            Node::<K, V>::opt_h(self.l) <= Node::<K, V>::opt_h(self.r) + 2,
            Node::<K, V>::opt_h(self.r) <= Node::<K, V>::opt_h(self.l) + 2,
            self.h < usize::MAX,
        ensures
            res.wf(),
            res.as_map() == self.as_map(),
            res.h == self.h || res.h as nat + 1 == self.h as nat,
            Node::<K, V>::opt_h(self.l) <= Node::<K, V>::opt_h(self.r) + 1 && Node::<K, V>::opt_h(
                self.r,
            ) <= Node::<K, V>::opt_h(self.l) + 1 ==> res == self,
    {
        self.rebalance()
    }

    /// Update or insert a key-value pair, returning the new subtree.
    ///
    /// If the given key is present, its current value is passed to `f` and
    /// the returned value replaces it. Otherwise a new node is inserted
    /// whose value `f` computes from `None`.
    pub fn upsert<F: FnOnce(Option<&V>) -> V>(&self, k: K, f: F) -> (res: Self)
        requires
            self.wf(),
            self.h < usize::MAX - 1,
            call_requires(f, (None,)),
            forall|pv: V| call_requires(f, (Some(&pv),)),
        ensures
            res.wf(),
            res.h == self.h || res.h as nat == self.h + 1,
            res.as_map().dom() == self.as_map().dom().insert(k@),
            !self.as_map().dom().contains(k@) ==> (exists|nv: V|
                #[trigger] call_ensures(f, (None,), nv) && res.as_map() == self.as_map().insert(
                    k@,
                    nv@,
                )),
            self.as_map().dom().contains(k@) ==> (exists|pv: V, nv: V|
                pv@ == self.as_map()[k@] && #[trigger] call_ensures(f, (Some(&pv),), nv)
                    && res.as_map() == self.as_map().insert(k@, nv@)),
        decreases self,
    {
        proof {
            self.lemma_parts();
        }
        match k.compare(&self.k) {
            Cmp::Equal => {
                let nv = f(Some(&self.v));
                let res = Self {
                    k,
                    v: nv,
                    h: self.h,
                    l: Self::clone_link(&self.l),
                    r: Self::clone_link(&self.r),
                };
                proof {
                    assert(res.bst_at());
                    assert(res.ordered());
                    assert(res.heights_ok());
                    assert(res.balanced());
                    assert(res.as_map() =~= self.as_map().insert(res.k@, res.v@));
                    assert(res.as_map().dom() =~= self.as_map().dom().insert(res.k@));
                    let pv = self.v;
                    assert(pv@ == self.as_map()[res.k@]);
                }
                res
            },
            Cmp::Less => {
                let nl = match &self.l {
                    Some(l) => l.upsert(k, f),
                    None => {
                        let nv = f(None);
                        Self::leaf(k, nv)
                    },
                };
                let node = Self {
                    k: self.k.dup(),
                    v: self.v.dup(),
                    h: self.h,
                    l: Some(Arc::new(nl)),
                    r: Self::clone_link(&self.r),
                };
                let node = node.recompute_height();
                proof {
                    if self.l is None {
                        assert(nl.as_map().dom() =~= Node::<K, V>::opt_map(
                            self.l,
                        ).dom().insert(k@));
                    }
                    assert(nl.as_map().dom() == Node::<K, V>::opt_map(self.l).dom().insert(k@));
                    assert forall|e: K::V| #[trigger] Node::<K, V>::opt_map(
                        node.l,
                    ).dom().contains(e) implies K::le(e, node.k@) && e != node.k@ by {
                        if e != k@ {
                            assert(Node::<K, V>::opt_map(self.l).dom().contains(e));
                        }
                    }
                    assert(node.bst_at());
                    assert(node.ordered());
                }
                let res = node.rebalance_insert();
                proof {
                    assert(node.ordered());
                    node.lemma_parts();
                    assert(!Node::<K, V>::opt_map(self.r).dom().contains(k@)) by {
                        if Node::<K, V>::opt_map(self.r).dom().contains(k@) {
                            K::antisymmetric(k@, self.k@);
                        }
                    }
                    assert(res.as_map().dom() =~= self.as_map().dom().insert(k@)) by {
                        assert(Node::<K, V>::opt_map(node.l) == nl.as_map());
                        assert(Node::<K, V>::opt_map(node.r) == Node::<K, V>::opt_map(self.r));
                    }
                    if self.as_map().dom().contains(k@) {
                        assert(Node::<K, V>::opt_map(self.l).dom().contains(k@));
                        let ln = *self.l.unwrap();
                        let lm = Node::<K, V>::opt_map(self.l);
                        let (pv, nv) = choose|pv: V, nv: V|
                            pv@ == lm[k@] && #[trigger] call_ensures(f, (Some(&pv),), nv)
                                && nl.as_map() == lm.insert(k@, nv@);
                        assert(pv@ == self.as_map()[k@]);
                        assert(res.as_map() =~= self.as_map().insert(k@, nv@)) by {
                            assert(Node::<K, V>::opt_map(node.l) == lm.insert(k@, nv@));
                        }
                        assert(call_ensures(f, (Some(&pv),), nv) && pv@ == self.as_map()[k@]
                            && res.as_map() == self.as_map().insert(k@, nv@));
                    } else {
                        let lm = Node::<K, V>::opt_map(self.l);
                        let nv = choose|nv: V|
                            #[trigger] call_ensures(f, (None,), nv) && nl.as_map() == lm.insert(
                                k@,
                                nv@,
                            );
                        assert(res.as_map() =~= self.as_map().insert(k@, nv@)) by {
                            assert(Node::<K, V>::opt_map(node.l) == lm.insert(k@, nv@));
                        }
                        assert(call_ensures(f, (None,), nv) && res.as_map()
                            == self.as_map().insert(k@, nv@));
                    }
                }
                res
            },
            Cmp::Greater => {
                let nr = match &self.r {
                    Some(r) => r.upsert(k, f),
                    None => {
                        let nv = f(None);
                        Self::leaf(k, nv)
                    },
                };
                let node = Self {
                    k: self.k.dup(),
                    v: self.v.dup(),
                    h: self.h,
                    l: Self::clone_link(&self.l),
                    r: Some(Arc::new(nr)),
                };
                let node = node.recompute_height();
                proof {
                    if self.r is None {
                        assert(nr.as_map().dom() =~= Node::<K, V>::opt_map(
                            self.r,
                        ).dom().insert(k@));
                    }
                    assert(nr.as_map().dom() == Node::<K, V>::opt_map(self.r).dom().insert(k@));
                    assert forall|e: K::V| #[trigger] Node::<K, V>::opt_map(
                        node.r,
                    ).dom().contains(e) implies K::le(node.k@, e) && e != node.k@ by {
                        if e != k@ {
                            assert(Node::<K, V>::opt_map(self.r).dom().contains(e));
                        }
                    }
                    assert(node.bst_at());
                    assert(node.ordered());
                }
                let res = node.rebalance_insert();
                proof {
                    node.lemma_parts();
                    assert(!Node::<K, V>::opt_map(self.l).dom().contains(k@)) by {
                        if Node::<K, V>::opt_map(self.l).dom().contains(k@) {
                            K::antisymmetric(k@, self.k@);
                        }
                    }
                    assert(res.as_map().dom() =~= self.as_map().dom().insert(k@)) by {
                        assert(Node::<K, V>::opt_map(node.r) == nr.as_map());
                        assert(Node::<K, V>::opt_map(node.l) == Node::<K, V>::opt_map(self.l));
                    }
                    if self.as_map().dom().contains(k@) {
                        assert(Node::<K, V>::opt_map(self.r).dom().contains(k@));
                        let rm = Node::<K, V>::opt_map(self.r);
                        let (pv, nv) = choose|pv: V, nv: V|
                            pv@ == rm[k@] && #[trigger] call_ensures(f, (Some(&pv),), nv)
                                && nr.as_map() == rm.insert(k@, nv@);
                        assert(pv@ == self.as_map()[k@]);
                        assert(res.as_map() =~= self.as_map().insert(k@, nv@)) by {
                            assert(Node::<K, V>::opt_map(node.r) == rm.insert(k@, nv@));
                        }
                        assert(call_ensures(f, (Some(&pv),), nv) && pv@ == self.as_map()[k@]
                            && res.as_map() == self.as_map().insert(k@, nv@));
                    } else {
                        let rm = Node::<K, V>::opt_map(self.r);
                        let nv = choose|nv: V|
                            #[trigger] call_ensures(f, (None,), nv) && nr.as_map() == rm.insert(
                                k@,
                                nv@,
                            );
                        assert(res.as_map() =~= self.as_map().insert(k@, nv@)) by {
                            assert(Node::<K, V>::opt_map(node.r) == rm.insert(k@, nv@));
                        }
                        assert(call_ensures(f, (None,), nv) && res.as_map()
                            == self.as_map().insert(k@, nv@));
                    }
                }
                res
            },
        }
    }

    /// Update the value stored under an existing key, returning the new
    /// subtree.
    ///
    /// If the given key is present, its current value is passed to `f` and
    /// the returned value replaces it. Otherwise the subtree comes back
    /// unchanged.
    pub fn update<F: FnOnce(&V) -> V>(&self, k: &K, f: F) -> (res: Option<Self>)
        requires
            self.wf(),
            forall|pv: V| call_requires(f, (&pv,)),
        ensures
            (res matches Some(n) && {
                &&& n.wf()
                &&& n.h == self.h
                &&& (self.as_map().dom().contains(k@) ==> (exists|pv: V, nv: V|
                    pv@ == self.as_map()[k@] && #[trigger] call_ensures(f, (&pv,), nv)
                        && n.as_map() == self.as_map().insert(k@, nv@)))
                &&& (!self.as_map().dom().contains(k@) ==> n.as_map() == self.as_map())
            }),
        decreases self,
    {
        proof {
            self.lemma_parts();
        }
        match k.compare(&self.k) {
            Cmp::Equal => {
                let nv = f(&self.v);
                let n = Self {
                    k: self.k.dup(),
                    v: nv,
                    h: self.h,
                    l: Self::clone_link(&self.l),
                    r: Self::clone_link(&self.r),
                };
                proof {
                    assert(n.bst_at());
                    assert(n.ordered());
                    assert(n.heights_ok());
                    assert(n.balanced());
                    assert(n.as_map() =~= self.as_map().insert(n.k@, n.v@));
                    let pv = self.v;
                    assert(pv@ == self.as_map()[n.k@]);
                }
                Some(n)
            },
            Cmp::Less => {
                proof {
                    if Node::<K, V>::opt_map(self.r).dom().contains(k@) {
                        K::antisymmetric(k@, self.k@);
                    }
                }
                let nl: Option<Arc<Self>> = match &self.l {
                    Some(l) => {
                        let s = l.update(k, f);
                        match s {
                            Some(n2) => Some(Arc::new(n2)),
                            None => {
                                proof {
                                    assert(false);
                                }
                                None
                            },
                        }
                    },
                    None => None,
                };
                let n = Self {
                    k: self.k.dup(),
                    v: self.v.dup(),
                    h: self.h,
                    l: nl,
                    r: Self::clone_link(&self.r),
                };
                proof {
                    let lm = Node::<K, V>::opt_map(self.l);
                    if self.as_map().dom().contains(k@) {
                        assert(lm.dom().contains(k@));
                        let (pv, nv) = choose|pv: V, nv: V|
                            pv@ == lm[k@] && #[trigger] call_ensures(f, (&pv,), nv)
                                && Node::<K, V>::opt_map(n.l) == lm.insert(k@, nv@);
                        assert(Node::<K, V>::opt_map(n.l).dom() =~= lm.dom());
                        assert(n.bst_at());
                        assert(n.ordered());
                        assert(n.heights_ok());
                        assert(n.balanced());
                        n.lemma_parts();
                        assert(pv@ == self.as_map()[k@]);
                        assert(n.as_map() =~= self.as_map().insert(k@, nv@));
                        assert(call_ensures(f, (&pv,), nv) && pv@ == self.as_map()[k@]
                            && n.as_map() == self.as_map().insert(k@, nv@));
                    } else {
                        assert(!lm.dom().contains(k@));
                        assert(Node::<K, V>::opt_map(n.l) == lm);
                        assert(n.bst_at());
                        assert(n.ordered());
                        assert(n.heights_ok());
                        assert(n.balanced());
                        assert(n.as_map() =~= self.as_map());
                    }
                }
                Some(n)
            },
            Cmp::Greater => {
                proof {
                    if Node::<K, V>::opt_map(self.l).dom().contains(k@) {
                        K::antisymmetric(k@, self.k@);
                    }
                }
                let nr: Option<Arc<Self>> = match &self.r {
                    Some(r) => {
                        let s = r.update(k, f);
                        match s {
                            Some(n2) => Some(Arc::new(n2)),
                            None => {
                                proof {
                                    assert(false);
                                }
                                None
                            },
                        }
                    },
                    None => None,
                };
                let n = Self {
                    k: self.k.dup(),
                    v: self.v.dup(),
                    h: self.h,
                    l: Self::clone_link(&self.l),
                    r: nr,
                };
                proof {
                    let rm = Node::<K, V>::opt_map(self.r);
                    if self.as_map().dom().contains(k@) {
                        assert(rm.dom().contains(k@));
                        let (pv, nv) = choose|pv: V, nv: V|
                            pv@ == rm[k@] && #[trigger] call_ensures(f, (&pv,), nv)
                                && Node::<K, V>::opt_map(n.r) == rm.insert(k@, nv@);
                        assert(Node::<K, V>::opt_map(n.r).dom() =~= rm.dom());
                        assert(n.bst_at());
                        assert(n.ordered());
                        assert(n.heights_ok());
                        assert(n.balanced());
                        n.lemma_parts();
                        assert(pv@ == self.as_map()[k@]);
                        assert(n.as_map() =~= self.as_map().insert(k@, nv@));
                        assert(call_ensures(f, (&pv,), nv) && pv@ == self.as_map()[k@]
                            && n.as_map() == self.as_map().insert(k@, nv@));
                    } else {
                        assert(!rm.dom().contains(k@));
                        assert(Node::<K, V>::opt_map(n.r) == rm);
                        assert(n.bst_at());
                        assert(n.ordered());
                        assert(n.heights_ok());
                        assert(n.balanced());
                        assert(n.as_map() =~= self.as_map());
                    }
                }
                Some(n)
            },
        }
    }

    /// The greatest key in the subtree, together with its value.
    pub fn max(&self) -> (res: (K, V))
        requires
            self.wf(),
        ensures
            self.as_map().dom().contains(res.0@),
            self.as_map()[res.0@] == res.1@,
            forall|e: K::V| #[trigger] self.as_map().dom().contains(e) ==> K::le(e, res.0@),
        decreases self,
    {
        proof {
            self.lemma_parts();
        }
        match &self.r {
            None => {
                proof {
                    K::reflexive(self.k@);
                }
                (self.k.dup(), self.v.dup())
            },
            Some(r) => {
                let res = r.max();
                proof {
                    assert forall|e: K::V| #[trigger] self.as_map().dom().contains(e) implies
                        K::le(e, res.0@) by {
                        if e == self.k@ {
                            assert(Node::<K, V>::opt_map(self.r).dom().contains(res.0@));
                        } else if Node::<K, V>::opt_map(self.l).dom().contains(e) {
                            assert(Node::<K, V>::opt_map(self.r).dom().contains(res.0@));
                            K::transitive(e, self.k@, res.0@);
                        } else {
                            assert(Node::<K, V>::opt_map(self.r).dom().contains(e));
                        }
                    }
                }
                res
            },
        }
    }

    /// Remove the pair stored under the given key, returning the new
    /// subtree, or `None` when the subtree becomes empty.
    pub fn remove(&self, k: &K) -> (res: Option<Self>)
        requires
            self.wf(),
            self.h < usize::MAX,
        ensures
            (match res {
                Some(n) => {
                    &&& n.wf()
                    &&& n.as_map() == self.as_map().remove(k@)
                    &&& (n.h == self.h || n.h as nat + 1 == self.h as nat)
                },
                None => self.as_map().remove(k@) == Map::<K::V, V::V>::empty() && self.h == 1,
            }),
        decreases self,
    {
        proof {
            self.lemma_parts();
        }
        match k.compare(&self.k) {
            Cmp::Less => {
                proof {
                    if Node::<K, V>::opt_map(self.r).dom().contains(k@) {
                        K::antisymmetric(k@, self.k@);
                    }
                }
                let nl: Option<Arc<Self>> = match &self.l {
                    Some(l) => {
                        let s = l.remove(k);
                        match s {
                            Some(n2) => Some(Arc::new(n2)),
                            None => None,
                        }
                    },
                    None => None,
                };
                proof {
                    if self.l is None {
                        assert(Node::<K, V>::opt_map(nl) =~= Node::<K, V>::opt_map(
                            self.l,
                        ).remove(k@));
                    }
                    assert(Node::<K, V>::opt_map(nl) == Node::<K, V>::opt_map(self.l).remove(k@));
                }
                let node = Self {
                    k: self.k.dup(),
                    v: self.v.dup(),
                    h: self.h,
                    l: nl,
                    r: Self::clone_link(&self.r),
                };
                let node = node.recompute_height();
                proof {
                    assert forall|e: K::V| #[trigger] Node::<K, V>::opt_map(
                        node.l,
                    ).dom().contains(e) implies K::le(e, node.k@) && e != node.k@ by {
                        assert(Node::<K, V>::opt_map(self.l).dom().contains(e));
                    }
                    assert(node.bst_at());
                    assert(node.ordered());
                }
                let res2 = node.rebalance_remove();
                proof {
                    node.lemma_parts();
                    assert(res2.as_map() =~= self.as_map().remove(k@));
                }
                Some(res2)
            },
            Cmp::Greater => {
                proof {
                    if Node::<K, V>::opt_map(self.l).dom().contains(k@) {
                        K::antisymmetric(k@, self.k@);
                    }
                }
                let nr: Option<Arc<Self>> = match &self.r {
                    Some(r) => {
                        let s = r.remove(k);
                        match s {
                            Some(n2) => Some(Arc::new(n2)),
                            None => None,
                        }
                    },
                    None => None,
                };
                proof {
                    if self.r is None {
                        assert(Node::<K, V>::opt_map(nr) =~= Node::<K, V>::opt_map(
                            self.r,
                        ).remove(k@));
                    }
                    assert(Node::<K, V>::opt_map(nr) == Node::<K, V>::opt_map(self.r).remove(k@));
                }
                let node = Self {
                    k: self.k.dup(),
                    v: self.v.dup(),
                    h: self.h,
                    l: Self::clone_link(&self.l),
                    r: nr,
                };
                let node = node.recompute_height();
                proof {
                    assert forall|e: K::V| #[trigger] Node::<K, V>::opt_map(
                        node.r,
                    ).dom().contains(e) implies K::le(node.k@, e) && e != node.k@ by {
                        assert(Node::<K, V>::opt_map(self.r).dom().contains(e));
                    }
                    assert(node.bst_at());
                    assert(node.ordered());
                }
                let res2 = node.rebalance_remove();
                proof {
                    node.lemma_parts();
                    assert(res2.as_map() =~= self.as_map().remove(k@));
                }
                Some(res2)
            },
            Cmp::Equal => {
                match (&self.l, &self.r) {
                    (None, None) => {
                        proof {
                            assert(self.as_map().remove(k@) =~= Map::<K::V, V::V>::empty());
                        }
                        None
                    },
                    (None, Some(r)) => {
                        let n = r.clone_node();
                        proof {
                            assert(n.as_map() =~= self.as_map().remove(k@));
                        }
                        Some(n)
                    },
                    (Some(l), None) => {
                        let n = l.clone_node();
                        proof {
                            assert(n.as_map() =~= self.as_map().remove(k@));
                        }
                        Some(n)
                    },
                    (Some(l), Some(_r)) => {
                        let m = l.max();
                        let mk = m.0;
                        let mv = m.1;
                        let s = l.remove(&mk);
                        let nl: Option<Arc<Self>> = match s {
                            Some(n2) => Some(Arc::new(n2)),
                            None => None,
                        };
                        proof {
                            assert(Node::<K, V>::opt_map(nl) == Node::<K, V>::opt_map(
                                self.l,
                            ).remove(mk@)) by {
                                if s is None {
                                    assert(Node::<K, V>::opt_map(nl) =~= Node::<K, V>::opt_map(
                                        self.l,
                                    ).remove(mk@));
                                }
                            }
                            assert(Node::<K, V>::opt_map(self.l).dom().contains(mk@));
                            assert(K::le(mk@, self.k@) && mk@ != self.k@);
                        }
                        let node = Self {
                            k: mk,
                            v: mv,
                            h: self.h,
                            l: nl,
                            r: Self::clone_link(&self.r),
                        };
                        let node = node.recompute_height();
                        proof {
                            let lm = Node::<K, V>::opt_map(self.l);
                            let rm = Node::<K, V>::opt_map(self.r);
                            assert forall|e: K::V| #[trigger] Node::<K, V>::opt_map(
                                node.l,
                            ).dom().contains(e) implies K::le(e, node.k@) && e != node.k@ by {
                                assert(lm.dom().contains(e));
                            }
                            assert forall|e: K::V| #[trigger] Node::<K, V>::opt_map(
                                node.r,
                            ).dom().contains(e) implies K::le(node.k@, e) && e != node.k@ by {
                                assert(rm.dom().contains(e));
                                assert(K::le(self.k@, e) && e != self.k@);
                                K::transitive(node.k@, self.k@, e);
                                if e == node.k@ {
                                    K::antisymmetric(self.k@, e);
                                }
                            }
                            assert(node.bst_at());
                            assert(node.ordered());
                        }
                        let res2 = node.rebalance_remove();
                        proof {
                            node.lemma_parts();
                            assert(res2.as_map() =~= self.as_map().remove(k@)) by {
                                assert(Node::<K, V>::opt_map(node.l) == Node::<K, V>::opt_map(
                                    self.l,
                                ).remove(node.k@));
                                assert(self.as_map()[node.k@] == Node::<K, V>::opt_map(
                                    self.l,
                                )[node.k@]);
                            }
                        }
                        Some(res2)
                    },
                }
            },
        }
    }

    /// Look up the value stored under the given key.
    pub fn get(&self, k: &K) -> (res: Option<&V>)
        requires
            self.wf(),
        ensures
            (match res {
                Some(v) => self.as_map().dom().contains(k@) && v@ == self.as_map()[k@],
                None => !self.as_map().dom().contains(k@),
            }),
        decreases self,
    {
        proof {
            self.lemma_parts();
        }
        match k.compare(&self.k) {
            Cmp::Equal => Some(&self.v),
            Cmp::Less => {
                proof {
                    if Node::<K, V>::opt_map(self.r).dom().contains(k@) {
                        K::antisymmetric(k@, self.k@);
                    }
                }
                match &self.l {
                    Some(l) => l.get(k),
                    None => None,
                }
            },
            Cmp::Greater => {
                proof {
                    if Node::<K, V>::opt_map(self.l).dom().contains(k@) {
                        K::antisymmetric(k@, self.k@);
                    }
                }
                match &self.r {
                    Some(r) => r.get(k),
                    None => None,
                }
            },
        }
    }

    /// The key-value views stored in an optional subtree, in key order.
    pub open spec fn opt_entries(o: Option<Arc<Node<K, V>>>) -> Seq<(K::V, V::V)>
        decreases o,
    {
        match o {
            None => Seq::empty(),
            Some(n) => n.entries(),
        }
    }

    /// The key-value views stored in the subtree, in ascending key order.
    pub open spec fn entries(self) -> Seq<(K::V, V::V)>
        decreases self,
    {
        Node::<K, V>::opt_entries(self.l) + seq![(self.k@, self.v@)] + Node::<K, V>::opt_entries(
            self.r,
        )
    }

    /// In an ordered subtree, the in-order sequence lists exactly the
    /// stored map, each key once, in strictly ascending key order.
    pub proof fn lemma_entries(&self)
        requires
            self.ordered(),
        ensures
            forall|i: int|
                0 <= i < self.entries().len() ==> self.as_map().dom().contains(
                    (#[trigger] self.entries()[i]).0,
                ) && self.as_map()[self.entries()[i].0] == self.entries()[i].1,
            forall|e: K::V|
                #[trigger] self.as_map().dom().contains(e) ==> exists|i: int|
                    0 <= i < self.entries().len() && (#[trigger] self.entries()[i]).0 == e,
            forall|i: int, j: int|
                #![trigger self.entries()[i], self.entries()[j]]
                0 <= i < j < self.entries().len() ==> K::le(
                    self.entries()[i].0,
                    self.entries()[j].0,
                ) && self.entries()[i].0 != self.entries()[j].0,
        decreases self,
    {
        self.lemma_parts();
        let le = Node::<K, V>::opt_entries(self.l);
        let re = Node::<K, V>::opt_entries(self.r);
        let es = self.entries();
        let lm = Node::<K, V>::opt_map(self.l);
        let rm = Node::<K, V>::opt_map(self.r);
        if let Some(l) = self.l {
            l.lemma_entries();
            assert(le == l.entries());
            assert(lm == l.as_map());
        }
        if let Some(r) = self.r {
            r.lemma_entries();
            assert(re == r.entries());
            assert(rm == r.as_map());
        }
        assert(es.len() == le.len() + 1 + re.len());
        assert(es[le.len() as int] == (self.k@, self.v@));
        assert(forall|i: int| 0 <= i < le.len() ==> #[trigger] es[i] == le[i]);
        assert(forall|i: int| 0 <= i < re.len() ==> #[trigger] re[i] == es[le.len() + 1 + i]);
        assert forall|i: int|
            0 <= i < es.len() implies self.as_map().dom().contains((#[trigger] es[i]).0)
            && self.as_map()[es[i].0] == es[i].1 by {
            if i < le.len() {
                assert(es[i] == le[i]);
                assert(lm.dom().contains(le[i].0) && lm[le[i].0] == le[i].1);
            } else if i > le.len() {
                assert(es[i] == re[i - le.len() - 1]);
                assert(rm.dom().contains(re[i - le.len() - 1].0));
            }
        }
        assert forall|e: K::V| #[trigger] self.as_map().dom().contains(e) implies exists|i: int|
            0 <= i < es.len() && (#[trigger] es[i]).0 == e by {
            if e == self.k@ {
                assert(es[le.len() as int].0 == e);
            } else if lm.dom().contains(e) {
                let i = choose|i: int| 0 <= i < le.len() && (#[trigger] le[i]).0 == e;
                assert(es[i].0 == e);
            } else {
                assert(rm.dom().contains(e));
                let i = choose|i: int| 0 <= i < re.len() && (#[trigger] re[i]).0 == e;
                assert(es[le.len() + 1 + i].0 == e);
            }
        }
        assert forall|i: int, j: int|
            #![trigger es[i], es[j]]
            0 <= i < j < es.len() implies K::le(es[i].0, es[j].0) && es[i].0 != es[j].0 by {
            let a = es[i].0;
            let b = es[j].0;
            if i < le.len() {
                assert(es[i] == le[i]);
                assert(lm.dom().contains(a));
                assert(K::le(a, self.k@) && a != self.k@);
                if j < le.len() {
                    assert(es[j] == le[j]);
                } else if j > le.len() {
                    assert(es[j] == re[j - le.len() - 1]);
                    assert(rm.dom().contains(b));
                    assert(K::le(self.k@, b) && b != self.k@);
                    K::transitive(a, self.k@, b);
                    if a == b {
                        K::antisymmetric(a, self.k@);
                    }
                }
            } else if i == le.len() {
                assert(a == self.k@);
                assert(es[j] == re[j - le.len() - 1]);
                assert(rm.dom().contains(b));
            } else {
                assert(es[i] == re[i - le.len() - 1]);
                assert(es[j] == re[j - le.len() - 1]);
            }
        }
    }

    /// The in-order sequence has one element per node.
    pub proof fn lemma_entries_len(&self)
        ensures
            self.entries().len() == self.count(),
        decreases self,
    {
        if let Some(l) = self.l {
            l.lemma_entries_len();
        }
        if let Some(r) = self.r {
            r.lemma_entries_len();
        }
    }

    /// Append the subtree's pairs to `out`, in ascending key order.
    pub fn push_entries(&self, out: &mut Vec<(K, V)>)
        ensures
            entry_views(final(out)@) == entry_views(old(out)@) + self.entries(),
        decreases self,
    {
        match &self.l {
            Some(l) => l.push_entries(out),
            None => (),
        }
        let ghost pre = out@;
        out.push((self.k.dup(), self.v.dup()));
        proof {
            assert(entry_views(out@) =~= entry_views(pre) + seq![(self.k@, self.v@)]);
        }
        let ghost mid = out@;
        match &self.r {
            Some(r) => r.push_entries(out),
            None => (),
        }
        proof {
            assert(entry_views(out@) =~= entry_views(old(out)@) + self.entries());
        }
    }

    /// What a single rotation does to ordering and contents.
    ///
    /// `old_root` is the node being rotated, `pivot` its child in the
    /// direction opposite to the rotation, `inner` the rebuilt copy of the
    /// old root and `res` the rebuilt copy of the pivot that roots the
    /// result. `to_right` says which way the rotation goes.
    proof fn lemma_rotate(old_root: Self, res: Self, to_right: bool)
        requires
            old_root.ordered(),
            to_right ==> old_root.l is Some,
            !to_right ==> old_root.r is Some,
            to_right ==> ({
                let p = old_root.l.unwrap();
                &&& res.k == p.k
                &&& res.v == p.v
                &&& res.l == p.l
                &&& (res.r matches Some(inner) && inner.k == old_root.k && inner.v == old_root.v
                    && inner.l == p.r && inner.r == old_root.r)
            }),
            !to_right ==> ({
                let p = old_root.r.unwrap();
                &&& res.k == p.k
                &&& res.v == p.v
                &&& res.r == p.r
                &&& (res.l matches Some(inner) && inner.k == old_root.k && inner.v == old_root.v
                    && inner.r == p.l && inner.l == old_root.l)
            }),
        ensures
            res.ordered(),
            res.as_map() == old_root.as_map(),
    {
        if to_right {
            let pivot = *old_root.l.unwrap();
            let inner = res.r.unwrap();
            let lm = Node::<K, V>::opt_map(pivot.l);
            let lrm = Node::<K, V>::opt_map(pivot.r);
            let rm = Node::<K, V>::opt_map(old_root.r);
            old_root.lemma_parts();
            pivot.lemma_parts();
            assert(pivot.ordered());
            assert(Node::<K, V>::opt_map(old_root.l).dom().contains(pivot.k@));
            // the rebuilt old root keeps the search order
            assert forall|e: K::V| #[trigger] lrm.dom().contains(e) implies K::le(e, old_root.k@)
                && e != old_root.k@ by {
                assert(Node::<K, V>::opt_map(old_root.l).dom().contains(e));
            }
            assert(inner.bst_at());
            assert(inner.ordered());
            inner.lemma_parts();
            // everything in the rebuilt old root sits above the new root key
            assert forall|e: K::V| #[trigger] inner.as_map().dom().contains(e) implies K::le(
                pivot.k@,
                e,
            ) && e != pivot.k@ by {
                if e == old_root.k@ {
                    assert(K::le(pivot.k@, old_root.k@) && pivot.k@ != old_root.k@);
                } else if lrm.dom().contains(e) {
                    assert(K::le(pivot.k@, e) && e != pivot.k@);
                } else {
                    assert(rm.dom().contains(e));
                    assert(K::le(old_root.k@, e) && e != old_root.k@);
                    assert(K::le(pivot.k@, old_root.k@));
                    K::transitive(pivot.k@, old_root.k@, e);
                    if e == pivot.k@ {
                        K::antisymmetric(old_root.k@, e);
                    }
                }
            }
            assert(res.bst_at());
            assert(res.ordered());
            res.lemma_parts();
            assert(res.as_map() =~= old_root.as_map()) by {
                assert forall|e: K::V| #[trigger] res.as_map().dom().contains(e) implies
                    old_root.as_map().dom().contains(e) && res.as_map()[e]
                    == old_root.as_map()[e] by {
                    if e == pivot.k@ {
                        assert(old_root.as_map()[e] == pivot.v@);
                        assert(res.as_map()[e] == res.v@);
                    } else if lm.dom().contains(e) {
                        assert(res.as_map()[e] == lm[e]);
                        assert(old_root.as_map()[e] == Node::<K, V>::opt_map(old_root.l)[e]);
                    } else {
                        assert(inner.as_map().dom().contains(e));
                        if e == old_root.k@ {
                            assert(res.as_map()[e] == old_root.v@);
                        } else if lrm.dom().contains(e) {
                            assert(res.as_map()[e] == lrm[e]);
                            assert(old_root.as_map()[e] == Node::<K, V>::opt_map(old_root.l)[e]);
                            assert(Node::<K, V>::opt_map(old_root.l)[e] == lrm[e]);
                        } else {
                            assert(rm.dom().contains(e));
                            assert(res.as_map()[e] == rm[e]);
                            assert(old_root.as_map()[e] == rm[e]);
                        }
                    }
                }
                assert forall|e: K::V| #[trigger] old_root.as_map().dom().contains(e) implies
                    res.as_map().dom().contains(e) by {
                    if e == old_root.k@ {
                        assert(inner.as_map().dom().contains(e));
                    } else if Node::<K, V>::opt_map(old_root.l).dom().contains(e) {
                        assert(e == pivot.k@ || lm.dom().contains(e) || lrm.dom().contains(e));
                    } else {
                        assert(rm.dom().contains(e));
                        assert(inner.as_map().dom().contains(e));
                    }
                }
            }
        } else {
            let pivot = *old_root.r.unwrap();
            let inner = res.l.unwrap();
            let rm = Node::<K, V>::opt_map(pivot.r);
            let rlm = Node::<K, V>::opt_map(pivot.l);
            let lm = Node::<K, V>::opt_map(old_root.l);
            old_root.lemma_parts();
            pivot.lemma_parts();
            assert(pivot.ordered());
            assert(Node::<K, V>::opt_map(old_root.r).dom().contains(pivot.k@));
            assert forall|e: K::V| #[trigger] rlm.dom().contains(e) implies K::le(old_root.k@, e)
                && e != old_root.k@ by {
                assert(Node::<K, V>::opt_map(old_root.r).dom().contains(e));
            }
            assert(inner.bst_at());
            assert(inner.ordered());
            inner.lemma_parts();
            assert forall|e: K::V| #[trigger] inner.as_map().dom().contains(e) implies K::le(
                e,
                pivot.k@,
            ) && e != pivot.k@ by {
                if e == old_root.k@ {
                    assert(K::le(old_root.k@, pivot.k@) && pivot.k@ != old_root.k@);
                } else if rlm.dom().contains(e) {
                    assert(K::le(e, pivot.k@) && e != pivot.k@);
                } else {
                    assert(lm.dom().contains(e));
                    assert(K::le(e, old_root.k@) && e != old_root.k@);
                    assert(K::le(old_root.k@, pivot.k@));
                    K::transitive(e, old_root.k@, pivot.k@);
                    if e == pivot.k@ {
                        K::antisymmetric(old_root.k@, e);
                    }
                }
            }
            assert(res.bst_at());
            assert(res.ordered());
            res.lemma_parts();
            assert(res.as_map() =~= old_root.as_map()) by {
                assert forall|e: K::V| #[trigger] res.as_map().dom().contains(e) implies
                    old_root.as_map().dom().contains(e) && res.as_map()[e]
                    == old_root.as_map()[e] by {
                    if e == pivot.k@ {
                        assert(old_root.as_map()[e] == pivot.v@);
                        assert(res.as_map()[e] == res.v@);
                    } else if rm.dom().contains(e) {
                        assert(res.as_map()[e] == rm[e]);
                        assert(old_root.as_map()[e] == Node::<K, V>::opt_map(old_root.r)[e]);
                    } else {
                        assert(inner.as_map().dom().contains(e));
                        if e == old_root.k@ {
                            assert(res.as_map()[e] == old_root.v@);
                        } else if rlm.dom().contains(e) {
                            assert(res.as_map()[e] == rlm[e]);
                            assert(old_root.as_map()[e] == Node::<K, V>::opt_map(old_root.r)[e]);
                            assert(Node::<K, V>::opt_map(old_root.r)[e] == rlm[e]);
                        } else {
                            assert(lm.dom().contains(e));
                            assert(res.as_map()[e] == lm[e]);
                            assert(old_root.as_map()[e] == lm[e]);
                        }
                    }
                }
                assert forall|e: K::V| #[trigger] old_root.as_map().dom().contains(e) implies
                    res.as_map().dom().contains(e) by {
                    if e == old_root.k@ {
                        assert(inner.as_map().dom().contains(e));
                    } else if Node::<K, V>::opt_map(old_root.r).dom().contains(e) {
                        assert(e == pivot.k@ || rm.dom().contains(e) || rlm.dom().contains(e));
                    } else {
                        assert(lm.dom().contains(e));
                        assert(inner.as_map().dom().contains(e));
                    }
                }
            }
        }
    }
}

/// The size of a union of two disjoint finite sets is the sum of their
/// sizes.
proof fn lemma_len_disjoint_union<A>(s1: Set<A>, s2: Set<A>)
    requires
        s1.finite(),
        s2.finite(),
        s1.disjoint(s2),
    ensures
        s1.union(s2).finite(),
        s1.union(s2).len() == s1.len() + s2.len(),
    decreases s1.len(),
{
    if s1.is_empty() {
        assert(s1.union(s2) =~= s2);
    } else {
        let a = s1.choose();
        assert(s1.contains(a));
        lemma_len_disjoint_union(s1.remove(a), s2);
        assert(s1.union(s2).remove(a) =~= s1.remove(a).union(s2));
        assert(s1.union(s2).contains(a));
        assert(s1.union(s2).len() == s1.union(s2).remove(a).len() + 1);
    }
}

/// Helper to read the recorded height of an optional subtree.
pub fn height<K: TotalOrder, V: Duplicable>(node: &Option<Arc<Node<K, V>>>) -> (h: usize)
    ensures
        h as nat == Node::<K, V>::opt_h(*node),
{
    match node {
        None => 0,
        Some(n) => n.h,
    }
}

} // verus!

use vstd::prelude::*;

verus! {

/// One edge-compressed node of the trie.
///
/// `segment` labels the edge from this node's parent to this node (the
/// root's segment is empty).  `children` is kept sorted by the first byte of
/// each child's segment, and no two children start with the same byte.
/// `data` is present iff some inserted key's full path terminates exactly
/// here.
pub struct TrieNode<C> {
    segment: Vec<u8>,
    children: Vec<TrieNode<C>>,
    data: Option<C>,
}

impl<C> TrieNode<C> {
    /// A node carries data of its own: a stored value or at least one child.
    /// Every non-root node must; the root is exempt.
    spec fn is_useful(self) -> bool {
        self.data is Some || self.children@.len() > 0
    }

    /// The structural invariant of a subtree: every child is itself
    /// well-formed, has a non-empty segment, holds a value or children, and
    /// siblings are strictly ordered by the first byte of their segments.
    spec fn subtree_wf(self) -> bool
        decreases self,
    {
        &&& (forall|i: int|
            0 <= i < self.children@.len() ==> (#[trigger] self.children@[i]).subtree_wf())
        &&& (forall|i: int|
            0 <= i < self.children@.len() ==> (#[trigger] self.children@[i]).segment@.len() > 0)
        &&& (forall|i: int|
            0 <= i < self.children@.len() ==> (#[trigger] self.children@[i]).is_useful())
        &&& (forall|i: int, j: int|
            0 <= i < j < self.children@.len() ==> (#[trigger] self.children@[i]).segment@[0]
                < (#[trigger] self.children@[j]).segment@[0])
    }

    /// The invariant of a whole tree, as handed to callers: the root's
    /// segment is empty and every subtree is well-formed.
    pub closed spec fn wf(self) -> bool {
        self.subtree_wf() && self.segment@.len() == 0
    }

    /// Whether key `k` (counted from this node's parent, so including this
    /// node's own segment) is stored in this subtree.
    spec fn contains_key_from(self, k: Seq<u8>) -> bool
        decreases self,
    {
        self.segment@.is_prefix_of(k) && {
            let rest = k.skip(self.segment@.len() as int);
            if rest.len() == 0 {
                self.data is Some
            } else {
                exists|i: int|
                    0 <= i < self.children@.len() && (#[trigger] self.children@[i]).contains_key_from(
                        rest,
                    )
            }
        }
    }

    /// The value stored for key `k` in this subtree.
    spec fn value_from(self, k: Seq<u8>) -> C
        decreases self,
    {
        let rest = k.skip(self.segment@.len() as int);
        if rest.len() == 0 {
            self.data.unwrap()
        } else if exists|i: int|
            0 <= i < self.children@.len() && (#[trigger] self.children@[i]).contains_key_from(
                rest,
            ) {
            let i = choose|i: int|
                0 <= i < self.children@.len() && (#[trigger] self.children@[i]).contains_key_from(
                    rest,
                );
            self.children@[i].value_from(rest)
        } else {
            self.data.unwrap()
        }
    }

    /// The tree as a mathematical map from stored keys to their values.
    pub closed spec fn as_map(self) -> Map<Seq<u8>, C> {
        Map::new(|k: Seq<u8>| self.contains_key_from(k), |k: Seq<u8>| self.value_from(k))
    }

    /// The number of values stored in the subtrees of the first `j`
    /// children.
    spec fn count_upto(self, j: int) -> nat
        decreases self, j,
    {
        if j <= 0 {
            0nat
        } else if j <= self.children@.len() {
            self.count_upto(j - 1) + self.children@[j - 1].count()
        } else {
            self.count_upto(j - 1)
        }
    }

    /// The number of values stored in this subtree.
    spec fn count(self) -> nat
        decreases self, self.children@.len() + 1,
    {
        self.count_upto(self.children@.len() as int) + (if self.data is Some {
            1nat
        } else {
            0nat
        })
    }

    /// Like `contains_key_from`, but routing only through the first `j`
    /// children.
    spec fn contains_key_upto(self, k: Seq<u8>, j: int) -> bool {
        self.segment@.is_prefix_of(k) && {
            let rest = k.skip(self.segment@.len() as int);
            if rest.len() == 0 {
                self.data is Some
            } else {
                exists|i: int|
                    0 <= i < j && i < self.children@.len() && (
                    #[trigger] self.children@[i]).contains_key_from(rest)
            }
        }
    }

    /// The keys stored at this node or below one of the first `j` children.
    spec fn keys_upto(self, j: int) -> Set<Seq<u8>> {
        Set::new(|k: Seq<u8>| self.contains_key_upto(k, j))
    }
}

/// Counting over a prefix of the children grows with the prefix.
proof fn lemma_count_upto_mono<C>(n: TrieNode<C>, j1: int, j2: int)
    requires
        0 <= j1 <= j2,
    ensures
        n.count_upto(j1) <= n.count_upto(j2),
    decreases j2,
{
    if j1 < j2 {
        lemma_count_upto_mono(n, j1, j2 - 1);
    }
}

/// No child stores more values than its parent.
proof fn lemma_child_count_le<C>(n: TrieNode<C>, i: int)
    requires
        0 <= i < n.children@.len(),
    ensures
        n.children@[i].count() <= n.count(),
{
    lemma_count_upto_mono(n, i + 1, n.children@.len() as int);
}

/// The keys stored at this node or below the first `j` children form a
/// finite set whose size is the structural count.
proof fn lemma_card_upto<C>(n: TrieNode<C>, j: int)
    requires
        n.subtree_wf(),
        0 <= j <= n.children@.len(),
    ensures
        n.keys_upto(j).finite(),
        n.keys_upto(j).len() == n.count_upto(j) + (if n.data is Some {
            1nat
        } else {
            0nat
        }),
    decreases n, j,
{
    let s = n.segment@;
    let ls = s.len() as int;
    if j == 0 {
        assert forall|k: Seq<u8>| #[trigger] n.contains_key_upto(k, 0) implies k == s by {
            assert(k.skip(ls).len() == 0);
            assert(k =~= s);
        }
        if n.data is Some {
            assert(s =~= s.subrange(0, ls));
            assert(s.is_prefix_of(s));
            assert(n.contains_key_upto(s, 0));
            assert(n.keys_upto(0) =~= Set::empty().insert(s));
        } else {
            assert(n.keys_upto(0) =~= Set::<Seq<u8>>::empty());
        }
    } else {
        lemma_card_upto(n, j - 1);
        let c = n.children@[j - 1];
        lemma_count_card(c);
        let x = c.as_map().dom();
        let f = |t: Seq<u8>| s + t;
        let img = x.map(f);
        assert(vstd::relations::injective_on(f, x)) by {
            assert forall|t1: Seq<u8>, t2: Seq<u8>|
                x.contains(t1) && x.contains(t2) && #[trigger] f(t1) == #[trigger] f(t2) implies t1
                == t2 by {
                assert((s + t1).skip(ls) =~= t1);
                assert((s + t2).skip(ls) =~= t2);
            }
        }
        vstd::set_lib::lemma_map_size(x, img, f);
        assert forall|k: Seq<u8>| #[trigger] img.contains(k) implies s.is_prefix_of(k) && k.skip(
            ls,
        ).len() > 0 && c.contains_key_from(k.skip(ls)) by {
            let t = choose|t: Seq<u8>| x.contains(t) && k == f(t);
            assert((s + t).skip(ls) =~= t);
            assert(s =~= (s + t).subrange(0, ls));
            lemma_child_first_byte(c, t);
        }
        assert forall|k: Seq<u8>|
            s.is_prefix_of(k) && (#[trigger] c.contains_key_from(k.skip(ls))) && k.skip(
                ls,
            ).len() > 0 implies img.contains(k) by {
            let t = k.skip(ls);
            assert(x.contains(t));
            assert(k =~= s + t);
            assert(img.contains(f(t)));
        }
        let left = n.keys_upto(j - 1);
        assert(left.disjoint(img)) by {
            assert forall|k: Seq<u8>| #[trigger] left.contains(k) implies !img.contains(k) by {
                if img.contains(k) {
                    let rest = k.skip(ls);
                    lemma_child_first_byte(c, rest);
                    if rest.len() != 0 {
                        let i = choose|i: int|
                            0 <= i < j - 1 && i < n.children@.len() && (
                            #[trigger] n.children@[i]).contains_key_from(rest);
                        lemma_child_first_byte(n.children@[i], rest);
                        assert(n.children@[i].segment@[0] < c.segment@[0]);
                    }
                }
            }
        }
        assert(n.keys_upto(j) =~= left + img) by {
            assert forall|k: Seq<u8>| #[trigger] n.contains_key_upto(k, j) implies left.contains(
                k,
            ) || img.contains(k) by {
                let rest = k.skip(ls);
                if rest.len() != 0 {
                    let i = choose|i: int|
                        0 <= i < j && i < n.children@.len() && (
                        #[trigger] n.children@[i]).contains_key_from(rest);
                    if i == j - 1 {
                        assert(c.contains_key_from(k.skip(ls)));
                        assert(img.contains(k));
                    } else {
                        assert(n.contains_key_upto(k, j - 1));
                    }
                }
            }
            assert forall|k: Seq<u8>| #[trigger] (left + img).contains(k) implies
                n.contains_key_upto(k, j) by {
                if left.contains(k) {
                    assert(n.contains_key_upto(k, j - 1));
                } else {
                    assert(img.contains(k));
                    assert(c.contains_key_from(k.skip(ls)));
                }
            }
        }
        vstd::set_lib::lemma_set_disjoint_lens(left, img);
    }
}

/// A well-formed subtree stores finitely many keys: exactly its structural
/// count.
proof fn lemma_count_card<C>(n: TrieNode<C>)
    requires
        n.subtree_wf(),
    ensures
        n.as_map().dom().finite(),
        n.as_map().dom().len() == n.count(),
    decreases n, n.children@.len() + 1,
{
    lemma_card_upto(n, n.children@.len() as int);
    assert(n.as_map().dom() =~= n.keys_upto(n.children@.len() as int));
}

impl<C> View for TrieNode<C> {
    type V = Map<Seq<u8>, C>;

    open spec fn view(&self) -> Map<Seq<u8>, C> {
        self.as_map()
    }
}

/// The set of keys of `m` that `p` is a byte-wise prefix of.
pub open spec fn keys_with_prefix<C>(m: Map<Seq<u8>, C>, p: Seq<u8>) -> Set<Seq<u8>> {
    m.dom().filter(|k: Seq<u8>| p.is_prefix_of(k))
}

/// The length of the longest common prefix of `lhs` and `rhs`.
pub fn common_prefix(lhs: &[u8], rhs: &[u8]) -> (r: usize)
    ensures
        r <= lhs@.len() && r <= rhs@.len(),
        forall|i: int| 0 <= i < r ==> lhs@[i] == rhs@[i],
        r < lhs@.len() && r < rhs@.len() ==> lhs@[r as int] != rhs@[r as int],
{
    let mut i: usize = 0;
    while i < lhs.len() && i < rhs.len() && lhs[i] == rhs[i]
        invariant
            i <= lhs@.len() && i <= rhs@.len(),
            forall|j: int| 0 <= j < i ==> lhs@[j] == rhs@[j],
        decreases lhs@.len() - i,
    {
        i += 1;
    }
    i
}

/// A child that stores `rest` must label its edge with the first byte of
/// `rest`.
proof fn lemma_child_first_byte<C>(c: TrieNode<C>, rest: Seq<u8>)
    requires
        c.segment@.len() > 0,
        c.contains_key_from(rest),
    ensures
        rest.len() >= c.segment@.len(),
        rest[0] == c.segment@[0],
{
    assert(c.segment@ =~= rest.subrange(0, c.segment@.len() as int));
    assert(rest[0] == rest.subrange(0, c.segment@.len() as int)[0]);
}

/// Sibling segments start with distinct bytes, so at most one child can
/// store a given remainder.
proof fn lemma_unique_child<C>(n: TrieNode<C>, rest: Seq<u8>, i: int, j: int)
    requires
        n.subtree_wf(),
        0 <= i < n.children@.len(),
        0 <= j < n.children@.len(),
        n.children@[i].contains_key_from(rest),
        n.children@[j].contains_key_from(rest),
    ensures
        i == j,
{
    lemma_child_first_byte(n.children@[i], rest);
    lemma_child_first_byte(n.children@[j], rest);
    if i < j {
        assert(n.children@[i].segment@[0] < n.children@[j].segment@[0]);
    }
    if j < i {
        assert(n.children@[j].segment@[0] < n.children@[i].segment@[0]);
    }
}

/// Storing through child `i` determines membership and the stored value of
/// the whole node.
proof fn lemma_value_via_child<C>(n: TrieNode<C>, k: Seq<u8>, i: int)
    requires
        n.subtree_wf(),
        n.segment@.is_prefix_of(k),
        k.skip(n.segment@.len() as int).len() > 0,
        0 <= i < n.children@.len(),
        n.children@[i].contains_key_from(k.skip(n.segment@.len() as int)),
    ensures
        n.contains_key_from(k),
        n.value_from(k) == n.children@[i].value_from(k.skip(n.segment@.len() as int)),
{
    let rest = k.skip(n.segment@.len() as int);
    assert(n.contains_key_from(k));
    let j = choose|j: int|
        0 <= j < n.children@.len() && (#[trigger] n.children@[j]).contains_key_from(rest);
    lemma_unique_child(n, rest, i, j);
}

/// If no child's segment starts with the next unmatched byte, the key is
/// not stored.
proof fn lemma_no_child_no_key<C>(n: TrieNode<C>, k: Seq<u8>)
    requires
        n.subtree_wf(),
        n.segment@.is_prefix_of(k),
        k.skip(n.segment@.len() as int).len() > 0,
        forall|j: int|
            0 <= j < n.children@.len() ==> (#[trigger] n.children@[j]).segment@[0] != k.skip(
                n.segment@.len() as int,
            )[0],
    ensures
        !n.contains_key_from(k),
{
    let rest = k.skip(n.segment@.len() as int);
    if n.contains_key_from(k) {
        let i = choose|i: int|
            0 <= i < n.children@.len() && (#[trigger] n.children@[i]).contains_key_from(rest);
        lemma_child_first_byte(n.children@[i], rest);
    }
}

/// Splitting a node's segment into `pre` + the segment of a lone child
/// re-routes every key through that child: node `a` (with the whole
/// segment) and node `b` (with only the suffix) store the same keys, up to
/// dropping the `pre` prefix.
proof fn lemma_reseg<C>(a: TrieNode<C>, b: TrieNode<C>, pre: Seq<u8>, k: Seq<u8>)
    requires
        a.subtree_wf(),
        a.segment@ == pre + b.segment@,
        a.children@ == b.children@,
        a.data == b.data,
    ensures
        a.contains_key_from(k) == (pre.is_prefix_of(k) && b.contains_key_from(
            k.skip(pre.len() as int),
        )),
        a.contains_key_from(k) ==> a.value_from(k) == b.value_from(k.skip(pre.len() as int)),
{
    let la = a.segment@.len() as int;
    let lp = pre.len() as int;
    let lb = b.segment@.len() as int;
    let t = k.skip(lp);
    assert(la == lp + lb);
    if a.segment@.is_prefix_of(k) {
        assert forall|x: int| 0 <= x < la implies a.segment@[x] == k[x] by {
            assert(a.segment@[x] == k.subrange(0, la)[x]);
        }
        assert forall|x: int| 0 <= x < lb implies a.segment@[lp + x] == b.segment@[x] by {
            assert((pre + b.segment@)[lp + x] == b.segment@[x]);
        }
        assert(pre =~= k.subrange(0, lp));
        assert(b.segment@ =~= t.subrange(0, lb));
        assert(k.skip(la) =~= t.skip(lb));
    } else if pre.is_prefix_of(k) && b.segment@.is_prefix_of(t) {
        assert forall|x: int| 0 <= x < la implies a.segment@[x] == k[x] by {
            assert((pre + b.segment@)[x] == a.segment@[x]);
            if x < lp {
                assert(pre[x] == k.subrange(0, lp)[x]);
            } else {
                assert(b.segment@[x - lp] == t.subrange(0, lb)[x - lp]);
                assert(t[x - lp] == k[x]);
            }
        }
        assert(a.segment@ =~= k.subrange(0, la));
    }
    if a.contains_key_from(k) {
        let rest = k.skip(la);
        if rest.len() == 0 {
        } else {
            let i = choose|i: int|
                0 <= i < a.children@.len() && (#[trigger] a.children@[i]).contains_key_from(rest);
            lemma_value_via_child(a, k, i);
            assert(b.children@[i].contains_key_from(t.skip(lb)));
            lemma_value_via_child(b, t, i);
        }
    }
}

/// A freshly made leaf node stores exactly its own segment.
proof fn lemma_leaf_contains<C>(leaf: TrieNode<C>, t: Seq<u8>)
    requires
        leaf.children@.len() == 0,
        leaf.data is Some,
    ensures
        leaf.contains_key_from(t) <==> t == leaf.segment@,
        leaf.contains_key_from(t) ==> leaf.value_from(t) == leaf.data.unwrap(),
{
    if leaf.contains_key_from(t) {
        assert(t.skip(leaf.segment@.len() as int).len() == 0);
        assert(t =~= leaf.segment@);
    }
    if t == leaf.segment@ {
        assert(leaf.segment@ =~= t.subrange(0, leaf.segment@.len() as int));
        assert(leaf.contains_key_from(t));
    }
}

/// A node with the same children as a well-formed node is itself
/// well-formed below.
proof fn lemma_wf_same_children<C>(pre: TrieNode<C>, post: TrieNode<C>)
    requires
        pre.subtree_wf(),
        post.children@ == pre.children@,
    ensures
        post.subtree_wf(),
{
    assert forall|i: int| 0 <= i < post.children@.len() implies {
        &&& (#[trigger] post.children@[i]).subtree_wf()
        &&& post.children@[i].segment@.len() > 0
        &&& post.children@[i].is_useful()
    } by {
        assert(post.children@[i] == pre.children@[i]);
    }
    assert forall|i: int, j: int| 0 <= i < j < post.children@.len() implies (
    #[trigger] post.children@[i]).segment@[0] < (#[trigger] post.children@[j]).segment@[0] by {
        assert(post.children@[i] == pre.children@[i]);
        assert(post.children@[j] == pre.children@[j]);
    }
}

/// Splitting a node into a shorter segment plus a single child that carries
/// the remainder of the segment, the original children and the original
/// value leaves the stored keys unchanged.
proof fn lemma_split<C>(pre: TrieNode<C>, mid: TrieNode<C>, cp: int)
    requires
        pre.subtree_wf(),
        pre.segment@.len() > 0 ==> pre.is_useful(),
        0 <= cp < pre.segment@.len(),
        mid.segment@ == pre.segment@.subrange(0, cp),
        mid.data is None,
        mid.children@.len() == 1,
        mid.children@[0].segment@ == pre.segment@.subrange(cp, pre.segment@.len() as int),
        mid.children@[0].children@ == pre.children@,
        mid.children@[0].data == pre.data,
    ensures
        mid.subtree_wf(),
        mid.as_map() == pre.as_map(),
{
    let sc = mid.children@[0];
    let s1 = mid.segment@;
    lemma_wf_same_children(pre, sc);
    assert(mid.subtree_wf());
    assert(pre.segment@ =~= s1 + sc.segment@);
    assert forall|k: Seq<u8>| #[trigger] pre.contains_key_from(k) implies mid.contains_key_from(k)
        && mid.value_from(k) == pre.value_from(k) by {
        lemma_reseg(pre, sc, s1, k);
        let t = k.skip(cp);
        assert(sc.contains_key_from(t));
        assert(t.len() >= sc.segment@.len() > 0);
        lemma_value_via_child(mid, k, 0);
    }
    assert forall|k: Seq<u8>| #[trigger] mid.contains_key_from(k) implies pre.contains_key_from(
        k,
    ) by {
        lemma_reseg(pre, sc, s1, k);
        let t = k.skip(cp);
        if t.len() == 0 {
            assert(!sc.contains_key_from(t));
        } else {
            let i = choose|i: int|
                0 <= i < mid.children@.len() && (#[trigger] mid.children@[i]).contains_key_from(t);
            assert(i == 0);
        }
    }
    assert(mid.as_map() =~= pre.as_map());
}

/// Storing a value directly on a node adds exactly the node's own path to
/// the stored keys.
proof fn lemma_set_data<C>(pre: TrieNode<C>, post: TrieNode<C>, v: C)
    requires
        pre.subtree_wf(),
        post.segment == pre.segment,
        post.children == pre.children,
        post.data == Some(v),
    ensures
        post.subtree_wf(),
        post.is_useful(),
        post.as_map() == pre.as_map().insert(pre.segment@, v),
        pre.contains_key_from(pre.segment@) == (pre.data is Some),
        pre.data is Some ==> pre.value_from(pre.segment@) == pre.data.unwrap(),
{
    let s = pre.segment@;
    let ls = s.len() as int;
    lemma_wf_same_children(pre, post);
    assert(s =~= s.subrange(0, ls));
    assert(s.is_prefix_of(s));
    assert(s.skip(ls).len() == 0);
    assert(post.contains_key_from(s));
    assert(post.value_from(s) == v);
    assert forall|k: Seq<u8>| #[trigger] post.contains_key_from(k) && k != s implies
        pre.contains_key_from(k) && post.value_from(k) == pre.value_from(k) by {
        let rest = k.skip(ls);
        if rest.len() == 0 {
            assert(k =~= s);
        } else {
            let i = choose|i: int|
                0 <= i < post.children@.len() && (#[trigger] post.children@[i]).contains_key_from(
                    rest,
                );
            assert(pre.children@[i] == post.children@[i]);
            lemma_value_via_child(post, k, i);
            lemma_value_via_child(pre, k, i);
        }
    }
    assert forall|k: Seq<u8>| #[trigger] pre.contains_key_from(k) && k != s implies
        post.contains_key_from(k) by {
        let rest = k.skip(ls);
        if rest.len() == 0 {
            assert(k =~= s);
        } else {
            let i = choose|i: int|
                0 <= i < pre.children@.len() && (#[trigger] pre.children@[i]).contains_key_from(
                    rest,
                );
            assert(post.children@[i] == pre.children@[i]);
            lemma_value_via_child(post, k, i);
        }
    }
    assert(post.as_map() =~= pre.as_map().insert(s, v));
}

/// Inserting a fresh leaf at its sorted slot among the children adds
/// exactly the leaf's path to the stored keys.
proof fn lemma_insert_leaf<C>(pre: TrieNode<C>, post: TrieNode<C>, i: int, leaf: TrieNode<C>)
    requires
        pre.subtree_wf(),
        post.segment == pre.segment,
        post.data == pre.data,
        0 <= i <= pre.children@.len(),
        post.children@ == pre.children@.insert(i, leaf),
        leaf.children@.len() == 0,
        leaf.data is Some,
        leaf.segment@.len() > 0,
        forall|j: int| 0 <= j < i ==> (#[trigger] pre.children@[j]).segment@[0] < leaf.segment@[0],
        forall|j: int|
            i <= j < pre.children@.len() ==> (#[trigger] pre.children@[j]).segment@[0]
                > leaf.segment@[0],
    ensures
        post.subtree_wf(),
        post.is_useful(),
        post.as_map() == pre.as_map().insert(
            pre.segment@ + leaf.segment@,
            leaf.data.unwrap(),
        ),
        !pre.contains_key_from(pre.segment@ + leaf.segment@),
{
    let s = pre.segment@;
    let ls = s.len() as int;
    let kk = s + leaf.segment@;
    let n = pre.children@.len() as int;
    pre.children@.insert_ensures(i, leaf);
    assert(post.children@[i] == leaf);
    assert forall|j: int| 0 <= j < post.children@.len() implies {
        &&& (#[trigger] post.children@[j]).subtree_wf()
        &&& post.children@[j].segment@.len() > 0
        &&& post.children@[j].is_useful()
    } by {
        if j < i {
            assert(post.children@[j] == pre.children@[j]);
        } else if j > i {
            assert(post.children@[j] == pre.children@[j - 1]);
        }
    }
    assert forall|j1: int, j2: int| 0 <= j1 < j2 < post.children@.len() implies (
    #[trigger] post.children@[j1]).segment@[0] < (#[trigger] post.children@[j2]).segment@[0] by {
        if j1 < i {
            assert(post.children@[j1] == pre.children@[j1]);
        } else if j1 > i {
            assert(post.children@[j1] == pre.children@[j1 - 1]);
        }
        if j2 < i {
            assert(post.children@[j2] == pre.children@[j2]);
        } else if j2 > i {
            assert(post.children@[j2] == pre.children@[j2 - 1]);
        }
    }
    assert(post.subtree_wf());
    assert(s =~= kk.subrange(0, ls));
    assert(s.is_prefix_of(kk));
    assert(kk.skip(ls) =~= leaf.segment@);
    lemma_leaf_contains(leaf, leaf.segment@);
    lemma_value_via_child(post, kk, i);
    if pre.contains_key_from(kk) {
        let j = choose|j: int|
            0 <= j < pre.children@.len() && (#[trigger] pre.children@[j]).contains_key_from(
                kk.skip(ls),
            );
        lemma_child_first_byte(pre.children@[j], leaf.segment@);
    }
    assert forall|k: Seq<u8>| #[trigger] post.contains_key_from(k) && k != kk implies
        pre.contains_key_from(k) && post.value_from(k) == pre.value_from(k) by {
        let rest = k.skip(ls);
        if rest.len() == 0 {
        } else {
            assert(k =~= s + rest);
            let j = choose|j: int|
                0 <= j < post.children@.len() && (#[trigger] post.children@[j]).contains_key_from(
                    rest,
                );
            if j == i {
                lemma_leaf_contains(leaf, rest);
                assert(k == kk);
            } else if j < i {
                assert(post.children@[j] == pre.children@[j]);
                lemma_value_via_child(post, k, j);
                lemma_value_via_child(pre, k, j);
            } else {
                assert(post.children@[j] == pre.children@[j - 1]);
                lemma_value_via_child(post, k, j);
                lemma_value_via_child(pre, k, j - 1);
            }
        }
    }
    assert forall|k: Seq<u8>| #[trigger] pre.contains_key_from(k) && k != kk implies
        post.contains_key_from(k) by {
        let rest = k.skip(ls);
        if rest.len() == 0 {
        } else {
            let j = choose|j: int|
                0 <= j < pre.children@.len() && (#[trigger] pre.children@[j]).contains_key_from(
                    rest,
                );
            if j < i {
                assert(post.children@[j] == pre.children@[j]);
                lemma_value_via_child(post, k, j);
            } else {
                assert(post.children@[j + 1] == pre.children@[j]);
                lemma_value_via_child(post, k, j + 1);
            }
        }
    }
    assert(post.as_map() =~= pre.as_map().insert(kk, leaf.data.unwrap()));
}

/// Replacing one child with a child that stores one more key, all else
/// equal, adds exactly that key (extended by this node's segment) to the
/// stored keys.
proof fn lemma_update_child<C>(
    pre: TrieNode<C>,
    post: TrieNode<C>,
    i: int,
    sub: Seq<u8>,
    v: C,
)
    requires
        pre.subtree_wf(),
        post.segment == pre.segment,
        post.data == pre.data,
        0 <= i < pre.children@.len(),
        post.children@.len() == pre.children@.len(),
        forall|j: int|
            0 <= j < pre.children@.len() && j != i ==> #[trigger] post.children@[j]
                == pre.children@[j],
        post.children@[i].subtree_wf(),
        post.children@[i].is_useful(),
        post.children@[i].segment@.len() > 0,
        post.children@[i].segment@[0] == pre.children@[i].segment@[0],
        sub.len() > 0,
        sub[0] == pre.children@[i].segment@[0],
        post.children@[i].as_map() == pre.children@[i].as_map().insert(sub, v),
    ensures
        post.subtree_wf(),
        post.is_useful(),
        post.as_map() == pre.as_map().insert(pre.segment@ + sub, v),
        pre.contains_key_from(pre.segment@ + sub) == pre.children@[i].contains_key_from(sub),
        pre.contains_key_from(pre.segment@ + sub) ==> pre.value_from(pre.segment@ + sub)
            == pre.children@[i].value_from(sub),
{
    let s = pre.segment@;
    let ls = s.len() as int;
    let co = pre.children@[i];
    let cn = post.children@[i];
    let b = co.segment@[0];
    let kk = s + sub;
    let n = pre.children@.len() as int;
    assert forall|j: int| 0 <= j < post.children@.len() implies {
        &&& (#[trigger] post.children@[j]).subtree_wf()
        &&& post.children@[j].segment@.len() > 0
        &&& post.children@[j].is_useful()
    } by {
        if j != i {
            assert(post.children@[j] == pre.children@[j]);
        }
    }
    assert forall|j1: int, j2: int| 0 <= j1 < j2 < post.children@.len() implies (
    #[trigger] post.children@[j1]).segment@[0] < (#[trigger] post.children@[j2]).segment@[0] by {
        if j1 != i {
            assert(post.children@[j1] == pre.children@[j1]);
        }
        if j2 != i {
            assert(post.children@[j2] == pre.children@[j2]);
        }
    }
    assert(post.subtree_wf());
    assert forall|j: int| 0 <= j < n && j != i implies (#[trigger] pre.children@[j]).segment@[0]
        != b by {
        if j < i {
            assert(pre.children@[j].segment@[0] < pre.children@[i].segment@[0]);
        } else {
            assert(pre.children@[i].segment@[0] < pre.children@[j].segment@[0]);
        }
    }
    assert(s =~= kk.subrange(0, ls));
    assert(s.is_prefix_of(kk));
    assert(kk.skip(ls) =~= sub);
    // the new key is stored below the new child
    assert(cn.as_map().contains_key(sub));
    assert(cn.contains_key_from(sub));
    lemma_value_via_child(post, kk, i);
    assert(cn.value_from(sub) == cn.as_map()[sub]);
    assert(post.value_from(kk) == v);
    // whether the old tree stored it is decided by the old child
    if co.contains_key_from(sub) {
        lemma_value_via_child(pre, kk, i);
    } else {
        if pre.contains_key_from(kk) {
            let j = choose|j: int|
                0 <= j < pre.children@.len() && (#[trigger] pre.children@[j]).contains_key_from(
                    sub,
                );
            lemma_child_first_byte(pre.children@[j], sub);
            assert(j == i);
        }
    }
    assert forall|k: Seq<u8>| #[trigger] post.contains_key_from(k) && k != kk implies
        pre.contains_key_from(k) && post.value_from(k) == pre.value_from(k) by {
        let rest = k.skip(ls);
        if rest.len() == 0 {
        } else {
            assert(k =~= s + rest);
            let j = choose|j: int|
                0 <= j < post.children@.len() && (#[trigger] post.children@[j]).contains_key_from(
                    rest,
                );
            if j == i {
                assert(cn.as_map().contains_key(rest));
                assert(rest != sub);
                assert(co.as_map().contains_key(rest));
                assert(co.contains_key_from(rest));
                lemma_value_via_child(post, k, i);
                lemma_value_via_child(pre, k, i);
                assert(cn.value_from(rest) == cn.as_map()[rest]);
                assert(co.value_from(rest) == co.as_map()[rest]);
            } else {
                assert(post.children@[j] == pre.children@[j]);
                lemma_value_via_child(post, k, j);
                lemma_value_via_child(pre, k, j);
            }
        }
    }
    assert forall|k: Seq<u8>| #[trigger] pre.contains_key_from(k) && k != kk implies
        post.contains_key_from(k) by {
        let rest = k.skip(ls);
        if rest.len() == 0 {
        } else {
            assert(k =~= s + rest);
            let j = choose|j: int|
                0 <= j < pre.children@.len() && (#[trigger] pre.children@[j]).contains_key_from(
                    rest,
                );
            if j == i {
                assert(co.as_map().contains_key(rest));
                assert(rest != sub);
                assert(cn.as_map().contains_key(rest));
                assert(cn.contains_key_from(rest));
                lemma_value_via_child(post, k, i);
            } else {
                assert(post.children@[j] == pre.children@[j]);
                lemma_value_via_child(post, k, j);
            }
        }
    }
    assert(post.as_map() =~= pre.as_map().insert(kk, v));
}

/// Clearing the value stored directly on a node removes exactly the node's
/// own path from the stored keys.
proof fn lemma_clear_data<C>(pre: TrieNode<C>, post: TrieNode<C>)
    requires
        pre.subtree_wf(),
        post.segment == pre.segment,
        post.children == pre.children,
        post.data is None,
    ensures
        post.subtree_wf(),
        post.as_map() == pre.as_map().remove(pre.segment@),
        pre.contains_key_from(pre.segment@) == (pre.data is Some),
        pre.data is Some ==> pre.value_from(pre.segment@) == pre.data.unwrap(),
{
    let s = pre.segment@;
    let ls = s.len() as int;
    lemma_wf_same_children(pre, post);
    assert(s =~= s.subrange(0, ls));
    assert(s.is_prefix_of(s));
    assert(s.skip(ls).len() == 0);
    assert(!post.contains_key_from(s));
    assert forall|k: Seq<u8>| #[trigger] post.contains_key_from(k) implies
        pre.contains_key_from(k) && post.value_from(k) == pre.value_from(k) && k != s by {
        let rest = k.skip(ls);
        if rest.len() == 0 {
            assert(k =~= s);
        } else {
            let i = choose|i: int|
                0 <= i < post.children@.len() && (#[trigger] post.children@[i]).contains_key_from(
                    rest,
                );
            assert(pre.children@[i] == post.children@[i]);
            lemma_value_via_child(post, k, i);
            lemma_value_via_child(pre, k, i);
        }
    }
    assert forall|k: Seq<u8>| #[trigger] pre.contains_key_from(k) && k != s implies
        post.contains_key_from(k) by {
        let rest = k.skip(ls);
        if rest.len() == 0 {
            assert(k =~= s);
        } else {
            let i = choose|i: int|
                0 <= i < pre.children@.len() && (#[trigger] pre.children@[i]).contains_key_from(
                    rest,
                );
            assert(post.children@[i] == pre.children@[i]);
            lemma_value_via_child(post, k, i);
        }
    }
    assert(post.as_map() =~= pre.as_map().remove(s));
}

/// Replacing one child with a child that stores one key fewer, all else
/// equal, removes exactly that key (extended by this node's segment) from
/// the stored keys.
proof fn lemma_update_child_remove<C>(pre: TrieNode<C>, post: TrieNode<C>, i: int, sub: Seq<u8>)
    requires
        pre.subtree_wf(),
        post.segment == pre.segment,
        post.data == pre.data,
        0 <= i < pre.children@.len(),
        post.children@.len() == pre.children@.len(),
        forall|j: int|
            0 <= j < pre.children@.len() && j != i ==> #[trigger] post.children@[j]
                == pre.children@[j],
        post.children@[i].subtree_wf(),
        post.children@[i].is_useful(),
        post.children@[i].segment@.len() > 0,
        post.children@[i].segment@[0] == pre.children@[i].segment@[0],
        sub.len() > 0,
        sub[0] == pre.children@[i].segment@[0],
        post.children@[i].as_map() == pre.children@[i].as_map().remove(sub),
    ensures
        post.subtree_wf(),
        post.as_map() == pre.as_map().remove(pre.segment@ + sub),
        pre.contains_key_from(pre.segment@ + sub) == pre.children@[i].contains_key_from(sub),
        pre.contains_key_from(pre.segment@ + sub) ==> pre.value_from(pre.segment@ + sub)
            == pre.children@[i].value_from(sub),
{
    let s = pre.segment@;
    let ls = s.len() as int;
    let co = pre.children@[i];
    let cn = post.children@[i];
    let b = co.segment@[0];
    let kk = s + sub;
    let n = pre.children@.len() as int;
    assert forall|j: int| 0 <= j < post.children@.len() implies {
        &&& (#[trigger] post.children@[j]).subtree_wf()
        &&& post.children@[j].segment@.len() > 0
        &&& post.children@[j].is_useful()
    } by {
        if j != i {
            assert(post.children@[j] == pre.children@[j]);
        }
    }
    assert forall|j1: int, j2: int| 0 <= j1 < j2 < post.children@.len() implies (
    #[trigger] post.children@[j1]).segment@[0] < (#[trigger] post.children@[j2]).segment@[0] by {
        if j1 != i {
            assert(post.children@[j1] == pre.children@[j1]);
        }
        if j2 != i {
            assert(post.children@[j2] == pre.children@[j2]);
        }
    }
    assert(post.subtree_wf());
    assert forall|j: int| 0 <= j < n && j != i implies (#[trigger] pre.children@[j]).segment@[0]
        != b by {
        if j < i {
            assert(pre.children@[j].segment@[0] < pre.children@[i].segment@[0]);
        } else {
            assert(pre.children@[i].segment@[0] < pre.children@[j].segment@[0]);
        }
    }
    assert(s =~= kk.subrange(0, ls));
    assert(s.is_prefix_of(kk));
    assert(kk.skip(ls) =~= sub);
    // the new tree no longer stores the removed key
    assert(!cn.as_map().contains_key(sub));
    assert(!cn.contains_key_from(sub));
    if post.contains_key_from(kk) {
        let j = choose|j: int|
            0 <= j < post.children@.len() && (#[trigger] post.children@[j]).contains_key_from(
                sub,
            );
        lemma_child_first_byte(post.children@[j], sub);
        if j != i {
            assert(post.children@[j] == pre.children@[j]);
        }
    }
    // whether the old tree stored it is decided by the old child
    if co.contains_key_from(sub) {
        lemma_value_via_child(pre, kk, i);
    } else {
        if pre.contains_key_from(kk) {
            let j = choose|j: int|
                0 <= j < pre.children@.len() && (#[trigger] pre.children@[j]).contains_key_from(
                    sub,
                );
            lemma_child_first_byte(pre.children@[j], sub);
            assert(j == i);
        }
    }
    assert forall|k: Seq<u8>| #[trigger] post.contains_key_from(k) && k != kk implies
        pre.contains_key_from(k) && post.value_from(k) == pre.value_from(k) by {
        let rest = k.skip(ls);
        if rest.len() == 0 {
        } else {
            assert(k =~= s + rest);
            let j = choose|j: int|
                0 <= j < post.children@.len() && (#[trigger] post.children@[j]).contains_key_from(
                    rest,
                );
            if j == i {
                assert(cn.as_map().contains_key(rest));
                assert(rest != sub);
                assert(co.as_map().contains_key(rest));
                assert(co.contains_key_from(rest));
                lemma_value_via_child(post, k, i);
                lemma_value_via_child(pre, k, i);
                assert(cn.value_from(rest) == cn.as_map()[rest]);
                assert(co.value_from(rest) == co.as_map()[rest]);
            } else {
                assert(post.children@[j] == pre.children@[j]);
                lemma_value_via_child(post, k, j);
                lemma_value_via_child(pre, k, j);
            }
        }
    }
    assert forall|k: Seq<u8>| #[trigger] pre.contains_key_from(k) && k != kk implies
        post.contains_key_from(k) by {
        let rest = k.skip(ls);
        if rest.len() == 0 {
        } else {
            assert(k =~= s + rest);
            let j = choose|j: int|
                0 <= j < pre.children@.len() && (#[trigger] pre.children@[j]).contains_key_from(
                    rest,
                );
            if j == i {
                assert(co.as_map().contains_key(rest));
                assert(rest != sub);
                assert(cn.as_map().contains_key(rest));
                assert(cn.contains_key_from(rest));
                lemma_value_via_child(post, k, i);
            } else {
                assert(post.children@[j] == pre.children@[j]);
                lemma_value_via_child(post, k, j);
            }
        }
    }
    assert(post.as_map() =~= pre.as_map().remove(kk));
}

/// Dropping a child that stored only the removed key removes exactly that
/// key (extended by this node's segment) from the stored keys.
proof fn lemma_drop_child<C>(pre: TrieNode<C>, post: TrieNode<C>, i: int, sub: Seq<u8>)
    requires
        pre.subtree_wf(),
        post.segment == pre.segment,
        post.data == pre.data,
        0 <= i < pre.children@.len(),
        post.children@ == pre.children@.remove(i),
        sub.len() > 0,
        sub[0] == pre.children@[i].segment@[0],
        forall|t: Seq<u8>| t != sub ==> !(#[trigger] pre.children@[i].contains_key_from(t)),
    ensures
        post.subtree_wf(),
        post.as_map() == pre.as_map().remove(pre.segment@ + sub),
        pre.contains_key_from(pre.segment@ + sub) == pre.children@[i].contains_key_from(sub),
        pre.contains_key_from(pre.segment@ + sub) ==> pre.value_from(pre.segment@ + sub)
            == pre.children@[i].value_from(sub),
    {
    let s = pre.segment@;
    let ls = s.len() as int;
    let co = pre.children@[i];
    let b = co.segment@[0];
    let kk = s + sub;
    let n = pre.children@.len() as int;
    pre.children@.remove_ensures(i);
    assert forall|j: int| 0 <= j < post.children@.len() implies {
        &&& (#[trigger] post.children@[j]).subtree_wf()
        &&& post.children@[j].segment@.len() > 0
        &&& post.children@[j].is_useful()
    } by {
        if j < i {
            assert(post.children@[j] == pre.children@[j]);
        } else {
            assert(post.children@[j] == pre.children@[j + 1]);
        }
    }
    assert forall|j1: int, j2: int| 0 <= j1 < j2 < post.children@.len() implies (
    #[trigger] post.children@[j1]).segment@[0] < (#[trigger] post.children@[j2]).segment@[0] by {
        if j1 < i {
            assert(post.children@[j1] == pre.children@[j1]);
        } else {
            assert(post.children@[j1] == pre.children@[j1 + 1]);
        }
        if j2 < i {
            assert(post.children@[j2] == pre.children@[j2]);
        } else {
            assert(post.children@[j2] == pre.children@[j2 + 1]);
        }
    }
    assert(post.subtree_wf());
    assert forall|j: int| 0 <= j < n && j != i implies (#[trigger] pre.children@[j]).segment@[0]
        != b by {
        if j < i {
            assert(pre.children@[j].segment@[0] < pre.children@[i].segment@[0]);
        } else {
            assert(pre.children@[i].segment@[0] < pre.children@[j].segment@[0]);
        }
    }
    assert(s =~= kk.subrange(0, ls));
    assert(s.is_prefix_of(kk));
    assert(kk.skip(ls) =~= sub);
    // whether the old tree stored the key is decided by the dropped child
    if co.contains_key_from(sub) {
        lemma_value_via_child(pre, kk, i);
    } else {
        if pre.contains_key_from(kk) {
            let j = choose|j: int|
                0 <= j < pre.children@.len() && (#[trigger] pre.children@[j]).contains_key_from(
                    sub,
                );
            lemma_child_first_byte(pre.children@[j], sub);
            assert(j == i);
        }
    }
    assert forall|k: Seq<u8>| #[trigger] post.contains_key_from(k) implies
        pre.contains_key_from(k) && post.value_from(k) == pre.value_from(k) && k != kk by {
        let rest = k.skip(ls);
        if rest.len() == 0 {
            assert(k.len() == ls && kk.len() > ls);
        } else {
            assert(k =~= s + rest);
            let j = choose|j: int|
                0 <= j < post.children@.len() && (#[trigger] post.children@[j]).contains_key_from(
                    rest,
                );
            lemma_child_first_byte(post.children@[j], rest);
            if j < i {
                assert(post.children@[j] == pre.children@[j]);
                lemma_value_via_child(post, k, j);
                lemma_value_via_child(pre, k, j);
                assert(pre.children@[j].segment@[0] != b);
                assert(rest[0] != b);
            } else {
                assert(post.children@[j] == pre.children@[j + 1]);
                lemma_value_via_child(post, k, j);
                lemma_value_via_child(pre, k, j + 1);
                assert(pre.children@[j + 1].segment@[0] != b);
                assert(rest[0] != b);
            }
            assert(k != kk);
        }
    }
    assert forall|k: Seq<u8>| #[trigger] pre.contains_key_from(k) && k != kk implies
        post.contains_key_from(k) by {
        let rest = k.skip(ls);
        if rest.len() == 0 {
        } else {
            assert(k =~= s + rest);
            let j = choose|j: int|
                0 <= j < pre.children@.len() && (#[trigger] pre.children@[j]).contains_key_from(
                    rest,
                );
            if j == i {
                assert(rest == sub);
                assert(k == kk);
            } else if j < i {
                assert(post.children@[j] == pre.children@[j]);
                lemma_value_via_child(post, k, j);
            } else {
                assert(post.children@[j - 1] == pre.children@[j]);
                lemma_value_via_child(post, k, j - 1);
            }
        }
    }
    assert(post.as_map() =~= pre.as_map().remove(kk));
}

/// When the prefix runs past this node into the child labelled with its
/// next byte, the keys carrying the prefix correspond one to one to the
/// keys below that child carrying the rest of the prefix.
proof fn lemma_prefix_count_child<C>(n: TrieNode<C>, p: Seq<u8>, i: int)
    requires
        n.subtree_wf(),
        n.segment@.is_prefix_of(p),
        p.skip(n.segment@.len() as int).len() > 0,
        0 <= i < n.children@.len(),
        n.children@[i].segment@[0] == p.skip(n.segment@.len() as int)[0],
    ensures
        keys_with_prefix(n.as_map(), p).len() == keys_with_prefix(
            n.children@[i].as_map(),
            p.skip(n.segment@.len() as int),
        ).len(),
{
    let s = n.segment@;
    let ls = s.len() as int;
    let c = n.children@[i];
    let rp = p.skip(ls);
    let x = keys_with_prefix(c.as_map(), rp);
    let y = keys_with_prefix(n.as_map(), p);
    let f = |t: Seq<u8>| s + t;
    lemma_count_card(c);
    vstd::set_lib::lemma_len_subset(x, c.as_map().dom());
    assert(vstd::relations::injective_on(f, x)) by {
        assert forall|t1: Seq<u8>, t2: Seq<u8>|
            x.contains(t1) && x.contains(t2) && #[trigger] f(t1) == #[trigger] f(t2) implies t1
            == t2 by {
            assert((s + t1).skip(ls) =~= t1);
            assert((s + t2).skip(ls) =~= t2);
        }
    }
    assert forall|j: int| 0 <= j < n.children@.len() && j != i implies (
    #[trigger] n.children@[j]).segment@[0] != c.segment@[0] by {
        if j < i {
            assert(n.children@[j].segment@[0] < n.children@[i].segment@[0]);
        } else {
            assert(n.children@[i].segment@[0] < n.children@[j].segment@[0]);
        }
    }
    assert(x.map(f) =~= y) by {
        assert forall|k: Seq<u8>| #[trigger] x.map(f).contains(k) implies y.contains(k) by {
            let t = choose|t: Seq<u8>| x.contains(t) && k == f(t);
            assert((s + t).skip(ls) =~= t);
            assert(s =~= (s + t).subrange(0, ls));
            lemma_child_first_byte(c, t);
            lemma_value_via_child(n, k, i);
            assert forall|z: int| 0 <= z < p.len() implies p[z] == k[z] by {
                if z < ls {
                    assert(s[z] == p.subrange(0, ls)[z]);
                } else {
                    assert(rp[z - ls] == t.subrange(0, rp.len() as int)[z - ls]);
                }
            }
            assert(p =~= k.subrange(0, p.len() as int));
            assert(p.is_prefix_of(k));
        }
        assert forall|k: Seq<u8>| #[trigger] y.contains(k) implies x.map(f).contains(k) by {
            let rest = k.skip(ls);
            assert(p =~= k.subrange(0, p.len() as int));
            assert(rest.len() > 0);
            let j = choose|j: int|
                0 <= j < n.children@.len() && (#[trigger] n.children@[j]).contains_key_from(rest);
            lemma_child_first_byte(n.children@[j], rest);
            assert(rest[0] == k[ls]);
            assert(k[ls] == p[ls]);
            assert(p[ls] == rp[0]);
            assert(j == i);
            assert forall|z: int| 0 <= z < rp.len() implies rp[z] == rest[z] by {
                assert(p[ls + z] == k[ls + z]);
            }
            assert(rp =~= rest.subrange(0, rp.len() as int));
            assert(rp.is_prefix_of(rest));
            assert(x.contains(rest));
            assert(k =~= s + rest);
            assert(x.map(f).contains(f(rest)));
        }
    }
    vstd::set_lib::lemma_map_size(x, x.map(f), f);
}

/// A well-formed subtree that holds a value or a child stores at least one
/// key.
proof fn lemma_useful_subtree_nonempty<C>(n: TrieNode<C>)
    requires
        n.subtree_wf(),
        n.is_useful(),
    ensures
        exists|k: Seq<u8>| n.contains_key_from(k),
    decreases n,
{
    if n.data is Some {
        assert(n.segment@ =~= n.segment@.subrange(0, n.segment@.len() as int));
        assert(n.contains_key_from(n.segment@));
    } else {
        let c = n.children@[0];
        lemma_useful_subtree_nonempty(c);
        let k0 = choose|k: Seq<u8>| c.contains_key_from(k);
        lemma_child_first_byte(c, k0);
        let k = n.segment@ + k0;
        assert(n.segment@ =~= k.subrange(0, n.segment@.len() as int));
        assert(k.skip(n.segment@.len() as int) =~= k0);
        assert(n.children@[0].contains_key_from(k.skip(n.segment@.len() as int)));
        assert(n.contains_key_from(k));
    }
}

impl<C> TrieNode<C> {
    /// Creates an empty tree: no value at the root and no children.
    pub fn new() -> (r: TrieNode<C>)
        ensures
            r.wf(),
            r@ == Map::<Seq<u8>, C>::empty(),
    {
        let r = TrieNode { segment: Vec::new(), children: Vec::new(), data: None };
        proof {
            assert forall|k: Seq<u8>| !r.contains_key_from(k) by {
                if r.segment@.is_prefix_of(k) && k.skip(0).len() != 0 {
                    assert(r.children@.len() == 0);
                }
            }
            assert(r.as_map() =~= Map::<Seq<u8>, C>::empty());
        }
        r
    }

    /// Locates the child whose segment starts with byte `b`, by binary
    /// search; on failure reports the sorted insertion slot for `b`.
    fn find_child(&self, b: u8) -> (r: Result<usize, usize>)
        requires
            self.subtree_wf(),
        ensures
            match r {
                Ok(i) => 0 <= i < self.children@.len() && self.children@[i as int].segment@[0]
                    == b,
                Err(i) => i <= self.children@.len() && (forall|j: int|
                    0 <= j < i ==> (#[trigger] self.children@[j]).segment@[0] < b) && (forall|
                    j: int,
                |
                    i <= j < self.children@.len() ==> (#[trigger] self.children@[j]).segment@[0]
                        > b),
            },
    {
        let mut lo: usize = 0;
        let mut hi: usize = self.children.len();
        while lo < hi
            invariant
                lo <= hi <= self.children@.len(),
                self.subtree_wf(),
                forall|j: int| 0 <= j < lo ==> (#[trigger] self.children@[j]).segment@[0] < b,
                forall|j: int|
                    hi <= j < self.children@.len() ==> (#[trigger] self.children@[j]).segment@[0]
                        > b,
            decreases hi - lo,
        {
            let mid = lo + (hi - lo) / 2;
            let c: &TrieNode<C> = &self.children[mid];
            let first = c.segment[0];
            if first == b {
                return Ok(mid);
            } else if first < b {
                proof {
                    assert forall|j: int|
                        0 <= j < mid + 1 implies (#[trigger] self.children@[j]).segment@[0]
                        < b by {
                        if j < mid {
                            assert(self.children@[j].segment@[0] < self.children@[mid as int].segment@[0]);
                        }
                    }
                }
                lo = mid + 1;
            } else {
                proof {
                    assert forall|j: int|
                        mid <= j < self.children@.len() implies (#[trigger] self.children@[j]).segment@[0]
                        > b by {
                        if j > mid {
                            assert(self.children@[mid as int].segment@[0] < self.children@[j].segment@[0]);
                        }
                    }
                }
                hi = mid;
            }
        }
        Err(lo)
    }

    /// Exact lookup within a subtree, `key` counted from this node's parent.
    fn get_rec(&self, key: &[u8]) -> (r: Option<&C>)
        requires
            self.subtree_wf(),
        ensures
            match r {
                Some(v) => self.contains_key_from(key@) && *v == self.value_from(key@),
                None => !self.contains_key_from(key@),
            },
        decreases self,
    {
        let cp = common_prefix(self.segment.as_slice(), key);
        if cp < self.segment.len() {
            proof {
                if self.segment@.is_prefix_of(key@) {
                    assert(self.segment@[cp as int] == key@[cp as int]);
                }
            }
            None
        } else if key.len() == cp {
            proof {
                assert(self.segment@ =~= key@.subrange(0, self.segment@.len() as int));
                assert(key@.skip(self.segment@.len() as int).len() == 0);
            }
            match &self.data {
                Some(v) => Some(v),
                None => None,
            }
        } else {
            proof {
                assert(self.segment@ =~= key@.subrange(0, self.segment@.len() as int));
            }
            let b = key[cp];
            proof {
                assert(key@.skip(cp as int)[0] == key@[cp as int]);
            }
            match self.find_child(b) {
                Ok(i) => {
                    let c: &TrieNode<C> = &self.children[i];
                    let r = c.get_rec(vstd::slice::slice_subrange(key, cp, key.len()));
                    proof {
                        let rest = key@.skip(cp as int);
                        match r {
                            Some(v) => {
                                lemma_value_via_child(*self, key@, i as int);
                            },
                            None => {
                                if self.contains_key_from(key@) {
                                    let j = choose|j: int|
                                        0 <= j < self.children@.len() && (#[trigger] self.children@[j]).contains_key_from(
                                            rest,
                                        );
                                    lemma_child_first_byte(self.children@[j], rest);
                                    assert(j == i);
                                }
                            },
                        }
                    }
                    r
                },
                Err(_) => {
                    proof {
                        lemma_no_child_no_key(*self, key@);
                    }
                    None
                },
            }
        }
    }

    /// Inserts `key` (counted from this node's parent) within a subtree,
    /// splitting an edge or adding a leaf as needed; returns the displaced
    /// value, if any.
    fn insert_rec(&mut self, key: &[u8], value: C) -> (r: Option<C>)
        requires
            old(self).subtree_wf(),
            old(self).segment@.len() > 0 ==> old(self).is_useful(),
        ensures
            final(self).subtree_wf(),
            final(self).is_useful(),
            final(self).as_map() == old(self).as_map().insert(key@, value),
            r == (if old(self).contains_key_from(key@) {
                Some(old(self).value_from(key@))
            } else {
                None::<C>
            }),
            old(self).segment@.len() > 0 && key@.len() > 0 && key@[0] == old(self).segment@[0]
                ==> final(self).segment@.len() > 0 && final(self).segment@[0] == old(
                self,
            ).segment@[0],
            old(self).segment@.len() == 0 ==> final(self).segment@.len() == 0,
        decreases *old(self),
    {
        let ghost pre = *old(self);
        let seg_len = self.segment.len();
        let cp = common_prefix(self.segment.as_slice(), key);
        if cp < seg_len {
            // the key diverges in the middle of this node's segment: split
            // the segment at the divergence point
            proof {
                if pre.segment@.is_prefix_of(key@) {
                    assert(pre.segment@[cp as int] == key@[cp as int]);
                }
                assert(!pre.contains_key_from(key@));
            }
            let suffix = self.segment.split_off(cp);
            let mut moved_children: Vec<TrieNode<C>> = Vec::new();
            core::mem::swap(&mut moved_children, &mut self.children);
            let mut moved_data: Option<C> = None;
            core::mem::swap(&mut moved_data, &mut self.data);
            let split_child = TrieNode {
                segment: suffix,
                children: moved_children,
                data: moved_data,
            };
            self.children.push(split_child);
            let ghost mid = *self;
            proof {
                lemma_split(pre, mid, cp as int);
            }
            if key.len() == cp {
                // the key ends exactly at the split point: store it here
                self.data = Some(value);
                proof {
                    lemma_set_data(mid, *self, value);
                    assert(key@ =~= mid.segment@);
                }
                None
            } else {
                // a second new child carries the rest of the key
                let key_suffix = vstd::slice::slice_to_vec(
                    vstd::slice::slice_subrange(key, cp, key.len()),
                );
                let leaf = TrieNode { segment: key_suffix, children: Vec::new(), data: Some(value) };
                let ghost gleaf = leaf;
                let c0: &TrieNode<C> = &self.children[0];
                let first0 = c0.segment[0];
                let pos: usize = if first0 <= key[cp] {
                    1
                } else {
                    0
                };
                self.children.insert(pos, leaf);
                proof {
                    assert(mid.children@[0].segment@[0] == pre.segment@[cp as int]);
                    assert(gleaf.segment@[0] == key@[cp as int]);
                    lemma_insert_leaf(mid, *self, pos as int, gleaf);
                    assert(key@ =~= mid.segment@ + gleaf.segment@);
                }
                None
            }
        } else if key.len() == cp {
            // the whole key is consumed exactly at this node
            proof {
                assert(key@ =~= pre.segment@);
            }
            let mut prev: Option<C> = Some(value);
            core::mem::swap(&mut prev, &mut self.data);
            proof {
                lemma_set_data(pre, *self, value);
            }
            prev
        } else {
            // the segment matched in full and key bytes remain: descend
            proof {
                assert(pre.segment@ =~= key@.subrange(0, cp as int));
                assert(key@.skip(cp as int)[0] == key@[cp as int]);
            }
            let b = key[cp];
            match self.find_child(b) {
                Ok(i) => {
                    let child: &mut TrieNode<C> = &mut self.children[i];
                    let r = child.insert_rec(
                        vstd::slice::slice_subrange(key, cp, key.len()),
                        value,
                    );
                    proof {
                        lemma_update_child(pre, *self, i as int, key@.skip(cp as int), value);
                        assert(key@ =~= pre.segment@ + key@.skip(cp as int));
                    }
                    r
                },
                Err(i) => {
                    let key_suffix = vstd::slice::slice_to_vec(
                        vstd::slice::slice_subrange(key, cp, key.len()),
                    );
                    let leaf = TrieNode {
                        segment: key_suffix,
                        children: Vec::new(),
                        data: Some(value),
                    };
                    let ghost gleaf = leaf;
                    self.children.insert(i, leaf);
                    proof {
                        lemma_insert_leaf(pre, *self, i as int, gleaf);
                        assert(key@ =~= pre.segment@ + gleaf.segment@);
                        assert(!pre.contains_key_from(key@));
                    }
                    None
                },
            }
        }
    }

    /// Inserts `key` with `value`; returns the value previously stored for
    /// `key`, or `None` when the key was absent.
    pub fn insert(&mut self, key: Vec<u8>, value: C) -> (r: Option<C>)
        requires
            old(self).wf(),
        ensures
            final(self).wf(),
            final(self)@ == old(self)@.insert(key@, value),
            r == (if old(self)@.contains_key(key@) {
                Some(old(self)@[key@])
            } else {
                None::<C>
            }),
    {
        self.insert_rec(key.as_slice(), value)
    }

    /// Removes `key` (counted from this node's parent) within a subtree,
    /// pruning any child that is left without a value and without children;
    /// returns the removed value, if any.
    fn remove_rec(&mut self, key: &[u8]) -> (r: Option<C>)
        requires
            old(self).subtree_wf(),
        ensures
            final(self).subtree_wf(),
            final(self).segment == old(self).segment,
            final(self).as_map() == old(self).as_map().remove(key@),
            r == (if old(self).contains_key_from(key@) {
                Some(old(self).value_from(key@))
            } else {
                None::<C>
            }),
        decreases *old(self),
    {
        let ghost pre = *old(self);
        let seg_len = self.segment.len();
        let cp = common_prefix(self.segment.as_slice(), key);
        if cp < seg_len {
            // the key diverges inside this node's segment: nothing stored
            proof {
                if pre.segment@.is_prefix_of(key@) {
                    assert(pre.segment@[cp as int] == key@[cp as int]);
                }
                assert(!pre.contains_key_from(key@));
                assert(pre.as_map().remove(key@) =~= pre.as_map());
            }
            None
        } else if key.len() == cp {
            // the whole key is consumed at this node: clear its value
            proof {
                assert(key@ =~= pre.segment@);
            }
            let mut prev: Option<C> = None;
            core::mem::swap(&mut prev, &mut self.data);
            proof {
                lemma_clear_data(pre, *self);
            }
            prev
        } else {
            // the segment matched in full and key bytes remain: descend
            proof {
                assert(pre.segment@ =~= key@.subrange(0, cp as int));
                assert(key@.skip(cp as int)[0] == key@[cp as int]);
            }
            let b = key[cp];
            match self.find_child(b) {
                Err(_) => {
                    proof {
                        lemma_no_child_no_key(pre, key@);
                        assert(pre.as_map().remove(key@) =~= pre.as_map());
                    }
                    None
                },
                Ok(i) => {
                    let ghost sub = key@.skip(cp as int);
                    let child: &mut TrieNode<C> = &mut self.children[i];
                    let r = child.remove_rec(vstd::slice::slice_subrange(key, cp, key.len()));
                    let c: &TrieNode<C> = &self.children[i];
                    if c.data.is_none() && c.children.len() == 0 {
                        // the child holds nothing any more: prune it
                        proof {
                            let cn = self.children@[i as int];
                            assert forall|t: Seq<u8>| !(#[trigger] cn.contains_key_from(t)) by {
                                if cn.segment@.is_prefix_of(t) && t.skip(
                                    cn.segment@.len() as int,
                                ).len() != 0 {
                                    assert(cn.children@.len() == 0);
                                }
                            }
                            assert forall|t: Seq<u8>| t != sub implies !(
                            #[trigger] pre.children@[i as int].contains_key_from(t)) by {
                                if pre.children@[i as int].contains_key_from(t) {
                                    assert(pre.children@[i as int].as_map().contains_key(t));
                                    assert(cn.as_map().contains_key(t));
                                }
                            }
                        }
                        self.children.remove(i);
                        proof {
                            assert(self.children@ =~= pre.children@.remove(i as int));
                            lemma_drop_child(pre, *self, i as int, sub);
                            assert(key@ =~= pre.segment@ + sub);
                        }
                    } else {
                        proof {
                            lemma_update_child_remove(pre, *self, i as int, sub);
                            assert(key@ =~= pre.segment@ + sub);
                        }
                    }
                    r
                },
            }
        }
    }

    /// Removes `key`; returns the value that was stored for it, or `None`
    /// when the key was absent.  Ancestor nodes left without a value and
    /// without children are pruned.
    pub fn remove(&mut self, key: &[u8]) -> (r: Option<C>)
        requires
            old(self).wf(),
        ensures
            final(self).wf(),
            final(self)@ == old(self)@.remove(key@),
            r == (if old(self)@.contains_key(key@) {
                Some(old(self)@[key@])
            } else {
                None::<C>
            }),
    {
        self.remove_rec(key)
    }

    /// Looks `key` up; returns a reference to its stored value, or `None`
    /// when the key is absent.
    pub fn get(&self, key: &[u8]) -> (r: Option<&C>)
        requires
            self.wf(),
        ensures
            match r {
                Some(v) => self@.contains_key(key@) && *v == self@[key@],
                None => !self@.contains_key(key@),
            },
    {
        self.get_rec(key)
    }

    /// Exclusive access to the value stored for `key` (counted from this
    /// node's parent) within a subtree.
    fn value_mut_rec(&mut self, key: &[u8]) -> (r: &mut C)
        requires
            old(self).subtree_wf(),
            old(self).contains_key_from(key@),
        ensures
            *r == old(self).value_from(key@),
            final(self).subtree_wf(),
            final(self).is_useful(),
            final(self).segment == old(self).segment,
            final(self).as_map() == old(self).as_map().insert(key@, *final(r)),
        decreases *old(self),
    {
        let seg_len = self.segment.len();
        let cp = common_prefix(self.segment.as_slice(), key);
        proof {
            // the key is stored here, so the whole segment matched
            assert(old(self).segment@ =~= key@.subrange(0, seg_len as int));
            if cp < seg_len {
                assert(old(self).segment@[cp as int] == key@[cp as int]);
            }
        }
        if key.len() == cp {
            proof {
                assert(key@ =~= old(self).segment@);
                // whatever value is eventually left behind the returned
                // reference, the tree then maps the key to it
                assert forall|post: TrieNode<C>, w: C|
                    #![trigger post.as_map(), old(self).as_map().insert(key@, w)]
                    (post.segment == old(self).segment && post.children == old(self).children
                        && post.data == Some(w)) implies (post.subtree_wf() && post.is_useful()
                    && post.as_map() == old(self).as_map().insert(key@, w)) by {
                    lemma_set_data(*old(self), post, w);
                }
            }
            match &mut self.data {
                Some(v) => v,
                None => vstd::pervasive::unreached(),
            }
        } else {
            proof {
                assert(key@.skip(cp as int)[0] == key@[cp as int]);
            }
            let b = key[cp];
            match self.find_child(b) {
                Ok(i) => {
                    proof {
                        let rest = key@.skip(cp as int);
                        let j = choose|j: int|
                            0 <= j < old(self).children@.len() && (
                            #[trigger] old(self).children@[j]).contains_key_from(rest);
                        lemma_child_first_byte(old(self).children@[j], rest);
                        if j < i as int {
                            assert(old(self).children@[j].segment@[0]
                                < old(self).children@[i as int].segment@[0]);
                        }
                        if j > i as int {
                            assert(old(self).children@[i as int].segment@[0]
                                < old(self).children@[j].segment@[0]);
                        }
                        assert(j == i as int);
                        lemma_value_via_child(*old(self), key@, i as int);
                        assert(key@ =~= old(self).segment@ + rest);
                        // whatever the child subtree ends up as, replacing
                        // it re-routes exactly this one key
                        assert forall|post: TrieNode<C>, w: C|
                            #![trigger post.as_map(), old(self).as_map().insert(key@, w)]
                            (post.segment == old(self).segment && post.data == old(self).data
                                && post.children@.len() == old(self).children@.len() && (forall|
                                j2: int,
                            |
                                0 <= j2 < old(self).children@.len() && j2 != i as int
                                    ==> #[trigger] post.children@[j2] == old(self).children@[j2])
                                && post.children@[i as int].subtree_wf() && post.children@[
                                i as int
                            ].is_useful() && post.children@[i as int].segment == old(
                                self,
                            ).children@[i as int].segment && post.children@[i as int].as_map()
                                == old(self).children@[i as int].as_map().insert(rest, w))
                            implies (post.subtree_wf() && post.is_useful() && post.as_map() == old(
                            self,
                        ).as_map().insert(key@, w)) by {
                            lemma_update_child(*old(self), post, i as int, rest, w);
                        }
                    }
                    let child: &mut TrieNode<C> = &mut self.children[i];
                    child.value_mut_rec(vstd::slice::slice_subrange(key, cp, key.len()))
                },
                Err(_) => {
                    proof {
                        lemma_no_child_no_key(*old(self), key@);
                    }
                    vstd::pervasive::unreached()
                },
            }
        }
    }

    /// Exclusive access to the value stored for `key`, which must be
    /// present.
    pub(crate) fn value_mut(&mut self, key: &[u8]) -> (r: &mut C)
        requires
            old(self).wf(),
            old(self)@.contains_key(key@),
        ensures
            *r == old(self)@[key@],
            final(self).wf(),
            final(self)@ == old(self)@.insert(key@, *final(r)),
    {
        self.value_mut_rec(key)
    }

    /// Looks `key` up; returns a mutable reference to its stored value, or
    /// `None` when the key is absent.
    pub fn get_mut(&mut self, key: &[u8]) -> (r: Option<&mut C>)
        requires
            old(self).wf(),
        ensures
            old(self)@.contains_key(key@) == (r is Some),
            match r {
                Some(v) => *v == old(self)@[key@] && final(self).wf() && final(self)@ == old(
                    self,
                )@.insert(key@, *final(v)),
                None => final(self).wf() && final(self)@ == old(self)@,
            },
    {
        let contains = self.get(key).is_some();
        if contains {
            Some(self.value_mut_rec(key))
        } else {
            None
        }
    }

    /// Counts the values stored in a subtree by summing over the children.
    fn len_rec(&self) -> (r: usize)
        requires
            self.subtree_wf(),
            self.count() <= usize::MAX,
        ensures
            r == self.count(),
        decreases self,
    {
        let mut total: usize = if self.data.is_some() {
            1
        } else {
            0
        };
        let ghost own: nat = if self.data is Some {
            1nat
        } else {
            0nat
        };
        let n = self.children.len();
        let mut i: usize = 0;
        while i < n
            invariant
                self.subtree_wf(),
                self.count() <= usize::MAX,
                n == self.children@.len(),
                own == (if self.data is Some {
                    1nat
                } else {
                    0nat
                }),
                0 <= i <= n,
                total == self.count_upto(i as int) + own,
            decreases n - i,
        {
            proof {
                lemma_child_count_le(*self, i as int);
                lemma_count_upto_mono(*self, i + 1, self.children@.len() as int);
            }
            let c: &TrieNode<C> = &self.children[i];
            let cl = c.len_rec();
            total = total + cl;
            i = i + 1;
        }
        total
    }

    /// A well-formed tree stores finitely many keys, so the counting
    /// contracts of `len`, `insert` and `remove` can be chained from any
    /// well-formed tree, not only along a history tracked from `new`.
    pub proof fn lemma_keys_finite(self)
        requires
            self.wf(),
        ensures
            self@.dom().finite(),
    {
        lemma_count_card(self);
    }

    /// The number of stored key/value pairs.
    pub fn len(&self) -> (r: usize)
        requires
            self.wf(),
            self@.dom().len() <= usize::MAX,
        ensures
            r == self@.dom().len(),
    {
        proof {
            lemma_count_card(*self);
        }
        self.len_rec()
    }

    /// Counts the stored keys that carry prefix `p`, `p` counted from this
    /// node's parent.
    fn prefix_len_rec(&self, p: &[u8]) -> (r: usize)
        requires
            self.subtree_wf(),
            self.count() <= usize::MAX,
        ensures
            r == keys_with_prefix(self.as_map(), p@).len(),
        decreases self,
    {
        let cp = common_prefix(self.segment.as_slice(), p);
        if cp == p.len() {
            // the prefix is exhausted at or inside this node's segment:
            // every key below carries it
            proof {
                lemma_count_card(*self);
                assert forall|k: Seq<u8>| #[trigger] self.as_map().dom().contains(k) implies
                    p@.is_prefix_of(k) by {
                    assert(self.contains_key_from(k));
                    assert forall|x: int| 0 <= x < cp implies p@[x] == k[x] by {
                        assert(self.segment@[x] == k.subrange(0, self.segment@.len() as int)[x]);
                    }
                    assert(p@ =~= k.subrange(0, cp as int));
                }
                assert(keys_with_prefix(self.as_map(), p@) =~= self.as_map().dom());
            }
            self.len_rec()
        } else if cp < self.segment.len() {
            // the prefix diverges inside the segment with bytes left over:
            // no key carries it
            proof {
                assert forall|k: Seq<u8>| #[trigger] self.as_map().dom().contains(k) implies
                    !p@.is_prefix_of(k) by {
                    assert(self.contains_key_from(k));
                    if p@.is_prefix_of(k) {
                        assert(p@[cp as int] == k.subrange(0, p@.len() as int)[cp as int]);
                        assert(self.segment@[cp as int] == k.subrange(
                            0,
                            self.segment@.len() as int,
                        )[cp as int]);
                    }
                }
                assert(keys_with_prefix(self.as_map(), p@) =~= Set::<Seq<u8>>::empty());
            }
            0
        } else {
            // the segment matched in full and prefix bytes remain: descend
            proof {
                assert(self.segment@ =~= p@.subrange(0, cp as int));
                assert(p@.skip(cp as int)[0] == p@[cp as int]);
            }
            let b = p[cp];
            match self.find_child(b) {
                Ok(i) => {
                    proof {
                        lemma_prefix_count_child(*self, p@, i as int);
                        lemma_child_count_le(*self, i as int);
                    }
                    let c: &TrieNode<C> = &self.children[i];
                    c.prefix_len_rec(vstd::slice::slice_subrange(p, cp, p.len()))
                },
                Err(_) => {
                    proof {
                        assert forall|k: Seq<u8>| #[trigger] self.as_map().dom().contains(k)
                            implies !p@.is_prefix_of(k) by {
                            assert(self.contains_key_from(k));
                            if p@.is_prefix_of(k) {
                                let rest = k.skip(cp as int);
                                assert(p@ =~= k.subrange(0, p@.len() as int));
                                assert(rest.len() > 0);
                                let j = choose|j: int|
                                    0 <= j < self.children@.len() && (
                                    #[trigger] self.children@[j]).contains_key_from(rest);
                                lemma_child_first_byte(self.children@[j], rest);
                                assert(rest[0] == k[cp as int]);
                                assert(k[cp as int] == p@[cp as int]);
                            }
                        }
                        assert(keys_with_prefix(self.as_map(), p@) =~= Set::<Seq<u8>>::empty());
                    }
                    0
                },
            }
        }
    }

    /// Counts the stored keys of which `prefix_key` is a byte-wise prefix
    /// (including an exactly matching key).
    pub fn prefix_len(&self, prefix_key: &[u8]) -> (r: usize)
        requires
            self.wf(),
            self@.dom().len() <= usize::MAX,
        ensures
            r == keys_with_prefix(self@, prefix_key@).len(),
    {
        proof {
            lemma_count_card(*self);
        }
        self.prefix_len_rec(prefix_key)
    }

    /// Whether the tree stores no key at all: no value at the root and no
    /// children.
    pub fn is_empty(&self) -> (r: bool)
        requires
            self.wf(),
        ensures
            r == (self@ == Map::<Seq<u8>, C>::empty()),
    {
        let r = self.data.is_none() && self.children.len() == 0;
        proof {
            if r {
                assert forall|k: Seq<u8>| !self.contains_key_from(k) by {
                    if self.segment@.is_prefix_of(k) && k.skip(self.segment@.len() as int).len()
                        != 0 {
                        assert(self.children@.len() == 0);
                    }
                }
                assert(self.as_map() =~= Map::<Seq<u8>, C>::empty());
            } else {
                lemma_useful_subtree_nonempty(*self);
                let k = choose|k: Seq<u8>| self.contains_key_from(k);
                assert(self.as_map().contains_key(k));
                assert(!Map::<Seq<u8>, C>::empty().contains_key(k));
            }
        }
        r
    }
}

} // verus!

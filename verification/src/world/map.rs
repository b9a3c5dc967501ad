use vstd::prelude::*;

verus! {

/// A node of a patricia tree: the characters it adds to the key of its
/// parent, the value stored under the key it ends, and its children.
pub struct Node<T> {
    prefix: Vec<char>,
    value: Option<T>,
    children: Vec<Node<T>>,
}

/// A map from strings to values, stored as a patricia tree: the children of
/// every node start with distinct characters and are kept sorted by them.
pub struct PatriciaTree<T> {
    children: Vec<Node<T>>,
}

/// Characters are the same exactly when their codes are.
proof fn lemma_char_code(a: char, b: char)
    ensures
        (a as u32 == b as u32) <==> (a == b),
{
}

/// The code of the first character of a node's prefix, or -1 when it is empty.
pub closed spec fn first_key<T>(n: Node<T>) -> int {
    if n.prefix@.len() == 0 {
        -1
    } else {
        n.prefix@[0] as u32 as int
    }
}

/// The code of the first character of `k`, or -1 when it is empty.
pub open spec fn key_first(k: Seq<char>) -> int {
    if k.len() == 0 {
        -1
    } else {
        k[0] as u32 as int
    }
}

/// `k` starts with `p`.
pub open spec fn starts_with(k: Seq<char>, p: Seq<char>) -> bool {
    p.len() <= k.len() && k.subrange(0, p.len() as int) == p
}

/// The value stored under `key` in the subtree of `n`, `key` being read from
/// the start of `n`'s prefix.
pub closed spec fn node_lookup<T>(n: Node<T>, key: Seq<char>) -> Option<T>
    decreases n,
{
    if starts_with(key, n.prefix@) {
        let rest = key.skip(n.prefix@.len() as int);
        if rest.len() == 0 {
            n.value
        } else {
            nodes_lookup(n.children@, rest)
        }
    } else {
        None
    }
}

/// The value stored under `key` in any of the subtrees `ns`.
pub closed spec fn nodes_lookup<T>(ns: Seq<Node<T>>, key: Seq<char>) -> Option<T>
    decreases ns,
{
    if ns.len() == 0 {
        None
    } else {
        match node_lookup(ns.last(), key) {
            Some(v) => Some(v),
            None => nodes_lookup(ns.drop_last(), key),
        }
    }
}

/// The nodes are sorted by strictly increasing first character, and a node
/// with an empty prefix has no children.
pub closed spec fn sorted<T>(ns: Seq<Node<T>>) -> bool {
    &&& forall|i: int, j: int| 0 <= i < j < ns.len() ==> first_key(#[trigger] ns[i]) < first_key(#[trigger] ns[j])
    &&& forall|i: int| 0 <= i < ns.len() && (#[trigger] ns[i]).prefix@.len() == 0 ==> ns[i].children@.len() == 0
}

/// Every node has a non-empty prefix.
pub closed spec fn nonempty<T>(ns: Seq<Node<T>>) -> bool {
    forall|i: int| 0 <= i < ns.len() ==> (#[trigger] ns[i]).prefix@.len() > 0
}

/// The children of `n` and all nodes below are sorted and have non-empty
/// prefixes.
pub closed spec fn node_wf<T>(n: Node<T>) -> bool
    decreases n,
{
    &&& sorted(n.children@)
    &&& nonempty(n.children@)
    &&& all_wf(n.children@)
}

/// Every node of `ns` is well formed.
pub closed spec fn all_wf<T>(ns: Seq<Node<T>>) -> bool
    decreases ns,
{
    if ns.len() == 0 {
        true
    } else {
        all_wf(ns.drop_last()) && node_wf(ns.last())
    }
}

/// `all_wf` holds exactly when every node is well formed.
proof fn lemma_all_wf<T>(ns: Seq<Node<T>>)
    ensures
        all_wf(ns) <==> forall|i: int| 0 <= i < ns.len() ==> node_wf(#[trigger] ns[i]),
    decreases ns.len(),
{
    if ns.len() > 0 {
        let t = ns.drop_last();
        lemma_all_wf(t);
        assert forall|i: int| 0 <= i < t.len() implies #[trigger] t[i] == ns[i] by {}
        if forall|i: int| 0 <= i < ns.len() ==> node_wf(#[trigger] ns[i]) {
            assert forall|i: int| 0 <= i < t.len() implies node_wf(#[trigger] t[i]) by {
                assert(node_wf(ns[i]));
            }
            assert(node_wf(ns[ns.len() - 1]));
        }
        if all_wf(ns) {
            assert forall|i: int| 0 <= i < ns.len() implies node_wf(#[trigger] ns[i]) by {
                if i < ns.len() - 1 {
                    assert(node_wf(t[i]));
                }
            }
        }
    }
}

/// A node whose first character differs from the key's holds nothing under it.
proof fn lemma_other_first<T>(n: Node<T>, key: Seq<char>)
    requires
        first_key(n) != key_first(key),
        n.prefix@.len() == 0 ==> n.children@.len() == 0,
    ensures
        node_lookup(n, key) is None,
{
    if starts_with(key, n.prefix@) {
        if n.prefix@.len() > 0 {
            assert(key[0] == key.subrange(0, n.prefix@.len() as int)[0]);
        } else {
            assert(key.skip(0) =~= key);
            assert(nodes_lookup(n.children@, key) is None);
        }
    }
}

/// In sorted nodes only the node with the key's first character can hold it.
proof fn lemma_nodes_lookup<T>(ns: Seq<Node<T>>, key: Seq<char>)
    requires
        sorted(ns),
    ensures
        forall|i: int|
            0 <= i < ns.len() && first_key(#[trigger] ns[i]) == key_first(key) ==> nodes_lookup(ns, key)
                == node_lookup(ns[i], key),
        (forall|i: int| 0 <= i < ns.len() ==> first_key(#[trigger] ns[i]) != key_first(key)) ==> nodes_lookup(
            ns,
            key,
        ) is None,
    decreases ns.len(),
{
    if ns.len() > 0 {
        let t = ns.drop_last();
        assert(sorted(t)) by {
            assert forall|i: int| 0 <= i < t.len() implies #[trigger] t[i] == ns[i] by {}
        }
        lemma_nodes_lookup(t, key);
        let l = ns.len() - 1;
        assert forall|i: int| 0 <= i < ns.len() && first_key(#[trigger] ns[i]) == key_first(key) implies nodes_lookup(
            ns,
            key,
        ) == node_lookup(ns[i], key) by {
            if i < l {
                assert(first_key(ns[i]) < first_key(ns[l]));
                lemma_other_first(ns[l], key);
                assert(t[i] == ns[i]);
            } else {
                if node_lookup(ns[l], key) is None {
                    assert forall|j: int| 0 <= j < t.len() implies first_key(#[trigger] t[j]) != key_first(key) by {
                        assert(t[j] == ns[j]);
                        assert(first_key(ns[j]) < first_key(ns[l]));
                    }
                }
            }
        }
        if forall|i: int| 0 <= i < ns.len() ==> first_key(#[trigger] ns[i]) != key_first(key) {
            assert forall|j: int| 0 <= j < t.len() implies first_key(#[trigger] t[j]) != key_first(key) by {
                assert(t[j] == ns[j]);
            }
            assert(first_key(ns[l]) != key_first(key));
            lemma_other_first(ns[l], key);
        }
    }
}


/// `a` and `b` both start with `p`; they are equal exactly when what follows
/// `p` in them is.
proof fn lemma_skip_eq(a: Seq<char>, b: Seq<char>, p: Seq<char>)
    requires
        starts_with(a, p),
        starts_with(b, p),
    ensures
        (a.skip(p.len() as int) == b.skip(p.len() as int)) <==> (a == b),
{
    if a.skip(p.len() as int) == b.skip(p.len() as int) {
        assert(a =~= a.subrange(0, p.len() as int) + a.skip(p.len() as int));
        assert(b =~= b.subrange(0, p.len() as int) + b.skip(p.len() as int));
    }
}

/// Reading `p1 + p2` from `k` is reading `p1`, then `p2` from the rest.
proof fn lemma_starts_with_concat(k: Seq<char>, p1: Seq<char>, p2: Seq<char>)
    ensures
        starts_with(k, p1 + p2) <==> (starts_with(k, p1) && starts_with(k.skip(p1.len() as int), p2)),
        starts_with(k, p1 + p2) ==> k.skip(p1.len() as int).skip(p2.len() as int) =~= k.skip(
            (p1 + p2).len() as int,
        ),
{
    if starts_with(k, p1 + p2) {
        assert(k.subrange(0, p1.len() as int) =~= (p1 + p2).subrange(0, p1.len() as int));
        assert(k.skip(p1.len() as int).subrange(0, p2.len() as int) =~= (p1 + p2).subrange(
            p1.len() as int,
            (p1 + p2).len() as int,
        ));
        assert(p1 =~= (p1 + p2).subrange(0, p1.len() as int));
        assert(p2 =~= (p1 + p2).subrange(p1.len() as int, (p1 + p2).len() as int));
    }
    if starts_with(k, p1) && starts_with(k.skip(p1.len() as int), p2) {
        assert(k.subrange(0, (p1 + p2).len() as int) =~= p1 + p2) by {
            assert forall|i: int| 0 <= i < (p1 + p2).len() implies #[trigger] k.subrange(0, (p1 + p2).len() as int)[i] == (p1
                + p2)[i] by {
                if i < p1.len() {
                    assert(k.subrange(0, p1.len() as int)[i] == p1[i]);
                } else {
                    assert(k.skip(p1.len() as int).subrange(0, p2.len() as int)[i - p1.len()] == p2[i - p1.len()]);
                }
            }
        }
    }
}

/// The code of the character of `v` at `i`, or -1 past its end.
fn code_at(v: &Vec<char>, i: usize) -> (c: i64)
    ensures
        c == (if i < v@.len() {
            v@[i as int] as u32 as int
        } else {
            -1
        }),
{
    if i < v.len() {
        let ch: char = v[i];
        let n: u32 = ch as u32;
        n as i64
    } else {
        -1
    }
}

/// The characters of `v` from `from` to `to`.
fn sub_chars(v: &Vec<char>, from: usize, to: usize) -> (res: Vec<char>)
    requires
        from <= to <= v@.len(),
    ensures
        res@ == v@.subrange(from as int, to as int),
{
    let mut res: Vec<char> = Vec::new();
    let mut i = from;
    while i < to
        invariant
            from <= i <= to <= v@.len(),
            res@ == v@.subrange(from as int, i as int),
        decreases to - i,
    {
        res.push(v[i]);
        proof {
            assert(res@ =~= v@.subrange(from as int, i + 1));
        }
        i = i + 1;
    }
    res
}

/// The number of characters `p` and the key from `start` have in common at
/// their beginning.
fn common_prefix_len(p: &Vec<char>, key: &Vec<char>, start: usize) -> (m: usize)
    requires
        start <= key@.len(),
    ensures
        m <= p@.len(),
        m <= key@.len() - start,
        p@.subrange(0, m as int) == key@.skip(start as int).subrange(0, m as int),
        m < p@.len() && m < key@.len() - start ==> p@[m as int] != key@[start + m],
{
    let mut m: usize = 0;
    while m < p.len() && m < key.len() - start && p[m] == key[start + m]
        invariant
            start <= key@.len(),
            m <= p@.len(),
            m <= key@.len() - start,
            p@.subrange(0, m as int) == key@.skip(start as int).subrange(0, m as int),
        decreases p@.len() - m,
    {
        proof {
            assert(p@.subrange(0, m + 1) =~= key@.skip(start as int).subrange(0, m + 1)) by {
                assert forall|i: int| 0 <= i < m + 1 implies #[trigger] p@.subrange(0, m + 1)[i] == key@.skip(
                    start as int,
                ).subrange(0, m + 1)[i] by {
                    if i < m {
                        assert(p@.subrange(0, m as int)[i] == key@.skip(start as int).subrange(0, m as int)[i]);
                    }
                }
            }
        }
        m = m + 1;
    }
    m
}

impl<T> Node<T> {
    /// The characters this node adds to the key of its parent.
    pub closed spec fn spec_prefix(self) -> Seq<char> {
        self.prefix@
    }

    /// The value stored under the key this node ends.
    pub closed spec fn spec_value(self) -> Option<T> {
        self.value
    }

    /// The children of this node.
    pub closed spec fn spec_children(self) -> Seq<Node<T>> {
        self.children@
    }
}

impl<T: Copy> Node<T> {
    /// The value stored under the key this node ends, if any.
    pub fn value_as_ref(&self) -> (res: Option<&T>)
        ensures
            res == match self.spec_value() {
                Some(v) => Some(&v),
                None => None::<&T>,
            },
    {
        match &self.value {
            Some(v) => Some(v),
            None => None,
        }
    }

    /// The characters this node adds to the key of its parent.
    pub fn prefix(&self) -> (res: Vec<char>)
        ensures
            res@ == self.spec_prefix(),
    {
        sub_chars(&self.prefix, 0, self.prefix.len())
    }

    /// A node without children for the key from `start`.
    fn leaf(key: &Vec<char>, start: usize, v: T) -> (n: Self)
        requires
            start <= key@.len(),
        ensures
            n.prefix@ == key@.skip(start as int),
            n.value == Some(v),
            n.children@.len() == 0,
    {
        let prefix = sub_chars(key, start, key.len());
        proof {
            assert(prefix@ =~= key@.skip(start as int));
        }
        Node { prefix, value: Some(v), children: Vec::new() }
    }
}


/// The lower half of a split node holds under `k` what the whole node held.
proof fn lemma_split<T>(old: Node<T>, c: Node<T>, p1: Seq<char>, k: Seq<char>)
    requires
        old.prefix@ == p1 + c.prefix@,
        c.value == old.value,
        c.children@ == old.children@,
    ensures
        starts_with(k, p1) ==> node_lookup(c, k.skip(p1.len() as int)) == node_lookup(old, k),
        !starts_with(k, p1) ==> node_lookup(old, k) is None,
{
    lemma_starts_with_concat(k, p1, c.prefix@);
}

/// Where the key from `start` goes among the sorted nodes: the first index
/// whose node does not start before it, and whether that node starts with
/// the same character.
fn find_index<T>(ns: &Vec<Node<T>>, key: &Vec<char>, start: usize) -> (res: (usize, bool))
    requires
        sorted(ns@),
        start <= key@.len(),
    ensures
        res.0 <= ns@.len(),
        forall|j: int| 0 <= j < res.0 ==> first_key(#[trigger] ns@[j]) < key_first(key@.skip(start as int)),
        res.1 <==> (res.0 < ns@.len() && first_key(ns@[res.0 as int]) == key_first(key@.skip(start as int))),
        !res.1 ==> forall|j: int| res.0 <= j < ns@.len() ==> first_key(#[trigger] ns@[j]) > key_first(
            key@.skip(start as int),
        ),
{
    let kf = code_at(key, start);
    proof {
        if start < key@.len() {
            assert(key@.skip(start as int)[0] == key@[start as int]);
        }
    }
    let mut i: usize = 0;
    while i < ns.len() && code_at(&ns[i].prefix, 0) < kf
        invariant
            sorted(ns@),
            kf == key_first(key@.skip(start as int)),
            i <= ns@.len(),
            forall|j: int| 0 <= j < i ==> first_key(#[trigger] ns@[j]) < kf,
        decreases ns@.len() - i,
    {
        i = i + 1;
    }
    let found = i < ns.len() && code_at(&ns[i].prefix, 0) == kf;
    proof {
        if !found && i < ns@.len() {
            assert forall|j: int| i <= j < ns@.len() implies first_key(#[trigger] ns@[j]) > kf by {
                if j > i {
                    assert(first_key(ns@[i as int]) < first_key(ns@[j]));
                }
            }
        }
    }
    (i, found)
}

/// Stores `v` under the key from `start` in the subtree of `n`, whose first
/// character is the key's.
#[verifier::spinoff_prover]
#[verifier::rlimit(60)]
fn add_node<T: Copy>(n: &mut Node<T>, key: &Vec<char>, start: usize, v: T)
    requires
        node_wf(*old(n)),
        start <= key@.len(),
        first_key(*old(n)) == key_first(key@.skip(start as int)),
        old(n).prefix@.len() == 0 ==> old(n).children@.len() == 0,
    ensures
        node_wf(*final(n)),
        first_key(*final(n)) == first_key(*old(n)),
        final(n).prefix@.len() == 0 ==> final(n).children@.len() == 0,
        forall|k: Seq<char>|
            #[trigger] node_lookup(*final(n), k) == if k == key@.skip(start as int) {
                Some(v)
            } else {
                node_lookup(*old(n), k)
            },
    decreases key@.len() - start, 0nat,
{
    let ghost rest = key@.skip(start as int);
    let ghost o = *n;
    let m = common_prefix_len(&n.prefix, key, start);
    let plen = n.prefix.len();
    let rlen = key.len() - start;
    proof {
        if rest.len() > 0 {
            assert(o.prefix@.len() > 0);
            lemma_char_code(o.prefix@[0], rest[0]);
        } else {
            assert(o.prefix@.len() == 0);
        }
    }
    if m == plen && m == rlen {
        // The node ends exactly the key.
        n.value = Some(v);
        proof {
            assert(o.prefix@ =~= rest) by {
                assert(rest.subrange(0, m as int) =~= rest);
                assert(o.prefix@.subrange(0, m as int) =~= o.prefix@);
            }
            assert forall|k: Seq<char>|
                #[trigger] node_lookup(*n, k) == if k == rest {
                    Some(v)
                } else {
                    node_lookup(o, k)
                } by {
                if starts_with(k, o.prefix@) {
                    lemma_skip_eq(k, rest, o.prefix@);
                    assert(rest.skip(m as int).len() == 0);
                    if k.skip(m as int).len() == 0 {
                        assert(k.skip(m as int) =~= rest.skip(m as int));
                    }
                }
            }
        }
    } else if m == plen {
        // The key goes on below this node.
        proof {
            assert(m > 0);
            assert(o.prefix@ =~= rest.subrange(0, m as int));
            lemma_all_wf(o.children@);
        }
        add_in(&mut n.children, key, start + m, v);
        proof {
            assert(key@.skip(start + m) =~= rest.skip(m as int));
            assert(starts_with(rest, o.prefix@));
            assert(n.prefix@ == o.prefix@ && n.value == o.value);
            assert(rest.skip(m as int).len() > 0);
            assert forall|k: Seq<char>|
                #[trigger] node_lookup(*n, k) == if k == rest {
                    Some(v)
                } else {
                    node_lookup(o, k)
                } by {
                if starts_with(k, o.prefix@) {
                    lemma_skip_eq(k, rest, o.prefix@);
                    let r = k.skip(m as int);
                    if r.len() > 0 {
                        assert(node_lookup(*n, k) == nodes_lookup(n.children@, r));
                        assert(node_lookup(o, k) == nodes_lookup(o.children@, r));
                        assert(nodes_lookup(n.children@, r) == if r == rest.skip(m as int) {
                            Some(v)
                        } else {
                            nodes_lookup(o.children@, r)
                        });
                    } else {
                        assert(k != rest);
                    }
                } else {
                    assert(k != rest);
                }
            }
        }
    } else {
        // The node goes on past where it and the key part: split it.
        let upper = sub_chars(&n.prefix, 0, m);
        let lower = sub_chars(&n.prefix, m, plen);
        let mut old_children: Vec<Node<T>> = Vec::new();
        std::mem::swap(&mut old_children, &mut n.children);
        let child = Node { prefix: lower, value: n.value, children: old_children };
        let ghost c = child;
        proof {
            assert(o.prefix@ =~= upper@ + lower@);
            assert(m > 0);
            assert(upper@ =~= rest.subrange(0, m as int));
        }
        n.prefix = upper;
        let mut ch: Vec<Node<T>> = Vec::new();
        if m == rlen {
            // The key ends inside the node.
            ch.push(child);
            n.value = Some(v);
            n.children = ch;
            proof {
                assert(upper@ =~= rest);
                assert(n.children@[0] == c);
                assert(node_wf(c));
                lemma_all_wf(n.children@);
                assert(lower@.len() > 0);
                assert forall|k: Seq<char>|
                    #[trigger] node_lookup(*n, k) == if k == rest {
                        Some(v)
                    } else {
                        node_lookup(o, k)
                    } by {
                    lemma_split(o, c, upper@, k);
                    assert(rest.subrange(0, m as int) =~= rest);
                    if starts_with(k, upper@) {
                        lemma_skip_eq(k, rest, upper@);
                        let r = k.skip(m as int);
                        assert(rest.skip(m as int).len() == 0);
                        if r.len() > 0 {
                            assert(n.children@.drop_last() =~= Seq::<Node<T>>::empty());
                            assert(n.children@.last() == c);
                            assert(nodes_lookup(n.children@.drop_last(), r) is None);
                            assert(nodes_lookup(n.children@, r) == node_lookup(c, r));
                            assert(k != rest);
                        } else {
                            assert(r =~= rest.skip(m as int));
                        }
                    } else {
                        assert(k != rest);
                    }
                }
            }
        } else {
            // The key and the node part inside the node.
            let leaf = Node::leaf(key, start + m, v);
            let ghost l = leaf;
            proof {
                assert(key@.skip(start + m) =~= rest.skip(m as int));
                assert(rest.skip(m as int)[0] == rest[m as int]);
                assert(lower@[0] == o.prefix@[m as int]);
            }
            if code_at(&child.prefix, 0) < code_at(key, start + m) {
                ch.push(child);
                ch.push(leaf);
            } else {
                ch.push(leaf);
                ch.push(child);
            }
            n.value = None;
            n.children = ch;
            proof {
                lemma_char_code(lower@[0], rest[m as int]);
                assert(first_key(c) != first_key(l));
                assert(node_wf(c));
                assert(node_wf(l)) by {
                    assert(all_wf(l.children@));
                }
                lemma_all_wf(n.children@);
                assert(lower@.len() > 0);
                assert(l.prefix@.len() > 0);
                assert forall|k: Seq<char>|
                    #[trigger] node_lookup(*n, k) == if k == rest {
                        Some(v)
                    } else {
                        node_lookup(o, k)
                    } by {
                    lemma_split(o, c, upper@, k);
                    if starts_with(k, upper@) {
                        lemma_skip_eq(k, rest, upper@);
                        let r = k.skip(m as int);
                        lemma_nodes_lookup(n.children@, r);
                        if r.len() > 0 {
                            let ci: int = if n.children@[0] == c { 0 } else { 1 };
                            let li: int = 1 - ci;
                            assert(n.children@[ci] == c);
                            assert(n.children@[li] == l);
                            if key_first(r) == first_key(c) {
                                assert(k != rest) by {
                                    assert(k[m as int] == r[0]);
                                    assert(rest[m as int] == l.prefix@[0]);
                                }
                            } else if key_first(r) == first_key(l) {
                                assert(node_lookup(o, k) is None) by {
                                    if starts_with(k, o.prefix@) {
                                        assert(k.subrange(0, o.prefix@.len() as int)[m as int] == o.prefix@[m as int]);
                                        assert(k[m as int] == r[0]);
                                    }
                                }
                                assert(starts_with(r, l.prefix@) && r.skip(l.prefix@.len() as int).len() == 0 <==> r
                                    == l.prefix@) by {
                                    if r == l.prefix@ {
                                        assert(r.subrange(0, r.len() as int) =~= r);
                                    }
                                    if starts_with(r, l.prefix@) && r.skip(l.prefix@.len() as int).len() == 0 {
                                        assert(r =~= r.subrange(0, l.prefix@.len() as int));
                                    }
                                }
                                lemma_skip_eq(k, rest, upper@);
                            } else {
                                assert(node_lookup(o, k) is None) by {
                                    if starts_with(k, o.prefix@) {
                                        assert(k.subrange(0, o.prefix@.len() as int)[m as int] == o.prefix@[m as int]);
                                        assert(k[m as int] == r[0]);
                                    }
                                }
                                assert(k != rest) by {
                                    assert(k[m as int] == r[0]);
                                }
                            }
                        } else {
                            assert(k != rest);
                            assert(node_lookup(o, k) is None) by {
                                if starts_with(k, o.prefix@) {
                                    assert(k.len() >= o.prefix@.len());
                                }
                            }
                        }
                    }
                }
            }
        }
    }
}

/// Stores `v` under the key from `start` among the sorted nodes `ns`.
#[verifier::spinoff_prover]
#[verifier::rlimit(60)]
fn add_in<T: Copy>(ns: &mut Vec<Node<T>>, key: &Vec<char>, start: usize, v: T)
    requires
        sorted(old(ns)@),
        all_wf(old(ns)@),
        start <= key@.len(),
    ensures
        sorted(final(ns)@),
        all_wf(final(ns)@),
        nonempty(old(ns)@) && start < key@.len() ==> nonempty(final(ns)@),
        forall|k: Seq<char>|
            #[trigger] nodes_lookup(final(ns)@, k) == if k == key@.skip(start as int) {
                Some(v)
            } else {
                nodes_lookup(old(ns)@, k)
            },
    decreases key@.len() - start, 1nat,
{
    let ghost rest = key@.skip(start as int);
    let ghost o = ns@;
    let (i, found) = find_index(ns, key, start);
    proof {
        lemma_all_wf(o);
        lemma_nodes_lookup(o, rest);
    }
    if found {
        let mut n = ns.remove(i);
        proof {
            assert(n == o[i as int]);
        }
        add_node(&mut n, key, start, v);
        ns.insert(i, n);
        proof {
            assert(ns@ =~= o.update(i as int, n));
            assert forall|j: int| 0 <= j < ns@.len() implies node_wf(#[trigger] ns@[j]) by {
                if j != i {
                    assert(ns@[j] == o[j]);
                }
            }
            lemma_all_wf(ns@);
            assert forall|a: int, b: int| 0 <= a < b < ns@.len() implies first_key(#[trigger] ns@[a]) < first_key(
                #[trigger] ns@[b],
            ) by {
                assert(first_key(ns@[a]) == first_key(o[a]));
                assert(first_key(ns@[b]) == first_key(o[b]));
            }
            assert forall|a: int| 0 <= a < ns@.len() && (#[trigger] ns@[a]).prefix@.len() == 0 implies ns@[a].children@.len()
                == 0 by {
                if a != i {
                    assert(ns@[a] == o[a]);
                }
            }
            assert forall|k: Seq<char>|
                #[trigger] nodes_lookup(ns@, k) == if k == rest {
                    Some(v)
                } else {
                    nodes_lookup(o, k)
                } by {
                lemma_nodes_lookup(ns@, k);
                lemma_nodes_lookup(o, k);
                if key_first(k) == first_key(o[i as int]) {
                    assert(ns@[i as int] == n);
                } else {
                    if k == rest {
                        assert(false);
                    }
                    if exists|j: int| 0 <= j < o.len() && first_key(#[trigger] o[j]) == key_first(k) {
                        let j = choose|j: int| 0 <= j < o.len() && first_key(#[trigger] o[j]) == key_first(k);
                        assert(ns@[j] == o[j]);
                    } else {
                        assert forall|j: int| 0 <= j < ns@.len() implies first_key(#[trigger] ns@[j]) != key_first(
                            k,
                        ) by {
                            assert(first_key(ns@[j]) == first_key(o[j]));
                        }
                    }
                }
            }
            if nonempty(o) && start < key@.len() {
                assert forall|a: int| 0 <= a < ns@.len() implies (#[trigger] ns@[a]).prefix@.len() > 0 by {
                    if a != i {
                        assert(ns@[a] == o[a]);
                    } else {
                        assert(o[a].prefix@.len() > 0);
                    }
                }
            }
        }
    } else {
        let leaf = Node::leaf(key, start, v);
        ns.insert(i, leaf);
        proof {
            assert(ns@ =~= o.insert(i as int, leaf));
            assert(node_wf(leaf)) by {
                assert(all_wf(leaf.children@));
            }
            assert forall|j: int| 0 <= j < ns@.len() implies node_wf(#[trigger] ns@[j]) by {
                if j < i {
                    assert(ns@[j] == o[j]);
                } else if j > i {
                    assert(ns@[j] == o[j - 1]);
                }
            }
            lemma_all_wf(ns@);
            assert(first_key(leaf) == key_first(rest)) by {
                if rest.len() > 0 {
                    assert(leaf.prefix@[0] == rest[0]);
                }
            }
            assert forall|a: int, b: int| 0 <= a < b < ns@.len() implies first_key(#[trigger] ns@[a]) < first_key(
                #[trigger] ns@[b],
            ) by {
                let fa = if a < i { first_key(o[a]) } else if a == i { first_key(leaf) } else { first_key(o[a - 1]) };
                let fb = if b < i { first_key(o[b]) } else if b == i { first_key(leaf) } else { first_key(o[b - 1]) };
                if a < i {
                    assert(ns@[a] == o[a]);
                } else if a > i {
                    assert(ns@[a] == o[a - 1]);
                }
                if b < i {
                    assert(ns@[b] == o[b]);
                } else if b > i {
                    assert(ns@[b] == o[b - 1]);
                }
                if a > i {
                    assert(first_key(o[a - 1]) < first_key(o[b - 1]));
                }
                if b < i {
                    assert(first_key(o[a]) < first_key(o[b]));
                }
            }
            assert forall|a: int| 0 <= a < ns@.len() && (#[trigger] ns@[a]).prefix@.len() == 0 implies ns@[a].children@.len()
                == 0 by {
                if a < i {
                    assert(ns@[a] == o[a]);
                } else if a > i {
                    assert(ns@[a] == o[a - 1]);
                }
            }
            assert forall|k: Seq<char>|
                #[trigger] nodes_lookup(ns@, k) == if k == rest {
                    Some(v)
                } else {
                    nodes_lookup(o, k)
                } by {
                lemma_nodes_lookup(ns@, k);
                lemma_nodes_lookup(o, k);
                if key_first(k) == key_first(rest) {
                    assert(ns@[i as int] == leaf);
                    assert(nodes_lookup(o, k) is None) by {
                        assert forall|j: int| 0 <= j < o.len() implies first_key(#[trigger] o[j]) != key_first(k) by {}
                    }
                    if starts_with(k, leaf.prefix@) && k.skip(leaf.prefix@.len() as int).len() == 0 {
                        assert(k =~= k.subrange(0, leaf.prefix@.len() as int));
                    }
                    if k == rest {
                        assert(k.subrange(0, k.len() as int) =~= k);
                        assert(k.skip(k.len() as int).len() == 0);
                    }
                } else {
                    if exists|j: int| 0 <= j < o.len() && first_key(#[trigger] o[j]) == key_first(k) {
                        let j = choose|j: int| 0 <= j < o.len() && first_key(#[trigger] o[j]) == key_first(k);
                        if j < i {
                            assert(ns@[j] == o[j]);
                        } else {
                            assert(ns@[j + 1] == o[j]);
                        }
                    } else {
                        assert forall|j: int| 0 <= j < ns@.len() implies first_key(#[trigger] ns@[j]) != key_first(
                            k,
                        ) by {
                            if j < i {
                                assert(ns@[j] == o[j]);
                            } else if j > i {
                                assert(ns@[j] == o[j - 1]);
                            }
                        }
                    }
                }
            }
            if nonempty(o) && start < key@.len() {
                assert forall|a: int| 0 <= a < ns@.len() implies (#[trigger] ns@[a]).prefix@.len() > 0 by {
                    if a < i {
                        assert(ns@[a] == o[a]);
                    } else if a > i {
                        assert(ns@[a] == o[a - 1]);
                    }
                }
            }
        }
    }
}


/// The value stored under the key from `start` in the subtree of `n`.
fn get_node<T: Copy>(n: &Node<T>, key: &Vec<char>, start: usize) -> (res: Option<T>)
    requires
        node_wf(*n),
        start <= key@.len(),
        n.prefix@.len() == 0 ==> n.children@.len() == 0,
    ensures
        res == node_lookup(*n, key@.skip(start as int)),
    decreases key@.len() - start, 0nat,
{
    let ghost rest = key@.skip(start as int);
    let m = common_prefix_len(&n.prefix, key, start);
    let plen = n.prefix.len();
    if m < plen {
        proof {
            if starts_with(rest, n.prefix@) {
                if m < rest.len() {
                    assert(rest.subrange(0, plen as int)[m as int] == n.prefix@[m as int]);
                }
            }
        }
        None
    } else if m == key.len() - start {
        proof {
            assert(n.prefix@ =~= rest.subrange(0, m as int));
        }
        n.value
    } else if n.children.len() == 0 {
        proof {
            assert(n.prefix@ =~= rest.subrange(0, m as int));
        }
        None
    } else {
        proof {
            assert(n.prefix@ =~= rest.subrange(0, m as int));
            assert(key@.skip(start + m) =~= rest.skip(m as int));
        }
        get_in(&n.children, key, start + m)
    }
}

/// The value stored under the key from `start` among the sorted nodes `ns`.
fn get_in<T: Copy>(ns: &Vec<Node<T>>, key: &Vec<char>, start: usize) -> (res: Option<T>)
    requires
        sorted(ns@),
        all_wf(ns@),
        start <= key@.len(),
    ensures
        res == nodes_lookup(ns@, key@.skip(start as int)),
    decreases key@.len() - start, 1nat,
{
    let (i, found) = find_index(ns, key, start);
    proof {
        lemma_all_wf(ns@);
        lemma_nodes_lookup(ns@, key@.skip(start as int));
    }
    if found {
        get_node(&ns[i], key, start)
    } else {
        proof {
            assert forall|j: int| 0 <= j < ns@.len() implies first_key(#[trigger] ns@[j]) != key_first(
                key@.skip(start as int),
            ) by {}
        }
        None
    }
}

/// The nodes of the subtree of `n` in preorder.
pub closed spec fn preorder_node<T>(n: Node<T>) -> Seq<Node<T>>
    decreases n,
{
    seq![n] + preorder_nodes(n.children@)
}

/// The nodes of the subtrees `ns` in preorder.
pub closed spec fn preorder_nodes<T>(ns: Seq<Node<T>>) -> Seq<Node<T>>
    decreases ns,
{
    if ns.len() == 0 {
        Seq::empty()
    } else {
        preorder_nodes(ns.drop_last()) + preorder_node(ns.last())
    }
}

/// `e` holds the prefix and the value of `n`.
pub closed spec fn entry_is<T>(e: (Vec<char>, Option<T>), n: Node<T>) -> bool {
    e.0@ == n.prefix@ && e.1 == n.value
}

/// Appends the prefix and value of every node of the subtree of `n`, in
/// preorder, to `acc`.
fn preorder_into<T: Copy>(n: &Node<T>, acc: &mut Vec<(Vec<char>, Option<T>)>)
    ensures
        final(acc)@.len() == old(acc)@.len() + preorder_node(*n).len(),
        forall|i: int| 0 <= i < old(acc)@.len() ==> #[trigger] final(acc)@[i] == old(acc)@[i],
        forall|j: int|
            0 <= j < preorder_node(*n).len() ==> entry_is(
                #[trigger] final(acc)@[old(acc)@.len() + j],
                preorder_node(*n)[j],
            ),
    decreases *n,
{
    let ghost a0 = acc@;
    acc.push((sub_chars(&n.prefix, 0, n.prefix.len()), n.value));
    proof {
        assert(n.prefix@.subrange(0, n.prefix@.len() as int) =~= n.prefix@);
    }
    let mut i: usize = 0;
    while i < n.children.len()
        invariant
            i <= n.children@.len(),
            acc@.len() == a0.len() + 1 + preorder_nodes(n.children@.take(i as int)).len(),
            forall|x: int| 0 <= x < a0.len() ==> #[trigger] acc@[x] == a0[x],
            entry_is(acc@[a0.len() as int], *n),
            forall|j: int|
                0 <= j < preorder_nodes(n.children@.take(i as int)).len() ==> entry_is(
                    #[trigger] acc@[a0.len() + 1 + j],
                    preorder_nodes(n.children@.take(i as int))[j],
                ),
        decreases n.children@.len() - i,
    {
        let ghost a1 = acc@;
        let ghost before = preorder_nodes(n.children@.take(i as int));
        preorder_into(&n.children[i], acc);
        proof {
            let t = n.children@.take(i + 1);
            assert(t.drop_last() =~= n.children@.take(i as int));
            assert(t.last() == n.children@[i as int]);
            let after = preorder_nodes(t);
            assert(after == before + preorder_node(n.children@[i as int]));
            assert forall|j: int| 0 <= j < after.len() implies entry_is(
                #[trigger] acc@[a0.len() + 1 + j],
                after[j],
            ) by {
                if j < before.len() {
                    assert(acc@[a0.len() + 1 + j] == a1[a0.len() + 1 + j]);
                } else {
                    let jj = j - before.len();
                    assert(entry_is(acc@[a1.len() + jj], preorder_node(n.children@[i as int])[jj]));
                }
            }
        }
        i = i + 1;
    }
    proof {
        assert(n.children@.take(n.children@.len() as int) =~= n.children@);
        let pre = preorder_node(*n);
        assert forall|j: int| 0 <= j < pre.len() implies entry_is(#[trigger] acc@[a0.len() + j], pre[j]) by {
            if j > 0 {
                assert(pre[j] == preorder_nodes(n.children@)[j - 1]);
                assert(acc@[a0.len() + j] == acc@[a0.len() + 1 + (j - 1)]);
            }
        }
    }
}

impl<T: Copy> PatriciaTree<T> {
    /// The children of the root are sorted, and every node below is well
    /// formed.
    pub closed spec fn wf(&self) -> bool {
        sorted(self.children@) && all_wf(self.children@)
    }

    /// The value stored under `key`.
    pub closed spec fn lookup(&self, key: Seq<char>) -> Option<T> {
        nodes_lookup(self.children@, key)
    }

    /// The nodes of the tree in preorder.
    pub closed spec fn preorder(&self) -> Seq<Node<T>> {
        preorder_nodes(self.children@)
    }

    /// An empty tree.
    pub fn new() -> (tree: Self)
        ensures
            tree.wf(),
            forall|k: Seq<char>| tree.lookup(k) is None,
            tree.preorder().len() == 0,
    {
        PatriciaTree { children: Vec::new() }
    }

    /// Stores `v` under `key`, replacing what was stored there.
    pub fn add(&mut self, key: &Vec<char>, v: T)
        requires
            old(self).wf(),
        ensures
            final(self).wf(),
            forall|k: Seq<char>|
                #[trigger] final(self).lookup(k) == if k == key@ {
                    Some(v)
                } else {
                    old(self).lookup(k)
                },
    {
        add_in(&mut self.children, key, 0, v);
        proof {
            assert(key@.skip(0) =~= key@);
        }
    }

    /// The value stored under `key`, if any.
    pub fn get(&self, key: &Vec<char>) -> (res: Option<T>)
        requires
            self.wf(),
        ensures
            res == self.lookup(key@),
    {
        proof {
            assert(key@.skip(0) =~= key@);
        }
        get_in(&self.children, key, 0)
    }

    /// The prefix and the value of every node, in preorder.
    pub fn to_vec_preorder(&self) -> (res: Vec<(Vec<char>, Option<T>)>)
        ensures
            res@.len() == self.preorder().len(),
            forall|i: int| 0 <= i < res@.len() ==> entry_is(#[trigger] res@[i], self.preorder()[i]),
    {
        let mut acc: Vec<(Vec<char>, Option<T>)> = Vec::new();
        let mut i: usize = 0;
        while i < self.children.len()
            invariant
                i <= self.children@.len(),
                acc@.len() == preorder_nodes(self.children@.take(i as int)).len(),
                forall|j: int|
                    0 <= j < acc@.len() ==> entry_is(
                        #[trigger] acc@[j],
                        preorder_nodes(self.children@.take(i as int))[j],
                    ),
            decreases self.children@.len() - i,
        {
            let ghost a1 = acc@;
            let ghost before = preorder_nodes(self.children@.take(i as int));
            preorder_into(&self.children[i], &mut acc);
            proof {
                let t = self.children@.take(i + 1);
                assert(t.drop_last() =~= self.children@.take(i as int));
                let after = preorder_nodes(t);
                assert(after == before + preorder_node(self.children@[i as int]));
                assert forall|j: int| 0 <= j < acc@.len() implies entry_is(#[trigger] acc@[j], after[j]) by {
                    if j < before.len() {
                        assert(acc@[j] == a1[j]);
                    } else {
                        let jj = j - before.len();
                        assert(entry_is(acc@[a1.len() + jj], preorder_node(self.children@[i as int])[jj]));
                    }
                }
            }
            i = i + 1;
        }
        proof {
            assert(self.children@.take(self.children@.len() as int) =~= self.children@);
        }
        acc
    }
}


/// What the subtree of `n` holds under `k` after a deletion that answered
/// `removed`: nothing when the node is to be removed, else its own lookup.
pub closed spec fn after_lookup<T>(n: Node<T>, removed: bool, k: Seq<char>) -> Option<T> {
    if removed && n.prefix@.len() == 0 {
        None
    } else {
        node_lookup(n, k)
    }
}

/// One node holds under `k` what `nodes_lookup` finds in a list of it alone.
proof fn lemma_single_lookup<T>(c: Node<T>, k: Seq<char>)
    ensures
        nodes_lookup(seq![c], k) == node_lookup(c, k),
{
    let ns = seq![c];
    assert(ns.last() == c);
    assert(ns.drop_last() =~= Seq::<Node<T>>::empty());
    assert(nodes_lookup(ns.drop_last(), k) is None);
}

/// A node without a value and with one child holds what the node made by
/// putting the child into it holds; the merged node holds nothing under the
/// parent's own prefix.
proof fn lemma_merge_lookup<T>(pn: Node<T>, merged: Node<T>, k: Seq<char>)
    requires
        pn.children@.len() == 1,
        pn.children@[0].prefix@.len() > 0,
        merged.prefix@ == pn.prefix@ + pn.children@[0].prefix@,
        merged.value == pn.children@[0].value,
        merged.children@ == pn.children@[0].children@,
    ensures
        k != pn.prefix@ ==> node_lookup(merged, k) == node_lookup(pn, k),
        node_lookup(merged, pn.prefix@) is None,
{
    let p = pn.prefix@;
    let ch = pn.children@[0];
    let c = ch.prefix@;
    let pc = p + c;
    assert(pn.children@ =~= seq![ch]);
    assert(!starts_with(p, pc));
    if starts_with(k, p) {
        let k1 = k.skip(p.len() as int);
        lemma_single_lookup(ch, k1);
        if starts_with(k, pc) {
            assert(k.subrange(0, pc.len() as int).subrange(0, p.len() as int) =~= k.subrange(0, p.len() as int));
            assert(pc.subrange(0, p.len() as int) =~= p);
            assert(k1.subrange(0, c.len() as int) =~= k.subrange(0, pc.len() as int).subrange(
                p.len() as int,
                pc.len() as int,
            ));
            assert(pc.subrange(p.len() as int, pc.len() as int) =~= c);
            assert(starts_with(k1, c));
            assert(k.skip(pc.len() as int) =~= k1.skip(c.len() as int));
        } else if k1.len() > 0 {
            if starts_with(k1, c) {
                assert(k.subrange(0, pc.len() as int) =~= p + c) by {
                    assert forall|x: int| 0 <= x < pc.len() implies #[trigger] k.subrange(0, pc.len() as int)[x]
                        == pc[x] by {
                        if x < p.len() {
                            assert(k.subrange(0, p.len() as int)[x] == p[x]);
                        } else {
                            assert(k1.subrange(0, c.len() as int)[x - p.len()] == c[x - p.len()]);
                        }
                    }
                }
            }
        } else {
            assert(k =~= p) by {
                assert forall|x: int| 0 <= x < k.len() implies #[trigger] k[x] == p[x] by {
                    assert(k.subrange(0, p.len() as int)[x] == p[x]);
                }
            }
        }
    } else {
        if starts_with(k, pc) {
            assert(k.subrange(0, p.len() as int) =~= p) by {
                assert forall|x: int| 0 <= x < p.len() implies #[trigger] k.subrange(0, p.len() as int)[x] == p[x] by {
                    assert(k.subrange(0, pc.len() as int)[x] == pc[x]);
                }
            }
        }
    }
}

/// Replacing one of sorted nodes by a node with the same first character
/// changes only the lookups of keys with that character, to those of the new
/// node.
proof fn lemma_update_lookup<T>(o: Seq<Node<T>>, c: Seq<Node<T>>, i: int, x: Node<T>)
    requires
        sorted(o),
        sorted(c),
        0 <= i < o.len(),
        c == o.update(i, x),
        first_key(x) == first_key(o[i]),
    ensures
        forall|k: Seq<char>|
            #[trigger] nodes_lookup(c, k) == if key_first(k) == first_key(o[i]) {
                node_lookup(x, k)
            } else {
                nodes_lookup(o, k)
            },
{
    assert forall|k: Seq<char>|
        #[trigger] nodes_lookup(c, k) == if key_first(k) == first_key(o[i]) {
            node_lookup(x, k)
        } else {
            nodes_lookup(o, k)
        } by {
        lemma_nodes_lookup(c, k);
        lemma_nodes_lookup(o, k);
        if key_first(k) == first_key(o[i]) {
            assert(c[i] == x);
        } else if exists|j: int| 0 <= j < o.len() && first_key(#[trigger] o[j]) == key_first(k) {
            let j = choose|j: int| 0 <= j < o.len() && first_key(#[trigger] o[j]) == key_first(k);
            assert(c[j] == o[j]);
        } else {
            assert forall|j: int| 0 <= j < c.len() implies first_key(#[trigger] c[j]) != key_first(k) by {
                if j != i {
                    assert(c[j] == o[j]);
                }
            }
        }
    }
}

/// Removing one of sorted nodes removes exactly the lookups of keys with its
/// first character.
proof fn lemma_remove_lookup<T>(o: Seq<Node<T>>, c: Seq<Node<T>>, i: int)
    requires
        sorted(o),
        sorted(c),
        0 <= i < o.len(),
        c == o.remove(i),
    ensures
        forall|k: Seq<char>|
            #[trigger] nodes_lookup(c, k) == if key_first(k) == first_key(o[i]) {
                None
            } else {
                nodes_lookup(o, k)
            },
{
    assert forall|k: Seq<char>|
        #[trigger] nodes_lookup(c, k) == if key_first(k) == first_key(o[i]) {
            None
        } else {
            nodes_lookup(o, k)
        } by {
        lemma_nodes_lookup(c, k);
        lemma_nodes_lookup(o, k);
        if key_first(k) == first_key(o[i]) {
            assert forall|j: int| 0 <= j < c.len() implies first_key(#[trigger] c[j]) != key_first(k) by {
                let j0 = if j < i { j } else { j + 1 };
                assert(c[j] == o[j0]);
                if j0 < i {
                    assert(first_key(o[j0]) < first_key(o[i]));
                } else {
                    assert(first_key(o[i]) < first_key(o[j0]));
                }
            }
        } else if exists|j: int| 0 <= j < o.len() && first_key(#[trigger] o[j]) == key_first(k) {
            let j = choose|j: int| 0 <= j < o.len() && first_key(#[trigger] o[j]) == key_first(k);
            assert(j != i);
            let j1 = if j < i { j } else { j - 1 };
            assert(c[j1] == o[j]);
        } else {
            assert forall|j: int| 0 <= j < c.len() implies first_key(#[trigger] c[j]) != key_first(k) by {
                let j0 = if j < i { j } else { j + 1 };
                assert(c[j] == o[j0]);
            }
        }
    }
}

/// A node whose children lose exactly the key `rp` loses exactly the key
/// `r`, its prefix followed by `rp`.
proof fn lemma_children_change<T>(pn: Node<T>, pn2: Node<T>, rp: Seq<char>, r: Seq<char>, k: Seq<char>)
    requires
        pn2.prefix@ == pn.prefix@,
        pn2.value == pn.value,
        rp.len() > 0,
        starts_with(r, pn.prefix@),
        r.skip(pn.prefix@.len() as int) == rp,
        forall|k1: Seq<char>|
            #[trigger] nodes_lookup(pn2.children@, k1) == if k1 == rp {
                None
            } else {
                nodes_lookup(pn.children@, k1)
            },
    ensures
        node_lookup(pn2, k) == if k == r {
            None
        } else {
            node_lookup(pn, k)
        },
{
    let p = pn.prefix@;
    if starts_with(k, p) {
        let k1 = k.skip(p.len() as int);
        assert(nodes_lookup(pn2.children@, k1) == if k1 == rp {
            None
        } else {
            nodes_lookup(pn.children@, k1)
        });
        if k1 == rp {
            assert(k =~= r) by {
                assert forall|x: int| 0 <= x < k.len() implies #[trigger] k[x] == r[x] by {
                    if x < p.len() {
                        assert(k.subrange(0, p.len() as int)[x] == p[x]);
                        assert(r.subrange(0, p.len() as int)[x] == p[x]);
                    } else {
                        assert(k1[x - p.len()] == rp[x - p.len()]);
                    }
                }
            }
        }
        if k == r {
            assert(k1 == rp);
        }
    }
}

/// A node deleted at its own prefix held nothing under any other key when it
/// had no children, and holds under other keys what it held when only its
/// value is dropped.
proof fn lemma_own_value_lookup<T>(pn: Node<T>, pn2: Node<T>, k: Seq<char>)
    requires
        pn2.prefix@ == pn.prefix@,
        pn2.children@ == pn.children@,
        pn2.value is None,
    ensures
        node_lookup(pn2, k) == if k == pn.prefix@ {
            None
        } else {
            node_lookup(pn, k)
        },
        pn.children@.len() == 0 && k != pn.prefix@ ==> node_lookup(pn, k) is None,
{
    let p = pn.prefix@;
    if starts_with(k, p) && k.skip(p.len() as int).len() == 0 {
        assert(k =~= p) by {
            assert forall|x: int| 0 <= x < k.len() implies #[trigger] k[x] == p[x] by {
                assert(k.subrange(0, p.len() as int)[x] == p[x]);
            }
        }
    }
    if k == p {
        assert(k.subrange(0, p.len() as int) =~= p);
        assert(k.skip(p.len() as int).len() == 0);
    }
    if pn.children@.len() == 0 && starts_with(k, p) && k.skip(p.len() as int).len() > 0 {
        assert(nodes_lookup(pn.children@, k.skip(p.len() as int)) is None);
    }
}

/// Puts the only child of `n` into `n`: its prefix goes after `n`'s, its
/// children replace `n`'s, and the value becomes `value`.
fn merge_only_child<T: Copy>(n: &mut Node<T>, take_child_value: bool)
    requires
        old(n).children@.len() == 1,
        node_wf(*old(n)),
        old(n).prefix@.len() > 0,
    ensures
        final(n).prefix@.len() > 0,
        first_key(*final(n)) == first_key(*old(n)),
        node_wf(*final(n)),
        final(n).prefix@ == old(n).prefix@ + old(n).children@[0].prefix@,
        final(n).value == if take_child_value || old(n).value is None {
            old(n).children@[0].value
        } else {
            old(n).value
        },
        final(n).children@ == old(n).children@[0].children@,
{
    let mut children: Vec<Node<T>> = Vec::new();
    std::mem::swap(&mut children, &mut n.children);
    let mut child = children.pop().unwrap();
    proof {
        lemma_all_wf(old(n).children@);
        assert(child == old(n).children@[0]);
        assert(node_wf(child));
    }
    let mut k: usize = 0;
    let ghost p0 = n.prefix@;
    while k < child.prefix.len()
        invariant
            k <= child.prefix@.len(),
            n.prefix@ == p0 + child.prefix@.take(k as int),
            child == old(n).children@[0],
            n.value == old(n).value,
            p0 == old(n).prefix@,
        decreases child.prefix@.len() - k,
    {
        n.prefix.push(child.prefix[k]);
        proof {
            assert(child.prefix@.take(k + 1) =~= child.prefix@.take(k as int).push(child.prefix@[k as int]));
        }
        k = k + 1;
    }
    if take_child_value {
        n.value = child.value;
    } else if n.value.is_none() {
        n.value = child.value;
    }
    std::mem::swap(&mut n.children, &mut child.children);
    proof {
        assert(n.prefix@[0] == p0[0]);
        assert(child.prefix@.take(child.prefix@.len() as int) =~= child.prefix@);
    }
}

/// Removes what is stored under the key from `start` in the subtree of `n`.
/// It answers whether `n` itself was the node the key ends at; a node left
/// with an empty prefix is to be removed by the caller.
fn delete_node_rec<T: Copy>(n: &mut Node<T>, key: &Vec<char>, start: usize) -> (res: bool)
    requires
        node_wf(*old(n)),
        start <= key@.len(),
        old(n).prefix@.len() == 0 ==> old(n).children@.len() == 0,
    ensures
        final(n).prefix@.len() > 0 || !res ==> {
            &&& node_wf(*final(n))
            &&& first_key(*final(n)) == first_key(*old(n))
            &&& final(n).prefix@.len() == 0 ==> final(n).children@.len() == 0
        },
        res == (old(n).prefix@ == key@.skip(start as int)),
        res && old(n).children@.len() == 0 ==> final(n).prefix@.len() == 0,
        res && old(n).children@.len() == 1 ==> final(n).prefix@ == old(n).prefix@ + old(n).children@[0].prefix@
            && final(n).value == old(n).children@[0].value && final(n).children@ == old(n).children@[0].children@,
        res && old(n).children@.len() > 1 ==> final(n).prefix@ == old(n).prefix@ && final(n).value is None
            && final(n).children@ == old(n).children@,
        !starts_with(key@.skip(start as int), old(n).prefix@) ==> *final(n) == *old(n),
        forall|k: Seq<char>|
            #[trigger] after_lookup(*final(n), res, k) == if k == key@.skip(start as int) {
                None
            } else {
                node_lookup(*old(n), k)
            },
    decreases key@.len() - start,
{
    let m = common_prefix_len(&n.prefix, key, start);
    let plen = n.prefix.len();
    let rlen = key.len() - start;
    proof {
        let ks = key@.skip(start as int);
        assert(n.prefix@.subrange(0, plen as int) =~= n.prefix@);
        assert(ks.len() == rlen);
        if m == plen && m == rlen {
            assert(ks.subrange(0, rlen as int) =~= ks);
        }
        if m == plen {
            assert(starts_with(ks, n.prefix@));
        }
        if n.prefix@ == ks {
            if m < plen {
                assert(n.prefix@[m as int] == ks[m as int]);
            }
        }
        if starts_with(ks, n.prefix@) && m < plen {
            assert(ks.subrange(0, plen as int)[m as int] == ks[m as int]);
        }
        if m == plen && m < rlen {
            assert(key@.skip(start + m) =~= ks.skip(m as int));
        }
    }
    let ghost o0 = *n;
    let ghost r = key@.skip(start as int);
    if m == plen && m < rlen {
        // The node is passed through: look for the next one.
        if n.children.len() == 0 {
            proof {
                assert(nodes_lookup(o0.children@, r.skip(m as int)) is None);
            }
            return false;
        }
        let (i, found) = find_index(&n.children, key, start + m);
        if !found {
            proof {
                lemma_nodes_lookup(o0.children@, r.skip(m as int));
            }
            return false;
        }
        proof {
            lemma_all_wf(n.children@);
            assert(m > 0);
        }
        let ghost o = *n;
        let mut children: Vec<Node<T>> = Vec::new();
        std::mem::swap(&mut children, &mut n.children);
        let mut child = children.remove(i);
        let deleted = delete_node_rec(&mut child, key, start + m);
        if deleted && child.prefix.len() == 0 {
            // The child is gone.
            proof {
                assert(children@ =~= o.children@.remove(i as int));
                assert forall|j: int| 0 <= j < children@.len() implies node_wf(#[trigger] children@[j]) by {
                    if j < i {
                        assert(children@[j] == o.children@[j]);
                    } else {
                        assert(children@[j] == o.children@[j + 1]);
                    }
                }
                lemma_all_wf(children@);
                assert forall|a: int, b: int| 0 <= a < b < children@.len() implies first_key(#[trigger] children@[a])
                    < first_key(#[trigger] children@[b]) by {
                    let a0 = if a < i { a } else { a + 1 };
                    let b0 = if b < i { b } else { b + 1 };
                    assert(children@[a] == o.children@[a0]);
                    assert(children@[b] == o.children@[b0]);
                }
                assert forall|a: int| 0 <= a < children@.len() implies (#[trigger] children@[a]).prefix@.len() > 0 by {
                    let a0 = if a < i { a } else { a + 1 };
                    assert(children@[a] == o.children@[a0]);
                }
            }
        } else {
            children.insert(i, child);
            proof {
                assert(children@ =~= o.children@.update(i as int, child));
                assert forall|j: int| 0 <= j < children@.len() implies node_wf(#[trigger] children@[j]) by {
                    if j != i {
                        assert(children@[j] == o.children@[j]);
                    }
                }
                lemma_all_wf(children@);
                assert forall|a: int, b: int| 0 <= a < b < children@.len() implies first_key(#[trigger] children@[a])
                    < first_key(#[trigger] children@[b]) by {
                    assert(first_key(children@[a]) == first_key(o.children@[a]));
                    assert(first_key(children@[b]) == first_key(o.children@[b]));
                }
                assert forall|a: int| 0 <= a < children@.len() implies (#[trigger] children@[a]).prefix@.len() > 0 by {
                    if a != i {
                        assert(children@[a] == o.children@[a]);
                    }
                }
            }
        }
        n.children = children;
        proof {
            let rp = key@.skip(start + m);
            let oc = o.children@;
            let c = n.children@;
            lemma_nodes_lookup(oc, rp);
            if deleted && child.prefix@.len() == 0 {
                lemma_remove_lookup(oc, c, i as int);
            } else {
                lemma_update_lookup(oc, c, i as int, child);
            }
            assert forall|k1: Seq<char>|
                #[trigger] nodes_lookup(c, k1) == if k1 == rp {
                    None
                } else {
                    nodes_lookup(oc, k1)
                } by {
                lemma_nodes_lookup(oc, k1);
                assert(after_lookup(child, deleted, k1) == if k1 == rp {
                    None
                } else {
                    node_lookup(oc[i as int], k1)
                });
            }
            assert forall|k: Seq<char>| #[trigger] node_lookup(*n, k) == if k == r {
                None
            } else {
                node_lookup(o, k)
            } by {
                lemma_children_change(o, *n, rp, r, k);
            }
        }
        let ghost mid = *n;
        if deleted && n.children.len() == 1 && n.value.is_none() {
            merge_only_child(n, false);
            proof {
                let p = mid.prefix@;
                assert(mid.children@[0].prefix@.len() > 0);
                assert(p.subrange(0, p.len() as int) =~= p);
                assert(p.skip(p.len() as int) =~= Seq::<char>::empty());
                assert(node_lookup(mid, p) is None);
                assert forall|k: Seq<char>| #[trigger] node_lookup(*n, k) == node_lookup(mid, k) by {
                    lemma_merge_lookup(mid, *n, k);
                }
            }
        }
        false
    } else if m == plen && m == rlen {
        // The key ends at this node.
        if n.children.len() == 0 {
            n.prefix.clear();
            proof {
                assert forall|k: Seq<char>| k != r implies node_lookup(o0, k) is None by {
                    lemma_own_value_lookup(o0, Node { prefix: o0.prefix, value: None, children: o0.children }, k);
                }
            }
        } else if n.children.len() == 1 {
            proof {
                lemma_all_wf(n.children@);
                assert(o0.children@[0].prefix@.len() > 0);
            }
            merge_only_child(n, true);
            proof {
                assert forall|k: Seq<char>| #[trigger] node_lookup(*n, k) == if k == r {
                    None
                } else {
                    node_lookup(o0, k)
                } by {
                    lemma_merge_lookup(o0, *n, k);
                }
            }
        } else {
            n.value = None;
            proof {
                assert forall|k: Seq<char>| #[trigger] node_lookup(*n, k) == if k == r {
                    None
                } else {
                    node_lookup(o0, k)
                } by {
                    lemma_own_value_lookup(o0, *n, k);
                }
            }
        }
        true
    } else {
        proof {
            assert(!starts_with(r, o0.prefix@));
            assert(node_lookup(o0, r) is None);
        }
        false
    }
}

impl<T: Copy> PatriciaTree<T> {
    /// Removes what is stored under the key. The node the key ends at is
    /// removed when it has no children, takes in its only child's prefix,
    /// value and children when it has one, and else loses its value. Its
    /// parent, when it is left with one child and has no value of its own,
    /// takes in that child the same way. Every other key keeps its value.
    pub fn delete(&mut self, key: &Vec<char>)
        requires
            old(self).wf(),
        ensures
            final(self).wf(),
            final(self).lookup(key@) is None,
            forall|k: Seq<char>| k != key@ ==> #[trigger] final(self).lookup(k) == old(self).lookup(k),
    {
        let ghost o = self.children@;
        let (i, found) = find_index(&self.children, key, 0);
        proof {
            assert(key@.skip(0) =~= key@);
            lemma_nodes_lookup(o, key@);
        }
        if found {
            proof {
                lemma_all_wf(o);
            }
            let mut children: Vec<Node<T>> = Vec::new();
            std::mem::swap(&mut children, &mut self.children);
            let mut n = children.remove(i);
            let deleted = delete_node_rec(&mut n, key, 0);
            let gone = deleted && n.prefix.len() == 0;
            if !gone {
                children.insert(i, n);
                proof {
                    assert(children@ =~= o.update(i as int, n));
                }
            } else {
                proof {
                    assert(children@ =~= o.remove(i as int));
                }
            }
            self.children = children;
            proof {
                let c = self.children@;
                assert forall|j: int| 0 <= j < c.len() implies node_wf(#[trigger] c[j]) by {
                    if !gone {
                        if j != i {
                            assert(c[j] == o[j]);
                        }
                    } else {
                        let j0 = if j < i { j } else { j + 1 };
                        assert(c[j] == o[j0]);
                    }
                }
                lemma_all_wf(c);
                assert forall|a: int, b: int| 0 <= a < b < c.len() implies first_key(#[trigger] c[a]) < first_key(
                    #[trigger] c[b],
                ) by {
                    if !gone {
                        assert(first_key(c[a]) == first_key(o[a]));
                        assert(first_key(c[b]) == first_key(o[b]));
                    } else {
                        let a0 = if a < i { a } else { a + 1 };
                        let b0 = if b < i { b } else { b + 1 };
                        assert(c[a] == o[a0]);
                        assert(c[b] == o[b0]);
                    }
                }
                assert forall|a: int| 0 <= a < c.len() && (#[trigger] c[a]).prefix@.len() == 0 implies c[a].children@.len()
                    == 0 by {
                    if !gone {
                        if a != i {
                            assert(c[a] == o[a]);
                        }
                    } else {
                        let a0 = if a < i { a } else { a + 1 };
                        assert(c[a] == o[a0]);
                    }
                }
                assert(sorted(c));
                if gone {
                    lemma_remove_lookup(o, c, i as int);
                } else {
                    lemma_update_lookup(o, c, i as int, n);
                }
                assert forall|k: Seq<char>| #[trigger] nodes_lookup(c, k) == if k == key@ {
                    None
                } else {
                    nodes_lookup(o, k)
                } by {
                    lemma_nodes_lookup(o, k);
                    assert(after_lookup(n, deleted, k) == if k == key@ {
                        None
                    } else {
                        node_lookup(o[i as int], k)
                    });
                }
                assert(nodes_lookup(c, key@) is None);
            }
        } else {
            proof {
                assert forall|j: int| 0 <= j < o.len() implies first_key(#[trigger] o[j]) != key_first(key@) by {
                    if j < i {
                        assert(first_key(o[j]) < key_first(key@));
                    } else {
                        assert(first_key(o[j]) > key_first(key@));
                    }
                }
            }
        }
    }
}

} // verus!

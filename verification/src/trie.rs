//! A trie over the dot-separated labels of a hostname, stored in reverse
//! order (rightmost label first), with three wildcard tokens:
//! `""` (dot wildcard, matches any remaining depth), `"*"` (matches exactly
//! one label) and `"+"` (legal only as the leading label of a pattern, and
//! expanded at insertion into the bare suffix plus its dot wildcard).
use std::sync::Arc;
use vstd::prelude::*;

verus! {

/// One trie node: children keyed by label, and an optional payload attached
/// where an inserted pattern terminates. The payload sits behind a shared
/// handle because one `+` pattern attaches the same payload at two nodes.
pub struct Node<T> {
    pub children: Vec<(String, Node<T>)>,
    pub data: Option<Arc<T>>,
}

/// A trie rooted at an owned node.
pub struct StringTrie<T> {
    pub root: Node<T>,
}

/// The label that matches exactly one hostname label.
pub open spec fn star_label() -> Seq<char> {
    seq!['*']
}

/// The dot-wildcard label: matches the whole remaining depth.
pub open spec fn dot_label() -> Seq<char> {
    Seq::<char>::empty()
}

/// The label that expands to a dual insertion.
pub open spec fn plus_label() -> Seq<char> {
    seq!['+']
}

/// The first entry of `s` whose key reads `label`, if any.
pub open spec fn find_child_spec<T>(s: Seq<(String, Node<T>)>, label: Seq<char>) -> Option<
    Node<T>,
>
    decreases s.len(),
{
    if s.len() == 0 {
        None
    } else if s[0].0@ == label {
        Some(s[0].1)
    } else {
        find_child_spec(s.drop_first(), label)
    }
}

/// The child of `n` under `label`, if any.
pub open spec fn child_of<T>(n: Node<T>, label: Seq<char>) -> Option<Node<T>> {
    find_child_spec(n.children@, label)
}

/// The node reached from `n` by walking `path` (labels in root-to-leaf
/// order), if every step exists.
pub open spec fn node_at<T>(n: Node<T>, path: Seq<Seq<char>>) -> Option<Node<T>>
    decreases path.len(),
{
    if path.len() == 0 {
        Some(n)
    } else {
        match child_of(n, path[0]) {
            Some(c) => node_at(c, path.drop_first()),
            None => None,
        }
    }
}

/// The payload attached at `path` under `n`, if the node exists and bears one.
pub open spec fn payload_at<T>(n: Node<T>, path: Seq<Seq<char>>) -> Option<Arc<T>> {
    match node_at(n, path) {
        Some(m) => m.data,
        None => None,
    }
}

impl<T> Node<T> {
    /// A node with no children and no payload.
    pub fn new() -> (n: Node<T>)
        ensures
            n.children@ == Seq::<(String, Node<T>)>::empty(),
            n.data is None,
    {
        Node { children: Vec::new(), data: None }
    }

    /// The first child entry bearing key `s`, as an index into `children`.
    fn find_child_index(&self, s: &String) -> (r: Option<usize>)
        ensures
            match r {
                Some(i) => i < self.children@.len() && self.children@[i as int].0@ == s@
                    && (forall|k: int| 0 <= k < i ==> self.children@[k].0@ != s@),
                None => forall|k: int| 0 <= k < self.children@.len() ==> self.children@[k].0@ != s@,
            },
    {
        let mut i: usize = 0;
        while i < self.children.len()
            invariant
                i <= self.children@.len(),
                forall|k: int| 0 <= k < i ==> self.children@[k].0@ != s@,
            decreases self.children@.len() - i,
        {
            if self.children[i].0 == *s {
                return Some(i);
            }
            i += 1;
        }
        None
    }

    /// The child under label `s`, if any.
    pub fn get_child(&self, s: &String) -> (r: Option<&Node<T>>)
        ensures
            match r {
                Some(c) => child_of(*self, s@) == Some(*c),
                None => child_of(*self, s@) is None,
            },
    {
        match self.find_child_index(s) {
            Some(i) => {
                proof {
                    lemma_find_child_at_first_index(self.children@, s@, i as int);
                }
                Some(&self.children[i].1)
            },
            None => {
                proof {
                    lemma_find_child_absent(self.children@, s@);
                }
                None
            },
        }
    }

    /// Whether a child under label `s` exists.
    pub fn has_child(&self, s: &String) -> (r: bool)
        ensures
            r == (child_of(*self, s@) is Some),
    {
        self.get_child(s).is_some()
    }

    /// Attaches `child` under label `s`, replacing any existing child with
    /// that label.
    pub fn add_child(&mut self, s: String, child: Node<T>)
        ensures
            forall|l: Seq<char>| #[trigger] child_of(*final(self), l) == (if l == s@ {
                Some(child)
            } else {
                child_of(*old(self), l)
            }),
            final(self).data == old(self).data,
    {
        let ghost entry = (s, child);
        let ghost cs = self.children@;
        match self.find_child_index(&s) {
            Some(i) => {
                let _ = self.children.remove(i);
                self.children.insert(i, (s, child));
                proof {
                    assert(self.children@ =~= cs.update(i as int, entry));
                    assert forall|l: Seq<char>| #[trigger] child_of(*self, l) == (if l == entry.0@ {
                        Some(entry.1)
                    } else {
                        find_child_spec(cs, l)
                    }) by {
                        lemma_find_child_update_one(cs, i as int, entry, l);
                    }
                }
            },
            None => {
                self.children.push((s, child));
                proof {
                    assert forall|l: Seq<char>| #[trigger] child_of(*self, l) == (if l == entry.0@ {
                        Some(entry.1)
                    } else {
                        find_child_spec(cs, l)
                    }) by {
                        lemma_find_child_push_one(cs, entry, l);
                    }
                }
            },
        }
    }
}

/// Replacing the entry at the first index of its key changes lookups for
/// that key alone.
proof fn lemma_find_child_update_one<T>(
    s: Seq<(String, Node<T>)>,
    i: int,
    x: (String, Node<T>),
    l: Seq<char>,
)
    requires
        0 <= i < s.len(),
        x.0@ == s[i].0@,
        forall|k: int| 0 <= k < i ==> s[k].0@ != s[i].0@,
    ensures
        find_child_spec(s.update(i, x), l) == (if l == x.0@ {
            Some(x.1)
        } else {
            find_child_spec(s, l)
        }),
    decreases i,
{
    let t = s.update(i, x);
    if i == 0 {
        assert(t.drop_first() =~= s.drop_first());
    } else {
        assert(t.drop_first() =~= s.drop_first().update(i - 1, x));
        lemma_find_child_update_one(s.drop_first(), i - 1, x, l);
    }
}

/// Appending an entry with a fresh key changes lookups for that key alone.
proof fn lemma_find_child_push_one<T>(s: Seq<(String, Node<T>)>, x: (String, Node<T>), l: Seq<char>)
    requires
        forall|k: int| 0 <= k < s.len() ==> s[k].0@ != x.0@,
    ensures
        find_child_spec(s.push(x), l) == (if l == x.0@ {
            Some(x.1)
        } else {
            find_child_spec(s, l)
        }),
    decreases s.len(),
{
    if s.len() == 0 {
        assert(s.push(x)[0] == x);
        assert(s.push(x).drop_first() =~= Seq::<(String, Node<T>)>::empty());
        assert(find_child_spec(s, l) is None);
        assert(find_child_spec(Seq::<(String, Node<T>)>::empty(), l) is None);
        assert(s.push(x).len() == 1);
        if l == x.0@ {
            assert(find_child_spec(s.push(x), l) == Some(x.1));
        } else {
            assert(find_child_spec(s.push(x), l) == find_child_spec(
                s.push(x).drop_first(),
                l,
            ));
        }
    } else {
        assert(s.push(x)[0] == s[0]);
        assert(s.push(x).drop_first() =~= s.drop_first().push(x));
        lemma_find_child_push_one(s.drop_first(), x, l);
    }
}

/// If `i` is the first index of `s` whose key reads `label`, the lookup
/// returns that entry.
proof fn lemma_find_child_at_first_index<T>(s: Seq<(String, Node<T>)>, label: Seq<char>, i: int)
    requires
        0 <= i < s.len(),
        s[i].0@ == label,
        forall|k: int| 0 <= k < i ==> s[k].0@ != label,
    ensures
        find_child_spec(s, label) == Some(s[i].1),
    decreases i,
{
    if i > 0 {
        lemma_find_child_at_first_index(s.drop_first(), label, i - 1);
    }
}

/// If no key of `s` reads `label`, the lookup fails.
proof fn lemma_find_child_absent<T>(s: Seq<(String, Node<T>)>, label: Seq<char>)
    requires
        forall|k: int| 0 <= k < s.len() ==> s[k].0@ != label,
    ensures
        find_child_spec(s, label) is None,
    decreases s.len(),
{
    if s.len() > 0 {
        lemma_find_child_absent(s.drop_first(), label);
    }
}

/// The labels of `s`, split on `'.'`. Splitting never yields an empty
/// sequence: the empty string has the single empty label.
pub open spec fn split_dot(s: Seq<char>) -> Seq<Seq<char>>
    decreases s.len(),
{
    if s.len() == 0 {
        seq![Seq::<char>::empty()]
    } else if s[0] == '.' {
        seq![Seq::<char>::empty()] + split_dot(s.drop_first())
    } else {
        let rest = split_dot(s.drop_first());
        seq![seq![s[0]] + rest[0]] + rest.drop_first()
    }
}

/// A pattern is well formed when a single-label pattern is non-empty and no
/// label past the first is empty (no trailing dot, no empty interior label;
/// a leading dot is allowed).
pub open spec fn valid_domain(s: Seq<char>) -> bool {
    let parts = split_dot(s);
    &&& (parts.len() == 1 ==> parts[0].len() > 0)
    &&& (forall|k: int| 1 <= k < parts.len() ==> #[trigger] parts[k].len() > 0)
}

/// The views of a sequence of owned labels.
pub open spec fn label_views(s: Seq<String>) -> Seq<Seq<char>> {
    s.map_values(|x: String| x@)
}

proof fn lemma_split_dot_nonempty(s: Seq<char>)
    ensures
        split_dot(s).len() >= 1,
    decreases s.len(),
{
    if s.len() > 0 {
        lemma_split_dot_nonempty(s.drop_first());
    }
}

/// Splitting at the first dot: everything before it is the first label.
proof fn lemma_split_dot_first_dot(s: Seq<char>, d: int)
    requires
        0 <= d < s.len(),
        s[d] == '.',
        forall|k: int| 0 <= k < d ==> s[k] != '.',
    ensures
        split_dot(s) == seq![s.take(d)] + split_dot(s.skip(d + 1)),
    decreases d,
{
    if d == 0 {
        assert(s.take(0) =~= Seq::<char>::empty());
        assert(s.skip(1) =~= s.drop_first());
    } else {
        lemma_split_dot_first_dot(s.drop_first(), d - 1);
        lemma_split_dot_nonempty(s.drop_first().skip(d));
        assert(s.drop_first().take(d - 1) =~= s.take(d).drop_first());
        assert(s.drop_first().skip(d) =~= s.skip(d + 1));
        let rest = split_dot(s.drop_first());
        assert(rest == seq![s.take(d).drop_first()] + split_dot(s.skip(d + 1)));
        assert(rest[0] == s.take(d).drop_first());
        assert(seq![s[0]] + rest[0] =~= s.take(d));
        assert(rest.drop_first() =~= split_dot(s.skip(d + 1)));
        assert(split_dot(s) =~= seq![s.take(d)] + split_dot(s.skip(d + 1)));
    }
}

/// Splitting a dot-free string yields that one label.
proof fn lemma_split_dot_free(s: Seq<char>)
    requires
        forall|k: int| 0 <= k < s.len() ==> s[k] != '.',
    ensures
        split_dot(s) == seq![s],
    decreases s.len(),
{
    if s.len() == 0 {
        assert(seq![Seq::<char>::empty()] =~~= seq![s]);
    } else {
        lemma_split_dot_free(s.drop_first());
        assert(seq![s[0]] + s.drop_first() =~= s);
        assert(split_dot(s) =~= seq![s]);
    }
}

/// Splits `s` on `'.'` into owned labels.
fn split_domain(s: &str) -> (parts: Vec<String>)
    ensures
        label_views(parts@) == split_dot(s@),
        parts@.len() >= 1,
{
    let len = s.unicode_len();
    let mut parts: Vec<String> = Vec::new();
    let mut start: usize = 0;
    let mut i: usize = 0;
    proof {
        assert(label_views(parts@) =~= Seq::<Seq<char>>::empty());
        assert(s@.skip(0) =~= s@);
        assert(label_views(parts@) + split_dot(s@) =~= split_dot(s@));
    }
    while i < len
        invariant
            start <= i <= len,
            len == s@.len(),
            split_dot(s@) == label_views(parts@) + split_dot(s@.skip(start as int)),
            forall|k: int| start <= k < i ==> s@[k] != '.',
        decreases len - i,
    {
        let c = s.get_char(i);
        if c == '.' {
            let ghost old_parts = parts@;
            let piece = s.substring_char(start, i).to_owned();
            parts.push(piece);
            proof {
                let tail = s@.skip(start as int);
                lemma_split_dot_first_dot(tail, i - start);
                assert(tail.take(i - start) =~= s@.subrange(start as int, i as int));
                assert(tail.skip(i - start + 1) =~= s@.skip(i + 1));
                assert(label_views(parts@) =~= label_views(old_parts).push(
                    s@.subrange(start as int, i as int),
                ));
                assert(label_views(parts@) + split_dot(s@.skip(i + 1)) =~= label_views(old_parts)
                    + split_dot(s@.skip(start as int)));
            }
            start = i + 1;
        }
        i += 1;
    }
    let ghost old_parts = parts@;
    let piece = s.substring_char(start, len).to_owned();
    parts.push(piece);
    proof {
        let tail = s@.skip(start as int);
        lemma_split_dot_free(tail);
        assert(tail =~= s@.subrange(start as int, len as int));
        assert(label_views(parts@) =~= label_views(old_parts).push(tail));
        assert(label_views(parts@) =~= label_views(old_parts) + split_dot(tail));
    }
    parts
}

/// Splits `domain` on dots and validates it: a lone label must be non-empty
/// (so the empty string is rejected), and no label after the first may be
/// empty (so trailing dots and empty interior labels are rejected). On
/// success hands back the labels in source order.
pub fn valid_and_splic_domain(domain: &str) -> (r: (Option<Vec<String>>, bool))
    ensures
        r.1 == valid_domain(domain@),
        r.1 ==> (r.0 matches Some(parts) && label_views(parts@) == split_dot(domain@)),
        !r.1 ==> r.0 is None,
{
    let parts = split_domain(domain);
    let m = parts.len();
    if m == 1 {
        if parts[0].as_str().is_empty() {
            return (None, false);
        }
        return (Some(parts), true);
    }
    let mut k: usize = 1;
    while k < m
        invariant
            1 <= k <= m,
            m == parts@.len(),
            label_views(parts@) == split_dot(domain@),
            forall|j: int| 1 <= j < k ==> #[trigger] split_dot(domain@)[j].len() > 0,
        decreases m - k,
    {
        if parts[k].as_str().is_empty() {
            proof {
                assert(split_dot(domain@)[k as int].len() == 0);
            }
            return (None, false);
        }
        k += 1;
    }
    (Some(parts), true)
}

/// The labels `s[lo..hi]`, viewed and reversed: the walk order of an
/// insertion, last label first.
pub open spec fn rev_labels(s: Seq<String>, lo: int, hi: int) -> Seq<Seq<char>> {
    label_views(s).subrange(lo, hi).reverse()
}

/// How one insertion changes a trie: exactly the nodes along `path` come
/// into existence, the payload lands at `path`, and every other payload is
/// untouched.
pub open spec fn inserted_one<T>(
    oldr: Node<T>,
    newr: Node<T>,
    path: Seq<Seq<char>>,
    data: Arc<T>,
) -> bool {
    &&& forall|p: Seq<Seq<char>>|
        #[trigger] node_at(newr, p) is Some <==> (node_at(oldr, p) is Some || p.is_prefix_of(path))
    &&& payload_at(newr, path) == Some(data)
    &&& forall|p: Seq<Seq<char>>|
        p != path ==> #[trigger] payload_at(newr, p) == payload_at(oldr, p)
}

/// How a `+` pattern changes a trie: the shared payload lands both at `base`
/// and at its dot-wildcard child, and nothing else changes.
pub open spec fn inserted_two<T>(
    oldr: Node<T>,
    newr: Node<T>,
    base: Seq<Seq<char>>,
    data: Arc<T>,
) -> bool {
    let deep = base.push(dot_label());
    &&& forall|p: Seq<Seq<char>>|
        #[trigger] node_at(newr, p) is Some <==> (node_at(oldr, p) is Some || p.is_prefix_of(deep))
    &&& payload_at(newr, base) == Some(data)
    &&& payload_at(newr, deep) == Some(data)
    &&& forall|p: Seq<Seq<char>>|
        p != base && p != deep ==> #[trigger] payload_at(newr, p) == payload_at(oldr, p)
}

/// A childless node reaches no path but the empty one.
proof fn lemma_node_at_childless<T>(c: Node<T>, p: Seq<Seq<char>>)
    requires
        c.children@.len() == 0,
    ensures
        node_at(c, p) is Some <==> p.len() == 0,
        p.len() == 0 ==> node_at(c, p) == Some(c),
{
    if p.len() > 0 {
        assert(find_child_spec(c.children@, p[0]) is None);
    }
}

/// A non-empty path is a prefix of `seq![l] + q` exactly when it starts with
/// `l` and its rest is a prefix of `q`.
proof fn lemma_prefix_cons(p: Seq<Seq<char>>, l: Seq<char>, q: Seq<Seq<char>>)
    requires
        p.len() > 0,
    ensures
        p.is_prefix_of(seq![l] + q) <==> (p[0] == l && p.drop_first().is_prefix_of(q)),
{
    let path = seq![l] + q;
    let p1 = p.drop_first();
    if p.is_prefix_of(path) {
        assert(p1 =~= q.subrange(0, p1.len() as int));
    }
    if p[0] == l && p1.is_prefix_of(q) {
        assert(p1 =~= q.subrange(0, p1.len() as int));
        assert forall|i: int| 0 <= i < p.len() implies p[i] == path.subrange(
            0,
            p.len() as int,
        )[i] by {
            if i > 0 {
                assert(p[i] == p1[i - 1]);
                assert(p1[i - 1] == q.subrange(0, p1.len() as int)[i - 1]);
                assert(path[i] == q[i - 1]);
            }
        }
        assert(p =~= path.subrange(0, p.len() as int));
    }
}

/// Attaching a payload at a node is an insertion along the empty path.
proof fn lemma_set_data<T>(nold: Node<T>, nnew: Node<T>, data: Arc<T>)
    requires
        nnew.children == nold.children,
        nnew.data == Some(data),
    ensures
        inserted_one(nold, nnew, Seq::<Seq<char>>::empty(), data),
{
    let path = Seq::<Seq<char>>::empty();
    assert forall|p: Seq<Seq<char>>| #[trigger] node_at(nnew, p) is Some <==> (node_at(nold, p)
        is Some || p.is_prefix_of(path)) by {
        if p.len() > 0 {
            assert(child_of(nnew, p[0]) == child_of(nold, p[0]));
            assert(node_at(nnew, p) == node_at(nold, p));
            assert(!p.is_prefix_of(path));
        } else {
            assert(p =~= path);
        }
    }
    assert forall|p: Seq<Seq<char>>| p != path implies #[trigger] payload_at(nnew, p)
        == payload_at(nold, p) by {
        if p.len() == 0 {
            assert(p =~= path);
        } else {
            assert(child_of(nnew, p[0]) == child_of(nold, p[0]));
            assert(node_at(nnew, p) == node_at(nold, p));
        }
    }
}

/// Lifts an insertion in the child under `l` one level up.
proof fn lemma_insert_step<T>(
    nold: Node<T>,
    nnew: Node<T>,
    l: Seq<char>,
    cold: Node<T>,
    cnew: Node<T>,
    q: Seq<Seq<char>>,
    data: Arc<T>,
)
    requires
        nnew.data == nold.data,
        forall|x: Seq<char>| #[trigger] child_of(nnew, x) == (if x == l {
            Some(cnew)
        } else {
            child_of(nold, x)
        }),
        child_of(nold, l) == Some(cold) || (child_of(nold, l) is None && cold.children@.len() == 0
            && cold.data is None),
        inserted_one(cold, cnew, q, data),
    ensures
        inserted_one(nold, nnew, seq![l] + q, data),
{
    let path = seq![l] + q;
    assert forall|p: Seq<Seq<char>>| #[trigger] node_at(nnew, p) is Some <==> (node_at(nold, p)
        is Some || p.is_prefix_of(path)) by {
        if p.len() == 0 {
        } else {
            let p1 = p.drop_first();
            lemma_prefix_cons(p, l, q);
            if p[0] == l {
                assert(node_at(nnew, p) == node_at(cnew, p1));
                if child_of(nold, l) is Some {
                    assert(node_at(nold, p) == node_at(cold, p1));
                } else {
                    assert(node_at(nold, p) is None);
                    lemma_node_at_childless(cold, p1);
                    if p1.len() == 0 {
                        assert(p1 =~= Seq::<Seq<char>>::empty());
                        assert(p1.is_prefix_of(q));
                    }
                }
            } else {
                assert(node_at(nnew, p) == node_at(nold, p));
            }
        }
    }
    assert(payload_at(nnew, path) == Some(data)) by {
        assert(path[0] == l);
        assert(path.drop_first() =~= q);
        assert(node_at(nnew, path) == node_at(cnew, q));
    }
    assert forall|p: Seq<Seq<char>>| p != path implies #[trigger] payload_at(nnew, p)
        == payload_at(nold, p) by {
        if p.len() == 0 {
        } else {
            let p1 = p.drop_first();
            if p[0] == l {
                assert(p =~= seq![p[0]] + p1);
                assert(p1 != q);
                assert(node_at(nnew, p) == node_at(cnew, p1));
                assert(payload_at(nnew, p) == payload_at(cnew, p1));
                assert(payload_at(cnew, p1) == payload_at(cold, p1));
                if child_of(nold, l) is Some {
                    assert(node_at(nold, p) == node_at(cold, p1));
                } else {
                    assert(node_at(nold, p) is None);
                    lemma_node_at_childless(cold, p1);
                    if p1.len() == 0 {
                        assert(payload_at(cold, p1) == cold.data);
                    } else {
                        assert(node_at(cold, p1) is None);
                    }
                }
            } else {
                assert(node_at(nnew, p) == node_at(nold, p));
            }
        }
    }
}

/// Walks or creates the nodes for labels `parts[lo..hi]`, last label first,
/// and attaches `data` where the walk ends.
fn insert_inner<T>(node: &mut Node<T>, parts: &Vec<String>, lo: usize, hi: usize, data: Arc<T>)
    requires
        lo <= hi <= parts@.len(),
    ensures
        inserted_one(*old(node), *final(node), rev_labels(parts@, lo as int, hi as int), data),
    decreases hi - lo,
{
    if hi == lo {
        let ghost oldn = *node;
        node.data = Some(data);
        proof {
            assert(rev_labels(parts@, lo as int, hi as int) =~= Seq::<Seq<char>>::empty());
            lemma_set_data(oldn, *node, data);
        }
    } else {
        let ghost oldn = *node;
        let ghost l = parts@[hi - 1]@;
        let idx_opt = node.find_child_index(&parts[hi - 1]);
        let i: usize = match idx_opt {
            Some(i) => i,
            None => {
                let n = node.children.len();
                node.children.push((parts[hi - 1].clone(), Node::new()));
                n
            },
        };
        proof {
            if idx_opt is None {
                assert(node.children@.drop_last() =~= oldn.children@);
            }
        }
        let (k, mut child) = node.children.remove(i);
        let ghost childold = child;
        proof {
            if idx_opt is None {
                assert(node.children@ =~= oldn.children@);
            }
        }
        insert_inner(&mut child, parts, lo, hi - 1, data);
        let ghost entryv = (k, child);
        node.children.insert(i, (k, child));
        let ghost q = rev_labels(parts@, lo as int, hi - 1 as int);
        proof {
            if idx_opt is Some {
                assert(node.children@ =~= oldn.children@.update(i as int, entryv));
                assert(entryv.0@ == oldn.children@[i as int].0@);
                assert forall|x: Seq<char>| #[trigger] child_of(*node, x) == (if x == l {
                    Some(entryv.1)
                } else {
                    child_of(oldn, x)
                }) by {
                    lemma_find_child_update_one(oldn.children@, i as int, entryv, x);
                }
                lemma_find_child_at_first_index(oldn.children@, l, i as int);
                lemma_insert_step(oldn, *node, l, childold, entryv.1, q, data);
            } else {
                assert(node.children@ =~= oldn.children@.push(entryv));
                assert forall|x: Seq<char>| #[trigger] child_of(*node, x) == (if x == l {
                    Some(entryv.1)
                } else {
                    child_of(oldn, x)
                }) by {
                    lemma_find_child_push_one(oldn.children@, entryv, x);
                }
                lemma_find_child_absent(oldn.children@, l);
                lemma_insert_step(oldn, *node, l, childold, entryv.1, q, data);
            }
            assert(rev_labels(parts@, lo as int, hi as int) =~= seq![l] + q);
        }
    }
}

/// Keeps a candidate only if it bears a payload.
pub open spec fn accept<T>(r: Option<Node<T>>) -> Option<Node<T>> {
    match r {
        Some(m) => if m.data is Some {
            Some(m)
        } else {
            None
        },
        None => None,
    }
}

/// The priority descent of a lookup, last label first. At every depth an
/// exact child is tried first, then the `*` child, either accepted only if
/// the deeper walk ends at a payload-bearing node; the dot-wildcard child is
/// the final fallback and ends the walk regardless of the remaining labels.
pub open spec fn descend<T>(n: Node<T>, parts: Seq<Seq<char>>) -> Option<Node<T>>
    decreases parts.len(),
{
    if parts.len() == 0 {
        Some(n)
    } else {
        let tail = parts.drop_last();
        let via_exact = match child_of(n, parts.last()) {
            Some(c) => accept(descend(c, tail)),
            None => None,
        };
        if via_exact is Some {
            via_exact
        } else {
            let via_star = match child_of(n, star_label()) {
                Some(c) => accept(descend(c, tail)),
                None => None,
            };
            if via_star is Some {
                via_star
            } else {
                child_of(n, dot_label())
            }
        }
    }
}

/// What a lookup returns: nothing for an invalid or empty-label query, else
/// the payload-bearing node the priority descent ends at.
pub open spec fn search_spec<T>(root: Node<T>, s: Seq<char>) -> Option<Node<T>> {
    if !valid_domain(s) || split_dot(s)[0].len() == 0 {
        None
    } else {
        accept(descend(root, split_dot(s)))
    }
}

/// Relies on `Arc::clone`: the clone is a second handle to the same
/// allocation, so it carries the same value.
#[verifier::external_body]
fn clone_payload<T>(a: &Arc<T>) -> (res: Arc<T>)
    ensures
        res == *a,
{
    Arc::clone(a)
}

/// Two chained insertions at `base` and at its dot-wildcard child make up a
/// `+` expansion.
proof fn lemma_compose_plus<T>(
    r0: Node<T>,
    r1: Node<T>,
    r2: Node<T>,
    base: Seq<Seq<char>>,
    data: Arc<T>,
)
    requires
        inserted_one(r0, r1, base, data),
        inserted_one(r1, r2, base.push(dot_label()), data),
    ensures
        inserted_two(r0, r2, base, data),
{
    let deep = base.push(dot_label());
    assert(base.len() != deep.len());
    assert forall|p: Seq<Seq<char>>| p.is_prefix_of(base) implies p.is_prefix_of(deep) by {
        assert(p =~= base.subrange(0, p.len() as int));
        assert(p =~= deep.subrange(0, p.len() as int));
    }
    assert forall|p: Seq<Seq<char>>| #[trigger] node_at(r2, p) is Some <==> (node_at(r0, p) is Some
        || p.is_prefix_of(deep)) by {
        assert(node_at(r1, p) is Some <==> (node_at(r0, p) is Some || p.is_prefix_of(base)));
    }
    assert(payload_at(r2, base) == payload_at(r1, base));
    assert forall|p: Seq<Seq<char>>| p != base && p != deep implies #[trigger] payload_at(r2, p)
        == payload_at(r0, p) by {
        assert(payload_at(r2, p) == payload_at(r1, p));
        assert(payload_at(r1, p) == payload_at(r0, p));
    }
}

impl<T> StringTrie<T> {
    /// An empty trie: a root with no children and no payload.
    pub fn new() -> (t: StringTrie<T>)
        ensures
            t.root.children@ == Seq::<(String, Node<T>)>::empty(),
            t.root.data is None,
    {
        StringTrie { root: Node::new() }
    }

    /// Inserts `data` under the pattern `domain`. An invalid pattern is
    /// rejected and leaves the trie untouched. A pattern led by `+` attaches
    /// the same payload handle twice: at the bare remainder and at its
    /// dot-wildcard child. Any other pattern attaches it at its own labels,
    /// walked last label first.
    pub fn insert(&mut self, domain: &str, data: Arc<T>) -> (r: bool)
        ensures
            r == valid_domain(domain@),
            !valid_domain(domain@) ==> *final(self) == *old(self),
            (valid_domain(domain@) && split_dot(domain@)[0] != plus_label()) ==> inserted_one(
                old(self).root,
                final(self).root,
                split_dot(domain@).reverse(),
                data,
            ),
            (valid_domain(domain@) && split_dot(domain@)[0] == plus_label()) ==> inserted_two(
                old(self).root,
                final(self).root,
                split_dot(domain@).drop_first().reverse(),
                data,
            ),
    {
        let (parts_opt, valid) = valid_and_splic_domain(domain);
        if !valid {
            return false;
        }
        let mut parts = parts_opt.unwrap();
        let n = parts.len();
        let is_plus = parts[0].as_str().unicode_len() == 1 && parts[0].as_str().get_char(0) == '+';
        proof {
            assert(plus_label().len() == 1);
            if is_plus {
                assert(parts@[0]@ =~= plus_label());
            } else {
                if parts@[0]@ == plus_label() {
                    assert(parts@[0]@[0] == '+');
                }
            }
        }
        let ghost pv = parts@;
        if is_plus {
            insert_inner(&mut self.root, &parts, 1, n, clone_payload(&data));
            let ghost mid = self.root;
            let _ = parts.remove(0);
            parts.insert(0, String::new());
            proof {
                assert(parts@ =~= pv.drop_first().insert(0, parts@[0]));
                assert(parts@[0]@ =~= dot_label());
                assert(rev_labels(parts@, 0, n as int) =~= rev_labels(pv, 1, n as int).push(
                    dot_label(),
                ));
            }
            insert_inner(&mut self.root, &parts, 0, n, data);
            proof {
                lemma_compose_plus(
                    old(self).root,
                    mid,
                    self.root,
                    rev_labels(pv, 1, n as int),
                    data,
                );
                assert(rev_labels(pv, 1, n as int) =~= split_dot(domain@).drop_first().reverse());
            }
        } else {
            insert_inner(&mut self.root, &parts, 0, n, data);
            proof {
                assert(rev_labels(pv, 0, n as int) =~= split_dot(domain@).reverse());
            }
        }
        true
    }

    /// Looks `domain` up. The result is the payload-bearing node of the
    /// most specific matching pattern: at every depth an exact label beats
    /// the `*` wildcard, which beats the dot-wildcard fallback.
    pub fn search(&self, domain: &str) -> (r: Option<&Node<T>>)
        ensures
            match r {
                Some(m) => search_spec(self.root, domain@) == Some(*m),
                None => search_spec(self.root, domain@) is None,
            },
    {
        let (parts_opt, valid) = valid_and_splic_domain(domain);
        if !valid {
            return None;
        }
        let parts = parts_opt.unwrap();
        if parts[0].as_str().is_empty() {
            return None;
        }
        let n = parts.len();
        proof {
            assert(label_views(parts@).take(n as int) =~= split_dot(domain@));
        }
        match search_inner(&self.root, &parts, n) {
            Some(m) => if m.data.is_some() {
                Some(m)
            } else {
                None
            },
            None => None,
        }
    }
}

/// The executable priority descent over `parts[..hi]`, mirroring `descend`.
fn search_inner<'a, T>(node: &'a Node<T>, parts: &Vec<String>, hi: usize) -> (r: Option<&'a Node<T>>)
    requires
        hi <= parts@.len(),
    ensures
        match r {
            Some(m) => descend(*node, label_views(parts@).take(hi as int)) == Some(*m),
            None => descend(*node, label_views(parts@).take(hi as int)) is None,
        },
    decreases hi,
{
    if hi == 0 {
        return Some(node);
    }
    let ghost pv = label_views(parts@).take(hi as int);
    proof {
        assert(pv.last() == parts@[hi - 1]@);
        assert(pv.drop_last() =~= label_views(parts@).take(hi - 1 as int));
    }
    if let Some(c) = node.get_child(&parts[hi - 1]) {
        if let Some(m) = search_inner(c, parts, hi - 1) {
            if m.data.is_some() {
                return Some(m);
            }
        }
    }
    let star = String::from_str("*");
    proof {
        reveal_strlit("*");
        assert(star@ =~= star_label());
    }
    if let Some(c) = node.get_child(&star) {
        if let Some(m) = search_inner(c, parts, hi - 1) {
            if m.data.is_some() {
                return Some(m);
            }
        }
    }
    let dot = String::new();
    proof {
        assert(dot@ =~= dot_label());
    }
    node.get_child(&dot)
}

/// A node reached by walking the reversed labels, exact step by exact step,
/// is what the priority descent returns once it bears a payload: the exact
/// branch is tried first at every depth and a payload-bearing result there
/// is never passed over for a wildcard.
pub proof fn lemma_descend_finds_exact<T>(n: Node<T>, parts: Seq<Seq<char>>, m: Node<T>)
    requires
        node_at(n, parts.reverse()) == Some(m),
        m.data is Some,
    ensures
        descend(n, parts) == Some(m),
    decreases parts.len(),
{
    let rev = parts.reverse();
    if parts.len() == 0 {
        assert(rev.len() == 0);
    } else {
        assert(rev[0] == parts.last());
        assert(rev.drop_first() =~= parts.drop_last().reverse());
        let c = child_of(n, parts.last()).unwrap();
        assert(node_at(c, parts.drop_last().reverse()) == Some(m));
        lemma_descend_finds_exact(c, parts.drop_last(), m);
    }
}

/// A pattern without a leading `+`, inserted, is found again when searched
/// for as a hostname, and the search ends at the very node that now bears
/// the inserted payload — whatever else the trie holds.
pub proof fn lemma_insert_then_search<T>(
    r0: Node<T>,
    r1: Node<T>,
    d: Seq<char>,
    data: Arc<T>,
)
    requires
        valid_domain(d),
        split_dot(d)[0].len() > 0,
        inserted_one(r0, r1, split_dot(d).reverse(), data),
    ensures
        search_spec(r1, d) matches Some(m) && m.data == Some(data),
{
    let path = split_dot(d).reverse();
    assert(path.is_prefix_of(path)) by {
        assert(path =~= path.subrange(0, path.len() as int));
    }
    assert(node_at(r1, path) is Some);
    let m = node_at(r1, path).unwrap();
    assert(m.data == Some(data));
    lemma_descend_finds_exact(r1, split_dot(d), m);
}

/// The dual insertion of a `+` pattern makes the bare suffix itself match:
/// searching a hostname `q` after a `+` pattern whose remainder reads `q`
/// ends at the node bearing the shared payload.
pub proof fn lemma_insert_plus_then_search<T>(
    r0: Node<T>,
    r1: Node<T>,
    q: Seq<char>,
    data: Arc<T>,
)
    requires
        valid_domain(q),
        split_dot(q)[0].len() > 0,
        inserted_two(r0, r1, split_dot(q).reverse(), data),
    ensures
        search_spec(r1, q) matches Some(m) && m.data == Some(data),
{
    let base = split_dot(q).reverse();
    let deep = base.push(dot_label());
    assert(base.is_prefix_of(deep)) by {
        assert(base =~= deep.subrange(0, base.len() as int));
    }
    assert(node_at(r1, base) is Some);
    let m = node_at(r1, base).unwrap();
    assert(m.data == Some(data));
    lemma_descend_finds_exact(r1, split_dot(q), m);
}

} // verus!

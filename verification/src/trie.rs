use vstd::prelude::*;
use crate::domain::{label_views, labels_of, split_labels};

verus! {

/// One trie node: a terminal flag plus children keyed by one label each.
pub struct Node {
    terminal: bool,
    children: Vec<(String, Node)>,
}

/// A node holds a domain `d` (a label sequence, most-significant label
/// first) when walking `d` from this node ends on a terminal node.
spec fn node_has(n: Node, d: Seq<Seq<char>>) -> bool
    decreases n,
{
    if d.len() == 0 {
        n.terminal
    } else {
        exists|i: int|
            0 <= i < n.children@.len() && n.children@[i].0@ == d[0] && node_has(
                #[trigger] n.children@[i].1,
                d.drop_first(),
            )
    }
}

/// Labels are unique among siblings, recursively.
spec fn node_wf(n: Node) -> bool
    decreases n,
{
    &&& forall|i: int, j: int|
        0 <= i < j < n.children@.len() ==> (#[trigger] n.children@[i].0@) != (
        #[trigger] n.children@[j].0@)
    &&& forall|i: int| 0 <= i < n.children@.len() ==> node_wf(#[trigger] n.children@[i].1)
}

/// The walk that answers a query: an exact match consumes every label and
/// ends terminal; with `include_subdomains` the walk may also stop at any
/// terminal node passed on the way down.
spec fn node_matches(n: Node, q: Seq<Seq<char>>, include_subdomains: bool) -> bool
    decreases n,
{
    if q.len() == 0 {
        n.terminal
    } else {
        ||| include_subdomains && n.terminal
        ||| exists|i: int|
            0 <= i < n.children@.len() && n.children@[i].0@ == q[0] && node_matches(
                #[trigger] n.children@[i].1,
                q.drop_first(),
                include_subdomains,
            )
    }
}

/// What a membership query means over a set of blocked domains: the query
/// itself is blocked, or (when subdomains are included) some strict,
/// non-empty most-significant-first prefix of its labels is blocked —
/// the query is then a strict subdomain of a blocked entry.
pub open spec fn spec_matches(
    blocked: Set<Seq<Seq<char>>>,
    q: Seq<Seq<char>>,
    include_subdomains: bool,
) -> bool {
    ||| blocked.contains(q)
    ||| include_subdomains && exists|k: int|
        0 < k < q.len() && blocked.contains(#[trigger] q.subrange(0, k))
}

/// Every blocked domain matches its own exact query, whether or not
/// subdomain matching is asked for.
pub proof fn lemma_blocked_domain_matches(
    blocked: Set<Seq<Seq<char>>>,
    d: Seq<Seq<char>>,
    include_subdomains: bool,
)
    requires
        blocked.contains(d),
    ensures
        spec_matches(blocked, d, include_subdomains),
{
}

/// A strict subdomain of a blocked domain — its labels extend the blocked
/// one's by at least one more — matches exactly when subdomain matching is
/// asked for, as long as the longer name is not itself blocked.
pub proof fn lemma_strict_subdomain_matches(
    blocked: Set<Seq<Seq<char>>>,
    d: Seq<Seq<char>>,
    q: Seq<Seq<char>>,
)
    requires
        blocked.contains(d),
        d.len() >= 1,
        q.len() > d.len(),
        q.subrange(0, d.len() as int) == d,
        !blocked.contains(q),
    ensures
        spec_matches(blocked, q, true),
        !spec_matches(blocked, q, false),
{
    assert(0 < d.len() < q.len() && blocked.contains(q.subrange(0, d.len() as int)));
}

/// The string form of the subdomain law: a query written `p.d`, where the
/// domain `d` is blocked and the longer name `p.d` itself is not, matches
/// with subdomains included and does not match without.
pub proof fn lemma_prefixed_query_matches(
    blocked: Set<Seq<Seq<char>>>,
    p: Seq<char>,
    d: Seq<char>,
)
    requires
        blocked.contains(labels_of(d)),
        !blocked.contains(labels_of(p + seq!['.'] + d)),
    ensures
        spec_matches(blocked, labels_of(p + seq!['.'] + d), true),
        !spec_matches(blocked, labels_of(p + seq!['.'] + d), false),
{
    let q = labels_of(p + seq!['.'] + d);
    crate::domain::lemma_labels_of_join(p, d);
    crate::domain::lemma_labels_of_nonempty(d);
    crate::domain::lemma_labels_of_nonempty(p);
    assert(q.subrange(0, labels_of(d).len() as int) =~= labels_of(d));
    lemma_strict_subdomain_matches(blocked, labels_of(d), q);
}

/// Inserting a domain that is already blocked leaves the set of blocked
/// domains, and with it their number, unchanged: duplicate insertions
/// collapse.
pub proof fn lemma_duplicate_insert(blocked: Set<Seq<Seq<char>>>, d: Seq<Seq<char>>)
    requires
        blocked.contains(d),
    ensures
        blocked.insert(d) == blocked,
{
    assert(blocked.insert(d) =~= blocked);
}

/// The label sequences of `labels[i..]`.
spec fn views_from(labels: Seq<String>, i: int) -> Seq<Seq<char>> {
    label_views(labels).subrange(i, labels.len() as int)
}

/// A compact prefix tree of blocked domains, keyed by labels from the
/// most significant one down, answering exact and subdomain-inclusive
/// membership queries.
pub struct Trie {
    root: Node,
    count: usize,
}

impl Trie {
    /// The set of blocked domains this trie holds, each one as its label
    /// sequence, most-significant label first.
    pub closed spec fn domains(self) -> Set<Seq<Seq<char>>> {
        Set::new(|d: Seq<Seq<char>>| node_has(self.root, d))
    }

    pub closed spec fn wf(self) -> bool {
        &&& node_wf(self.root)
        &&& !self.root.terminal
        &&& self.domains().finite()
        &&& self.count == self.domains().len()
    }

    /// A well-formed trie holds finitely many domains.
    pub proof fn lemma_domains_finite(self)
        requires
            self.wf(),
        ensures
            self.domains().finite(),
    {
    }

    pub fn new() -> (t: Trie)
        ensures
            t.wf(),
            t.domains() == Set::<Seq<Seq<char>>>::empty(),
    {
        let t = Trie { root: Node { terminal: false, children: Vec::new() }, count: 0 };
        proof {
            assert(t.domains() =~= Set::<Seq<Seq<char>>>::empty());
        }
        t
    }

    /// Insert one domain: walk its labels from the most significant one
    /// down, creating missing nodes, and mark the final node terminal.
    /// Inserting a domain a second time has no further effect. The count
    /// of distinct domains must still fit in a `usize`, which any set of
    /// domains held in memory does.
    pub fn insert(&mut self, domain: &str)
        requires
            old(self).wf(),
            old(self).domains().len() < usize::MAX,
        ensures
            final(self).wf(),
            final(self).domains() == old(self).domains().insert(labels_of(domain@)),
    {
        let labels = split_labels(domain);
        let ghost d = labels_of(domain@);
        proof {
            assert(views_from(labels@, 0) =~= label_views(labels@));
        }
        let mut root: Node = Node { terminal: false, children: Vec::new() };
        core::mem::swap(&mut root, &mut self.root);
        let (mut root, added) = node_insert(root, &labels, 0);
        core::mem::swap(&mut root, &mut self.root);
        proof {
            assert(self.domains() =~= old(self).domains().insert(d));
            if added {
                assert(!old(self).domains().contains(d));
                assert(self.domains().len() == old(self).domains().len() + 1);
            } else {
                assert(old(self).domains().contains(d));
                assert(self.domains() =~= old(self).domains());
            }
        }
        if added {
            self.count = self.count + 1;
        }
    }

    /// Answer a membership query for `domain`: exact matches always count,
    /// and when `include_subdomains` is set, strict subdomains of blocked
    /// entries match as well.
    pub fn contains(&self, domain: &str, include_subdomains: bool) -> (r: bool)
        requires
            self.wf(),
        ensures
            r == spec_matches(self.domains(), labels_of(domain@), include_subdomains),
    {
        let labels = split_labels(domain);
        let ghost q = labels_of(domain@);
        proof {
            assert(views_from(labels@, 0) =~= label_views(labels@));
        }
        let r = node_query(&self.root, &labels, 0, include_subdomains);
        proof {
            lemma_matches_decompose(self.root, q, include_subdomains);
            assert(q.subrange(0, 0) =~= Seq::<Seq<char>>::empty());
            assert(!self.domains().contains(q.subrange(0, 0)));
        }
        r
    }

    /// The number of distinct domains held.
    pub fn len(&self) -> (r: usize)
        requires
            self.wf(),
        ensures
            r == self.domains().len(),
    {
        self.count
    }

    /// Reclaim overallocated node storage; the held domains, and so every
    /// query answer, stay exactly as they were.
    pub fn shrink_to_fit(&mut self)
        requires
            old(self).wf(),
        ensures
            final(self).wf(),
            final(self).domains() == old(self).domains(),
    {
        let mut root: Node = Node { terminal: false, children: Vec::new() };
        core::mem::swap(&mut root, &mut self.root);
        let mut root = node_shrink(root);
        core::mem::swap(&mut root, &mut self.root);
        proof {
            assert(self.domains() =~= old(self).domains());
        }
    }
}

/// Relies on `Vec::shrink_to_fit` of std: it only shrinks the spare
/// capacity and leaves the elements exactly as they were.
#[verifier::external_body]
fn vec_shrink(v: &mut Vec<(String, Node)>)
    ensures
        final(v)@ == old(v)@,
{
    v.shrink_to_fit()
}

/// Find the child keyed by `lab`, unique when the node is well formed.
fn find_child(children: &Vec<(String, Node)>, lab: &String) -> (r: Option<usize>)
    ensures
        match r {
            Some(j) => j < children@.len() && children@[j as int].0@ == lab@,
            None => forall|k: int| 0 <= k < children@.len() ==> (#[trigger] children@[k].0@) != lab@,
        },
{
    let mut j: usize = 0;
    while j < children.len()
        invariant
            j <= children@.len(),
            forall|k: int| 0 <= k < j ==> (#[trigger] children@[k].0@) != lab@,
        decreases children@.len() - j,
    {
        if children[j].0.eq(lab) {
            return Some(j);
        }
        j += 1;
    }
    None
}

/// Insert the labels `labels[i..]` below `n`; the flag says whether the
/// domain was new below `n`.
fn node_insert(n: Node, labels: &Vec<String>, i: usize) -> (res: (Node, bool))
    requires
        node_wf(n),
        i <= labels@.len(),
    ensures
        node_wf(res.0),
        res.0.terminal == (n.terminal || i == labels@.len()),
        res.1 == !node_has(n, views_from(labels@, i as int)),
        forall|d: Seq<Seq<char>>|
            #[trigger] node_has(res.0, d) <==> (node_has(n, d) || d == views_from(
                labels@,
                i as int,
            )),
    decreases labels@.len() - i,
{
    let ghost s = views_from(labels@, i as int);
    if i == labels.len() {
        proof {
            assert(s =~= Seq::<Seq<char>>::empty());
        }
        let Node { terminal, children } = n;
        let res = Node { terminal: true, children };
        proof {
            assert forall|d: Seq<Seq<char>>|
                #[trigger] node_has(res, d) <==> (node_has(n, d) || d == s) by {
                if d.len() == 0 {
                    assert(d =~= s);
                    assert(node_has(res, d));
                } else {
                    if node_has(res, d) {
                        let w = choose|w: int|
                            0 <= w < res.children@.len() && res.children@[w].0@ == d[0]
                                && node_has(#[trigger] res.children@[w].1, d.drop_first());
                        assert(n.children@[w].0@ == d[0] && node_has(
                            n.children@[w].1,
                            d.drop_first(),
                        ));
                        assert(node_has(n, d));
                    }
                    if node_has(n, d) {
                        let w = choose|w: int|
                            0 <= w < n.children@.len() && n.children@[w].0@ == d[0] && node_has(
                                #[trigger] n.children@[w].1,
                                d.drop_first(),
                            );
                        assert(res.children@[w].0@ == d[0] && node_has(
                            res.children@[w].1,
                            d.drop_first(),
                        ));
                        assert(node_has(res, d));
                    }
                }
            }
        }
        (res, !terminal)
    } else {
        let ghost s1 = views_from(labels@, i as int + 1);
        proof {
            assert(s.len() == labels@.len() - i);
            assert(s[0] == labels@[i as int]@);
            assert(s.drop_first() =~= s1);
        }
        let Node { terminal, mut children } = n;
        let found = find_child(&children, &labels[i]);
        match found {
            Some(j) => {
                let ghost c0 = children@;
                let (lab, child) = children.remove(j);
                let (child2, added) = node_insert(child, labels, i + 1);
                children.push((lab, child2));
                let res = Node { terminal, children };
                proof {
                    lemma_insert_replace(n, res, j as int, child2, s, s1);
                }
                (res, added)
            },
            None => {
                let fresh: Node = Node { terminal: false, children: Vec::new() };
                let ghost fresh0 = fresh;
                let (child2, _added) = node_insert(fresh, labels, i + 1);
                let lab = labels[i].clone();
                children.push((lab, child2));
                let res = Node { terminal, children };
                proof {
                    assert forall|d: Seq<Seq<char>>| !node_has(fresh0, d) by {}
                    lemma_insert_append(n, res, child2, s, s1);
                }
                (res, true)
            },
        }
    }
}

/// Two label sequences with the same head and the same tail are equal.
proof fn lemma_cons_eq(d: Seq<Seq<char>>, s: Seq<Seq<char>>)
    requires
        d.len() >= 1,
        s.len() >= 1,
        d[0] == s[0],
        d.drop_first() == s.drop_first(),
    ensures
        d == s,
{
    assert(d.drop_first().len() == d.len() - 1);
    assert(s.drop_first().len() == s.len() - 1);
    assert(d.len() == s.len());
    assert forall|k: int| 0 <= k < d.len() implies d[k] == s[k] by {
        if k > 0 {
            assert(d[k] == d.drop_first()[k - 1]);
            assert(s[k] == s.drop_first()[k - 1]);
        }
    }
    assert(d =~= s);
}

/// Replacing the child that carries `s[0]` by `child2` inserts `s` and
/// keeps everything else.
proof fn lemma_insert_replace(
    n: Node,
    res: Node,
    j: int,
    child2: Node,
    s: Seq<Seq<char>>,
    s1: Seq<Seq<char>>,
)
    requires
        node_wf(n),
        0 <= j < n.children@.len(),
        s.len() >= 1,
        s[0] == n.children@[j].0@,
        s1 == s.drop_first(),
        res.terminal == n.terminal,
        res.children@ == n.children@.remove(j).push((n.children@[j].0, child2)),
        node_wf(child2),
        forall|d: Seq<Seq<char>>|
            #[trigger] node_has(child2, d) <==> (node_has(n.children@[j].1, d) || d == s1),
    ensures
        node_wf(res),
        node_has(n, s) == node_has(n.children@[j].1, s1),
        forall|d: Seq<Seq<char>>| #[trigger] node_has(res, d) <==> (node_has(n, d) || d == s),
{
    let c0 = n.children@;
    let c1 = res.children@;
    let l = c0.len() as int;
    c0.remove_ensures(j);
    assert(c1.len() == l);
    assert(forall|k: int| 0 <= k < j ==> c1[k] == c0[k]);
    assert(forall|k: int| j <= k < l - 1 ==> c1[k] == c0[k + 1]);
    assert(c1[l - 1] == (c0[j].0, child2));

    // well-formedness of the result
    assert forall|a: int, b: int| 0 <= a < b < c1.len() implies (#[trigger] c1[a].0@) != (
    #[trigger] c1[b].0@) by {
        if b < l - 1 {
            // both are children of n at distinct indices
        } else {
            // c1[b].0 is c0[j].0, and c1[a].0 is some other child's label
            if a < j {
                assert(c1[a].0@ == c0[a].0@);
            } else {
                assert(c1[a].0@ == c0[a + 1].0@);
            }
        }
    }
    assert forall|a: int| 0 <= a < c1.len() implies node_wf(#[trigger] c1[a].1) by {
        if a < j {
            assert(c1[a].1 == c0[a].1);
        } else if a < l - 1 {
            assert(c1[a].1 == c0[a + 1].1);
        } else {
            assert(c1[a].1 == child2);
        }
    }

    // node_has(n, s) goes exactly through child j
    assert(node_has(n, s) == node_has(c0[j].1, s1)) by {
        if node_has(n, s) {
            let w = choose|w: int|
                0 <= w < c0.len() && c0[w].0@ == s[0] && node_has(#[trigger] c0[w].1, s.drop_first());
            assert(w == j);
        }
        if node_has(c0[j].1, s1) {
            assert(c0[j].0@ == s[0] && node_has(c0[j].1, s.drop_first()));
        }
    }

    assert forall|d: Seq<Seq<char>>| #[trigger] node_has(res, d) <==> (node_has(n, d) || d == s) by {
        if d.len() == 0 {
            assert(node_has(res, d) == res.terminal);
            assert(node_has(n, d) == n.terminal);
            assert(d.len() != s.len());
        } else {
            let d1 = d.drop_first();
            if node_has(res, d) {
                let w = choose|w: int|
                    0 <= w < c1.len() && c1[w].0@ == d[0] && node_has(#[trigger] c1[w].1, d.drop_first());
                if w < j {
                    assert(c0[w].0@ == d[0] && node_has(c0[w].1, d.drop_first()));
                    assert(node_has(n, d));
                } else if w < l - 1 {
                    assert(c0[w + 1].0@ == d[0] && node_has(c0[w + 1].1, d.drop_first()));
                    assert(node_has(n, d));
                } else {
                    assert(node_has(child2, d1));
                    if node_has(c0[j].1, d1) {
                        assert(c0[j].0@ == d[0] && node_has(c0[j].1, d.drop_first()));
                        assert(node_has(n, d));
                    } else {
                        assert(d1 == s1);
                        lemma_cons_eq(d, s);
                    }
                }
            }
            if node_has(n, d) {
                let w = choose|w: int|
                    0 <= w < c0.len() && c0[w].0@ == d[0] && node_has(#[trigger] c0[w].1, d.drop_first());
                if w == j {
                    assert(node_has(child2, d1));
                    assert(c1[l - 1].0@ == d[0] && node_has(c1[l - 1].1, d.drop_first()));
                    assert(node_has(res, d));
                } else if w < j {
                    assert(c1[w].0@ == d[0] && node_has(c1[w].1, d.drop_first()));
                    assert(node_has(res, d));
                } else {
                    assert(c1[w - 1].0@ == d[0] && node_has(c1[w - 1].1, d.drop_first()));
                    assert(node_has(res, d));
                }
            }
            if d == s {
                assert(node_has(child2, s1));
                assert(c1[l - 1].0@ == d[0] && node_has(c1[l - 1].1, d.drop_first()));
                assert(node_has(res, d));
            }
        }
    }
}

/// Appending a fresh chain that carries exactly `s` inserts `s` and keeps
/// everything else; no existing child carries `s[0]`.
proof fn lemma_insert_append(
    n: Node,
    res: Node,
    child2: Node,
    s: Seq<Seq<char>>,
    s1: Seq<Seq<char>>,
)
    requires
        node_wf(n),
        s.len() >= 1,
        s1 == s.drop_first(),
        forall|k: int| 0 <= k < n.children@.len() ==> (#[trigger] n.children@[k].0@) != s[0],
        res.terminal == n.terminal,
        res.children@.len() == n.children@.len() + 1,
        forall|k: int|
            0 <= k < n.children@.len() ==> #[trigger] res.children@[k] == n.children@[k],
        res.children@.last().0@ == s[0],
        res.children@.last().1 == child2,
        node_wf(child2),
        forall|d: Seq<Seq<char>>| #[trigger] node_has(child2, d) <==> d == s1,
    ensures
        node_wf(res),
        !node_has(n, s),
        forall|d: Seq<Seq<char>>| #[trigger] node_has(res, d) <==> (node_has(n, d) || d == s),
{
    let c0 = n.children@;
    let c1 = res.children@;
    let l = c0.len() as int;

    assert forall|a: int, b: int| 0 <= a < b < c1.len() implies (#[trigger] c1[a].0@) != (
    #[trigger] c1[b].0@) by {
        if b == l {
            assert(c1[a].0@ == c0[a].0@);
            assert(c1[b].0@ == s[0]);
        }
    }
    assert forall|a: int| 0 <= a < c1.len() implies node_wf(#[trigger] c1[a].1) by {
        if a < l {
            assert(c1[a].1 == c0[a].1);
        } else {
            assert(c1[a].1 == child2);
        }
    }

    assert(!node_has(n, s)) by {
        if node_has(n, s) {
            let w = choose|w: int|
                0 <= w < c0.len() && c0[w].0@ == s[0] && node_has(#[trigger] c0[w].1, s.drop_first());
            assert(false);
        }
    }

    assert forall|d: Seq<Seq<char>>| #[trigger] node_has(res, d) <==> (node_has(n, d) || d == s) by {
        if d.len() == 0 {
            assert(node_has(res, d) == res.terminal);
            assert(node_has(n, d) == n.terminal);
            assert(d.len() != s.len());
        } else {
            let d1 = d.drop_first();
            if node_has(res, d) {
                let w = choose|w: int|
                    0 <= w < c1.len() && c1[w].0@ == d[0] && node_has(#[trigger] c1[w].1, d.drop_first());
                if w < l {
                    assert(c0[w].0@ == d[0] && node_has(c0[w].1, d.drop_first()));
                    assert(node_has(n, d));
                } else {
                    assert(node_has(child2, d1));
                    assert(d1 == s1);
                    lemma_cons_eq(d, s);
                }
            }
            if node_has(n, d) {
                let w = choose|w: int|
                    0 <= w < c0.len() && c0[w].0@ == d[0] && node_has(#[trigger] c0[w].1, d.drop_first());
                assert(c1[w].0@ == d[0] && node_has(c1[w].1, d.drop_first()));
                assert(node_has(res, d));
            }
            if d == s {
                assert(node_has(child2, s1));
                assert(c1[l].0@ == d[0] && node_has(c1[l].1, d.drop_first()));
                assert(node_has(res, d));
            }
        }
    }
}

/// Walk the query labels `labels[i..]` below `n`.
fn node_query(n: &Node, labels: &Vec<String>, i: usize, include_subdomains: bool) -> (r: bool)
    requires
        node_wf(*n),
        i <= labels@.len(),
    ensures
        r == node_matches(*n, views_from(labels@, i as int), include_subdomains),
    decreases labels@.len() - i,
{
    let ghost s = views_from(labels@, i as int);
    if i == labels.len() {
        proof {
            assert(s =~= Seq::<Seq<char>>::empty());
        }
        n.terminal
    } else {
        proof {
            assert(s.len() == labels@.len() - i);
            assert(s[0] == labels@[i as int]@);
            assert(s.drop_first() =~= views_from(labels@, i as int + 1));
        }
        if include_subdomains && n.terminal {
            true
        } else {
            match find_child(&n.children, &labels[i]) {
                Some(j) => {
                    let r = node_query(&n.children[j].1, labels, i + 1, include_subdomains);
                    proof {
                        if r {
                            assert(n.children@[j as int].0@ == s[0] && node_matches(
                                n.children@[j as int].1,
                                s.drop_first(),
                                include_subdomains,
                            ));
                        } else {
                            if node_matches(*n, s, include_subdomains) {
                                let w = choose|w: int|
                                    0 <= w < n.children@.len() && n.children@[w].0@ == s[0]
                                        && node_matches(
                                        #[trigger] n.children@[w].1,
                                        s.drop_first(),
                                        include_subdomains,
                                    );
                                assert(n.children@[w].0@ == n.children@[j as int].0@);
                                assert(w == j);
                            }
                        }
                    }
                    r
                },
                None => {
                    proof {
                        if node_matches(*n, s, include_subdomains) {
                            let w = choose|w: int|
                                0 <= w < n.children@.len() && n.children@[w].0@ == s[0]
                                    && node_matches(
                                    #[trigger] n.children@[w].1,
                                    s.drop_first(),
                                    include_subdomains,
                                );
                            assert(false);
                        }
                    }
                    false
                },
            }
        }
    }
}

/// The walk semantics over a node decompose into exact membership plus,
/// when subdomains are included, membership of some strict prefix.
proof fn lemma_matches_decompose(n: Node, q: Seq<Seq<char>>, include_subdomains: bool)
    ensures
        node_matches(n, q, include_subdomains) <==> (node_has(n, q) || (include_subdomains
            && exists|k: int| 0 <= k < q.len() && node_has(n, #[trigger] q.subrange(0, k)))),
    decreases q.len(),
{
    if q.len() == 0 {
    } else {
        let q1 = q.drop_first();
        let c = n.children@;
        assert forall|i: int| 0 <= i < c.len() implies (node_matches(
            #[trigger] c[i].1,
            q1,
            include_subdomains,
        ) <==> (node_has(c[i].1, q1) || (include_subdomains && exists|k: int|
            0 <= k < q1.len() && node_has(c[i].1, #[trigger] q1.subrange(0, k))))) by {
            lemma_matches_decompose(c[i].1, q1, include_subdomains);
        }
        // left to right
        if node_matches(n, q, include_subdomains) {
            if include_subdomains && n.terminal {
                assert(q.subrange(0, 0) =~= Seq::<Seq<char>>::empty());
                assert(node_has(n, q.subrange(0, 0)));
            } else if exists|i: int|
                0 <= i < c.len() && c[i].0@ == q[0] && node_matches(
                    #[trigger] c[i].1,
                    q.drop_first(),
                    include_subdomains,
                ) {
                let i = choose|i: int|
                    0 <= i < c.len() && c[i].0@ == q[0] && node_matches(
                        #[trigger] c[i].1,
                        q.drop_first(),
                        include_subdomains,
                    );
                if node_has(c[i].1, q1) {
                    assert(node_has(n, q));
                } else {
                    let k = choose|k: int|
                        0 <= k < q1.len() && node_has(c[i].1, #[trigger] q1.subrange(0, k));
                    let p = q.subrange(0, k + 1);
                    assert(p[0] == q[0]);
                    assert(p.drop_first() =~= q1.subrange(0, k));
                    assert(c[i].0@ == p[0] && node_has(c[i].1, p.drop_first()));
                    assert(node_has(n, p));
                }
            }
        }
        // right to left
        if node_has(n, q) {
            let i = choose|i: int|
                0 <= i < c.len() && c[i].0@ == q[0] && node_has(#[trigger] c[i].1, q.drop_first());
            assert(node_matches(c[i].1, q1, include_subdomains));
            assert(node_matches(n, q, include_subdomains));
        }
        if include_subdomains && exists|k: int|
            0 <= k < q.len() && node_has(n, #[trigger] q.subrange(0, k)) {
            let k = choose|k: int| 0 <= k < q.len() && node_has(n, #[trigger] q.subrange(0, k));
            let p = q.subrange(0, k);
            if k == 0 {
                assert(p =~= Seq::<Seq<char>>::empty());
                assert(n.terminal);
            } else {
                let i = choose|i: int|
                    0 <= i < c.len() && c[i].0@ == p[0] && node_has(#[trigger] c[i].1, p.drop_first());
                assert(p.drop_first() =~= q1.subrange(0, k - 1));
                assert(node_has(c[i].1, q1.subrange(0, k - 1)));
                assert(node_matches(c[i].1, q1, include_subdomains));
                assert(c[i].0@ == q[0]);
                assert(node_matches(n, q, include_subdomains));
            }
        }
    }
}

/// Reclaim overallocated storage below `n`, changing nothing observable.
fn node_shrink(n: Node) -> (res: Node)
    requires
        node_wf(n),
    ensures
        node_wf(res),
        res.terminal == n.terminal,
        forall|d: Seq<Seq<char>>| #[trigger] node_has(res, d) == node_has(n, d),
    decreases n,
{
    let Node { terminal, mut children } = n;
    let mut out: Vec<(String, Node)> = Vec::new();
    let ghost c0 = n.children@;
    while children.len() > 0
        invariant
            node_wf(n),
            out@.len() + children@.len() == c0.len(),
            c0 == n.children@,
            children@ == c0.subrange(out@.len() as int, c0.len() as int),
            forall|j: int| 0 <= j < out@.len() ==> (#[trigger] out@[j].0)@ == c0[j].0@,
            forall|j: int| 0 <= j < out@.len() ==> node_wf(#[trigger] out@[j].1),
            forall|j: int, d: Seq<Seq<char>>|
                0 <= j < out@.len() ==> ((#[trigger] node_has(out@[j].1, d)) == node_has(
                    c0[j].1,
                    d,
                )),
        decreases children@.len(),
    {
        let ghost done = out@.len() as int;
        let (lab, ch) = children.remove(0);
        proof {
            assert(ch == c0[done].1);
            assert(children@ =~= c0.subrange(done + 1, c0.len() as int));
        }
        let ch2 = node_shrink(ch);
        out.push((lab, ch2));
    }
    vec_shrink(&mut out);
    let res = Node { terminal, children: out };
    proof {
        assert forall|d: Seq<Seq<char>>| #[trigger] node_has(res, d) == node_has(n, d) by {
            if d.len() > 0 {
                if node_has(res, d) {
                    let w = choose|w: int|
                        0 <= w < res.children@.len() && res.children@[w].0@ == d[0] && node_has(
                            #[trigger] res.children@[w].1,
                            d.drop_first(),
                        );
                    assert(c0[w].0@ == d[0] && node_has(c0[w].1, d.drop_first()));
                    assert(node_has(n, d));
                }
                if node_has(n, d) {
                    let w = choose|w: int|
                        0 <= w < c0.len() && c0[w].0@ == d[0] && node_has(
                            #[trigger] c0[w].1,
                            d.drop_first(),
                        );
                    assert(res.children@[w].0@ == d[0] && node_has(
                        res.children@[w].1,
                        d.drop_first(),
                    ));
                    assert(node_has(res, d));
                }
            }
        }
        assert forall|a: int, b: int| 0 <= a < b < res.children@.len() implies (
        #[trigger] res.children@[a].0@) != (#[trigger] res.children@[b].0@) by {
            assert(res.children@[a].0@ == c0[a].0@);
            assert(res.children@[b].0@ == c0[b].0@);
        }
    }
    res
}

} // verus!

//! The path navigator: resolve one descendant, or collect all descendants,
//! by a slash-separated path of element names. Matching is by local tag
//! name only; single resolution takes the first matching child at every
//! segment.
use vstd::prelude::*;
use crate::text::{split_char, split_spec};
use crate::xml_tree::{idx_ints, NodeView, XmlTree};

verus! {

/// Whether index `c` names a node of `t` whose tag is `seg`.
pub open spec fn tag_matches(t: Seq<NodeView>, c: int, seg: Seq<char>) -> bool {
    0 <= c < t.len() && t[c].tag == seg
}

/// The elements of `cs` whose tag is `seg`, kept in order.
pub open spec fn matching_from(t: Seq<NodeView>, cs: Seq<int>, seg: Seq<char>) -> Seq<int>
    decreases cs.len(),
{
    if cs.len() == 0 {
        Seq::empty()
    } else if tag_matches(t, cs[0], seg) {
        seq![cs[0]] + matching_from(t, cs.drop_first(), seg)
    } else {
        matching_from(t, cs.drop_first(), seg)
    }
}

/// The first element of `cs` whose tag is `seg`.
pub open spec fn first_match_from(t: Seq<NodeView>, cs: Seq<int>, seg: Seq<char>) -> Option<int>
    decreases cs.len(),
{
    if cs.len() == 0 {
        None
    } else if tag_matches(t, cs[0], seg) {
        Some(cs[0])
    } else {
        first_match_from(t, cs.drop_first(), seg)
    }
}

/// The children of `n` with tag `seg`, in document order.
pub open spec fn matching_children(t: Seq<NodeView>, n: int, seg: Seq<char>) -> Seq<int> {
    if 0 <= n < t.len() {
        matching_from(t, t[n].children, seg)
    } else {
        Seq::empty()
    }
}

/// The first child of `n` with tag `seg`.
pub open spec fn first_child_match(t: Seq<NodeView>, n: int, seg: Seq<char>) -> Option<int> {
    if 0 <= n < t.len() {
        first_match_from(t, t[n].children, seg)
    } else {
        None
    }
}

/// Single resolution: at each segment the first matching child; absent as
/// soon as one segment has no match.
pub open spec fn find_from(t: Seq<NodeView>, n: int, segs: Seq<Seq<char>>) -> Option<int>
    decreases segs.len(),
{
    if segs.len() == 0 {
        Some(n)
    } else {
        match first_child_match(t, n, segs[0]) {
            None => None,
            Some(m) => find_from(t, m, segs.drop_first()),
        }
    }
}

/// `find` by a slash-separated path.
pub open spec fn find_path(t: Seq<NodeView>, n: int, path: Seq<char>) -> Option<int> {
    find_from(t, n, split_spec(path, '/'))
}

/// All matches of one segment across one level of nodes, in document order.
pub open spec fn level_matches(t: Seq<NodeView>, ns: Seq<int>, seg: Seq<char>) -> Seq<int>
    decreases ns.len(),
{
    if ns.len() == 0 {
        Seq::empty()
    } else {
        matching_children(t, ns[0], seg) + level_matches(t, ns.drop_first(), seg)
    }
}

/// Collection: every matching child of every node kept so far, level by
/// level.
pub open spec fn filter_from(t: Seq<NodeView>, ns: Seq<int>, segs: Seq<Seq<char>>) -> Seq<int>
    decreases segs.len(),
{
    if segs.len() == 0 {
        ns
    } else {
        filter_from(t, level_matches(t, ns, segs[0]), segs.drop_first())
    }
}

/// `filter` by a slash-separated path.
pub open spec fn filter_path(t: Seq<NodeView>, n: int, path: Seq<char>) -> Seq<int> {
    filter_from(t, seq![n], split_spec(path, '/'))
}

/// The text of the node a path resolves to, when both exist.
pub open spec fn text_at(t: Seq<NodeView>, n: int, path: Seq<char>) -> Option<Seq<char>> {
    match find_path(t, n, path) {
        None => None,
        Some(m) => if 0 <= m < t.len() {
            t[m].text
        } else {
            None
        },
    }
}

/// The first attribute of `attrs` named `name`.
pub open spec fn attr_from(attrs: Seq<(Seq<char>, Seq<char>)>, name: Seq<char>) -> Option<
    Seq<char>,
>
    decreases attrs.len(),
{
    if attrs.len() == 0 {
        None
    } else if attrs[0].0 == name {
        Some(attrs[0].1)
    } else {
        attr_from(attrs.drop_first(), name)
    }
}

/// The value of attribute `name` on the node a path resolves to.
pub open spec fn attr_at(t: Seq<NodeView>, n: int, path: Seq<char>, name: Seq<char>) -> Option<
    Seq<char>,
> {
    match find_path(t, n, path) {
        None => None,
        Some(m) => if 0 <= m < t.len() {
            attr_from(t[m].attrs, name)
        } else {
            None
        },
    }
}

impl XmlTree {
    fn first_child_with(&self, n: usize, seg: &String) -> (r: Option<usize>)
        requires
            self.wf(),
            n < self@.len(),
        ensures
            match r {
                Some(c) => first_child_match(self@, n as int, seg@) == Some(c as int) && (n as int)
                    < c < self@.len(),
                None => first_child_match(self@, n as int, seg@) is None,
            },
    {
        let ghost cs = self@[n as int].children;
        let m = self.nodes[n].children.len();
        proof {
            assert(cs == idx_ints(self.nodes@[n as int].children@));
        }
        let mut j: usize = 0;
        proof {
            assert(cs.skip(0) =~= cs);
        }
        while j < m
            invariant
                j <= m,
                self.wf(),
                n < self@.len(),
                m == self.nodes@[n as int].children@.len(),
                cs == self@[n as int].children,
                cs == idx_ints(self.nodes@[n as int].children@),
                first_match_from(self@, cs, seg@) == first_match_from(
                    self@,
                    cs.skip(j as int),
                    seg@,
                ),
            decreases m - j,
        {
            let c = self.nodes[n].children[j];
            proof {
                assert(cs[j as int] == c as int);
                assert(cs.skip(j as int)[0] == c as int);
                assert((n as int) < cs[j as int] < self@.len());
            }
            if self.nodes[c].tag == *seg {
                proof {
                    assert(self@[c as int].tag == self.nodes@[c as int].tag@);
                    assert(tag_matches(self@, c as int, seg@));
                }
                return Some(c);
            }
            proof {
                assert(!tag_matches(self@, c as int, seg@));
                assert(cs.skip(j as int).drop_first() =~= cs.skip(j + 1));
            }
            j = j + 1;
        }
        proof {
            assert(cs.skip(m as int) =~= Seq::<int>::empty());
        }
        None
    }

    /// Resolves a slash-separated path from `node`, taking at every segment
    /// the first child with that element name; `None` as soon as a segment
    /// has no match.
    pub fn find(&self, node: usize, path: &str) -> (r: Option<usize>)
        requires
            self.wf(),
            node < self@.len(),
        ensures
            match r {
                Some(m) => find_path(self@, node as int, path@) == Some(m as int) && m
                    < self@.len(),
                None => find_path(self@, node as int, path@) is None,
            },
    {
        let segs = split_char(path, '/');
        let ghost sv = split_spec(path@, '/');
        let mut cur = node;
        let mut k: usize = 0;
        proof {
            assert(sv.skip(0) =~= sv);
        }
        while k < segs.len()
            invariant
                self.wf(),
                k <= segs@.len(),
                cur < self@.len(),
                node < self@.len(),
                sv == split_spec(path@, '/'),
                segs.deep_view() == sv,
                find_from(self@, node as int, sv) == find_from(
                    self@,
                    cur as int,
                    sv.skip(k as int),
                ),
            decreases segs@.len() - k,
        {
            proof {
                assert(segs@[k as int]@ == sv[k as int]);
                assert(sv.skip(k as int)[0] == sv[k as int]);
                assert(sv.skip(k as int).drop_first() =~= sv.skip(k + 1));
            }
            match self.first_child_with(cur, &segs[k]) {
                None => {
                    proof {
                        assert(first_child_match(self@, cur as int, sv[k as int]) is None);
                        assert(sv.skip(k as int).len() > 0);
                        assert(find_from(self@, cur as int, sv.skip(k as int)) is None);
                    }
                    return None;
                },
                Some(c) => {
                    cur = c;
                },
            }
            k = k + 1;
        }
        proof {
            assert(sv.skip(segs@.len() as int) =~= Seq::<Seq<char>>::empty());
        }
        Some(cur)
    }

    /// Collects every node a slash-separated path reaches from `node`:
    /// at each segment every matching child of every node kept so far, in
    /// document order.
    pub fn filter(&self, node: usize, path: &str) -> (r: Vec<usize>)
        requires
            self.wf(),
            node < self@.len(),
        ensures
            idx_ints(r@) == filter_path(self@, node as int, path@),
            forall|q: int| 0 <= q < r@.len() ==> (#[trigger] r@[q]) < self@.len(),
    {
        let segs = split_char(path, '/');
        let ghost sv = split_spec(path@, '/');
        let mut level: Vec<usize> = Vec::new();
        level.push(node);
        let mut k: usize = 0;
        proof {
            assert(idx_ints(level@) =~= seq![node as int]);
            assert(sv.skip(0) =~= sv);
        }
        while k < segs.len()
            invariant
                self.wf(),
                k <= segs@.len(),
                segs.deep_view() == sv,
                forall|q: int| 0 <= q < level@.len() ==> (#[trigger] level@[q]) < self@.len(),
                filter_from(self@, seq![node as int], sv) == filter_from(
                    self@,
                    idx_ints(level@),
                    sv.skip(k as int),
                ),
            decreases segs@.len() - k,
        {
            let ghost seg = sv[k as int];
            let ghost lv = idx_ints(level@);
            let mut next: Vec<usize> = Vec::new();
            let mut i: usize = 0;
            proof {
                assert(lv.skip(0) =~= lv);
                assert(idx_ints(next@) =~= Seq::<int>::empty());
                assert(Seq::<int>::empty() + level_matches(self@, lv, seg) =~= level_matches(
                    self@,
                    lv,
                    seg,
                ));
            }
            while i < level.len()
                invariant
                    self.wf(),
                    i <= level@.len(),
                    segs.deep_view() == sv,
                    k < segs@.len(),
                    seg == sv[k as int],
                    lv == idx_ints(level@),
                    forall|q: int| 0 <= q < level@.len() ==> (#[trigger] level@[q]) < self@.len(),
                    forall|q: int| 0 <= q < next@.len() ==> (#[trigger] next@[q]) < self@.len(),
                    level_matches(self@, lv, seg) == idx_ints(next@) + level_matches(
                        self@,
                        lv.skip(i as int),
                        seg,
                    ),
                decreases level@.len() - i,
            {
                let u = level[i];
                let ghost cs = self@[u as int].children;
                proof {
                    assert(lv.skip(i as int)[0] == u as int);
                    assert(lv.skip(i as int).drop_first() =~= lv.skip(i + 1));
                    assert(matching_children(self@, u as int, seg) == matching_from(
                        self@,
                        cs,
                        seg,
                    ));
                    assert(cs == idx_ints(self.nodes@[u as int].children@));
                    assert(idx_ints(next@) + matching_from(self@, cs.skip(0), seg) =~= idx_ints(
                        next@,
                    ) + matching_from(self@, cs, seg)) by {
                        assert(cs.skip(0) =~= cs);
                    }
                }
                let m = self.nodes[u].children.len();
                let mut j: usize = 0;
                while j < m
                    invariant
                        self.wf(),
                        j <= m,
                        u < self@.len(),
                        segs.deep_view() == sv,
                        k < segs@.len(),
                        seg == sv[k as int],
                        lv == idx_ints(level@),
                        i < level@.len(),
                        m == self.nodes@[u as int].children@.len(),
                        cs == self@[u as int].children,
                        cs == idx_ints(self.nodes@[u as int].children@),
                        forall|q: int| 0 <= q < next@.len() ==> (#[trigger] next@[q])
                            < self@.len(),
                        level_matches(self@, lv, seg) == (idx_ints(next@) + matching_from(
                            self@,
                            cs.skip(j as int),
                            seg,
                        )) + level_matches(self@, lv.skip(i + 1), seg),
                    decreases m - j,
                {
                    let c = self.nodes[u].children[j];
                    proof {
                        assert(cs[j as int] == c as int);
                        assert(cs.skip(j as int)[0] == c as int);
                        assert((u as int) < cs[j as int] < self@.len());
                        assert(cs.skip(j as int).drop_first() =~= cs.skip(j + 1));
                    }
                    proof {
                        assert(segs@[k as int]@ == seg);
                    }
                    if self.nodes[c].tag == segs[k] {
                        let ghost pre = next@;
                        next.push(c);
                        proof {
                            assert(tag_matches(self@, c as int, seg));
                            assert(idx_ints(next@) =~= idx_ints(pre) + seq![c as int]);
                            assert(matching_from(self@, cs.skip(j as int), seg) == seq![c as int]
                                + matching_from(self@, cs.skip(j + 1), seg));
                            assert((idx_ints(pre) + (seq![c as int] + matching_from(
                                self@,
                                cs.skip(j + 1),
                                seg,
                            ))) =~= ((idx_ints(pre) + seq![c as int]) + matching_from(
                                self@,
                                cs.skip(j + 1),
                                seg,
                            )));
                        }
                    } else {
                        proof {
                            assert(!tag_matches(self@, c as int, seg));
                        }
                    }
                    j = j + 1;
                }
                proof {
                    assert(cs.skip(m as int) =~= Seq::<int>::empty());
                    assert(matching_from(self@, Seq::<int>::empty(), seg) =~= Seq::<int>::empty());
                    assert(idx_ints(next@) + Seq::<int>::empty() =~= idx_ints(next@));
                }
                i = i + 1;
            }
            proof {
                assert(lv.skip(level@.len() as int) =~= Seq::<int>::empty());
                assert(idx_ints(next@) + level_matches(self@, Seq::<int>::empty(), seg) =~=
                    idx_ints(next@));
                assert(sv.skip(k as int)[0] == seg);
                assert(sv.skip(k as int).drop_first() =~= sv.skip(k + 1));
                assert(filter_from(self@, idx_ints(level@), sv.skip(k as int)) == filter_from(
                    self@,
                    idx_ints(next@),
                    sv.skip(k + 1),
                ));
            }
            level = next;
            k = k + 1;
        }
        proof {
            assert(sv.skip(segs@.len() as int) =~= Seq::<Seq<char>>::empty());
        }
        level
    }

    /// The trimmed-as-is text of the node a path resolves to, if any.
    pub fn find_text(&self, node: usize, path: &str) -> (r: Option<String>)
        requires
            self.wf(),
            node < self@.len(),
        ensures
            match r {
                Some(s) => text_at(self@, node as int, path@) == Some(s@),
                None => text_at(self@, node as int, path@) is None,
            },
    {
        match self.find(node, path) {
            None => None,
            Some(m) => match &self.nodes[m].text {
                Some(t) => Some(t.clone()),
                None => None,
            },
        }
    }

    /// The value of attribute `name` on the node a path resolves to.
    pub fn find_attr(&self, node: usize, path: &str, name: &str) -> (r: Option<String>)
        requires
            self.wf(),
            node < self@.len(),
        ensures
            match r {
                Some(s) => attr_at(self@, node as int, path@, name@) == Some(s@),
                None => attr_at(self@, node as int, path@, name@) is None,
            },
    {
        let m = match self.find(node, path) {
            None => {
                return None;
            },
            Some(m) => m,
        };
        let name_s = name.to_owned();
        let ghost av = self@[m as int].attrs;
        let cnt = self.nodes[m].attrs.len();
        let mut j: usize = 0;
        proof {
            assert(av.skip(0) =~= av);
        }
        while j < cnt
            invariant
                j <= cnt,
                m < self@.len(),
                node < self@.len(),
                find_path(self@, node as int, path@) == Some(m as int),
                cnt == self.nodes@[m as int].attrs@.len(),
                av == self@[m as int].attrs,
                name_s@ == name@,
                attr_from(av, name@) == attr_from(av.skip(j as int), name@),
            decreases cnt - j,
        {
            proof {
                assert(av[j as int] == (
                    self.nodes@[m as int].attrs@[j as int].0@,
                    self.nodes@[m as int].attrs@[j as int].1@,
                ));
                assert(av.skip(j as int)[0] == av[j as int]);
                assert(av.skip(j as int).drop_first() =~= av.skip(j + 1));
            }
            if self.nodes[m].attrs[j].0 == name_s {
                return Some(self.nodes[m].attrs[j].1.clone());
            }
            j = j + 1;
        }
        proof {
            assert(av.skip(cnt as int) =~= Seq::<(Seq<char>, Seq<char>)>::empty());
        }
        None
    }
}

/// A witness that `m` is the first match: it stands at `j` in the child
/// list, its tag matches, and no child before it matches.
pub open spec fn first_witness(
    t: Seq<NodeView>,
    cs: Seq<int>,
    seg: Seq<char>,
    j: int,
    m: int,
) -> bool {
    0 <= j < cs.len() && cs[j] == m && tag_matches(t, m, seg) && forall|j2: int|
        0 <= j2 < j ==> !tag_matches(t, #[trigger] cs[j2], seg)
}

/// Law: single resolution returns the first matching child, never a later
/// duplicate: whatever it returns stands at some position in the child
/// list before which no child's tag matches.
pub proof fn lemma_first_match_is_first(t: Seq<NodeView>, cs: Seq<int>, seg: Seq<char>, m: int)
    requires
        first_match_from(t, cs, seg) == Some(m),
    ensures
        exists|j: int| first_witness(t, cs, seg, j, m),
    decreases cs.len(),
{
    if cs.len() == 0 {
        assert(false);
    } else if tag_matches(t, cs[0], seg) {
        assert(first_witness(t, cs, seg, 0, m));
    } else {
        assert(first_match_from(t, cs.drop_first(), seg) == Some(m));
        lemma_first_match_is_first(t, cs.drop_first(), seg, m);
        let j0 = choose|j: int| first_witness(t, cs.drop_first(), seg, j, m);
        assert forall|j2: int| 0 <= j2 < j0 + 1 implies !tag_matches(
            t,
            #[trigger] cs[j2],
            seg,
        ) by {
            if j2 > 0 {
                assert(cs[j2] == cs.drop_first()[j2 - 1]);
            }
        }
        assert(cs[j0 + 1] == cs.drop_first()[j0]);
        assert(first_witness(t, cs, seg, j0 + 1, m));
    }
}

/// How many matching children each node of `ns` contributes.
pub open spec fn count_matches(t: Seq<NodeView>, ns: Seq<int>, seg: Seq<char>) -> int
    decreases ns.len(),
{
    if ns.len() == 0 {
        0
    } else {
        matching_children(t, ns[0], seg).len() + count_matches(t, ns.drop_first(), seg)
    }
}

proof fn lemma_level_len(t: Seq<NodeView>, ns: Seq<int>, seg: Seq<char>)
    ensures
        level_matches(t, ns, seg).len() == count_matches(t, ns, seg),
    decreases ns.len(),
{
    if ns.len() > 0 {
        lemma_level_len(t, ns.drop_first(), seg);
    }
}

/// Law: collecting by a two-segment path returns, in document order, the
/// concatenation over the first segment's matching children of their own
/// matching children; the count is therefore the per-child sum, whatever
/// other siblings interleave.
pub proof fn lemma_filter_two_segments(
    t: Seq<NodeView>,
    n: int,
    path: Seq<char>,
    a: Seq<char>,
    b: Seq<char>,
)
    requires
        split_spec(path, '/') == seq![a, b],
    ensures
        filter_path(t, n, path) == level_matches(t, matching_children(t, n, a), b),
        filter_path(t, n, path).len() == count_matches(t, matching_children(t, n, a), b),
{
    let segs = seq![a, b];
    assert(segs.drop_first() =~= seq![b]);
    assert(seq![b].drop_first() =~= Seq::<Seq<char>>::empty());
    assert(seq![n].drop_first() =~= Seq::<int>::empty());
    let first = level_matches(t, seq![n], a);
    assert(level_matches(t, Seq::<int>::empty(), a) =~= Seq::<int>::empty());
    assert(first =~= matching_children(t, n, a)) by {
        assert(seq![n][0] == n);
        assert(level_matches(t, seq![n].drop_first(), a) =~= Seq::<int>::empty());
        assert(matching_children(t, n, a) + Seq::<int>::empty() =~= matching_children(t, n, a));
    }
    assert(filter_from(t, seq![n], segs) == filter_from(
        t,
        level_matches(t, seq![n], a),
        seq![b],
    ));
    assert(filter_from(t, first, seq![b]) == filter_from(
        t,
        level_matches(t, first, b),
        Seq::<Seq<char>>::empty(),
    ));
    assert(filter_from(t, level_matches(t, first, b), Seq::<Seq<char>>::empty())
        == level_matches(t, first, b));
    lemma_level_len(t, first, b);
}

} // verus!

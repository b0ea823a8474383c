//! Locating the binding that an attribute path names.
use crate::tree::{
    csts_of, lemma_child_smaller, lemma_csts_index, size_of, text_of, Cst, Kind,
    Tree,
};
use crate::syntax::{parse, parsed};
use vstd::prelude::*;

verus! {

/// The segments of a dotted path, split at every `.`: `"a.b"` gives `["a", "b"]`.
/// There is always at least one segment.
pub open spec fn split_dots(s: Seq<char>) -> Seq<Seq<char>>
    decreases s.len(),
{
    if s.len() == 0 {
        seq![Seq::empty()]
    } else {
        let r = split_dots(s.drop_last());
        if s.last() == '.' {
            r.push(Seq::empty())
        } else {
            r.update(r.len() - 1, r.last().push(s.last()))
        }
    }
}

/// The segments joined with `.` between them.
pub open spec fn join_dots(segs: Seq<Seq<char>>) -> Seq<char>
    decreases segs.len(),
{
    if segs.len() == 0 {
        Seq::empty()
    } else if segs.len() == 1 {
        segs[0]
    } else {
        join_dots(segs.drop_last()) + seq!['.'] + segs.last()
    }
}

pub open spec fn views(v: Seq<String>) -> Seq<Seq<char>> {
    v.map_values(|s: String| s@)
}

/// Splits a dotted path into its segments.
pub fn split_path(s: &str) -> (r: Vec<String>)
    ensures
        views(r@) == split_dots(s@),
{
    let n = s.unicode_len();
    let mut r: Vec<String> = Vec::new();
    let mut start: usize = 0;
    let mut i: usize = 0;
    proof {
        assert(s@.subrange(0, 0) =~= Seq::<char>::empty());
        assert(views(r@).push(s@.subrange(0, 0)) =~= split_dots(Seq::<char>::empty()));
    }
    while i < n
        invariant
            n == s@.len(),
            start <= i <= n,
            views(r@).push(s@.subrange(start as int, i as int)) == split_dots(
                s@.subrange(0, i as int),
            ),
        decreases n - i,
    {
        let c = s.get_char(i);
        proof {
            assert(s@.subrange(0, i + 1).drop_last() =~= s@.subrange(0, i as int));
        }
        if c == '.' {
            let seg = s.substring_char(start, i).to_owned();
            r.push(seg);
            start = i + 1;
            proof {
                assert(s@.subrange(start as int, i + 1) =~= Seq::<char>::empty());
                assert(views(r@).push(s@.subrange(start as int, i + 1)) =~= split_dots(
                    s@.subrange(0, i + 1),
                ));
            }
        } else {
            proof {
                let sp = split_dots(s@.subrange(0, i as int));
                assert(s@.subrange(start as int, i + 1) =~= s@.subrange(start as int, i as int).push(c));
                assert(views(r@).push(s@.subrange(start as int, i + 1)) =~= sp.update(
                    sp.len() - 1,
                    sp.last().push(c),
                ));
            }
        }
        i += 1;
    }
    let seg = s.substring_char(start, n).to_owned();
    r.push(seg);
    proof {
        assert(s@.subrange(0, n as int) =~= s@);
        assert(views(r@) =~= split_dots(s@));
    }
    r
}

/// Whether an element is a node of kind `k`.
pub open spec fn kind_is(c: Cst, k: Kind) -> bool {
    c is Node && c->Node_0 == k
}

/// The children of an element; a leaf has none.
pub open spec fn kids(c: Cst) -> Seq<Cst> {
    match c {
        Cst::Node(_, cs) => cs,
        Cst::Leaf(_) => Seq::empty(),
    }
}

/// The texts of the identifier and string children, in order.
pub open spec fn key_parts(cs: Seq<Cst>) -> Seq<Seq<char>>
    decreases cs.len(),
{
    if cs.len() == 0 {
        Seq::empty()
    } else if kind_is(cs.last(), Kind::Ident) || kind_is(cs.last(), Kind::Str) {
        key_parts(cs.drop_last()).push(text_of(cs.last()))
    } else {
        key_parts(cs.drop_last())
    }
}

/// The segments of an attribute-path node.
pub open spec fn key_of(c: Cst) -> Seq<Seq<char>> {
    key_parts(kids(c))
}

/// The segments of an attribute-path node: the verbatim texts of its
/// identifier and string children, in order.
pub fn getkey(node: &Tree) -> (r: Vec<String>)
    ensures
        views(r@) == key_of(node@),
{
    let mut r: Vec<String> = Vec::new();
    match node {
        Tree::Token(_) => {
            proof {
                assert(views(r@) =~= Seq::<Seq<char>>::empty());
            }
        },
        Tree::Node(_, cs) => {
            let ghost cv = csts_of(cs@);
            proof {
                lemma_csts_index(cs@);
                assert(cv.subrange(0, 0) =~= Seq::<Cst>::empty());
                assert(views(r@) =~= Seq::<Seq<char>>::empty());
            }
            let mut i: usize = 0;
            while i < cs.len()
                invariant
                    cv == csts_of(cs@),
                    cv.len() == cs.len(),
                    forall|j: int| 0 <= j < cs.len() ==> #[trigger] cv[j] == cs@[j]@,
                    i <= cs.len(),
                    views(r@) == key_parts(cv.subrange(0, i as int)),
                decreases cs.len() - i,
            {
                proof {
                    assert(cv.subrange(0, i + 1).drop_last() =~= cv.subrange(0, i as int));
                    assert(cv.subrange(0, i + 1).last() == cs@[i as int]@);
                }
                match &cs[i] {
                    Tree::Node(k, _) => {
                        if *k == Kind::Ident || *k == Kind::Str {
                            let t = cs[i].to_text();
                            r.push(t);
                            proof {
                                assert(views(r@) =~= key_parts(cv.subrange(0, i + 1)));
                            }
                        }
                    },
                    Tree::Token(_) => {},
                }
                i += 1;
            }
            proof {
                assert(cv.subrange(0, i as int) =~= cv);
            }
        },
    }
    r
}

/// Index of the first element at or after `i` that is a node of kind `k`.
pub open spec fn first_of_kind(cs: Seq<Cst>, k: Kind, i: int) -> Option<usize>
    decreases cs.len() - i,
{
    if 0 <= i < cs.len() {
        if kind_is(cs[i], k) {
            Some(i as usize)
        } else {
            first_of_kind(cs, k, i + 1)
        }
    } else {
        None
    }
}

/// Path to the attribute set taken as the editing root below `c`: `c` itself
/// if it is one, else its first child that is one, else the first found by a
/// depth-first search through its children.
pub open spec fn cfgbase(c: Cst) -> Option<Seq<usize>>
    decreases c, 0int,
{
    match c {
        Cst::Node(k, cs) => if k == Kind::AttrSet {
            Some(Seq::empty())
        } else {
            match first_of_kind(cs, Kind::AttrSet, 0) {
                Some(i) => Some(seq![i]),
                None => base_below(cs, 0),
            }
        },
        Cst::Leaf(_) => None,
    }
}

/// The depth-first search of `cfgbase` through the children from `i` on.
pub open spec fn base_below(cs: Seq<Cst>, i: int) -> Option<Seq<usize>>
    decreases cs, cs.len() - i,
{
    if 0 <= i < cs.len() {
        match cfgbase(cs[i]) {
            Some(p) => Some(seq![i as usize] + p),
            None => base_below(cs, i + 1),
        }
    } else {
        None
    }
}

/// The element that a path of child indices leads to.
pub open spec fn at(c: Cst, p: Seq<usize>) -> Option<Cst>
    decreases p.len(),
{
    if p.len() == 0 {
        Some(c)
    } else {
        match c {
            Cst::Node(_, cs) => if p[0] < cs.len() {
                at(cs[p[0] as int], p.drop_first())
            } else {
                None
            },
            Cst::Leaf(_) => None,
        }
    }
}

pub open spec fn path_view(r: Option<Vec<usize>>) -> Option<Seq<usize>> {
    match r {
        Some(v) => Some(v@),
        None => None,
    }
}

/// The editing root below `node`, as a path of child indices from `node`.
pub fn getcfgbase(node: &Tree) -> (r: Option<Vec<usize>>)
    ensures
        path_view(r) == cfgbase(node@),
        r matches Some(p) ==> (at(node@, p@) matches Some(d) && kind_is(d, Kind::AttrSet)),
    decreases size_of(node@),
{
    match node {
        Tree::Token(_) => None,
        Tree::Node(k, cs) => {
            if *k == Kind::AttrSet {
                let e: Vec<usize> = Vec::new();
                proof {
                    assert(e@ =~= Seq::<usize>::empty());
                    assert(at(node@, e@) == Some(node@));
                }
                return Some(e);
            }
            let ghost cv = csts_of(cs@);
            proof {
                lemma_csts_index(cs@);
            }
            let mut i: usize = 0;
            while i < cs.len()
                invariant
                    *node == Tree::Node(*k, *cs),
                    *k != Kind::AttrSet,
                    cv == csts_of(cs@),
                    cv.len() == cs.len(),
                    forall|j: int| 0 <= j < cs.len() ==> #[trigger] cv[j] == cs@[j]@,
                    i <= cs.len(),
                    first_of_kind(cv, Kind::AttrSet, 0) == first_of_kind(cv, Kind::AttrSet, i as int),
                decreases cs.len() - i,
            {
                if let Tree::Node(ck, _) = &cs[i] {
                    if *ck == Kind::AttrSet {
                        let mut p: Vec<usize> = Vec::new();
                        p.push(i);
                        proof {
                            assert(p@ =~= seq![i]);
                            assert(cv[i as int] == cs@[i as int]@);
                            assert(kind_is(cv[i as int], Kind::AttrSet));
                            assert(node@ == Cst::Node(*k, cv));
                            assert(first_of_kind(cv, Kind::AttrSet, i as int) == Some(i));
                            assert(cfgbase(node@) == Some(seq![i]));
                            assert(p@.drop_first() =~= Seq::<usize>::empty());
                            assert(at(node@, p@) == at(cv[i as int], p@.drop_first()));
                        }
                        return Some(p);
                    }
                }
                i += 1;
            }
            let mut i: usize = 0;
            while i < cs.len()
                invariant
                    *node == Tree::Node(*k, *cs),
                    *k != Kind::AttrSet,
                    cv == csts_of(cs@),
                    cv.len() == cs.len(),
                    forall|j: int| 0 <= j < cs.len() ==> #[trigger] cv[j] == cs@[j]@,
                    i <= cs.len(),
                    first_of_kind(cv, Kind::AttrSet, 0) is None,
                    base_below(cv, 0) == base_below(cv, i as int),
                decreases cs.len() - i,
            {
                proof {
                    lemma_child_smaller(cv, i as int);
                }
                match getcfgbase(&cs[i]) {
                    Some(sub) => {
                        let mut p: Vec<usize> = Vec::new();
                        p.push(i);
                        let mut j: usize = 0;
                        while j < sub.len()
                            invariant
                                j <= sub.len(),
                                p@ == seq![i] + sub@.subrange(0, j as int),
                            decreases sub.len() - j,
                        {
                            p.push(sub[j]);
                            j += 1;
                            proof {
                                assert(p@ =~= seq![i] + sub@.subrange(0, j as int));
                            }
                        }
                        proof {
                            assert(sub@.subrange(0, j as int) =~= sub@);
                            assert(cv[i as int] == cs@[i as int]@);
                            assert(node@ == Cst::Node(*k, cv));
                            assert(base_below(cv, i as int) == Some(seq![i] + sub@));
                            assert(p@.drop_first() =~= sub@);
                            assert(at(node@, p@) == at(cv[i as int], p@.drop_first()));
                        }
                        return Some(p);
                    },
                    None => {},
                }
                i += 1;
            }
            None
        },
    }
}

/// The element that a path leads to from `t`.
pub fn subtree<'a>(t: &'a Tree, p: &Vec<usize>) -> (r: Option<&'a Tree>)
    ensures
        match r {
            Some(x) => at(t@, p@) == Some(x@),
            None => at(t@, p@) is None,
        },
{
    let mut cur: &Tree = t;
    let mut j: usize = 0;
    proof {
        assert(p@.skip(0) =~= p@);
    }
    while j < p.len()
        invariant
            j <= p.len(),
            at(t@, p@) == at(cur@, p@.skip(j as int)),
        decreases p.len() - j,
    {
        proof {
            assert(p@.skip(j as int).drop_first() =~= p@.skip(j + 1));
        }
        match cur {
            Tree::Node(_, cs) => {
                proof {
                    lemma_csts_index(cs@);
                }
                if p[j] < cs.len() {
                    cur = &cs[p[j]];
                } else {
                    return None;
                }
            },
            Tree::Token(_) => {
                return None;
            },
        }
        j += 1;
    }
    proof {
        assert(p@.skip(j as int) =~= Seq::<usize>::empty());
    }
    Some(cur)
}

/// Index of the first node at or after `i` (tokens are passed over).
pub open spec fn first_node(cs: Seq<Cst>, i: int) -> Option<usize>
    decreases cs.len() - i,
{
    if 0 <= i < cs.len() {
        if cs[i] is Node {
            Some(i as usize)
        } else {
            first_node(cs, i + 1)
        }
    } else {
        None
    }
}

/// Index of the last node before position `n`.
pub open spec fn last_node_before(cs: Seq<Cst>, n: int) -> Option<usize>
    decreases n,
{
    if 0 < n <= cs.len() {
        if cs[n - 1] is Node {
            Some((n - 1) as usize)
        } else {
            last_node_before(cs, n - 1)
        }
    } else {
        None
    }
}

/// Index of the first occurrence of `nd` in `h` at or after `j`.
pub open spec fn find_from(h: Seq<char>, nd: Seq<char>, j: int) -> Option<int>
    decreases h.len() + 1 - j,
{
    if 0 <= j && j + nd.len() <= h.len() {
        if h.subrange(j, j + nd.len()) == nd {
            Some(j)
        } else {
            find_from(h, nd, j + 1)
        }
    } else {
        None
    }
}

/// Index of the first child node of kind `k`.
pub fn index_of(cs: &Vec<Tree>, k: Kind) -> (r: Option<usize>)
    ensures
        r == first_of_kind(csts_of(cs@), k, 0),
{
    let ghost cv = csts_of(cs@);
    proof {
        lemma_csts_index(cs@);
    }
    let mut i: usize = 0;
    while i < cs.len()
        invariant
            cv == csts_of(cs@),
            cv.len() == cs.len(),
            forall|j: int| 0 <= j < cs.len() ==> #[trigger] cv[j] == cs@[j]@,
            i <= cs.len(),
            first_of_kind(cv, k, 0) == first_of_kind(cv, k, i as int),
        decreases cs.len() - i,
    {
        proof {
            assert(cv[i as int] == cs@[i as int]@);
        }
        if let Tree::Node(ck, _) = &cs[i] {
            if *ck == k {
                return Some(i);
            }
        }
        i += 1;
    }
    None
}

/// Index of the first child that is a node.
pub fn first_node_index(cs: &Vec<Tree>) -> (r: Option<usize>)
    ensures
        r == first_node(csts_of(cs@), 0),
        r matches Some(j) ==> j < cs.len(),
{
    let ghost cv = csts_of(cs@);
    proof {
        lemma_csts_index(cs@);
    }
    let mut i: usize = 0;
    while i < cs.len()
        invariant
            cv == csts_of(cs@),
            cv.len() == cs.len(),
            forall|j: int| 0 <= j < cs.len() ==> #[trigger] cv[j] == cs@[j]@,
            i <= cs.len(),
            first_node(cv, 0) == first_node(cv, i as int),
        decreases cs.len() - i,
    {
        proof {
            assert(cv[i as int] == cs@[i as int]@);
        }
        if let Tree::Node(_, _) = &cs[i] {
            return Some(i);
        }
        i += 1;
    }
    None
}

/// Index of the last child node before position `n`.
pub fn last_node_index(cs: &Vec<Tree>, n: usize) -> (r: Option<usize>)
    requires
        n <= cs.len(),
    ensures
        r == last_node_before(csts_of(cs@), n as int),
        r matches Some(j) ==> j < n,
{
    let ghost cv = csts_of(cs@);
    proof {
        lemma_csts_index(cs@);
    }
    let mut i: usize = n;
    while i > 0
        invariant
            cv == csts_of(cs@),
            cv.len() == cs.len(),
            forall|j: int| 0 <= j < cs.len() ==> #[trigger] cv[j] == cs@[j]@,
            i <= n <= cs.len(),
            last_node_before(cv, n as int) == last_node_before(cv, i as int),
        decreases i,
    {
        proof {
            assert(cv[i - 1] == cs@[i - 1]@);
        }
        if let Tree::Node(_, _) = &cs[i - 1] {
            return Some(i - 1);
        }
        i -= 1;
    }
    None
}

/// The first occurrence of `nd` in `h`, as `str::find` gives it, counted in characters.
pub fn find_text(h: &String, nd: &String) -> (r: Option<usize>)
    ensures
        match r {
            Some(j) => find_from(h@, nd@, 0) == Some(j as int) && j + nd@.len() <= h@.len(),
            None => find_from(h@, nd@, 0) is None,
        },
{
    let hl = h.as_str().unicode_len();
    let nl = nd.as_str().unicode_len();
    if nl > hl {
        return None;
    }
    let mut j: usize = 0;
    while j <= hl - nl
        invariant
            hl == h@.len(),
            nl == nd@.len(),
            nl <= hl,
            j <= hl - nl + 1,
            find_from(h@, nd@, 0) == find_from(h@, nd@, j as int),
        decreases hl - nl + 1 - j,
    {
        let piece = h.as_str().substring_char(j, j + nl).to_owned();
        if piece == *nd {
            return Some(j);
        }
        if j == hl - nl {
            proof {
                assert(find_from(h@, nd@, j + 1) is None);
            }
            return None;
        }
        j += 1;
    }
    None
}

/// An element reached by a path is no larger than the tree it lies in.
pub proof fn lemma_at_size(c: Cst, p: Seq<usize>)
    ensures
        at(c, p) matches Some(d) ==> size_of(d) <= size_of(c),
    decreases p.len(),
{
    if p.len() > 0 {
        if let Cst::Node(_, cs) = c {
            if p[0] < cs.len() {
                lemma_at_size(cs[p[0] as int], p.drop_first());
                lemma_child_smaller(cs, p[0] as int);
            }
        }
    }
}

/// Where a binding was found: at a path from the editing root, or in a
/// synthesized document (its tree, and the path within it).
pub enum Hit {
    At(Seq<usize>),
    Made(Cst, Seq<usize>),
}

/// State of a scan over the bindings of an attribute set: a binding found,
/// or the (key, value) pairs gathered so far.
pub enum Scan {
    Done(Hit),
    Pending(Seq<(Seq<char>, Seq<char>)>),
}

pub open spec fn lift(pre: Seq<usize>, h: Hit) -> Hit {
    match h {
        Hit::At(p) => Hit::At(pre + p),
        Hit::Made(t, p) => Hit::Made(t, p),
    }
}

/// The pair a member of a nested set contributes: its text up to the end of
/// (the first occurrence of) its second-to-last child node, and the text of
/// its last child node.
pub open spec fn member_pair(n: Cst) -> Option<(Seq<char>, Seq<char>)> {
    let cs = kids(n);
    match last_node_before(cs, cs.len() as int) {
        Some(lv) => match last_node_before(cs, lv as int) {
            Some(lk) => {
                let k = text_of(cs[lk as int]);
                match find_from(text_of(n), k, 0) {
                    Some(f) => Some((text_of(n).subrange(0, f + k.len()), text_of(cs[lv as int]))),
                    None => None,
                }
            },
            None => None,
        },
        None => None,
    }
}

/// The pairs of the member nodes of a nested set, in order.
pub open spec fn member_pairs(ms: Seq<Cst>) -> Seq<(Seq<char>, Seq<char>)>
    decreases ms.len(),
{
    if ms.len() == 0 {
        Seq::empty()
    } else if ms.last() is Node && member_pair(ms.last()) is Some {
        member_pairs(ms.drop_last()).push(member_pair(ms.last())->Some_0)
    } else {
        member_pairs(ms.drop_last())
    }
}

/// The first `n` children of `base` scanned for the query `q`.
pub open spec fn scan(base: Cst, q: Seq<Seq<char>>, n: int) -> Scan
    decreases size_of(base), n, 2int, 0int,
{
    if n <= 0 || n > kids(base).len() {
        Scan::Pending(Seq::empty())
    } else {
        match scan(base, q, n - 1) {
            Scan::Done(h) => Scan::Done(h),
            Scan::Pending(a) => if kind_is(kids(base)[n - 1], Kind::Binding) {
                scan_paths(base, q, n - 1, a, kids(kids(base)[n - 1]).len() as int)
            } else {
                Scan::Pending(a)
            },
        }
    }
}

/// The first `m` children of the binding at index `i` of `base` scanned
/// for attribute paths, starting from the pairs `acc`.
pub open spec fn scan_paths(
    base: Cst,
    q: Seq<Seq<char>>,
    i: int,
    acc: Seq<(Seq<char>, Seq<char>)>,
    m: int,
) -> Scan
    decreases size_of(base), i, 1int, m,
    via scan_paths_decreases
{
    if m <= 0 || !(0 <= i < kids(base).len()) || m > kids(kids(base)[i]).len() {
        Scan::Pending(acc)
    } else {
        match scan_paths(base, q, i, acc, m - 1) {
            Scan::Done(h) => Scan::Done(h),
            Scan::Pending(a) => {
                let b = kids(base)[i];
                let bs = kids(b);
                let ap = bs[m - 1];
                let key = key_of(ap);
                if !kind_is(ap, Kind::AttrPath) {
                    Scan::Pending(a)
                } else if key == q {
                    if first_of_kind(bs, Kind::AttrSet, 0) is Some {
                        match last_node_before(bs, bs.len() as int) {
                            Some(x) => if kind_is(bs[x as int], Kind::AttrSet) {
                                Scan::Pending(a + member_pairs(kids(bs[x as int])))
                            } else {
                                Scan::Pending(a)
                            },
                            None => Scan::Pending(a),
                        }
                    } else {
                        Scan::Done(Hit::At(seq![i as usize]))
                    }
                } else if q.len() > key.len() {
                    if key == q.subrange(0, key.len() as int) {
                        match cfgbase(b) {
                            Some(p) => match at(b, p) {
                                Some(sub) => match find(sub, q.skip(key.len() as int)) {
                                    Some(h) => Scan::Done(lift(seq![i as usize] + p, h)),
                                    None => Scan::Pending(a),
                                },
                                None => Scan::Pending(a),
                            },
                            None => Scan::Pending(a),
                        }
                    } else {
                        Scan::Pending(a)
                    }
                } else if q.len() < key.len() && q == key.subrange(0, q.len() as int) {
                    match last_node_before(bs, bs.len() as int) {
                        Some(x) => Scan::Pending(
                            a.push((join_dots(key.skip(q.len() as int)), text_of(bs[x as int]))),
                        ),
                        None => Scan::Pending(a),
                    }
                } else {
                    Scan::Pending(a)
                }
            },
        }
    }
}

#[via_fn]
proof fn scan_paths_decreases(
    base: Cst,
    q: Seq<Seq<char>>,
    i: int,
    acc: Seq<(Seq<char>, Seq<char>)>,
    m: int,
) {
    if 0 <= i < kids(base).len() {
        let b = kids(base)[i];
        if let Cst::Node(_, cs) = base {
            lemma_child_smaller(cs, i);
        }
        if let Some(p) = cfgbase(b) {
            lemma_at_size(b, p);
        }
    }
}

/// One line of a synthesized nested set.
pub open spec fn line(pr: (Seq<char>, Seq<char>)) -> Seq<char> {
    "  "@ + pr.0 + " = "@ + pr.1 + ";"@
}

/// The lines of a synthesized nested set, one per pair, joined by newlines.
pub open spec fn lines(acc: Seq<(Seq<char>, Seq<char>)>) -> Seq<char>
    decreases acc.len(),
{
    if acc.len() == 0 {
        Seq::empty()
    } else if acc.len() == 1 {
        line(acc[0])
    } else {
        lines(acc.drop_last()) + "\n"@ + line(acc.last())
    }
}

/// The document synthesized from gathered pairs: one pair renders on one
/// line, several as an indented block.
pub open spec fn fragment(q: Seq<Seq<char>>, acc: Seq<(Seq<char>, Seq<char>)>) -> Seq<char> {
    if acc.len() == 1 {
        "{"@ + join_dots(q) + " = { "@ + acc[0].0 + " = "@ + acc[0].1 + "; }; }"@
    } else {
        "{ "@ + join_dots(q) + " = {\n"@ + lines(acc) + "\n}; }"@
    }
}

/// The binding of the synthesized document, if its parse has the expected shape.
pub open spec fn synth(q: Seq<Seq<char>>, acc: Seq<(Seq<char>, Seq<char>)>) -> Option<Hit> {
    let t = parsed(fragment(q, acc));
    match first_node(kids(t), 0) {
        Some(x) => if kind_is(kids(t)[x as int], Kind::AttrSet) {
            let xs = kids(kids(t)[x as int]);
            match first_node(xs, 0) {
                Some(y) => if kind_is(xs[y as int], Kind::Binding) {
                    Some(Hit::Made(t, seq![x, y]))
                } else {
                    None
                },
                None => None,
            }
        } else {
            None
        },
        None => None,
    }
}

/// The binding that query `q` resolves to below the attribute set `base`.
pub open spec fn find(base: Cst, q: Seq<Seq<char>>) -> Option<Hit>
    decreases size_of(base), kids(base).len() + 1, 0int, 0int,
{
    match scan(base, q, kids(base).len() as int) {
        Scan::Done(h) => Some(h),
        Scan::Pending(acc) => if acc.len() == 0 {
            None
        } else {
            synth(q, acc)
        },
    }
}

/// A binding that a query resolved to: at a path of child indices from the
/// editing root, or inside a synthesized document (its tree, and the path
/// within it).
#[derive(Debug)]
pub enum Found {
    At(Vec<usize>),
    Made(Tree, Vec<usize>),
}

impl View for Found {
    type V = Hit;

    open spec fn view(&self) -> Hit {
        match self {
            Found::At(p) => Hit::At(p@),
            Found::Made(t, p) => Hit::Made(t@, p@),
        }
    }
}

pub open spec fn found_view(r: Option<Found>) -> Option<Hit> {
    match r {
        Some(f) => Some(f@),
        None => None,
    }
}

pub open spec fn pairs_view(v: Seq<(String, String)>) -> Seq<(Seq<char>, Seq<char>)> {
    v.map_values(|p: (String, String)| (p.0@, p.1@))
}

/// Whether `a` is a prefix of `b`, segment by segment.
pub(crate) fn segs_prefix(a: &Vec<String>, b: &Vec<String>) -> (r: bool)
    ensures
        r == (a.len() <= b.len() && views(a@) == views(b@).subrange(0, a.len() as int)),
{
    if a.len() > b.len() {
        return false;
    }
    let mut i: usize = 0;
    while i < a.len()
        invariant
            a.len() <= b.len(),
            i <= a.len(),
            views(a@).subrange(0, i as int) == views(b@).subrange(0, i as int),
        decreases a.len() - i,
    {
        if a[i] != b[i] {
            proof {
                assert(views(a@)[i as int] != views(b@).subrange(0, a.len() as int)[i as int]);
            }
            return false;
        }
        proof {
            assert(views(a@).subrange(0, i + 1) =~= views(b@).subrange(0, i + 1));
        }
        i += 1;
    }
    proof {
        assert(views(a@).subrange(0, i as int) =~= views(a@));
    }
    true
}

/// The segments of `v` from index `from` on.
fn segs_from(v: &Vec<String>, from: usize) -> (r: Vec<String>)
    requires
        from <= v.len(),
    ensures
        views(r@) == views(v@).skip(from as int),
{
    let mut r: Vec<String> = Vec::new();
    let mut i: usize = from;
    while i < v.len()
        invariant
            from <= i <= v.len(),
            r.len() == i - from,
            forall|j: int| 0 <= j < r.len() ==> #[trigger] r@[j]@ == v@[from + j]@,
        decreases v.len() - i,
    {
        r.push(v[i].clone());
        i += 1;
    }
    proof {
        assert(views(r@) =~= views(v@).skip(from as int));
    }
    r
}

/// The segments joined with dots.
fn join_segs(v: &Vec<String>) -> (r: String)
    ensures
        r@ == join_dots(views(v@)),
{
    let mut r = String::new();
    let mut i: usize = 0;
    while i < v.len()
        invariant
            i <= v.len(),
            r@ == join_dots(views(v@).subrange(0, i as int)),
        decreases v.len() - i,
    {
        proof {
            assert(views(v@).subrange(0, i + 1).drop_last() =~= views(v@).subrange(0, i as int));
        }
        if i > 0 {
            r.append(".");
            proof {
                reveal_strlit(".");
            }
        }
        r.append(v[i].as_str());
        proof {
            if i == 0 {
                assert(join_dots(views(v@).subrange(0, 0)) =~= Seq::<char>::empty());
            }
            assert(r@ =~= join_dots(views(v@).subrange(0, i + 1)));
        }
        i += 1;
    }
    proof {
        assert(views(v@).subrange(0, i as int) =~= views(v@));
    }
    r
}

/// The pair that a member of a nested set contributes, as `member_pair` says.
fn member_pair_exec(n: &Tree) -> (r: Option<(String, String)>)
    ensures
        match r {
            Some(pr) => member_pair(n@) == Some((pr.0@, pr.1@)),
            None => member_pair(n@) is None,
        },
{
    match n {
        Tree::Token(_) => None,
        Tree::Node(_, cs) => {
            proof {
                lemma_csts_index(cs@);
            }
            match last_node_index(cs, cs.len()) {
                None => None,
                Some(lv) => match last_node_index(cs, lv) {
                    None => None,
                    Some(lk) => {
                        let whole = n.to_text();
                        let k = cs[lk].to_text();
                        match find_text(&whole, &k) {
                            None => None,
                            Some(f) => {
                                let kl = k.as_str().unicode_len();
                                let wl = whole.as_str().unicode_len();
                                proof {
                                    assert(f + kl <= wl);
                                }
                                let key = whole.as_str().substring_char(0, f + kl).to_owned();
                                let v = cs[lv].to_text();
                                Some((key, v))
                            },
                        }
                    },
                },
            }
        },
    }
}

proof fn lemma_pairs_push(v: Seq<(String, String)>, pr: (String, String))
    ensures
        pairs_view(v.push(pr)) == pairs_view(v).push((pr.0@, pr.1@)),
{
    assert(pairs_view(v.push(pr)) =~= pairs_view(v).push((pr.0@, pr.1@)));
}

/// The pairs of the members of a nested set, as `member_pairs` says.
fn member_pairs_exec(x: &Tree) -> (r: Vec<(String, String)>)
    ensures
        pairs_view(r@) == member_pairs(kids(x@)),
{
    let mut r: Vec<(String, String)> = Vec::new();
    match x {
        Tree::Token(_) => {
            proof {
                assert(pairs_view(r@) =~= Seq::<(Seq<char>, Seq<char>)>::empty());
            }
        },
        Tree::Node(_, cs) => {
            let ghost cv = csts_of(cs@);
            proof {
                lemma_csts_index(cs@);
                assert(cv.subrange(0, 0) =~= Seq::<Cst>::empty());
                assert(pairs_view(r@) =~= Seq::<(Seq<char>, Seq<char>)>::empty());
            }
            let mut i: usize = 0;
            while i < cs.len()
                invariant
                    cv == csts_of(cs@),
                    cv.len() == cs.len(),
                    forall|j: int| 0 <= j < cs.len() ==> #[trigger] cv[j] == cs@[j]@,
                    i <= cs.len(),
                    pairs_view(r@) == member_pairs(cv.subrange(0, i as int)),
                decreases cs.len() - i,
            {
                proof {
                    assert(cv.subrange(0, i + 1).drop_last() =~= cv.subrange(0, i as int));
                    assert(cv.subrange(0, i + 1).last() == cs@[i as int]@);
                }
                if let Tree::Node(_, _) = &cs[i] {
                    match member_pair_exec(&cs[i]) {
                        Some(pr) => {
                            let ghost r0 = r@;
                            let ghost g = pr;
                            r.push(pr);
                            proof {
                                lemma_pairs_push(r0, g);
                            }
                        },
                        None => {},
                    }
                }
                i += 1;
            }
            proof {
                assert(cv.subrange(0, i as int) =~= cv);
            }
        },
    }
    r
}

/// The text of the document synthesized from gathered pairs.
fn fragment_exec(q: &Vec<String>, acc: &Vec<(String, String)>) -> (r: String)
    requires
        acc.len() >= 1,
    ensures
        r@ == fragment(views(q@), pairs_view(acc@)),
{
    let name = join_segs(q);
    let ghost pv = pairs_view(acc@);
    let mut r = String::new();
    if acc.len() == 1 {
        r.append("{");
        r.append(name.as_str());
        r.append(" = { ");
        r.append(acc[0].0.as_str());
        r.append(" = ");
        r.append(acc[0].1.as_str());
        r.append("; }; }");
        proof {
            assert(r@ =~= fragment(views(q@), pv));
        }
    } else {
        r.append("{ ");
        r.append(name.as_str());
        r.append(" = {\n");
        let ghost head = r@;
        let mut i: usize = 0;
        while i < acc.len()
            invariant
                pv == pairs_view(acc@),
                i <= acc.len(),
                r@ == head + lines(pv.subrange(0, i as int)),
            decreases acc.len() - i,
        {
            let ghost before = r@;
            if i > 0 {
                r.append("\n");
            }
            r.append("  ");
            r.append(acc[i].0.as_str());
            r.append(" = ");
            r.append(acc[i].1.as_str());
            r.append(";");
            proof {
                let sub = pv.subrange(0, i + 1);
                assert(sub.drop_last() =~= pv.subrange(0, i as int));
                assert(sub.last() == pv[i as int]);
                if i == 0 {
                    assert(lines(pv.subrange(0, 0)) =~= Seq::<char>::empty());
                    assert(r@ =~= head + lines(sub));
                } else {
                    assert(r@ =~= head + lines(sub));
                }
            }
            i += 1;
        }
        r.append("\n}; }");
        proof {
            assert(pv.subrange(0, i as int) =~= pv);
            assert(r@ =~= fragment(views(q@), pv));
        }
    }
    r
}

/// The binding of the synthesized document, as `synth` says.
fn synth_exec(q: &Vec<String>, acc: &Vec<(String, String)>) -> (r: Option<Found>)
    requires
        acc.len() >= 1,
    ensures
        found_view(r) == synth(views(q@), pairs_view(acc@)),
{
    let text = fragment_exec(q, acc);
    let t = parse(text.as_str());
    let mut hit: Option<(usize, usize)> = None;
    if let Tree::Node(_, cs) = &t {
        proof {
            lemma_csts_index(cs@);
        }
        if let Some(x) = first_node_index(cs) {
            if let Tree::Node(xk, xs) = &cs[x] {
                proof {
                    lemma_csts_index(xs@);
                }
                if *xk == Kind::AttrSet {
                    if let Some(y) = first_node_index(xs) {
                        if let Tree::Node(yk, _) = &xs[y] {
                            if *yk == Kind::Binding {
                                hit = Some((x, y));
                            }
                        }
                    }
                }
            }
        }
    }
    match hit {
        Some((x, y)) => {
            let mut p: Vec<usize> = Vec::new();
            p.push(x);
            p.push(y);
            proof {
                assert(p@ =~= seq![x, y]);
            }
            Some(Found::Made(t, p))
        },
        None => None,
    }
}

fn lift_exec(i: usize, p: &Vec<usize>, h: Found) -> (r: Found)
    ensures
        r@ == lift(seq![i] + p@, h@),
{
    match h {
        Found::At(rest) => {
            let mut out: Vec<usize> = Vec::new();
            out.push(i);
            let mut j: usize = 0;
            while j < p.len()
                invariant
                    j <= p.len(),
                    out@ == seq![i] + p@.subrange(0, j as int),
                decreases p.len() - j,
            {
                out.push(p[j]);
                j += 1;
                proof {
                    assert(out@ =~= seq![i] + p@.subrange(0, j as int));
                }
            }
            let mut j: usize = 0;
            proof {
                assert(p@.subrange(0, p.len() as int) =~= p@);
            }
            while j < rest.len()
                invariant
                    j <= rest.len(),
                    out@ == seq![i] + p@ + rest@.subrange(0, j as int),
                decreases rest.len() - j,
            {
                out.push(rest[j]);
                j += 1;
                proof {
                    assert(out@ =~= seq![i] + p@ + rest@.subrange(0, j as int));
                }
            }
            proof {
                assert(rest@.subrange(0, j as int) =~= rest@);
            }
            Found::At(out)
        },
        Found::Made(t, q) => Found::Made(t, q),
    }
}

proof fn lemma_paths_done(
    base: Cst,
    q: Seq<Seq<char>>,
    i: int,
    acc: Seq<(Seq<char>, Seq<char>)>,
    m: int,
    m2: int,
)
    requires
        scan_paths(base, q, i, acc, m) is Done,
        0 <= m <= m2,
        0 <= i < kids(base).len(),
        m2 <= kids(kids(base)[i]).len(),
    ensures
        scan_paths(base, q, i, acc, m2) == scan_paths(base, q, i, acc, m),
    decreases m2 - m,
{
    if m2 > m {
        lemma_paths_done(base, q, i, acc, m, m2 - 1);
    }
}

proof fn lemma_scan_done(base: Cst, q: Seq<Seq<char>>, n: int, n2: int)
    requires
        scan(base, q, n) is Done,
        0 <= n <= n2 <= kids(base).len(),
    ensures
        scan(base, q, n2) == scan(base, q, n),
    decreases n2 - n,
{
    if n2 > n {
        lemma_scan_done(base, q, n, n2 - 1);
    }
}

fn find_exec(base: &Tree, q: &Vec<String>) -> (r: Option<Found>)
    ensures
        found_view(r) == find(base@, views(q@)),
    decreases size_of(base@),
{
    let ghost qv = views(q@);
    match base {
        Tree::Token(_) => None,
        Tree::Node(bk0, cs) => {
            let ghost cv = csts_of(cs@);
            proof {
                lemma_csts_index(cs@);
            }
            let mut acc: Vec<(String, String)> = Vec::new();
            let mut i: usize = 0;
            proof {
                assert(pairs_view(acc@) =~= Seq::<(Seq<char>, Seq<char>)>::empty());
            }
            while i < cs.len()
                invariant
                    *base == Tree::Node(*bk0, *cs),
                    qv == views(q@),
                    cv == csts_of(cs@),
                    kids(base@) == cv,
                    cv.len() == cs.len(),
                    forall|j: int| 0 <= j < cs.len() ==> #[trigger] cv[j] == cs@[j]@,
                    i <= cs.len(),
                    scan(base@, qv, i as int) == Scan::Pending(pairs_view(acc@)),
                decreases cs.len() - i,
            {
                let ghost acc0 = pairs_view(acc@);
                if let Tree::Node(bk, bs) = &cs[i] {
                    if *bk == Kind::Binding {
                        let ghost bv = csts_of(bs@);
                        proof {
                            lemma_csts_index(bs@);
                            assert(cv[i as int] == cs@[i as int]@);
                            assert(kids(cv[i as int]) == bv);
                        }
                        let mut m: usize = 0;
                        while m < bs.len()
                            invariant
                                *base == Tree::Node(*bk0, *cs),
                                qv == views(q@),
                                cv == csts_of(cs@),
                                kids(base@) == cv,
                                cv.len() == cs.len(),
                                forall|j: int| 0 <= j < cs.len() ==> #[trigger] cv[j] == cs@[j]@,
                                i < cs.len(),
                                cs@[i as int] == Tree::Node(*bk, *bs),
                                *bk == Kind::Binding,
                                scan(base@, qv, i as int) == Scan::Pending(acc0),
                                bv == csts_of(bs@),
                                kids(cv[i as int]) == bv,
                                bv.len() == bs.len(),
                                forall|j: int| 0 <= j < bs.len() ==> #[trigger] bv[j] == bs@[j]@,
                                m <= bs.len(),
                                scan_paths(base@, qv, i as int, acc0, m as int) == Scan::Pending(
                                    pairs_view(acc@),
                                ),
                            decreases bs.len() - m,
                        {
                            let ghost a = pairs_view(acc@);
                            proof {
                                assert(bv[m as int] == bs@[m as int]@);
                            }
                            let is_path = match &bs[m] {
                                Tree::Node(ak, _) => *ak == Kind::AttrPath,
                                Tree::Token(_) => false,
                            };
                            if !is_path {
                                proof {
                                    assert(scan_paths(base@, qv, i as int, acc0, m + 1) == Scan::Pending(pairs_view(acc@)));
                                }
                                m += 1;
                                continue;
                            }
                            let key = getkey(&bs[m]);
                            let ghost kv = views(key@);
                            let kp = segs_prefix(&key, q);
                            if kp && key.len() == q.len() {
                                proof {
                                    assert(kv =~= qv);
                                }
                                if index_of(bs, Kind::AttrSet).is_none() {
                                    let mut p: Vec<usize> = Vec::new();
                                    p.push(i);
                                    proof {
                                        assert(p@ =~= seq![i]);
                                        assert(scan_paths(base@, qv, i as int, acc0, m + 1)
                                            == Scan::Done(Hit::At(seq![i])));
                                        assert(scan(base@, qv, i + 1) == scan_paths(
                                            base@,
                                            qv,
                                            i as int,
                                            acc0,
                                            bs.len() as int,
                                        ));
                                        lemma_paths_done(base@, qv, i as int, acc0, m + 1, bs.len() as int);
                                        lemma_scan_done(base@, qv, i + 1, cs.len() as int);
                                    }
                                    return Some(Found::At(p));
                                }
                                let lx = last_node_index(bs, bs.len());
                                let x_set = match lx {
                                    Some(x) => match &bs[x] {
                                        Tree::Node(xk, _) => *xk == Kind::AttrSet,
                                        Tree::Token(_) => false,
                                    },
                                    None => false,
                                };
                                if x_set {
                                    let x = lx.unwrap();
                                    proof {
                                        assert(bv[x as int] == bs@[x as int]@);
                                    }
                                    let more = member_pairs_exec(&bs[x]);
                                    let mut j: usize = 0;
                                    while j < more.len()
                                        invariant
                                            j <= more.len(),
                                            pairs_view(acc@) == a + pairs_view(more@).subrange(0, j as int),
                                        decreases more.len() - j,
                                    {
                                        let ghost r0 = acc@;
                                        let pr = (more[j].0.clone(), more[j].1.clone());
                                        let ghost g = pr;
                                        acc.push(pr);
                                        proof {
                                            lemma_pairs_push(r0, g);
                                            assert(pairs_view(acc@) =~= a + pairs_view(more@).subrange(0, j + 1));
                                        }
                                        j += 1;
                                    }
                                    proof {
                                        assert(pairs_view(more@).subrange(0, j as int) =~= pairs_view(more@));
                                    }
                                }
                                proof {
                                    assert(scan_paths(base@, qv, i as int, acc0, m + 1) == Scan::Pending(pairs_view(acc@)));
                                }
                            } else if q.len() > key.len() {
                                if kp {
                                    match getcfgbase(&cs[i]) {
                                        Some(p) => match subtree(&cs[i], &p) {
                                            Some(sub) => {
                                                proof {
                                                    lemma_at_size(cv[i as int], p@);
                                                    lemma_child_smaller(cv, i as int);
                                                }
                                                let rest = segs_from(q, key.len());
                                                match find_exec(sub, &rest) {
                                                    Some(h) => {
                                                        let r = lift_exec(i, &p, h);
                                                        proof {
                                                            assert(scan_paths(base@, qv, i as int, acc0, m + 1)
                                                                == Scan::Done(r@));
                                                            assert(scan(base@, qv, i + 1) == scan_paths(
                                                                base@,
                                                                qv,
                                                                i as int,
                                                                acc0,
                                                                bs.len() as int,
                                                            ));
                                                            lemma_paths_done(base@, qv, i as int, acc0, m + 1, bs.len() as int);
                                                            lemma_scan_done(base@, qv, i + 1, cs.len() as int);
                                                        }
                                                        return Some(r);
                                                    },
                                                    None => {},
                                                }
                                            },
                                            None => {},
                                        },
                                        None => {},
                                    }
                                }
                                proof {
                                    assert(scan_paths(base@, qv, i as int, acc0, m + 1) == Scan::Pending(pairs_view(acc@)));
                                }
                            } else if q.len() < key.len() && segs_prefix(q, &key) {
                                match last_node_index(bs, bs.len()) {
                                    Some(x) => {
                                        let rest = segs_from(&key, q.len());
                                        let k = join_segs(&rest);
                                        let v = bs[x].to_text();
                                        let ghost r0 = acc@;
                                        let ghost g = (k, v);
                                        acc.push((k, v));
                                        proof {
                                            lemma_pairs_push(r0, g);
                                            assert(bv[x as int] == bs@[x as int]@);
                                        }
                                    },
                                    None => {},
                                }
                                proof {
                                    assert(scan_paths(base@, qv, i as int, acc0, m + 1) == Scan::Pending(pairs_view(acc@)));
                                }
                            } else {
                                proof {
                                    if kv == qv {
                                        assert(qv.subrange(0, qv.len() as int) =~= qv);
                                    }
                                    assert(scan_paths(base@, qv, i as int, acc0, m + 1) == Scan::Pending(pairs_view(acc@)));
                                }
                            }
                            m += 1;
                        }
                    }
                }
                i += 1;
            }
            if acc.len() == 0 {
                None
            } else {
                synth_exec(q, &acc)
            }
        },
    }
}

/// The binding that the dotted path `name` names below the attribute set
/// `configbase`. Scans the bindings of `configbase` in order: an exact key
/// whose value is not an attribute set is found at once; a key that is a
/// prefix of the path continues the search in the value's attribute set;
/// the members of an exactly matching nested set, and bindings whose key
/// extends the path, are gathered and presented as a synthesized binding.
pub fn findattr(configbase: &Tree, name: &str) -> (r: Option<Found>)
    ensures
        found_view(r) == find(configbase@, split_dots(name@)),
{
    let q = split_path(name);
    find_exec(configbase, &q)
}

} // verus!

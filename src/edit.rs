//! The list that a path names: resolving it in a document, reading it, and
//! the tree surgery shared by the editing operations.
use crate::resolve::{
    at, cfgbase, find, findattr, getcfgbase, kids, kind_is, split_dots, subtree, views, Found,
    Hit,
};
use crate::syntax::{parse, parsed};
use crate::tree::{
    csts_of, inserted, lemma_child_smaller, lemma_csts_index, lemma_texts_update, size_of, splice,
    text_of, texts_of, Cst, Kind, Tree,
};
use vstd::prelude::*;

verus! {

/// Why a read failed.
#[derive(PartialEq, Eq, Structural, Clone, Copy, Debug)]
pub enum ReadError {
    /// No attribute set anywhere in the document.
    ParseError,
    /// The path resolves to no binding.
    NoAttr,
    /// The binding's value holds no list.
    ArrayError,
}

/// Why an edit failed.
#[derive(PartialEq, Eq, Structural, Clone, Copy, Debug)]
pub enum WriteError {
    /// No attribute set anywhere in the document.
    ParseError,
    /// The path resolves to no binding.
    NoAttr,
    /// The binding's value holds no list.
    ArrayError,
}

/// Index of the first node at or after `i` that is a `with` or a list.
pub open spec fn first_with_or_list(cs: Seq<Cst>, i: int) -> Option<usize>
    decreases cs.len() - i,
{
    if 0 <= i < cs.len() {
        if kind_is(cs[i], Kind::With) || kind_is(cs[i], Kind::List) {
            Some(i as usize)
        } else {
            first_with_or_list(cs, i + 1)
        }
    } else {
        None
    }
}

/// Path from `c` to the list that its value holds, looking through any
/// chain of `with` expressions.
pub open spec fn list_path(c: Cst) -> Option<Seq<usize>>
    decreases c,
{
    match c {
        Cst::Node(_, cs) => match first_with_or_list(cs, 0) {
            Some(j) => if j >= cs.len() {
                None
            } else if kind_is(cs[j as int], Kind::List) {
                Some(seq![j])
            } else {
                match list_path(cs[j as int]) {
                    Some(p) => Some(seq![j] + p),
                    None => None,
                }
            },
            None => None,
        },
        Cst::Leaf(_) => None,
    }
}

/// The texts of the nodes among `cs`, in order.
pub open spec fn node_texts(cs: Seq<Cst>) -> Seq<Seq<char>>
    decreases cs.len(),
{
    if cs.len() == 0 {
        Seq::empty()
    } else if cs.last() is Node {
        node_texts(cs.drop_last()).push(text_of(cs.last()))
    } else {
        node_texts(cs.drop_last())
    }
}

/// How a dotted path resolves in a document.
pub enum Resolution {
    /// The document has no attribute set.
    NoSet,
    /// The path resolves to no binding.
    Missing,
    /// The path resolves only to a binding synthesized from scattered or
    /// nested ones; its value is an attribute set, so it holds no list.
    Synthesized,
    /// The binding at this path of the document's tree.
    At(Seq<usize>),
}

/// How `q` resolves in document `f`.
pub open spec fn resolved(f: Seq<char>, q: Seq<Seq<char>>) -> Resolution {
    let doc = parsed(f);
    match cfgbase(doc) {
        Some(bp) => match at(doc, bp) {
            Some(base) => match find(base, q) {
                Some(Hit::At(p)) => Resolution::At(bp + p),
                Some(Hit::Made(_, _)) => Resolution::Synthesized,
                None => Resolution::Missing,
            },
            None => Resolution::NoSet,
        },
        None => Resolution::NoSet,
    }
}

/// The path of the list of the binding at `p` in `t`.
pub open spec fn list_at(t: Cst, p: Seq<usize>) -> Option<Seq<usize>> {
    match at(t, p) {
        Some(b) => match list_path(b) {
            Some(lp) => Some(p + lp),
            None => None,
        },
        None => None,
    }
}

/// What reading the list at `path` of document `f` gives.
pub open spec fn read_spec(f: Seq<char>, path: Seq<char>) -> Result<Seq<Seq<char>>, ReadError> {
    match resolved(f, split_dots(path)) {
        Resolution::NoSet => Err(ReadError::ParseError),
        Resolution::Missing => Err(ReadError::NoAttr),
        Resolution::Synthesized => Err(ReadError::ArrayError),
        Resolution::At(p) => match list_at(parsed(f), p) {
            Some(lp) => Ok(node_texts(kids(at(parsed(f), lp)->Some_0))),
            None => Err(ReadError::ArrayError),
        },
    }
}

/// Following two paths one after the other is following their concatenation.
pub proof fn lemma_at_concat(c: Cst, head: Seq<usize>, tail: Seq<usize>)
    requires
        at(c, head) is Some,
    ensures
        at(c, head + tail) == at(at(c, head)->Some_0, tail),
    decreases head.len(),
{
    if head.len() > 0 {
        assert((head + tail).drop_first() =~= head.drop_first() + tail);
        assert((head + tail)[0] == head[0]);
        if let Cst::Node(_, cs) = c {
            lemma_at_concat(cs[head[0] as int], head.drop_first(), tail);
        }
    } else {
        assert(head + tail =~= tail);
    }
}

/// The path to a binding's list leads to a list node.
pub proof fn lemma_list_path_at(c: Cst)
    ensures
        list_path(c) matches Some(lp) ==> at(c, lp) matches Some(l) && kind_is(l, Kind::List),
    decreases c,
{
    if let Cst::Node(_, cs) = c {
        if let Some(j) = first_with_or_list(cs, 0) {
            if j < cs.len() {
                if kind_is(cs[j as int], Kind::List) {
                    assert(seq![j].drop_first() =~= Seq::<usize>::empty());
                    assert(at(c, seq![j]) == at(cs[j as int], seq![j].drop_first()));
                } else {
                    lemma_list_path_at(cs[j as int]);
                    if let Some(p) = list_path(cs[j as int]) {
                        assert((seq![j] + p).drop_first() =~= p);
                        assert((seq![j] + p)[0] == j);
                        assert(at(c, seq![j] + p) == at(cs[j as int], p));
                    }
                }
            }
        }
    }
}

/// Path from `b` to the list its value holds, through any `with` expressions.
pub fn find_list(b: &Tree) -> (r: Option<Vec<usize>>)
    ensures
        match r {
            Some(v) => list_path(b@) == Some(v@),
            None => list_path(b@) is None,
        },
    decreases size_of(b@),
{
    match b {
        Tree::Token(_) => None,
        Tree::Node(k0, cs) => {
            let ghost cv = csts_of(cs@);
            proof {
                lemma_csts_index(cs@);
            }
            let mut i: usize = 0;
            while i < cs.len()
                invariant
                    b@ == Cst::Node(*k0, cv),
                    cv == csts_of(cs@),
                    cv.len() == cs.len(),
                    forall|j: int| 0 <= j < cs.len() ==> #[trigger] cv[j] == cs@[j]@,
                    i <= cs.len(),
                    first_with_or_list(cv, 0) == first_with_or_list(cv, i as int),
                decreases cs.len() - i,
            {
                proof {
                    assert(cv[i as int] == cs@[i as int]@);
                }
                if let Tree::Node(k, _) = &cs[i] {
                    if *k == Kind::List {
                        let mut p: Vec<usize> = Vec::new();
                        p.push(i);
                        proof {
                            assert(p@ =~= seq![i]);
                        }
                        return Some(p);
                    }
                    if *k == Kind::With {
                        proof {
                            lemma_child_smaller(cv, i as int);
                        }
                        match find_list(&cs[i]) {
                            Some(sub) => {
                                let mut p: Vec<usize> = Vec::new();
                                p.push(i);
                                let mut j: usize = 0;
                                while j < sub.len()
                                    invariant
                                        j <= sub.len(),
                                        p@ == seq![i] + sub@.subrange(0, j as int),
                                    decreases sub.len() - j,
                                {
                                    p.push(sub[j]);
                                    j += 1;
                                    proof {
                                        assert(p@ =~= seq![i] + sub@.subrange(0, j as int));
                                    }
                                }
                                proof {
                                    assert(sub@.subrange(0, j as int) =~= sub@);
                                }
                                return Some(p);
                            },
                            None => {
                                return None;
                            },
                        }
                    }
                }
                i += 1;
            }
            None
        },
    }
}

/// The texts of the node children of `l`, in order.
fn node_texts_exec(l: &Tree) -> (r: Vec<String>)
    ensures
        views(r@) == node_texts(kids(l@)),
{
    let mut r: Vec<String> = Vec::new();
    match l {
        Tree::Token(_) => {
            proof {
                assert(views(r@) =~= Seq::<Seq<char>>::empty());
            }
        },
        Tree::Node(_, cs) => {
            let ghost cv = csts_of(cs@);
            proof {
                lemma_csts_index(cs@);
                assert(cv.subrange(0, 0) =~= Seq::<Cst>::empty());
                assert(views(r@) =~= Seq::<Seq<char>>::empty());
            }
            let mut i: usize = 0;
            while i < cs.len()
                invariant
                    cv == csts_of(cs@),
                    cv.len() == cs.len(),
                    forall|j: int| 0 <= j < cs.len() ==> #[trigger] cv[j] == cs@[j]@,
                    i <= cs.len(),
                    views(r@) == node_texts(cv.subrange(0, i as int)),
                decreases cs.len() - i,
            {
                proof {
                    assert(cv.subrange(0, i + 1).drop_last() =~= cv.subrange(0, i as int));
                    assert(cv.subrange(0, i + 1).last() == cs@[i as int]@);
                }
                if let Tree::Node(_, _) = &cs[i] {
                    let t = cs[i].to_text();
                    r.push(t);
                    proof {
                        assert(views(r@) =~= node_texts(cv.subrange(0, i + 1)));
                    }
                }
                i += 1;
            }
            proof {
                assert(cv.subrange(0, i as int) =~= cv);
            }
        },
    }
    r
}

pub(crate) fn concat_paths(a: &Vec<usize>, b: &Vec<usize>) -> (r: Vec<usize>)
    ensures
        r@ == a@ + b@,
{
    let mut r: Vec<usize> = Vec::new();
    let mut i: usize = 0;
    while i < a.len()
        invariant
            i <= a.len(),
            r@ == a@.subrange(0, i as int),
        decreases a.len() - i,
    {
        r.push(a[i]);
        i += 1;
        proof {
            assert(r@ =~= a@.subrange(0, i as int));
        }
    }
    let mut j: usize = 0;
    while j < b.len()
        invariant
            i == a.len(),
            j <= b.len(),
            r@ == a@ + b@.subrange(0, j as int),
        decreases b.len() - j,
    {
        r.push(b[j]);
        j += 1;
        proof {
            assert(r@ =~= a@ + b@.subrange(0, j as int));
        }
    }
    proof {
        assert(b@.subrange(0, j as int) =~= b@);
    }
    r
}

fn read_list(t: &Tree, p: &Vec<usize>) -> (r: Result<Vec<String>, ReadError>)
    ensures
        match r {
            Ok(v) => list_at(t@, p@) matches Some(lp) && views(v@) == node_texts(
                kids(at(t@, lp)->Some_0),
            ),
            Err(e) => e == ReadError::ArrayError && list_at(t@, p@) is None,
        },
{
    let b = match subtree(t, p) {
        Some(b) => b,
        None => return Err(ReadError::ArrayError),
    };
    let lp = match find_list(b) {
        Some(lp) => lp,
        None => return Err(ReadError::ArrayError),
    };
    proof {
        lemma_list_path_at(b@);
        lemma_at_concat(t@, p@, lp@);
    }
    let l = match subtree(b, &lp) {
        Some(l) => l,
        None => return Err(ReadError::ArrayError),
    };
    Ok(node_texts_exec(l))
}

/// The verbatim texts of the elements of the list that the dotted `query`
/// names in document `f`, in source order. Any `with` expressions around the
/// list are looked through.
/// A path that resolves only to a binding synthesized from scattered ones
/// gives `ArrayError`: such a binding holds an attribute set.
pub fn getarrvals(f: &str, query: &str) -> (r: Result<Vec<String>, ReadError>)
    ensures
        match r {
            Ok(v) => read_spec(f@, query@) == Ok::<Seq<Seq<char>>, ReadError>(views(v@)),
            Err(e) => read_spec(f@, query@) == Err::<Seq<Seq<char>>, ReadError>(e),
        },
{
    let doc = parse(f);
    let bp = match getcfgbase(&doc) {
        Some(bp) => bp,
        None => return Err(ReadError::ParseError),
    };
    let base = match subtree(&doc, &bp) {
        Some(b) => b,
        None => return Err(ReadError::ParseError),
    };
    let found = match findattr(base, query) {
        Some(h) => h,
        None => return Err(ReadError::NoAttr),
    };
    match found {
        Found::At(p) => {
            let full = concat_paths(&bp, &p);
            read_list(&doc, &full)
        },
        Found::Made(_, _) => Err(ReadError::ArrayError),
    }
}

/// Whether an element is a token whose text holds a line break.
pub open spec fn breaks_line(c: Cst) -> bool {
    c is Leaf && c->Leaf_0.contains('\n')
}

/// `c` with the element at path `p` replaced by `new`.
pub open spec fn replace_at(c: Cst, p: Seq<usize>, new: Cst) -> Cst
    decreases p.len(),
{
    if p.len() == 0 {
        new
    } else {
        match c {
            Cst::Node(k, cs) => if p[0] < cs.len() {
                Cst::Node(k, cs.update(p[0] as int, replace_at(cs[p[0] as int], p.drop_first(), new)))
            } else {
                c
            },
            Cst::Leaf(_) => c,
        }
    }
}

/// A node with its children replaced.
pub open spec fn with_kids(c: Cst, cs: Seq<Cst>) -> Cst {
    match c {
        Cst::Node(k, _) => Cst::Node(k, cs),
        Cst::Leaf(_) => c,
    }
}

/// Replacing an element by itself changes nothing.
pub proof fn lemma_replace_same(c: Cst, p: Seq<usize>)
    requires
        at(c, p) is Some,
    ensures
        replace_at(c, p, at(c, p)->Some_0) == c,
    decreases p.len(),
{
    if p.len() > 0 {
        if let Cst::Node(k, cs) = c {
            lemma_replace_same(cs[p[0] as int], p.drop_first());
            assert(cs.update(p[0] as int, cs[p[0] as int]) =~= cs);
        }
    }
}

pub(crate) fn has_line_break(s: &String) -> (r: bool)
    ensures
        r == s@.contains('\n'),
{
    let n = s.as_str().unicode_len();
    let mut i: usize = 0;
    while i < n
        invariant
            n == s@.len(),
            i <= n,
            forall|j: int| 0 <= j < i ==> s@[j] != '\n',
        decreases n - i,
    {
        if s.as_str().get_char(i) == '\n' {
            return true;
        }
        i += 1;
    }
    false
}

pub(crate) fn breaks_line_exec(t: &Tree) -> (r: bool)
    ensures
        r == breaks_line(t@),
{
    match t {
        Tree::Token(s) => has_line_break(s),
        Tree::Node(_, _) => false,
    }
}

/// `t` with the element at path `p` (from index `from` on) replaced by `new`.
pub(crate) fn replace_path(t: &Tree, p: &Vec<usize>, from: usize, new: Tree) -> (r: Tree)
    requires
        from <= p.len(),
    ensures
        r@ == replace_at(t@, p@.skip(from as int), new@),
    decreases p.len() - from,
{
    if from == p.len() {
        return new;
    }
    proof {
        assert(p@.skip(from as int)[0] == p@[from as int]);
        assert(p@.skip(from as int).drop_first() =~= p@.skip(from + 1));
    }
    match t {
        Tree::Token(_) => t.copy(),
        Tree::Node(k, cs) => {
            let idx = p[from];
            proof {
                lemma_csts_index(cs@);
            }
            if idx >= cs.len() {
                return t.copy();
            }
            let sub = replace_path(&cs[idx], p, from + 1, new);
            let mut out: Vec<Tree> = Vec::new();
            let mut i: usize = 0;
            while i < cs.len()
                invariant
                    i <= cs.len(),
                    out.len() == i,
                    forall|j: int| 0 <= j < i ==> #[trigger] out@[j]@ == cs@[j]@,
                decreases cs.len() - i,
            {
                out.push(cs[i].copy());
                i += 1;
            }
            let ghost g = sub;
            let ghost before = out@;
            out.set(idx, sub);
            proof {
                lemma_csts_index(out@);
                lemma_csts_index(cs@);
                assert forall|j: int| 0 <= j < out.len() implies csts_of(out@)[j] == csts_of(
                    cs@,
                ).update(idx as int, g@)[j] by {
                    if j != idx {
                        assert(out@[j] == before[j]);
                        assert(before[j]@ == cs@[j]@);
                    } else {
                        assert(out@[j] == g);
                    }
                }
                assert(csts_of(out@) =~= csts_of(cs@).update(idx as int, g@));
            }
            Tree::Node(*k, out)
        },
    }
}

/// Where an edit below `p` inserts text into the element at `p`, it inserts
/// the same text into the whole tree.
pub proof fn lemma_replace_inserted(c: Cst, p: Seq<usize>, new: Cst, ins: Seq<char>)
    requires
        at(c, p) is Some,
        inserted(text_of(at(c, p)->Some_0), text_of(new), ins),
    ensures
        inserted(text_of(c), text_of(replace_at(c, p, new)), ins),
    decreases p.len(),
{
    if p.len() > 0 {
        if let Cst::Node(k, cs) = c {
            let i = p[0] as int;
            let sub = replace_at(cs[i], p.drop_first(), new);
            lemma_replace_inserted(cs[i], p.drop_first(), new, ins);
            lemma_texts_update(cs, i, sub);
            let k1 = choose|k1: int| 0 <= k1 <= text_of(cs[i]).len() && text_of(sub) == #[trigger] splice(
                text_of(cs[i]),
                k1,
                ins,
            );
            let a = texts_of(cs.subrange(0, i));
            let b = texts_of(cs.subrange(i + 1, cs.len() as int));
            let w = a.len() + k1;
            assert(texts_of(cs.update(i, sub)) =~= splice(texts_of(cs), w, ins));
            assert(text_of(replace_at(c, p, new)) == texts_of(cs.update(i, sub)));
        }
    } else {
        assert(at(c, p) == Some(c));
    }
}

} // verus!

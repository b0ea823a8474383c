//! The concrete syntax tree: every byte of the source is kept in a leaf.
use vstd::prelude::*;

verus! {

/// The node kinds that the editing logic tells apart.
#[derive(PartialEq, Eq, Structural, Clone, Copy, Debug)]
pub enum Kind {
    Root,
    AttrSet,
    Binding,
    AttrPath,
    Ident,
    Str,
    List,
    With,
    Other,
}

/// An element of the syntax tree: an interior node or a leaf token.
#[derive(Debug)]
pub enum Tree {
    Node(Kind, Vec<Tree>),
    Token(String),
}

/// Mathematical model of a `Tree`.
pub enum Cst {
    Node(Kind, Seq<Cst>),
    Leaf(Seq<char>),
}

pub open spec fn cst_of(t: Tree) -> Cst
    decreases t,
{
    match t {
        Tree::Node(k, cs) => Cst::Node(k, csts_of(cs@)),
        Tree::Token(s) => Cst::Leaf(s@),
    }
}

pub open spec fn csts_of(ts: Seq<Tree>) -> Seq<Cst>
    decreases ts,
{
    if ts.len() == 0 {
        Seq::empty()
    } else {
        csts_of(ts.subrange(0, ts.len() - 1)).push(cst_of(ts[ts.len() - 1]))
    }
}

impl View for Tree {
    type V = Cst;

    open spec fn view(&self) -> Cst {
        cst_of(*self)
    }
}

/// The source text covered by an element: its leaves, left to right.
pub open spec fn text_of(c: Cst) -> Seq<char>
    decreases c,
{
    match c {
        Cst::Node(_, cs) => texts_of(cs),
        Cst::Leaf(s) => s,
    }
}

/// The source text covered by a sequence of elements.
pub open spec fn texts_of(cs: Seq<Cst>) -> Seq<char>
    decreases cs,
{
    if cs.len() == 0 {
        Seq::empty()
    } else {
        texts_of(cs.subrange(0, cs.len() - 1)) + text_of(cs[cs.len() - 1])
    }
}


/// Number of elements in a tree, a measure for recursion.
pub open spec fn size_of(c: Cst) -> nat
    decreases c,
{
    match c {
        Cst::Node(_, cs) => 1 + sizes_of(cs),
        Cst::Leaf(_) => 1,
    }
}

pub open spec fn sizes_of(cs: Seq<Cst>) -> nat
    decreases cs,
{
    if cs.len() == 0 {
        0
    } else {
        sizes_of(cs.subrange(0, cs.len() - 1)) + size_of(cs[cs.len() - 1])
    }
}

/// A child is no larger than the sequence it stands in.
pub proof fn lemma_child_smaller(cs: Seq<Cst>, i: int)
    requires
        0 <= i < cs.len(),
    ensures
        size_of(cs[i]) <= sizes_of(cs),
    decreases cs.len(),
{
    if i < cs.len() - 1 {
        lemma_child_smaller(cs.subrange(0, cs.len() - 1), i);
    }
}

/// The model of a sequence of trees, element by element.
pub proof fn lemma_csts_index(ts: Seq<Tree>)
    ensures
        csts_of(ts).len() == ts.len(),
        forall|i: int| 0 <= i < ts.len() ==> #[trigger] csts_of(ts)[i] == cst_of(ts[i]),
    decreases ts.len(),
{
    if ts.len() > 0 {
        lemma_csts_index(ts.subrange(0, ts.len() - 1));
    }
}

/// The model of a sequence grows with the sequence.
pub proof fn lemma_csts_push(ts: Seq<Tree>, t: Tree)
    ensures
        csts_of(ts.push(t)) == csts_of(ts).push(cst_of(t)),
{
    assert(ts.push(t).subrange(0, ts.len() as int) =~= ts);
}

/// The model of a prefix is the prefix of the model.
pub proof fn lemma_csts_prefix(ts: Seq<Tree>, n: int)
    requires
        0 <= n <= ts.len(),
    ensures
        csts_of(ts.subrange(0, n)) == csts_of(ts).subrange(0, n),
{
    lemma_csts_index(ts);
    lemma_csts_index(ts.subrange(0, n));
    assert(csts_of(ts.subrange(0, n)) =~= csts_of(ts).subrange(0, n));
}

/// The text of a sequence grows by the text of an appended element.
pub proof fn lemma_texts_push(cs: Seq<Cst>, c: Cst)
    ensures
        texts_of(cs.push(c)) == texts_of(cs) + text_of(c),
{
    assert(cs.push(c).subrange(0, cs.len() as int) =~= cs);
}

/// `s` with `ins` inserted at position `k`.
pub open spec fn splice(s: Seq<char>, k: int, ins: Seq<char>) -> Seq<char> {
    s.subrange(0, k) + ins + s.subrange(k, s.len() as int)
}

/// Whether `after` is `before` with `ins` inserted at one position.
pub open spec fn inserted(before: Seq<char>, after: Seq<char>, ins: Seq<char>) -> bool {
    exists|k: int| 0 <= k <= before.len() && after == #[trigger] splice(before, k, ins)
}

/// The text of two sequences one after the other.
pub proof fn lemma_texts_concat(a: Seq<Cst>, b: Seq<Cst>)
    ensures
        texts_of(a + b) == texts_of(a) + texts_of(b),
    decreases b.len(),
{
    if b.len() == 0 {
        assert(a + b =~= a);
        assert(texts_of(a) + texts_of(b) =~= texts_of(a));
    } else {
        let b0 = b.subrange(0, b.len() - 1);
        lemma_texts_concat(a, b0);
        assert((a + b).subrange(0, (a + b).len() - 1) =~= a + b0);
        assert(texts_of(a) + texts_of(b) =~= texts_of(a) + texts_of(b0) + text_of(b[b.len() - 1]));
    }
}

proof fn lemma_texts_single(e: Cst)
    ensures
        texts_of(seq![e]) == text_of(e),
{
    assert(seq![e].subrange(0, 0) =~= Seq::<Cst>::empty());
    assert(texts_of(Seq::<Cst>::empty()) =~= Seq::<char>::empty());
    assert(seq![e][0] == e);
    assert(texts_of(seq![e]) =~= Seq::<char>::empty() + text_of(e));
}

/// Inserting an element into a sequence inserts its text at one position.
pub proof fn lemma_texts_insert(cs: Seq<Cst>, i: int, e: Cst)
    requires
        0 <= i <= cs.len(),
    ensures
        texts_of(cs.insert(i, e)) == splice(texts_of(cs), texts_of(cs.subrange(0, i)).len() as int, text_of(e)),
        texts_of(cs.subrange(0, i)).len() <= texts_of(cs).len(),
{
    let a = cs.subrange(0, i);
    let b = cs.subrange(i, cs.len() as int);
    assert(cs =~= a + b);
    assert(cs.insert(i, e) =~= a + seq![e] + b);
    lemma_texts_concat(a, b);
    lemma_texts_concat(a + seq![e], b);
    lemma_texts_concat(a, seq![e]);
    lemma_texts_single(e);
    let t = texts_of(cs);
    let n = texts_of(a).len() as int;
    assert(t.subrange(0, n) =~= texts_of(a));
    assert(t.subrange(n, t.len() as int) =~= texts_of(b));
}

/// Replacing the element at index `i` changes the text only where that
/// element's text stood.
pub proof fn lemma_texts_update(cs: Seq<Cst>, i: int, e: Cst)
    requires
        0 <= i < cs.len(),
    ensures
        texts_of(cs) == texts_of(cs.subrange(0, i)) + text_of(cs[i]) + texts_of(cs.subrange(i + 1, cs.len() as int)),
        texts_of(cs.update(i, e)) == texts_of(cs.subrange(0, i)) + text_of(e) + texts_of(cs.subrange(i + 1, cs.len() as int)),
{
    let a = cs.subrange(0, i);
    let b = cs.subrange(i + 1, cs.len() as int);
    assert(cs =~= a + seq![cs[i]] + b);
    assert(cs.update(i, e) =~= a + seq![e] + b);
    lemma_texts_concat(a + seq![cs[i]], b);
    lemma_texts_concat(a, seq![cs[i]]);
    lemma_texts_concat(a + seq![e], b);
    lemma_texts_concat(a, seq![e]);
    lemma_texts_single(e);
    lemma_texts_single(cs[i]);
}

impl Tree {
    /// The source text of this element.
    pub fn to_text(&self) -> (r: String)
        ensures
            r@ == text_of(self@),
        decreases size_of(self@),
    {
        match self {
            Tree::Token(s) => s.clone(),
            Tree::Node(k, cs) => {
                let mut out = String::new();
                let mut i: usize = 0;
                proof {
                    lemma_csts_index(cs@);
                }
                while i < cs.len()
                    invariant
                        *self == Tree::Node(*k, *cs),
                        i <= cs.len(),
                        csts_of(cs@).len() == cs.len(),
                        forall|j: int| 0 <= j < cs.len() ==> #[trigger] csts_of(cs@)[j] == cst_of(cs@[j]),
                        out@ == texts_of(csts_of(cs@).subrange(0, i as int)),
                    decreases cs.len() - i,
                {
                    proof {
                        lemma_child_smaller(csts_of(cs@), i as int);
                    }
                    let piece = cs[i].to_text();
                    proof {
                        let pre = csts_of(cs@).subrange(0, i as int);
                        lemma_texts_push(pre, cst_of(cs@[i as int]));
                        assert(csts_of(cs@).subrange(0, i + 1) =~= pre.push(cst_of(cs@[i as int])));
                    }
                    out.append(piece.as_str());
                    i += 1;
                }
                assert(csts_of(cs@).subrange(0, i as int) =~= csts_of(cs@));
                out
            }
        }
    }

    /// A deep copy of this element.
    pub fn copy(&self) -> (r: Tree)
        ensures
            r@ == self@,
        decreases size_of(self@),
    {
        match self {
            Tree::Token(s) => Tree::Token(s.clone()),
            Tree::Node(k, cs) => {
                let mut out: Vec<Tree> = Vec::new();
                let mut i: usize = 0;
                proof {
                    lemma_csts_index(cs@);
                }
                while i < cs.len()
                    invariant
                        *self == Tree::Node(*k, *cs),
                        csts_of(cs@).len() == cs.len(),
                        forall|j: int| 0 <= j < cs.len() ==> #[trigger] csts_of(cs@)[j] == cst_of(cs@[j]),
                        i <= cs.len(),
                        out.len() == i,
                        forall|j: int| 0 <= j < i ==> #[trigger] out@[j]@ == cs@[j]@,
                    decreases cs.len() - i,
                {
                    proof {
                        lemma_child_smaller(csts_of(cs@), i as int);
                    }
                    let c = cs[i].copy();
                    out.push(c);
                    i += 1;
                }
                proof {
                    lemma_csts_index(out@);
                    lemma_csts_index(cs@);
                    assert forall|j: int| 0 <= j < out.len() implies csts_of(out@)[j] == csts_of(
                        cs@,
                    )[j] by {
                        assert(out@[j]@ == cs@[j]@);
                    }
                    assert(csts_of(out@) =~= csts_of(cs@));
                }
                Tree::Node(*k, out)
            }
        }
    }
}

} // verus!

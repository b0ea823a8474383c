//! Building the syntax tree of a document from rnix's walk over its parse.
use crate::tree::{
    lemma_csts_index, lemma_csts_push, lemma_texts_push, text_of, texts_of, csts_of, Cst, Kind, Tree,
};
use vstd::prelude::*;

verus! {

/// One step of a preorder walk over a parsed document.
#[derive(Debug)]
pub enum Event {
    /// A node begins; it carries the name of the node's kind.
    Open(String),
    /// A token: its verbatim source text. Its end is a `Close` of its own.
    Text(String),
    /// The element begun last and not yet ended ends here.
    Close,
}

/// The walk rnix makes over its parse of a text.
pub uninterp spec fn walk_of(s: Seq<char>) -> Seq<Event>;

/// The source text that the tokens of a walk carry, in order.
pub open spec fn event_text(evs: Seq<Event>) -> Seq<char>
    decreases evs.len(),
{
    if evs.len() == 0 {
        Seq::empty()
    } else {
        event_text(evs.drop_last()) + match evs.last() {
            Event::Text(t) => t@,
            _ => Seq::empty(),
        }
    }
}

/// Relies on `rnix::Root::parse` and on rowan's `preorder_with_tokens`:
/// the parse keeps every token of the input, so the texts of the tokens,
/// in walk order, spell the input out.
#[verifier::external_body]
fn walk(s: &str) -> (r: Vec<Event>)
    ensures
        r@ == walk_of(s@),
        event_text(r@) == s@,
{
    rnix::Root::parse(s).syntax().preorder_with_tokens().map(|e| match e {
        rnix::WalkEvent::Enter(rnix::NodeOrToken::Node(n)) => Event::Open(format!("{:?}", n.kind())),
        rnix::WalkEvent::Enter(rnix::NodeOrToken::Token(t)) => Event::Text(t.text().to_string()),
        rnix::WalkEvent::Leave(_) => Event::Close,
    }).collect()
}

/// The kind that a node kind's name in rnix stands for.
pub open spec fn kind_named(name: Seq<char>) -> Kind {
    if name == "NODE_ROOT"@ {
        Kind::Root
    } else if name == "NODE_ATTR_SET"@ {
        Kind::AttrSet
    } else if name == "NODE_ATTRPATH_VALUE"@ {
        Kind::Binding
    } else if name == "NODE_ATTRPATH"@ {
        Kind::AttrPath
    } else if name == "NODE_IDENT"@ {
        Kind::Ident
    } else if name == "NODE_STRING"@ {
        Kind::Str
    } else if name == "NODE_LIST"@ {
        Kind::List
    } else if name == "NODE_WITH"@ {
        Kind::With
    } else {
        Kind::Other
    }
}

fn same(a: &String, b: &str) -> (r: bool)
    ensures
        r == (a@ == b@),
{
    *a == b.to_owned()
}

fn kind_from_name(name: &String) -> (k: Kind)
    ensures
        k == kind_named(name@),
{
    if same(name, "NODE_ROOT") {
        Kind::Root
    } else if same(name, "NODE_ATTR_SET") {
        Kind::AttrSet
    } else if same(name, "NODE_ATTRPATH_VALUE") {
        Kind::Binding
    } else if same(name, "NODE_ATTRPATH") {
        Kind::AttrPath
    } else if same(name, "NODE_IDENT") {
        Kind::Ident
    } else if same(name, "NODE_STRING") {
        Kind::Str
    } else if same(name, "NODE_LIST") {
        Kind::List
    } else if same(name, "NODE_WITH") {
        Kind::With
    } else {
        Kind::Other
    }
}

/// `parent` with `c` appended as its last child; a leaf absorbs the text.
pub open spec fn adopt(parent: Cst, c: Cst) -> Cst {
    match parent {
        Cst::Node(k, cs) => Cst::Node(k, cs.push(c)),
        Cst::Leaf(t) => Cst::Leaf(t + text_of(c)),
    }
}

/// Ends the topmost open element of a stack of open elements.
pub open spec fn close_top(st: Seq<Cst>) -> Seq<Cst> {
    if st.len() >= 2 {
        st.subrange(0, st.len() - 2).push(adopt(st[st.len() - 2], st.last()))
    } else {
        st
    }
}

pub open spec fn step(st: Seq<Cst>, e: Event) -> Seq<Cst> {
    match e {
        Event::Open(n) => st.push(Cst::Node(kind_named(n@), Seq::empty())),
        Event::Text(t) => st.push(Cst::Leaf(t@)),
        Event::Close => close_top(st),
    }
}

/// The stack of open elements after a walk.
pub open spec fn run(evs: Seq<Event>) -> Seq<Cst>
    decreases evs.len(),
{
    if evs.len() == 0 {
        Seq::empty()
    } else {
        step(run(evs.drop_last()), evs.last())
    }
}

/// Ends every element still open; the result is always a node.
pub open spec fn finish(st: Seq<Cst>) -> Cst
    decreases st.len(),
{
    if st.len() >= 2 {
        finish(close_top(st))
    } else if st.len() == 1 && st[0] is Node {
        st[0]
    } else {
        Cst::Node(Kind::Root, st)
    }
}

/// The syntax tree of a text.
pub open spec fn parsed(s: Seq<char>) -> Cst {
    finish(run(walk_of(s)))
}

proof fn lemma_close_text(st: Seq<Cst>)
    ensures
        texts_of(close_top(st)) == texts_of(st),
{
    if st.len() >= 2 {
        let n = st.len() as int;
        let pre = st.subrange(0, n - 2);
        let c = st[n - 1];
        let p = st[n - 2];
        lemma_texts_push(pre, adopt(p, c));
        match p {
            Cst::Node(k, cs) => lemma_texts_push(cs, c),
            Cst::Leaf(_) => {},
        }
        assert(st.subrange(0, n - 1) =~= pre.push(p));
        lemma_texts_push(pre, p);
        assert(texts_of(close_top(st)) =~= texts_of(st));
    }
}

proof fn lemma_run_text(evs: Seq<Event>)
    ensures
        texts_of(run(evs)) == event_text(evs),
    decreases evs.len(),
{
    if evs.len() > 0 {
        let st = run(evs.drop_last());
        lemma_run_text(evs.drop_last());
        match evs.last() {
            Event::Open(n) => {
                lemma_texts_push(st, Cst::Node(kind_named(n@), Seq::empty()));
                assert(texts_of(Seq::<Cst>::empty()) =~= Seq::<char>::empty());
                assert(event_text(evs) =~= event_text(evs.drop_last()));
            },
            Event::Text(t) => {
                lemma_texts_push(st, Cst::Leaf(t@));
            },
            Event::Close => {
                lemma_close_text(st);
                assert(event_text(evs) =~= event_text(evs.drop_last()));
            },
        }
    }
}

proof fn lemma_finish_text(st: Seq<Cst>)
    ensures
        text_of(finish(st)) == texts_of(st),
        finish(st) is Node,
    decreases st.len(),
{
    if st.len() >= 2 {
        lemma_close_text(st);
        lemma_finish_text(close_top(st));
    } else if st.len() == 1 {
        assert(st.subrange(0, 0) =~= Seq::<Cst>::empty());
        assert(texts_of(Seq::<Cst>::empty()) =~= Seq::<char>::empty());
        assert(texts_of(st) =~= text_of(st[0]));
    }
}

/// Appends `c` to `parent` as `adopt` says.
fn adopt_exec(parent: Tree, c: Tree) -> (r: Tree)
    ensures
        r@ == adopt(parent@, c@),
{
    match parent {
        Tree::Node(k, cs) => {
            let mut cs = cs;
            let ghost old_cs = cs@;
            cs.push(c);
            proof {
                assert(cs@.subrange(0, cs@.len() - 1) =~= old_cs);
            }
            Tree::Node(k, cs)
        },
        Tree::Token(t) => {
            let mut t = t;
            let more = c.to_text();
            t.append(more.as_str());
            Tree::Token(t)
        },
    }
}

/// Ends the topmost open element of `st`, as `close_top` says.
fn close_exec(st: &mut Vec<Tree>)
    ensures
        csts_of(final(st)@) == close_top(csts_of(old(st)@)),
{
    proof {
        lemma_csts_index(st@);
    }
    if st.len() >= 2 {
        let ghost v = csts_of(st@);
        let c = st.pop().unwrap();
        let p = st.pop().unwrap();
        let a = adopt_exec(p, c);
        st.push(a);
        proof {
            lemma_csts_index(st@);
            assert(csts_of(st@) =~= close_top(v));
        }
    }
}

/// The syntax tree of `s`, as rnix parses it. Lossless: its leaves spell `s`.
pub fn parse(s: &str) -> (r: Tree)
    ensures
        r@ == parsed(s@),
        text_of(r@) == s@,
        r@ is Node,
{
    let evs = walk(s);
    let mut st: Vec<Tree> = Vec::new();
    let mut i: usize = 0;
    while i < evs.len()
        invariant
            i <= evs.len(),
            csts_of(st@) == run(evs@.subrange(0, i as int)),
        decreases evs.len() - i,
    {
        let ghost pre = csts_of(st@);
        proof {
            assert(evs@.subrange(0, i + 1).drop_last() =~= evs@.subrange(0, i as int));
        }
        match &evs[i] {
            Event::Open(n) => {
                let k = kind_from_name(n);
                let ghost sv = st@;
                let e: Vec<Tree> = Vec::new();
                proof {
                    assert(csts_of(e@) =~= Seq::<Cst>::empty());
                }
                st.push(Tree::Node(k, e));
                proof {
                    lemma_csts_push(sv, Tree::Node(k, e));
                    assert(csts_of(st@) =~= pre.push(Cst::Node(k, Seq::empty())));
                }
            },
            Event::Text(t) => {
                let ghost sv = st@;
                let tok = Tree::Token(t.clone());
                let ghost gt = tok;
                st.push(tok);
                proof {
                    lemma_csts_push(sv, gt);
                    assert(csts_of(st@) =~= pre.push(Cst::Leaf(t@)));
                }
            },
            Event::Close => {
                close_exec(&mut st);
            },
        }
        i += 1;
    }
    proof {
        assert(evs@.subrange(0, i as int) =~= evs@);
        lemma_run_text(evs@);
    }
    while st.len() >= 2
        invariant
            finish(csts_of(st@)) == parsed(s@),
            texts_of(csts_of(st@)) == s@,
        decreases st.len(),
    {
        proof {
            lemma_close_text(csts_of(st@));
            lemma_csts_index(st@);
        }
        close_exec(&mut st);
        proof {
            lemma_csts_index(st@);
        }
    }
    proof {
        lemma_csts_index(st@);
        lemma_finish_text(csts_of(st@));
    }
    if st.len() == 1 {
        let ghost fin = csts_of(st@);
        let top = st.pop().unwrap();
        assert(fin[0] == top@);
        match top {
            Tree::Node(k, cs) => Tree::Node(k, cs),
            Tree::Token(t) => {
                let mut cs: Vec<Tree> = Vec::new();
                cs.push(Tree::Token(t));
                proof {
                    lemma_csts_index(cs@);
                    assert(csts_of(cs@) =~= fin);
                }
                Tree::Node(Kind::Root, cs)
            },
        }
    } else {
        Tree::Node(Kind::Root, st)
    }
}

} // verus!

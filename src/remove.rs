//! Removing elements from the list that a path names.
use crate::edit::{
    breaks_line, breaks_line_exec, concat_paths, find_list, lemma_at_concat,
    lemma_list_path_at, lemma_replace_same, list_at, list_path, node_texts, read_spec, replace_at,
    replace_path, resolved, with_kids, Resolution, ReadError, WriteError,
};
use crate::resolve::{at, findattr, getcfgbase, kids, split_dots, subtree, views, Found};
use crate::syntax::{parse, parsed};
use crate::tree::{csts_of, lemma_csts_index, text_of, Cst, Tree};
use vstd::prelude::*;

verus! {

/// The children of a list with every node whose text is among `items`
/// removed, each together with a line-breaking token just before it.
pub open spec fn strip(cs: Seq<Cst>, items: Seq<Seq<char>>) -> Seq<Cst>
    decreases cs.len(),
{
    if cs.len() == 0 {
        Seq::empty()
    } else {
        let r = strip(cs.drop_last(), items);
        if cs.last() is Node && items.contains(text_of(cs.last())) {
            if r.len() > 0 && breaks_line(r.last()) {
                r.drop_last()
            } else {
                r
            }
        } else {
            r.push(cs.last())
        }
    }
}

/// What removing `items` from the list at `path` of document `f` gives.
pub open spec fn rm_spec(f: Seq<char>, path: Seq<char>, items: Seq<Seq<char>>) -> Result<Seq<char>, WriteError> {
    let t = parsed(f);
    match resolved(f, split_dots(path)) {
        Resolution::NoSet => Err(WriteError::ParseError),
        Resolution::Missing => Err(WriteError::NoAttr),
        Resolution::Synthesized => Err(WriteError::ArrayError),
        Resolution::At(p) => match list_at(t, p) {
            Some(lp) => {
                let l = at(t, lp)->Some_0;
                Ok(text_of(replace_at(t, lp, with_kids(l, strip(kids(l), items)))))
            },
            None => Err(WriteError::ArrayError),
        },
    }
}

/// Whether the list at `path` exists and none of its elements is among `items`.
pub open spec fn misses_all(f: Seq<char>, path: Seq<char>, items: Seq<Seq<char>>) -> bool {
    match read_spec(f, path) {
        Ok(e) => forall|j: int| 0 <= j < e.len() ==> !items.contains(#[trigger] e[j]),
        Err(_) => false,
    }
}

proof fn lemma_rm_nothing(f: Seq<char>, path: Seq<char>, items: Seq<Seq<char>>)
    requires
        misses_all(f, path, items),
        text_of(parsed(f)) == f,
    ensures
        rm_spec(f, path, items) == Ok::<Seq<char>, WriteError>(f),
{
    let t = parsed(f);
    let p = resolved(f, split_dots(path))->At_0;
    let lp = list_at(t, p)->Some_0;
    let b = at(t, p)->Some_0;
    lemma_list_path_at(b);
    lemma_at_concat(t, p, list_path(b)->Some_0);
    let l = at(t, lp)->Some_0;
    let cs = kids(l);
    assert(read_spec(f, path) == Ok::<Seq<Seq<char>>, ReadError>(node_texts(cs)));
    let ee = node_texts(cs);
    assert(misses_all(f, path, items));
    assert(forall|j: int| 0 <= j < ee.len() ==> !items.contains(#[trigger] ee[j])) by {
        assert(read_spec(f, path)->Ok_0 == ee);
    }
    assert forall|j: int| 0 <= j < cs.len() && cs[j] is Node implies !items.contains(
        #[trigger] text_of(cs[j]),
    ) by {
        lemma_node_texts_nodes(cs, j);
        let e = node_texts(cs);
        let k = choose|k: int| 0 <= k < e.len() && e[k] == text_of(cs[j]);
        assert(!items.contains(e[k]));
    }
    lemma_strip_nothing(cs, items);
    assert(with_kids(l, cs) == l);
    lemma_replace_same(t, lp);
}

/// Removing items from a list keeps the other elements, in order.
pub proof fn lemma_strip_elements(cs: Seq<Cst>, items: Seq<Seq<char>>)
    ensures
        node_texts(strip(cs, items)) == node_texts(cs).filter(|x: Seq<char>| !items.contains(x)),
    decreases cs.len(),
{
    reveal(Seq::filter);
    if cs.len() > 0 {
        let r = strip(cs.drop_last(), items);
        lemma_strip_elements(cs.drop_last(), items);
        let c = cs.last();
        let nt = node_texts(cs.drop_last());
        if c is Node {
            assert(node_texts(cs).drop_last() =~= nt);
        } else {
            assert(node_texts(cs) == nt);
        }
        if c is Node && items.contains(text_of(c)) {
            if r.len() > 0 && breaks_line(r.last()) {
                assert(r.drop_last().push(r.last()) =~= r);
                assert(node_texts(r) == node_texts(r.drop_last()));
            }
        } else {
            assert(r.push(c).drop_last() =~= r);
        }
    }
}

/// Removing items that no element matches leaves the children as they were.
pub proof fn lemma_strip_nothing(cs: Seq<Cst>, items: Seq<Seq<char>>)
    requires
        forall|j: int| 0 <= j < cs.len() && cs[j] is Node ==> !items.contains(#[trigger] text_of(cs[j])),
    ensures
        strip(cs, items) == cs,
    decreases cs.len(),
{
    if cs.len() > 0 {
        lemma_strip_nothing(cs.drop_last(), items);
        assert(cs.drop_last().push(cs.last()) =~= cs);
    }
}

proof fn lemma_node_texts_nodes(cs: Seq<Cst>, j: int)
    requires
        0 <= j < cs.len(),
        cs[j] is Node,
    ensures
        node_texts(cs).contains(text_of(cs[j])),
    decreases cs.len(),
{
    if j < cs.len() - 1 {
        lemma_node_texts_nodes(cs.drop_last(), j);
        let nt = node_texts(cs.drop_last());
        let k = choose|k: int| 0 <= k < nt.len() && nt[k] == text_of(cs[j]);
        if cs.last() is Node {
            assert(node_texts(cs)[k] == nt[k]);
        }
    } else {
        assert(node_texts(cs).last() == text_of(cs[j]));
    }
}

fn contains_text(items: &Vec<String>, s: &String) -> (r: bool)
    ensures
        r == views(items@).contains(s@),
{
    let mut i: usize = 0;
    while i < items.len()
        invariant
            i <= items.len(),
            forall|j: int| 0 <= j < i ==> items@[j]@ != s@,
        decreases items.len() - i,
    {
        if items[i] == *s {
            proof {
                assert(views(items@)[i as int] == s@);
            }
            return true;
        }
        i += 1;
    }
    proof {
        if views(items@).contains(s@) {
            let k = choose|k: int| 0 <= k < views(items@).len() && views(items@)[k] == s@;
            assert(items@[k]@ == s@);
        }
    }
    false
}

/// The children of a list with the elements among `items` removed, as
/// `strip` says.
fn strip_exec(cs: &Vec<Tree>, items: &Vec<String>) -> (r: Vec<Tree>)
    ensures
        csts_of(r@) == strip(csts_of(cs@), views(items@)),
{
    let ghost cv = csts_of(cs@);
    let ghost iv = views(items@);
    proof {
        lemma_csts_index(cs@);
        assert(cv.subrange(0, 0) =~= Seq::<Cst>::empty());
    }
    let mut out: Vec<Tree> = Vec::new();
    let mut i: usize = 0;
    while i < cs.len()
        invariant
            cv == csts_of(cs@),
            iv == views(items@),
            cv.len() == cs.len(),
            forall|j: int| 0 <= j < cs.len() ==> #[trigger] cv[j] == cs@[j]@,
            i <= cs.len(),
            csts_of(out@) == strip(cv.subrange(0, i as int), iv),
        decreases cs.len() - i,
    {
        proof {
            assert(cv.subrange(0, i + 1).drop_last() =~= cv.subrange(0, i as int));
            assert(cv.subrange(0, i + 1).last() == cs@[i as int]@);
            lemma_csts_index(out@);
        }
        let ghost prev = out@;
        let is_node = match &cs[i] {
            Tree::Node(_, _) => true,
            Tree::Token(_) => false,
        };
        let matched = is_node && contains_text(items, &cs[i].to_text());
        if matched {
            if out.len() > 0 && breaks_line_exec(&out[out.len() - 1]) {
                out.pop();
                proof {
                    crate::tree::lemma_csts_prefix(prev, prev.len() - 1);
                    assert(prev.subrange(0, prev.len() - 1) =~= out@);
                    assert(csts_of(prev).subrange(0, prev.len() - 1) =~= csts_of(prev).drop_last());
                }
            }
        } else {
            let c = cs[i].copy();
            let ghost g = c;
            out.push(c);
            proof {
                crate::tree::lemma_csts_push(prev, g);
            }
        }
        i += 1;
    }
    proof {
        assert(cv.subrange(0, i as int) =~= cv);
    }
    out
}

/// Replaces the list at `lp` in `t` by one with `items` removed.
fn remove_in(t: &Tree, p: &Vec<usize>, items: &Vec<String>) -> (r: Result<String, WriteError>)
    ensures
        match list_at(t@, p@) {
            Some(lp) => {
                let l = at(t@, lp)->Some_0;
                r matches Ok(s) && s@ == text_of(
                    replace_at(t@, lp, with_kids(l, strip(kids(l), views(items@)))),
                )
            },
            None => r == Err::<String, WriteError>(WriteError::ArrayError),
        },
{
    let b = match subtree(t, p) {
        Some(b) => b,
        None => return Err(WriteError::ArrayError),
    };
    let lp = match find_list(b) {
        Some(lp) => lp,
        None => return Err(WriteError::ArrayError),
    };
    proof {
        lemma_list_path_at(b@);
        lemma_at_concat(t@, p@, lp@);
    }
    let full = concat_paths(p, &lp);
    let l = match subtree(t, &full) {
        Some(l) => l,
        None => return Err(WriteError::ArrayError),
    };
    let new_list = match l {
        Tree::Node(k, cs) => Tree::Node(*k, strip_exec(cs, items)),
        Tree::Token(_) => l.copy(),
    };
    proof {
        assert(full@.skip(0) =~= full@);
    }
    let edited = replace_path(t, &full, 0, new_list);
    Ok(edited.to_text())
}

/// Removes from the list that the dotted `query` names in document `f`
/// every element whose text is one of `items`, each with the line break
/// just before it, and gives the edited text back. Nothing else changes; when
/// nothing matches, the text comes back as it was. A path that resolves only
/// to a binding synthesized from scattered ones gives `ArrayError`.
pub fn rmarr(f: &str, query: &str, items: Vec<String>) -> (r: Result<String, WriteError>)
    ensures
        match r {
            Ok(s) => rm_spec(f@, query@, views(items@)) == Ok::<Seq<char>, WriteError>(s@),
            Err(e) => rm_spec(f@, query@, views(items@)) == Err::<Seq<char>, WriteError>(e),
        },
        misses_all(f@, query@, views(items@)) ==> (r matches Ok(s) && s@ == f@),
{
    let doc = parse(f);
    proof {
        if misses_all(f@, query@, views(items@)) {
            lemma_rm_nothing(f@, query@, views(items@));
        }
    }
    let bp = match getcfgbase(&doc) {
        Some(bp) => bp,
        None => return Err(WriteError::ParseError),
    };
    let base = match subtree(&doc, &bp) {
        Some(b) => b,
        None => return Err(WriteError::ParseError),
    };
    let found = match findattr(base, query) {
        Some(h) => h,
        None => return Err(WriteError::NoAttr),
    };
    match found {
        Found::At(p) => {
            let full = concat_paths(&bp, &p);
            remove_in(&doc, &full, &items)
        },
        Found::Made(_, _) => Err(WriteError::ArrayError),
    }
}

} // verus!

//! Appending elements to the list that a path names, creating the
//! attribute first when it is missing.
use crate::edit::{
    breaks_line, breaks_line_exec, concat_paths, find_list, lemma_at_concat, lemma_list_path_at,
    lemma_replace_inserted, lemma_replace_same, list_at, list_path, node_texts, read_spec,
    Resolution, replace_at, replace_path, resolved, with_kids,
    WriteError,
};
use crate::resolve::{
    at, cfgbase, findattr, getcfgbase, getkey, key_of, kids, kind_is, last_node_before,
    last_node_index, segs_prefix, split_dots,
    split_path, subtree, views, Found,
};
use crate::syntax::{parse, parsed};
use crate::tree::{
    csts_of, inserted, lemma_csts_index, lemma_texts_concat, lemma_texts_insert, splice, text_of,
    texts_of, Cst, Kind, Tree,
};
use vstd::prelude::*;

verus! {

/// Index of the first child at or after `i` whose text is a closing bracket.
pub open spec fn first_closing(cs: Seq<Cst>, i: int) -> Option<int>
    decreases cs.len() - i,
{
    if 0 <= i < cs.len() {
        if text_of(cs[i]) == "]"@ {
            Some(i)
        } else {
            first_closing(cs, i + 1)
        }
    } else {
        None
    }
}

/// Where a new element goes: before the closing bracket, or before the
/// line-breaking token that precedes it.
pub open spec fn insert_point(cs: Seq<Cst>) -> Option<int> {
    match first_closing(cs, 0) {
        Some(i) => if i >= 1 && breaks_line(cs[i - 1]) {
            Some(i - 1)
        } else {
            Some(i)
        },
        None => None,
    }
}

/// The element inserted for `item`: a new line, four spaces of indent, the text.
pub open spec fn element_of(item: Seq<char>) -> Cst {
    parsed("\n    "@ + item)
}

pub open spec fn insert_one(cs: Seq<Cst>, e: Cst) -> Seq<Cst> {
    match insert_point(cs) {
        Some(i) => cs.insert(i, e),
        None => cs,
    }
}

/// Whether the element inserted for `item` is a node that spells out a new
/// line, four spaces and the item.
pub open spec fn element_ok(item: Seq<char>) -> bool {
    element_of(item) is Node && text_of(element_of(item)) == "\n    "@ + item
}

/// The children of a list after inserting the elements `es`, one after the other.
pub open spec fn insert_elems(cs: Seq<Cst>, es: Seq<Cst>) -> Seq<Cst>
    decreases es.len(),
{
    if es.len() == 0 {
        cs
    } else {
        insert_one(insert_elems(cs, es.drop_last()), es.last())
    }
}

/// The elements inserted for `items`.
pub open spec fn elements_of(items: Seq<Seq<char>>) -> Seq<Cst> {
    items.map_values(|n: Seq<char>| element_of(n))
}

/// The children of a list after appending `items`, one after the other.
pub open spec fn insert_items(cs: Seq<Cst>, items: Seq<Seq<char>>) -> Seq<Cst> {
    insert_elems(cs, elements_of(items))
}

/// The text after appending `items` to the list of the binding at `p` in `t`.
pub open spec fn append_in(t: Cst, p: Seq<usize>, items: Seq<Seq<char>>) -> Result<Seq<char>, WriteError> {
    match list_at(t, p) {
        Some(lp) => {
            let l = at(t, lp)->Some_0;
            Ok(text_of(replace_at(t, lp, with_kids(l, insert_items(kids(l), items)))))
        },
        None => Err(WriteError::ArrayError),
    }
}

/// Appending to an attribute that exists; `None` when the path resolves to nothing.
pub open spec fn append_existing(f: Seq<char>, q: Seq<Seq<char>>, items: Seq<Seq<char>>) -> Option<Result<Seq<char>, WriteError>> {
    match resolved(f, q) {
        Resolution::NoSet => Some(Err(WriteError::ParseError)),
        Resolution::Missing => None,
        Resolution::Synthesized => Some(Err(WriteError::ArrayError)),
        Resolution::At(p) => Some(append_in(parsed(f), p, items)),
    }
}

fn first_closing_index(cs: &Vec<Tree>) -> (r: Option<usize>)
    ensures
        match r {
            Some(j) => first_closing(csts_of(cs@), 0) == Some(j as int) && j < cs.len(),
            None => first_closing(csts_of(cs@), 0) is None,
        },
{
    let ghost cv = csts_of(cs@);
    proof {
        lemma_csts_index(cs@);
    }
    let closing = "]".to_owned();
    let mut i: usize = 0;
    while i < cs.len()
        invariant
            cv == csts_of(cs@),
            cv.len() == cs.len(),
            forall|j: int| 0 <= j < cs.len() ==> #[trigger] cv[j] == cs@[j]@,
            closing@ == "]"@,
            i <= cs.len(),
            first_closing(cv, 0) == first_closing(cv, i as int),
        decreases cs.len() - i,
    {
        proof {
            assert(cv[i as int] == cs@[i as int]@);
        }
        if cs[i].to_text() == closing {
            return Some(i);
        }
        i += 1;
    }
    None
}

/// Inserts `e` into the children of a list where `insert_one` says.
fn insert_one_exec(cs: &mut Vec<Tree>, e: Tree)
    ensures
        csts_of(final(cs)@) == insert_one(csts_of(old(cs)@), e@),
{
    proof {
        lemma_csts_index(cs@);
    }
    let ghost cv = csts_of(cs@);
    match first_closing_index(cs) {
        Some(i) => {
            let mut at_ix = i;
            if i >= 1 && breaks_line_exec(&cs[i - 1]) {
                at_ix = i - 1;
            }
            proof {
                if i >= 1 {
                    assert(cv[i - 1] == cs@[i - 1]@);
                }
            }
            let ghost before = cs@;
            let ghost g = e;
            cs.insert(at_ix, e);
            proof {
                lemma_csts_index(cs@);
                lemma_csts_index(before);
                assert(csts_of(cs@) =~= cv.insert(at_ix as int, g@));
            }
        },
        None => {},
    }
}

/// Appends `items` to the list of the binding at `p` in `t`, as `append_in` says.
fn append_in_exec(t: &Tree, p: &Vec<usize>, items: &Vec<String>) -> (r: Result<String, WriteError>)
    ensures
        match r {
            Ok(s) => append_in(t@, p@, views(items@)) == Ok::<Seq<char>, WriteError>(s@),
            Err(e) => append_in(t@, p@, views(items@)) == Err::<Seq<char>, WriteError>(e),
        },
        r is Ok ==> forall|j: int| 0 <= j < items.len() ==> element_ok(#[trigger] views(items@)[j]),
{
    let b = match subtree(t, p) {
        Some(b) => b,
        None => return Err(WriteError::ArrayError),
    };
    let lp = match find_list(b) {
        Some(lp) => lp,
        None => return Err(WriteError::ArrayError),
    };
    proof {
        lemma_list_path_at(b@);
        lemma_at_concat(t@, p@, lp@);
    }
    let full = concat_paths(p, &lp);
    let l = match subtree(t, &full) {
        Some(l) => l,
        None => return Err(WriteError::ArrayError),
    };
    let new_list = match l {
        Tree::Node(k, cs) => {
            let mut kids_now: Vec<Tree> = Vec::new();
            let mut i: usize = 0;
            while i < cs.len()
                invariant
                    i <= cs.len(),
                    kids_now.len() == i,
                    forall|j: int| 0 <= j < i ==> #[trigger] kids_now@[j]@ == cs@[j]@,
                decreases cs.len() - i,
            {
                kids_now.push(cs[i].copy());
                i += 1;
            }
            proof {
                lemma_csts_index(kids_now@);
                lemma_csts_index(cs@);
                assert forall|j: int| 0 <= j < kids_now.len() implies csts_of(kids_now@)[j]
                    == csts_of(cs@)[j] by {
                    assert(kids_now@[j]@ == cs@[j]@);
                }
                assert(csts_of(kids_now@) =~= csts_of(cs@));
            }
            let ghost start = csts_of(cs@);
            let ghost iv = views(items@);
            let mut n: usize = 0;
            proof {
                assert(iv.subrange(0, 0) =~= Seq::<Seq<char>>::empty());
            }
            while n < items.len()
                invariant
                    iv == views(items@),
                    n <= items.len(),
                    csts_of(kids_now@) == insert_items(start, iv.subrange(0, n as int)),
                    forall|j: int| 0 <= j < n ==> element_ok(#[trigger] iv[j]),
                decreases items.len() - n,
            {
                let mut text = String::new();
                text.append("\n    ");
                text.append(items[n].as_str());
                let e = parse(text.as_str());
                proof {
                    assert(element_ok(iv[n as int]));
                }
                insert_one_exec(&mut kids_now, e);
                proof {
                    let es = elements_of(iv.subrange(0, n + 1));
                    assert(es.drop_last() =~= elements_of(iv.subrange(0, n as int)));
                    assert(es.last() == element_of(items@[n as int]@));
                }
                n += 1;
            }
            proof {
                assert(iv.subrange(0, n as int) =~= iv);
            }
            Tree::Node(*k, kids_now)
        },
        Tree::Token(_) => {
            proof {
                assert(kind_is(l@, Kind::List));
            }
            l.copy()
        },
    };
    proof {
        assert(full@.skip(0) =~= full@);
    }
    let edited = replace_path(t, &full, 0, new_list);
    Ok(edited.to_text())
}

/// Whether `a` is a prefix of `b`.
pub open spec fn seg_prefix(a: Seq<Seq<char>>, b: Seq<Seq<char>>) -> bool {
    a.len() <= b.len() && a == b.subrange(0, a.len() as int)
}

/// Whether one of the first `m` children is an attribute path whose key
/// starts with `qp`.
pub open spec fn path_with_prefix(bs: Seq<Cst>, qp: Seq<Seq<char>>, m: int) -> bool
    decreases m,
{
    if m <= 0 || m > bs.len() {
        false
    } else {
        path_with_prefix(bs, qp, m - 1) || (kind_is(bs[m - 1], Kind::AttrPath) && seg_prefix(
            qp,
            key_of(bs[m - 1]),
        ))
    }
}

/// Index of the first binding at or after `i` whose key starts with `qp`.
pub open spec fn first_related(cs: Seq<Cst>, qp: Seq<Seq<char>>, i: int) -> Option<usize>
    decreases cs.len() - i,
{
    if 0 <= i < cs.len() {
        if kind_is(cs[i], Kind::Binding) && path_with_prefix(kids(cs[i]), qp, kids(cs[i]).len() as int) {
            Some(i as usize)
        } else {
            first_related(cs, qp, i + 1)
        }
    } else {
        None
    }
}

/// Index of the binding whose key shares the longest prefix with `q`,
/// trying the first `n` segments, then fewer, down to one.
pub open spec fn related(cs: Seq<Cst>, q: Seq<Seq<char>>, n: int) -> Option<usize>
    decreases n,
{
    if n <= 0 {
        None
    } else {
        match first_related(cs, q.subrange(0, n), 0) {
            Some(i) => Some(i),
            None => if n == 1 {
                None
            } else {
                related(cs, q, n - 1)
            },
        }
    }
}

/// Index of the first line-breaking token at or after `i`.
pub open spec fn first_break(cs: Seq<Cst>, i: int) -> Option<usize>
    decreases cs.len() - i,
{
    if 0 <= i < cs.len() {
        if breaks_line(cs[i]) {
            Some(i as usize)
        } else {
            first_break(cs, i + 1)
        }
    } else {
        None
    }
}

/// Where a new binding goes among the children of an attribute set: before
/// the line break after the most closely related binding; else after the
/// last binding, ahead of the trivia before the closing brace (just after the
/// opening brace when the set has no bindings).
pub open spec fn creation_index(cs: Seq<Cst>, q: Seq<Seq<char>>) -> int {
    let dflt: int = match last_node_before(cs, cs.len() as int) {
        Some(j) => j + 1,
        None => if cs.len() >= 1 {
            1
        } else {
            0
        },
    };
    let ix: int = match related(cs, q, q.len() as int) {
        Some(i) => match first_break(cs, i as int) {
            Some(j) => j as int,
            None => dflt,
        },
        None => dflt,
    };
    if ix == 0 && cs.len() >= 1 {
        1
    } else {
        ix
    }
}

/// The text of a new binding.
pub open spec fn binding_text(name: Seq<char>, val: Seq<char>) -> Seq<char> {
    "\n  "@ + name + " = "@ + val + ";"@
}

/// An attribute set with a binding `name = val;` added.
pub open spec fn with_binding(base: Cst, name: Seq<char>, val: Seq<char>) -> Cst {
    let cs = kids(base);
    with_kids(base, cs.insert(creation_index(cs, split_dots(name)), parsed(binding_text(name, val))))
}

fn path_with_prefix_exec(bs: &Vec<Tree>, qp: &Vec<String>) -> (r: bool)
    ensures
        r == path_with_prefix(csts_of(bs@), views(qp@), bs.len() as int),
{
    let ghost bv = csts_of(bs@);
    proof {
        lemma_csts_index(bs@);
    }
    let mut m: usize = 0;
    while m < bs.len()
        invariant
            bv == csts_of(bs@),
            bv.len() == bs.len(),
            forall|j: int| 0 <= j < bs.len() ==> #[trigger] bv[j] == bs@[j]@,
            m <= bs.len(),
            !path_with_prefix(bv, views(qp@), m as int),
        decreases bs.len() - m,
    {
        proof {
            assert(bv[m as int] == bs@[m as int]@);
        }
        if let Tree::Node(k, _) = &bs[m] {
            if *k == Kind::AttrPath {
                let key = getkey(&bs[m]);
                if segs_prefix(qp, &key) {
                    proof {
                        lemma_path_with_prefix_mono(bv, views(qp@), m + 1, bs.len() as int);
                    }
                    return true;
                }
            }
        }
        m += 1;
    }
    false
}

proof fn lemma_path_with_prefix_mono(bs: Seq<Cst>, qp: Seq<Seq<char>>, m: int, m2: int)
    requires
        path_with_prefix(bs, qp, m),
        m <= m2 <= bs.len(),
    ensures
        path_with_prefix(bs, qp, m2),
    decreases m2 - m,
{
    if m2 > m {
        lemma_path_with_prefix_mono(bs, qp, m, m2 - 1);
    }
}

fn first_related_exec(cs: &Vec<Tree>, qp: &Vec<String>) -> (r: Option<usize>)
    ensures
        r == first_related(csts_of(cs@), views(qp@), 0),
        r matches Some(j) ==> j < cs.len(),
{
    let ghost cv = csts_of(cs@);
    proof {
        lemma_csts_index(cs@);
    }
    let mut i: usize = 0;
    while i < cs.len()
        invariant
            cv == csts_of(cs@),
            cv.len() == cs.len(),
            forall|j: int| 0 <= j < cs.len() ==> #[trigger] cv[j] == cs@[j]@,
            i <= cs.len(),
            first_related(cv, views(qp@), 0) == first_related(cv, views(qp@), i as int),
        decreases cs.len() - i,
    {
        proof {
            assert(cv[i as int] == cs@[i as int]@);
        }
        if let Tree::Node(k, bs) = &cs[i] {
            proof {
                lemma_csts_index(bs@);
            }
            if *k == Kind::Binding && path_with_prefix_exec(bs, qp) {
                return Some(i);
            }
        }
        i += 1;
    }
    None
}

/// The binding among `cs` that is most closely related to the path `q`.
fn matchval(cs: &Vec<Tree>, q: &Vec<String>) -> (r: Option<usize>)
    ensures
        r == related(csts_of(cs@), views(q@), q.len() as int),
        r matches Some(j) ==> j < cs.len(),
{
    let mut n: usize = q.len();
    while n > 0
        invariant
            n <= q.len(),
            related(csts_of(cs@), views(q@), q.len() as int) == related(csts_of(cs@), views(q@), n as int),
        decreases n,
    {
        let mut qp: Vec<String> = Vec::new();
        let mut j: usize = 0;
        while j < n
            invariant
                j <= n <= q.len(),
                qp.len() == j,
                forall|k: int| 0 <= k < j ==> #[trigger] qp@[k]@ == q@[k]@,
            decreases n - j,
        {
            qp.push(q[j].clone());
            j += 1;
        }
        proof {
            assert(views(qp@) =~= views(q@).subrange(0, n as int));
        }
        match first_related_exec(cs, &qp) {
            Some(i) => {
                return Some(i);
            },
            None => {
                if n == 1 {
                    return None;
                }
            },
        }
        n -= 1;
    }
    None
}

fn first_break_index(cs: &Vec<Tree>, from: usize) -> (r: Option<usize>)
    ensures
        r == first_break(csts_of(cs@), from as int),
        r matches Some(j) ==> j < cs.len(),
{
    let ghost cv = csts_of(cs@);
    proof {
        lemma_csts_index(cs@);
    }
    let mut i: usize = from;
    while i < cs.len()
        invariant
            cv == csts_of(cs@),
            cv.len() == cs.len(),
            forall|j: int| 0 <= j < cs.len() ==> #[trigger] cv[j] == cs@[j]@,
            from <= i,
            first_break(cv, from as int) == first_break(cv, i as int),
        decreases cs.len() - i,
    {
        proof {
            assert(cv[i as int] == cs@[i as int]@);
        }
        if breaks_line_exec(&cs[i]) {
            return Some(i);
        }
        i += 1;
    }
    None
}

/// The document `doc` with a binding `query = val;` added to the attribute
/// set at `bp`, placed next to the most closely related existing binding.
fn addvalue(doc: &Tree, bp: &Vec<usize>, query: &str, val: &str) -> (r: Tree)
    requires
        at(doc@, bp@) is Some,
    ensures
        r@ == replace_at(doc@, bp@, with_binding(at(doc@, bp@)->Some_0, query@, val@)),
        at(doc@, bp@)->Some_0 is Node ==> inserted(text_of(doc@), text_of(r@), binding_text(query@, val@)),
{
    let base = subtree(doc, bp).unwrap();
    let q = split_path(query);
    let new_base = match base {
        Tree::Token(_) => base.copy(),
        Tree::Node(k, cs) => {
            let ghost cv = csts_of(cs@);
            proof {
                lemma_csts_index(cs@);
            }
            let mut index: usize = match last_node_index(cs, cs.len()) {
                Some(j) => j + 1,
                None => if cs.len() >= 1 {
                    1
                } else {
                    0
                },
            };
            match matchval(cs, &q) {
                Some(i) => match first_break_index(cs, i) {
                    Some(j) => {
                        index = j;
                    },
                    None => {},
                },
                None => {},
            }
            if index == 0 && cs.len() >= 1 {
                index = 1;
            }
            let mut text = String::new();
            text.append("\n  ");
            text.append(query);
            text.append(" = ");
            text.append(val);
            text.append(";");
            let node = parse(text.as_str());
            proof {
                assert(text_of(node@) == binding_text(query@, val@));
            }
            let mut out: Vec<Tree> = Vec::new();
            let mut i: usize = 0;
            while i < cs.len()
                invariant
                    i <= cs.len(),
                    out.len() == i,
                    forall|j: int| 0 <= j < i ==> #[trigger] out@[j]@ == cs@[j]@,
                decreases cs.len() - i,
            {
                out.push(cs[i].copy());
                i += 1;
            }
            let ghost before = out@;
            let ghost g = node;
            proof {
                assert(index as int == creation_index(cv, views(q@)));
            }
            out.insert(index, node);
            proof {
                lemma_csts_index(out@);
                assert forall|j: int| 0 <= j < out.len() implies csts_of(out@)[j] == cv.insert(
                    index as int,
                    g@,
                )[j] by {
                    if j < index {
                        assert(out@[j] == before[j]);
                        assert(before[j]@ == cs@[j]@);
                    } else if j > index {
                        assert(out@[j] == before[j - 1]);
                        assert(before[j - 1]@ == cs@[j - 1]@);
                    } else {
                        assert(out@[j] == g);
                    }
                }
                assert(csts_of(out@) =~= cv.insert(index as int, g@));
                lemma_texts_insert(cv, index as int, g@);
                assert(inserted(text_of(base@), texts_of(cv.insert(index as int, g@)), binding_text(query@, val@)));
            }
            Tree::Node(*k, out)
        },
    };
    proof {
        assert(bp@.skip(0) =~= bp@);
        if base@ is Node {
            lemma_replace_inserted(doc@, bp@, new_base@, binding_text(query@, val@));
        }
    }
    replace_path(doc, bp, 0, new_base)
}

/// The text of document `f` with an empty list bound to `name` added to its
/// editing root; `None` when the document has no attribute set.
pub open spec fn created(f: Seq<char>, name: Seq<char>) -> Option<Seq<char>> {
    let doc = parsed(f);
    match cfgbase(doc) {
        Some(bp) => match at(doc, bp) {
            Some(base) => Some(text_of(replace_at(doc, bp, with_binding(base, name, "[\n  ]"@)))),
            None => None,
        },
        None => None,
    }
}

/// What appending `items` to the list at `path` of document `f` gives. A
/// missing attribute is first created with an empty list, and the append is
/// then made on the text that results.
pub open spec fn add_spec(f: Seq<char>, path: Seq<char>, items: Seq<Seq<char>>) -> Result<Seq<char>, WriteError> {
    let q = split_dots(path);
    match append_existing(f, q, items) {
        Some(r) => r,
        None => match created(f, path) {
            Some(f2) => match append_existing(f2, q, items) {
                Some(r) => r,
                None => Err(WriteError::NoAttr),
            },
            None => Err(WriteError::ParseError),
        },
    }
}

fn append_existing_exec(f: &str, query: &str, items: &Vec<String>) -> (r: Option<Result<String, WriteError>>)
    ensures
        match r {
            Some(Ok(s)) => append_existing(f@, split_dots(query@), views(items@)) == Some(
                Ok::<Seq<char>, WriteError>(s@),
            ),
            Some(Err(e)) => append_existing(f@, split_dots(query@), views(items@)) == Some(
                Err::<Seq<char>, WriteError>(e),
            ),
            None => append_existing(f@, split_dots(query@), views(items@)) is None,
        },
        text_of(parsed(f@)) == f@,
        r matches Some(Ok(_)) ==> forall|j: int|
            0 <= j < items.len() ==> element_ok(#[trigger] views(items@)[j]),
{
    let doc = parse(f);
    let bp = match getcfgbase(&doc) {
        Some(bp) => bp,
        None => return Some(Err(WriteError::ParseError)),
    };
    let base = match subtree(&doc, &bp) {
        Some(b) => b,
        None => return Some(Err(WriteError::ParseError)),
    };
    let found = match findattr(base, query) {
        Some(h) => h,
        None => return None,
    };
    match found {
        Found::At(p) => {
            let full = concat_paths(&bp, &p);
            Some(append_in_exec(&doc, &full, items))
        },
        Found::Made(_, _) => Some(Err(WriteError::ArrayError)),
    }
}

/// Appends `items`, in order, to the list that the dotted `query` names in
/// document `f`; each goes on a line of its own, indented by four spaces,
/// before the closing bracket. When the attribute is missing it is first
/// created with an empty list, and the append is made on the text that
/// results; should the created attribute not be found there, `NoAttr` is
/// returned rather than creating it again. A path that resolves only to a
/// binding synthesized from scattered ones gives `ArrayError`, since such a
/// binding holds an attribute set. Everything else in the text is kept.
pub fn addtoarr(f: &str, query: &str, items: Vec<String>) -> (r: Result<String, WriteError>)
    ensures
        match r {
            Ok(s) => add_spec(f@, query@, views(items@)) == Ok::<Seq<char>, WriteError>(s@),
            Err(e) => add_spec(f@, query@, views(items@)) == Err::<Seq<char>, WriteError>(e),
        },
        appendable(f@, query@) ==> (r matches Ok(s) && inserted(f@, s@, pieces(views(items@)))),
        read_spec(f@, query@) is Ok && items.len() == 0 ==> (r matches Ok(s) && s@ == f@),
        append_existing(f@, split_dots(query@), views(items@)) is None ==> (created(f@, query@) matches Some(
            f2,
        ) ==> inserted(f@, f2, binding_text(query@, "[\n  ]"@))),
{
    match append_existing_exec(f, query, &items) {
        Some(r) => {
            proof {
                if appendable(f@, query@) {
                    lemma_append_text(f@, query@, views(items@));
                }
                if read_spec(f@, query@) is Ok && items.len() == 0 {
                    lemma_append_nothing(f@, query@);
                    assert(views(items@) =~= Seq::<Seq<char>>::empty());
                }
            }
            r
        },
        None => {
            let doc = parse(f);
            let bp = match getcfgbase(&doc) {
                Some(bp) => bp,
                None => return Err(WriteError::ParseError),
            };
            if subtree(&doc, &bp).is_none() {
                return Err(WriteError::ParseError);
            }
            let created_doc = addvalue(&doc, &bp, query, "[\n  ]");
            let f2 = created_doc.to_text();
            match append_existing_exec(f2.as_str(), query, &items) {
                Some(r) => r,
                None => Err(WriteError::NoAttr),
            }
        },
    }
}

/// Whether `cs` has a closing bracket, and every node comes before the first one.
pub open spec fn closed_after_nodes(cs: Seq<Cst>) -> bool {
    first_closing(cs, 0) matches Some(c) && forall|j: int|
        0 <= j < cs.len() && cs[j] is Node ==> j < c
}

proof fn lemma_first_closing_props(cs: Seq<Cst>, i: int)
    requires
        0 <= i,
    ensures
        first_closing(cs, i) matches Some(c) ==> i <= c < cs.len() && text_of(cs[c]) == "]"@
            && forall|j: int| i <= j < c ==> text_of(#[trigger] cs[j]) != "]"@,
    decreases cs.len() - i,
{
    if i < cs.len() && text_of(cs[i]) != "]"@ {
        lemma_first_closing_props(cs, i + 1);
        if let Some(c) = first_closing(cs, i) {
            assert(first_closing(cs, i) == first_closing(cs, i + 1));
            assert forall|j: int| i <= j < c implies text_of(#[trigger] cs[j]) != "]"@ by {
                if j > i {
                    assert(i + 1 <= j < c);
                }
            }
        }
    }
}

proof fn lemma_first_closing_is(cs: Seq<Cst>, i: int, c: int)
    requires
        0 <= i <= c < cs.len(),
        text_of(cs[c]) == "]"@,
        forall|j: int| i <= j < c ==> text_of(#[trigger] cs[j]) != "]"@,
    ensures
        first_closing(cs, i) == Some(c),
    decreases c - i,
{
    if i < c {
        lemma_first_closing_is(cs, i + 1, c);
    }
}

proof fn lemma_node_texts_concat(a: Seq<Cst>, b: Seq<Cst>)
    ensures
        node_texts(a + b) == node_texts(a) + node_texts(b),
    decreases b.len(),
{
    if b.len() == 0 {
        assert(a + b =~= a);
        assert(node_texts(a) + node_texts(b) =~= node_texts(a));
    } else {
        lemma_node_texts_concat(a, b.drop_last());
        assert((a + b).drop_last() =~= a + b.drop_last());
        assert((a + b).last() == b.last());
        if b.last() is Node {
            assert(node_texts(a) + node_texts(b) =~= (node_texts(a) + node_texts(b.drop_last())).push(
                text_of(b.last()),
            ));
        }
    }
}

proof fn lemma_node_texts_none(b: Seq<Cst>)
    requires
        forall|j: int| 0 <= j < b.len() ==> !(#[trigger] b[j] is Node),
    ensures
        node_texts(b) == Seq::<Seq<char>>::empty(),
    decreases b.len(),
{
    if b.len() > 0 {
        lemma_node_texts_none(b.drop_last());
    }
}

proof fn lemma_node_texts_insert(cs: Seq<Cst>, i: int, e: Cst)
    requires
        0 <= i <= cs.len(),
        e is Node,
        forall|j: int| 0 <= j < cs.len() && cs[j] is Node ==> j < i,
    ensures
        node_texts(cs.insert(i, e)) == node_texts(cs).push(text_of(e)),
{
    let a = cs.subrange(0, i);
    let b = cs.subrange(i, cs.len() as int);
    assert(cs.insert(i, e) =~= a.push(e) + b);
    assert(cs =~= a + b);
    lemma_node_texts_none(b);
    lemma_node_texts_concat(a.push(e), b);
    lemma_node_texts_concat(a, b);
    assert(a.push(e).drop_last() =~= a);
    assert(node_texts(a.push(e)) + node_texts(b) =~= node_texts(a.push(e)));
    assert(node_texts(a) + node_texts(b) =~= node_texts(a));
}

proof fn lemma_insert_one_step(cs: Seq<Cst>, e: Cst)
    requires
        closed_after_nodes(cs),
        e is Node,
        text_of(e) != "]"@,
    ensures
        closed_after_nodes(insert_one(cs, e)),
        insert_one(cs, e).len() == cs.len() + 1,
        node_texts(insert_one(cs, e)) == node_texts(cs).push(text_of(e)),
{
    lemma_first_closing_props(cs, 0);
    let c = first_closing(cs, 0)->Some_0;
    let i = insert_point(cs)->Some_0;
    let r = cs.insert(i, e);
    assert(insert_one(cs, e) == r);
    assert(i == c || i == c - 1);
    assert(r.len() == cs.len() + 1);
    assert forall|j: int| 0 <= j < c + 1 implies text_of(#[trigger] r[j]) != "]"@ by {
        if j < i {
            assert(r[j] == cs[j]);
        } else if j > i {
            assert(r[j] == cs[j - 1]);
        }
    }
    assert(r[c + 1] == cs[c]);
    lemma_first_closing_is(r, 0, c + 1);
    assert(first_closing(r, 0) == Some(c + 1));
    assert forall|j: int| 0 <= j < r.len() && r[j] is Node implies j < c + 1 by {
        if j < i {
            assert(r[j] == cs[j]);
        } else if j > i {
            assert(r[j] == cs[j - 1]);
        }
    }
    lemma_node_texts_insert(cs, i, e);
}

/// Appending elements keeps the list's elements and adds the new ones after
/// them, in the order given, duplicates included.
pub proof fn lemma_append_elements(cs: Seq<Cst>, es: Seq<Cst>)
    requires
        closed_after_nodes(cs),
        forall|i: int| 0 <= i < es.len() ==> #[trigger] es[i] is Node && text_of(es[i]) != "]"@,
    ensures
        closed_after_nodes(insert_elems(cs, es)),
        insert_elems(cs, es).len() == cs.len() + es.len(),
        node_texts(insert_elems(cs, es)) == node_texts(cs) + es.map_values(|e: Cst| text_of(e)),
    decreases es.len(),
{
    if es.len() == 0 {
        assert(node_texts(cs) + es.map_values(|e: Cst| text_of(e)) =~= node_texts(cs));
    } else {
        let prev = es.drop_last();
        assert forall|i: int| 0 <= i < prev.len() implies #[trigger] prev[i] is Node && text_of(prev[i])
            != "]"@ by {
            assert(prev[i] == es[i]);
        }
        lemma_append_elements(cs, prev);
        lemma_insert_one_step(insert_elems(cs, prev), es.last());
        assert(es.map_values(|e: Cst| text_of(e)) =~= prev.map_values(|e: Cst| text_of(e)).push(
            text_of(es.last()),
        ));
    }
}

/// Adding an attribute keeps every child of the attribute set, in order,
/// and adds one new child.
pub proof fn lemma_creation_keeps_children(base: Cst, name: Seq<char>, val: Seq<char>)
    requires
        base is Node,
    ensures
        ({
            let cs = kids(base);
            let ix = creation_index(cs, split_dots(name));
            let ns = kids(with_binding(base, name, val));
            0 <= ix <= cs.len() && ns.len() == cs.len() + 1 && ns.remove(ix) == cs
        }),
{
    let cs = kids(base);
    let q = split_dots(name);
    lemma_creation_index_bounds(cs, q);
    let ix = creation_index(cs, q);
    let ns = kids(with_binding(base, name, val));
    assert(ns.remove(ix) =~= cs);
}

proof fn lemma_related_bound(cs: Seq<Cst>, q: Seq<Seq<char>>, n: int)
    ensures
        related(cs, q, n) matches Some(i) ==> i < cs.len(),
    decreases n,
{
    if n > 0 {
        lemma_first_related_bound(cs, q.subrange(0, n), 0);
        lemma_related_bound(cs, q, n - 1);
    }
}

proof fn lemma_first_related_bound(cs: Seq<Cst>, qp: Seq<Seq<char>>, i: int)
    ensures
        first_related(cs, qp, i) matches Some(j) ==> j < cs.len(),
    decreases cs.len() - i,
{
    if 0 <= i < cs.len() {
        lemma_first_related_bound(cs, qp, i + 1);
    }
}

proof fn lemma_first_break_bound(cs: Seq<Cst>, i: int)
    ensures
        first_break(cs, i) matches Some(j) ==> j < cs.len(),
    decreases cs.len() - i,
{
    if 0 <= i < cs.len() {
        lemma_first_break_bound(cs, i + 1);
    }
}

proof fn lemma_last_node_bound(cs: Seq<Cst>, n: int)
    ensures
        last_node_before(cs, n) matches Some(j) ==> j < cs.len(),
    decreases n,
{
    if 0 < n <= cs.len() && !(cs[n - 1] is Node) {
        lemma_last_node_bound(cs, n - 1);
    }
}

proof fn lemma_creation_index_bounds(cs: Seq<Cst>, q: Seq<Seq<char>>)
    ensures
        0 <= creation_index(cs, q) <= cs.len(),
{
    lemma_last_node_bound(cs, cs.len() as int);
    lemma_related_bound(cs, q, q.len() as int);
    if let Some(i) = related(cs, q, q.len() as int) {
        lemma_first_break_bound(cs, i as int);
    }
}

/// Successive appends land side by side: the elements end up together, in
/// order, where the first one went.
proof fn lemma_insert_elems_shape(cs: Seq<Cst>, es: Seq<Cst>)
    requires
        first_closing(cs, 0) is Some,
        forall|i: int| 0 <= i < es.len() ==> #[trigger] es[i] is Node && text_of(es[i]) != "]"@,
    ensures
        ({
            let i0 = insert_point(cs)->Some_0;
            insert_elems(cs, es) == cs.subrange(0, i0) + es + cs.subrange(i0, cs.len() as int)
        }),
    decreases es.len(),
{
    lemma_first_closing_props(cs, 0);
    let c = first_closing(cs, 0)->Some_0;
    let i0 = insert_point(cs)->Some_0;
    if es.len() == 0 {
        assert(cs.subrange(0, i0) + es + cs.subrange(i0, cs.len() as int) =~= cs);
    } else {
        let prev = es.drop_last();
        assert forall|i: int| 0 <= i < prev.len() implies #[trigger] prev[i] is Node && text_of(prev[i])
            != "]"@ by {
            assert(prev[i] == es[i]);
        }
        lemma_insert_elems_shape(cs, prev);
        let m = prev.len() as int;
        let r = cs.subrange(0, i0) + prev + cs.subrange(i0, cs.len() as int);
        assert(insert_elems(cs, prev) == r);
        assert forall|j: int| 0 <= j < c + m implies text_of(#[trigger] r[j]) != "]"@ by {
            if j < i0 {
                assert(r[j] == cs[j]);
            } else if j < i0 + m {
                assert(r[j] == prev[j - i0]);
                assert(prev[j - i0] == es[j - i0]);
            } else {
                assert(r[j] == cs[j - m]);
            }
        }
        assert(r[c + m] == cs[c]);
        lemma_first_closing_is(r, 0, c + m);
        if m > 0 {
            if i0 == c {
                assert(r[c + m - 1] == prev[m - 1]);
                assert(prev[m - 1] == es[m - 1]);
            } else {
                assert(r[c + m - 1] == cs[c - 1]);
            }
        }
        assert(insert_point(r) == Some(i0 + m));
        assert(r.insert(i0 + m, es.last()) =~= cs.subrange(0, i0) + es + cs.subrange(i0, cs.len() as int));
    }
}

/// The text appended for `items`: each item on a new line, indented by four spaces.
pub open spec fn pieces(items: Seq<Seq<char>>) -> Seq<char>
    decreases items.len(),
{
    if items.len() == 0 {
        Seq::empty()
    } else {
        pieces(items.drop_last()) + "\n    "@ + items.last()
    }
}

proof fn lemma_pieces(items: Seq<Seq<char>>)
    requires
        forall|j: int| 0 <= j < items.len() ==> element_ok(#[trigger] items[j]),
    ensures
        texts_of(elements_of(items)) == pieces(items),
    decreases items.len(),
{
    if items.len() > 0 {
        let prev = items.drop_last();
        assert forall|j: int| 0 <= j < prev.len() implies element_ok(#[trigger] prev[j]) by {
            assert(prev[j] == items[j]);
        }
        lemma_pieces(prev);
        let es = elements_of(items);
        assert(es.subrange(0, es.len() - 1) =~= elements_of(prev));
        assert(element_ok(items[items.len() - 1]));
        assert(pieces(items) =~= pieces(prev) + ("\n    "@ + items.last()));
    } else {
        assert(elements_of(items) =~= Seq::<Cst>::empty());
    }
}

/// Whether `path` resolves to a list of document `f` that has a closing bracket.
pub open spec fn appendable(f: Seq<char>, path: Seq<char>) -> bool {
    match resolved(f, split_dots(path)) {
        Resolution::At(p) => match list_at(parsed(f), p) {
            Some(lp) => match at(parsed(f), lp) {
                Some(l) => first_closing(kids(l), 0) is Some,
                None => false,
            },
            None => false,
        },
        _ => false,
    }
}

/// Appending to a list of the document inserts the new elements' text at
/// one position and leaves every other byte of the document as it was.
proof fn lemma_append_text(f: Seq<char>, path: Seq<char>, items: Seq<Seq<char>>)
    requires
        appendable(f, path),
        text_of(parsed(f)) == f,
        forall|j: int| 0 <= j < items.len() ==> element_ok(#[trigger] items[j]),
    ensures
        append_existing(f, split_dots(path), items) matches Some(Ok(s)) && inserted(f, s, pieces(items)),
{
    let t = parsed(f);
    let p = resolved(f, split_dots(path))->At_0;
    let lp = list_at(t, p)->Some_0;
    let l = at(t, lp)->Some_0;
    let cs = kids(l);
    let es = elements_of(items);
    let b = at(t, p)->Some_0;
    lemma_list_path_at(b);
    lemma_at_concat(t, p, list_path(b)->Some_0);
    assert(kind_is(l, Kind::List));
    assert forall|i: int| 0 <= i < es.len() implies #[trigger] es[i] is Node && text_of(es[i]) != "]"@ by {
        assert(es[i] == element_of(items[i]));
        assert(element_ok(items[i]));
        reveal_strlit("\n    ");
        reveal_strlit("]");
        assert(text_of(es[i])[0] == '\n');
    }
    lemma_insert_elems_shape(cs, es);
    let i0 = insert_point(cs)->Some_0;
    lemma_first_closing_props(cs, 0);
    let a = cs.subrange(0, i0);
    let z = cs.subrange(i0, cs.len() as int);
    lemma_texts_concat(a + es, z);
    lemma_texts_concat(a, es);
    lemma_texts_concat(a, z);
    assert(a + z =~= cs);
    lemma_pieces(items);
    let w = texts_of(a).len() as int;
    let nl = with_kids(l, insert_items(cs, items));
    assert(texts_of(cs).subrange(0, w) =~= texts_of(a));
    assert(texts_of(cs).subrange(w, texts_of(cs).len() as int) =~= texts_of(z));
    assert(text_of(nl) =~= splice(text_of(l), w, pieces(items)));
    assert(inserted(text_of(l), text_of(nl), pieces(items)));
    lemma_replace_inserted(t, lp, nl, pieces(items));
}

/// Appending no items to an existing list gives the document back unchanged.
proof fn lemma_append_nothing(f: Seq<char>, path: Seq<char>)
    requires
        read_spec(f, path) is Ok,
        text_of(parsed(f)) == f,
    ensures
        append_existing(f, split_dots(path), Seq::empty()) == Some(Ok::<Seq<char>, WriteError>(f)),
{
    let t = parsed(f);
    let p = resolved(f, split_dots(path))->At_0;
    let lp = list_at(t, p)->Some_0;
    let b = at(t, p)->Some_0;
    lemma_list_path_at(b);
    lemma_at_concat(t, p, list_path(b)->Some_0);
    let l = at(t, lp)->Some_0;
    assert(elements_of(Seq::<Seq<char>>::empty()) =~= Seq::<Cst>::empty());
    assert(insert_items(kids(l), Seq::empty()) == kids(l));
    assert(with_kids(l, kids(l)) == l);
    lemma_replace_same(t, lp);
}

} // verus!

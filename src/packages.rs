//! Adding packages to and removing them from `home.packages`.
use crate::append::{add_spec, addtoarr};
use crate::edit::{getarrvals, read_spec, ReadError, WriteError};
use crate::remove::{rm_spec, rmarr};
use crate::resolve::views;
use indexmap::IndexSet;
use vstd::prelude::*;

verus! {

/// indexmap's insertion-ordered set, held opaque.
#[verifier::external_type_specification]
#[verifier::external_body]
#[verifier::reject_recursive_types(T)]
#[verifier::reject_recursive_types(S)]
pub struct ExIndexSet<T, S>(IndexSet<T, S>);

/// The items of a set, in insertion order.
pub uninterp spec fn set_items(s: IndexSet<String>) -> Seq<Seq<char>>;

/// A sequence with every repeated item after its first occurrence left out.
pub open spec fn dedup(s: Seq<Seq<char>>) -> Seq<Seq<char>>
    decreases s.len(),
{
    if s.len() == 0 {
        Seq::empty()
    } else if dedup(s.drop_last()).contains(s.last()) {
        dedup(s.drop_last())
    } else {
        dedup(s.drop_last()).push(s.last())
    }
}

/// Relies on `IndexSet::from_iter`: items are inserted in order, and an item
/// already present keeps its place.
#[verifier::external_body]
fn set_from(v: &Vec<String>) -> (r: IndexSet<String>)
    ensures
        set_items(r) == dedup(views(v@)),
{
    IndexSet::from_iter(v.iter().cloned())
}

/// Relies on `IndexSet::contains`: whether an equal item is in the set.
#[verifier::external_body]
fn set_contains(s: &IndexSet<String>, x: &String) -> (r: bool)
    ensures
        r == set_items(*s).contains(x@),
{
    s.contains(x)
}

/// Relies on `IndexSet::iter`: the items, in insertion order.
#[verifier::external_body]
fn set_to_vec(s: &IndexSet<String>) -> (r: Vec<String>)
    ensures
        views(r@) == set_items(*s),
{
    s.iter().cloned().collect()
}

/// The attribute that holds the packages.
pub const QUERY: &'static str = "home.packages";

/// Whether packages are added or removed.
#[derive(PartialEq, Eq, Structural, Clone, Copy, Debug)]
pub enum UpdateNixMode {
    Add,
    Remove,
}

/// Why updating the package list failed.
#[derive(PartialEq, Eq, Structural, Clone, Copy, Debug)]
pub enum UpdateNixError {
    /// The packages in the document could not be read.
    CouldNotReadNix(ReadError),
    /// The packages could not be written.
    CouldNotWriteNix(WriteError),
}

/// The items of `ps` that are (`present`) or are not among `ex`, in order.
pub open spec fn select(ps: Seq<Seq<char>>, ex: Seq<Seq<char>>, present: bool) -> Seq<Seq<char>>
    decreases ps.len(),
{
    if ps.len() == 0 {
        Seq::empty()
    } else if ex.contains(ps.last()) == present {
        select(ps.drop_last(), ex, present).push(ps.last())
    } else {
        select(ps.drop_last(), ex, present)
    }
}

/// What updating the package list of `content` gives: each requested
/// package once, in the order first given; those already listed are not
/// added again, and only those listed are removed.
pub open spec fn update_spec(content: Seq<char>, packages: Seq<Seq<char>>, mode: UpdateNixMode) -> Result<Seq<char>, UpdateNixError> {
    match read_spec(content, QUERY@) {
        Err(e) => Err(UpdateNixError::CouldNotReadNix(e)),
        Ok(existing) => {
            let chosen = select(dedup(packages), existing, mode == UpdateNixMode::Remove);
            let written = if mode == UpdateNixMode::Add {
                add_spec(content, QUERY@, chosen)
            } else {
                rm_spec(content, QUERY@, chosen)
            };
            match written {
                Ok(s) => Ok(s),
                Err(e) => Err(UpdateNixError::CouldNotWriteNix(e)),
            }
        },
    }
}

proof fn lemma_push_contains(d: Seq<Seq<char>>, l: Seq<char>, x: Seq<char>)
    ensures
        d.push(l).contains(x) == (d.contains(x) || l == x),
{
    if d.contains(x) {
        let k = choose|k: int| 0 <= k < d.len() && d[k] == x;
        assert(d.push(l)[k] == x);
    }
    if l == x {
        assert(d.push(l)[d.len() as int] == x);
    }
    if d.push(l).contains(x) {
        let k = choose|k: int| 0 <= k < d.len() + 1 && d.push(l)[k] == x;
        if k < d.len() {
            assert(d[k] == x);
        }
    }
}

proof fn lemma_dedup_contains(s: Seq<Seq<char>>, x: Seq<char>)
    ensures
        dedup(s).contains(x) == s.contains(x),
    decreases s.len(),
{
    if s.len() > 0 {
        let d = dedup(s.drop_last());
        let l = s.last();
        lemma_dedup_contains(s.drop_last(), x);
        lemma_dedup_contains(s.drop_last(), l);
        assert(s.drop_last().push(l) =~= s);
        lemma_push_contains(s.drop_last(), l, x);
        lemma_push_contains(d, l, x);
    }
}

/// The new text of `content` with `packages` added to or removed from its
/// `home.packages` list, as `update_spec` says.
pub fn update_nix(content: &str, packages: &Vec<String>, mode: UpdateNixMode) -> (r: Result<String, UpdateNixError>)
    ensures
        match r {
            Ok(s) => update_spec(content@, views(packages@), mode) == Ok::<Seq<char>, UpdateNixError>(s@),
            Err(e) => update_spec(content@, views(packages@), mode) == Err::<Seq<char>, UpdateNixError>(e),
        },
{
    let wanted = set_from(packages);
    let existing_list = match getarrvals(content, QUERY) {
        Ok(v) => v,
        Err(e) => return Err(UpdateNixError::CouldNotReadNix(e)),
    };
    let existing = set_from(&existing_list);
    let ordered = set_to_vec(&wanted);
    let present = mode == UpdateNixMode::Remove;
    let ghost ov = views(ordered@);
    let ghost ev = views(existing_list@);
    let mut chosen: Vec<String> = Vec::new();
    let mut i: usize = 0;
    proof {
        assert(ov.subrange(0, 0) =~= Seq::<Seq<char>>::empty());
        assert(views(chosen@) =~= Seq::<Seq<char>>::empty());
    }
    while i < ordered.len()
        invariant
            ov == views(ordered@),
            i <= ordered.len(),
            set_items(existing) == dedup(ev),
            views(chosen@) == select(ov.subrange(0, i as int), ev, present),
        decreases ordered.len() - i,
    {
        let listed = set_contains(&existing, &ordered[i]);
        proof {
            lemma_dedup_contains(ev, ordered@[i as int]@);
            assert(ov.subrange(0, i + 1).drop_last() =~= ov.subrange(0, i as int));
            assert(ov.subrange(0, i + 1).last() == ordered@[i as int]@);
        }
        if listed == present {
            let ghost before = chosen@;
            chosen.push(ordered[i].clone());
            proof {
                assert(views(chosen@) =~= views(before).push(ordered@[i as int]@));
            }
        }
        i += 1;
    }
    proof {
        assert(ov.subrange(0, i as int) =~= ov);
    }
    let written = if mode == UpdateNixMode::Add {
        addtoarr(content, QUERY, chosen)
    } else {
        rmarr(content, QUERY, chosen)
    };
    match written {
        Ok(s) => Ok(s),
        Err(e) => Err(UpdateNixError::CouldNotWriteNix(e)),
    }
}

/// The new text of `content` with `packages` added to `home.packages`.
pub fn add(content: &str, packages: &Vec<String>) -> (r: Result<String, UpdateNixError>)
    ensures
        match r {
            Ok(s) => update_spec(content@, views(packages@), UpdateNixMode::Add) == Ok::<Seq<char>, UpdateNixError>(s@),
            Err(e) => update_spec(content@, views(packages@), UpdateNixMode::Add) == Err::<Seq<char>, UpdateNixError>(e),
        },
{
    update_nix(content, packages, UpdateNixMode::Add)
}

/// The new text of `content` with `packages` removed from `home.packages`.
pub fn remove(content: &str, packages: &Vec<String>) -> (r: Result<String, UpdateNixError>)
    ensures
        match r {
            Ok(s) => update_spec(content@, views(packages@), UpdateNixMode::Remove) == Ok::<Seq<char>, UpdateNixError>(s@),
            Err(e) => update_spec(content@, views(packages@), UpdateNixMode::Remove) == Err::<Seq<char>, UpdateNixError>(e),
        },
{
    update_nix(content, packages, UpdateNixMode::Remove)
}

} // verus!

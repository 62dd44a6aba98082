//! The query engine: matches a pattern expression tree, which may
//! contain named free variables, against the expression trees of a
//! program, reporting each matching position with its variable
//! bindings.

use vstd::prelude::*;
use crate::expression::{OpTree, OpTreeV, tree_clone, tree_eq, tree_view, tree_wf};
use crate::executor::tree_entries_view;

verus! {

broadcast use vstd::std_specs::vec::group_vec_axioms;

/// The binding of a variable name, looked up in order of first
/// binding.
pub open spec fn lookup_binding(b: Seq<(Seq<char>, OpTreeV)>, name: Seq<char>) -> Option<OpTreeV>
    decreases b.len(),
{
    if b.len() == 0 {
        None
    } else if b[0].0 == name {
        Some(b[0].1)
    } else {
        lookup_binding(b.skip(1), name)
    }
}

/// Matching a pattern against a candidate under existing bindings.
///
/// A constant matches an equal constant; a named variable matches
/// anything unbound, or exactly its bound subtree (the consistency
/// requirement); an operation matches an operation with the same
/// opcode and arity whose children all match in order, threading the
/// bindings left to right.  Everything else fails.
pub open spec fn match_spec(pat: OpTreeV, cand: OpTreeV, b: Seq<(Seq<char>, OpTreeV)>) -> Option<
    Seq<(Seq<char>, OpTreeV)>,
>
    decreases pat, 0int,
{
    match pat {
        OpTreeV::Constant(v) => match cand {
            OpTreeV::Constant(w) => if v == w {
                Some(b)
            } else {
                None
            },
            _ => None,
        },
        OpTreeV::Query(name) => match lookup_binding(b, name) {
            Some(t) => if t == cand {
                Some(b)
            } else {
                None
            },
            None => Some(b.push((name, cand))),
        },
        OpTreeV::Operation(op, cs) => match cand {
            OpTreeV::Operation(op2, ds) => if op == op2 && cs.len() == ds.len() {
                match_children(cs, ds, 0, b)
            } else {
                None
            },
            _ => None,
        },
    }
}

/// Matching the children pairwise from index `k` on.
pub open spec fn match_children(
    cs: Seq<OpTreeV>,
    ds: Seq<OpTreeV>,
    k: int,
    b: Seq<(Seq<char>, OpTreeV)>,
) -> Option<Seq<(Seq<char>, OpTreeV)>>
    decreases cs, cs.len() - k,
{
    if k < 0 || k >= cs.len() || cs.len() != ds.len() {
        Some(b)
    } else {
        match match_spec(cs[k], ds[k], b) {
            Some(b2) => match_children(cs, ds, k + 1, b2),
            None => None,
        }
    }
}

/// All matches of a pattern over recorded position-to-tree entries,
/// in entry order, each starting from no bindings.
pub open spec fn query_spec(entries: Seq<(int, OpTreeV)>, pat: OpTreeV) -> Seq<
    (int, Seq<(Seq<char>, OpTreeV)>),
>
    decreases entries.len(),
{
    if entries.len() == 0 {
        Seq::empty()
    } else {
        (match match_spec(pat, entries[0].1, Seq::empty()) {
            Some(b) => seq![(entries[0].0, b)],
            None => Seq::empty(),
        }) + query_spec(entries.skip(1), pat)
    }
}

/// One successful match: the position of the matched tree and the
/// variable-to-subtree bindings.
pub struct QueryMatch {
    pub position: usize,
    pub bindings: Vec<(String, OpTree)>,
}

pub open spec fn bindings_view(b: Seq<(String, OpTree)>) -> Seq<(Seq<char>, OpTreeV)> {
    Seq::new(
        b.len(),
        |i: int|
            if 0 <= i < b.len() {
                (b[i].0@, tree_view(b[i].1))
            } else {
                (Seq::<char>::empty(), OpTreeV::Constant(0))
            },
    )
}

pub open spec fn matches_view(ms: Seq<QueryMatch>) -> Seq<(int, Seq<(Seq<char>, OpTreeV)>)> {
    Seq::new(
        ms.len(),
        |i: int|
            if 0 <= i < ms.len() {
                (ms[i].position as int, bindings_view(ms[i].bindings@))
            } else {
                (0int, Seq::empty())
            },
    )
}

pub open spec fn bindings_wf(b: Seq<(String, OpTree)>) -> bool {
    forall|i: int| 0 <= i < b.len() ==> tree_wf((#[trigger] b[i]).1)
}

/// Looks a name up in the bindings.
fn find_binding<'a>(b: &'a Vec<(String, OpTree)>, name: &String) -> (r: Option<&'a OpTree>)
    ensures
        match r {
            Some(t) => lookup_binding(bindings_view(b@), name@) == Some(tree_view(*t)) && (
            bindings_wf(b@) ==> tree_wf(*t)),
            None => lookup_binding(bindings_view(b@), name@) is None,
        },
{
    let n = b.len();
    let mut i: usize = 0;
    proof {
        assert(bindings_view(b@).skip(0) =~= bindings_view(b@));
    }
    while i < n
        invariant
            0 <= i <= n,
            n == b@.len(),
            lookup_binding(bindings_view(b@), name@) == lookup_binding(
                bindings_view(b@).skip(i as int),
                name@,
            ),
            forall|j: int| 0 <= j < i ==> bindings_view(b@)[j].0 != name@,
        decreases n - i,
    {
        if b[i].0.eq(name) {
            proof {
                let bs = bindings_view(b@).skip(i as int);
                assert(bs[0] == bindings_view(b@)[i as int]);
                assert(bs[0].0 == name@);
            }
            return Some(&b[i].1);
        }
        proof {
            let bs = bindings_view(b@).skip(i as int);
            assert(bs[0] == bindings_view(b@)[i as int]);
            assert(bs.skip(1) =~= bindings_view(b@).skip(i + 1));
        }
        i += 1;
    }
    proof {
        assert(bindings_view(b@).skip(n as int) =~= Seq::<(Seq<char>, OpTreeV)>::empty());
    }
    None
}

/// Matches the pattern against a candidate, extending the bindings.
/// On failure the bindings are meaningless and the caller discards
/// them.
fn match_tree(pat: &OpTree, cand: &OpTree, bindings: &mut Vec<(String, OpTree)>) -> (r: bool)
    requires
        tree_wf(*pat),
        tree_wf(*cand),
        bindings_wf(old(bindings)@),
    ensures
        r == (match_spec(tree_view(*pat), tree_view(*cand), bindings_view(old(bindings)@))
            is Some),
        r ==> Some(bindings_view(final(bindings)@)) == match_spec(
            tree_view(*pat),
            tree_view(*cand),
            bindings_view(old(bindings)@),
        ),
        bindings_wf(final(bindings)@),
    decreases *pat,
{
    match pat {
        OpTree::Constant(v) => {
            match cand {
                OpTree::Constant(w) => v.eq_val(w),
                _ => false,
            }
        },
        OpTree::Query(name) => {
            match find_binding(bindings, name) {
                Some(t) => tree_eq(t, cand),
                None => {
                    let ghost old_b = bindings@;
                    bindings.push((name.clone(), tree_clone(cand)));
                    proof {
                        assert(bindings_view(bindings@) =~= bindings_view(old_b).push(
                            (name@, tree_view(*cand)),
                        ));
                    }
                    true
                },
            }
        },
        OpTree::Operation(op, cs) => {
            match cand {
                OpTree::Operation(op2, ds) => {
                    if *op != *op2 || cs.len() != ds.len() {
                        proof {
                            assert(tree_view(*pat)->Operation_1.len() == cs@.len());
                            assert(tree_view(*cand)->Operation_1.len() == ds@.len());
                        }
                        false
                    } else {
                        let n = cs.len();
                        let ghost vcs = tree_view(*pat)->Operation_1;
                        let ghost vds = tree_view(*cand)->Operation_1;
                        let mut k: usize = 0;
                        let mut ok = true;
                        while k < n && ok
                            invariant
                                0 <= k <= n,
                                n == cs@.len() == ds@.len(),
                                tree_wf(*pat),
                                tree_wf(*cand),
                                pat is Operation && cand is Operation,
                                cs == pat->Operation_1,
                                ds == cand->Operation_1,
                                vcs == tree_view(*pat)->Operation_1,
                                vds == tree_view(*cand)->Operation_1,
                                vcs.len() == n && vds.len() == n,
                                bindings_wf(bindings@),
                                ok ==> match_children(
                                    vcs,
                                    vds,
                                    0,
                                    bindings_view(old(bindings)@),
                                ) == match_children(vcs, vds, k as int, bindings_view(bindings@)),
                                !ok ==> match_children(
                                    vcs,
                                    vds,
                                    0,
                                    bindings_view(old(bindings)@),
                                ) is None,
                            decreases n - k,
                        {
                            proof {
                                assert(tree_wf(cs@[k as int]));
                                assert(tree_wf(ds@[k as int]));
                                assert(vcs[k as int] == tree_view(cs@[k as int]));
                                assert(vds[k as int] == tree_view(ds@[k as int]));
                            }
                            let ghost b_before = bindings_view(bindings@);
                            let m = match_tree(&cs[k], &ds[k], bindings);
                            if !m {
                                ok = false;
                            }
                            k += 1;
                        }
                        proof {
                            if ok {
                                assert(match_children(
                                    vcs,
                                    vds,
                                    n as int,
                                    bindings_view(bindings@),
                                ) == Some(bindings_view(bindings@)));
                            }
                        }
                        ok
                    }
                },
                _ => false,
            }
        },
    }
}

/// Runs a pattern over the recorded entries, yielding one match per
/// position where the top-level match succeeds, in position order.
pub fn run_query(entries: &Vec<(usize, OpTree)>, pattern: &OpTree) -> (r: Vec<QueryMatch>)
    requires
        tree_wf(*pattern),
        forall|k: int| 0 <= k < entries@.len() ==> tree_wf((#[trigger] entries@[k]).1),
    ensures
        matches_view(r@) == query_spec(tree_entries_view(entries@), tree_view(*pattern)),
{
    let n = entries.len();
    let mut r: Vec<QueryMatch> = Vec::new();
    let mut i: usize = 0;
    proof {
        assert(tree_entries_view(entries@).skip(0) =~= tree_entries_view(entries@));
        assert(matches_view(r@) =~= Seq::<(int, Seq<(Seq<char>, OpTreeV)>)>::empty());
        assert(matches_view(r@) + query_spec(
            tree_entries_view(entries@).skip(0),
            tree_view(*pattern),
        ) =~= query_spec(tree_entries_view(entries@), tree_view(*pattern)));
    }
    while i < n
        invariant
            0 <= i <= n,
            n == entries@.len(),
            tree_wf(*pattern),
            forall|k: int| 0 <= k < entries@.len() ==> tree_wf((#[trigger] entries@[k]).1),
            matches_view(r@) + query_spec(
                tree_entries_view(entries@).skip(i as int),
                tree_view(*pattern),
            ) =~= query_spec(tree_entries_view(entries@), tree_view(*pattern)),
        decreases n - i,
    {
        let ghost rest = tree_entries_view(entries@).skip(i as int);
        proof {
            assert(rest[0] == tree_entries_view(entries@)[i as int]);
            assert(rest.skip(1) =~= tree_entries_view(entries@).skip(i + 1));
            assert(bindings_view(Seq::<(String, OpTree)>::empty()) =~= Seq::<
                (Seq<char>, OpTreeV),
            >::empty());
        }
        let mut bindings: Vec<(String, OpTree)> = Vec::new();
        let m = match_tree(pattern, &entries[i].1, &mut bindings);
        if m {
            let ghost old_r = r@;
            r.push(QueryMatch { position: entries[i].0, bindings });
            proof {
                assert(matches_view(r@) =~= matches_view(old_r) + seq![
                    (entries@[i as int].0 as int, bindings_view(r@.last().bindings@)),
                ]);
            }
        }
        proof {
            assert(matches_view(r@) + query_spec(
                tree_entries_view(entries@).skip(i + 1),
                tree_view(*pattern),
            ) =~= query_spec(tree_entries_view(entries@), tree_view(*pattern)));
        }
        i += 1;
    }
    proof {
        assert(tree_entries_view(entries@).skip(n as int) =~= Seq::<(int, OpTreeV)>::empty());
        assert(matches_view(r@) =~= query_spec(tree_entries_view(entries@), tree_view(*pattern)));
    }
    r
}

} // verus!

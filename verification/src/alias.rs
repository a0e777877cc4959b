//! The MIR pass: which locals it considers, and when it runs.
use vstd::prelude::*;

use crate::analysis::{
    is_mut_ref_to_copy, mut_refs_to_copies, spec_is_mut_ref_to_copy,
};
use crate::mir::{Body, Local, Mutability, TyCtxt, TyKind};

verus! {

/// The pass that analyses a body and eliminates the reads it can.
pub struct Alias;

impl Alias {
    /// The pass runs only when the compiler emits retag statements.
    pub fn is_enabled(&self, mir_emit_retag: bool) -> (r: bool)
        ensures
            r == mir_emit_retag,
    {
        mir_emit_retag
    }
}

/// The arguments of `body`, in order, whose type is a mutable reference to a `Copy` type.
pub open spec fn retag_candidates(tcx: TyCtxt, body: Body) -> Seq<Local> {
    Seq::new(body.arg_count as nat, |i: int| (i + 1) as Local).filter(
        |l: Local| spec_is_mut_ref_to_copy(tcx, body.local_decls@[l as int].ty),
    )
}

/// Collects the places the analysis checks: the arguments that are mutable references to
/// `Copy` types. (These are the arguments that get retagged; they are found from their types so
/// that the pass does not depend on retag statements.)
pub fn get_retags(tcx: &TyCtxt, body: &Body) -> (r: Vec<Local>)
    requires
        body.arg_count < body.local_decls@.len(),
    ensures
        r@ == retag_candidates(*tcx, *body),
{
    let ghost args = Seq::new(body.arg_count as nat, |i: int| (i + 1) as Local);
    let ghost pred = |l: Local| spec_is_mut_ref_to_copy(*tcx, body.local_decls@[l as int].ty);
    let n_locals = body.local_decls.len();
    let mut result: Vec<Local> = Vec::new();
    let mut arg: usize = 1;
    while arg <= body.arg_count
        invariant
            1 <= arg <= body.arg_count + 1,
            body.arg_count < n_locals,
            n_locals == body.local_decls@.len(),
            args == Seq::new(body.arg_count as nat, |i: int| (i + 1) as Local),
            pred == (|l: Local| spec_is_mut_ref_to_copy(*tcx, body.local_decls@[l as int].ty)),
            result@ == args.take(arg - 1).filter(pred),
        decreases body.arg_count + 1 - arg,
    {
        proof {
            reveal_with_fuel(Seq::<_>::filter, 1);
            assert(args.take(arg as int).drop_last() =~= args.take(arg - 1));
            assert(args.take(arg as int).last() == arg);
        }
        if is_mut_ref_to_copy(tcx, body.local_decls[arg].ty) {
            result.push(arg);
        }
        arg = arg + 1;
    }
    assert(args.take(body.arg_count as int) =~= args);
    result
}

proof fn lemma_filter_all<A>(s: Seq<A>, pred: spec_fn(A) -> bool)
    requires
        forall|i: int| 0 <= i < s.len() ==> pred(#[trigger] s[i]),
    ensures
        s.filter(pred) == s,
    decreases s.len(),
{
    reveal_with_fuel(Seq::<_>::filter, 1);
    if s.len() > 0 {
        lemma_filter_all(s.drop_last(), pred);
        assert(pred(s[s.len() - 1]));
        assert(s.drop_last().push(s.last()) =~= s);
    } else {
        assert(s.filter(pred) =~= s);
    }
}

/// Filtering a strictly increasing sequence keeps it strictly increasing.
proof fn lemma_filter_increasing(s: Seq<Local>, pred: spec_fn(Local) -> bool)
    requires
        forall|i: int, j: int| 0 <= i < j < s.len() ==> s[i] < s[j],
    ensures
        forall|i: int, j: int|
            0 <= i < j < s.filter(pred).len() ==> s.filter(pred)[i] < s.filter(pred)[j],
    decreases s.len(),
{
    reveal_with_fuel(Seq::<_>::filter, 1);
    if s.len() > 0 {
        let rest = s.drop_last();
        lemma_filter_increasing(rest, pred);
        let f = s.filter(pred);
        let g = rest.filter(pred);
        assert forall|i: int, j: int| 0 <= i < j < f.len() implies f[i] < f[j] by {
            if pred(s.last()) && j == f.len() - 1 {
                assert(f[j] == s.last());
                assert(f[i] == g[i]);
                assert(g.contains(g[i]));
                rest.lemma_filter_contains_rev(pred, g[i]);
                let k = choose|k: int| 0 <= k < rest.len() && rest[k] == g[i];
                assert(s[k] == rest[k]);
            } else {
                assert(f[i] == g[i]);
                assert(f[j] == g[j]);
            }
        }
    }
}

/// Law: the pass collects exactly the arguments (locals `1..=arg_count`; not the return place
/// `0`, nor any other local) whose type is `&mut T` for a `Copy` type `T`, each once, in
/// increasing order.
pub proof fn lemma_retags_are_mut_ref_arguments(tcx: TyCtxt, body: Body)
    requires
        body.arg_count < body.local_decls@.len(),
    ensures
        forall|k: int|
            0 <= k < retag_candidates(tcx, body).len() ==> 1 <= #[trigger] retag_candidates(
                tcx,
                body,
            )[k] <= body.arg_count,
        forall|j: int, k: int|
            0 <= j < k < retag_candidates(tcx, body).len() ==> retag_candidates(tcx, body)[j]
                < retag_candidates(tcx, body)[k],
        forall|l: Local|
            #[trigger] retag_candidates(tcx, body).contains(l) <==> (1 <= l <= body.arg_count
                && match tcx.kind_of(body.local_decls@[l as int].ty) {
                TyKind::Ref(pointee, Mutability::Mut) => tcx.spec_is_copy(pointee),
                _ => false,
            }),
{
    let args = Seq::new(body.arg_count as nat, |i: int| (i + 1) as Local);
    let pred = |l: Local| spec_is_mut_ref_to_copy(tcx, body.local_decls@[l as int].ty);
    let c = args.filter(pred);
    assert(c == retag_candidates(tcx, body));
    assert forall|k: int| 0 <= k < c.len() implies 1 <= #[trigger] c[k] <= body.arg_count
        && pred(c[k]) by {
        args.lemma_filter_pred(pred, k);
        assert(c.contains(c[k]));
        args.lemma_filter_contains_rev(pred, c[k]);
    }
    lemma_filter_increasing(args, pred);
    assert forall|l: Local| 1 <= l <= body.arg_count && pred(l) implies #[trigger] c.contains(l) by {
        assert(args[l - 1] == l);
        args.lemma_filter_contains(pred, l - 1);
    }
}

/// Law: the analysis keeps every local the pass collects. Filtering the collected locals for
/// mutable references to `Copy` types, as computing the immutability spans does first, changes
/// nothing.
pub proof fn lemma_analysis_keeps_collected_locals(tcx: TyCtxt, body: Body)
    ensures
        mut_refs_to_copies(tcx, body, retag_candidates(tcx, body)) == retag_candidates(tcx, body),
{
    let args = Seq::new(body.arg_count as nat, |i: int| (i + 1) as Local);
    let pred = |l: Local| spec_is_mut_ref_to_copy(tcx, body.local_decls@[l as int].ty);
    let c = args.filter(pred);
    assert forall|i: int| 0 <= i < c.len() implies pred(#[trigger] c[i]) by {
        args.lemma_filter_pred(pred, i);
    }
    lemma_filter_all(c, pred);
}

} // verus!

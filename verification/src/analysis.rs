//! The analyses that find where a mutable reference is on top of its borrow stack.
pub mod local_set;
pub mod top_of_borrow_stack;

pub use local_set::{GenKill, LocalSet};
pub use top_of_borrow_stack::{
    top_of_borrow_stack_table, TopOfBorrowStack, TopOfBorrowStackLocations,
    TopOfBorrowStackVisitor,
};

use vstd::prelude::*;

use crate::mir::{Body, Local, Location, Mutability, Ty, TyCtxt, TyKind};

verus! {

/// An immutability span: a tracked local `x` and the locations at which `*x` still holds the
/// value written by the assignment the span starts at.
pub struct ImmutabilitySpan(pub Local, pub Vec<Location>);

/// The immutability spans of a body, each with the location of the assignment it starts at.
pub type ImmutabilitySpans = Vec<(Location, ImmutabilitySpan)>;

/// `ty` is `&mut T` for a `Copy` type `T`: a reference whose target reads can be copied out of.
pub open spec fn spec_is_mut_ref_to_copy(tcx: TyCtxt, ty: Ty) -> bool {
    match tcx.kind_of(ty) {
        TyKind::Ref(pointee, Mutability::Mut) => tcx.spec_is_copy(pointee),
        _ => false,
    }
}

pub fn is_mut_ref_to_copy(tcx: &TyCtxt, ty: Ty) -> (r: bool)
    ensures
        r == spec_is_mut_ref_to_copy(*tcx, ty),
{
    match tcx.kind(ty) {
        TyKind::Ref(pointee, Mutability::Mut) => tcx.is_copy(pointee),
        _ => false,
    }
}

/// The locals the analysis considers: those of `retagged` (in their order) whose type is a
/// mutable reference to a `Copy` type.
pub open spec fn mut_refs_to_copies(tcx: TyCtxt, body: Body, retagged: Seq<Local>) -> Seq<
    Local,
> {
    retagged.filter(|l: Local| spec_is_mut_ref_to_copy(tcx, body.local_decls@[l as int].ty))
}

/// The first step of computing immutability spans: only mutable references to `Copy` types
/// are considered.
pub fn retain_mut_refs_to_copies(tcx: &TyCtxt, body: &Body, retagged: Vec<Local>) -> (r: Vec<
    Local,
>)
    requires
        forall|i: int| 0 <= i < retagged@.len() ==> #[trigger] retagged@[i] < body.local_decls@.len(),
    ensures
        r@ == mut_refs_to_copies(*tcx, *body, retagged@),
{
    let ghost pred = |l: Local| spec_is_mut_ref_to_copy(*tcx, body.local_decls@[l as int].ty);
    let mut r: Vec<Local> = Vec::new();
    let mut i: usize = 0;
    while i < retagged.len()
        invariant
            i <= retagged@.len(),
            forall|k: int| 0 <= k < retagged@.len() ==> #[trigger] retagged@[k] < body.local_decls@.len(),
            pred == (|l: Local| spec_is_mut_ref_to_copy(*tcx, body.local_decls@[l as int].ty)),
            r@ == retagged@.take(i as int).filter(pred),
        decreases retagged@.len() - i,
    {
        let local = retagged[i];
        proof {
            reveal_with_fuel(Seq::<_>::filter, 1);
            assert(retagged@.take(i + 1).drop_last() =~= retagged@.take(i as int));
        }
        if is_mut_ref_to_copy(tcx, body.local_decls[local].ty) {
            r.push(local);
        }
        i = i + 1;
    }
    assert(retagged@.take(i as int) =~= retagged@);
    r
}

} // verus!

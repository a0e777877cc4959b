use rustc_alias::analysis::{
    retain_mut_refs_to_copies, top_of_borrow_stack_table, GenKill, LocalSet, TopOfBorrowStack,
    TopOfBorrowStackLocations, TopOfBorrowStackVisitor,
};
use rustc_alias::mir::{
    BasicBlockData, Body, BorrowKind, CastKind, LocalDecl, Location, Mutability, Operand, Place,
    ProjectionElem, ProjectionList, Rvalue, Statement, StatementKind, Terminator, TerminatorKind,
    TyCtxt, TyKind,
};

// Types: 0 = i32, 1 = &mut i32, 2 = &i32, 3 = *mut i32, 4 = a struct that is not Copy,
// 5 = &mut of it, 6 = a Copy struct, 7 = &mut of it; projections: 0 = [Deref], 1 = [Deref, Field].
fn tcx() -> TyCtxt {
    TyCtxt {
        types: vec![
            TyKind::Int,
            TyKind::Ref(0, Mutability::Mut),
            TyKind::Ref(0, Mutability::Not),
            TyKind::RawPtr(0, Mutability::Mut),
            TyKind::Adt(0),
            TyKind::Ref(4, Mutability::Mut),
            TyKind::Adt(1),
            TyKind::Ref(6, Mutability::Mut),
        ],
        copy_types: vec![true, false, true, true, false, false, true, false],
        projections: vec![
            vec![ProjectionElem::Deref],
            vec![ProjectionElem::Deref, ProjectionElem::Field(0, 0)],
        ],
    }
}

fn deref(local: usize) -> Place {
    Place { local, projection: ProjectionList::Interned(0) }
}

fn local(local: usize) -> Place {
    Place { local, projection: ProjectionList::Empty }
}

fn stmt(kind: StatementKind) -> Statement {
    Statement { source_info: 0, kind }
}

fn term(kind: TerminatorKind) -> Terminator {
    Terminator { source_info: 0, kind }
}

fn body(n_locals: usize) -> Body {
    Body {
        basic_blocks: vec![BasicBlockData {
            statements: vec![stmt(StatementKind::Nop), stmt(StatementKind::Nop)],
            terminator: term(TerminatorKind::Return),
        }],
        local_decls: (0..n_locals).map(|_| LocalDecl { ty: 1, span: 0 }).collect(),
        arg_count: 2,
        span: 0,
    }
}

fn analysis() -> TopOfBorrowStack {
    TopOfBorrowStack::new(vec![1, 2])
}

#[test]
fn bottom_value_holds_the_tracked_locals() {
    let state = analysis().bottom_value(&body(5));
    assert_eq!(state.domain_len(), 5);
    assert_eq!(state.to_vec(), vec![1, 2]);
}

#[test]
fn storage_statements_kill() {
    let a = analysis();
    let t = tcx();
    assert_eq!(a.statement_effects(&t, &stmt(StatementKind::StorageDead(4))), vec![GenKill::Kill(4)]);
    assert_eq!(a.statement_effects(&t, &stmt(StatementKind::StorageLive(1))), vec![GenKill::Kill(1)]);
}

#[test]
fn intrinsic_kills_every_tracked_local() {
    let a = analysis();
    assert_eq!(
        a.statement_effects(&tcx(), &stmt(StatementKind::Intrinsic(0))),
        vec![GenKill::Kill(1), GenKill::Kill(2)]
    );
}

#[test]
fn write_through_tracked_reference_gens() {
    let a = analysis();
    let s = stmt(StatementKind::Assign(deref(1), Rvalue::Use(Operand::Constant(42))));
    assert_eq!(a.statement_effects(&tcx(), &s), vec![GenKill::Gen(1)]);
}

#[test]
fn write_through_untracked_reference_does_nothing() {
    let a = analysis();
    let s = stmt(StatementKind::Assign(deref(3), Rvalue::Use(Operand::Constant(42))));
    assert_eq!(a.statement_effects(&tcx(), &s), vec![]);
}

#[test]
fn write_to_a_field_through_a_reference_does_nothing() {
    let a = analysis();
    let field = Place { local: 1, projection: ProjectionList::Interned(1) };
    let s = stmt(StatementKind::Assign(field, Rvalue::Use(Operand::Constant(42))));
    assert_eq!(a.statement_effects(&tcx(), &s), vec![]);
}

#[test]
fn overwriting_the_reference_kills() {
    let a = analysis();
    let s = stmt(StatementKind::Assign(local(1), Rvalue::Use(Operand::Move(local(4)))));
    assert_eq!(a.statement_effects(&tcx(), &s), vec![GenKill::Kill(1)]);
}

#[test]
fn mutable_reborrow_kills_then_write_gens() {
    let a = analysis();
    // `*_1 = &mut (*_2)`: the borrow of `_2` kills it, the write through `_1` gens `_1`.
    let s = stmt(StatementKind::Assign(
        deref(1),
        Rvalue::Ref(BorrowKind::Mut { allow_two_phase_borrow: false }, deref(2)),
    ));
    assert_eq!(a.statement_effects(&tcx(), &s), vec![GenKill::Kill(2), GenKill::Gen(1)]);
    // `_3 = &mut (*_1)` kills `_1` and `_3`.
    let r = stmt(StatementKind::Assign(
        local(3),
        Rvalue::Ref(BorrowKind::Mut { allow_two_phase_borrow: true }, deref(1)),
    ));
    assert_eq!(a.statement_effects(&tcx(), &r), vec![GenKill::Kill(1), GenKill::Kill(3)]);
}

#[test]
fn shared_and_unique_borrows_keep_the_reference_on_top() {
    let a = analysis();
    let shared = stmt(StatementKind::Assign(local(3), Rvalue::Ref(BorrowKind::Shared, deref(1))));
    assert_eq!(a.statement_effects(&tcx(), &shared), vec![GenKill::Kill(3)]);
    let unique = stmt(StatementKind::Assign(local(3), Rvalue::Ref(BorrowKind::Unique, deref(1))));
    assert_eq!(a.statement_effects(&tcx(), &unique), vec![GenKill::Kill(3)]);
    let shallow = stmt(StatementKind::Assign(local(3), Rvalue::Ref(BorrowKind::Shallow, deref(1))));
    assert_eq!(a.statement_effects(&tcx(), &shallow), vec![GenKill::Kill(1), GenKill::Kill(3)]);
}

#[test]
fn raw_pointers_and_casts_kill() {
    let a = analysis();
    let addr = stmt(StatementKind::Assign(local(3), Rvalue::AddressOf(Mutability::Mut, deref(1))));
    assert_eq!(a.statement_effects(&tcx(), &addr), vec![GenKill::Kill(1), GenKill::Kill(3)]);
    let cast = stmt(StatementKind::Assign(
        local(4),
        Rvalue::Cast(CastKind::Pointer, Operand::Copy(local(2)), 3),
    ));
    assert_eq!(a.statement_effects(&tcx(), &cast), vec![GenKill::Kill(2), GenKill::Kill(4)]);
    let constant_cast = stmt(StatementKind::Assign(
        local(4),
        Rvalue::Cast(CastKind::IntToInt, Operand::Constant(1), 0),
    ));
    assert_eq!(a.statement_effects(&tcx(), &constant_cast), vec![GenKill::Kill(4)]);
}

#[test]
fn other_statements_do_nothing() {
    let a = analysis();
    for kind in [
        StatementKind::Deinit(local(1)),
        StatementKind::Nop,
        StatementKind::Retag(local(1)),
        StatementKind::FakeRead(local(1)),
        StatementKind::Coverage,
    ] {
        assert_eq!(a.statement_effects(&tcx(), &stmt(kind)), vec![]);
    }
}

#[test]
fn terminator_effects() {
    let a = analysis();
    assert_eq!(
        a.terminator_effects(&term(TerminatorKind::Drop { place: local(2), target: 1 })),
        vec![GenKill::Kill(2)]
    );
    assert_eq!(
        a.terminator_effects(&term(TerminatorKind::Call { destination: local(4) })),
        vec![GenKill::Kill(4)]
    );
    assert_eq!(
        a.terminator_effects(&term(TerminatorKind::Return)),
        vec![GenKill::Kill(1), GenKill::Kill(2)]
    );
    assert_eq!(
        a.terminator_effects(&term(TerminatorKind::InlineAsm)),
        vec![GenKill::Kill(1), GenKill::Kill(2)]
    );
    assert_eq!(a.terminator_effects(&term(TerminatorKind::Goto { target: 0 })), vec![]);
    assert_eq!(a.terminator_effects(&term(TerminatorKind::SwitchInt)), vec![]);
}

#[test]
fn statement_effect_updates_the_state() {
    let a = analysis();
    let t = tcx();
    let mut state = a.bottom_value(&body(5));
    let reborrow = stmt(StatementKind::Assign(
        local(3),
        Rvalue::Ref(BorrowKind::Mut { allow_two_phase_borrow: false }, deref(1)),
    ));
    a.statement_effect(&t, &mut state, &reborrow, Location { block: 0, statement_index: 0 });
    assert_eq!(state.to_vec(), vec![2]);
    let write = stmt(StatementKind::Assign(deref(1), Rvalue::Use(Operand::Constant(1))));
    a.statement_effect(&t, &mut state, &write, Location { block: 0, statement_index: 1 });
    assert_eq!(state.to_vec(), vec![1, 2]);
    a.terminator_effect(&mut state, &term(TerminatorKind::Return), Location { block: 0, statement_index: 2 });
    assert_eq!(state.to_vec(), Vec::<usize>::new());
}

#[test]
fn transfer_is_monotone_on_concrete_states() {
    // A smaller state stays smaller after the same statement.
    let a = analysis();
    let t = tcx();
    let mut small = LocalSet::new_empty(5);
    small.insert(2);
    let mut large = LocalSet::new_empty(5);
    large.insert(1);
    large.insert(2);
    large.insert(3);
    let s = stmt(StatementKind::Assign(deref(1), Rvalue::Ref(BorrowKind::Shallow, deref(3))));
    a.statement_effect(&t, &mut small, &s, Location { block: 0, statement_index: 0 });
    a.statement_effect(&t, &mut large, &s, Location { block: 0, statement_index: 0 });
    assert_eq!(small.to_vec(), vec![1, 2]);
    assert_eq!(large.to_vec(), vec![1, 2]);
    for l in small.to_vec() {
        assert!(large.contains(l));
    }
}

#[test]
fn local_set_operations() {
    let mut s = LocalSet::new_empty(4);
    assert_eq!(s.to_vec(), Vec::<usize>::new());
    s.insert(3);
    s.insert(0);
    s.insert(3);
    assert!(s.contains(3));
    assert!(!s.contains(1));
    assert!(!s.contains(7));
    s.remove(3);
    assert_eq!(s.to_vec(), vec![0]);
    s.apply(&vec![GenKill::Gen(2), GenKill::Kill(0), GenKill::Gen(1), GenKill::Kill(1)]);
    assert_eq!(s.to_vec(), vec![2]);
}

#[test]
fn visitor_records_each_local_at_each_location() {
    let mut visitor = TopOfBorrowStackVisitor::new();
    let mut state = LocalSet::new_empty(5);
    state.insert(2);
    state.insert(1);
    let l0 = Location { block: 0, statement_index: 0 };
    let l1 = Location { block: 0, statement_index: 1 };
    visitor.visit_statement_after_primary_effect(&state, &stmt(StatementKind::Nop), l0);
    state.remove(2);
    visitor.visit_statement_after_primary_effect(&state, &stmt(StatementKind::Nop), l1);
    visitor.visit_terminator_after_primary_effect(
        &LocalSet::new_empty(5),
        &term(TerminatorKind::Return),
        Location { block: 0, statement_index: 2 },
    );
    // Visiting a location again adds nothing twice.
    visitor.visit_statement_after_primary_effect(&state, &stmt(StatementKind::Nop), l1);
    assert!(visitor.top_of_borrow_stack.contains(1, l0));
    assert!(visitor.top_of_borrow_stack.contains(2, l0));
    assert!(visitor.top_of_borrow_stack.contains(1, l1));
    assert!(!visitor.top_of_borrow_stack.contains(2, l1));
    let table = top_of_borrow_stack_table(&body(5), &visitor.top_of_borrow_stack);
    assert_eq!(table, vec![vec![vec![1, 2], vec![1], vec![]]]);
}

#[test]
fn top_locals_are_sorted() {
    let mut tops = TopOfBorrowStackLocations::new();
    let l = Location { block: 1, statement_index: 3 };
    tops.insert(7, l);
    tops.insert(2, l);
    tops.insert(5, Location { block: 1, statement_index: 4 });
    tops.insert(4, l);
    assert_eq!(tops.top_locals_at(l), vec![2, 4, 7]);
}

#[test]
fn only_mutable_references_to_copy_types_are_analysed() {
    // Locals: 0: i32, 1: &mut i32, 2: &i32, 3: *mut i32, 4: &mut (not Copy), 5: &mut (Copy).
    let b = Body {
        basic_blocks: vec![],
        local_decls: vec![
            LocalDecl { ty: 0, span: 0 },
            LocalDecl { ty: 1, span: 0 },
            LocalDecl { ty: 2, span: 0 },
            LocalDecl { ty: 3, span: 0 },
            LocalDecl { ty: 5, span: 0 },
            LocalDecl { ty: 7, span: 0 },
        ],
        arg_count: 5,
        span: 0,
    };
    assert_eq!(retain_mut_refs_to_copies(&tcx(), &b, vec![3, 1, 2, 0, 4, 1, 5]), vec![1, 1, 5]);
}

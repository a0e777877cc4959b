use rustc_alias::analysis::ImmutabilitySpan;
use rustc_alias::mir::{
    BasicBlockData, Body, LocalDecl, Location, Mutability, Operand, Place, ProjectionElem,
    ProjectionList, Rvalue, Statement, StatementKind, Terminator, TerminatorKind, TyCtxt, TyKind,
};
use rustc_alias::optimisation::{
    eliminate_reads, place_ty_in, spans_apply_to, EliminateReadsOptimisation,
};

// Types: 0 = i32, 1 = &mut i32, 2 = (); projections: 0 = [Deref].
fn tcx() -> TyCtxt {
    TyCtxt {
        types: vec![TyKind::Int, TyKind::Ref(0, Mutability::Mut), TyKind::Tuple(0)],
        copy_types: vec![true, false, true],
        projections: vec![vec![ProjectionElem::Deref]],
    }
}

fn deref(local: usize) -> Place {
    Place { local, projection: ProjectionList::Interned(0) }
}

fn local(local: usize) -> Place {
    Place { local, projection: ProjectionList::Empty }
}

fn assign(source_info: usize, place: Place, rvalue: Rvalue) -> Statement {
    Statement { source_info, kind: StatementKind::Assign(place, rvalue) }
}

fn loc(block: usize, statement_index: usize) -> Location {
    Location { block, statement_index }
}

fn ret() -> Terminator {
    Terminator { source_info: 99, kind: TerminatorKind::Return }
}

/// `fn f(x: &mut i32, y: &mut i32) -> i32 { *x = 42; *y = 7; return *x; }`
fn eliminate_reads_body() -> Body {
    Body {
        basic_blocks: vec![BasicBlockData {
            statements: vec![
                assign(10, deref(1), Rvalue::Use(Operand::Constant(42))),
                assign(11, deref(2), Rvalue::Use(Operand::Constant(7))),
                assign(12, local(0), Rvalue::Use(Operand::Copy(deref(1)))),
            ],
            terminator: ret(),
        }],
        local_decls: vec![
            LocalDecl { ty: 0, span: 1 },
            LocalDecl { ty: 1, span: 2 },
            LocalDecl { ty: 1, span: 3 },
        ],
        arg_count: 2,
        span: 5,
    }
}

#[test]
fn eliminate_reads_replaces_read_of_unchanged_value() {
    let tcx = tcx();
    let mut body = eliminate_reads_body();
    let span = ImmutabilitySpan(1, vec![loc(0, 1), loc(0, 2), loc(0, 3)]);
    eliminate_reads(&tcx, &mut body, vec![(loc(0, 0), span)]);
    assert_eq!(
        body.basic_blocks[0].statements,
        vec![
            assign(10, local(3), Rvalue::Use(Operand::Constant(42))),
            assign(10, deref(1), Rvalue::Use(Operand::Copy(local(3)))),
            assign(11, deref(2), Rvalue::Use(Operand::Constant(7))),
            assign(12, local(0), Rvalue::Use(Operand::Copy(local(3)))),
        ]
    );
    assert_eq!(body.local_decls.len(), 4);
    assert_eq!(body.local_decls[3], LocalDecl { ty: 0, span: 5 });
    assert_eq!(body.basic_blocks[0].terminator, ret());
    assert_eq!(body.arg_count, 2);
}

#[test]
fn eliminate_reads_without_reads_changes_nothing() {
    let tcx = tcx();
    let mut body = eliminate_reads_body();
    // The span does not reach the read at bb0[2].
    let span = ImmutabilitySpan(1, vec![loc(0, 1)]);
    eliminate_reads(&tcx, &mut body, vec![(loc(0, 0), span)]);
    let unchanged = eliminate_reads_body();
    assert_eq!(body.basic_blocks[0].statements, unchanged.basic_blocks[0].statements);
    assert_eq!(body.local_decls, unchanged.local_decls);
}

#[test]
fn eliminate_reads_ignores_reads_of_other_locals() {
    let tcx = tcx();
    let mut body = eliminate_reads_body();
    // A span of `_2` sees no read of `*_2`.
    let span = ImmutabilitySpan(2, vec![loc(0, 1), loc(0, 2), loc(0, 3)]);
    eliminate_reads(&tcx, &mut body, vec![(loc(0, 0), span)]);
    let unchanged = eliminate_reads_body();
    assert_eq!(body.basic_blocks[0].statements, unchanged.basic_blocks[0].statements);
    assert_eq!(body.local_decls.len(), 3);
}

/// `*x = 42; *y = 7; *x = *x; *y = 8; *x = *x + 1; *y = 9; return *x;`, reduced to the reads.
fn repeat_write_body() -> Body {
    Body {
        basic_blocks: vec![BasicBlockData {
            statements: vec![
                assign(20, deref(1), Rvalue::Use(Operand::Constant(42))),
                assign(21, deref(2), Rvalue::Use(Operand::Constant(7))),
                assign(22, local(3), Rvalue::Use(Operand::Copy(deref(1)))),
                assign(23, deref(1), Rvalue::Use(Operand::Move(local(3)))),
                assign(24, deref(2), Rvalue::Use(Operand::Constant(8))),
                assign(25, local(0), Rvalue::Use(Operand::Copy(deref(1)))),
            ],
            terminator: ret(),
        }],
        local_decls: vec![
            LocalDecl { ty: 0, span: 1 },
            LocalDecl { ty: 1, span: 2 },
            LocalDecl { ty: 1, span: 3 },
            LocalDecl { ty: 0, span: 4 },
        ],
        arg_count: 2,
        span: 6,
    }
}

#[test]
fn eliminate_reads_two_spans_in_one_block() {
    let tcx = tcx();
    let mut body = repeat_write_body();
    let first = ImmutabilitySpan(1, vec![loc(0, 1), loc(0, 2), loc(0, 3)]);
    let second = ImmutabilitySpan(1, vec![loc(0, 4), loc(0, 5), loc(0, 6)]);
    eliminate_reads(&tcx, &mut body, vec![(loc(0, 3), second), (loc(0, 0), first)]);
    assert_eq!(
        body.basic_blocks[0].statements,
        vec![
            assign(20, local(4), Rvalue::Use(Operand::Constant(42))),
            assign(20, deref(1), Rvalue::Use(Operand::Copy(local(4)))),
            assign(21, deref(2), Rvalue::Use(Operand::Constant(7))),
            assign(22, local(3), Rvalue::Use(Operand::Copy(local(4)))),
            assign(23, local(5), Rvalue::Use(Operand::Move(local(3)))),
            assign(23, deref(1), Rvalue::Use(Operand::Copy(local(5)))),
            assign(24, deref(2), Rvalue::Use(Operand::Constant(8))),
            assign(25, local(0), Rvalue::Use(Operand::Copy(local(5)))),
        ]
    );
    // The first span (by location) gets the first fresh local; the earlier locals stay.
    assert_eq!(body.local_decls.len(), 6);
    assert_eq!(&body.local_decls[..4], &repeat_write_body().local_decls[..]);
    assert_eq!(body.local_decls[4], LocalDecl { ty: 0, span: 6 });
    assert_eq!(body.local_decls[5], LocalDecl { ty: 0, span: 6 });
}

#[test]
fn eliminate_reads_result_does_not_depend_on_span_order() {
    let tcx = tcx();
    let mut a = repeat_write_body();
    let mut b = repeat_write_body();
    eliminate_reads(
        &tcx,
        &mut a,
        vec![
            (loc(0, 0), ImmutabilitySpan(1, vec![loc(0, 2)])),
            (loc(0, 3), ImmutabilitySpan(1, vec![loc(0, 5)])),
        ],
    );
    eliminate_reads(
        &tcx,
        &mut b,
        vec![
            (loc(0, 3), ImmutabilitySpan(1, vec![loc(0, 5)])),
            (loc(0, 0), ImmutabilitySpan(1, vec![loc(0, 2)])),
        ],
    );
    assert_eq!(a.basic_blocks[0].statements, b.basic_blocks[0].statements);
    assert_eq!(a.local_decls, b.local_decls);
}

#[test]
fn eliminate_reads_across_blocks() {
    let tcx = tcx();
    let mut body = Body {
        basic_blocks: vec![
            BasicBlockData {
                statements: vec![assign(30, deref(1), Rvalue::Use(Operand::Constant(5)))],
                terminator: Terminator { source_info: 31, kind: TerminatorKind::Goto { target: 1 } },
            },
            BasicBlockData {
                statements: vec![assign(32, local(0), Rvalue::Use(Operand::Copy(deref(1))))],
                terminator: ret(),
            },
        ],
        local_decls: vec![LocalDecl { ty: 0, span: 1 }, LocalDecl { ty: 1, span: 2 }],
        arg_count: 1,
        span: 7,
    };
    // The terminator of bb0 lies in the span too; it is no read and is skipped.
    eliminate_reads(
        &tcx,
        &mut body,
        vec![(loc(0, 0), ImmutabilitySpan(1, vec![loc(0, 1), loc(1, 0)]))],
    );
    assert_eq!(
        body.basic_blocks[0].statements,
        vec![
            assign(30, local(2), Rvalue::Use(Operand::Constant(5))),
            assign(30, deref(1), Rvalue::Use(Operand::Copy(local(2)))),
        ]
    );
    assert_eq!(
        body.basic_blocks[1].statements,
        vec![assign(32, local(0), Rvalue::Use(Operand::Copy(local(2))))]
    );
    assert_eq!(body.basic_blocks[0].terminator.kind, TerminatorKind::Goto { target: 1 });
}

#[test]
fn run_applies_spans_through_the_optimisation() {
    let tcx = tcx();
    let opt = EliminateReadsOptimisation::new(&tcx, eliminate_reads_body());
    let body = opt.run(vec![(loc(0, 0), ImmutabilitySpan(1, vec![loc(0, 2)]))]);
    assert_eq!(body.basic_blocks[0].statements.len(), 4);
    assert_eq!(
        body.basic_blocks[0].statements[3],
        assign(12, local(0), Rvalue::Use(Operand::Copy(local(3))))
    );
}

#[test]
fn eliminate_reads_types_the_fresh_local_through_fields() {
    // `(*x).0 = 3; _0 = copy (*x).0;` with `x: &mut (i32,)`: the fresh local has the field's type.
    let tcx = TyCtxt {
        types: vec![TyKind::Int, TyKind::Tuple(1), TyKind::Ref(1, Mutability::Mut)],
        copy_types: vec![true, true, false],
        projections: vec![vec![ProjectionElem::Deref], vec![ProjectionElem::Deref, ProjectionElem::Field(0, 0)]],
    };
    let field = Place { local: 1, projection: ProjectionList::Interned(1) };
    let mut body = Body {
        basic_blocks: vec![BasicBlockData {
            statements: vec![
                assign(40, field, Rvalue::Use(Operand::Constant(3))),
                assign(41, local(0), Rvalue::Use(Operand::Copy(deref(1)))),
            ],
            terminator: ret(),
        }],
        local_decls: vec![LocalDecl { ty: 1, span: 1 }, LocalDecl { ty: 2, span: 2 }],
        arg_count: 1,
        span: 8,
    };
    eliminate_reads(&tcx, &mut body, vec![(loc(0, 0), ImmutabilitySpan(1, vec![loc(0, 1)]))]);
    assert_eq!(body.local_decls[2], LocalDecl { ty: 0, span: 8 });
    assert_eq!(
        body.basic_blocks[0].statements[1],
        assign(40, field, Rvalue::Use(Operand::Copy(local(2))))
    );
}

#[test]
fn spans_apply_checks_the_input() {
    let tcx = tcx();
    let body = eliminate_reads_body();
    let ok = vec![(loc(0, 0), ImmutabilitySpan(1, vec![loc(0, 2), loc(0, 3)]))];
    assert!(spans_apply_to(&tcx, &body, &ok));
    // Two spans at the same location.
    let twice = vec![
        (loc(0, 0), ImmutabilitySpan(1, vec![])),
        (loc(0, 0), ImmutabilitySpan(2, vec![])),
    ];
    assert!(!spans_apply_to(&tcx, &body, &twice));
    // A span that starts at the terminator, or outside the body.
    assert!(!spans_apply_to(&tcx, &body, &vec![(loc(0, 3), ImmutabilitySpan(1, vec![]))]));
    assert!(!spans_apply_to(&tcx, &body, &vec![(loc(1, 0), ImmutabilitySpan(1, vec![]))]));
    // A span with a location in a block that does not exist.
    assert!(!spans_apply_to(&tcx, &body, &vec![(loc(0, 0), ImmutabilitySpan(1, vec![loc(4, 0)]))]));
    // A span that starts at a statement that is no assignment.
    let mut nop = eliminate_reads_body();
    nop.basic_blocks[0].statements[0] = Statement { source_info: 0, kind: StatementKind::Nop };
    assert!(!spans_apply_to(&tcx, &nop, &vec![(loc(0, 0), ImmutabilitySpan(1, vec![]))]));
    // A span whose assignment writes through a local that is not a reference.
    let mut untyped = eliminate_reads_body();
    untyped.basic_blocks[0].statements[0] = assign(10, deref(0), Rvalue::Use(Operand::Constant(1)));
    assert!(!spans_apply_to(&tcx, &untyped, &vec![(loc(0, 0), ImmutabilitySpan(1, vec![]))]));
}

#[test]
fn place_types() {
    let tcx = TyCtxt {
        types: vec![
            TyKind::Int,
            TyKind::Slice(0),
            TyKind::Ref(1, Mutability::Not),
            TyKind::Array(0, Some(4)),
            TyKind::Array(0, Some(2)),
        ],
        copy_types: vec![true, false, true, true, true],
        projections: vec![
            vec![ProjectionElem::Deref, ProjectionElem::Index(0)],
            vec![ProjectionElem::Deref, ProjectionElem::Subslice { from: 1, to: 2, from_end: true }],
            vec![ProjectionElem::Index(0)],
            vec![ProjectionElem::ConstantIndex { offset: 0, min_length: 1, from_end: false }],
            vec![ProjectionElem::Deref, ProjectionElem::Deref],
            vec![ProjectionElem::Subslice { from: 1, to: 3, from_end: false }],
            vec![ProjectionElem::Subslice { from: 1, to: 1, from_end: true }],
            vec![ProjectionElem::Subslice { from: 0, to: 1, from_end: false }],
            vec![ProjectionElem::Subslice { from: 3, to: 2, from_end: false }],
            vec![ProjectionElem::Subslice { from: 3, to: 2, from_end: true }],
        ],
    };
    let decls = vec![LocalDecl { ty: 2, span: 0 }, LocalDecl { ty: 3, span: 0 }];
    let p = |local, id| Place { local, projection: ProjectionList::Interned(id) };
    assert_eq!(place_ty_in(&tcx, &decls, local(0)), Some(2));
    assert_eq!(place_ty_in(&tcx, &decls, p(0, 0)), Some(0));
    assert_eq!(place_ty_in(&tcx, &decls, p(0, 1)), Some(1));
    assert_eq!(place_ty_in(&tcx, &decls, p(1, 2)), Some(0));
    assert_eq!(place_ty_in(&tcx, &decls, p(1, 3)), Some(0));
    // A subslice of an array is an array of the subslice's length: `[i32; 4]` from 1 to 3, or
    // without one element at each end, is `[i32; 2]`.
    assert_eq!(place_ty_in(&tcx, &decls, p(1, 5)), Some(4));
    assert_eq!(place_ty_in(&tcx, &decls, p(1, 6)), Some(4));
    // `[i32; 1]` is not in the context; a subslice that ends before it starts has no type.
    assert_eq!(place_ty_in(&tcx, &decls, p(1, 7)), None);
    assert_eq!(place_ty_in(&tcx, &decls, p(1, 8)), None);
    assert_eq!(place_ty_in(&tcx, &decls, p(1, 9)), None);
    let boxed = TyCtxt {
        types: vec![TyKind::Int, TyKind::Boxed(0)],
        copy_types: vec![true, false],
        projections: vec![vec![ProjectionElem::Deref]],
    };
    let box_decls = vec![LocalDecl { ty: 1, span: 0 }];
    assert_eq!(place_ty_in(&boxed, &box_decls, p(0, 0)), Some(0));
    // Dereferencing a slice, or indexing a reference, has no type.
    assert_eq!(place_ty_in(&tcx, &decls, p(0, 4)), None);
    assert_eq!(place_ty_in(&tcx, &decls, p(0, 2)), None);
    // No such local.
    assert_eq!(place_ty_in(&tcx, &decls, local(5)), None);
}

#[test]
fn eliminate_reads_leaves_other_blocks_alone() {
    let tcx = tcx();
    let other = vec![
        assign(50, local(0), Rvalue::Use(Operand::Copy(deref(1)))),
        Statement { source_info: 51, kind: StatementKind::StorageDead(2) },
    ];
    let mut body = eliminate_reads_body();
    body.basic_blocks.push(BasicBlockData { statements: other.clone(), terminator: ret() });
    eliminate_reads(&tcx, &mut body, vec![(loc(0, 0), ImmutabilitySpan(1, vec![loc(0, 2)]))]);
    assert_eq!(body.basic_blocks[1].statements, other);
    assert_eq!(body.basic_blocks[0].statements.len(), 4);
}

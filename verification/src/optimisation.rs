//! The eliminate-reads optimisation: within an immutability span of `*x = v`, reads of `*x`
//! are replaced by reads of a fresh local that holds `v`.
use vstd::prelude::*;

use crate::analysis::{ImmutabilitySpan, ImmutabilitySpans};
use crate::mir::{
    Body, LocalDecl, Local, Location, Operand, Place, ProjectionElem, ProjectionList, Rvalue,
    Statement, StatementKind, StatementOrTerminator, Ty, TyCtxt, TyKind,
};

verus! {

/// The type of one projection applied to a place of type `ty`; `None` where rustc would not
/// type the projection.
pub open spec fn elem_ty(tcx: TyCtxt, ty: Ty, elem: ProjectionElem) -> Option<Ty> {
    match elem {
        ProjectionElem::Deref => match tcx.kind_of(ty) {
            TyKind::Ref(pointee, _) => Some(pointee),
            TyKind::RawPtr(pointee, _) => Some(pointee),
            TyKind::Boxed(pointee) => Some(pointee),
            _ => None,
        },
        ProjectionElem::Field(_, field_ty) => Some(field_ty),
        ProjectionElem::Index(_) => match tcx.kind_of(ty) {
            TyKind::Array(elem_ty, _) => Some(elem_ty),
            TyKind::Slice(elem_ty) => Some(elem_ty),
            _ => None,
        },
        ProjectionElem::ConstantIndex { .. } => match tcx.kind_of(ty) {
            TyKind::Array(elem_ty, _) => Some(elem_ty),
            TyKind::Slice(elem_ty) => Some(elem_ty),
            _ => None,
        },
        // A subslice of a slice is a slice of the same type. A subslice of an array is an
        // array of the subslice's length: `to - from` elements, or, counted from the end,
        // the length less `from` and `to`. That array type is found in the context.
        ProjectionElem::Subslice { from, to, from_end } => match tcx.kind_of(ty) {
            TyKind::Slice(_) => Some(ty),
            TyKind::Array(inner, len) => if !from_end {
                if from <= to {
                    tcx.ty_of_kind(TyKind::Array(inner, Some((to - from) as u64)))
                } else {
                    None
                }
            } else {
                match len {
                    Some(n) => if from + to <= n {
                        tcx.ty_of_kind(TyKind::Array(inner, Some((n - from - to) as u64)))
                    } else {
                        None
                    },
                    None => None,
                }
            },
            _ => None,
        },
        ProjectionElem::Downcast(_) => Some(ty),
    }
}

/// The type of a place of type `ty` after the projections `elems`, first to last.
pub open spec fn projected_ty(tcx: TyCtxt, ty: Ty, elems: Seq<ProjectionElem>) -> Option<Ty>
    decreases elems.len(),
{
    if elems.len() == 0 {
        Some(ty)
    } else {
        match projected_ty(tcx, ty, elems.drop_last()) {
            Some(t) => elem_ty(tcx, t, elems.last()),
            None => None,
        }
    }
}

/// The type of a place in a body with the given locals.
pub open spec fn place_ty(tcx: TyCtxt, local_decls: Seq<LocalDecl>, place: Place) -> Option<Ty> {
    if place.local < local_decls.len() {
        projected_ty(tcx, local_decls[place.local as int].ty, tcx.elems(place.projection))
    } else {
        None
    }
}

/// The place that is the bare local `l`.
pub open spec fn local_place(l: Local) -> Place {
    Place { local: l, projection: ProjectionList::Empty }
}

/// The rvalue `copy l`.
pub open spec fn copy_of(l: Local) -> Rvalue {
    Rvalue::Use(Operand::Copy(local_place(l)))
}

/// `statement` is `_ = copy (*x)`.
pub open spec fn is_deref_read_of(tcx: TyCtxt, statement: Statement, x: Local) -> bool {
    match statement.kind {
        StatementKind::Assign(_, Rvalue::Use(Operand::Copy(place))) => place.local == x
            && tcx.spec_is_deref_only(place.projection),
        _ => false,
    }
}

/// The assignment `statement` with its right-hand side replaced by `rvalue`.
pub open spec fn with_rvalue(statement: Statement, rvalue: Rvalue) -> Statement {
    match statement.kind {
        StatementKind::Assign(place, _) => Statement {
            source_info: statement.source_info,
            kind: StatementKind::Assign(place, rvalue),
        },
        _ => statement,
    }
}

/// The assignment `statement` with its left-hand side replaced by `place`.
pub open spec fn with_place(statement: Statement, place: Place) -> Statement {
    match statement.kind {
        StatementKind::Assign(_, rvalue) => Statement {
            source_info: statement.source_info,
            kind: StatementKind::Assign(place, rvalue),
        },
        _ => statement,
    }
}

/// The place an assignment writes.
pub open spec fn assigned_place(statement: Statement) -> Place {
    match statement.kind {
        StatementKind::Assign(place, _) => place,
        _ => local_place(0),
    }
}

/// `location` names a statement (not a terminator) of `statements`.
pub open spec fn names_statement(statements: Seq<Seq<Statement>>, location: Location) -> bool {
    location.block < statements.len() && location.statement_index
        < statements[location.block as int].len()
}

/// Some location of `locations` holds a read `_ = copy (*x)`.
pub open spec fn reads_some(
    tcx: TyCtxt,
    statements: Seq<Seq<Statement>>,
    x: Local,
    locations: Seq<Location>,
) -> bool {
    exists|j: int|
        0 <= j < locations.len() && names_statement(statements, #[trigger] locations[j])
            && is_deref_read_of(
            tcx,
            statements[locations[j].block as int][locations[j].statement_index as int],
            x,
        )
}

/// `locations` holds the location of statement `i` of block `b`.
pub open spec fn has_location(locations: Seq<Location>, b: int, i: int) -> bool {
    exists|k: int|
        0 <= k < locations.len() && (#[trigger] locations[k]).block == b
            && locations[k].statement_index == i
}

/// Every read `_ = copy (*x)` at one of `locations` becomes `_ = copy internal`.
pub open spec fn replace_reads(
    tcx: TyCtxt,
    statements: Seq<Seq<Statement>>,
    x: Local,
    locations: Seq<Location>,
    internal: Local,
) -> Seq<Seq<Statement>> {
    Seq::new(
        statements.len(),
        |b: int|
            Seq::new(
                statements[b].len(),
                |i: int|
                    if has_location(locations, b, i) && is_deref_read_of(tcx, statements[b][i], x) {
                        with_rvalue(statements[b][i], copy_of(internal))
                    } else {
                        statements[b][i]
                    },
            ),
    )
}

/// The statements and the local declarations of a body, the part the optimisation changes.
pub type BodyState = (Seq<Seq<Statement>>, Seq<LocalDecl>);

/// One span: the assignment `*x = v` at `location`, and the span `(x, locations)`.
///
/// When some location of the span reads `*x`, a fresh local `internal` (the next index, with the
/// type of `*x` and the body's span) is declared, every such read becomes `copy internal`, and the
/// assignment becomes `internal = v`; the assignment `*x = copy internal`, to be put right after
/// it, is returned. Otherwise nothing changes.
pub open spec fn span_step(
    tcx: TyCtxt,
    state: BodyState,
    body_span: usize,
    location: Location,
    x: Local,
    locations: Seq<Location>,
) -> (BodyState, Seq<(Location, Statement)>) {
    let (statements, local_decls) = state;
    let internal = local_decls.len() as Local;
    if !reads_some(tcx, statements, x, locations) {
        (state, Seq::empty())
    } else {
        let replaced = replace_reads(tcx, statements, x, locations, internal);
        let b = location.block as int;
        let i = location.statement_index as int;
        let assignment = replaced[b][i];
        let ty = place_ty(tcx, local_decls, assigned_place(statements[b][i])).unwrap();
        (
            (
                replaced.update(b, replaced[b].update(i, with_place(assignment, local_place(internal)))),
                local_decls.push(LocalDecl { ty, span: body_span }),
            ),
            seq![(location, with_rvalue(assignment, copy_of(internal)))],
        )
    }
}

/// What a span needs of the body it is applied to: its assignment is a statement that writes a
/// place whose type is defined, and its locations name blocks of the body.
pub open spec fn span_applies(
    tcx: TyCtxt,
    state: BodyState,
    location: Location,
    locations: Seq<Location>,
) -> bool {
    let (statements, local_decls) = state;
    &&& names_statement(statements, location)
    &&& statements[location.block as int][location.statement_index as int].kind is Assign
    &&& place_ty(
        tcx,
        local_decls,
        assigned_place(statements[location.block as int][location.statement_index as int]),
    ) is Some
    &&& forall|j: int| 0 <= j < locations.len() ==> #[trigger] locations[j].block < statements.len()
}

/// Applies the spans in order; returns the resulting state and the assignments to put back.
pub open spec fn eliminate_all(
    tcx: TyCtxt,
    state: BodyState,
    body_span: usize,
    spans: Seq<(Location, ImmutabilitySpan)>,
) -> (BodyState, Seq<(Location, Statement)>)
    decreases spans.len(),
{
    if spans.len() == 0 {
        (state, Seq::empty())
    } else {
        let (before, assignments) = eliminate_all(tcx, state, body_span, spans.drop_last());
        let last = spans.last();
        let (after, more) = span_step(tcx, before, body_span, last.0, last.1.0, last.1.1@);
        (after, assignments + more)
    }
}

/// `sorted` with `x` put before the first element whose location does not precede `x`'s.
pub open spec fn insert_by_location<T>(sorted: Seq<(Location, T)>, x: (Location, T)) -> Seq<
    (Location, T),
>
    decreases sorted.len(),
{
    if sorted.len() == 0 {
        seq![x]
    } else if !sorted[0].0.precedes(x.0) {
        seq![x] + sorted
    } else {
        seq![sorted[0]] + insert_by_location(sorted.drop_first(), x)
    }
}

/// The elements ordered by location; elements with the same location keep their order.
pub open spec fn sort_by_location<T>(s: Seq<(Location, T)>) -> Seq<(Location, T)>
    decreases s.len(),
{
    if s.len() == 0 {
        Seq::empty()
    } else {
        insert_by_location(sort_by_location(s.drop_last()), s.last())
    }
}

/// No two elements have the same location.
pub open spec fn distinct_locations<T>(s: Seq<(Location, T)>) -> bool {
    forall|j: int, k: int| 0 <= j < s.len() && 0 <= k < s.len() && j != k ==> s[j].0 != s[k].0
}

/// The locations are strictly increasing.
pub open spec fn ascending_locations<T>(s: Seq<(Location, T)>) -> bool {
    forall|j: int, k: int| 0 <= j < k < s.len() ==> (#[trigger] s[j]).0.precedes((#[trigger] s[k]).0)
}

/// What the optimisation needs of its input: the spans start at distinct locations, and each
/// applies to the body.
pub open spec fn spans_apply(tcx: TyCtxt, body: Body, spans: Seq<(Location, ImmutabilitySpan)>) -> bool {
    &&& distinct_locations(spans)
    &&& forall|j: int|
        0 <= j < spans.len() ==> span_applies(
            tcx,
            (body.statements(), body.local_decls@),
            (#[trigger] spans[j]).0,
            spans[j].1.1@,
        )
}

/// The statements put back right after statement `i` of block `b`.
pub open spec fn inserted_at(assignments: Seq<(Location, Statement)>, b: int, i: int) -> Seq<
    Statement,
>
    decreases assignments.len(),
{
    if assignments.len() == 0 {
        Seq::empty()
    } else {
        (if assignments[0].0.block == b && assignments[0].0.statement_index == i {
            seq![assignments[0].1]
        } else {
            Seq::empty()
        }) + inserted_at(assignments.drop_first(), b, i)
    }
}

/// The statements of block `b` with every assignment put right after the statement at its
/// location.
pub open spec fn with_inserts(
    statements: Seq<Statement>,
    b: int,
    assignments: Seq<(Location, Statement)>,
) -> Seq<Statement>
    decreases statements.len(),
{
    if statements.len() == 0 {
        Seq::empty()
    } else {
        let i = statements.len() - 1;
        with_inserts(statements.drop_last(), b, assignments) + seq![statements[i]] + inserted_at(
            assignments,
            b,
            i,
        )
    }
}

/// The statements of every block, with the assignments put back.
pub open spec fn put_back(
    statements: Seq<Seq<Statement>>,
    assignments: Seq<(Location, Statement)>,
) -> Seq<Seq<Statement>> {
    Seq::new(statements.len(), |b: int| with_inserts(statements[b], b, assignments))
}

/// The body that the optimisation makes of `body`: the statements and local declarations.
pub open spec fn optimised(
    tcx: TyCtxt,
    body: Body,
    spans: Seq<(Location, ImmutabilitySpan)>,
) -> BodyState {
    let (state, assignments) = eliminate_all(
        tcx,
        (body.statements(), body.local_decls@),
        body.span,
        sort_by_location(spans),
    );
    (put_back(state.0, assignments), state.1)
}

proof fn lemma_insert_at<T>(s: Seq<(Location, T)>, x: (Location, T), k: int)
    requires
        0 <= k <= s.len(),
        forall|m: int| 0 <= m < k ==> (#[trigger] s[m]).0.precedes(x.0),
        k == s.len() || !s[k].0.precedes(x.0),
    ensures
        insert_by_location(s, x) == s.insert(k, x),
    decreases k,
{
    if s.len() == 0 {
        assert(s.insert(k, x) =~= seq![x]);
    } else if k == 0 {
        assert(s.insert(k, x) =~= seq![x] + s);
    } else {
        assert(s[0].0.precedes(x.0));
        let t = s.drop_first();
        assert forall|m: int| 0 <= m < k - 1 implies (#[trigger] t[m]).0.precedes(x.0) by {
            assert(t[m] == s[m + 1]);
        }
        if k - 1 < t.len() {
            assert(t[k - 1] == s[k]);
        }
        lemma_insert_at(t, x, k - 1);
        assert(s.insert(k, x) =~= seq![s[0]] + t.insert(k - 1, x));
    }
}

proof fn lemma_insert_by_location_props<T>(s: Seq<(Location, T)>, x: (Location, T))
    ensures
        insert_by_location(s, x).len() == s.len() + 1,
        forall|y: (Location, T)| #[trigger] insert_by_location(s, x).contains(y) <==> (y == x || s.contains(y)),
        ascending_locations(s) && (forall|m: int| 0 <= m < s.len() ==> (#[trigger] s[m]).0 != x.0)
            ==> ascending_locations(insert_by_location(s, x)),
    decreases s.len(),
{
    let r = insert_by_location(s, x);
    if s.len() == 0 {
        assert(r =~= seq![x]);
        assert forall|y: (Location, T)| #[trigger] r.contains(y) <==> (y == x || s.contains(y)) by {
            if r.contains(y) {
                assert(r[0] == y);
            }
            if y == x {
                assert(r[0] == y);
            }
        }
    } else if !s[0].0.precedes(x.0) {
        assert forall|y: (Location, T)| #[trigger] r.contains(y) <==> (y == x || s.contains(y)) by {
            if r.contains(y) {
                let k = choose|k: int| 0 <= k < r.len() && r[k] == y;
                if k > 0 {
                    assert(s[k - 1] == y);
                }
            }
            if y == x {
                assert(r[0] == y);
            }
            if s.contains(y) {
                let k = choose|k: int| 0 <= k < s.len() && s[k] == y;
                assert(r[k + 1] == y);
            }
        }
        if ascending_locations(s) && (forall|m: int| 0 <= m < s.len() ==> (#[trigger] s[m]).0 != x.0) {
            assert(s[0].0 != x.0);
            assert forall|j: int, k: int| 0 <= j < k < r.len() implies (#[trigger] r[j]).0.precedes(
                (#[trigger] r[k]).0,
            ) by {
                if j == 0 {
                    assert(r[k] == s[k - 1]);
                    if k - 1 > 0 {
                        assert(s[0].0.precedes(s[k - 1].0));
                    }
                } else {
                    assert(r[j] == s[j - 1]);
                    assert(r[k] == s[k - 1]);
                }
            }
        }
    } else {
        let t = s.drop_first();
        lemma_insert_by_location_props(t, x);
        let rt = insert_by_location(t, x);
        assert(r == seq![s[0]] + rt);
        assert forall|y: (Location, T)| #[trigger] r.contains(y) <==> (y == x || s.contains(y)) by {
            if r.contains(y) {
                let k = choose|k: int| 0 <= k < r.len() && r[k] == y;
                if k > 0 {
                    assert(rt[k - 1] == y);
                    assert(rt.contains(y));
                    if y != x {
                        assert(t.contains(y));
                        let m = choose|m: int| 0 <= m < t.len() && t[m] == y;
                        assert(s[m + 1] == y);
                    }
                } else {
                    assert(s[0] == y);
                }
            }
            if y == x {
                assert(rt.contains(y));
                let k = choose|k: int| 0 <= k < rt.len() && rt[k] == y;
                assert(r[k + 1] == y);
            }
            if s.contains(y) {
                let k = choose|k: int| 0 <= k < s.len() && s[k] == y;
                if k == 0 {
                    assert(r[0] == y);
                } else {
                    assert(t[k - 1] == y);
                    assert(rt.contains(y));
                    let m = choose|m: int| 0 <= m < rt.len() && rt[m] == y;
                    assert(r[m + 1] == y);
                }
            }
        }
        if ascending_locations(s) && (forall|m: int| 0 <= m < s.len() ==> (#[trigger] s[m]).0 != x.0) {
            assert(ascending_locations(t)) by {
                assert forall|j: int, k: int| 0 <= j < k < t.len() implies (#[trigger] t[j]).0.precedes(
                    (#[trigger] t[k]).0,
                ) by {
                    assert(t[j] == s[j + 1]);
                    assert(t[k] == s[k + 1]);
                }
            }
            assert forall|m: int| 0 <= m < t.len() implies (#[trigger] t[m]).0 != x.0 by {
                assert(t[m] == s[m + 1]);
            }
            assert forall|j: int, k: int| 0 <= j < k < r.len() implies (#[trigger] r[j]).0.precedes(
                (#[trigger] r[k]).0,
            ) by {
                if j == 0 {
                    assert(r[k] == rt[k - 1]);
                    assert(rt.contains(rt[k - 1]));
                    if rt[k - 1] == x {
                    } else {
                        assert(t.contains(rt[k - 1]));
                        let m = choose|m: int| 0 <= m < t.len() && t[m] == rt[k - 1];
                        assert(s[m + 1] == t[m]);
                    }
                } else {
                    assert(r[j] == rt[j - 1]);
                    assert(r[k] == rt[k - 1]);
                }
            }
        }
    }
}

/// Sorting keeps the elements, and orders elements with distinct locations strictly.
pub proof fn lemma_sort_by_location_props<T>(s: Seq<(Location, T)>)
    ensures
        sort_by_location(s).len() == s.len(),
        forall|y: (Location, T)| #[trigger] sort_by_location(s).contains(y) <==> s.contains(y),
        distinct_locations(s) ==> ascending_locations(sort_by_location(s)),
    decreases s.len(),
{
    if s.len() > 0 {
        let d = s.drop_last();
        lemma_sort_by_location_props(d);
        lemma_insert_by_location_props(sort_by_location(d), s.last());
        assert forall|y: (Location, T)| #[trigger] sort_by_location(s).contains(y) <==> s.contains(y) by {
            if d.contains(y) {
                let k = choose|k: int| 0 <= k < d.len() && d[k] == y;
                assert(s[k] == y);
            }
            if s.contains(y) && y != s.last() {
                let k = choose|k: int| 0 <= k < s.len() && s[k] == y;
                assert(d[k] == y);
            }
            if y == s.last() {
                assert(s[s.len() - 1] == y);
            }
        }
        if distinct_locations(s) {
            assert(distinct_locations(d));
            let sd = sort_by_location(d);
            assert forall|m: int| 0 <= m < sd.len() implies (#[trigger] sd[m]).0 != s.last().0 by {
                assert(sd.contains(sd[m]));
                assert(d.contains(sd[m]));
                let k = choose|k: int| 0 <= k < d.len() && d[k] == sd[m];
                assert(s[k] == d[k]);
            }
        }
    }
}

proof fn lemma_inserted_at_prepend(
    x: (Location, Statement),
    assignments: Seq<(Location, Statement)>,
    b: int,
    i: int,
)
    ensures
        inserted_at(seq![x] + assignments, b, i) == (if x.0.block == b && x.0.statement_index == i {
            seq![x.1]
        } else {
            Seq::<Statement>::empty()
        }) + inserted_at(assignments, b, i),
{
    assert((seq![x] + assignments).drop_first() =~= assignments);
    assert((seq![x] + assignments)[0] == x);
}

proof fn lemma_inserted_at_none(assignments: Seq<(Location, Statement)>, b: int, i: int, k: int)
    requires
        k <= i,
        forall|m: int|
            0 <= m < assignments.len() && (#[trigger] assignments[m]).0.block == b
                ==> assignments[m].0.statement_index > i,
    ensures
        inserted_at(assignments, b, k) == Seq::<Statement>::empty(),
    decreases assignments.len(),
{
    if assignments.len() > 0 {
        let t = assignments.drop_first();
        assert forall|m: int|
            0 <= m < t.len() && (#[trigger] t[m]).0.block == b implies t[m].0.statement_index > i by {
            assert(t[m] == assignments[m + 1]);
        }
        lemma_inserted_at_none(t, b, i, k);
        assert(assignments[0] == assignments[0]);
        assert(inserted_at(assignments, b, k) =~= Seq::<Statement>::empty());
    }
}

proof fn lemma_with_inserts_len(
    statements: Seq<Statement>,
    b: int,
    assignments: Seq<(Location, Statement)>,
)
    ensures
        with_inserts(statements, b, assignments).len() >= statements.len(),
    decreases statements.len(),
{
    if statements.len() > 0 {
        lemma_with_inserts_len(statements.drop_last(), b, assignments);
    }
}

proof fn lemma_with_inserts_none(
    statements: Seq<Statement>,
    b: int,
    assignments: Seq<(Location, Statement)>,
)
    requires
        forall|k: int|
            0 <= k < statements.len() ==> #[trigger] inserted_at(assignments, b, k)
                == Seq::<Statement>::empty(),
    ensures
        with_inserts(statements, b, assignments) == statements,
    decreases statements.len(),
{
    if statements.len() > 0 {
        let d = statements.drop_last();
        assert forall|k: int| 0 <= k < d.len() implies #[trigger] inserted_at(assignments, b, k)
            == Seq::<Statement>::empty() by {
            assert(inserted_at(assignments, b, k) == Seq::<Statement>::empty());
        }
        lemma_with_inserts_none(d, b, assignments);
        assert(inserted_at(assignments, b, statements.len() - 1) == Seq::<Statement>::empty());
        assert(with_inserts(statements, b, assignments) =~= statements);
    }
}

proof fn lemma_with_inserts_other_block(
    statements: Seq<Statement>,
    b: int,
    x: (Location, Statement),
    assignments: Seq<(Location, Statement)>,
)
    requires
        x.0.block != b,
    ensures
        with_inserts(statements, b, seq![x] + assignments) == with_inserts(statements, b, assignments),
    decreases statements.len(),
{
    if statements.len() > 0 {
        lemma_with_inserts_other_block(statements.drop_last(), b, x, assignments);
        lemma_inserted_at_prepend(x, assignments, b, statements.len() - 1);
        assert(Seq::<Statement>::empty() + inserted_at(assignments, b, statements.len() - 1)
            =~= inserted_at(assignments, b, statements.len() - 1));
    }
}

proof fn lemma_with_inserts_insert(
    statements: Seq<Statement>,
    location: Location,
    a: Statement,
    assignments: Seq<(Location, Statement)>,
)
    requires
        location.statement_index < statements.len(),
        forall|m: int|
            0 <= m < assignments.len() && (#[trigger] assignments[m]).0.block == location.block
                ==> assignments[m].0.statement_index > location.statement_index,
    ensures
        with_inserts(statements, location.block as int, seq![(location, a)] + assignments)
            == with_inserts(statements, location.block as int, assignments).insert(
            location.statement_index + 1,
            a,
        ),
    decreases statements.len(),
{
    let b = location.block as int;
    let i = location.statement_index as int;
    let x = (location, a);
    let j = statements.len() - 1;
    let d = statements.drop_last();
    lemma_inserted_at_prepend(x, assignments, b, j);
    if i == j {
        lemma_inserted_at_none(assignments, b, i, j);
        assert forall|k: int| 0 <= k < d.len() implies #[trigger] inserted_at(assignments, b, k)
            == Seq::<Statement>::empty() by {
            lemma_inserted_at_none(assignments, b, i, k);
        }
        lemma_with_inserts_none(d, b, assignments);
        assert forall|k: int| 0 <= k < d.len() implies #[trigger] inserted_at(
            seq![x] + assignments,
            b,
            k,
        ) == Seq::<Statement>::empty() by {
            lemma_inserted_at_none(assignments, b, i, k);
            lemma_inserted_at_prepend(x, assignments, b, k);
            assert(Seq::<Statement>::empty() + Seq::<Statement>::empty() =~= Seq::<
                Statement,
            >::empty());
        }
        lemma_with_inserts_none(d, b, seq![x] + assignments);
        assert(with_inserts(statements, b, seq![x] + assignments) =~= with_inserts(
            statements,
            b,
            assignments,
        ).insert(i + 1, a));
    } else {
        lemma_with_inserts_insert(d, location, a, assignments);
        lemma_with_inserts_len(d, b, assignments);
        assert(Seq::<Statement>::empty() + inserted_at(assignments, b, j) =~= inserted_at(
            assignments,
            b,
            j,
        ));
        assert(with_inserts(statements, b, seq![x] + assignments) =~= with_inserts(
            statements,
            b,
            assignments,
        ).insert(i + 1, a));
    }
}

/// What one span step keeps: the shape of the body, every assignment other than the span's own
/// (still an assignment to the same place), and the earlier local declarations.
proof fn lemma_span_step_keeps(
    tcx: TyCtxt,
    state: BodyState,
    body_span: usize,
    location: Location,
    x: Local,
    locations: Seq<Location>,
)
    requires
        span_applies(tcx, state, location, locations),
    ensures
        ({
            let (next, more) = span_step(tcx, state, body_span, location, x, locations);
            &&& next.0.len() == state.0.len()
            &&& forall|b: int| 0 <= b < state.0.len() ==> #[trigger] next.0[b].len() == state.0[b].len()
            &&& forall|b: int, i: int|
                0 <= b < state.0.len() && 0 <= i < state.0[b].len() && !(b == location.block && i
                    == location.statement_index) && state.0[b][i].kind is Assign ==> {
                    &&& (#[trigger] next.0[b][i]).kind is Assign
                    &&& assigned_place(next.0[b][i]) == assigned_place(state.0[b][i])
                }
            &&& next.1.len() >= state.1.len()
            &&& forall|l: int| 0 <= l < state.1.len() ==> #[trigger] next.1[l] == state.1[l]
            &&& more.len() == 0 || (more.len() == 1 && more[0].0 == location)
        }),
{
}

/// A place keeps its type when more locals are declared.
proof fn lemma_place_ty_more_locals(
    tcx: TyCtxt,
    decls: Seq<LocalDecl>,
    more: Seq<LocalDecl>,
    place: Place,
)
    requires
        place_ty(tcx, decls, place) is Some,
        more.len() >= decls.len(),
        forall|l: int| 0 <= l < decls.len() ==> #[trigger] more[l] == decls[l],
    ensures
        place_ty(tcx, more, place) == place_ty(tcx, decls, place),
{
    assert(more[place.local as int] == decls[place.local as int]);
}

/// Two sequences ordered strictly by location that hold the same elements are equal.
proof fn lemma_ascending_unique<T>(s1: Seq<(Location, T)>, s2: Seq<(Location, T)>)
    requires
        ascending_locations(s1),
        ascending_locations(s2),
        forall|y: (Location, T)| s1.contains(y) <==> s2.contains(y),
    ensures
        s1 == s2,
    decreases s1.len(),
{
    if s1.len() == 0 {
        if s2.len() > 0 {
            assert(s2.contains(s2[0]));
        }
        assert(s1 =~= s2);
    } else {
        assert(s1.contains(s1[0]));
        assert(s2.len() > 0);
        assert(s2.contains(s2[0]));
        let k = choose|k: int| 0 <= k < s2.len() && s2[k] == s1[0];
        let m = choose|m: int| 0 <= m < s1.len() && s1[m] == s2[0];
        if k > 0 {
            assert(s2[0].0.precedes(s2[k].0));
            if m > 0 {
                assert(s1[0].0.precedes(s1[m].0));
            }
            assert(false);
        }
        let t1 = s1.drop_first();
        let t2 = s2.drop_first();
        assert(ascending_locations(t1)) by {
            assert forall|j: int, l: int| 0 <= j < l < t1.len() implies (#[trigger] t1[j]).0.precedes(
                (#[trigger] t1[l]).0,
            ) by {
                assert(t1[j] == s1[j + 1]);
                assert(t1[l] == s1[l + 1]);
            }
        }
        assert(ascending_locations(t2)) by {
            assert forall|j: int, l: int| 0 <= j < l < t2.len() implies (#[trigger] t2[j]).0.precedes(
                (#[trigger] t2[l]).0,
            ) by {
                assert(t2[j] == s2[j + 1]);
                assert(t2[l] == s2[l + 1]);
            }
        }
        assert forall|y: (Location, T)| t1.contains(y) <==> t2.contains(y) by {
            if t1.contains(y) {
                let i = choose|i: int| 0 <= i < t1.len() && t1[i] == y;
                assert(s1[i + 1] == y);
                assert(s1[0].0.precedes(s1[i + 1].0));
                assert(s2.contains(y));
                let j = choose|j: int| 0 <= j < s2.len() && s2[j] == y;
                assert(j != 0);
                assert(t2[j - 1] == y);
            }
            if t2.contains(y) {
                let i = choose|i: int| 0 <= i < t2.len() && t2[i] == y;
                assert(s2[i + 1] == y);
                assert(s2[0].0.precedes(s2[i + 1].0));
                assert(s1.contains(y));
                let j = choose|j: int| 0 <= j < s1.len() && s1[j] == y;
                assert(j != 0);
                assert(t1[j - 1] == y);
            }
        }
        lemma_ascending_unique(t1, t2);
        assert(s1 =~= seq![s1[0]] + t1);
        assert(s2 =~= seq![s2[0]] + t2);
    }
}

/// Law: the result does not depend on the order in which the spans are given (the spans are
/// sorted by location first), so the optimisation's output is deterministic.
pub proof fn lemma_optimisation_ignores_span_order(
    tcx: TyCtxt,
    body: Body,
    spans1: Seq<(Location, ImmutabilitySpan)>,
    spans2: Seq<(Location, ImmutabilitySpan)>,
)
    requires
        distinct_locations(spans1),
        distinct_locations(spans2),
        forall|y: (Location, ImmutabilitySpan)| spans1.contains(y) <==> spans2.contains(y),
    ensures
        optimised(tcx, body, spans1) == optimised(tcx, body, spans2),
{
    lemma_sort_by_location_props(spans1);
    lemma_sort_by_location_props(spans2);
    lemma_ascending_unique(sort_by_location(spans1), sort_by_location(spans2));
}

proof fn lemma_eliminate_all_only_adds_locals(
    tcx: TyCtxt,
    state: BodyState,
    body_span: usize,
    spans: Seq<(Location, ImmutabilitySpan)>,
)
    ensures
        ({
            let decls = eliminate_all(tcx, state, body_span, spans).0.1;
            &&& decls.len() >= state.1.len()
            &&& forall|l: int| 0 <= l < state.1.len() ==> #[trigger] decls[l] == state.1[l]
            &&& forall|l: int| state.1.len() <= l < decls.len() ==> (#[trigger] decls[l]).span == body_span
        }),
    decreases spans.len(),
{
    if spans.len() > 0 {
        lemma_eliminate_all_only_adds_locals(tcx, state, body_span, spans.drop_last());
    }
}

/// Law: the optimisation only adds local declarations. Every local of the body keeps its
/// declaration, and each new one (a local that holds a written value) has the body's span.
pub proof fn lemma_optimisation_only_adds_locals(
    tcx: TyCtxt,
    body: Body,
    spans: Seq<(Location, ImmutabilitySpan)>,
)
    ensures
        ({
            let decls = optimised(tcx, body, spans).1;
            &&& decls.len() >= body.local_decls@.len()
            &&& forall|l: int|
                0 <= l < body.local_decls@.len() ==> #[trigger] decls[l] == body.local_decls@[l]
            &&& forall|l: int|
                body.local_decls@.len() <= l < decls.len() ==> (#[trigger] decls[l]).span == body.span
        }),
{
    lemma_eliminate_all_only_adds_locals(
        tcx,
        (body.statements(), body.local_decls@),
        body.span,
        sort_by_location(spans),
    );
}

/// Law: applying a span whose locations read `*x` moves the written value into a fresh local.
/// The local is new (its index is the number of locals before), the assignment `*x = v` becomes
/// `internal = v`, the assignment put back after it is `*x = copy internal`, and every read
/// `_ = copy (*x)` of the span now reads `internal`. A span that reads nothing changes nothing.
pub proof fn lemma_span_moves_value_into_fresh_local(
    tcx: TyCtxt,
    state: BodyState,
    body_span: usize,
    location: Location,
    x: Local,
    locations: Seq<Location>,
)
    requires
        span_applies(tcx, state, location, locations),
    ensures
        ({
            let (next, more) = span_step(tcx, state, body_span, location, x, locations);
            let internal = state.1.len() as Local;
            let b = location.block as int;
            let i = location.statement_index as int;
            let assignment = state.0[b][i];
            if reads_some(tcx, state.0, x, locations) {
                &&& next.1.len() == state.1.len() + 1
                &&& next.1.last().ty == place_ty(tcx, state.1, assigned_place(assignment)).unwrap()
                &&& assigned_place(next.0[b][i]) == local_place(internal)
                &&& more == seq![
                    (location, with_rvalue(with_place(next.0[b][i], assigned_place(assignment)), copy_of(internal))),
                ]
                &&& forall|j: int|
                    0 <= j < locations.len() && names_statement(state.0, #[trigger] locations[j])
                        && !(locations[j] == location) && is_deref_read_of(
                        tcx,
                        state.0[locations[j].block as int][locations[j].statement_index as int],
                        x,
                    ) ==> next.0[locations[j].block as int][locations[j].statement_index as int]
                        == with_rvalue(
                        state.0[locations[j].block as int][locations[j].statement_index as int],
                        copy_of(internal),
                    )
            } else {
                next == state && more.len() == 0
            }
        }),
{
    let (next, more) = span_step(tcx, state, body_span, location, x, locations);
    if reads_some(tcx, state.0, x, locations) {
        let internal = state.1.len() as Local;
        assert forall|j: int|
            0 <= j < locations.len() && names_statement(state.0, #[trigger] locations[j]) && !(
            locations[j] == location) && is_deref_read_of(
                tcx,
                state.0[locations[j].block as int][locations[j].statement_index as int],
                x,
            ) implies next.0[locations[j].block as int][locations[j].statement_index as int]
            == with_rvalue(
            state.0[locations[j].block as int][locations[j].statement_index as int],
            copy_of(internal),
        ) by {
            let l = locations[j];
            assert(has_location(locations, l.block as int, l.statement_index as int));
        }
    }
}

/// Law: a span rewrites only reads through its own reference. Every statement other than the
/// span's assignment keeps its place in the body, and it is unchanged unless it is a read
/// `_ = copy (*x)` of the span's `x` at one of the span's locations; such a read keeps its
/// destination and now copies the fresh local (the next index of the locals). In particular a
/// read `_ = copy (*y)` through another reference `y` is left alone, and so is every statement
/// outside the span.
pub proof fn lemma_span_rewrites_only_reads_through_x(
    tcx: TyCtxt,
    state: BodyState,
    body_span: usize,
    location: Location,
    x: Local,
    locations: Seq<Location>,
    b: int,
    i: int,
)
    requires
        span_applies(tcx, state, location, locations),
        0 <= b < state.0.len(),
        0 <= i < state.0[b].len(),
        !(b == location.block && i == location.statement_index),
    ensures
        ({
            let next = span_step(tcx, state, body_span, location, x, locations).0.0;
            let before = state.0[b][i];
            let at_span_location = exists|k: int|
                0 <= k < locations.len() && (#[trigger] locations[k]).block == b
                    && locations[k].statement_index == i;
            &&& next.len() == state.0.len()
            &&& next[b].len() == state.0[b].len()
            &&& !at_span_location ==> next[b][i] == before
            &&& !(before.kind matches StatementKind::Assign(_, Rvalue::Use(Operand::Copy(read)))
                && read.local == x && tcx.elems(read.projection) == seq![ProjectionElem::Deref])
                ==> next[b][i] == before
            &&& match before.kind {
                StatementKind::Assign(dest, Rvalue::Use(Operand::Copy(read))) => read.local == x
                    && tcx.elems(read.projection) == seq![ProjectionElem::Deref] && at_span_location
                    ==> next[b][i] == (Statement {
                    source_info: before.source_info,
                    kind: StatementKind::Assign(
                        dest,
                        Rvalue::Use(
                            Operand::Copy(
                                (Place { local: state.1.len() as Local, projection: ProjectionList::Empty }),
                            ),
                        ),
                    ),
                }),
                _ => true,
            }
        }),
{
    let (statements, _) = state;
    if reads_some(tcx, statements, x, locations) {
        let internal = state.1.len() as Local;
        let replaced = replace_reads(tcx, statements, x, locations, internal);
        assert(replaced[b][i] == (if has_location(locations, b, i) && is_deref_read_of(
            tcx,
            statements[b][i],
            x,
        ) {
            with_rvalue(statements[b][i], copy_of(internal))
        } else {
            statements[b][i]
        }));
    }
}

proof fn lemma_eliminate_all_without_reads(
    tcx: TyCtxt,
    state: BodyState,
    body_span: usize,
    spans: Seq<(Location, ImmutabilitySpan)>,
)
    requires
        forall|j: int|
            0 <= j < spans.len() ==> !reads_some(tcx, state.0, (#[trigger] spans[j]).1.0, spans[j].1.1@),
    ensures
        eliminate_all(tcx, state, body_span, spans) == (state, Seq::<(Location, Statement)>::empty()),
    decreases spans.len(),
{
    if spans.len() > 0 {
        let d = spans.drop_last();
        assert forall|j: int| 0 <= j < d.len() implies !reads_some(
            tcx,
            state.0,
            (#[trigger] d[j]).1.0,
            d[j].1.1@,
        ) by {
            assert(d[j] == spans[j]);
        }
        lemma_eliminate_all_without_reads(tcx, state, body_span, d);
        assert(!reads_some(tcx, state.0, spans[spans.len() - 1].1.0, spans[spans.len() - 1].1.1@));
        assert(Seq::<(Location, Statement)>::empty() + Seq::<(Location, Statement)>::empty()
            =~= Seq::<(Location, Statement)>::empty());
    }
}

/// Law: when no span reads the local it is about, the optimisation leaves the body as it was:
/// no local is added and no statement changes.
pub proof fn lemma_optimisation_without_reads_is_identity(
    tcx: TyCtxt,
    body: Body,
    spans: Seq<(Location, ImmutabilitySpan)>,
)
    requires
        forall|j: int|
            0 <= j < spans.len() ==> !reads_some(
                tcx,
                body.statements(),
                (#[trigger] spans[j]).1.0,
                spans[j].1.1@,
            ),
    ensures
        optimised(tcx, body, spans) == (body.statements(), body.local_decls@),
{
    let sorted = sort_by_location(spans);
    lemma_sort_by_location_props(spans);
    assert forall|j: int| 0 <= j < sorted.len() implies !reads_some(
        tcx,
        body.statements(),
        (#[trigger] sorted[j]).1.0,
        sorted[j].1.1@,
    ) by {
        assert(sorted.contains(sorted[j]));
        let k = choose|k: int| 0 <= k < spans.len() && spans[k] == sorted[j];
    }
    lemma_eliminate_all_without_reads(tcx, (body.statements(), body.local_decls@), body.span, sorted);
    let st = body.statements();
    assert forall|b: int| 0 <= b < st.len() implies #[trigger] put_back(
        st,
        Seq::<(Location, Statement)>::empty(),
    )[b] == st[b] by {
        lemma_with_inserts_none(st[b], b, Seq::<(Location, Statement)>::empty());
    }
    assert(put_back(st, Seq::<(Location, Statement)>::empty()) =~= st);
}

/// No span starts in block `b`, and no span reaches into it.
pub open spec fn spans_avoid_block(spans: Seq<(Location, ImmutabilitySpan)>, b: int) -> bool {
    forall|j: int|
        0 <= j < spans.len() ==> {
            &&& (#[trigger] spans[j]).0.block != b
            &&& forall|m: int| 0 <= m < spans[j].1.1@.len() ==> #[trigger] spans[j].1.1@[m].block != b
        }
}

proof fn lemma_eliminate_all_avoids_block(
    tcx: TyCtxt,
    state: BodyState,
    body_span: usize,
    spans: Seq<(Location, ImmutabilitySpan)>,
    b: int,
)
    requires
        0 <= b < state.0.len(),
        spans_avoid_block(spans, b),
        forall|j: int| 0 <= j < spans.len() ==> (#[trigger] spans[j]).0.block < state.0.len(),
    ensures
        ({
            let (next, assignments) = eliminate_all(tcx, state, body_span, spans);
            &&& next.0.len() == state.0.len()
            &&& next.0[b] == state.0[b]
            &&& forall|m: int| 0 <= m < assignments.len() ==> (#[trigger] assignments[m]).0.block != b
        }),
    decreases spans.len(),
{
    if spans.len() > 0 {
        let d = spans.drop_last();
        assert(spans_avoid_block(d, b)) by {
            assert forall|j: int| 0 <= j < d.len() implies {
                &&& (#[trigger] d[j]).0.block != b
                &&& forall|m: int| 0 <= m < d[j].1.1@.len() ==> #[trigger] d[j].1.1@[m].block != b
            } by {
                assert(d[j] == spans[j]);
            }
        }
        assert forall|j: int| 0 <= j < d.len() implies (#[trigger] d[j]).0.block < state.0.len() by {
            assert(d[j] == spans[j]);
        }
        lemma_eliminate_all_avoids_block(tcx, state, body_span, d, b);
        let (before, assignments) = eliminate_all(tcx, state, body_span, d);
        let last = spans.last();
        assert(last == spans[spans.len() - 1]);
        let (after, more) = span_step(tcx, before, body_span, last.0, last.1.0, last.1.1@);
        assert(eliminate_all(tcx, state, body_span, spans) == (after, assignments + more));
        assert(last.0.block != b);
        if reads_some(tcx, before.0, last.1.0, last.1.1@) {
            let replaced = replace_reads(tcx, before.0, last.1.0, last.1.1@, before.1.len() as Local);
            assert forall|i: int| 0 <= i < before.0[b].len() implies #[trigger] replaced[b][i]
                == before.0[b][i] by {
                if has_location(last.1.1@, b, i) {
                    let k = choose|k: int|
                        0 <= k < last.1.1@.len() && (#[trigger] last.1.1@[k]).block == b
                            && last.1.1@[k].statement_index == i;
                    assert(spans[spans.len() - 1].1.1@[k].block != b);
                }
            }
            assert(replaced[b] =~= before.0[b]);
            let lb = last.0.block as int;
            let li = last.0.statement_index as int;
            assert(after.0 == replaced.update(
                lb,
                replaced[lb].update(li, with_place(replaced[lb][li], local_place(before.1.len() as Local))),
            ));
            assert(before.0.len() == state.0.len());
            assert(0 <= b < replaced.len());
            assert(lb != b);
            assert(spans[spans.len() - 1].0.block < state.0.len());
            assert(after.0[b] == replaced[b]);
        } else {
            assert(after == before);
        }
        let all = assignments + more;
        assert forall|m: int| 0 <= m < all.len() implies (#[trigger] all[m]).0.block != b by {
            if m < assignments.len() {
                assert(all[m] == assignments[m]);
            } else {
                assert(all[m] == more[m - assignments.len()]);
            }
        }
    }
}

proof fn lemma_inserted_at_other_blocks(assignments: Seq<(Location, Statement)>, b: int, i: int)
    requires
        forall|m: int| 0 <= m < assignments.len() ==> (#[trigger] assignments[m]).0.block != b,
    ensures
        inserted_at(assignments, b, i) == Seq::<Statement>::empty(),
    decreases assignments.len(),
{
    if assignments.len() > 0 {
        let t = assignments.drop_first();
        assert forall|m: int| 0 <= m < t.len() implies (#[trigger] t[m]).0.block != b by {
            assert(t[m] == assignments[m + 1]);
        }
        lemma_inserted_at_other_blocks(t, b, i);
        assert(assignments[0].0.block != b);
        assert(inserted_at(assignments, b, i) =~= Seq::<Statement>::empty());
    }
}

/// Law: the optimisation only changes the blocks its spans start in or reach into; every other
/// block keeps its statements.
pub proof fn lemma_optimisation_is_local_to_spans(
    tcx: TyCtxt,
    body: Body,
    spans: Seq<(Location, ImmutabilitySpan)>,
    b: int,
)
    requires
        spans_apply(tcx, body, spans),
        0 <= b < body.basic_blocks@.len(),
        spans_avoid_block(spans, b),
    ensures
        optimised(tcx, body, spans).0[b] == body.statements()[b],
{
    let sorted = sort_by_location(spans);
    lemma_sort_by_location_props(spans);
    assert(spans_avoid_block(sorted, b)) by {
        assert forall|j: int| 0 <= j < sorted.len() implies {
            &&& (#[trigger] sorted[j]).0.block != b
            &&& forall|m: int| 0 <= m < sorted[j].1.1@.len() ==> #[trigger] sorted[j].1.1@[m].block != b
        } by {
            assert(sorted.contains(sorted[j]));
            let k = choose|k: int| 0 <= k < spans.len() && spans[k] == sorted[j];
        }
    }
    let state = (body.statements(), body.local_decls@);
    assert forall|j: int| 0 <= j < sorted.len() implies (#[trigger] sorted[j]).0.block < state.0.len() by {
        assert(sorted.contains(sorted[j]));
        let k = choose|k: int| 0 <= k < spans.len() && spans[k] == sorted[j];
        assert(span_applies(tcx, state, spans[k].0, spans[k].1.1@));
    }
    lemma_eliminate_all_avoids_block(tcx, state, body.span, sorted, b);
    let (next, assignments) = eliminate_all(tcx, state, body.span, sorted);
    assert forall|i: int| 0 <= i < next.0[b].len() implies #[trigger] inserted_at(assignments, b, i)
        == Seq::<Statement>::empty() by {
        lemma_inserted_at_other_blocks(assignments, b, i);
    }
    lemma_with_inserts_none(next.0[b], b, assignments);
}

/// Sorts spans by the location of their assignment.
fn sort_spans(spans: Vec<(Location, ImmutabilitySpan)>) -> (r: Vec<(Location, ImmutabilitySpan)>)
    ensures
        r@ == sort_by_location(spans@),
{
    let ghost given = spans@;
    let mut rest = spans;
    let mut sorted: Vec<(Location, ImmutabilitySpan)> = Vec::new();
    let ghost mut done: int = 0;
    while rest.len() > 0
        invariant
            0 <= done <= given.len(),
            rest@ == given.skip(done),
            sorted@ == sort_by_location(given.take(done)),
        decreases rest@.len(),
    {
        let x = rest.remove(0);
        assert(x == given[done]);
        let mut k: usize = 0;
        while k < sorted.len() && sorted[k].0.is_before(&x.0)
            invariant
                k <= sorted@.len(),
                forall|m: int| 0 <= m < k ==> (#[trigger] sorted@[m]).0.precedes(x.0),
            decreases sorted@.len() - k,
        {
            k = k + 1;
        }
        proof {
            lemma_insert_at(sorted@, x, k as int);
            assert(given.take(done + 1).drop_last() =~= given.take(done));
            assert(given.take(done + 1).last() == x);
        }
        sorted.insert(k, x);
        proof {
            done = done + 1;
            assert(rest@ =~= given.skip(done));
        }
    }
    assert(given.take(done) =~= given);
    sorted
}

/// The optimisation in progress: the body, and the assignments still to be put back.
pub struct EliminateReadsOptimisation<'a> {
    tcx: &'a TyCtxt,
    body: Body,
    assignments: Vec<(Location, Statement)>,
}

impl<'a> EliminateReadsOptimisation<'a> {
    /// The type context the optimisation reads.
    pub closed spec fn tcx_model(&self) -> TyCtxt {
        *self.tcx
    }

    /// The body being optimised.
    pub closed spec fn body_model(&self) -> Body {
        self.body
    }

    /// The assignments still to be put back.
    pub closed spec fn pending(&self) -> Seq<(Location, Statement)> {
        self.assignments@
    }

    pub fn new(tcx: &'a TyCtxt, body: Body) -> (r: EliminateReadsOptimisation<'a>)
        ensures
            r.tcx_model() == *tcx,
            r.body_model() == body,
            r.pending().len() == 0,
    {
        EliminateReadsOptimisation { tcx, body, assignments: Vec::new() }
    }

    /// Applies every span, in the order of their locations, then puts back the assignments
    /// that were replaced, each right after the statement it was taken from.
    #[verifier::spinoff_prover]
    pub fn run(self, immutability_spans: ImmutabilitySpans) -> (r: Body)
        requires
            self.pending().len() == 0,
            spans_apply(self.tcx_model(), self.body_model(), immutability_spans@),
        ensures
            (r.statements(), r.local_decls@) == optimised(
                self.tcx_model(),
                self.body_model(),
                immutability_spans@,
            ),
            r.terminators() == self.body_model().terminators(),
            r.arg_count == self.body_model().arg_count,
            r.span == self.body_model().span,
    {
        let ghost tcx = *self.tcx;
        let ghost body0 = self.body;
        let ghost state0 = (body0.statements(), body0.local_decls@);
        let ghost spans0 = immutability_spans@;
        let mut this = self;
        // Sorting by location makes the result independent of the order of the spans.
        let sorted = sort_spans(immutability_spans);
        proof {
            lemma_sort_by_location_props(spans0);
            assert forall|k: int| 0 <= k < sorted@.len() implies span_applies(
                tcx,
                state0,
                (#[trigger] sorted@[k]).0,
                sorted@[k].1.1@,
            ) by {
                assert(sorted@.contains(sorted@[k]));
                assert(spans0.contains(sorted@[k]));
                let j = choose|j: int| 0 <= j < spans0.len() && spans0[j] == sorted@[k];
                assert(span_applies(tcx, state0, spans0[j].0, spans0[j].1.1@));
            }
            assert(sorted@.take(0) =~= Seq::<(Location, ImmutabilitySpan)>::empty());
        }
        let mut i: usize = 0;
        while i < sorted.len()
            invariant
                i <= sorted@.len(),
                *this.tcx == tcx,
                sorted@ == sort_by_location(spans0),
                ascending_locations(sorted@),
                ({
                    let (state, assignments) = eliminate_all(
                        tcx,
                        state0,
                        body0.span,
                        sorted@.take(i as int),
                    );
                    &&& this.body.statements() == state.0
                    &&& this.body.local_decls@ == state.1
                    &&& this.assignments@ == assignments
                }),
                this.body.statements().len() == state0.0.len(),
                forall|b: int|
                    0 <= b < state0.0.len() ==> #[trigger] this.body.statements()[b].len()
                        == state0.0[b].len(),
                forall|k: int|
                    i <= k < sorted@.len() ==> span_applies(
                        tcx,
                        (this.body.statements(), this.body.local_decls@),
                        (#[trigger] sorted@[k]).0,
                        sorted@[k].1.1@,
                    ),
                ascending_locations(this.assignments@),
                forall|m: int|
                    0 <= m < this.assignments@.len() ==> names_statement(
                        this.body.statements(),
                        (#[trigger] this.assignments@[m]).0,
                    ),
                forall|m: int, k: int|
                    0 <= m < this.assignments@.len() && i <= k < sorted@.len() ==> (
                    #[trigger] this.assignments@[m]).0.precedes((#[trigger] sorted@[k]).0),
                this.body.terminators() == body0.terminators(),
                this.body.arg_count == body0.arg_count,
                this.body.span == body0.span,
            decreases sorted@.len() - i,
        {
            let ghost before = (this.body.statements(), this.body.local_decls@);
            let ghost assignments_before = this.assignments@;
            let location = sorted[i].0;
            proof {
                lemma_span_step_keeps(
                    tcx,
                    before,
                    body0.span,
                    location,
                    sorted@[i as int].1.0,
                    sorted@[i as int].1.1@,
                );
            }
            this.eliminate_reads_span(location, &sorted[i].1);
            proof {
                let after = (this.body.statements(), this.body.local_decls@);
                assert(sorted@.take(i + 1).drop_last() =~= sorted@.take(i as int));
                assert(sorted@.take(i + 1).last() == sorted@[i as int]);
                let more = this.assignments@.subrange(
                    assignments_before.len() as int,
                    this.assignments@.len() as int,
                );
                assert(this.assignments@ =~= assignments_before + more);
                assert forall|k: int| i + 1 <= k < sorted@.len() implies span_applies(
                    tcx,
                    after,
                    (#[trigger] sorted@[k]).0,
                    sorted@[k].1.1@,
                ) by {
                    let l = sorted@[k].0;
                    assert(span_applies(tcx, before, l, sorted@[k].1.1@));
                    assert(location.precedes(l));
                    let st = before.0[l.block as int][l.statement_index as int];
                    lemma_place_ty_more_locals(tcx, before.1, after.1, assigned_place(st));
                }
                assert forall|m: int|
                    0 <= m < this.assignments@.len() implies names_statement(
                    this.body.statements(),
                    (#[trigger] this.assignments@[m]).0,
                ) by {
                    if m < assignments_before.len() {
                        assert(this.assignments@[m] == assignments_before[m]);
                        assert(names_statement(before.0, assignments_before[m].0));
                    }
                }
                assert forall|j: int, k: int| 0 <= j < k < this.assignments@.len() implies (
                #[trigger] this.assignments@[j]).0.precedes((#[trigger] this.assignments@[k]).0) by {
                    if k >= assignments_before.len() {
                        assert(this.assignments@[j] == assignments_before[j]);
                        assert(assignments_before[j].0.precedes(sorted@[i as int].0));
                    } else {
                        assert(this.assignments@[j] == assignments_before[j]);
                        assert(this.assignments@[k] == assignments_before[k]);
                    }
                }
                assert forall|m: int, k: int|
                    0 <= m < this.assignments@.len() && i + 1 <= k < sorted@.len() implies (
                    #[trigger] this.assignments@[m]).0.precedes((#[trigger] sorted@[k]).0) by {
                    if m < assignments_before.len() {
                        assert(this.assignments@[m] == assignments_before[m]);
                    } else {
                        assert(sorted@[i as int].0.precedes(sorted@[k].0));
                    }
                }
            }
            i = i + 1;
        }
        assert(sorted@.take(i as int) =~= sorted@);

        // Put back the assignments that were replaced. Inserting makes later locations of the
        // same block invalid, so this starts at the bottom: the assignments were recorded in
        // increasing order of location, and are taken from the end.
        let mut body = this.body;
        let mut assignments = this.assignments;
        let ghost statements1 = body.statements();
        let ghost decls1 = body.local_decls@;
        let ghost all = assignments@;
        proof {
            assert(all.skip(all.len() as int) =~= Seq::<(Location, Statement)>::empty());
            assert forall|b: int| 0 <= b < statements1.len() implies #[trigger] put_back(
                statements1,
                all.skip(all.len() as int),
            )[b] == statements1[b] by {
                lemma_with_inserts_none(
                    statements1[b],
                    b,
                    Seq::<(Location, Statement)>::empty(),
                );
            }
            assert(put_back(statements1, all.skip(all.len() as int)) =~= statements1);
        }
        while assignments.len() > 0
            invariant
                assignments@ == all.take(assignments@.len() as int),
                assignments@.len() <= all.len(),
                body.statements() == put_back(statements1, all.skip(assignments@.len() as int)),
                ascending_locations(all),
                forall|m: int| 0 <= m < all.len() ==> names_statement(statements1, (#[trigger] all[m]).0),
                body.terminators() == body0.terminators(),
                body.arg_count == body0.arg_count,
                body.span == body0.span,
                body.local_decls@ == decls1,
            decreases assignments@.len(),
        {
            let ghost n = assignments@.len() as int;
            let (location, assignment) = assignments.pop().unwrap();
            proof {
                assert(all[n - 1] == (location, assignment));
                assert(names_statement(statements1, location));
                let rest = all.skip(n);
                assert(all.skip(n - 1) =~= seq![(location, assignment)] + rest);
                assert forall|m: int|
                    0 <= m < rest.len() && (#[trigger] rest[m]).0.block == location.block
                        implies rest[m].0.statement_index > location.statement_index by {
                    assert(rest[m] == all[n + m]);
                    assert(all[n - 1].0.precedes(all[n + m].0));
                }
                let b = location.block as int;
                lemma_with_inserts_len(statements1[b], b, rest);
                assert(body.statements().len() == body.basic_blocks@.len());
                assert(body.statements()[b] == with_inserts(statements1[b], b, rest));
                assert(body.statements()[b] == body.basic_blocks@[b].statements@);
            }
            let block_len = body.basic_blocks[location.block].statements.len();
            assert(location.statement_index < block_len);
            body.insert_statement(location.block, location.statement_index + 1, assignment);
            proof {
                let rest = all.skip(n);
                let b = location.block as int;
                lemma_with_inserts_insert(statements1[b], location, assignment, rest);
                assert forall|c: int| 0 <= c < statements1.len() implies #[trigger] body.statements()[c]
                    == put_back(statements1, all.skip(n - 1))[c] by {
                    if c != b {
                        lemma_with_inserts_other_block(
                            statements1[c],
                            c,
                            (location, assignment),
                            rest,
                        );
                    }
                }
                assert(body.statements() =~= put_back(statements1, all.skip(n - 1)));
                assert(assignments@ =~= all.take(n - 1));
            }
        }
        assert(all.skip(0) =~= all);
        proof {
            let (state, a) = eliminate_all(tcx, state0, body0.span, sort_by_location(spans0));
            assert(statements1 == state.0);
            assert(decls1 == state.1);
            assert(all == a);
        }
        body
    }

    /// Applies one immutability span to the body.
    #[verifier::spinoff_prover]
    fn eliminate_reads_span(&mut self, location: Location, span: &ImmutabilitySpan)
        requires
            span_applies(
                *old(self).tcx,
                (old(self).body.statements(), old(self).body.local_decls@),
                location,
                span.1@,
            ),
        ensures
            ({
                let (state, assignments) = span_step(
                    *old(self).tcx,
                    (old(self).body.statements(), old(self).body.local_decls@),
                    old(self).body.span,
                    location,
                    span.0,
                    span.1@,
                );
                &&& final(self).body.statements() == state.0
                &&& final(self).body.local_decls@ == state.1
                &&& final(self).assignments@ == old(self).assignments@ + assignments
            }),
            final(self).body.terminators() == old(self).body.terminators(),
            final(self).body.arg_count == old(self).body.arg_count,
            final(self).body.span == old(self).body.span,
            final(self).tcx == old(self).tcx,
    {
        let ghost statements0 = self.body.statements();
        let ghost decls0 = self.body.local_decls@;
        // The assignment the span starts at.
        let assignment = self.body.basic_blocks[location.block].statements[location.statement_index];
        assert(assignment == statements0[location.block as int][location.statement_index as int]);
        let assignment_ty = match place_ty_in(self.tcx, &self.body.local_decls, assigned_place_of(&assignment)) {
            Some(ty) => ty,
            None => {
                assert(false);
                return ;
            },
        };
        let internal_local = self.body.local_decls.len();
        self.body.local_decls.push(LocalDecl::new(assignment_ty, self.body.span));
        let internal_place = Place { local: internal_local, projection: ProjectionList::Empty };
        let mut rvalue_used = false;

        // Replace each read `_ = copy (*x)` of the span by `_ = copy internal`.
        assert(replace_reads(*self.tcx, statements0, span.0, span.1@.take(0), internal_local)
            =~~= statements0);
        let mut j: usize = 0;
        while j < span.1.len()
            invariant
                j <= span.1@.len(),
                internal_local == decls0.len(),
                internal_place == local_place(internal_local),
                self.body.local_decls@ == decls0.push(LocalDecl { ty: assignment_ty, span: self.body.span }),
                self.body.statements() == replace_reads(
                    *self.tcx,
                    statements0,
                    span.0,
                    span.1@.take(j as int),
                    internal_local,
                ),
                rvalue_used == reads_some(*self.tcx, statements0, span.0, span.1@.take(j as int)),
                self.body.terminators() == old(self).body.terminators(),
                self.body.arg_count == old(self).body.arg_count,
                self.body.span == old(self).body.span,
                self.tcx == old(self).tcx,
                self.assignments == old(self).assignments,
                forall|k: int| 0 <= k < span.1@.len() ==> #[trigger] span.1@[k].block < statements0.len(),
            decreases span.1@.len() - j,
        {
            let span_location = span.1[j];
            let ghost current = self.body.statements();
            let ghost prefix = span.1@.take(j as int);
            let ghost next = span.1@.take(j + 1);
            let ghost b0 = span_location.block as int;
            let ghost i0 = span_location.statement_index as int;
            assert(next =~= prefix.push(span_location));
            assert(span.1@[j as int] == span_location);
            assert(span_location.block < statements0.len());
            proof {
                assert(self.tcx.elems(ProjectionList::Empty) =~= Seq::<ProjectionElem>::empty());
                assert(current.len() == statements0.len());
                assert(current.len() == self.body.basic_blocks@.len());
                assert(current[b0] == self.body.basic_blocks@[b0].statements@);
                assert(current[b0].len() == statements0[b0].len());
                if 0 <= i0 < current[b0].len() && !has_location(prefix, b0, i0) {
                    assert(current[b0][i0] == statements0[b0][i0]);
                }
                if 0 <= i0 < current[b0].len() && is_deref_read_of(*self.tcx, current[b0][i0], span.0) {
                    if has_location(prefix, b0, i0) && is_deref_read_of(
                        *self.tcx,
                        statements0[b0][i0],
                        span.0,
                    ) {
                        assert(current[b0][i0] == with_rvalue(
                            statements0[b0][i0],
                            copy_of(internal_local),
                        ));
                        assert(seq![ProjectionElem::Deref].len() == 1);
                        assert(!self.tcx.spec_is_deref_only(ProjectionList::Empty));
                        assert(false);
                    }
                    assert(current[b0][i0] == statements0[b0][i0]);
                }
            }
            let found = match self.body.stmt_at(span_location) {
                StatementOrTerminator::Statement(statement) => {
                    if is_read_of(self.tcx, &statement, span.0) {
                        Some(statement)
                    } else {
                        None
                    }
                },
                StatementOrTerminator::Terminator(_) => None,
            };
            proof {
                if names_statement(statements0, span_location) && is_deref_read_of(
                    *self.tcx,
                    statements0[b0][i0],
                    span.0,
                ) {
                    if has_location(prefix, b0, i0) {
                        let k = choose|k: int|
                            0 <= k < prefix.len() && (#[trigger] prefix[k]).block == b0
                                && prefix[k].statement_index == i0;
                        assert(names_statement(statements0, prefix[k]));
                        assert(reads_some(*self.tcx, statements0, span.0, prefix));
                    } else {
                        assert(found == Some(statements0[b0][i0]));
                    }
                }
                if found is Some {
                    assert(names_statement(statements0, span_location));
                    assert(is_deref_read_of(*self.tcx, statements0[b0][i0], span.0));
                    assert(!has_location(prefix, b0, i0));
                }
            }
            if let Some(statement) = found {
                // `_ = copy (*x)` becomes `_ = copy internal`.
                self.body.set_statement(span_location, with_copy_of(&statement, internal_place));
                rvalue_used = true;
            }
            proof {
                let target = replace_reads(*self.tcx, statements0, span.0, next, internal_local);
                let now = self.body.statements();
                assert forall|b: int, i: int|
                    0 <= b < target.len() && 0 <= i < target[b].len() implies #[trigger] now[b][i]
                    == target[b][i] by {
                    if has_location(prefix, b, i) {
                        let k = choose|k: int|
                            0 <= k < prefix.len() && (#[trigger] prefix[k]).block == b
                                && prefix[k].statement_index == i;
                        assert(next[k] == prefix[k]);
                    }
                    if b == b0 && i == i0 {
                        assert(next[j as int] == span_location);
                    } else if has_location(next, b, i) {
                        let k = choose|k: int|
                            0 <= k < next.len() && (#[trigger] next[k]).block == b
                                && next[k].statement_index == i;
                        assert(k < prefix.len());
                        assert(prefix[k] == next[k]);
                    }
                }
                assert forall|b: int| 0 <= b < target.len() implies #[trigger] now[b] =~= target[b] by {
                }
                assert(now =~= target);
                if reads_some(*self.tcx, statements0, span.0, next) && !reads_some(
                    *self.tcx,
                    statements0,
                    span.0,
                    prefix,
                ) {
                    let w = choose|w: int|
                        0 <= w < next.len() && names_statement(statements0, #[trigger] next[w])
                            && is_deref_read_of(
                            *self.tcx,
                            statements0[next[w].block as int][next[w].statement_index as int],
                            span.0,
                        );
                    if w < prefix.len() {
                        assert(prefix[w] == next[w]);
                    }
                }
                if reads_some(*self.tcx, statements0, span.0, prefix) {
                    let w = choose|w: int|
                        0 <= w < prefix.len() && names_statement(statements0, #[trigger] prefix[w])
                            && is_deref_read_of(
                            *self.tcx,
                            statements0[prefix[w].block as int][prefix[w].statement_index as int],
                            span.0,
                        );
                    assert(next[w] == prefix[w]);
                }
                if found is Some {
                    assert(next[j as int] == span_location);
                }
            }
            j = j + 1;
        }
        assert(span.1@.take(j as int) =~= span.1@);

        if !rvalue_used {
            self.body.local_decls.pop();
            assert(self.body.local_decls@ =~= decls0);
            assert(self.body.statements() =~~= statements0);
        } else {
            // `*x = v` becomes `internal = v`, and `*x = copy internal` is put back after it
            // once every span is done.
            proof {
                let b = location.block as int;
                assert(self.body.statements().len() == statements0.len());
                assert(self.body.statements()[b].len() == statements0[b].len());
                assert(self.body.statements()[b] == self.body.basic_blocks@[b].statements@);
            }
            let current = self.body.basic_blocks[location.block].statements[location.statement_index];
            match current.kind {
                StatementKind::Assign(place, rvalue) => {
                    self.body.set_statement(
                        location,
                        Statement {
                            source_info: current.source_info,
                            kind: StatementKind::Assign(internal_place, rvalue),
                        },
                    );
                    self.assignments.push(
                        (
                            location,
                            Statement {
                                source_info: current.source_info,
                                kind: StatementKind::Assign(
                                    place,
                                    Rvalue::Use(Operand::Copy(internal_place)),
                                ),
                            },
                        ),
                    );
                },
                _ => {
                    assert(false);
                },
            }
        }
    }
}

/// Replaces, within the immutability spans of assignments `*x = v`, the reads of `*x` by reads
/// of a fresh local that holds `v`.
pub fn eliminate_reads(tcx: &TyCtxt, body: &mut Body, immutability_spans: ImmutabilitySpans)
    requires
        spans_apply(*tcx, *old(body), immutability_spans@),
    ensures
        (final(body).statements(), final(body).local_decls@) == optimised(
            *tcx,
            *old(body),
            immutability_spans@,
        ),
        final(body).terminators() == old(body).terminators(),
        final(body).arg_count == old(body).arg_count,
        final(body).span == old(body).span,
{
    let mut taken = Body { basic_blocks: Vec::new(), local_decls: Vec::new(), arg_count: 0, span: 0 };
    std::mem::swap(&mut taken, body);
    *body = EliminateReadsOptimisation::new(tcx, taken).run(immutability_spans);
}

/// The type of `place` in a body with the given locals, as rustc computes it.
pub fn place_ty_in(tcx: &TyCtxt, local_decls: &Vec<LocalDecl>, place: Place) -> (r: Option<Ty>)
    ensures
        r == place_ty(*tcx, local_decls@, place),
{
    if place.local >= local_decls.len() {
        return None;
    }
    let ghost elems = tcx.elems(place.projection);
    let n = tcx.projection_len(place.projection);
    let mut ty: Option<Ty> = Some(local_decls[place.local].ty);
    let mut k: usize = 0;
    while k < n
        invariant
            k <= n,
            n == elems.len(),
            elems == tcx.elems(place.projection),
            ty == projected_ty(
                *tcx,
                local_decls@[place.local as int].ty,
                elems.take(k as int),
            ),
        decreases n - k,
    {
        assert(elems.take(k + 1).drop_last() =~= elems.take(k as int));
        let elem = tcx.projection_elem(place.projection, k);
        ty = match ty {
            None => None,
            Some(t) => match elem {
                ProjectionElem::Deref => match tcx.kind(t) {
                    TyKind::Ref(pointee, _) | TyKind::RawPtr(pointee, _) | TyKind::Boxed(pointee) => Some(
                    pointee,
                ),
                    _ => None,
                },
                ProjectionElem::Field(_, field_ty) => Some(field_ty),
                ProjectionElem::Index(_) | ProjectionElem::ConstantIndex { .. } => match tcx.kind(t) {
                    TyKind::Array(elem_ty, _) | TyKind::Slice(elem_ty) => Some(elem_ty),
                    _ => None,
                },
                ProjectionElem::Subslice { from, to, from_end } => subslice_ty(
                    tcx,
                    t,
                    from,
                    to,
                    from_end,
                ),
                ProjectionElem::Downcast(_) => Some(t),
            },
        };
        k = k + 1;
    }
    assert(elems.take(k as int) =~= elems);
    ty
}

/// The type of a subslice of a place of type `ty`.
fn subslice_ty(tcx: &TyCtxt, ty: Ty, from: u64, to: u64, from_end: bool) -> (r: Option<Ty>)
    ensures
        r == elem_ty(*tcx, ty, ProjectionElem::Subslice { from, to, from_end }),
{
    match tcx.kind(ty) {
        TyKind::Slice(_) => Some(ty),
        TyKind::Array(inner, len) => if !from_end {
            if from <= to {
                tcx.find_ty(TyKind::Array(inner, Some(to - from)))
            } else {
                None
            }
        } else {
            match len {
                Some(n) => if from <= n && to <= n - from {
                    tcx.find_ty(TyKind::Array(inner, Some(n - from - to)))
                } else {
                    None
                },
                None => None,
            }
        },
        _ => None,
    }
}

/// Whether the spans start at distinct locations and each applies to the body: what
/// `eliminate_reads` needs of its input.
pub fn spans_apply_to(tcx: &TyCtxt, body: &Body, spans: &Vec<(Location, ImmutabilitySpan)>) -> (r:
    bool)
    ensures
        r == spans_apply(*tcx, *body, spans@),
{
    let n = spans.len();
    let mut j: usize = 0;
    while j < n
        invariant
            n == spans@.len(),
            j <= n,
            forall|a: int, b: int| 0 <= a < j && 0 <= b < n && a != b ==> spans@[a].0 != spans@[b].0,
        decreases n - j,
    {
        let mut k: usize = 0;
        while k < n
            invariant
                n == spans@.len(),
                j < n,
                k <= n,
                forall|b: int| 0 <= b < k && j != b ==> spans@[j as int].0 != spans@[b].0,
            decreases n - k,
        {
            if j != k && spans[j].0 == spans[k].0 {
                return false;
            }
            k = k + 1;
        }
        j = j + 1;
    }
    let ghost state = (body.statements(), body.local_decls@);
    let mut j: usize = 0;
    while j < n
        invariant
            n == spans@.len(),
            j <= n,
            state == (body.statements(), body.local_decls@),
            forall|a: int| 0 <= a < j ==> span_applies(*tcx, state, (#[trigger] spans@[a]).0, spans@[a].1.1@),
        decreases n - j,
    {
        let location = spans[j].0;
        if location.block >= body.basic_blocks.len()
            || location.statement_index >= body.basic_blocks[location.block].statements.len() {
            return false;
        }
        let statement = body.basic_blocks[location.block].statements[location.statement_index];
        assert(statement == state.0[location.block as int][location.statement_index as int]);
        if !matches!(statement.kind, StatementKind::Assign(..)) {
            return false;
        }
        if place_ty_in(tcx, &body.local_decls, assigned_place_of(&statement)).is_none() {
            return false;
        }
        let locations = &spans[j].1.1;
        let mut m: usize = 0;
        while m < locations.len()
            invariant
                j < n,
                n == spans@.len(),
                m <= locations@.len(),
                locations@ == spans@[j as int].1.1@,
                state.0.len() == body.basic_blocks@.len(),
                forall|c: int| 0 <= c < m ==> #[trigger] locations@[c].block < state.0.len(),
            decreases locations@.len() - m,
        {
            if locations[m].block >= body.basic_blocks.len() {
                assert(spans@[j as int].1.1@[m as int].block >= state.0.len());
                assert(!span_applies(*tcx, state, spans@[j as int].0, spans@[j as int].1.1@));
                return false;
            }
            m = m + 1;
        }
        j = j + 1;
    }
    true
}

/// Whether `statement` is `_ = copy (*x)`.
fn is_read_of(tcx: &TyCtxt, statement: &Statement, x: Local) -> (r: bool)
    ensures
        r == is_deref_read_of(*tcx, *statement, x),
{
    match statement.kind {
        StatementKind::Assign(_, Rvalue::Use(Operand::Copy(place))) => place.local == x
            && tcx.is_deref_only(place.projection),
        _ => false,
    }
}

/// The assignment `statement` with its right-hand side replaced by `copy place`.
fn with_copy_of(statement: &Statement, place: Place) -> (r: Statement)
    ensures
        r == with_rvalue(*statement, Rvalue::Use(Operand::Copy(place))),
{
    match statement.kind {
        StatementKind::Assign(dest, _) => Statement {
            source_info: statement.source_info,
            kind: StatementKind::Assign(dest, Rvalue::Use(Operand::Copy(place))),
        },
        _ => *statement,
    }
}

/// The place an assignment writes.
fn assigned_place_of(statement: &Statement) -> (r: Place)
    ensures
        r == assigned_place(*statement),
{
    match statement.kind {
        StatementKind::Assign(place, _) => place,
        _ => Place { local: 0, projection: ProjectionList::Empty },
    }
}

} // verus!

//! A dataflow analysis that tracks whether a local, a mutable reference, is on top of the borrow
//! stack: no other mutable borrow of it has been taken since it was last written through.
//! Immutable borrows may be above it on the borrow stack.
use vstd::prelude::*;

use crate::analysis::local_set::{
    apply_effects, effects_below, gen_set, kill_set, lemma_apply_effects_is_gen_kill,
    lemma_apply_effects_monotone, lemma_apply_kills, GenKill, LocalSet,
};
use crate::mir::{
    Body, BorrowKind, Local, Location, Operand, Place, ProjectionElem, Rvalue, Statement, StatementKind, Terminator,
    TerminatorKind, TyCtxt,
};

verus! {

/// Killing every local of `locals`, in order.
pub open spec fn kill_all_effects(locals: Seq<Local>) -> Seq<GenKill> {
    locals.map_values(|l: Local| GenKill::Kill(l))
}

/// What an rvalue does to the borrow stack: taking a raw pointer, a mutable (or shallow) borrow,
/// or casting a place, takes its local off the top; shared and unique borrows leave it there.
pub open spec fn rvalue_effects(rvalue: Rvalue) -> Seq<GenKill> {
    match rvalue {
        Rvalue::AddressOf(_, borrowed) => seq![GenKill::Kill(borrowed.local)],
        Rvalue::Ref(BorrowKind::Shared, _) => Seq::empty(),
        Rvalue::Ref(BorrowKind::Unique, _) => Seq::empty(),
        Rvalue::Ref(_, borrowed) => seq![GenKill::Kill(borrowed.local)],
        Rvalue::Cast(_, Operand::Copy(place), _) => seq![GenKill::Kill(place.local)],
        Rvalue::Cast(_, Operand::Move(place), _) => seq![GenKill::Kill(place.local)],
        Rvalue::ShallowInitBox(Operand::Copy(place), _) => seq![GenKill::Kill(place.local)],
        Rvalue::ShallowInitBox(Operand::Move(place), _) => seq![GenKill::Kill(place.local)],
        _ => Seq::empty(),
    }
}

/// The effects of a statement, in the order the analysis applies them.
///
/// - `StorageDead(x)` and `StorageLive(x)` kill `x`;
/// - an intrinsic kills every tracked local;
/// - `place = rvalue` first applies the rvalue's effects, then gens `x` when the place is `*x`
///   for a tracked `x` (writing through `x` puts it back on top), or kills `x` when the place
///   is the bare local `x`;
/// - every other statement does nothing.
pub open spec fn statement_effects(tcx: TyCtxt, retagged: Seq<Local>, statement: Statement) -> Seq<
    GenKill,
> {
    match statement.kind {
        StatementKind::StorageDead(local) => seq![GenKill::Kill(local)],
        StatementKind::StorageLive(local) => seq![GenKill::Kill(local)],
        StatementKind::Intrinsic(_) => kill_all_effects(retagged),
        StatementKind::Assign(place, rvalue) => rvalue_effects(rvalue) + if tcx.spec_is_deref_only(
            place.projection,
        ) && retagged.contains(place.local) {
            seq![GenKill::Gen(place.local)]
        } else if tcx.elems(place.projection).len() == 0 {
            seq![GenKill::Kill(place.local)]
        } else {
            Seq::empty()
        },
        _ => Seq::empty(),
    }
}

/// The effects of a terminator.
///
/// - a drop kills the dropped local (drop glue may take `&mut` to it);
/// - inline assembly and every exit from the body kill every tracked local;
/// - a call kills the local it returns into;
/// - every other terminator does nothing.
pub open spec fn terminator_effects(retagged: Seq<Local>, terminator: Terminator) -> Seq<GenKill> {
    match terminator.kind {
        TerminatorKind::Drop { place, .. } => seq![GenKill::Kill(place.local)],
        TerminatorKind::DropAndReplace { place, .. } => seq![GenKill::Kill(place.local)],
        TerminatorKind::InlineAsm => kill_all_effects(retagged),
        TerminatorKind::Abort => kill_all_effects(retagged),
        TerminatorKind::Resume => kill_all_effects(retagged),
        TerminatorKind::Return => kill_all_effects(retagged),
        TerminatorKind::GeneratorDrop => kill_all_effects(retagged),
        TerminatorKind::Yield => kill_all_effects(retagged),
        TerminatorKind::Call { destination } => seq![GenKill::Kill(destination.local)],
        _ => Seq::empty(),
    }
}

/// The analysis, parametrised by the locals it tracks (the retagged mutable references).
pub struct TopOfBorrowStack {
    retagged: Vec<Local>,
}

impl TopOfBorrowStack {
    /// The tracked locals.
    pub closed spec fn retagged(&self) -> Seq<Local> {
        self.retagged@
    }

    pub fn new(retagged: Vec<Local>) -> (r: TopOfBorrowStack)
        ensures
            r.retagged() == retagged@,
    {
        TopOfBorrowStack { retagged }
    }

    /// The initial state of every block: every tracked local is on top of its borrow stack.
    /// (The state is a `Dual` lattice: the join of two states is their intersection.)
    pub fn bottom_value(&self, body: &Body) -> (r: LocalSet)
        requires
            forall|i: int|
                0 <= i < self.retagged().len() ==> #[trigger] self.retagged()[i]
                    < body.local_decls@.len(),
        ensures
            r.domain_size() == body.local_decls@.len(),
            r@ == self.retagged().to_set(),
    {
        let mut domain = LocalSet::new_empty(body.local_decls.len());
        let mut i: usize = 0;
        while i < self.retagged.len()
            invariant
                i <= self.retagged@.len(),
                domain.domain_size() == body.local_decls@.len(),
                domain@ == self.retagged@.take(i as int).to_set(),
                forall|k: int|
                    0 <= k < self.retagged().len() ==> #[trigger] self.retagged()[k]
                        < body.local_decls@.len(),
            decreases self.retagged@.len() - i,
        {
            let local = self.retagged[i];
            assert(local == self.retagged()[i as int]);
            domain.insert(local);
            proof {
                self.retagged@.lemma_take_succ_push(i as int);
                self.retagged@.take(i as int).lemma_push_to_set_commute(local);
            }
            i = i + 1;
        }
        assert(self.retagged@.take(i as int) =~= self.retagged@);
        domain
    }

    fn kill_all(&self, effects: &mut Vec<GenKill>)
        ensures
            final(effects)@ == old(effects)@ + kill_all_effects(self.retagged()),
    {
        let mut i: usize = 0;
        while i < self.retagged.len()
            invariant
                i <= self.retagged@.len(),
                effects@ == old(effects)@ + kill_all_effects(self.retagged@.take(i as int)),
            decreases self.retagged@.len() - i,
        {
            effects.push(GenKill::Kill(self.retagged[i]));
            assert(kill_all_effects(self.retagged@.take(i + 1)) =~= kill_all_effects(
                self.retagged@.take(i as int),
            ).push(GenKill::Kill(self.retagged@[i as int])));
            i = i + 1;
        }
        assert(self.retagged@.take(i as int) =~= self.retagged@);
    }

    fn retagged_contains(&self, local: Local) -> (r: bool)
        ensures
            r == self.retagged().contains(local),
    {
        let mut i: usize = 0;
        while i < self.retagged.len()
            invariant
                i <= self.retagged@.len(),
                forall|k: int| 0 <= k < i ==> self.retagged@[k] != local,
            decreases self.retagged@.len() - i,
        {
            if self.retagged[i] == local {
                return true;
            }
            i = i + 1;
        }
        false
    }

    /// The effects of an rvalue, appended to `effects`.
    pub fn rvalue_effect(&self, rvalue: &Rvalue, effects: &mut Vec<GenKill>)
        ensures
            final(effects)@ == old(effects)@ + rvalue_effects(*rvalue),
    {
        match rvalue {
            Rvalue::AddressOf(_, borrowed) => effects.push(GenKill::Kill(borrowed.local)),
            Rvalue::Ref(BorrowKind::Shared, _) | Rvalue::Ref(BorrowKind::Unique, _) => {},
            Rvalue::Ref(_, borrowed) => effects.push(GenKill::Kill(borrowed.local)),
            Rvalue::Cast(_, Operand::Copy(place), _)
            | Rvalue::Cast(_, Operand::Move(place), _)
            | Rvalue::ShallowInitBox(Operand::Copy(place), _)
            | Rvalue::ShallowInitBox(Operand::Move(place), _) => {
                // A cast may transmute the reference into something else.
                effects.push(GenKill::Kill(place.local))
            },
            _ => {},
        }
        assert(effects@ =~= old(effects)@ + rvalue_effects(*rvalue));
    }

    /// The effects of a statement, in order; the transfer function of the analysis.
    pub fn statement_effects(&self, tcx: &TyCtxt, statement: &Statement) -> (r: Vec<GenKill>)
        ensures
            r@ == statement_effects(*tcx, self.retagged(), *statement),
    {
        let mut effects: Vec<GenKill> = Vec::new();
        match statement.kind {
            // Any pointer to the local is invalid once its storage is dead.
            StatementKind::StorageDead(local) => effects.push(GenKill::Kill(local)),
            // The tracked locals never reach `StorageLive`; killing keeps the analysis sound.
            StatementKind::StorageLive(local) => effects.push(GenKill::Kill(local)),
            StatementKind::Intrinsic(_) => self.kill_all(&mut effects),
            StatementKind::Assign(place, rvalue) => {
                self.rvalue_effect(&rvalue, &mut effects);
                if tcx.is_deref_only(place.projection) && self.retagged_contains(place.local) {
                    // `*x = ...` puts `x` back on top of its borrow stack.
                    effects.push(GenKill::Gen(place.local));
                } else if tcx.projection_len(place.projection) == 0 {
                    // `x = ...` replaces the reference.
                    effects.push(GenKill::Kill(place.local));
                }
            },
            // `Deinit` writes uninitialised bytes; it neither gens nor kills.
            _ => {},
        }
        assert(effects@ =~= statement_effects(*tcx, self.retagged(), *statement));
        effects
    }

    /// The effects of a terminator, in order.
    pub fn terminator_effects(&self, terminator: &Terminator) -> (r: Vec<GenKill>)
        ensures
            r@ == terminator_effects(self.retagged(), *terminator),
    {
        let mut effects: Vec<GenKill> = Vec::new();
        match terminator.kind {
            // Drop glue takes `&mut self` and may leak it through a raw pointer.
            TerminatorKind::Drop { place, .. } => effects.push(GenKill::Kill(place.local)),
            TerminatorKind::DropAndReplace { place, .. } => effects.push(
                GenKill::Kill(place.local),
            ),
            TerminatorKind::InlineAsm
            | TerminatorKind::Abort
            | TerminatorKind::Resume
            | TerminatorKind::Return
            | TerminatorKind::GeneratorDrop
            | TerminatorKind::Yield => self.kill_all(&mut effects),
            // `x = f(...)` replaces `x`.
            TerminatorKind::Call { destination } => effects.push(GenKill::Kill(destination.local)),
            _ => {},
        }
        assert(effects@ =~= terminator_effects(self.retagged(), *terminator));
        effects
    }

    /// Applies the effect of a statement to the state.
    pub fn statement_effect(
        &self,
        tcx: &TyCtxt,
        trans: &mut LocalSet,
        statement: &Statement,
        location: Location,
    )
        requires
            effects_below(
                statement_effects(*tcx, self.retagged(), *statement),
                old(trans).domain_size(),
            ),
        ensures
            final(trans)@ == apply_effects(
                old(trans)@,
                statement_effects(*tcx, self.retagged(), *statement),
            ),
            final(trans).domain_size() == old(trans).domain_size(),
    {
        let effects = self.statement_effects(tcx, statement);
        trans.apply(&effects);
    }

    /// Applies the effect of a terminator to the state.
    pub fn terminator_effect(&self, trans: &mut LocalSet, terminator: &Terminator, location: Location)
        requires
            effects_below(terminator_effects(self.retagged(), *terminator), old(trans).domain_size()),
        ensures
            final(trans)@ == apply_effects(
                old(trans)@,
                terminator_effects(self.retagged(), *terminator),
            ),
            final(trans).domain_size() == old(trans).domain_size(),
    {
        let effects = self.terminator_effects(terminator);
        trans.apply(&effects);
    }
}

/// Every gen in `effects` is of a local in `s`.
pub open spec fn gens_within(effects: Seq<GenKill>, s: Set<Local>) -> bool {
    forall|i: int|
        0 <= i < effects.len() ==> (#[trigger] effects[i] is Gen ==> s.contains(effects[i].local()))
}

proof fn lemma_gen_set_within(effects: Seq<GenKill>, s: Set<Local>)
    requires
        gens_within(effects, s),
    ensures
        gen_set(effects).subset_of(s),
    decreases effects.len(),
{
    if effects.len() > 0 {
        assert(gens_within(effects.drop_last(), s)) by {
            assert forall|i: int| 0 <= i < effects.drop_last().len() implies (
            #[trigger] effects.drop_last()[i] is Gen ==> s.contains(effects.drop_last()[i].local())) by {
                assert(effects.drop_last()[i] == effects[i]);
            }
        }
        lemma_gen_set_within(effects.drop_last(), s);
        assert(effects[effects.len() - 1] == effects.last());
    }
}

proof fn lemma_statement_gens_within(tcx: TyCtxt, retagged: Seq<Local>, statement: Statement)
    ensures
        gens_within(statement_effects(tcx, retagged, statement), retagged.to_set()),
{
    let e = statement_effects(tcx, retagged, statement);
    match statement.kind {
        StatementKind::Assign(place, rvalue) => {
            let r = rvalue_effects(rvalue);
            assert forall|i: int| 0 <= i < e.len() implies (#[trigger] e[i] is Gen
                ==> retagged.to_set().contains(e[i].local())) by {
                if i < r.len() {
                    assert(e[i] == r[i]);
                } else if e[i] is Gen {
                    assert(retagged.contains(place.local));
                }
            }
        },
        _ => {},
    }
}

/// Law: the transfer function of every statement and terminator is a gen/kill function — it
/// takes a fixed set of locals out of the state and puts a fixed set in, whatever the state —
/// and is therefore monotone, as the dataflow framework requires of the analysis.
pub proof fn lemma_transfer_is_gen_kill_and_monotone(
    tcx: TyCtxt,
    analysis: TopOfBorrowStack,
    statement: Statement,
    terminator: Terminator,
    s1: Set<Local>,
    s2: Set<Local>,
)
    requires
        s1.subset_of(s2),
    ensures
        ({
            let e = statement_effects(tcx, analysis.retagged(), statement);
            apply_effects(s1, e) == s1.difference(kill_set(e)).union(gen_set(e))
        }),
        ({
            let e = terminator_effects(analysis.retagged(), terminator);
            apply_effects(s1, e) == s1.difference(kill_set(e)).union(gen_set(e))
        }),
        apply_effects(s1, statement_effects(tcx, analysis.retagged(), statement)).subset_of(
            apply_effects(s2, statement_effects(tcx, analysis.retagged(), statement)),
        ),
        apply_effects(s1, terminator_effects(analysis.retagged(), terminator)).subset_of(
            apply_effects(s2, terminator_effects(analysis.retagged(), terminator)),
        ),
{
    lemma_apply_effects_is_gen_kill(s1, statement_effects(tcx, analysis.retagged(), statement));
    lemma_apply_effects_is_gen_kill(s1, terminator_effects(analysis.retagged(), terminator));
    lemma_apply_effects_monotone(s1, s2, statement_effects(tcx, analysis.retagged(), statement));
    lemma_apply_effects_monotone(s1, s2, terminator_effects(analysis.retagged(), terminator));
}

/// Law: the analysis only ever holds tracked locals. The initial state is exactly the tracked
/// locals (see `bottom_value`), a statement puts back only tracked locals, and a terminator
/// never puts a local back.
pub proof fn lemma_transfer_stays_within_retagged(
    tcx: TyCtxt,
    analysis: TopOfBorrowStack,
    statement: Statement,
    terminator: Terminator,
    s: Set<Local>,
)
    ensures
        apply_effects(s, statement_effects(tcx, analysis.retagged(), statement)).subset_of(
            s.union(analysis.retagged().to_set()),
        ),
        apply_effects(s, terminator_effects(analysis.retagged(), terminator)).subset_of(s),
{
    let retagged = analysis.retagged();
    let e = statement_effects(tcx, retagged, statement);
    lemma_statement_gens_within(tcx, retagged, statement);
    lemma_gen_set_within(e, retagged.to_set());
    lemma_apply_effects_is_gen_kill(s, e);
    let t = terminator_effects(retagged, terminator);
    assert(gens_within(t, Set::empty()));
    lemma_gen_set_within(t, Set::empty());
    lemma_apply_effects_is_gen_kill(s, t);
}

/// Law: immutable borrows may sit above a reference on its borrow stack. A shared or unique
/// borrow `dest = &(*x)...` leaves every local other than the one it assigns as it was.
pub proof fn lemma_immutable_borrows_keep_top(
    tcx: TyCtxt,
    analysis: TopOfBorrowStack,
    source_info: usize,
    dest: Place,
    kind: BorrowKind,
    borrowed: Place,
    s: Set<Local>,
    x: Local,
)
    requires
        kind is Shared || kind is Unique,
        x != dest.local,
    ensures
        apply_effects(
            s,
            statement_effects(
                tcx,
                analysis.retagged(),
                Statement { source_info, kind: StatementKind::Assign(dest, Rvalue::Ref(kind, borrowed)) },
            ),
        ).contains(x) == s.contains(x),
{
    let e = statement_effects(
        tcx,
        analysis.retagged(),
        Statement { source_info, kind: StatementKind::Assign(dest, Rvalue::Ref(kind, borrowed)) },
    );
    reveal_with_fuel(apply_effects, 3);
    if e.len() == 1 {
        assert(e.drop_last() =~= Seq::<GenKill>::empty());
    } else {
        assert(e =~= Seq::<GenKill>::empty());
    }
}

/// Law: a mutable (or shallow) borrow, a raw pointer or a cast of a place based on `x` takes
/// `x` off the top of its borrow stack, unless the same statement writes through `x`.
pub proof fn lemma_mutable_borrows_take_off_top(
    tcx: TyCtxt,
    analysis: TopOfBorrowStack,
    statement: Statement,
    s: Set<Local>,
)
    requires
        statement.kind is Assign,
        ({
            let rvalue = statement.kind->Assign_1;
            ||| rvalue matches Rvalue::Ref(k, _) && !(k is Shared || k is Unique)
            ||| rvalue is AddressOf
            ||| rvalue matches Rvalue::Cast(_, Operand::Copy(_), _)
            ||| rvalue matches Rvalue::Cast(_, Operand::Move(_), _)
        }),
        statement.kind->Assign_0.local != borrowed_local(statement.kind->Assign_1),
    ensures
        !apply_effects(s, statement_effects(tcx, analysis.retagged(), statement)).contains(
            borrowed_local(statement.kind->Assign_1),
        ),
{
    let e = statement_effects(tcx, analysis.retagged(), statement);
    reveal_with_fuel(apply_effects, 3);
    let r = rvalue_effects(statement.kind->Assign_1);
    assert(r.len() == 1);
    if e.len() == 2 {
        assert(e.drop_last() =~= r);
        assert(r.drop_last() =~= Seq::<GenKill>::empty());
    } else {
        assert(e =~= r);
        assert(r.drop_last() =~= Seq::<GenKill>::empty());
    }
}

/// The local of the place an rvalue borrows, points to, or casts.
pub open spec fn borrowed_local(rvalue: Rvalue) -> Local {
    match rvalue {
        Rvalue::Ref(_, place) => place.local,
        Rvalue::AddressOf(_, place) => place.local,
        Rvalue::Cast(_, Operand::Copy(place), _) => place.local,
        Rvalue::Cast(_, Operand::Move(place), _) => place.local,
        _ => 0,
    }
}

/// Law: writing through a tracked reference, `*x = ...`, puts `x` back on top of its borrow
/// stack, whatever the state was.
pub proof fn lemma_write_through_puts_back_on_top(
    tcx: TyCtxt,
    analysis: TopOfBorrowStack,
    statement: Statement,
    s: Set<Local>,
)
    requires
        statement.kind is Assign,
        tcx.spec_is_deref_only(statement.kind->Assign_0.projection),
        analysis.retagged().contains(statement.kind->Assign_0.local),
    ensures
        apply_effects(s, statement_effects(tcx, analysis.retagged(), statement)).contains(
            statement.kind->Assign_0.local,
        ),
{
    let e = statement_effects(tcx, analysis.retagged(), statement);
    assert(e.last() == GenKill::Gen(statement.kind->Assign_0.local));
}

/// Law: an intrinsic, inline assembly, and every exit from the body (return, resume, abort,
/// generator drop, yield) take every tracked local off the top of its borrow stack.
pub proof fn lemma_exits_kill_all_tracked(
    tcx: TyCtxt,
    analysis: TopOfBorrowStack,
    statement: Statement,
    terminator: Terminator,
    s: Set<Local>,
)
    requires
        statement.kind is Intrinsic,
        terminator.kind is InlineAsm || terminator.kind is Abort || terminator.kind is Resume
            || terminator.kind is Return || terminator.kind is GeneratorDrop
            || terminator.kind is Yield,
    ensures
        apply_effects(s, statement_effects(tcx, analysis.retagged(), statement)) == s.difference(
            analysis.retagged().to_set(),
        ),
        apply_effects(s, terminator_effects(analysis.retagged(), terminator)) == s.difference(
            analysis.retagged().to_set(),
        ),
{
    lemma_apply_kills(s, analysis.retagged());
}

/// Applying a single effect.
proof fn lemma_apply_one(s: Set<Local>, effect: GenKill)
    ensures
        apply_effects(s, seq![effect]) == match effect {
            GenKill::Gen(l) => s.insert(l),
            GenKill::Kill(l) => s.remove(l),
        },
{
    reveal_with_fuel(apply_effects, 2);
    assert(seq![effect].drop_last() =~= Seq::<GenKill>::empty());
}

/// Law: what each terminator does to the state. Control flow that neither leaves the body nor
/// runs other code (an assertion, a jump, a switch, a false edge or unwind, an unreachable
/// terminator) leaves every local where it is; a drop takes the dropped local off the top; a
/// call takes off the local it returns into; every exit takes off every tracked local.
pub proof fn lemma_terminator_transfer(analysis: TopOfBorrowStack, terminator: Terminator, s: Set<Local>)
    ensures
        terminator.kind is Assert || terminator.kind is Goto || terminator.kind is SwitchInt
            || terminator.kind is FalseEdge || terminator.kind is FalseUnwind
            || terminator.kind is Unreachable ==> apply_effects(
            s,
            terminator_effects(analysis.retagged(), terminator),
        ) == s,
        terminator.kind matches TerminatorKind::Drop { place, .. } ==> apply_effects(
            s,
            terminator_effects(analysis.retagged(), terminator),
        ) == s.remove(place.local),
        terminator.kind matches TerminatorKind::DropAndReplace { place, .. } ==> apply_effects(
            s,
            terminator_effects(analysis.retagged(), terminator),
        ) == s.remove(place.local),
        terminator.kind matches TerminatorKind::Call { destination } ==> apply_effects(
            s,
            terminator_effects(analysis.retagged(), terminator),
        ) == s.remove(destination.local),
        terminator.kind is InlineAsm || terminator.kind is Abort || terminator.kind is Resume
            || terminator.kind is Return || terminator.kind is GeneratorDrop
            || terminator.kind is Yield ==> apply_effects(
            s,
            terminator_effects(analysis.retagged(), terminator),
        ) == s.difference(analysis.retagged().to_set()),
{
    lemma_apply_kills(s, analysis.retagged());
    match terminator.kind {
        TerminatorKind::Drop { place, .. } => lemma_apply_one(s, GenKill::Kill(place.local)),
        TerminatorKind::DropAndReplace { place, .. } => lemma_apply_one(
            s,
            GenKill::Kill(place.local),
        ),
        TerminatorKind::Call { destination } => lemma_apply_one(
            s,
            GenKill::Kill(destination.local),
        ),
        _ => {},
    }
}

/// Law: what each statement does to the state. Statements that neither write nor borrow
/// (fake reads, discriminant writes, deinitialisation, retags, type ascriptions, coverage,
/// no-ops) leave every local where it is; a storage marker takes its local off the top; an
/// assignment whose right-hand side borrows nothing puts a tracked `x` back on top when it
/// writes `*x`, takes `x` off when it overwrites the bare local `x`, and otherwise changes
/// nothing.
pub proof fn lemma_statement_transfer(
    tcx: TyCtxt,
    analysis: TopOfBorrowStack,
    statement: Statement,
    s: Set<Local>,
)
    ensures
        statement.kind is FakeRead || statement.kind is SetDiscriminant || statement.kind is Deinit
            || statement.kind is Retag || statement.kind is AscribeUserType
            || statement.kind is Coverage || statement.kind is Nop ==> apply_effects(
            s,
            statement_effects(tcx, analysis.retagged(), statement),
        ) == s,
        statement.kind matches StatementKind::StorageLive(l) ==> apply_effects(
            s,
            statement_effects(tcx, analysis.retagged(), statement),
        ) == s.remove(l),
        statement.kind matches StatementKind::StorageDead(l) ==> apply_effects(
            s,
            statement_effects(tcx, analysis.retagged(), statement),
        ) == s.remove(l),
        ({
            let place = statement.kind->Assign_0;
            let rvalue = statement.kind->Assign_1;
            statement.kind is Assign && (rvalue is Use || rvalue is Repeat
                || rvalue is ThreadLocalRef || rvalue is Len || rvalue is BinaryOp
                || rvalue is CheckedBinaryOp || rvalue is NullaryOp || rvalue is UnaryOp
                || rvalue is Discriminant || rvalue is Aggregate || rvalue is CopyForDeref)
                ==> apply_effects(s, statement_effects(tcx, analysis.retagged(), statement)) == if tcx.elems(
                place.projection,
            ) == seq![ProjectionElem::Deref] && analysis.retagged().contains(place.local) {
                s.insert(place.local)
            } else if tcx.elems(place.projection).len() == 0 {
                s.remove(place.local)
            } else {
                s
            }
        }),
{
    match statement.kind {
        StatementKind::StorageLive(l) => lemma_apply_one(s, GenKill::Kill(l)),
        StatementKind::StorageDead(l) => lemma_apply_one(s, GenKill::Kill(l)),
        StatementKind::Assign(place, rvalue) => {
            let e = statement_effects(tcx, analysis.retagged(), statement);
            if rvalue_effects(rvalue).len() == 0 {
                assert(e =~= (if tcx.spec_is_deref_only(place.projection)
                    && analysis.retagged().contains(place.local) {
                    seq![GenKill::Gen(place.local)]
                } else if tcx.elems(place.projection).len() == 0 {
                    seq![GenKill::Kill(place.local)]
                } else {
                    Seq::<GenKill>::empty()
                }));
                lemma_apply_one(s, GenKill::Gen(place.local));
                lemma_apply_one(s, GenKill::Kill(place.local));
            }
        },
        _ => {},
    }
}

/// The pairs (local, location) such that the local is on top of its borrow stack just after the
/// statement or terminator at that location.
pub struct TopOfBorrowStackLocations {
    entries: Vec<(Local, Location)>,
}

impl View for TopOfBorrowStackLocations {
    type V = Set<(Local, Location)>;

    closed spec fn view(&self) -> Set<(Local, Location)> {
        self.entries@.to_set()
    }
}

/// The pairs of each local of `locals` with `location`.
pub open spec fn pairs_at(locals: Set<Local>, location: Location) -> Set<(Local, Location)> {
    Set::new(|p: (Local, Location)| p.1 == location && locals.contains(p.0))
}

/// The tracked locals of a set of pairs at one location.
pub open spec fn locals_at(pairs: Set<(Local, Location)>, location: Location) -> Set<Local> {
    Set::new(|l: Local| pairs.contains((l, location)))
}

/// `v` is strictly increasing.
pub open spec fn strictly_increasing(v: Seq<Local>) -> bool {
    forall|i: int, j: int| 0 <= i < j < v.len() ==> v[i] < v[j]
}

/// Inserts `x` into a strictly increasing vector, keeping it so.
fn insert_sorted(v: &mut Vec<Local>, x: Local)
    requires
        strictly_increasing(old(v)@),
    ensures
        strictly_increasing(final(v)@),
        final(v)@.to_set() == old(v)@.to_set().insert(x),
{
    let mut i: usize = 0;
    while i < v.len() && v[i] < x
        invariant
            i <= v@.len(),
            forall|k: int| 0 <= k < i ==> v@[k] < x,
        decreases v@.len() - i,
    {
        i = i + 1;
    }
    if i < v.len() && v[i] == x {
        assert(old(v)@.to_set().insert(x) =~= old(v)@.to_set()) by {
            assert(old(v)@.contains(x)) by {
                assert(old(v)@[i as int] == x);
            }
        }
        return ;
    }
    let ghost prev = v@;
    v.insert(i, x);
    assert(v@.to_set() =~= prev.to_set().insert(x)) by {
        assert forall|y: Local| v@.to_set().contains(y) implies prev.to_set().insert(x).contains(y) by {
            let k = choose|k: int| 0 <= k < v@.len() && v@[k] == y;
            if k < i {
                assert(prev[k] == y);
            } else if k > i {
                assert(prev[k - 1] == y);
            }
        }
        assert forall|y: Local| prev.to_set().insert(x).contains(y) implies v@.to_set().contains(y) by {
            if y == x {
                assert(v@[i as int] == y);
            } else {
                let k = choose|k: int| 0 <= k < prev.len() && prev[k] == y;
                if k < i {
                    assert(v@[k] == y);
                } else {
                    assert(v@[k + 1] == y);
                }
            }
        }
    }
}

impl TopOfBorrowStackLocations {
    pub fn new() -> (r: TopOfBorrowStackLocations)
        ensures
            r@ == Set::<(Local, Location)>::empty(),
    {
        let r = TopOfBorrowStackLocations { entries: Vec::new() };
        assert(r@ =~= Set::<(Local, Location)>::empty());
        r
    }

    pub fn contains(&self, local: Local, location: Location) -> (r: bool)
        ensures
            r == self@.contains((local, location)),
    {
        let mut i: usize = 0;
        while i < self.entries.len()
            invariant
                i <= self.entries@.len(),
                forall|k: int| 0 <= k < i ==> self.entries@[k] != (local, location),
            decreases self.entries@.len() - i,
        {
            let (l, loc) = self.entries[i];
            if l == local && loc.block == location.block && loc.statement_index
                == location.statement_index {
                assert(self.entries@[i as int] == (local, location));
                return true;
            }
            i = i + 1;
        }
        false
    }

    pub fn insert(&mut self, local: Local, location: Location)
        ensures
            final(self)@ == old(self)@.insert((local, location)),
    {
        if !self.contains(local, location) {
            self.entries.push((local, location));
            proof {
                old(self).entries@.lemma_push_to_set_commute((local, location));
            }
        } else {
            assert(old(self)@.insert((local, location)) =~= old(self)@);
        }
    }

    /// The locals on top of their borrow stack at `location`, in increasing order.
    pub fn top_locals_at(&self, location: Location) -> (r: Vec<Local>)
        ensures
            r@.to_set() == locals_at(self@, location),
            strictly_increasing(r@),
    {
        let mut r: Vec<Local> = Vec::new();
        let mut i: usize = 0;
        while i < self.entries.len()
            invariant
                i <= self.entries@.len(),
                strictly_increasing(r@),
                r@.to_set() == locals_at(self.entries@.take(i as int).to_set(), location),
            decreases self.entries@.len() - i,
        {
            let (l, loc) = self.entries[i];
            proof {
                self.entries@.lemma_take_succ_push(i as int);
                self.entries@.take(i as int).lemma_push_to_set_commute((l, loc));
            }
            if loc.block == location.block && loc.statement_index == location.statement_index {
                insert_sorted(&mut r, l);
                assert(r@.to_set() =~= locals_at(self.entries@.take(i + 1).to_set(), location));
            } else {
                assert(locals_at(self.entries@.take(i + 1).to_set(), location) =~= locals_at(
                    self.entries@.take(i as int).to_set(),
                    location,
                ));
            }
            i = i + 1;
        }
        assert(self.entries@.take(i as int) =~= self.entries@);
        r
    }
}

/// Collects, location by location, the locals that the analysis finds on top of their borrow
/// stack.
pub struct TopOfBorrowStackVisitor {
    pub top_of_borrow_stack: TopOfBorrowStackLocations,
}

impl TopOfBorrowStackVisitor {
    pub fn new() -> (r: TopOfBorrowStackVisitor)
        ensures
            r.top_of_borrow_stack@ == Set::<(Local, Location)>::empty(),
    {
        TopOfBorrowStackVisitor { top_of_borrow_stack: TopOfBorrowStackLocations::new() }
    }

    /// Records every local of `state` as on top at `location`.
    fn visit_location(&mut self, state: &LocalSet, location: Location)
        ensures
            final(self).top_of_borrow_stack@ == old(self).top_of_borrow_stack@.union(
                pairs_at(state@, location),
            ),
    {
        let tops = state.to_vec();
        let mut i: usize = 0;
        while i < tops.len()
            invariant
                i <= tops@.len(),
                self.top_of_borrow_stack@ == old(self).top_of_borrow_stack@.union(
                    pairs_at(tops@.take(i as int).to_set(), location),
                ),
            decreases tops@.len() - i,
        {
            self.top_of_borrow_stack.insert(tops[i], location);
            proof {
                tops@.lemma_take_succ_push(i as int);
                tops@.take(i as int).lemma_push_to_set_commute(tops@[i as int]);
                assert(pairs_at(tops@.take(i + 1).to_set(), location) =~= pairs_at(
                    tops@.take(i as int).to_set(),
                    location,
                ).insert((tops@[i as int], location)));
            }
            i = i + 1;
        }
        assert(tops@.take(i as int) =~= tops@);
        assert(self.top_of_borrow_stack@ =~= old(self).top_of_borrow_stack@.union(
            pairs_at(state@, location),
        ));
    }

    /// Called with the state just after a statement's effect.
    pub fn visit_statement_after_primary_effect(
        &mut self,
        state: &LocalSet,
        statement: &Statement,
        location: Location,
    )
        ensures
            final(self).top_of_borrow_stack@ == old(self).top_of_borrow_stack@.union(
                pairs_at(state@, location),
            ),
    {
        self.visit_location(state, location);
    }

    /// Called with the state just after a terminator's effect.
    pub fn visit_terminator_after_primary_effect(
        &mut self,
        state: &LocalSet,
        terminator: &Terminator,
        location: Location,
    )
        ensures
            final(self).top_of_borrow_stack@ == old(self).top_of_borrow_stack@.union(
                pairs_at(state@, location),
            ),
    {
        self.visit_location(state, location);
    }
}

/// Law: a strictly increasing sequence of locals is fixed by the set it holds. Each entry of the
/// table of `top_of_borrow_stack_table` is such a sequence for the set at its location, so two
/// sets of pairs that are equal give equal tables, whatever order their entries were added in.
pub proof fn lemma_sorted_locals_are_unique(v1: Seq<Local>, v2: Seq<Local>)
    requires
        strictly_increasing(v1),
        strictly_increasing(v2),
        v1.to_set() == v2.to_set(),
    ensures
        v1 == v2,
    decreases v1.len(),
{
    if v1.len() == 0 {
        if v2.len() > 0 {
            assert(v2.to_set().contains(v2[0]));
        }
        assert(v1 =~= v2);
    } else {
        assert(v1.to_set().contains(v1[0]));
        assert(v2.len() > 0);
        assert(v2.to_set().contains(v2[0]));
        let k = choose|k: int| 0 <= k < v2.len() && v2[k] == v1[0];
        let m = choose|m: int| 0 <= m < v1.len() && v1[m] == v2[0];
        if k > 0 {
            assert(v2[0] < v2[k]);
            if m > 0 {
                assert(v1[0] < v1[m]);
            }
        }
        assert(v1[0] == v2[0]);
        let t1 = v1.drop_first();
        let t2 = v2.drop_first();
        assert(strictly_increasing(t1)) by {
            assert forall|i: int, j: int| 0 <= i < j < t1.len() implies t1[i] < t1[j] by {
                assert(t1[i] == v1[i + 1] && t1[j] == v1[j + 1]);
            }
        }
        assert(strictly_increasing(t2)) by {
            assert forall|i: int, j: int| 0 <= i < j < t2.len() implies t2[i] < t2[j] by {
                assert(t2[i] == v2[i + 1] && t2[j] == v2[j + 1]);
            }
        }
        assert(t1.to_set() =~= t2.to_set()) by {
            assert forall|x: Local| t1.to_set().contains(x) implies t2.to_set().contains(x) by {
                let i = choose|i: int| 0 <= i < t1.len() && t1[i] == x;
                assert(v1[i + 1] == x && v1[0] < v1[i + 1]);
                assert(v2.to_set().contains(x));
                let j = choose|j: int| 0 <= j < v2.len() && v2[j] == x;
                assert(j != 0);
                assert(t2[j - 1] == x);
            }
            assert forall|x: Local| t2.to_set().contains(x) implies t1.to_set().contains(x) by {
                let i = choose|i: int| 0 <= i < t2.len() && t2[i] == x;
                assert(v2[i + 1] == x && v2[0] < v2[i + 1]);
                assert(v1.to_set().contains(x));
                let j = choose|j: int| 0 <= j < v1.len() && v1[j] == x;
                assert(j != 0);
                assert(t1[j - 1] == x);
            }
        }
        lemma_sorted_locals_are_unique(t1, t2);
        assert(v1 =~= seq![v1[0]] + t1);
        assert(v2 =~= seq![v2[0]] + t2);
    }
}

/// For every block and every location in it (the terminator last), the locals on top of their
/// borrow stack there, in increasing order: what the analysis prints.
pub fn top_of_borrow_stack_table(body: &Body, top_of_borrow_stack: &TopOfBorrowStackLocations) -> (r:
    Vec<Vec<Vec<Local>>>)
    requires
        forall|b: int|
            0 <= b < body.basic_blocks@.len() ==> #[trigger] body.basic_blocks@[b].statements@.len()
                < usize::MAX,
    ensures
        r@.len() == body.basic_blocks@.len(),
        forall|b: int|
            0 <= b < r@.len() ==> #[trigger] r@[b]@.len() == body.basic_blocks@[b].statements@.len()
                + 1,
        forall|b: int, i: int|
            0 <= b < r@.len() && 0 <= i < r@[b]@.len() ==> {
                &&& (#[trigger] r@[b]@[i])@.to_set() == locals_at(
                    top_of_borrow_stack@,
                    Location { block: b as usize, statement_index: i as usize },
                )
                &&& strictly_increasing(r@[b]@[i]@)
            },
{
    let mut r: Vec<Vec<Vec<Local>>> = Vec::new();
    let mut b: usize = 0;
    while b < body.basic_blocks.len()
        invariant
            b <= body.basic_blocks@.len(),
            r@.len() == b,
            forall|k: int|
                0 <= k < body.basic_blocks@.len() ==> #[trigger] body.basic_blocks@[k].statements@.len()
                    < usize::MAX,
            forall|k: int|
                0 <= k < r@.len() ==> #[trigger] r@[k]@.len()
                    == body.basic_blocks@[k].statements@.len() + 1,
            forall|k: int, i: int|
                0 <= k < r@.len() && 0 <= i < r@[k]@.len() ==> {
                    &&& (#[trigger] r@[k]@[i])@.to_set() == locals_at(
                        top_of_borrow_stack@,
                        Location { block: k as usize, statement_index: i as usize },
                    )
                    &&& strictly_increasing(r@[k]@[i]@)
                },
        decreases body.basic_blocks@.len() - b,
    {
        let n = body.basic_blocks[b].statements.len();
        let mut row: Vec<Vec<Local>> = Vec::new();
        let mut location = Location::start_location(b);
        loop
            invariant_except_break
                location.statement_index <= n,
                row@.len() == location.statement_index,
            invariant
                n < usize::MAX,
                location.block == b,
                forall|i: int|
                    0 <= i < row@.len() ==> {
                        &&& (#[trigger] row@[i])@.to_set() == locals_at(
                            top_of_borrow_stack@,
                            Location { block: b, statement_index: i as usize },
                        )
                        &&& strictly_increasing(row@[i]@)
                    },
            ensures
                row@.len() == n + 1,
                forall|i: int|
                    0 <= i < row@.len() ==> {
                        &&& (#[trigger] row@[i])@.to_set() == locals_at(
                            top_of_borrow_stack@,
                            Location { block: b, statement_index: i as usize },
                        )
                        &&& strictly_increasing(row@[i]@)
                    },
            decreases n - location.statement_index,
        {
            row.push(top_of_borrow_stack.top_locals_at(location));
            if location.statement_index == n {
                break ;
            }
            location = location.successor_within_block();
        }
        r.push(row);
        b = b + 1;
    }
    r
}

} // verus!

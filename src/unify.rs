use vstd::prelude::*;
use crate::ast::{
    atoms_view, is_ground, rule_wf, Identifier, InnerAtom, InnerAtomV, InnerRule, InnerRuleV,
    InnerTerm,
};

verus! {

/// Why one attempt at applying a rule to a tuple of facts failed.
#[derive(Clone, Copy, Debug, PartialEq, Eq, Structural)]
pub enum AssignFailure {
    /// Some premise does not unify with the fact in its position.
    PremiseMismatch,
    /// The premises unify, but the conclusion keeps a variable.
    UnboundConclusion,
}

/// A substitution: the constant that each bound variable stands for.
pub type Subst = Map<usize, Identifier>;

/// Pattern term `t` becomes the term `c` under `m`; `c` must be a constant.
pub open spec fn term_matches(t: InnerTerm, c: InnerTerm, m: Subst) -> bool {
    match t {
        InnerTerm::Const(k) => c == InnerTerm::Const(k),
        InnerTerm::Var(v) => m.contains_key(v) && c == InnerTerm::Const(m[v]),
    }
}

/// Pattern atom `p` becomes the atom `f` under `m`.
pub open spec fn atom_matches(p: InnerAtomV, f: InnerAtomV, m: Subst) -> bool {
    &&& p.0 == f.0
    &&& p.1.len() == f.1.len()
    &&& forall|j: int| 0 <= j < p.1.len() ==> term_matches(#[trigger] p.1[j], f.1[j], m)
}

/// The variables that occur in some premise.
pub open spec fn premise_vars(ps: Seq<InnerAtomV>) -> Set<usize> {
    Set::new(
        |v: usize|
            exists|i: int, j: int|
                0 <= i < ps.len() && 0 <= j < ps[i].1.len() && #[trigger] ps[i].1[j]
                    == InnerTerm::Var(v),
    )
}

/// `m` binds exactly the variables of the premises of `r`, and under it the
/// premises become `facts`, position by position.
pub open spec fn fires(r: InnerRuleV, facts: Seq<InnerAtomV>, m: Subst) -> bool {
    &&& m.dom() == premise_vars(r.premises)
    &&& r.premises.len() == facts.len()
    &&& forall|i: int| 0 <= i < facts.len() ==> atom_matches(#[trigger] r.premises[i], facts[i], m)
}

/// The term `t` with the bindings of `m` applied.
pub open spec fn subst_term(t: InnerTerm, m: Subst) -> InnerTerm {
    match t {
        InnerTerm::Var(v) => if m.contains_key(v) {
            InnerTerm::Const(m[v])
        } else {
            t
        },
        InnerTerm::Const(_) => t,
    }
}

/// The atom `a` with the bindings of `m` applied.
pub open spec fn instantiate(a: InnerAtomV, m: Subst) -> InnerAtomV {
    (a.0, a.1.map_values(|t: InnerTerm| subst_term(t, m)))
}

/// Rule `r`, applied to `facts` in order, yields the ground atom `c`.
pub open spec fn derives(r: InnerRuleV, facts: Seq<InnerAtomV>, c: InnerAtomV) -> bool {
    exists|m: Subst| #[trigger] fires(r, facts, m) && instantiate(r.conclusion, m) == c && is_ground(c)
}

/// The bindings held by a variable table.
pub open spec fn table_map(t: Seq<Option<Identifier>>) -> Subst {
    Map::new(|v: usize| v < t.len() && t[v as int] is Some, |v: usize| t[v as int]->Some_0)
}

/// The variables at the positions of `ps` before argument `j` of premise `i`.
pub open spec fn vars_before(ps: Seq<InnerAtomV>, i: int, j: int) -> Set<usize> {
    Set::new(
        |v: usize|
            exists|i2: int, j2: int|
                0 <= i2 <= i && i2 < ps.len() && 0 <= j2 < ps[i2].1.len() && (i2 < i || j2 < j)
                    && #[trigger] ps[i2].1[j2] == InnerTerm::Var(v),
    )
}

/// `m` agrees with `t` wherever `t` binds.
pub open spec fn extends(m: Subst, t: Subst) -> bool {
    forall|v: usize| #[trigger] t.contains_key(v) ==> m.contains_key(v) && m[v] == t[v]
}

/// Two substitutions under which a rule fires on the same facts are equal.
pub proof fn lemma_fires_unique(r: InnerRuleV, facts: Seq<InnerAtomV>, m1: Subst, m2: Subst)
    requires
        fires(r, facts, m1),
        fires(r, facts, m2),
    ensures
        m1 == m2,
{
    assert forall|v: usize| #[trigger] m1.contains_key(v) implies m1[v] == m2[v] by {
        assert(premise_vars(r.premises).contains(v));
        let (i, j) = choose|i: int, j: int|
            0 <= i < r.premises.len() && 0 <= j < r.premises[i].1.len()
                && #[trigger] r.premises[i].1[j] == InnerTerm::Var(v);
        assert(atom_matches(r.premises[i], facts[i], m1));
        assert(atom_matches(r.premises[i], facts[i], m2));
        assert(term_matches(r.premises[i].1[j], facts[i].1[j], m1));
        assert(term_matches(r.premises[i].1[j], facts[i].1[j], m2));
    }
    assert(m1 =~= m2);
}

/// Applies `rule` to `facts`: unifies each premise with the fact in the same
/// position, threading one substitution, then instantiates the conclusion.
pub fn assign(rule: &InnerRule, facts: &Vec<InnerAtom>) -> (r: Result<InnerAtom, AssignFailure>)
    requires
        rule_wf(rule@),
    ensures
        match r {
            Ok(c) => derives(rule@, atoms_view(facts@), c@),
            Err(AssignFailure::PremiseMismatch) => forall|m: Subst|
                !#[trigger] fires(rule@, atoms_view(facts@), m),
            Err(AssignFailure::UnboundConclusion) => exists|m: Subst|
                #[trigger] fires(rule@, atoms_view(facts@), m) && !is_ground(
                    instantiate(rule@.conclusion, m),
                ),
        },
{
    let ghost rv = rule@;
    let ghost fv = atoms_view(facts@);
    let ghost ps = rv.premises;
    if rule.premises.len() != facts.len() {
        return Err(AssignFailure::PremiseMismatch);
    }
    let nv = rule.var_names.len();
    let mut table: Vec<Option<Identifier>> = Vec::new();
    while table.len() < nv
        invariant
            table@.len() <= nv,
            forall|k: int| 0 <= k < table@.len() ==> table@[k] is None,
        decreases nv - table@.len(),
    {
        table.push(None);
    }
    assert(table_map(table@) =~= Map::empty());
    assert(vars_before(ps, 0, 0) =~= Set::empty());
    let n = facts.len();
    let mut i: usize = 0;
    while i < n
        invariant
            n == facts@.len() == ps.len() == fv.len(),
            rv == rule@,
            fv == atoms_view(facts@),
            ps == rv.premises,
            rule_wf(rv),
            nv == rv.var_names.len(),
            i <= n,
            table@.len() == nv,
            table_map(table@).dom() == vars_before(ps, i as int, 0),
            forall|i2: int| 0 <= i2 < i ==> atom_matches(#[trigger] ps[i2], fv[i2], table_map(table@)),
            forall|m: Subst| #[trigger] fires(rv, fv, m) ==> extends(m, table_map(table@)),
        decreases n - i,
    {
        let p = &rule.premises[i];
        let f = &facts[i];
        assert(p@ == ps[i as int]);
        assert(f@ == fv[i as int]);
        if p.predicate != f.predicate || p.arguments.len() != f.arguments.len() {
            assert forall|m: Subst| !#[trigger] fires(rv, fv, m) by {
                if fires(rv, fv, m) {
                    assert(atom_matches(ps[i as int], fv[i as int], m));
                }
            }
            return Err(AssignFailure::PremiseMismatch);
        }
        let k = p.arguments.len();
        let mut j: usize = 0;
        while j < k
            invariant
                n == facts@.len() == ps.len() == fv.len(),
                rv == rule@,
                fv == atoms_view(facts@),
                ps == rv.premises,
                rule_wf(rv),
                nv == rv.var_names.len(),
                i < n,
                p@ == ps[i as int],
                f@ == fv[i as int],
                k == p@.1.len() == f@.1.len(),
                p@.0 == f@.0,
                j <= k,
                table@.len() == nv,
                table_map(table@).dom() == vars_before(ps, i as int, j as int),
                forall|i2: int| 0 <= i2 < i ==> atom_matches(#[trigger] ps[i2], fv[i2], table_map(table@)),
                forall|j2: int|
                    0 <= j2 < j ==> term_matches(#[trigger] p@.1[j2], f@.1[j2], table_map(table@)),
                forall|m: Subst| #[trigger] fires(rv, fv, m) ==> extends(m, table_map(table@)),
            decreases k - j,
        {
            let ghost old_map = table_map(table@);
            match p.arguments[j] {
                InnerTerm::Const(c) => {
                    if f.arguments[j] != InnerTerm::Const(c) {
                        assert forall|m: Subst| !#[trigger] fires(rv, fv, m) by {
                            if fires(rv, fv, m) {
                                assert(atom_matches(ps[i as int], fv[i as int], m));
                                assert(term_matches(ps[i as int].1[j as int], fv[i as int].1[j as int], m));
                            }
                        }
                        return Err(AssignFailure::PremiseMismatch);
                    }
                    assert(vars_before(ps, i as int, j + 1) =~= vars_before(ps, i as int, j as int));
                },
                InnerTerm::Var(v) => {
                    assert(rv.premises[i as int].1[j as int] == InnerTerm::Var(v));
                    assert(v < nv);
                    match table[v] {
                        Some(x) => {
                            if f.arguments[j] != InnerTerm::Const(x) {
                                assert forall|m: Subst| !#[trigger] fires(rv, fv, m) by {
                                    if fires(rv, fv, m) {
                                        assert(extends(m, old_map));
                                        assert(old_map.contains_key(v));
                                        assert(atom_matches(ps[i as int], fv[i as int], m));
                                        assert(term_matches(ps[i as int].1[j as int], fv[i as int].1[j as int], m));
                                    }
                                }
                                return Err(AssignFailure::PremiseMismatch);
                            }
                            assert(old_map.contains_key(v));
                            assert(vars_before(ps, i as int, j + 1) =~= vars_before(ps, i as int, j as int)) by {
                                assert(vars_before(ps, i as int, j as int).contains(v));
                            }
                        },
                        None => {
                            match f.arguments[j] {
                                InnerTerm::Const(y) => {
                                    table.set(v, Some(y));
                                    let ghost new_map = table_map(table@);
                                    assert(new_map =~= old_map.insert(v, y));
                                    assert(vars_before(ps, i as int, j + 1) =~= vars_before(ps, i as int, j as int).insert(v));
                                    assert forall|m: Subst| #[trigger] fires(rv, fv, m) implies extends(m, new_map) by {
                                        assert(extends(m, old_map));
                                        assert(atom_matches(ps[i as int], fv[i as int], m));
                                        assert(term_matches(ps[i as int].1[j as int], fv[i as int].1[j as int], m));
                                    }
                                    assert forall|i2: int| 0 <= i2 < i implies atom_matches(#[trigger] ps[i2], fv[i2], new_map) by {
                                        assert(atom_matches(ps[i2], fv[i2], old_map));
                                        assert forall|j2: int| 0 <= j2 < ps[i2].1.len() implies term_matches(#[trigger] ps[i2].1[j2], fv[i2].1[j2], new_map) by {
                                            assert(term_matches(ps[i2].1[j2], fv[i2].1[j2], old_map));
                                        }
                                    }
                                    assert forall|j2: int| 0 <= j2 < j + 1 implies term_matches(#[trigger] p@.1[j2], f@.1[j2], new_map) by {
                                        if j2 < j {
                                            assert(term_matches(p@.1[j2], f@.1[j2], old_map));
                                        }
                                    }
                                },
                                InnerTerm::Var(_) => {
                                    assert forall|m: Subst| !#[trigger] fires(rv, fv, m) by {
                                        if fires(rv, fv, m) {
                                            assert(atom_matches(ps[i as int], fv[i as int], m));
                                            assert(term_matches(ps[i as int].1[j as int], fv[i as int].1[j as int], m));
                                        }
                                    }
                                    return Err(AssignFailure::PremiseMismatch);
                                },
                            }
                        },
                    }
                },
            }
            j = j + 1;
        }
        assert(vars_before(ps, i + 1, 0) =~= vars_before(ps, i as int, k as int));
        assert(atom_matches(ps[i as int], fv[i as int], table_map(table@)));
        i = i + 1;
    }
    let ghost tm = table_map(table@);
    assert(premise_vars(ps) =~= vars_before(ps, n as int, 0));
    assert(fires(rv, fv, tm));
    // Instantiate the conclusion under the final table.
    let concl = &rule.conclusion;
    let ghost inst = instantiate(rv.conclusion, tm);
    let mut args: Vec<InnerTerm> = Vec::new();
    let mut j: usize = 0;
    while j < concl.arguments.len()
        invariant
            concl@ == rv.conclusion,
            rv == rule@,
            fv == atoms_view(facts@),
            inst == instantiate(rv.conclusion, tm),
            tm == table_map(table@),
            fires(rv, fv, tm),
            j <= concl.arguments.len(),
            args@.len() == j,
            forall|j2: int| 0 <= j2 < j ==> args@[j2] == inst.1[j2],
            forall|j2: int| 0 <= j2 < j ==> (#[trigger] args@[j2] is Const),
        decreases concl.arguments.len() - j,
    {
        match concl.arguments[j] {
            InnerTerm::Const(c) => {
                args.push(InnerTerm::Const(c));
            },
            InnerTerm::Var(v) => {
                if v < table.len() && table[v].is_some() {
                    let x = table[v].unwrap();
                    args.push(InnerTerm::Const(x));
                } else {
                    assert(!tm.contains_key(v));
                    assert(inst.1[j as int] == InnerTerm::Var(v));
                    assert(!is_ground(inst));
                    return Err(AssignFailure::UnboundConclusion);
                }
            },
        }
        j = j + 1;
    }
    let c = InnerAtom { predicate: concl.predicate, arguments: args };
    assert(c@ =~= inst);
    assert(is_ground(c@));
    Ok(c)
}

} // verus!

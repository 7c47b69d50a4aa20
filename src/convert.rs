use vstd::prelude::*;
use crate::ast::{rule_view, Atom, AtomV, InnerAtom, InnerAtomV, InnerRule, InnerRuleV, InnerTerm, Rule, Term, is_ground};
use crate::engine::{ids_below, surface_atom, surface_fact, surface_term, Sniffer};
use crate::identifiers::IdentifierServer;

verus! {

/// Every identifier of `a` is below `n` and every variable below `nv`.
pub open spec fn atom_named(a: InnerAtomV, n: nat, nv: nat) -> bool {
    &&& a.0 < n
    &&& forall|j: int| 0 <= j < a.1.len() ==> match #[trigger] a.1[j] {
        InnerTerm::Const(k) => k < n,
        InnerTerm::Var(v) => v < nv,
    }
}

/// Every atom of `r` is named below `n` and within its variables.
pub open spec fn rule_named(r: InnerRuleV, n: nat) -> bool {
    &&& forall|i: int| 0 <= i < r.premises.len() ==> atom_named(#[trigger] r.premises[i], n, r.var_names.len())
    &&& atom_named(r.conclusion, n, r.var_names.len())
}

/// The surface form of a rule.
pub open spec fn surface_rule(names: Seq<Seq<char>>, r: InnerRuleV) -> (Seq<AtomV>, AtomV) {
    (
        r.premises.map_values(|a: InnerAtomV| surface_atom(names, r.var_names, a)),
        surface_atom(names, r.var_names, r.conclusion),
    )
}

/// `r` has the surface form of one of the first `upto` records that have
/// premises.
pub open spec fn rule_recorded(records: Seq<Rule>, upto: int, names: Seq<Seq<char>>, r: InnerRuleV) -> bool {
    exists|k: int|
        0 <= k < upto && (#[trigger] records[k]).premises@.len() > 0 && surface_rule(names, r) == rule_view(records[k])
}

/// Fact `i` of `s` has the surface form of the conclusion of one of the
/// first `upto` records without premises.
pub open spec fn seed_recorded(records: Seq<Rule>, upto: int, s: Sniffer, i: int) -> bool {
    exists|k: int|
        0 <= k < upto && (#[trigger] records[k]).premises@.len() == 0 && s.names_fact(i, records[k].conclusion@)
}

/// Some argument of `a` is a variable.
pub open spec fn has_variable(a: AtomV) -> bool {
    exists|j: int| 0 <= j < a.1.len() && #[trigger] a.1[j] is Variable
}

/// Surface forms stay as they were when names and variables are only added.
pub proof fn lemma_surface_extend(
    n1: Seq<Seq<char>>,
    v1: Seq<Seq<char>>,
    n2: Seq<Seq<char>>,
    v2: Seq<Seq<char>>,
    a: InnerAtomV,
)
    requires
        n1.len() <= n2.len(),
        n2.subrange(0, n1.len() as int) == n1,
        v1.len() <= v2.len(),
        v2.subrange(0, v1.len() as int) == v1,
        atom_named(a, n1.len(), v1.len()),
    ensures
        surface_atom(n2, v2, a) == surface_atom(n1, v1, a),
{
    assert(n2[a.0 as int] == n2.subrange(0, n1.len() as int)[a.0 as int]);
    assert forall|j: int| 0 <= j < a.1.len() implies surface_term(n2, v2, a.1[j]) == surface_term(n1, v1, a.1[j]) by {
        match a.1[j] {
            InnerTerm::Const(k) => {
                assert(k < n1.len());
                assert(n2[k as int] == n2.subrange(0, n1.len() as int)[k as int]);
            },
            InnerTerm::Var(v) => {
                assert(v < v1.len());
                assert(v2[v as int] == v2.subrange(0, v1.len() as int)[v as int]);
            },
        }
    }
    assert(surface_atom(n2, v2, a).1 =~= surface_atom(n1, v1, a).1);
}

/// The position of `name` in `vars`, added at the end if it is new.
pub(crate) fn var_index(vars: &mut Vec<String>, name: &String) -> (r: usize)
    ensures
        final(vars)@.len() >= old(vars)@.len(),
        final(vars)@.subrange(0, old(vars)@.len() as int) == old(vars)@,
        r < final(vars)@.len(),
        final(vars)@[r as int]@ == name@,
{
    let mut k: usize = 0;
    while k < vars.len()
        invariant
            k <= vars@.len(),
        decreases vars@.len() - k,
    {
        if vars[k] == *name {
            assert(vars@.subrange(0, vars@.len() as int) =~= vars@);
            return k;
        }
        k = k + 1;
    }
    let k = vars.len();
    vars.push(name.clone());
    assert(vars@.subrange(0, old(vars)@.len() as int) =~= old(vars)@);
    k
}

/// The views of a sequence of names.
pub open spec fn names_view(v: Seq<String>) -> Seq<Seq<char>> {
    v.map_values(|s: String| s@)
}

/// The internal form of `a`: its names interned in `ids`, its variables
/// numbered by their position in `vars`, where new ones are added.
pub(crate) fn intern_atom(ids: &mut IdentifierServer, a: &Atom, vars: &mut Vec<String>) -> (r: InnerAtom)
    requires
        old(ids).wf(),
    ensures
        final(ids).wf(),
        final(ids).names().len() >= old(ids).names().len(),
        final(ids).names().subrange(0, old(ids).names().len() as int) == old(ids).names(),
        final(vars)@.len() >= old(vars)@.len(),
        final(vars)@.subrange(0, old(vars)@.len() as int) == old(vars)@,
        atom_named(r@, final(ids).names().len(), final(vars)@.len()),
        surface_atom(final(ids).names(), names_view(final(vars)@), r@) == a@,
{
    let ghost n0 = ids.names();
    let ghost vs0 = vars@;
    let predicate = ids.intern(&a.predicate);
    assert(ids.names().subrange(0, n0.len() as int) =~= n0);
    let mut arguments: Vec<InnerTerm> = Vec::new();
    let mut j: usize = 0;
    while j < a.arguments.len()
        invariant
            ids.wf(),
            ids.names().len() >= n0.len(),
            ids.names().subrange(0, n0.len() as int) == n0,
            vars@.len() >= vs0.len(),
            vars@.subrange(0, vs0.len() as int) == vs0,
            predicate < ids.names().len(),
            ids.names()[predicate as int] == a.predicate@,
            j <= a.arguments@.len(),
            arguments@.len() == j,
            forall|k: int| 0 <= k < j ==> match #[trigger] arguments@[k] {
                InnerTerm::Const(x) => x < ids.names().len(),
                InnerTerm::Var(v) => v < vars@.len(),
            },
            forall|k: int| 0 <= k < j ==> surface_term(ids.names(), names_view(vars@), #[trigger] arguments@[k]) == a.arguments@[k]@,
        decreases a.arguments@.len() - j,
    {
        let ghost n1 = ids.names();
        let ghost v1 = vars@;
        let t = match &a.arguments[j] {
            Term::Constant(name) => InnerTerm::Const(ids.intern(name)),
            Term::Variable(name) => InnerTerm::Var(var_index(vars, name)),
        };
        proof {
            assert(ids.names().subrange(0, n1.len() as int) =~= n1);
            assert(ids.names().subrange(0, n0.len() as int) =~= n0) by {
                assert(ids.names().subrange(0, n0.len() as int) =~= ids.names().subrange(0, n1.len() as int).subrange(0, n0.len() as int));
            }
            assert(vars@.subrange(0, vs0.len() as int) =~= vs0) by {
                assert(vars@.subrange(0, vs0.len() as int) =~= vars@.subrange(0, v1.len() as int).subrange(0, vs0.len() as int));
            }
            assert(ids.names()[predicate as int] == ids.names().subrange(0, n1.len() as int)[predicate as int]);
            assert forall|k: int| 0 <= k < j implies surface_term(ids.names(), names_view(vars@), #[trigger] arguments@[k]) == a.arguments@[k]@ by {
                match arguments@[k] {
                    InnerTerm::Const(x) => {
                        assert(ids.names()[x as int] == ids.names().subrange(0, n1.len() as int)[x as int]);
                    },
                    InnerTerm::Var(v) => {
                        assert(vars@[v as int] == vars@.subrange(0, v1.len() as int)[v as int]);
                    },
                }
            }
        }
        arguments.push(t);
        j = j + 1;
    }
    let r = InnerAtom { predicate, arguments };
    assert(surface_atom(ids.names(), names_view(vars@), r@).1 =~= a@.1);
    r
}

/// Surface forms of a rule stay as they were when names are only added.
pub proof fn lemma_surface_rule_extend(n1: Seq<Seq<char>>, n2: Seq<Seq<char>>, r: InnerRuleV)
    requires
        n1.len() <= n2.len(),
        n2.subrange(0, n1.len() as int) == n1,
        rule_named(r, n1.len()),
    ensures
        surface_rule(n2, r) == surface_rule(n1, r),
        rule_named(r, n2.len()),
{
    let vs = r.var_names;
    assert(vs.subrange(0, vs.len() as int) =~= vs);
    assert forall|i: int| 0 <= i < r.premises.len() implies surface_atom(n2, vs, r.premises[i]) == surface_atom(n1, vs, r.premises[i]) by {
        assert(atom_named(r.premises[i], n1.len(), vs.len()));
        lemma_surface_extend(n1, vs, n2, vs, r.premises[i]);
    }
    lemma_surface_extend(n1, vs, n2, vs, r.conclusion);
    assert(surface_rule(n2, r).0 =~= surface_rule(n1, r).0);
    assert forall|i: int| 0 <= i < r.premises.len() implies atom_named(#[trigger] r.premises[i], n2.len(), vs.len()) by {
        assert(atom_named(r.premises[i], n1.len(), vs.len()));
    }
}

/// The internal form of a rule, its names interned in `ids` and its
/// variables numbered in order of first occurrence.
pub(crate) fn intern_rule(ids: &mut IdentifierServer, r: &Rule) -> (ir: InnerRule)
    requires
        old(ids).wf(),
    ensures
        final(ids).wf(),
        final(ids).names().len() >= old(ids).names().len(),
        final(ids).names().subrange(0, old(ids).names().len() as int) == old(ids).names(),
        rule_named(ir@, final(ids).names().len()),
        surface_rule(final(ids).names(), ir@) == rule_view(*r),
{
    let ghost n0 = ids.names();
    let mut vars: Vec<String> = Vec::new();
    let mut premises: Vec<InnerAtom> = Vec::new();
    let mut i: usize = 0;
    while i < r.premises.len()
        invariant
            ids.wf(),
            ids.names().len() >= n0.len(),
            ids.names().subrange(0, n0.len() as int) == n0,
            i <= r.premises@.len(),
            premises@.len() == i,
            forall|k: int| 0 <= k < i ==> atom_named(#[trigger] premises@[k]@, ids.names().len(), vars@.len()),
            forall|k: int| 0 <= k < i ==> surface_atom(ids.names(), names_view(vars@), #[trigger] premises@[k]@) == r.premises@[k]@,
        decreases r.premises@.len() - i,
    {
        let ghost n1 = ids.names();
        let ghost v1 = vars@;
        let a = intern_atom(ids, &r.premises[i], &mut vars);
        proof {
            assert(ids.names().subrange(0, n0.len() as int) =~= ids.names().subrange(0, n1.len() as int).subrange(0, n0.len() as int));
            assert(names_view(vars@).subrange(0, v1.len() as int) =~= names_view(v1));
            assert forall|k: int| 0 <= k < i implies surface_atom(ids.names(), names_view(vars@), #[trigger] premises@[k]@) == r.premises@[k]@ by {
                lemma_surface_extend(n1, names_view(v1), ids.names(), names_view(vars@), premises@[k]@);
            }
            assert forall|k: int| 0 <= k < i implies atom_named(#[trigger] premises@[k]@, ids.names().len(), vars@.len()) by {
                assert(atom_named(premises@[k]@, n1.len(), v1.len()));
            }
        }
        premises.push(a);
        i = i + 1;
    }
    let ghost n1 = ids.names();
    let ghost v1 = vars@;
    let conclusion = intern_atom(ids, &r.conclusion, &mut vars);
    proof {
        assert(ids.names().subrange(0, n0.len() as int) =~= ids.names().subrange(0, n1.len() as int).subrange(0, n0.len() as int));
        assert(names_view(vars@).subrange(0, v1.len() as int) =~= names_view(v1));
        assert forall|k: int| 0 <= k < i implies surface_atom(ids.names(), names_view(vars@), #[trigger] premises@[k]@) == r.premises@[k]@ by {
            lemma_surface_extend(n1, names_view(v1), ids.names(), names_view(vars@), premises@[k]@);
        }
        assert forall|k: int| 0 <= k < i implies atom_named(#[trigger] premises@[k]@, ids.names().len(), vars@.len()) by {
            assert(atom_named(premises@[k]@, n1.len(), v1.len()));
        }
    }
    let ir = InnerRule { premises, conclusion, var_names: vars };
    proof {
        assert(ir@.var_names == names_view(vars@));
        assert(surface_rule(ids.names(), ir@).0 =~= rule_view(*r).0);
        assert forall|k: int| 0 <= k < ir@.premises.len() implies atom_named(#[trigger] ir@.premises[k], ids.names().len(), ir@.var_names.len()) by {
            assert(ir@.premises[k] == premises@[k]@);
        }
    }
    ir
}

/// A ground atom has the surface form of a fact, whatever the variable
/// names; an atom with a variable shows a variable.
pub proof fn lemma_ground_surface(names: Seq<Seq<char>>, vs: Seq<Seq<char>>, a: InnerAtomV)
    ensures
        is_ground(a) ==> surface_atom(names, vs, a) == surface_fact(names, a),
        !is_ground(a) ==> has_variable(surface_atom(names, vs, a)),
{
    if is_ground(a) {
        assert forall|j: int| 0 <= j < a.1.len() implies surface_term(names, vs, a.1[j]) == surface_term(names, Seq::empty(), a.1[j]) by {
            assert(a.1[j] is Const);
        }
        assert(surface_atom(names, vs, a).1 =~= surface_fact(names, a).1);
    } else {
        let j = choose|j: int| 0 <= j < a.1.len() && !(#[trigger] a.1[j] is Const);
        assert(surface_atom(names, vs, a).1[j] is Variable);
    }
}

/// Naming below `n` bounds the identifiers below `n`.
pub proof fn lemma_named_ids(a: InnerAtomV, n: nat, nv: nat)
    requires
        atom_named(a, n, nv),
    ensures
        ids_below(a, n),
{
    assert forall|j: int| 0 <= j < a.1.len() implies match #[trigger] a.1[j] {
        InnerTerm::Const(k) => k < n,
        InnerTerm::Var(_) => true,
    } by {
        assert(atom_named(a, n, nv));
    }
}

} // verus!

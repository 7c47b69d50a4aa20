use vstd::prelude::*;
use itertools::Itertools;
use crate::ast::{
    atoms_view, duplicate_atoms, is_ground, rule_wf, InnerAtom, InnerAtomV, InnerRule, InnerRuleV,
    InnerTerm,
};
use crate::ast::{rule_view, Atom, AtomV, Rule, Term, TermV};
use crate::derivation_tree::{forest_view, DerivationTree, TreeV};
use crate::convert::{
    atom_named, has_variable, intern_rule, lemma_ground_surface, lemma_named_ids,
    lemma_surface_rule_extend, rule_named, rule_recorded, seed_recorded, surface_rule,
};
use crate::identifiers::IdentifierServer;
use crate::render::{atom_text, push_atom, push_rule, rule_text};
use vstd::string::*;
use crate::unify::{
    assign, derives, fires, instantiate, lemma_fires_unique, premise_vars, atom_matches,
    subst_term, term_matches, AssignFailure, Subst,
};

verus! {

/// Every identifier in `a` is below `n`.
pub open spec fn ids_below(a: InnerAtomV, n: nat) -> bool {
    &&& a.0 < n
    &&& forall|j: int| 0 <= j < a.1.len() ==> match #[trigger] a.1[j] {
        InnerTerm::Const(k) => k < n,
        InnerTerm::Var(_) => true,
    }
}

/// A rule that can stand in the rule set: it has premises, its variables are
/// numbered within it, and its identifiers are below `n`.
pub open spec fn rule_ok(r: InnerRuleV, n: nat) -> bool {
    &&& r.premises.len() > 0
    &&& rule_wf(r)
    &&& forall|i: int| 0 <= i < r.premises.len() ==> ids_below(#[trigger] r.premises[i], n)
    &&& ids_below(r.conclusion, n)
}

/// `a` is one of the first `i` facts.
pub open spec fn earlier(facts: Seq<InnerAtomV>, i: int, a: InnerAtomV) -> bool {
    exists|l: int| 0 <= l < i && facts[l] == a
}

/// Entry `i` of the justification map is sound: its premises are facts
/// inserted before fact `i`, and, unless fact `i` is a seed fact, some rule
/// yields fact `i` from them.
pub open spec fn justified(
    facts: Seq<InnerAtomV>,
    justs: Seq<Seq<InnerAtomV>>,
    rules: Seq<InnerRuleV>,
    i: int,
) -> bool {
    &&& forall|k: int| 0 <= k < justs[i].len() ==> #[trigger] earlier(facts, i, justs[i][k])
    &&& justs[i].len() > 0 ==> exists|ri: int|
        0 <= ri < rules.len() && #[trigger] derives(rules[ri], justs[i], facts[i])
}

/// `c` lists `k` positions below `n`, in increasing order.
pub open spec fn is_combination(c: Seq<usize>, n: nat, k: nat) -> bool {
    &&& c.len() == k
    &&& forall|a: int| 0 <= a < c.len() ==> #[trigger] c[a] < n
    &&& forall|a: int, b: int| 0 <= a < b < c.len() ==> c[a] < c[b]
}

/// The facts at the positions `idx`, in that order.
pub open spec fn comb_facts(facts: Seq<InnerAtomV>, idx: Seq<usize>) -> Seq<InnerAtomV> {
    idx.map_values(|x: usize| facts[x as int])
}

/// One round derives `c` from `facts`: some rule, applied to some
/// combination of facts as many as its premises, yields `c`.
pub open spec fn consequence(facts: Seq<InnerAtomV>, rules: Seq<InnerRuleV>, c: InnerAtomV) -> bool {
    exists|ri: int, idx: Seq<usize>|
        0 <= ri < rules.len() && is_combination(idx, facts.len(), rules[ri].premises.len())
            && #[trigger] derives(rules[ri], comb_facts(facts, idx), c)
}

/// No round can add a fact: every consequence is already known.
pub open spec fn saturated(facts: Seq<InnerAtomV>, rules: Seq<InnerRuleV>) -> bool {
    forall|c: InnerAtomV| #[trigger] consequence(facts, rules, c) ==> facts.contains(c)
}

/// `c` was produced in a round over `facts` from the premises `p`.
pub open spec fn candidate(facts: Seq<InnerAtomV>, rules: Seq<InnerRuleV>, c: InnerAtomV, p: Seq<InnerAtomV>) -> bool {
    exists|ri: int, idx: Seq<usize>|
        0 <= ri < rules.len() && is_combination(idx, facts.len(), rules[ri].premises.len())
            && p == comb_facts(facts, idx) && #[trigger] derives(rules[ri], comb_facts(facts, idx), c)
}

/// Some atom of `d` is `c`.
pub open spec fn concludes(d: Seq<InnerAtom>, c: InnerAtomV) -> bool {
    exists|t: int| 0 <= t < d.len() && (#[trigger] d[t])@ == c
}

/// Pushing onto a list of conclusions keeps the old ones and adds the new.
proof fn lemma_concludes_push(d: Seq<InnerAtom>, x: InnerAtom)
    ensures
        concludes(d.push(x), x@),
        forall|c: InnerAtomV| concludes(d, c) ==> #[trigger] concludes(d.push(x), c),
{
    assert(d.push(x)[d.len() as int] == x);
    assert forall|c: InnerAtomV| concludes(d, c) implies #[trigger] concludes(d.push(x), c) by {
        let t = choose|t: int| 0 <= t < d.len() && (#[trigger] d[t])@ == c;
        assert(d.push(x)[t] == d[t]);
    }
}

/// Relies on itertools::Itertools::combinations over the positions `0..n`:
/// it yields each increasing choice of `k` positions.
#[verifier::external_body]
fn index_combinations(n: usize, k: usize) -> (r: Vec<Vec<usize>>)
    ensures
        forall|i: int| 0 <= i < r@.len() ==> is_combination(#[trigger] r@[i]@, n as nat, k as nat),
        forall|c: Seq<usize>|
            #[trigger] is_combination(c, n as nat, k as nat) ==> exists|i: int|
                0 <= i < r@.len() && r@[i]@ == c,
{
    (0..n).combinations(k).collect()
}

/// A rule yields at most one atom from given facts.
pub proof fn lemma_derives_unique(r: InnerRuleV, facts: Seq<InnerAtomV>, c1: InnerAtomV, c2: InnerAtomV)
    requires
        derives(r, facts, c1),
        derives(r, facts, c2),
    ensures
        c1 == c2,
{
    let m1 = choose|m: Subst| #[trigger] fires(r, facts, m) && instantiate(r.conclusion, m) == c1 && is_ground(c1);
    let m2 = choose|m: Subst| #[trigger] fires(r, facts, m) && instantiate(r.conclusion, m) == c2 && is_ground(c2);
    lemma_fires_unique(r, facts, m1, m2);
}

/// What a rule yields is named by the identifiers of its conclusion and of
/// the facts it was applied to.
pub proof fn lemma_derives_ids(r: InnerRuleV, facts: Seq<InnerAtomV>, c: InnerAtomV, n: nat)
    requires
        derives(r, facts, c),
        ids_below(r.conclusion, n),
        forall|i: int| 0 <= i < facts.len() ==> ids_below(#[trigger] facts[i], n),
    ensures
        ids_below(c, n),
{
    let m = choose|m: Subst| #[trigger] fires(r, facts, m) && instantiate(r.conclusion, m) == c && is_ground(c);
    assert forall|j: int| 0 <= j < c.1.len() implies match #[trigger] c.1[j] {
        InnerTerm::Const(k) => k < n,
        InnerTerm::Var(_) => true,
    } by {
        assert(c.1[j] == subst_term(r.conclusion.1[j], m));
        match r.conclusion.1[j] {
            InnerTerm::Var(v) => {
                if m.contains_key(v) {
                    assert(premise_vars(r.premises).contains(v));
                    let (i, j2) = choose|i: int, j2: int|
                        0 <= i < r.premises.len() && 0 <= j2 < r.premises[i].1.len()
                            && #[trigger] r.premises[i].1[j2] == InnerTerm::Var(v);
                    assert(atom_matches(r.premises[i], facts[i], m));
                    assert(term_matches(r.premises[i].1[j2], facts[i].1[j2], m));
                    assert(ids_below(facts[i], n));
                }
            },
            InnerTerm::Const(_) => {},
        }
    }
}

/// The surface form of `t`: constants by their names, variables by the
/// names in `vars`.
pub open spec fn surface_term(names: Seq<Seq<char>>, vars: Seq<Seq<char>>, t: InnerTerm) -> TermV {
    match t {
        InnerTerm::Const(k) => TermV::Constant(names[k as int]),
        InnerTerm::Var(v) => TermV::Variable(
            if v < vars.len() {
                vars[v as int]
            } else {
                Seq::empty()
            },
        ),
    }
}

/// The surface form of `a`.
pub open spec fn surface_atom(names: Seq<Seq<char>>, vars: Seq<Seq<char>>, a: InnerAtomV) -> AtomV {
    (names[a.0 as int], a.1.map_values(|t: InnerTerm| surface_term(names, vars, t)))
}

/// The surface form of a ground atom.
pub open spec fn surface_fact(names: Seq<Seq<char>>, a: InnerAtomV) -> AtomV {
    surface_atom(names, Seq::empty(), a)
}

/// The position of `a` among the first `i` facts.
pub open spec fn fact_index(facts: Seq<InnerAtomV>, i: int, a: InnerAtomV) -> int {
    choose|l: int| 0 <= l < i && facts[l] == a
}

/// The derivation tree of fact `i`: its surface form, above the trees of
/// the premises that justified it.
pub open spec fn tree_at(
    facts: Seq<InnerAtomV>,
    justs: Seq<Seq<InnerAtomV>>,
    names: Seq<Seq<char>>,
    i: nat,
) -> TreeV
    decreases i, 1nat, 0nat,
{
    TreeV::Node(surface_fact(names, facts[i as int]), subtrees(facts, justs, names, i, justs[i as int].len()))
}

/// The trees of the first `n` premises of fact `i`.
pub open spec fn subtrees(
    facts: Seq<InnerAtomV>,
    justs: Seq<Seq<InnerAtomV>>,
    names: Seq<Seq<char>>,
    i: nat,
    n: nat,
) -> Seq<TreeV>
    decreases i, 0nat, n,
{
    if n == 0 {
        Seq::empty()
    } else {
        let a = justs[i as int][n - 1];
        let l = fact_index(facts, i as int, a);
        subtrees(facts, justs, names, i, (n - 1) as nat).push(
            if 0 <= l < i {
                tree_at(facts, justs, names, l as nat)
            } else {
                TreeV::Node(surface_fact(names, a), Seq::empty())
            },
        )
    }
}

/// Distinct named ground atoms have distinct surface forms.
pub proof fn lemma_surface_injective(names: Seq<Seq<char>>, f: InnerAtomV, g: InnerAtomV)
    requires
        names.no_duplicates(),
        is_ground(f),
        is_ground(g),
        ids_below(f, names.len()),
        ids_below(g, names.len()),
        surface_fact(names, f) == surface_fact(names, g),
    ensures
        f == g,
{
    assert(names[f.0 as int] == names[g.0 as int]);
    assert(f.1.len() == surface_fact(names, f).1.len());
    assert(g.1.len() == surface_fact(names, g).1.len());
    assert forall|j: int| 0 <= j < f.1.len() implies f.1[j] == g.1[j] by {
        assert(surface_fact(names, f).1[j] == surface_fact(names, g).1[j]);
        assert(surface_fact(names, f).1[j] == surface_term(names, Seq::empty(), f.1[j]));
        assert(surface_fact(names, g).1[j] == surface_term(names, Seq::empty(), g.1[j]));
        assert(f.1[j] is Const);
        assert(g.1[j] is Const);
        let k1 = f.1[j]->Const_0;
        let k2 = g.1[j]->Const_0;
        assert(k1 < names.len());
        assert(k2 < names.len());
        assert(surface_term(names, Seq::empty(), f.1[j]) == TermV::Constant(names[k1 as int]));
        assert(surface_term(names, Seq::empty(), g.1[j]) == TermV::Constant(names[k2 as int]));
        assert(names[k1 as int] == names[k2 as int]);
    }
    assert(f.1 =~= g.1);
}

/// A round over facts that are already saturated adds nothing.
proof fn lemma_round_on_saturated(f0: Seq<InnerAtomV>, f1: Seq<InnerAtomV>, rules: Seq<InnerRuleV>)
    requires
        saturated(f0, rules),
        f1.no_duplicates(),
        f1.len() >= f0.len(),
        f1.subrange(0, f0.len() as int) == f0,
        forall|a: InnerAtomV| #[trigger] f1.contains(a) <==> (f0.contains(a) || consequence(f0, rules, a)),
    ensures
        f1 == f0,
{
    if f1.len() > f0.len() {
        let x = f1[f0.len() as int];
        assert(f1.contains(x));
        if consequence(f0, rules, x) {
            assert(f0.contains(x));
        }
        let l = choose|l: int| 0 <= l < f0.len() && f0[l] == x;
        assert(f1.subrange(0, f0.len() as int)[l] == f1[l]);
    }
    assert(f1 =~= f0);
}

/// `fact` may enter the fact set of `s` justified by `p`: it is ground and
/// named, every premise is a fact, and unless `p` is empty (a seed fact)
/// some rule yields `fact` from `p`.
pub open spec fn admissible(s: Sniffer, fact: InnerAtomV, p: Seq<InnerAtomV>) -> bool {
    &&& is_ground(fact)
    &&& ids_below(fact, s.names().len())
    &&& forall|k: int| 0 <= k < p.len() ==> s.facts().contains(#[trigger] p[k])
    &&& p.len() > 0 ==> exists|ri: int| 0 <= ri < s.rules().len() && #[trigger] derives(s.rules()[ri], p, fact)
}

/// The derivation trees of a result, as mathematical values.
pub open spec fn tree_result(r: Result<DerivationTree, SaturationFailure>) -> Result<TreeV, SaturationFailure> {
    match r {
        Ok(t) => Ok(t.tree_view()),
        Err(e) => Err(e),
    }
}

/// What a query for `a` does, taking engine `s0` to `s1` with result `r`:
/// the rules and names stay, facts and justifications only grow, and a
/// state that already had the fact or was saturated is left as it was. On
/// success the result is the derivation tree of the fact named `a`; otherwise
/// it is `Saturated`, no fact is named `a`, and no round can add a fact.
pub open spec fn query_outcome(s0: Sniffer, s1: Sniffer, a: AtomV, r: Result<TreeV, SaturationFailure>) -> bool {
    &&& s1.wf()
    &&& s1.rules() == s0.rules()
    &&& s1.names() == s0.names()
    &&& s1.facts().len() >= s0.facts().len()
    &&& s1.facts().subrange(0, s0.facts().len() as int) == s0.facts()
    &&& s1.justs().subrange(0, s0.justs().len() as int) == s0.justs()
    &&& (s0.has_fact(a) || saturated(s0.facts(), s0.rules())) ==> s1.facts() == s0.facts() && s1.justs() == s0.justs()
    &&& match r {
        Ok(t) => exists|i: int| #[trigger] s1.names_fact(i, a) && t == s1.tree_of(i),
        Err(e) => e == SaturationFailure::Saturated && !s1.has_fact(a) && saturated(s1.facts(), s1.rules()),
    }
}

/// Saturates a set of rules: derives new facts from the known ones until the
/// target is found or nothing new can be derived.
#[derive(Debug)]
pub struct Sniffer {
    rules: Vec<InnerRule>,
    axioms: Vec<InnerAtom>,
    derived_from: Vec<Vec<InnerAtom>>,
    id_server: IdentifierServer,
}

/// Why an engine could not be built from a rule file.
#[derive(Clone, Copy, Debug, PartialEq, Eq, Structural)]
pub enum LoadError {
    /// The rule file could not be read or parsed.
    Unreadable,
    /// A record without premises has a variable in its conclusion.
    NonGroundAxiom,
}

/// Represents the result of a saturation attempt.
#[derive(Clone, Copy, Debug, PartialEq, Eq, Structural)]
pub enum SaturationFailure {
    /// The saturation attempt did not derive any new fact.
    Saturated,
    /// The saturation derived a contradiction. Reserved for rule sets with
    /// a designated contradiction predicate, which this engine does not
    /// have yet: no query returns it.
    DerivedBottom,
}

impl Sniffer {
    /// The facts, in the order in which they were inserted.
    pub closed spec fn facts(&self) -> Seq<InnerAtomV> {
        atoms_view(self.axioms@)
    }

    /// The justification of each fact, at the fact's position.
    pub closed spec fn justs(&self) -> Seq<Seq<InnerAtomV>> {
        self.derived_from@.map_values(|v: Vec<InnerAtom>| atoms_view(v@))
    }

    /// The generative rules.
    pub closed spec fn rules(&self) -> Seq<InnerRuleV> {
        self.rules@.map_values(|r: InnerRule| r@)
    }

    /// The interned names, indexed by identifier.
    pub closed spec fn names(&self) -> Seq<Seq<char>> {
        self.id_server.names()
    }

    /// The interner of this engine.
    pub closed spec fn interner(&self) -> IdentifierServer {
        self.id_server
    }

    /// The engine's invariant: facts are distinct, ground and named, every
    /// fact has exactly one justification, which is sound and refers only to
    /// earlier facts, and the rules are well formed.
    pub open spec fn wf(&self) -> bool {
        &&& self.interner().wf()
        &&& self.interner().names() == self.names()
        &&& self.facts().len() == self.justs().len()
        &&& self.facts().no_duplicates()
        &&& forall|i: int| 0 <= i < self.facts().len() ==> is_ground(#[trigger] self.facts()[i])
        &&& forall|i: int|
            0 <= i < self.facts().len() ==> ids_below(
                #[trigger] self.facts()[i],
                self.names().len(),
            )
        &&& forall|i: int|
            0 <= i < self.facts().len() ==> #[trigger] justified(
                self.facts(),
                self.justs(),
                self.rules(),
                i,
            )
        &&& forall|ri: int|
            0 <= ri < self.rules().len() ==> rule_ok(#[trigger] self.rules()[ri], self.names().len())
    }

    /// Fact `i` has the surface form `a`.
    pub open spec fn names_fact(&self, i: int, a: AtomV) -> bool {
        0 <= i < self.facts().len() && surface_fact(self.names(), self.facts()[i]) == a
    }

    /// Some fact has the surface form `a`.
    pub open spec fn has_fact(&self, a: AtomV) -> bool {
        exists|i: int| #[trigger] self.names_fact(i, a)
    }

    /// The derivation tree of fact `i`.
    pub open spec fn tree_of(&self, i: int) -> TreeV {
        tree_at(self.facts(), self.justs(), self.names(), i as nat)
    }

    /// An engine with no rules and no facts.
    pub fn empty() -> (r: Sniffer)
        ensures
            r.wf(),
            r.facts().len() == 0,
            r.rules().len() == 0,
            r.names().len() == 0,
    {
        let r = Sniffer {
            rules: Vec::new(),
            axioms: Vec::new(),
            derived_from: Vec::new(),
            id_server: IdentifierServer::new(),
        };
        assert(r.facts() =~= Seq::<InnerAtomV>::empty());
        assert(r.justs() =~= Seq::<Seq<InnerAtomV>>::empty());
        assert(r.rules() =~= Seq::<InnerRuleV>::empty());
        r
    }

    /// The position of `a` among the facts.
    pub fn position(&self, a: &InnerAtom) -> (r: Option<usize>)
        ensures
            match r {
                Some(i) => i < self.facts().len() && self.facts()[i as int] == a@,
                None => !self.facts().contains(a@),
            },
    {
        let mut i: usize = 0;
        while i < self.axioms.len()
            invariant
                i <= self.axioms@.len(),
                forall|k: int| 0 <= k < i ==> self.facts()[k] != a@,
            decreases self.axioms@.len() - i,
        {
            if self.axioms[i].same_as(a) {
                return Some(i);
            }
            i = i + 1;
        }
        None
    }

    /// Inserts a fact that is known to be sound, with its justification.
    fn push_fact(&mut self, fact: InnerAtom, premises: Vec<InnerAtom>)
        requires
            old(self).wf(),
            !old(self).facts().contains(fact@),
            is_ground(fact@),
            ids_below(fact@, old(self).names().len()),
            forall|k: int|
                0 <= k < premises@.len() ==> old(self).facts().contains(
                    #[trigger] atoms_view(premises@)[k],
                ),
            premises@.len() > 0 ==> exists|ri: int|
                0 <= ri < old(self).rules().len() && #[trigger] derives(
                    old(self).rules()[ri],
                    atoms_view(premises@),
                    fact@,
                ),
        ensures
            final(self).wf(),
            final(self).facts() == old(self).facts().push(fact@),
            final(self).justs() == old(self).justs().push(atoms_view(premises@)),
            final(self).rules() == old(self).rules(),
            final(self).names() == old(self).names(),
            final(self).interner() == old(self).interner(),
    {
        let ghost f0 = self.facts();
        let ghost j0 = self.justs();
        let ghost pv = atoms_view(premises@);
        self.axioms.push(fact);
        self.derived_from.push(premises);
        let ghost f1 = self.facts();
        let ghost j1 = self.justs();
        assert(f1 =~= f0.push(fact@));
        assert(j1 =~= j0.push(pv));
        assert(self.rules() == old(self).rules());
        let ghost n = f0.len() as int;
        let ghost rs = self.rules();
        assert forall|i: int| 0 <= i < f1.len() implies #[trigger] justified(f1, j1, rs, i) by {
            if i < n {
                assert(justified(f0, j0, rs, i));
                assert(j1[i] == j0[i]);
                assert(f1[i] == f0[i]);
                assert forall|k: int| 0 <= k < j1[i].len() implies #[trigger] earlier(f1, i, j1[i][k]) by {
                    assert(j1[i][k] == j0[i][k]);
                    assert(earlier(f0, i, j0[i][k]));
                    let l = choose|l: int| 0 <= l < i && f0[l] == j0[i][k];
                    assert(f1[l] == f0[l]);
                }
                if j1[i].len() > 0 {
                    let ri = choose|ri: int| 0 <= ri < rs.len() && #[trigger] derives(rs[ri], j0[i], f0[i]);
                    assert(derives(rs[ri], j1[i], f1[i]));
                }
            } else {
                assert(i == n);
                assert(j1[i] == pv);
                assert(f1[i] == fact@);
                assert forall|k: int| 0 <= k < j1[i].len() implies #[trigger] earlier(f1, i, j1[i][k]) by {
                    assert(j1[i][k] == pv[k]);
                    assert(f0.contains(pv[k]));
                    let l = choose|l: int| 0 <= l < f0.len() && f0[l] == pv[k];
                    assert(f1[l] == f0[l]);
                }
                if j1[i].len() > 0 {
                    assert(premises@.len() > 0);
                    assert(exists|ri: int| 0 <= ri < rs.len() && #[trigger] derives(rs[ri], pv, fact@));
                    let ri = choose|ri: int| 0 <= ri < rs.len() && #[trigger] derives(rs[ri], pv, fact@);
                    assert(derives(rs[ri], j1[i], f1[i]));
                }
            }
        }
        assert forall|a: int, b: int| 0 <= a < f1.len() && 0 <= b < f1.len() && a != b implies f1[a]
            != f1[b] by {
            if a < n && b < n {
            } else if a == n {
                assert(!f0.contains(f1[a]));
                assert(f0[b] == f1[b]);
            } else {
                assert(!f0.contains(f1[b]));
                assert(f0[a] == f1[a]);
            }
        }
        assert forall|i: int| 0 <= i < f1.len() implies is_ground(#[trigger] f1[i]) by {
            if i < n {
                assert(f1[i] == f0[i]);
            }
        }
        assert forall|i: int| 0 <= i < f1.len() implies ids_below(
            #[trigger] f1[i],
            self.names().len(),
        ) by {
            if i < n {
                assert(f1[i] == f0[i]);
            }
        }
    }
    /// Copies of the facts at the positions `idx`, in that order.
    fn pick(&self, idx: &Vec<usize>) -> (r: Vec<InnerAtom>)
        requires
            forall|a: int| 0 <= a < idx@.len() ==> #[trigger] idx@[a] < self.facts().len(),
        ensures
            atoms_view(r@) == comb_facts(self.facts(), idx@),
    {
        let mut r: Vec<InnerAtom> = Vec::new();
        let mut a: usize = 0;
        while a < idx.len()
            invariant
                a <= idx@.len(),
                forall|b: int| 0 <= b < idx@.len() ==> #[trigger] idx@[b] < self.facts().len(),
                r@.len() == a,
                forall|b: int| 0 <= b < a ==> (#[trigger] r@[b])@ == self.facts()[idx@[b] as int],
            decreases idx@.len() - a,
        {
            let x = idx[a];
            r.push(self.axioms[x].duplicate());
            a = a + 1;
        }
        assert(atoms_view(r@) =~= comb_facts(self.facts(), idx@));
        r
    }

    /// One round of saturation: applies every rule to every combination of
    /// the current facts as many as its premises, then inserts each new
    /// conclusion with the premises it came from; of two derivations of one
    /// conclusion the first is kept. Fails with `Saturated` when no fact is
    /// new.
    pub fn saturate(&mut self) -> (r: Result<(), SaturationFailure>)
        requires
            old(self).wf(),
        ensures
            final(self).wf(),
            final(self).rules() == old(self).rules(),
            final(self).names() == old(self).names(),
            final(self).facts().len() >= old(self).facts().len(),
            final(self).facts().subrange(0, old(self).facts().len() as int) == old(self).facts(),
            final(self).justs().subrange(0, old(self).justs().len() as int) == old(self).justs(),
            forall|a: InnerAtomV|
                #[trigger] final(self).facts().contains(a) <==> (old(self).facts().contains(a)
                    || consequence(old(self).facts(), old(self).rules(), a)),
            r is Ok <==> final(self).facts().len() > old(self).facts().len(),
            r is Err ==> r == Err::<(), SaturationFailure>(SaturationFailure::Saturated),
    {
        let ghost f0 = self.facts();
        let ghost j0 = self.justs();
        let ghost rs = self.rules();
        let n = self.axioms.len();
        let mut derived: Vec<InnerAtom> = Vec::new();
        let mut used: Vec<Vec<InnerAtom>> = Vec::new();
        let mut ri: usize = 0;
        while ri < self.rules.len()
            invariant
                self.wf(),
                self.facts() == f0,
                self.rules() == rs,
                n == f0.len(),
                ri <= rs.len(),
                derived@.len() == used@.len(),
                forall|t: int| 0 <= t < derived@.len() ==> candidate(f0, rs, (#[trigger] derived@[t])@, atoms_view(used@[t]@)),
                forall|ri2: int, idx: Seq<usize>, c: InnerAtomV|
                    0 <= ri2 < ri && is_combination(idx, n as nat, rs[ri2].premises.len()) && #[trigger] derives(rs[ri2], comb_facts(f0, idx), c)
                        ==> concludes(derived@, c),
            decreases rs.len() - ri,
        {
            let rule = &self.rules[ri];
            assert(rule@ == rs[ri as int]);
            assert(rule_ok(rs[ri as int], self.names().len()));
            let k = rule.premises.len();
            let combos = index_combinations(n, k);
            let mut ci: usize = 0;
            while ci < combos.len()
                invariant
                    self.wf(),
                    self.facts() == f0,
                    self.rules() == rs,
                    n == f0.len(),
                    ri < rs.len(),
                    rule@ == rs[ri as int],
                    rule_ok(rs[ri as int], self.names().len()),
                    k == rs[ri as int].premises.len(),
                    forall|i: int| 0 <= i < combos@.len() ==> is_combination(#[trigger] combos@[i]@, n as nat, k as nat),
                    ci <= combos@.len(),
                    derived@.len() == used@.len(),
                    forall|t: int| 0 <= t < derived@.len() ==> candidate(f0, rs, (#[trigger] derived@[t])@, atoms_view(used@[t]@)),
                    forall|ri2: int, idx: Seq<usize>, c: InnerAtomV|
                        0 <= ri2 < ri && is_combination(idx, n as nat, rs[ri2].premises.len()) && #[trigger] derives(rs[ri2], comb_facts(f0, idx), c)
                            ==> concludes(derived@, c),
                    forall|ci2: int, c: InnerAtomV|
                        0 <= ci2 < ci && #[trigger] derives(rs[ri as int], comb_facts(f0, combos@[ci2]@), c)
                            ==> concludes(derived@, c),
                decreases combos@.len() - ci,
            {
                let idx = &combos[ci];
                assert(is_combination(idx@, n as nat, k as nat));
                let input = self.pick(idx);
                let ghost iv = atoms_view(input@);
                match assign(rule, &input) {
                    Ok(c) => {
                        proof {
                            assert(candidate(f0, rs, c@, iv));
                            assert forall|c2: InnerAtomV| #[trigger] derives(rs[ri as int], iv, c2) implies c2 == c@ by {
                                lemma_derives_unique(rs[ri as int], iv, c2, c@);
                            }
                        }
                        let ghost d0 = derived@;
                        let ghost cv = c@;
                        proof {
                            lemma_concludes_push(d0, c);
                        }
                        derived.push(c);
                        used.push(input);
                        proof {
                            assert(concludes(derived@, cv));
                            assert forall|t: int| 0 <= t < derived@.len() implies candidate(f0, rs, (#[trigger] derived@[t])@, atoms_view(used@[t]@)) by {
                                if t < d0.len() {
                                    assert(derived@[t] == d0[t]);
                                }
                            }
                        }
                    },
                    Err(e) => {
                        proof {
                            assert forall|c2: InnerAtomV| !#[trigger] derives(rs[ri as int], iv, c2) by {
                                if derives(rs[ri as int], iv, c2) {
                                    let m = choose|m: Subst| #[trigger] fires(rs[ri as int], iv, m) && instantiate(rs[ri as int].conclusion, m) == c2 && is_ground(c2);
                                    if e == AssignFailure::UnboundConclusion {
                                        let m2 = choose|m2: Subst| #[trigger] fires(rs[ri as int], iv, m2) && !is_ground(instantiate(rs[ri as int].conclusion, m2));
                                        lemma_fires_unique(rs[ri as int], iv, m, m2);
                                    }
                                }
                            }
                        }
                    },
                }
                ci = ci + 1;
            }
            proof {
                assert forall|ri2: int, idx: Seq<usize>, c: InnerAtomV|
                    0 <= ri2 < ri + 1 && is_combination(idx, n as nat, rs[ri2].premises.len()) && #[trigger] derives(rs[ri2], comb_facts(f0, idx), c)
                        implies concludes(derived@, c) by {
                    if ri2 == ri {
                        assert(is_combination(idx, n as nat, k as nat));
                        let ci2 = choose|i: int| 0 <= i < combos@.len() && combos@[i]@ == idx;
                        assert(derives(rs[ri as int], comb_facts(f0, combos@[ci2]@), c));
                    }
                }
            }
            ri = ri + 1;
        }
        let mut modified = false;
        let mut t: usize = 0;
        while t < derived.len()
            invariant
                self.wf(),
                self.rules() == rs,
                self.names() == old(self).names(),
                n == f0.len(),
                self.facts().len() >= f0.len(),
                self.facts().subrange(0, f0.len() as int) == f0,
                self.justs().subrange(0, j0.len() as int) == j0,
                j0.len() == f0.len(),
                t <= derived@.len(),
                derived@.len() == used@.len(),
                forall|t2: int| 0 <= t2 < derived@.len() ==> candidate(f0, rs, (#[trigger] derived@[t2])@, atoms_view(used@[t2]@)),
                forall|a: InnerAtomV| #[trigger] self.facts().contains(a) <==> (f0.contains(a)
                    || exists|t2: int| 0 <= t2 < t && (#[trigger] derived@[t2])@ == a),
                modified == (self.facts().len() > f0.len()),
            decreases derived@.len() - t,
        {
            let c = derived[t].duplicate();
            let ghost f1 = self.facts();
            let ghost j1 = self.justs();
            let found = self.position(&c);
            if let Some(i) = found {
                assert(self.facts()[i as int] == derived@[t as int]@);
            } else {
                let p = duplicate_atoms(&used[t]);
                let ghost pv = atoms_view(p@);
                proof {
                    assert(candidate(f0, rs, derived@[t as int]@, atoms_view(used@[t as int]@)));
                    let (ri2, idx) = choose|ri2: int, idx: Seq<usize>|
                        0 <= ri2 < rs.len() && is_combination(idx, f0.len(), rs[ri2].premises.len())
                            && pv == comb_facts(f0, idx) && #[trigger] derives(rs[ri2], comb_facts(f0, idx), c@);
                    assert forall|k: int| 0 <= k < pv.len() implies f1.contains(#[trigger] pv[k]) by {
                        let x = idx[k] as int;
                        assert(f0[x] == f1[x]);
                    }
                    assert(derives(rs[ri2], pv, c@));
                    assert(rule_ok(rs[ri2], self.names().len()));
                    assert forall|i: int| 0 <= i < pv.len() implies ids_below(#[trigger] pv[i], self.names().len()) by {
                        let x = idx[i] as int;
                        assert(f0[x] == f1[x]);
                    }
                    lemma_derives_ids(rs[ri2], pv, c@, self.names().len());
                }
                self.push_fact(c, p);
                modified = true;
                proof {
                    assert(self.facts() == f1.push(derived@[t as int]@));
                    assert(self.facts()[f1.len() as int] == derived@[t as int]@);
                    assert(self.facts().subrange(0, f0.len() as int) =~= f1.subrange(0, f0.len() as int));
                    assert(self.justs().subrange(0, j0.len() as int) =~= j1.subrange(0, j0.len() as int));
                }
            }
            proof {
                let x = derived@[t as int]@;
                assert(self.facts().contains(x));
                assert forall|a: InnerAtomV| #[trigger] self.facts().contains(a) <==> (f1.contains(a) || a == x) by {
                    if f1.contains(a) {
                        let l = choose|l: int| 0 <= l < f1.len() && f1[l] == a;
                        assert(self.facts()[l] == f1[l]);
                    }
                    if self.facts().contains(a) && self.facts() != f1 {
                        let l = choose|l: int| 0 <= l < self.facts().len() && self.facts()[l] == a;
                        if l < f1.len() {
                            assert(self.facts()[l] == f1[l]);
                        }
                    }
                }
                assert forall|a: InnerAtomV| #[trigger] self.facts().contains(a) <==> (f0.contains(a)
                    || exists|t2: int| 0 <= t2 < t + 1 && (#[trigger] derived@[t2])@ == a) by {
                    if exists|t2: int| 0 <= t2 < t + 1 && (#[trigger] derived@[t2])@ == a {
                        let t2 = choose|t2: int| 0 <= t2 < t + 1 && (#[trigger] derived@[t2])@ == a;
                        if t2 < t {
                            assert(f1.contains(a));
                        }
                    }
                    if f1.contains(a) {
                    }
                }
            }
            t = t + 1;
        }
        proof {
            assert forall|a: InnerAtomV| #[trigger] self.facts().contains(a) <==> (f0.contains(a)
                || consequence(f0, rs, a)) by {
                if exists|t2: int| 0 <= t2 < derived@.len() && (#[trigger] derived@[t2])@ == a {
                    let t2 = choose|t2: int| 0 <= t2 < derived@.len() && (#[trigger] derived@[t2])@ == a;
                    assert(candidate(f0, rs, derived@[t2]@, atoms_view(used@[t2]@)));
                }
                if consequence(f0, rs, a) {
                    let (ri2, idx) = choose|ri2: int, idx: Seq<usize>|
                        0 <= ri2 < rs.len() && is_combination(idx, f0.len(), rs[ri2].premises.len())
                            && #[trigger] derives(rs[ri2], comb_facts(f0, idx), a);
                }
            }
        }
        if modified {
            Ok(())
        } else {
            Err(SaturationFailure::Saturated)
        }
    }

    /// The name of identifier `k`.
    fn name_of(&self, k: usize) -> (r: String)
        requires
            self.wf(),
            k < self.names().len(),
        ensures
            r@ == self.names()[k as int],
    {
        match self.id_server.resolve(k) {
            Ok(name) => name,
            Err(_) => String::new(),
        }
    }

    /// The surface form of `a`, with the variable names `vars`.
    fn to_surface(&self, a: &InnerAtom, vars: &Vec<String>) -> (r: Atom)
        requires
            self.wf(),
            ids_below(a@, self.names().len()),
        ensures
            r@ == surface_atom(self.names(), vars@.map_values(|s: String| s@), a@),
    {
        let ghost vv = vars@.map_values(|s: String| s@);
        let predicate = self.name_of(a.predicate);
        let mut arguments: Vec<Term> = Vec::new();
        let mut j: usize = 0;
        while j < a.arguments.len()
            invariant
                self.wf(),
                ids_below(a@, self.names().len()),
                vv == vars@.map_values(|s: String| s@),
                j <= a.arguments@.len(),
                arguments@.len() == j,
                forall|k: int| 0 <= k < j ==> (#[trigger] arguments@[k])@ == surface_term(self.names(), vv, a.arguments@[k]),
            decreases a.arguments@.len() - j,
        {
            let t = match a.arguments[j] {
                InnerTerm::Const(k) => {
                    assert(a@.1[j as int] == InnerTerm::Const(k));
                    Term::Constant(self.name_of(k))
                },
                InnerTerm::Var(v) => {
                    if v < vars.len() {
                        Term::Variable(vars[v].clone())
                    } else {
                        Term::Variable(String::new())
                    }
                },
            };
            arguments.push(t);
            j = j + 1;
        }
        let r = Atom { predicate, arguments };
        assert(r@.1 =~= surface_atom(self.names(), vv, a@).1);
        r
    }

    /// The internal form of a ground surface atom whose names all have
    /// identifiers; `None` when no fact can have that surface form.
    fn lookup_fact(&self, a: &Atom) -> (r: Option<InnerAtom>)
        requires
            self.wf(),
        ensures
            match r {
                Some(ia) => is_ground(ia@) && ids_below(ia@, self.names().len()) && surface_fact(self.names(), ia@) == a@,
                None => forall|f: InnerAtomV| is_ground(f) && ids_below(f, self.names().len()) ==> surface_fact(self.names(), f) != a@,
            },
    {
        let ghost names = self.names();
        let predicate = match self.id_server.lookup(&a.predicate) {
            Some(k) => k,
            None => {
                assert forall|f: InnerAtomV| is_ground(f) && ids_below(f, names.len()) implies surface_fact(names, f) != a@ by {
                    if surface_fact(names, f) == a@ {
                        assert(names[f.0 as int] == a.predicate@);
                    }
                }
                return None;
            },
        };
        let mut arguments: Vec<InnerTerm> = Vec::new();
        let mut j: usize = 0;
        while j < a.arguments.len()
            invariant
                self.wf(),
                names == self.names(),
                predicate < names.len(),
                names[predicate as int] == a.predicate@,
                j <= a.arguments@.len(),
                arguments@.len() == j,
                forall|k: int| 0 <= k < j ==> (#[trigger] arguments@[k]) is Const,
                forall|k: int| 0 <= k < j ==> (#[trigger] arguments@[k])->Const_0 < names.len(),
                forall|k: int| 0 <= k < j ==> surface_term(names, Seq::empty(), #[trigger] arguments@[k]) == a.arguments@[k]@,
            decreases a.arguments@.len() - j,
        {
            match &a.arguments[j] {
                Term::Constant(name) => {
                    match self.id_server.lookup(name) {
                        Some(k) => {
                            arguments.push(InnerTerm::Const(k));
                        },
                        None => {
                            assert forall|f: InnerAtomV| is_ground(f) && ids_below(f, names.len()) implies surface_fact(names, f) != a@ by {
                                if surface_fact(names, f) == a@ {
                                    assert(f.1.len() == a@.1.len());
                                    assert(a@.1[j as int] == a.arguments@[j as int]@);
                                    assert(surface_term(names, Seq::empty(), f.1[j as int]) == a@.1[j as int]);
                                    assert(f.1[j as int] is Const);
                                    let k2 = f.1[j as int]->Const_0;
                                    assert(names[k2 as int] == name@);
                                }
                            }
                            return None;
                        },
                    }
                },
                Term::Variable(_) => {
                    assert forall|f: InnerAtomV| is_ground(f) && ids_below(f, names.len()) implies surface_fact(names, f) != a@ by {
                        if surface_fact(names, f) == a@ {
                            assert(f.1.len() == a@.1.len());
                            assert(a@.1[j as int] == a.arguments@[j as int]@);
                            assert(surface_term(names, Seq::empty(), f.1[j as int]) == a@.1[j as int]);
                            assert(f.1[j as int] is Const);
                        }
                    }
                    return None;
                },
            }
            j = j + 1;
        }
        let r = InnerAtom { predicate, arguments };
        assert(surface_fact(names, r@).1 =~= a@.1);
        assert forall|k: int| 0 <= k < r@.1.len() implies match #[trigger] r@.1[k] {
            InnerTerm::Const(x) => x < names.len(),
            InnerTerm::Var(_) => true,
        } by {
            assert(arguments@[k] is Const);
        }
        Some(r)
    }

    /// The derivation tree of fact `i`.
    fn build(&self, i: usize) -> (t: DerivationTree)
        requires
            self.wf(),
            i < self.facts().len(),
        ensures
            t.tree_view() == self.tree_of(i as int),
        decreases i,
    {
        let ghost facts = self.facts();
        let ghost justs = self.justs();
        let ghost names = self.names();
        let no_vars: Vec<String> = Vec::new();
        assert(no_vars@.map_values(|s: String| s@) =~= Seq::<Seq<char>>::empty());
        assert(self.facts()[i as int] == self.axioms@[i as int]@);
        let atom = self.to_surface(&self.axioms[i], &no_vars);
        let mut tree = DerivationTree::new(atom);
        let prem = &self.derived_from[i];
        assert(justs[i as int] == atoms_view(prem@));
        assert(justified(facts, justs, self.rules(), i as int));
        let mut k: usize = 0;
        while k < prem.len()
            invariant
                self.wf(),
                facts == self.facts(),
                justs == self.justs(),
                names == self.names(),
                i < facts.len(),
                justs[i as int] == atoms_view(prem@),
                justified(facts, justs, self.rules(), i as int),
                k <= prem@.len(),
                tree.atom@ == surface_fact(names, facts[i as int]),
                forest_view(tree.children@) == subtrees(facts, justs, names, i as nat, k as nat),
            decreases prem@.len() - k,
        {
            let ghost a = justs[i as int][k as int];
            assert(prem@[k as int]@ == a);
            assert(earlier(facts, i as int, a));
            let ghost l0 = choose|l: int| 0 <= l < i && facts[l] == a;
            match self.position(&prem[k]) {
                Some(l) => {
                    assert(l == l0);
                    assert(fact_index(facts, i as int, a) == l0);
                    let sub = self.build(l);
                    tree.insert(sub);
                },
                None => {
                    assert(facts[l0] == a);
                },
            }
            k = k + 1;
        }
        tree
    }

    /// The derivation tree of the fact whose surface form is `root`, if it is
    /// a fact.
    pub fn derivation_tree(&self, root: &Atom) -> (r: Option<DerivationTree>)
        requires
            self.wf(),
        ensures
            match r {
                Some(t) => exists|i: int| #[trigger] self.names_fact(i, root@) && t.tree_view() == self.tree_of(i),
                None => !self.has_fact(root@),
            },
    {
        match self.lookup_fact(root) {
            None => {
                assert forall|i: int| !#[trigger] self.names_fact(i, root@) by {
                    if 0 <= i < self.facts().len() {
                        assert(is_ground(self.facts()[i]));
                        assert(ids_below(self.facts()[i], self.names().len()));
                    }
                }
                None
            },
            Some(ia) => {
                match self.position(&ia) {
                    Some(i) => {
                        let t = self.build(i);
                        assert(self.names_fact(i as int, root@));
                        Some(t)
                    },
                    None => {
                        assert forall|i: int| !#[trigger] self.names_fact(i, root@) by {
                            if self.names_fact(i, root@) {
                                lemma_surface_injective(self.names(), self.facts()[i], ia@);
                            }
                        }
                        None
                    },
                }
            },
        }
    }

    /// Returns a derivation of `atom`, saturating the facts round by round
    /// until it is derived or no round adds a fact.
    pub fn find(&mut self, atom: &Atom) -> (r: Result<DerivationTree, SaturationFailure>)
        requires
            old(self).wf(),
        ensures
            query_outcome(*old(self), *final(self), atom@, tree_result(r)),
    {
        let ghost s0 = *self;
        let len0 = self.axioms.len();
        loop
            invariant
                self.wf(),
                self.facts().len() <= usize::MAX,
                self.rules() == s0.rules(),
                self.names() == s0.names(),
                self.facts().len() >= s0.facts().len(),
                self.facts().subrange(0, s0.facts().len() as int) == s0.facts(),
                self.justs().subrange(0, s0.justs().len() as int) == s0.justs(),
                s0.wf(),
                s0 == *old(self),
                (s0.has_fact(atom@) || saturated(s0.facts(), s0.rules())) ==> self.facts() == s0.facts() && self.justs() == s0.justs(),
            decreases usize::MAX - self.facts().len(),
        {
            if let Some(t) = self.derivation_tree(atom) {
                assert(tree_result(Ok(t)) == Ok::<TreeV, SaturationFailure>(t.tree_view()));
                return Ok(t);
            }
            let ghost before = *self;
            proof {
                if s0.has_fact(atom@) {
                    let i = choose|i: int| #[trigger] s0.names_fact(i, atom@);
                    assert(before.names_fact(i, atom@));
                }
            }
            let ghost f1 = self.facts();
            let ghost j1 = self.justs();
            let res = self.saturate();
            let _ = self.axioms.len();
            proof {
                assert(self.facts().subrange(0, s0.facts().len() as int) =~= self.facts().subrange(0, f1.len() as int).subrange(0, s0.facts().len() as int));
                assert(self.justs().subrange(0, s0.justs().len() as int) =~= self.justs().subrange(0, j1.len() as int).subrange(0, s0.justs().len() as int));
                if saturated(s0.facts(), s0.rules()) {
                    lemma_round_on_saturated(f1, self.facts(), self.rules());
                    assert(self.justs() =~= j1);
                }
                if res is Err {
                    assert(self.facts() =~= f1);
                    assert(self.justs().len() == j1.len());
                    assert(self.justs() =~= j1);
                    assert forall|c: InnerAtomV| #[trigger] consequence(self.facts(), self.rules(), c) implies self.facts().contains(c) by {
                        assert(self.facts().contains(c));
                    }
                    assert forall|i: int| !#[trigger] self.names_fact(i, atom@) by {
                        assert(!before.names_fact(i, atom@));
                        assert(before.facts() == self.facts());
                    }
                }
            }
            if let Err(e) = res {
                return Err(e);
            }
        }
    }

    /// Whether every identifier of `a` has a name.
    fn ids_named(&self, a: &InnerAtom) -> (r: bool)
        requires
            self.wf(),
        ensures
            r == ids_below(a@, self.names().len()),
    {
        let n = self.id_server.len();
        if a.predicate >= n {
            return false;
        }
        let mut j: usize = 0;
        while j < a.arguments.len()
            invariant
                n == self.names().len(),
                a.predicate < n,
                j <= a.arguments@.len(),
                forall|k: int| 0 <= k < j ==> match #[trigger] a@.1[k] {
                    InnerTerm::Const(x) => x < n,
                    InnerTerm::Var(_) => true,
                },
            decreases a.arguments@.len() - j,
        {
            if let InnerTerm::Const(x) = a.arguments[j] {
                if x >= n {
                    assert(a@.1[j as int] == InnerTerm::Const(x));
                    return false;
                }
            }
            j = j + 1;
        }
        true
    }

    /// Adds `fact`, justified by `derived_from`, when it is new and may enter
    /// the fact set; returns whether it was added. An empty justification
    /// makes it a seed fact.
    pub fn add_derived_axiom(&mut self, fact: InnerAtom, derived_from: Vec<InnerAtom>) -> (r: bool)
        requires
            old(self).wf(),
        ensures
            final(self).wf(),
            final(self).rules() == old(self).rules(),
            final(self).names() == old(self).names(),
            r == (!old(self).facts().contains(fact@) && admissible(*old(self), fact@, atoms_view(derived_from@))),
            r ==> final(self).facts() == old(self).facts().push(fact@) && final(self).justs() == old(self).justs().push(atoms_view(derived_from@)),
            !r ==> final(self).facts() == old(self).facts() && final(self).justs() == old(self).justs(),
    {
        let ghost dv = atoms_view(derived_from@);
        if self.position(&fact).is_some() || !fact.is_ground() || !self.ids_named(&fact) {
            return false;
        }
        let mut k: usize = 0;
        while k < derived_from.len()
            invariant
                self == old(self),
                self.wf(),
                dv == atoms_view(derived_from@),
                k <= derived_from@.len(),
                forall|k2: int| 0 <= k2 < k ==> self.facts().contains(#[trigger] dv[k2]),
            decreases derived_from@.len() - k,
        {
            if self.position(&derived_from[k]).is_none() {
                assert(dv[k as int] == derived_from@[k as int]@);
                return false;
            }
            k = k + 1;
        }
        if derived_from.len() > 0 {
            let mut found = false;
            let mut ri: usize = 0;
            while ri < self.rules.len()
                invariant
                    self == old(self),
                    self.wf(),
                    dv == atoms_view(derived_from@),
                    ri <= self.rules@.len(),
                    found == exists|ri2: int| 0 <= ri2 < ri && #[trigger] derives(self.rules()[ri2], dv, fact@),
                decreases self.rules@.len() - ri,
            {
                assert(self.rules()[ri as int] == self.rules@[ri as int]@);
                assert(rule_ok(self.rules()[ri as int], self.names().len()));
                let ghost rv = self.rules()[ri as int];
                match assign(&self.rules[ri], &derived_from) {
                    Ok(c) => {
                        if c.same_as(&fact) {
                            found = true;
                        } else {
                            proof {
                                if derives(rv, dv, fact@) {
                                    lemma_derives_unique(rv, dv, c@, fact@);
                                }
                            }
                        }
                    },
                    Err(e) => {
                        proof {
                            if derives(rv, dv, fact@) {
                                let m = choose|m: Subst| #[trigger] fires(rv, dv, m) && instantiate(rv.conclusion, m) == fact@ && is_ground(fact@);
                                if e == AssignFailure::UnboundConclusion {
                                    let m2 = choose|m2: Subst| #[trigger] fires(rv, dv, m2) && !is_ground(instantiate(rv.conclusion, m2));
                                    lemma_fires_unique(rv, dv, m, m2);
                                }
                            }
                        }
                    },
                }
                ri = ri + 1;
            }
            if !found {
                return false;
            }
        }
        self.push_fact(fact, derived_from);
        true
    }

    /// Whether `rule` can stand in the rule set.
    fn rule_acceptable(&self, rule: &InnerRule) -> (r: bool)
        requires
            self.wf(),
        ensures
            r == rule_ok(rule@, self.names().len()),
    {
        if rule.premises.len() == 0 || !self.ids_named(&rule.conclusion) {
            return false;
        }
        let nv = rule.var_names.len();
        let ghost rv = rule@;
        let mut i: usize = 0;
        while i < rule.premises.len()
            invariant
                rv == rule@,
                nv == rv.var_names.len(),
                i <= rv.premises.len(),
                rv.premises.len() == rule.premises@.len(),
                self.wf(),
                forall|i2: int| 0 <= i2 < i ==> ids_below(#[trigger] rv.premises[i2], self.names().len()),
                forall|i2: int, j2: int|
                    0 <= i2 < i && 0 <= j2 < rv.premises[i2].1.len() ==> match #[trigger] rv.premises[i2].1[j2] {
                        InnerTerm::Var(v) => v < nv,
                        InnerTerm::Const(_) => true,
                    },
            decreases rv.premises.len() - i,
        {
            let p = &rule.premises[i];
            assert(p@ == rv.premises[i as int]);
            if !self.ids_named(p) {
                return false;
            }
            let mut j: usize = 0;
            while j < p.arguments.len()
                invariant
                    rv == rule@,
                    nv == rv.var_names.len(),
                    i < rv.premises.len(),
                    p@ == rv.premises[i as int],
                    self.wf(),
                    ids_below(p@, self.names().len()),
                    forall|i2: int| 0 <= i2 < i ==> ids_below(#[trigger] rv.premises[i2], self.names().len()),
                    j <= p@.1.len(),
                    forall|i2: int, j2: int|
                        0 <= i2 < i && 0 <= j2 < rv.premises[i2].1.len() ==> match #[trigger] rv.premises[i2].1[j2] {
                            InnerTerm::Var(v) => v < nv,
                            InnerTerm::Const(_) => true,
                        },
                    forall|j2: int| 0 <= j2 < j ==> match #[trigger] rv.premises[i as int].1[j2] {
                        InnerTerm::Var(v) => v < nv,
                        InnerTerm::Const(_) => true,
                    },
                decreases p@.1.len() - j,
            {
                if let InnerTerm::Var(v) = p.arguments[j] {
                    if v >= nv {
                        assert(rv.premises[i as int].1[j as int] == InnerTerm::Var(v));
                        return false;
                    }
                }
                j = j + 1;
            }
            i = i + 1;
        }
        true
    }

    /// Adds `rule` to the rule set when it can stand there and is not in
    /// it yet: it has premises, its premises' variables are numbered within
    /// it, and its atoms are named. Returns whether it was added.
    pub fn add_inner_rule(&mut self, rule: InnerRule) -> (r: bool)
        requires
            old(self).wf(),
        ensures
            final(self).wf(),
            final(self).facts() == old(self).facts(),
            final(self).justs() == old(self).justs(),
            final(self).names() == old(self).names(),
            r == (rule_ok(rule@, old(self).names().len()) && !old(self).rules().contains(rule@)),
            r ==> final(self).rules() == old(self).rules().push(rule@),
            !r ==> final(self).rules() == old(self).rules(),
    {
        if !self.rule_acceptable(&rule) {
            return false;
        }
        let mut k: usize = 0;
        while k < self.rules.len()
            invariant
                self == old(self),
                self.wf(),
                rule_ok(rule@, self.names().len()),
                k <= self.rules@.len(),
                forall|j: int| 0 <= j < k ==> self.rules()[j] != rule@,
            decreases self.rules@.len() - k,
        {
            if self.rules[k].same_as(&rule) {
                assert(self.rules()[k as int] == rule@);
                return false;
            }
            k = k + 1;
        }
        let ghost r0 = self.rules();
        let ghost rv = rule@;
        self.rules.push(rule);
        assert(self.rules() =~= r0.push(rv));
        assert forall|i: int| 0 <= i < self.facts().len() implies #[trigger] justified(
            self.facts(),
            self.justs(),
            self.rules(),
            i,
        ) by {
            assert(justified(self.facts(), self.justs(), r0, i));
            if self.justs()[i].len() > 0 {
                let ri = choose|ri: int| 0 <= ri < r0.len() && #[trigger] derives(r0[ri], self.justs()[i], self.facts()[i]);
                assert(self.rules()[ri] == r0[ri]);
            }
        }
        true
    }

    /// Builds an engine from parsed records: a record without premises is
    /// a seed fact, any other a rule. Fails with `NonGroundAxiom` when a
    /// record without premises has a variable in its conclusion.
    pub fn new(records: &Vec<Rule>) -> (r: Result<Sniffer, LoadError>)
        ensures
            match r {
                Ok(s) => {
                    &&& s.wf()
                    &&& forall|k: int| 0 <= k < records@.len() && (#[trigger] records@[k]).premises@.len() == 0
                        ==> s.has_fact(records@[k].conclusion@)
                    &&& forall|i: int| 0 <= i < s.facts().len() ==> s.justs()[i].len() == 0 && #[trigger] seed_recorded(records@, records@.len() as int, s, i)
                    &&& forall|k: int| 0 <= k < records@.len() && (#[trigger] records@[k]).premises@.len() > 0
                        ==> exists|ri: int| 0 <= ri < s.rules().len() && surface_rule(s.names(), #[trigger] s.rules()[ri]) == rule_view(records@[k])
                    &&& forall|ri: int| 0 <= ri < s.rules().len() ==> #[trigger] rule_recorded(records@, records@.len() as int, s.names(), s.rules()[ri])
                },
                Err(e) => e == LoadError::NonGroundAxiom && exists|k: int|
                    0 <= k < records@.len() && (#[trigger] records@[k]).premises@.len() == 0
                        && has_variable(records@[k].conclusion@),
            },
    {
        let n = records.len();
        let mut ids = IdentifierServer::new();
        let mut converted: Vec<InnerRule> = Vec::new();
        let mut k: usize = 0;
        while k < n
            invariant
                n == records@.len(),
                ids.wf(),
                k <= n,
                converted@.len() == k,
                forall|k2: int| 0 <= k2 < k ==> rule_named((#[trigger] converted@[k2])@, ids.names().len()),
                forall|k2: int| 0 <= k2 < k ==> surface_rule(ids.names(), (#[trigger] converted@[k2])@) == rule_view(records@[k2]),
            decreases n - k,
        {
            let ghost n1 = ids.names();
            let ir = intern_rule(&mut ids, &records[k]);
            proof {
                assert forall|k2: int| 0 <= k2 < k implies surface_rule(ids.names(), (#[trigger] converted@[k2])@) == rule_view(records@[k2])
                    && rule_named(converted@[k2]@, ids.names().len()) by {
                    lemma_surface_rule_extend(n1, ids.names(), converted@[k2]@);
                }
            }
            converted.push(ir);
            k = k + 1;
        }
        let ghost names = ids.names();
        let ghost conv = converted@.map_values(|r: InnerRule| r@);
        let mut s = Sniffer {
            rules: Vec::new(),
            axioms: Vec::new(),
            derived_from: Vec::new(),
            id_server: ids,
        };
        assert(s.facts() =~= Seq::<InnerAtomV>::empty());
        assert(s.justs() =~= Seq::<Seq<InnerAtomV>>::empty());
        assert(s.rules() =~= Seq::<InnerRuleV>::empty());
        let mut k: usize = 0;
        while k < n
            invariant
                n == records@.len(),
                conv.len() == n,
                s.wf(),
                s.names() == names,
                k <= n,
                converted@.len() == n - k,
                forall|t: int| 0 <= t < n - k ==> (#[trigger] converted@[t])@ == conv[k + t],
                forall|k2: int| 0 <= k2 < n ==> rule_named(#[trigger] conv[k2], names.len()),
                forall|k2: int| 0 <= k2 < n ==> surface_rule(names, #[trigger] conv[k2]) == rule_view(records@[k2]),
                forall|k2: int| 0 <= k2 < k && (#[trigger] records@[k2]).premises@.len() == 0
                    ==> s.has_fact(records@[k2].conclusion@),
                forall|i: int| 0 <= i < s.facts().len() ==> (#[trigger] s.justs()[i]).len() == 0,
                forall|i: int| 0 <= i < s.facts().len() ==> #[trigger] seed_recorded(records@, n as int, s, i),
                forall|k2: int| 0 <= k2 < k && (#[trigger] records@[k2]).premises@.len() > 0
                    ==> exists|ri: int| 0 <= ri < s.rules().len() && surface_rule(names, #[trigger] s.rules()[ri]) == rule_view(records@[k2]),
                forall|ri: int| 0 <= ri < s.rules().len() ==> #[trigger] rule_recorded(records@, n as int, names, s.rules()[ri]),
            decreases n - k,
        {
            let ghost rest0 = converted@;
            let ir = converted.remove(0);
            let ghost rv = conv[k as int];
            assert(rest0[0]@ == conv[k as int]);
            let ghost s0 = s;
            assert(ir@ == rv);
            assert(rule_named(rv, names.len()));
            assert(surface_rule(names, rv) == rule_view(records@[k as int]));
            assert(rv.premises.len() == records@[k as int].premises@.len()) by {
                assert(surface_rule(names, rv).0.len() == rv.premises.len());
                assert(rule_view(records@[k as int]).0.len() == records@[k as int].premises@.len());
            }
            if ir.premises.len() == 0 {
                proof {
                    lemma_ground_surface(names, rv.var_names, rv.conclusion);
                    lemma_named_ids(rv.conclusion, names.len(), rv.var_names.len());
                }
                if !ir.conclusion.is_ground() {
                    return Err(LoadError::NonGroundAxiom);
                }
                let ghost cv = rv.conclusion;
                let no_premises: Vec<InnerAtom> = Vec::new();
                assert(atoms_view(no_premises@) =~= Seq::<InnerAtomV>::empty());
                let ghost pv = atoms_view(no_premises@);
                let added = s.add_derived_axiom(ir.conclusion, no_premises);
                proof {
                    assert(surface_fact(names, cv) == records@[k as int].conclusion@);
                    assert(s.facts().subrange(0, s0.facts().len() as int) =~= s0.facts());

                    if added {
                        assert(s.names_fact(s0.facts().len() as int, records@[k as int].conclusion@));
                    } else {
                        assert(s0.facts().contains(cv));
                        let i = choose|i: int| 0 <= i < s0.facts().len() && s0.facts()[i] == cv;
                        assert(s.names_fact(i, records@[k as int].conclusion@));
                    }
                    assert forall|k2: int| 0 <= k2 < k + 1 && (#[trigger] records@[k2]).premises@.len() == 0
                        implies s.has_fact(records@[k2].conclusion@) by {
                        if k2 < k {
                            assert(s0.has_fact(records@[k2].conclusion@));
                            let i = choose|i: int| #[trigger] s0.names_fact(i, records@[k2].conclusion@);
                            assert(s.facts()[i] == s0.facts()[i]);
                            assert(s.names_fact(i, records@[k2].conclusion@));
                        }
                    }
                    assert forall|i: int| #![trigger s.justs()[i]] #![trigger seed_recorded(records@, n as int, s, i)] 0 <= i < s.facts().len() implies s.justs()[i].len() == 0 && seed_recorded(records@, n as int, s, i) by {
                        if i < s0.facts().len() {
                            assert(s.facts()[i] == s0.facts()[i]);
                            assert(s.justs()[i] == s0.justs()[i]);
                            assert(seed_recorded(records@, n as int, s0, i));
                            let k2 = choose|k2: int| 0 <= k2 < n && (#[trigger] records@[k2]).premises@.len() == 0
                                && s0.names_fact(i, records@[k2].conclusion@);
                            assert(s.names_fact(i, records@[k2].conclusion@));
                            assert(seed_recorded(records@, n as int, s, i));
                        } else {
                            assert(added);
                            assert(s.justs() == s0.justs().push(pv));
                            assert(s.justs()[i] == pv);
                            assert(records@[k as int].premises@.len() == 0);
                            assert(s.names_fact(i, records@[k as int].conclusion@));
                            assert(seed_recorded(records@, n as int, s, i));
                        }
                    }
                    assert forall|k2: int| 0 <= k2 < k + 1 && (#[trigger] records@[k2]).premises@.len() > 0
                        implies exists|ri: int| 0 <= ri < s.rules().len() && surface_rule(names, #[trigger] s.rules()[ri]) == rule_view(records@[k2]) by {
                    }
                    assert forall|ri: int| 0 <= ri < s.rules().len() implies #[trigger] rule_recorded(records@, n as int, names, s.rules()[ri]) by {
                        assert(s.rules()[ri] == s0.rules()[ri]);
                        assert(rule_recorded(records@, n as int, names, s0.rules()[ri]));
                        let k2 = choose|k2: int| 0 <= k2 < n && (#[trigger] records@[k2]).premises@.len() > 0
                            && surface_rule(names, s0.rules()[ri]) == rule_view(records@[k2]);
                        assert(surface_rule(names, s.rules()[ri]) == rule_view(records@[k2]));
                    }
                }
            } else {
                proof {
                    lemma_named_ids(rv.conclusion, names.len(), rv.var_names.len());
                    assert forall|i: int| 0 <= i < rv.premises.len() implies ids_below(#[trigger] rv.premises[i], names.len()) by {
                        lemma_named_ids(rv.premises[i], names.len(), rv.var_names.len());
                    }
                    assert forall|i: int, j: int| 0 <= i < rv.premises.len() && 0 <= j < rv.premises[i].1.len() implies match #[trigger] rv.premises[i].1[j] {
                        InnerTerm::Var(v) => v < rv.var_names.len(),
                        InnerTerm::Const(_) => true,
                    } by {
                        assert(atom_named(rv.premises[i], names.len(), rv.var_names.len()));
                    }
                }
                let added = s.add_inner_rule(ir);
                proof {
                    let nr = s0.rules().len() as int;
                    if added {
                        assert(s.rules()[nr] == rv);
                    } else {
                        assert(s0.rules().contains(rv));
                    }
                    assert forall|k2: int| 0 <= k2 < k + 1 && (#[trigger] records@[k2]).premises@.len() == 0
                        implies s.has_fact(records@[k2].conclusion@) by {
                        assert(s0.has_fact(records@[k2].conclusion@));
                        let i = choose|i: int| #[trigger] s0.names_fact(i, records@[k2].conclusion@);
                        assert(s.names_fact(i, records@[k2].conclusion@));
                    }
                    assert forall|i: int| #![trigger s.justs()[i]] #![trigger seed_recorded(records@, n as int, s, i)] 0 <= i < s.facts().len() implies s.justs()[i].len() == 0 && seed_recorded(records@, n as int, s, i) by {
                        assert(s.facts() == s0.facts());
                        assert(s.justs()[i] == s0.justs()[i]);
                        assert(0 <= i < s0.facts().len());
                        assert(seed_recorded(records@, n as int, s0, i));
                        let k2 = choose|k2: int| 0 <= k2 < n && (#[trigger] records@[k2]).premises@.len() == 0
                            && s0.names_fact(i, records@[k2].conclusion@);
                        assert(s.names_fact(i, records@[k2].conclusion@));
                        assert(seed_recorded(records@, n as int, s, i));
                    }
                    assert forall|k2: int| 0 <= k2 < k + 1 && (#[trigger] records@[k2]).premises@.len() > 0
                        implies exists|ri: int| 0 <= ri < s.rules().len() && surface_rule(names, #[trigger] s.rules()[ri]) == rule_view(records@[k2]) by {
                        if k2 < k {
                            let ri = choose|ri: int| 0 <= ri < s0.rules().len() && surface_rule(names, #[trigger] s0.rules()[ri]) == rule_view(records@[k2]);
                            assert(s.rules()[ri] == s0.rules()[ri]);
                        } else if added {
                            assert(surface_rule(names, s.rules()[nr]) == rule_view(records@[k2]));
                        } else {
                            let ri = choose|ri: int| 0 <= ri < s0.rules().len() && s0.rules()[ri] == rv;
                            assert(s.rules()[ri] == rv);
                            assert(surface_rule(names, s.rules()[ri]) == rule_view(records@[k2]));
                        }
                    }
                    assert forall|ri: int| 0 <= ri < s.rules().len() implies #[trigger] rule_recorded(records@, n as int, names, s.rules()[ri]) by {
                        if ri < nr {
                            assert(s.rules()[ri] == s0.rules()[ri]);
                            assert(rule_recorded(records@, n as int, names, s0.rules()[ri]));
                            let k2 = choose|k2: int| 0 <= k2 < n && (#[trigger] records@[k2]).premises@.len() > 0
                                && surface_rule(names, s0.rules()[ri]) == rule_view(records@[k2]);
                            assert(surface_rule(names, s.rules()[ri]) == rule_view(records@[k2]));
                        } else {
                            assert(added);
                            assert(records@[k as int].premises@.len() > 0);
                            assert(surface_rule(names, s.rules()[ri]) == rule_view(records@[k as int]));
                        }
                    }
                }
            }
            proof {
                assert forall|t: int| 0 <= t < n - (k + 1) implies (#[trigger] converted@[t])@ == conv[k + 1 + t] by {
                    assert(converted@[t] == rest0[t + 1]);
                }
            }
            k = k + 1;
        }
        Ok(s)
    }

    /// The surface form of a rule of the rule set.
    fn rule_to_surface(&self, r: &InnerRule) -> (out: Rule)
        requires
            self.wf(),
            rule_ok(r@, self.names().len()),
        ensures
            rule_view(out) == surface_rule(self.names(), r@),
    {
        let ghost rv = r@;
        let mut premises: Vec<Atom> = Vec::new();
        let mut i: usize = 0;
        while i < r.premises.len()
            invariant
                self.wf(),
                rv == r@,
                rule_ok(rv, self.names().len()),
                i <= rv.premises.len(),
                premises@.len() == i,
                forall|k: int| 0 <= k < i ==> (#[trigger] premises@[k])@ == surface_atom(self.names(), rv.var_names, rv.premises[k]),
            decreases rv.premises.len() - i,
        {
            assert(ids_below(rv.premises[i as int], self.names().len()));
            premises.push(self.to_surface(&r.premises[i], &r.var_names));
            i = i + 1;
        }
        let conclusion = self.to_surface(&r.conclusion, &r.var_names);
        let out = Rule { premises, conclusion };
        assert(rule_view(out).0 =~= surface_rule(self.names(), rv).0);
        out
    }

    /// The facts in surface form, in the order in which they were derived.
    pub fn axioms(&self) -> (r: Vec<Atom>)
        requires
            self.wf(),
        ensures
            r@.len() == self.facts().len(),
            forall|i: int| 0 <= i < r@.len() ==> (#[trigger] r@[i])@ == surface_fact(self.names(), self.facts()[i]),
    {
        let no_vars: Vec<String> = Vec::new();
        assert(no_vars@.map_values(|s: String| s@) =~= Seq::<Seq<char>>::empty());
        let mut r: Vec<Atom> = Vec::new();
        let mut i: usize = 0;
        while i < self.axioms.len()
            invariant
                self.wf(),
                no_vars@.map_values(|s: String| s@) == Seq::<Seq<char>>::empty(),
                i <= self.facts().len(),
                r@.len() == i,
                forall|k: int| 0 <= k < i ==> (#[trigger] r@[k])@ == surface_fact(self.names(), self.facts()[k]),
            decreases self.facts().len() - i,
        {
            assert(self.facts()[i as int] == self.axioms@[i as int]@);
            r.push(self.to_surface(&self.axioms[i], &no_vars));
            i = i + 1;
        }
        r
    }

    /// The rules in surface form.
    pub fn generative_rules(&self) -> (r: Vec<Rule>)
        requires
            self.wf(),
        ensures
            r@.len() == self.rules().len(),
            forall|i: int| 0 <= i < r@.len() ==> rule_view(#[trigger] r@[i]) == surface_rule(self.names(), self.rules()[i]),
    {
        let mut r: Vec<Rule> = Vec::new();
        let mut i: usize = 0;
        while i < self.rules.len()
            invariant
                self.wf(),
                i <= self.rules().len(),
                r@.len() == i,
                forall|k: int| 0 <= k < i ==> rule_view(#[trigger] r@[k]) == surface_rule(self.names(), self.rules()[k]),
            decreases self.rules().len() - i,
        {
            assert(self.rules()[i as int] == self.rules@[i as int]@);
            assert(rule_ok(self.rules()[i as int], self.names().len()));
            r.push(self.rule_to_surface(&self.rules[i]));
            i = i + 1;
        }
        r
    }

    /// The rules, one per line, each after a tab.
    pub fn rules_to_string(&self) -> (r: String)
        requires
            self.wf(),
        ensures
            r@ == rules_text(self.names(), self.rules(), self.rules().len()),
    {
        let listed = self.generative_rules();
        let mut out = String::new();
        let mut i: usize = 0;
        while i < listed.len()
            invariant
                listed@.len() == self.rules().len(),
                forall|k: int| 0 <= k < listed@.len() ==> rule_view(#[trigger] listed@[k]) == surface_rule(self.names(), self.rules()[k]),
                i <= listed@.len(),
                out@ == rules_text(self.names(), self.rules(), i as nat),
            decreases listed@.len() - i,
        {
            proof {
                reveal_strlit("\t");
                reveal_strlit("\n");
            }
            let ghost before = out@;
            out.append("\t");
            push_rule(&mut out, &listed[i]);
            out.append("\n");
            assert(rule_view(listed@[i as int]) == surface_rule(self.names(), self.rules()[i as int]));
            assert(out@ =~= rules_text(self.names(), self.rules(), (i + 1) as nat));
            i = i + 1;
        }
        out
    }

    /// The facts, one per line, each after a tab.
    pub fn axioms_to_string(&self) -> (r: String)
        requires
            self.wf(),
        ensures
            r@ == facts_text(self.names(), self.facts(), self.facts().len()),
    {
        let listed = self.axioms();
        let mut out = String::new();
        let mut i: usize = 0;
        while i < listed.len()
            invariant
                listed@.len() == self.facts().len(),
                forall|k: int| 0 <= k < listed@.len() ==> (#[trigger] listed@[k])@ == surface_fact(self.names(), self.facts()[k]),
                i <= listed@.len(),
                out@ == facts_text(self.names(), self.facts(), i as nat),
            decreases listed@.len() - i,
        {
            proof {
                reveal_strlit("\t");
                reveal_strlit("\n");
            }
            out.append("\t");
            push_atom(&mut out, &listed[i]);
            out.append("\n");
            assert(listed@[i as int]@ == surface_fact(self.names(), self.facts()[i as int]));
            assert(out@ =~= facts_text(self.names(), self.facts(), (i + 1) as nat));
            i = i + 1;
        }
        out
    }

    /// Each fact after a tab and before a colon, followed by the premises
    /// that justified it, one per line after two tabs.
    pub fn derived_from_to_string(&self) -> (r: String)
        requires
            self.wf(),
        ensures
            r@ == justifications_text(self.names(), self.facts(), self.justs(), self.facts().len()),
    {
        let listed = self.axioms();
        let no_vars: Vec<String> = Vec::new();
        assert(no_vars@.map_values(|s: String| s@) =~= Seq::<Seq<char>>::empty());
        let mut out = String::new();
        let mut i: usize = 0;
        while i < listed.len()
            invariant
                self.wf(),
                no_vars@.map_values(|s: String| s@) == Seq::<Seq<char>>::empty(),
                listed@.len() == self.facts().len(),
                forall|k: int| 0 <= k < listed@.len() ==> (#[trigger] listed@[k])@ == surface_fact(self.names(), self.facts()[k]),
                i <= listed@.len(),
                out@ == justifications_text(self.names(), self.facts(), self.justs(), i as nat),
            decreases listed@.len() - i,
        {
            proof {
                reveal_strlit("\t");
                reveal_strlit(":\n");
            }
            out.append("\t");
            push_atom(&mut out, &listed[i]);
            out.append(":\n");
            let ghost head = out@;
            let premises = &self.derived_from[i];
            let ghost ps = self.justs()[i as int];
            assert(ps == atoms_view(premises@));
            assert(justified(self.facts(), self.justs(), self.rules(), i as int));
            let mut k: usize = 0;
            while k < premises.len()
                invariant
                    self.wf(),
                    no_vars@.map_values(|s: String| s@) == Seq::<Seq<char>>::empty(),
                    i < self.facts().len(),
                    ps == self.justs()[i as int],
                    ps == atoms_view(premises@),
                    justified(self.facts(), self.justs(), self.rules(), i as int),
                    k <= ps.len(),
                    out@ == head + premises_text(self.names(), ps, k as nat),
                decreases ps.len() - k,
            {
                proof {
                    reveal_strlit("\t\t");
                    reveal_strlit("\n");
                }
                assert(earlier(self.facts(), i as int, ps[k as int]));
                let ghost l = choose|l: int| 0 <= l < i && self.facts()[l] == ps[k as int];
                assert(ids_below(self.facts()[l], self.names().len()));
                let ghost before = out@;
                out.append("\t\t");
                let p = self.to_surface(&premises[k], &no_vars);
                push_atom(&mut out, &p);
                out.append("\n");
                assert(out@ =~= head + premises_text(self.names(), ps, (k + 1) as nat));
                k = k + 1;
            }
            assert(listed@[i as int]@ == surface_fact(self.names(), self.facts()[i as int]));
            assert(out@ =~= justifications_text(self.names(), self.facts(), self.justs(), (i + 1) as nat));
            i = i + 1;
        }
        out
    }

    /// The rules, the facts and the justification map, each under a heading.
    pub fn to_string(&self) -> (r: String)
        requires
            self.wf(),
        ensures
            r@ == "Rules:\n"@ + rules_text(self.names(), self.rules(), self.rules().len()) + "Axioms: \n"@
                + facts_text(self.names(), self.facts(), self.facts().len()) + "Derived from: \n"@
                + justifications_text(self.names(), self.facts(), self.justs(), self.facts().len()),
    {
        let mut out = String::new();
        out.append("Rules:\n");
        out.append(self.rules_to_string().as_str());
        out.append("Axioms: \n");
        out.append(self.axioms_to_string().as_str());
        out.append("Derived from: \n");
        out.append(self.derived_from_to_string().as_str());
        assert(out@ =~= "Rules:\n"@ + rules_text(self.names(), self.rules(), self.rules().len()) + "Axioms: \n"@
            + facts_text(self.names(), self.facts(), self.facts().len()) + "Derived from: \n"@
            + justifications_text(self.names(), self.facts(), self.justs(), self.facts().len()));
        out
    }
}

/// The lines listing the first `n` facts: a tab, the fact, a newline.
pub open spec fn facts_text(names: Seq<Seq<char>>, facts: Seq<InnerAtomV>, n: nat) -> Seq<char>
    decreases n,
{
    if n == 0 || n > facts.len() {
        Seq::empty()
    } else {
        facts_text(names, facts, (n - 1) as nat) + "\t"@ + atom_text(surface_fact(names, facts[n - 1])) + "\n"@
    }
}

/// The lines listing the first `n` rules: a tab, the rule, a newline.
pub open spec fn rules_text(names: Seq<Seq<char>>, rules: Seq<InnerRuleV>, n: nat) -> Seq<char>
    decreases n,
{
    if n == 0 || n > rules.len() {
        Seq::empty()
    } else {
        rules_text(names, rules, (n - 1) as nat) + "\t"@ + rule_text(surface_rule(names, rules[n - 1])) + "\n"@
    }
}

/// The lines listing the first `m` premises: two tabs, the premise, a newline.
pub open spec fn premises_text(names: Seq<Seq<char>>, ps: Seq<InnerAtomV>, m: nat) -> Seq<char>
    decreases m,
{
    if m == 0 || m > ps.len() {
        Seq::empty()
    } else {
        premises_text(names, ps, (m - 1) as nat) + "\t\t"@ + atom_text(surface_fact(names, ps[m - 1])) + "\n"@
    }
}

/// The justification map of the first `n` facts as text: each fact after a
/// tab and before a colon, then its premises.
pub open spec fn justifications_text(
    names: Seq<Seq<char>>,
    facts: Seq<InnerAtomV>,
    justs: Seq<Seq<InnerAtomV>>,
    n: nat,
) -> Seq<char>
    decreases n,
{
    if n == 0 || n > facts.len() || n > justs.len() {
        Seq::empty()
    } else {
        justifications_text(names, facts, justs, (n - 1) as nat) + "\t"@ + atom_text(surface_fact(names, facts[n - 1]))
            + ":\n"@ + premises_text(names, justs[n - 1], justs[n - 1].len())
    }
}

/// The atom at the root of a tree.
pub open spec fn root(t: TreeV) -> AtomV {
    match t {
        TreeV::Node(a, _) => a,
    }
}

/// The subtrees of a tree.
pub open spec fn children(t: TreeV) -> Seq<TreeV> {
    match t {
        TreeV::Node(_, c) => c,
    }
}

proof fn lemma_subtree_roots(s: Sniffer, i: int, n: nat)
    requires
        s.wf(),
        0 <= i < s.facts().len(),
        n <= s.justs()[i].len(),
    ensures
        subtrees(s.facts(), s.justs(), s.names(), i as nat, n).len() == n,
        forall|k: int| 0 <= k < n ==> root(#[trigger] subtrees(s.facts(), s.justs(), s.names(), i as nat, n)[k])
            == surface_fact(s.names(), s.justs()[i][k]),
    decreases n,
{
    if n > 0 {
        lemma_subtree_roots(s, i, (n - 1) as nat);
        let a = s.justs()[i][n - 1];
        let l = fact_index(s.facts(), i, a);
        assert(justified(s.facts(), s.justs(), s.rules(), i));
        assert(earlier(s.facts(), i, a));
        let st = subtrees(s.facts(), s.justs(), s.names(), i as nat, n);
        let st0 = subtrees(s.facts(), s.justs(), s.names(), i as nat, (n - 1) as nat);
        assert forall|k: int| 0 <= k < n implies root(#[trigger] st[k]) == surface_fact(s.names(), s.justs()[i][k]) by {
            if k < n - 1 {
                assert(st[k] == st0[k]);
            } else {
                assert(0 <= l < i && s.facts()[l] == a);
                assert(st[k] == tree_at(s.facts(), s.justs(), s.names(), l as nat));
            }
        }
    }
}

/// Soundness of proofs: the node of fact `i` in a derivation tree has the
/// surface form of that fact and one child per premise, rooted at that
/// premise's surface form; when it has children, some rule of the rule set,
/// under some substitution, has exactly those premises and concludes exactly
/// that fact. Every node of a tree that `find` or `derivation_tree` returns
/// is such a node.
pub proof fn law_derivation_sound(s: Sniffer, i: int)
    requires
        s.wf(),
        0 <= i < s.facts().len(),
    ensures
        root(s.tree_of(i)) == surface_fact(s.names(), s.facts()[i]),
        children(s.tree_of(i)).len() == s.justs()[i].len(),
        forall|k: int| 0 <= k < s.justs()[i].len() ==> root(#[trigger] children(s.tree_of(i))[k]) == surface_fact(s.names(), s.justs()[i][k]),
        s.justs()[i].len() > 0 ==> exists|ri: int, m: Subst|
            0 <= ri < s.rules().len() && #[trigger] fires(s.rules()[ri], s.justs()[i], m)
                && instantiate(s.rules()[ri].conclusion, m) == s.facts()[i],
{
    lemma_subtree_roots(s, i, s.justs()[i].len());
    assert(justified(s.facts(), s.justs(), s.rules(), i));
    if s.justs()[i].len() > 0 {
        let ri = choose|ri: int| 0 <= ri < s.rules().len() && #[trigger] derives(s.rules()[ri], s.justs()[i], s.facts()[i]);
        let m = choose|m: Subst| #[trigger] fires(s.rules()[ri], s.justs()[i], m)
            && instantiate(s.rules()[ri].conclusion, m) == s.facts()[i] && is_ground(s.facts()[i]);
    }
}

/// At most one fact has a given surface form.
proof fn lemma_names_fact_unique(s: Sniffer, a: AtomV, i: int, j: int)
    requires
        s.wf(),
        s.names_fact(i, a),
        s.names_fact(j, a),
    ensures
        i == j,
{
    assert(is_ground(s.facts()[i]) && is_ground(s.facts()[j]));
    assert(ids_below(s.facts()[i], s.names().len()) && ids_below(s.facts()[j], s.names().len()));
    lemma_surface_injective(s.names(), s.facts()[i], s.facts()[j]);
}

/// Idempotence of queries: asking again for a fact that a query has just
/// found changes nothing and returns the same derivation tree.
pub proof fn law_query_idempotent(
    s0: Sniffer,
    s1: Sniffer,
    s2: Sniffer,
    a: AtomV,
    t1: TreeV,
    r2: Result<TreeV, SaturationFailure>,
)
    requires
        s0.wf(),
        query_outcome(s0, s1, a, Ok(t1)),
        query_outcome(s1, s2, a, r2),
    ensures
        r2 == Ok::<TreeV, SaturationFailure>(t1),
        s2.facts() == s1.facts(),
        s2.justs() == s1.justs(),
{
    let i1 = choose|i: int| #[trigger] s1.names_fact(i, a) && t1 == s1.tree_of(i);
    assert(s1.has_fact(a));
    assert(s2.names_fact(i1, a));
    match r2 {
        Ok(t2) => {
            let i2 = choose|i: int| #[trigger] s2.names_fact(i, a) && t2 == s2.tree_of(i);
            lemma_names_fact_unique(s2, a, i1, i2);
        },
        Err(_) => {},
    }
}

/// A query on an engine where no round can add a fact, for an atom that is
/// not a fact, fails with `Saturated` and leaves the engine as it was.
pub proof fn law_saturated_query(s0: Sniffer, s1: Sniffer, a: AtomV, r: Result<TreeV, SaturationFailure>)
    requires
        s0.wf(),
        saturated(s0.facts(), s0.rules()),
        !s0.has_fact(a),
        query_outcome(s0, s1, a, r),
    ensures
        r == Err::<TreeV, SaturationFailure>(SaturationFailure::Saturated),
        s1.facts() == s0.facts(),
{
    match r {
        Ok(t) => {
            let i = choose|i: int| #[trigger] s1.names_fact(i, a) && t == s1.tree_of(i);
            assert(s0.names_fact(i, a));
        },
        Err(_) => {},
    }
}

} // verus!

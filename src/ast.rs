use vstd::prelude::*;

verus! {

/// An identifier handed out by the interner: an index into its name table.
pub type Identifier = usize;

/// A term as written in a rule file: a named constant or a named variable.
#[derive(Clone, Debug)]
pub enum Term {
    Constant(String),
    Variable(String),
}

/// The mathematical form of a surface term.
pub ghost enum TermV {
    Constant(Seq<char>),
    Variable(Seq<char>),
}

/// The mathematical form of a surface atom: its predicate and its arguments.
pub type AtomV = (Seq<char>, Seq<TermV>);

/// A predicate applied to arguments, with human-readable names.
#[derive(Clone, Debug)]
pub struct Atom {
    pub predicate: String,
    pub arguments: Vec<Term>,
}

/// A rule as written in a rule file; with no premises it is an axiom.
#[derive(Clone, Debug)]
pub struct Rule {
    pub premises: Vec<Atom>,
    pub conclusion: Atom,
}

impl View for Term {
    type V = TermV;

    open spec fn view(&self) -> TermV {
        match self {
            Term::Constant(s) => TermV::Constant(s@),
            Term::Variable(s) => TermV::Variable(s@),
        }
    }
}

impl View for Atom {
    type V = AtomV;

    open spec fn view(&self) -> AtomV {
        (self.predicate@, self.arguments@.map_values(|t: Term| t@))
    }
}

/// The premises and the conclusion of a surface rule.
pub open spec fn rule_view(r: Rule) -> (Seq<AtomV>, AtomV) {
    (r.premises@.map_values(|a: Atom| a@), r.conclusion@)
}

/// A term inside the engine: an interned constant, or a variable numbered
/// within its rule.
#[derive(Clone, Copy, Debug, PartialEq, Eq, Structural)]
pub enum InnerTerm {
    Const(Identifier),
    Var(usize),
}

/// The mathematical form of an internal atom: predicate and arguments.
pub type InnerAtomV = (Identifier, Seq<InnerTerm>);

/// A predicate applied to arguments, over interned identifiers.
#[derive(Clone, Debug)]
pub struct InnerAtom {
    pub predicate: Identifier,
    pub arguments: Vec<InnerTerm>,
}

impl View for InnerAtom {
    type V = InnerAtomV;

    open spec fn view(&self) -> InnerAtomV {
        (self.predicate, self.arguments@)
    }
}

/// The views of a sequence of internal atoms.
pub open spec fn atoms_view(s: Seq<InnerAtom>) -> Seq<InnerAtomV> {
    s.map_values(|a: InnerAtom| a@)
}

/// Copies of the atoms of `s`, in order.
pub fn duplicate_atoms(s: &Vec<InnerAtom>) -> (r: Vec<InnerAtom>)
    ensures
        atoms_view(r@) == atoms_view(s@),
{
    let mut r: Vec<InnerAtom> = Vec::new();
    let mut i: usize = 0;
    while i < s.len()
        invariant
            i <= s@.len(),
            r@.len() == i,
            forall|k: int| 0 <= k < i ==> (#[trigger] r@[k])@ == s@[k]@,
        decreases s@.len() - i,
    {
        r.push(s[i].duplicate());
        i = i + 1;
    }
    assert(atoms_view(r@) =~= atoms_view(s@));
    r
}

/// The mathematical form of an internal rule.
pub ghost struct InnerRuleV {
    pub premises: Seq<InnerAtomV>,
    pub conclusion: InnerAtomV,
    pub var_names: Seq<Seq<char>>,
}

/// A rule over interned identifiers. Its variables are numbered from zero;
/// `var_names[k]` is the name that variable `k` had in the rule file.
#[derive(Clone, Debug)]
pub struct InnerRule {
    pub premises: Vec<InnerAtom>,
    pub conclusion: InnerAtom,
    pub var_names: Vec<String>,
}

impl View for InnerRule {
    type V = InnerRuleV;

    open spec fn view(&self) -> InnerRuleV {
        InnerRuleV {
            premises: atoms_view(self.premises@),
            conclusion: self.conclusion@,
            var_names: self.var_names@.map_values(|s: String| s@),
        }
    }
}

impl InnerRule {
    /// Structural equality of two rules, variable names included.
    pub fn same_as(&self, other: &InnerRule) -> (r: bool)
        ensures
            r == (self@ == other@),
    {
        assert(self@.premises.len() == self.premises@.len() && other@.premises.len() == other.premises@.len());
        assert(self@.var_names.len() == self.var_names@.len() && other@.var_names.len() == other.var_names@.len());
        if self.premises.len() != other.premises.len() || self.var_names.len() != other.var_names.len()
            || !self.conclusion.same_as(&other.conclusion) {
            return false;
        }
        let mut i: usize = 0;
        while i < self.premises.len()
            invariant
                i <= self.premises@.len() == other.premises@.len(),
                forall|k: int| 0 <= k < i ==> (#[trigger] self.premises@[k])@ == other.premises@[k]@,
            decreases self.premises@.len() - i,
        {
            if !self.premises[i].same_as(&other.premises[i]) {
                assert(self@.premises[i as int] != other@.premises[i as int]);
                return false;
            }
            i = i + 1;
        }
        let mut k: usize = 0;
        while k < self.var_names.len()
            invariant
                k <= self.var_names@.len() == other.var_names@.len(),
                forall|j: int| 0 <= j < k ==> (#[trigger] self.var_names@[j])@ == other.var_names@[j]@,
            decreases self.var_names@.len() - k,
        {
            if self.var_names[k] != other.var_names[k] {
                assert(self@.var_names[k as int] != other@.var_names[k as int]);
                return false;
            }
            k = k + 1;
        }
        assert(self@.premises =~= other@.premises);
        assert(self@.var_names =~= other@.var_names);
        true
    }
}

/// An atom whose arguments are all constants.
pub open spec fn is_ground(a: InnerAtomV) -> bool {
    forall|j: int| 0 <= j < a.1.len() ==> (#[trigger] a.1[j] is Const)
}

/// Every variable of every premise of `r` is numbered below its count of
/// variables.
pub open spec fn rule_wf(r: InnerRuleV) -> bool {
    forall|i: int, j: int|
        0 <= i < r.premises.len() && 0 <= j < r.premises[i].1.len() ==> match #[trigger] r.premises[i].1[j] {
            InnerTerm::Var(v) => v < r.var_names.len(),
            InnerTerm::Const(_) => true,
        }
}

impl InnerAtom {
    /// Structural equality of two internal atoms.
    pub fn same_as(&self, other: &InnerAtom) -> (r: bool)
        ensures
            r == (self@ == other@),
    {
        if self.predicate != other.predicate || self.arguments.len() != other.arguments.len() {
            return false;
        }
        let mut j: usize = 0;
        while j < self.arguments.len()
            invariant
                j <= self.arguments.len() == other.arguments.len(),
                forall|k: int| 0 <= k < j ==> self.arguments@[k] == other.arguments@[k],
            decreases self.arguments.len() - j,
        {
            if self.arguments[j] != other.arguments[j] {
                return false;
            }
            j = j + 1;
        }
        assert(self.arguments@ =~= other.arguments@);
        true
    }

    /// A copy of this atom.
    pub fn duplicate(&self) -> (r: InnerAtom)
        ensures
            r@ == self@,
    {
        let mut args: Vec<InnerTerm> = Vec::new();
        let mut j: usize = 0;
        while j < self.arguments.len()
            invariant
                j <= self.arguments.len(),
                args@ == self.arguments@.subrange(0, j as int),
            decreases self.arguments.len() - j,
        {
            args.push(self.arguments[j]);
            j = j + 1;
            assert(args@ =~= self.arguments@.subrange(0, j as int));
        }
        assert(args@ =~= self.arguments@);
        InnerAtom { predicate: self.predicate, arguments: args }
    }

    /// Whether every argument is a constant.
    pub fn is_ground(&self) -> (r: bool)
        ensures
            r == is_ground(self@),
    {
        let mut j: usize = 0;
        while j < self.arguments.len()
            invariant
                j <= self.arguments.len(),
                forall|k: int| 0 <= k < j ==> (#[trigger] self.arguments@[k] is Const),
            decreases self.arguments.len() - j,
        {
            if let InnerTerm::Var(_) = self.arguments[j] {
                return false;
            }
            j = j + 1;
        }
        true
    }
}

} // verus!

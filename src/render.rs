use vstd::prelude::*;
use vstd::string::*;
use crate::ast::{rule_view, Atom, AtomV, Rule, Term, TermV};

verus! {

/// The name that a term is written with.
pub open spec fn term_name(t: TermV) -> Seq<char> {
    match t {
        TermV::Constant(s) => s,
        TermV::Variable(s) => s,
    }
}

/// The first `n` terms of `ts`, separated by a comma and a space.
pub open spec fn terms_text(ts: Seq<TermV>, n: nat) -> Seq<char>
    decreases n,
{
    if n == 0 || n > ts.len() {
        Seq::empty()
    } else {
        terms_text(ts, (n - 1) as nat) + (if n > 1 {
            seq![',', ' ']
        } else {
            Seq::empty()
        }) + term_name(ts[n - 1])
    }
}

/// An atom as text: `p(a, b)`.
pub open spec fn atom_text(a: AtomV) -> Seq<char> {
    a.0 + seq!['('] + terms_text(a.1, a.1.len()) + seq![')']
}

/// The first `n` atoms of `atoms`, separated by a comma and a space.
pub open spec fn atoms_text(atoms: Seq<AtomV>, n: nat) -> Seq<char>
    decreases n,
{
    if n == 0 || n > atoms.len() {
        Seq::empty()
    } else {
        atoms_text(atoms, (n - 1) as nat) + (if n > 1 {
            seq![',', ' ']
        } else {
            Seq::empty()
        }) + atom_text(atoms[n - 1])
    }
}

/// A rule as text: `p(X), q(X) => r(X)`.
pub open spec fn rule_text(r: (Seq<AtomV>, AtomV)) -> Seq<char> {
    atoms_text(r.0, r.0.len()) + seq![' ', '=', '>', ' '] + atom_text(r.1)
}

/// Appends the text of `a` to `out`.
pub fn push_atom(out: &mut String, a: &Atom)
    ensures
        final(out)@ == old(out)@ + atom_text(a@),
{
    proof {
        reveal_strlit("(");
        reveal_strlit(")");
        reveal_strlit(", ");
    }
    let ghost start = out@;
    let ghost args = a@.1;
    out.append(a.predicate.as_str());
    out.append("(");
    let mut j: usize = 0;
    while j < a.arguments.len()
        invariant
            args == a@.1,
            j <= args.len(),
            out@ == start + a.predicate@ + seq!['('] + terms_text(args, j as nat),
        decreases args.len() - j,
    {
        proof {
            reveal_strlit(", ");
        }
        let ghost before = out@;
        if j > 0 {
            out.append(", ");
        }
        let name = match &a.arguments[j] {
            Term::Constant(s) => s,
            Term::Variable(s) => s,
        };
        assert(name@ == term_name(args[j as int]));
        out.append(name.as_str());
        assert(terms_text(args, (j + 1) as nat) == terms_text(args, j as nat) + (if j + 1 > 1 {
            seq![',', ' ']
        } else {
            Seq::empty()
        }) + term_name(args[j as int]));
        if j > 0 {
            assert(out@ =~= before + seq![',', ' '] + name@);
        } else {
            assert(out@ =~= before + name@);
        }
        assert(out@ =~= start + a.predicate@ + seq!['('] + terms_text(args, (j + 1) as nat));
        j = j + 1;
    }
    out.append(")");
    assert(out@ =~= start + atom_text(a@));
}

/// Appends the text of `r` to `out`.
pub fn push_rule(out: &mut String, r: &Rule)
    ensures
        final(out)@ == old(out)@ + rule_text(rule_view(*r)),
{
    proof {
        reveal_strlit(", ");
        reveal_strlit(" => ");
    }
    let ghost start = out@;
    let ghost ps = rule_view(*r).0;
    let mut i: usize = 0;
    while i < r.premises.len()
        invariant
            ps == rule_view(*r).0,
            i <= ps.len(),
            out@ == start + atoms_text(ps, i as nat),
        decreases ps.len() - i,
    {
        proof {
            reveal_strlit(", ");
        }
        let ghost before = out@;
        if i > 0 {
            out.append(", ");
        }
        let ghost mid = out@;
        if i > 0 {
            assert(mid == before + seq![',', ' ']);
        } else {
            assert(mid == before);
        }
        push_atom(out, &r.premises[i]);
        assert(atoms_text(ps, (i + 1) as nat) == atoms_text(ps, i as nat) + (if i + 1 > 1 {
            seq![',', ' ']
        } else {
            Seq::empty()
        }) + atom_text(ps[i as int]));
        assert(r.premises@[i as int]@ == ps[i as int]);
        assert(out@ == mid + atom_text(ps[i as int]));
        assert(out@ =~= start + atoms_text(ps, (i + 1) as nat));
        i = i + 1;
    }
    out.append(" => ");
    push_atom(out, &r.conclusion);
    assert(out@ =~= start + rule_text(rule_view(*r)));
}

} // verus!

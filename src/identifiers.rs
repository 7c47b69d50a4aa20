use vstd::prelude::*;
use crate::ast::Identifier;

verus! {

/// A name was looked up by an identifier that this interner never handed out.
#[derive(Clone, Copy, Debug, PartialEq, Eq, Structural)]
pub struct UnknownIdentifier;

/// A two-way table between names and identifiers. Identifier `k` stands for
/// the `k`-th distinct name seen.
#[derive(Debug)]
pub struct IdentifierServer {
    names: Vec<String>,
}

impl IdentifierServer {
    /// The names, indexed by their identifiers.
    pub closed spec fn names(&self) -> Seq<Seq<char>> {
        self.names@.map_values(|s: String| s@)
    }

    /// No name has two identifiers.
    pub open spec fn wf(&self) -> bool {
        self.names().no_duplicates()
    }

    /// The number of names.
    pub fn len(&self) -> (r: usize)
        ensures
            r == self.names().len(),
    {
        self.names.len()
    }

    /// An empty table.
    pub fn new() -> (r: IdentifierServer)
        ensures
            r.names() == Seq::<Seq<char>>::empty(),
            r.wf(),
    {
        let r = IdentifierServer { names: Vec::new() };
        assert(r.names() =~= Seq::<Seq<char>>::empty());
        r
    }

    /// The identifier of `name`, if it has one.
    pub fn lookup(&self, name: &String) -> (r: Option<Identifier>)
        requires
            self.wf(),
        ensures
            match r {
                Some(k) => k < self.names().len() && self.names()[k as int] == name@,
                None => !self.names().contains(name@),
            },
    {
        let mut k: usize = 0;
        while k < self.names.len()
            invariant
                k <= self.names@.len(),
                forall|i: int| 0 <= i < k ==> self.names()[i] != name@,
            decreases self.names@.len() - k,
        {
            if self.names[k] == *name {
                return Some(k);
            }
            k = k + 1;
        }
        None
    }

    /// The identifier of `name`, which gets the next free one if it is new.
    pub fn intern(&mut self, name: &String) -> (r: Identifier)
        requires
            old(self).wf(),
        ensures
            final(self).wf(),
            r < final(self).names().len(),
            final(self).names()[r as int] == name@,
            old(self).names().contains(name@) ==> final(self).names() == old(self).names(),
            !old(self).names().contains(name@) ==> final(self).names() == old(self).names().push(
                name@,
            ),
    {
        match self.lookup(name) {
            Some(k) => k,
            None => {
                let k = self.names.len();
                self.names.push(name.clone());
                assert(self.names() =~= old(self).names().push(name@));
                k
            },
        }
    }

    /// The name that `id` stands for.
    pub fn resolve(&self, id: Identifier) -> (r: Result<String, UnknownIdentifier>)
        ensures
            match r {
                Ok(s) => id < self.names().len() && s@ == self.names()[id as int],
                Err(_) => id >= self.names().len(),
            },
    {
        if id < self.names.len() {
            Ok(self.names[id].clone())
        } else {
            Err(UnknownIdentifier)
        }
    }
}

} // verus!

use vstd::prelude::*;
use crate::grid::ipos;
use std::rc::Rc;

verus! {

/// One link of a persistent search path: the cell it covers, the character
/// read there, and a shared reference to the rest of the path back to the
/// origin.  Extending a path allocates one link and never touches the tail,
/// so paths that branch during backtracking share their common prefix.
pub struct PathComponent {
    pub position: (i32, i32),
    pub character: char,
    pub previous: Option<Rc<PathComponent>>,
}

/// Relies on Rc::clone: the clone shares the same pointed-to value.
#[verifier::external_body]
pub(crate) fn rc_clone(rc: &Rc<PathComponent>) -> (r: Rc<PathComponent>)
    ensures
        r == *rc,
{
    rc.clone()
}

/// Relies on String's FromIterator<char> implementation: collecting
/// characters yields the string holding exactly those characters in order.
#[verifier::external_body]
pub(crate) fn chars_to_string(v: &Vec<char>) -> (r: String)
    ensures
        r@ == v@,
{
    v.iter().collect()
}

impl PathComponent {
    /// The cells of the path, from the origin up to this link.
    pub open spec fn spec_positions(&self) -> Seq<(int, int)>
        decreases self,
    {
        match self.previous {
            Option::None => seq![ipos(self.position)],
            Option::Some(prev) => prev.spec_positions().push(ipos(self.position)),
        }
    }

    /// The characters of the path, from the origin up to this link.
    pub open spec fn spec_chars(&self) -> Seq<char>
        decreases self,
    {
        match self.previous {
            Option::None => seq![self.character],
            Option::Some(prev) => prev.spec_chars().push(self.character),
        }
    }

    /// A path always covers as many cells as characters, at least one.
    pub proof fn lemma_lens(&self)
        ensures
            self.spec_positions().len() == self.spec_chars().len(),
            self.spec_positions().len() >= 1,
        decreases *self,
    {
        match &self.previous {
            Option::None => {},
            Option::Some(prev) => prev.lemma_lens(),
        }
    }

    /// The entries of the path from this link back to the origin: each cell
    /// with the character read there, newest first.
    pub fn iter(&self) -> (r: Vec<((i32, i32), char)>)
        ensures
            r@.len() == self.spec_positions().len(),
            forall|k: int|
                0 <= k < r@.len() ==> ipos((#[trigger] r@[k]).0) == self.spec_positions()[r@.len()
                    - 1 - k] && r@[k].1 == self.spec_chars()[r@.len() - 1 - k],
    {
        proof {
            self.lemma_lens();
        }
        let mut r: Vec<((i32, i32), char)> = Vec::new();
        r.push((self.position, self.character));
        let mut cur: &PathComponent = self;
        loop
            invariant
                1 <= r@.len() <= self.spec_positions().len(),
                self.spec_positions().len() == self.spec_chars().len(),
                cur.spec_positions().len() == cur.spec_chars().len(),
                cur.spec_positions().len() == self.spec_positions().len() - r@.len() + 1,
                cur.spec_positions() == self.spec_positions().take(
                    cur.spec_positions().len() as int,
                ),
                cur.spec_chars() == self.spec_chars().take(cur.spec_positions().len() as int),
                forall|k: int|
                    0 <= k < r@.len() ==> ipos((#[trigger] r@[k]).0)
                        == self.spec_positions()[self.spec_positions().len() - 1 - k] && r@[k].1
                        == self.spec_chars()[self.spec_positions().len() - 1 - k],
            ensures
                r@.len() == self.spec_positions().len(),
                forall|k: int|
                    0 <= k < r@.len() ==> ipos((#[trigger] r@[k]).0)
                        == self.spec_positions()[self.spec_positions().len() - 1 - k] && r@[k].1
                        == self.spec_chars()[self.spec_positions().len() - 1 - k],
            decreases cur.spec_positions().len(),
        {
            match &cur.previous {
                Option::None => {
                    proof {
                        assert(cur.spec_positions().len() == 1);
                        assert(r@.len() == self.spec_positions().len());
                    }
                    break ;
                },
                Option::Some(p) => {
                    proof {
                        p.lemma_lens();
                        assert(cur.spec_positions() == p.spec_positions().push(
                            ipos(cur.position),
                        ));
                        assert(p.spec_positions() =~= self.spec_positions().take(
                            p.spec_positions().len() as int,
                        ));
                        assert(p.spec_chars() =~= self.spec_chars().take(
                            p.spec_chars().len() as int,
                        ));
                        assert(self.spec_positions()[p.spec_positions().len() as int - 1 + 1 - 1]
                            == p.spec_positions().last());
                    }
                    r.push((p.position, p.character));
                    proof {
                        assert(p.spec_positions().last() == ipos(p.position));
                        assert(p.spec_chars().last() == p.character);
                    }
                    cur = &**p;
                },
            }
        }
        r
    }

    /// A path ends at its own cell and character.
    pub proof fn lemma_ends(&self)
        ensures
            self.spec_positions().last() == ipos(self.position),
            self.spec_chars().last() == self.character,
    {
        self.lemma_lens();
    }

    /// The characters of the path as a vector, origin first.
    pub fn chars_vec(&self) -> (r: Vec<char>)
        ensures
            r@ == self.spec_chars(),
    {
        proof {
            self.lemma_lens();
        }
        let entries = self.iter();
        let mut chars: Vec<char> = Vec::new();
        let n = entries.len();
        let mut k: usize = n;
        while k > 0
            invariant
                0 <= k <= n,
                n == entries@.len(),
                entries@.len() == self.spec_chars().len(),
                forall|i: int|
                    0 <= i < entries@.len() ==> (#[trigger] entries@[i]).1 == self.spec_chars()[
                        entries@.len() - 1 - i],
                chars@.len() == n - k,
                forall|i: int| 0 <= i < chars@.len() ==> #[trigger] chars@[i]
                    == self.spec_chars()[i],
            decreases k,
        {
            k = k - 1;
            chars.push(entries[k].1);
        }
        proof {
            assert(chars@ =~= self.spec_chars());
        }
        chars
    }

    /// The accumulated string: the characters of the path, origin first.
    pub fn characters_so_far(&self) -> (r: String)
        ensures
            r@ == self.spec_chars(),
    {
        let chars = self.chars_vec();
        chars_to_string(&chars)
    }

    /// The cells of the path, this link first, back to the origin.
    pub fn positions_so_far(&self) -> (r: Vec<(i32, i32)>)
        ensures
            r@.len() == self.spec_positions().len(),
            forall|k: int|
                0 <= k < r@.len() ==> ipos(#[trigger] r@[k]) == self.spec_positions()[r@.len() - 1
                    - k],
    {
        let entries = self.iter();
        let mut r: Vec<(i32, i32)> = Vec::new();
        let mut k: usize = 0;
        while k < entries.len()
            invariant
                0 <= k <= entries@.len(),
                entries@.len() == self.spec_positions().len(),
                forall|i: int|
                    0 <= i < entries@.len() ==> ipos((#[trigger] entries@[i]).0)
                        == self.spec_positions()[entries@.len() - 1 - i],
                r@.len() == k,
                forall|i: int|
                    0 <= i < r@.len() ==> ipos(#[trigger] r@[i]) == self.spec_positions()[
                        entries@.len() - 1 - i],
            decreases entries@.len() - k,
        {
            r.push(entries[k].0);
            k = k + 1;
        }
        r
    }
}

/// Extend a path by one cell: a single allocation that shares the whole
/// tail with the parent path.
pub fn extend(parent: &Rc<PathComponent>, position: (i32, i32), character: char) -> (r: Rc<
    PathComponent,
>)
    ensures
        r.spec_positions() == parent.spec_positions().push(ipos(position)),
        r.spec_chars() == parent.spec_chars().push(character),
{
    Rc::new(
        PathComponent { position, character, previous: Option::Some(rc_clone(parent)) },
    )
}

} // verus!

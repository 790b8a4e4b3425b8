//! Server-relative path values.
//!
//! A remote path is a sequence of components; a component is a non-empty
//! string that contains no separator. The textual form joins the components
//! with `/`.

use vstd::prelude::*;

verus! {

/// A single path component: non-empty, and free of the `/` separator.
pub open spec fn wf_component(c: Seq<char>) -> bool {
    &&& c.len() > 0
    &&& forall|i: int| 0 <= i < c.len() ==> c[i] != '/'
}

/// Every component of the path is well formed.
pub open spec fn wf_path(p: Seq<Seq<char>>) -> bool {
    forall|i: int| 0 <= i < p.len() ==> wf_component(#[trigger] p[i])
}

/// The textual form of a path: components joined with `/`.
pub open spec fn joined(p: Seq<Seq<char>>) -> Seq<char>
    decreases p.len(),
{
    if p.len() == 0 {
        Seq::empty()
    } else if p.len() == 1 {
        p[0]
    } else {
        joined(p.drop_last()) + seq!['/'] + p.last()
    }
}

/// A server-relative path, kept as its components.
pub struct RPath {
    pub parts: Vec<String>,
}

impl View for RPath {
    type V = Seq<Seq<char>>;

    open spec fn view(&self) -> Seq<Seq<char>> {
        self.parts.deep_view()
    }
}

impl RPath {
    /// The empty path (no components).
    pub fn empty() -> (r: RPath)
        ensures
            r@ == Seq::<Seq<char>>::empty(),
    {
        let r = RPath { parts: Vec::new() };
        proof {
            assert(r@ =~= Seq::<Seq<char>>::empty());
        }
        r
    }

    pub fn len(&self) -> (n: usize)
        ensures
            n == self@.len(),
    {
        self.parts.len()
    }

    /// Append one component at the end.
    pub fn push_part(&mut self, c: String)
        ensures
            final(self)@ == old(self)@.push(c@),
    {
        self.parts.push(c);
        proof {
            assert(self@ =~= old(self)@.push(c@));
        }
    }

    /// An identical copy of the path.
    pub fn duplicate(&self) -> (r: RPath)
        ensures
            r@ == self@,
    {
        let mut parts: Vec<String> = Vec::new();
        let mut i: usize = 0;
        while i < self.parts.len()
            invariant
                i <= self.parts.len(),
                parts.deep_view() =~= self@.take(i as int),
            decreases self.parts.len() - i,
        {
            let ghost before = parts.deep_view();
            parts.push(self.parts[i].clone());
            proof {
                assert(parts@.len() == before.len() + 1);
                assert forall|j: int| 0 <= j < parts@.len() implies parts.deep_view()[j]
                    == self@.take(i + 1 as int)[j] by {
                    if j < i {
                        assert(parts.deep_view()[j] == before[j]);
                    } else {
                        assert(parts.deep_view()[j] == parts@[j]@);
                    }
                }
                assert(parts.deep_view() =~= self@.take(i + 1 as int));
            }
            i = i + 1;
        }
        proof {
            assert(self@.take(self@.len() as int) =~= self@);
        }
        RPath { parts }
    }

    /// The path extended by the components of `other`.
    pub fn join(&self, other: &RPath) -> (r: RPath)
        ensures
            r@ == self@ + other@,
    {
        let mut r = self.duplicate();
        let mut i: usize = 0;
        while i < other.parts.len()
            invariant
                i <= other.parts.len(),
                r@ =~= self@ + other@.take(i as int),
            decreases other.parts.len() - i,
        {
            r.push_part(other.parts[i].clone());
            proof {
                assert(self@ + other@.take(i as int + 1) =~= (self@ + other@.take(
                    i as int,
                )).push(other@[i as int]));
            }
            i = i + 1;
        }
        proof {
            assert(self@ + other@.take(other@.len() as int) =~= self@ + other@);
        }
        r
    }

    /// The path extended by one component.
    pub fn child(&self, c: String) -> (r: RPath)
        ensures
            r@ == self@.push(c@),
    {
        let mut r = self.duplicate();
        r.push_part(c);
        r
    }

    /// The first `n` components.
    pub fn prefix(&self, n: usize) -> (r: RPath)
        requires
            n <= self@.len(),
        ensures
            r@ == self@.take(n as int),
    {
        let mut parts: Vec<String> = Vec::new();
        let mut i: usize = 0;
        while i < n
            invariant
                i <= n <= self.parts.len(),
                parts.deep_view() =~= self@.take(i as int),
            decreases n - i,
        {
            let ghost before = parts.deep_view();
            let ghost bv = parts@;
            proof {
                assert(before.len() == i);
                assert(bv.len() == i);
            }
            parts.push(self.parts[i].clone());
            proof {
                assert(parts@ == bv.push(parts@[i as int]));
                assert forall|j: int| 0 <= j < parts@.len() implies parts.deep_view()[j]
                    == self@.take(i + 1 as int)[j] by {
                    assert(parts.deep_view()[j] == parts@[j]@);
                    if j < i {
                        assert(parts@[j] == bv[j]);
                        assert(bv[j]@ == before[j]);
                    }
                }
                assert(parts.deep_view() =~= self@.take(i + 1 as int));
            }
            i = i + 1;
        }
        RPath { parts }
    }

    /// Component-wise equality; the views agree exactly when this returns true.
    pub fn same_as(&self, other: &RPath) -> (r: bool)
        ensures
            r == (self@ == other@),
    {
        if self.parts.len() != other.parts.len() {
            proof {
                assert(self@.len() != other@.len());
            }
            return false;
        }
        let mut i: usize = 0;
        while i < self.parts.len()
            invariant
                i <= self.parts.len(),
                self@.len() == other@.len(),
                forall|j: int| 0 <= j < i ==> self@[j] == other@[j],
            decreases self.parts.len() - i,
        {
            if !(self.parts[i] == other.parts[i]) {
                proof {
                    assert(self@[i as int] != other@[i as int]);
                }
                return false;
            }
            i = i + 1;
        }
        proof {
            assert(self@ =~= other@);
        }
        true
    }

    /// The textual form, components joined with `/`.
    pub fn to_display(&self) -> (r: String)
        ensures
            r@ == joined(self@),
    {
        let mut r = String::new();
        let mut i: usize = 0;
        while i < self.parts.len()
            invariant
                i <= self.parts.len(),
                r@ =~= joined(self@.take(i as int)),
            decreases self.parts.len() - i,
        {
            if i > 0 {
                r.append("/");
            }
            r.append(self.parts[i].as_str());
            proof {
                reveal_strlit("/");
                assert("/"@ =~= seq!['/']);
                let t = self@.take(i + 1 as int);
                assert(t.drop_last() =~= self@.take(i as int));
                assert(t.last() == self@[i as int]);
                if i == 0 {
                    assert(joined(t) == self@[0]);
                    assert(r@ =~= joined(t));
                } else {
                    assert(joined(t) == joined(self@.take(i as int)) + seq!['/'] + self@[i as int]);
                    assert(r@ =~= joined(t));
                }
            }
            i = i + 1;
        }
        proof {
            assert(self@.take(self@.len() as int) =~= self@);
        }
        r
    }
}

/// `p` is a (not necessarily proper) leading prefix of `q`.
pub open spec fn is_prefix_of(p: Seq<Seq<char>>, q: Seq<Seq<char>>) -> bool {
    p.len() <= q.len() && q.take(p.len() as int) == p
}

} // verus!

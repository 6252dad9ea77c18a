//! The used-flags set: every short and long flag already claimed by a
//! registered option. Owned by the option index; grows monotonically.
use vstd::prelude::*;
use crate::strings::str_eq;

verus! {

/// A set of flag strings, abstracted as a `Set` of character sequences.
pub struct FlagSet {
    items: Vec<String>,
}

impl View for FlagSet {
    type V = Set<Seq<char>>;

    closed spec fn view(&self) -> Set<Seq<char>> {
        self.items@.map_values(|s: String| s@).to_set()
    }
}

/// Membership in the abstraction is membership of some stored string's view.
proof fn lemma_view_contains(s: Seq<String>, f: Seq<char>)
    ensures
        s.map_values(|x: String| x@).to_set().contains(f) <==> (exists|i: int|
            0 <= i < s.len() && s[i]@ == f),
{
    let m = s.map_values(|x: String| x@);
    if m.contains(f) {
        let i = choose|i: int| 0 <= i < m.len() && m[i] == f;
        assert(s[i]@ == f);
    }
    if exists|i: int| 0 <= i < s.len() && s[i]@ == f {
        let i = choose|i: int| 0 <= i < s.len() && s[i]@ == f;
        assert(m[i] == f);
    }
}

impl FlagSet {
    /// The empty set of flags.
    pub fn new() -> (r: Self)
        ensures
            r@ == Set::<Seq<char>>::empty(),
    {
        let r = FlagSet { items: Vec::new() };
        proof {
            assert(r@ =~= Set::<Seq<char>>::empty()) by {
                assert forall|f: Seq<char>| !r@.contains(f) by {
                    lemma_view_contains(r.items@, f);
                }
            }
        }
        r
    }

    /// True when `flag` has already been claimed.
    pub fn contains(&self, flag: &str) -> (r: bool)
        ensures
            r == self@.contains(flag@),
    {
        let n = self.items.len();
        let mut i: usize = 0;
        while i < n
            invariant
                i <= n,
                n == self.items@.len(),
                forall|j: int| 0 <= j < i ==> self.items@[j]@ != flag@,
            decreases n - i,
        {
            if str_eq(self.items[i].as_str(), flag) {
                proof {
                    lemma_view_contains(self.items@, flag@);
                }
                return true;
            }
            i += 1;
        }
        proof {
            lemma_view_contains(self.items@, flag@);
        }
        false
    }

    /// Claims `flag`. The abstraction grows by exactly that string.
    pub fn insert(&mut self, flag: &str)
        ensures
            final(self)@ == old(self)@.insert(flag@),
    {
        self.items.push(flag.to_owned());
        proof {
            assert(self@ =~= old(self)@.insert(flag@)) by {
                assert forall|f: Seq<char>|
                    self@.contains(f) <==> old(self)@.insert(flag@).contains(f) by {
                    lemma_view_contains(self.items@, f);
                    lemma_view_contains(old(self).items@, f);
                    if f != flag@ && self@.contains(f) {
                        let i = choose|i: int|
                            0 <= i < self.items@.len() && self.items@[i]@ == f;
                        assert(old(self).items@[i]@ == f);
                    }
                    if old(self)@.contains(f) {
                        let i = choose|i: int|
                            0 <= i < old(self).items@.len() && old(self).items@[i]@ == f;
                        assert(self.items@[i]@ == f);
                    }
                    if f == flag@ {
                        assert(self.items@[old(self).items@.len() as int]@ == f);
                    }
                }
            }
        }
    }
}

} // verus!

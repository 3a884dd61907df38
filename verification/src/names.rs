//! Sets of names.

use vstd::prelude::*;

use crate::text::{same, texts};

verus! {

/// A set of texts.
pub struct Names {
    items: Vec<String>,
}

impl View for Names {
    type V = Set<Seq<char>>;

    closed spec fn view(&self) -> Set<Seq<char>> {
        texts(self.items@).to_set()
    }
}

impl Names {
    /// The empty set.
    pub fn new() -> (r: Self)
        ensures
            r@ == Set::<Seq<char>>::empty(),
    {
        let r = Names { items: Vec::new() };
        assert(r@ =~= Set::<Seq<char>>::empty());
        r
    }

    /// Whether `name` is in the set.
    pub fn contains(&self, name: &str) -> (r: bool)
        ensures
            r == self@.contains(name@),
    {
        let ghost all = texts(self.items@);
        let mut i: usize = 0;
        while i < self.items.len()
            invariant
                i <= self.items@.len(),
                all == texts(self.items@),
                forall|k: int| 0 <= k < i ==> #[trigger] all[k] != name@,
            decreases self.items@.len() - i,
        {
            assert(all[i as int] == self.items@[i as int]@);
            if same(self.items[i].as_str(), name) {
                assert(all.contains(name@));
                return true;
            }
            i = i + 1;
        }
        assert(!all.contains(name@));
        false
    }

    /// Adds a name.
    pub fn insert(&mut self, name: &str)
        ensures
            final(self)@ == old(self)@.insert(name@),
    {
        if self.contains(name) {
            assert(self@ =~= old(self)@.insert(name@));
            return;
        }
        let ghost a = texts(self.items@);
        self.items.push(name.to_owned());
        proof {
            let b = texts(self.items@);
            assert(b =~= a.push(name@));
            assert forall|x: Seq<char>| #[trigger] b.to_set().contains(x) == (a.to_set().contains(x) || x == name@) by {
                if a.contains(x) {
                    let k = choose|k: int| 0 <= k < a.len() && a[k] == x;
                    assert(b[k] == x);
                }
                if x == name@ {
                    assert(b[a.len() as int] == x);
                }
                if b.contains(x) {
                    let k = choose|k: int| 0 <= k < b.len() && b[k] == x;
                    if k < a.len() {
                        assert(a[k] == x);
                    }
                }
            }
            assert(self@ =~= old(self)@.insert(name@));
        }
    }

    /// Takes a name out.
    pub fn remove(&mut self, name: &str)
        ensures
            final(self)@ == old(self)@.remove(name@),
    {
        let ghost a = texts(self.items@);
        let mut out: Vec<String> = Vec::new();
        let mut i: usize = 0;
        while i < self.items.len()
            invariant
                i <= self.items@.len(),
                a == texts(self.items@),
                forall|x: Seq<char>| #[trigger]
                    texts(out@).contains(x) == (a.take(i as int).contains(x) && x != name@),
            decreases self.items@.len() - i,
        {
            let ghost before = texts(out@);
            let ghost t = a[i as int];
            assert(t == self.items@[i as int]@);
            let keep = !same(self.items[i].as_str(), name);
            if keep {
                out.push(self.items[i].clone());
                assert(texts(out@) =~= before.push(t));
            }
            proof {
                let p = a.take(i as int);
                let q = a.take(i as int + 1);
                assert(q =~= p.push(t));
                assert forall|x: Seq<char>| #[trigger] texts(out@).contains(x) == (q.contains(x) && x != name@) by {
                    if p.contains(x) {
                        let k = choose|k: int| 0 <= k < p.len() && p[k] == x;
                        assert(q[k] == x);
                    }
                    if q.contains(x) {
                        let k = choose|k: int| 0 <= k < q.len() && q[k] == x;
                        if k < i {
                            assert(p[k] == x);
                        }
                    }
                    assert(q[i as int] == t);
                    if keep {
                        let n = texts(out@);
                        if before.contains(x) {
                            let k = choose|k: int| 0 <= k < before.len() && before[k] == x;
                            assert(n[k] == x);
                        }
                        assert(n[before.len() as int] == t);
                        if n.contains(x) {
                            let k = choose|k: int| 0 <= k < n.len() && n[k] == x;
                            if k < before.len() {
                                assert(before[k] == x);
                            }
                        }
                    }
                }
            }
            i = i + 1;
        }
        assert(a.take(i as int) =~= a);
        self.items = out;
        assert forall|x: Seq<char>| self@.contains(x) == old(self)@.remove(name@).contains(x) by {
            assert(texts(self.items@).contains(x) == (a.contains(x) && x != name@));
        }
        assert(self@ =~= old(self)@.remove(name@));
    }

    /// Takes a name out if it is in, else adds it.
    pub fn toggle(&mut self, name: &str)
        ensures
            final(self)@ == toggled(old(self)@, name@),
    {
        if self.contains(name) {
            self.remove(name);
        } else {
            self.insert(name);
        }
    }
}

/// With a name taken out if it was in, else added.
pub open spec fn toggled(s: Set<Seq<char>>, name: Seq<char>) -> Set<Seq<char>> {
    if s.contains(name) {
        s.remove(name)
    } else {
        s.insert(name)
    }
}

/// Toggling puts a name in that was out and takes one out that was in; every other name
/// stays as it was.
pub proof fn law_toggling_turns_one_name(s: Set<Seq<char>>, name: Seq<char>, other: Seq<char>)
    ensures
        toggled(s, name).contains(name) == !s.contains(name),
        other != name ==> toggled(s, name).contains(other) == s.contains(other),
        toggled(toggled(s, name), name) == s,
{
    assert(toggled(toggled(s, name), name) =~= s);
}

} // verus!

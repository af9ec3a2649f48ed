//! Output names: their order, and sets of them.

use crate::text::{same_text, strings_view, suffix};
use vstd::prelude::*;

verus! {

/// The order of names: that of the first characters in which they differ, and a
/// name comes before its continuations.
pub open spec fn name_before(a: Seq<char>, b: Seq<char>) -> bool
    decreases a.len(),
{
    if b.len() == 0 {
        false
    } else if a.len() == 0 {
        true
    } else if a[0] != b[0] {
        a[0] < b[0]
    } else {
        name_before(a.drop_first(), b.drop_first())
    }
}

/// No name comes before itself.
pub proof fn lemma_before_irreflexive(a: Seq<char>)
    ensures
        !name_before(a, a),
    decreases a.len(),
{
    if a.len() > 0 {
        lemma_before_irreflexive(a.drop_first());
    }
}

/// The order of names is transitive.
pub proof fn lemma_before_transitive(a: Seq<char>, b: Seq<char>, c: Seq<char>)
    requires
        name_before(a, b),
        name_before(b, c),
    ensures
        name_before(a, c),
    decreases a.len(),
{
    if a.len() > 0 && a[0] == b[0] && b[0] == c[0] {
        lemma_before_transitive(a.drop_first(), b.drop_first(), c.drop_first());
    }
}

/// Of two different names one comes before the other.
pub proof fn lemma_before_total(a: Seq<char>, b: Seq<char>)
    requires
        a != b,
    ensures
        name_before(a, b) || name_before(b, a),
    decreases a.len(),
{
    if a.len() > 0 && b.len() > 0 && a[0] == b[0] {
        if a.drop_first() == b.drop_first() {
            assert(a =~= seq![a[0]] + a.drop_first());
            assert(b =~= seq![b[0]] + b.drop_first());
        } else {
            lemma_before_total(a.drop_first(), b.drop_first());
        }
    } else if a.len() == 0 && b.len() == 0 {
        assert(a =~= b);
    }
}

/// Tests whether name `a` comes before name `b`.
pub fn is_before(a: &str, b: &str) -> (before: bool)
    ensures
        before == name_before(a@, b@),
{
    let mut left: &str = a;
    let mut right: &str = b;
    while !left.is_empty() && !right.is_empty()
        invariant
            name_before(left@, right@) == name_before(a@, b@),
        decreases left@.len(),
    {
        let x = left.get_char(0);
        let y = right.get_char(0);
        if x != y {
            return x < y;
        }
        assert(left@.skip(1) =~= left@.drop_first());
        assert(right@.skip(1) =~= right@.drop_first());
        left = suffix(left, 1);
        right = suffix(right, 1);
    }
    !right.is_empty()
}

/// A set of output names.
#[derive(Debug)]
pub struct NameSet {
    names: Vec<String>,
}

impl View for NameSet {
    type V = Set<Seq<char>>;

    closed spec fn view(&self) -> Set<Seq<char>> {
        strings_view(self.names@).to_set()
    }
}

impl NameSet {
    /// No name is held twice.
    pub closed spec fn wf(self) -> bool {
        strings_view(self.names@).no_duplicates()
    }

    /// The empty set.
    pub fn new() -> (set: NameSet)
        ensures
            set.wf(),
            set@ == Set::<Seq<char>>::empty(),
    {
        let set = NameSet { names: Vec::new() };
        assert(set@ =~= Set::<Seq<char>>::empty());
        set
    }

    /// Tests whether `name` is in the set.
    pub fn contains(&self, name: &str) -> (b: bool)
        ensures
            b == self@.contains(name@),
    {
        let ghost held = strings_view(self.names@);
        let mut i: usize = 0;
        while i < self.names.len()
            invariant
                i <= self.names@.len(),
                held == strings_view(self.names@),
                forall|k: int| 0 <= k < i ==> #[trigger] held[k] != name@,
            decreases self.names.len() - i,
        {
            assert(held[i as int] == self.names@[i as int]@);
            if same_text(self.names[i].as_str(), name) {
                return true;
            }
            i += 1;
        }
        false
    }

    /// Adds `name` to the set.
    pub fn insert(&mut self, name: &str)
        requires
            old(self).wf(),
        ensures
            final(self).wf(),
            final(self)@ == old(self)@.insert(name@),
    {
        let ghost before = strings_view(self.names@);
        if !self.contains(name) {
            self.names.push(name.to_owned());
            let ghost after = strings_view(self.names@);
            assert(after =~= before.push(name@));
            assert forall|k: Seq<char>| #[trigger]
                after.contains(k) == (before.contains(k) || k == name@) by {
                if before.contains(k) {
                    let i = choose|i: int| 0 <= i < before.len() && before[i] == k;
                    assert(after[i] == k);
                }
                if k == name@ {
                    assert(after[before.len() as int] == k);
                }
            }
        }
        assert(self@ =~= old(self)@.insert(name@));
    }

    /// The number of names in the set.
    pub fn len(&self) -> (n: usize)
        requires
            self.wf(),
        ensures
            n == self@.len(),
    {
        proof {
            strings_view(self.names@).unique_seq_to_set();
        }
        self.names.len()
    }

    /// The names that are in this set and not in `other`, each once.
    pub fn difference(&self, other: &NameSet) -> (list: Vec<String>)
        requires
            self.wf(),
        ensures
            strings_view(list@).no_duplicates(),
            strings_view(list@).to_set() == self@.difference(other@),
    {
        let mut list: Vec<String> = Vec::new();
        let ghost held = strings_view(self.names@);
        let mut i: usize = 0;
        while i < self.names.len()
            invariant
                i <= self.names@.len(),
                held == strings_view(self.names@),
                held.no_duplicates(),
                strings_view(list@).no_duplicates(),
                forall|k: Seq<char>| #[trigger]
                    strings_view(list@).contains(k) <==> held.take(i as int).contains(k)
                        && !other@.contains(k),
            decreases self.names.len() - i,
        {
            let ghost before = strings_view(list@);
            let ghost name = self.names@[i as int]@;
            proof {
                assert(held[i as int] == name);
                assert(!held.take(i as int).contains(name)) by {
                    if held.take(i as int).contains(name) {
                        let k = choose|k: int| 0 <= k < i && held.take(i as int)[k] == name;
                        assert(held[k] == held[i as int]);
                    }
                }
                assert forall|k: Seq<char>| #[trigger]
                    held.take(i + 1).contains(k) == (held.take(i as int).contains(k) || k
                        == name) by {
                    assert(held.take(i + 1) =~= held.take(i as int).push(name));
                    if held.take(i as int).contains(k) {
                        let j = choose|j: int| 0 <= j < i && held.take(i as int)[j] == k;
                        assert(held.take(i + 1)[j] == k);
                    }
                    if k == name {
                        assert(held.take(i + 1)[i as int] == k);
                    }
                }
            }
            if !other.contains(self.names[i].as_str()) {
                list.push(self.names[i].clone());
                let ghost after = strings_view(list@);
                assert(after =~= before.push(name));
                assert forall|k: Seq<char>| #[trigger]
                    after.contains(k) == (before.contains(k) || k == name) by {
                    if before.contains(k) {
                        let j = choose|j: int| 0 <= j < before.len() && before[j] == k;
                        assert(after[j] == k);
                    }
                    if k == name {
                        assert(after[before.len() as int] == k);
                    }
                }
                assert(!before.contains(name));
                assert(after.no_duplicates());
            }
            i += 1;
        }
        assert(held.take(i as int) =~= held);
        assert(strings_view(list@).to_set() =~= self@.difference(other@));
        list
    }
}

/// Names are ordered by the first characters in which they differ: after a
/// common beginning, a smaller character comes before a greater one, and the end
/// before any.
pub proof fn law_first_difference_decides(common: Seq<char>, a: Seq<char>, b: Seq<char>)
    requires
        b.len() > 0,
        a.len() == 0 || a[0] < b[0],
    ensures
        name_before(common + a, common + b),
        !name_before(common + b, common + a),
    decreases common.len(),
{
    if common.len() == 0 {
        assert(common + a =~= a);
        assert(common + b =~= b);
    } else {
        let rest = common.drop_first();
        law_first_difference_decides(rest, a, b);
        assert((common + a).drop_first() =~= rest + a);
        assert((common + b).drop_first() =~= rest + b);
    }
}

} // verus!

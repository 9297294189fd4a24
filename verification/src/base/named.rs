//! Values by name, kept in name order.
use crate::base::text;
use crate::base::value::Real;
use vstd::prelude::*;

verus! {

/// A map from names to values whose entries stand in name order.
#[derive(Debug, PartialEq)]
pub struct NamedValues {
    pub entries: Vec<(String, Real)>,
}

impl NamedValues {
    /// Entries stand in strictly ascending name order, so no name occurs twice.
    pub open spec fn wf(self) -> bool {
        forall|i: int, j: int|
            0 <= i < j < self.entries@.len() ==> #[trigger] text::text_before(
                self.entries@[i].0@,
                self.entries@[j].0@,
            )
    }

    /// Whether `name` has a value.
    pub open spec fn has(self, name: Seq<char>) -> bool {
        has_entry(self.entries@, name)
    }

    /// Where `name` stands, if it has a value.
    pub open spec fn position(self, name: Seq<char>) -> int {
        entry_position(self.entries@, name)
    }
}

/// Whether an entry carries `name`.
pub open spec fn has_entry(entries: Seq<(String, Real)>, name: Seq<char>) -> bool {
    exists|i: int| 0 <= i < entries.len() && #[trigger] entries[i].0@ == name
}

/// The position of an entry that carries `name`.
pub open spec fn entry_position(entries: Seq<(String, Real)>, name: Seq<char>) -> int {
    choose|i: int| 0 <= i < entries.len() && #[trigger] entries[i].0@ == name
}

impl View for NamedValues {
    type V = Map<Seq<char>, Real>;

    open spec fn view(&self) -> Map<Seq<char>, Real> {
        Map::new(|name: Seq<char>| self.has(name), |name: Seq<char>| self.entries@[self.position(name)].1)
    }
}

/// In a well-formed map the entry at `i` is the value of its name.
pub proof fn lemma_entry_is_value(m: NamedValues, i: int)
    requires
        m.wf(),
        0 <= i < m.entries@.len(),
    ensures
        m@.contains_key(m.entries@[i].0@),
        m@[m.entries@[i].0@] == m.entries@[i].1,
        m.position(m.entries@[i].0@) == i,
{
    let name = m.entries@[i].0@;
    assert(m.has(name));
    let p = m.position(name);
    if p < i {
        assert(text::text_before(m.entries@[p].0@, m.entries@[i].0@));
        text::lemma_text_before_strict(name, name);
    } else if i < p {
        assert(text::text_before(m.entries@[i].0@, m.entries@[p].0@));
        text::lemma_text_before_strict(name, name);
    }
}

impl NamedValues {
    /// The empty map.
    pub fn new() -> (m: NamedValues)
        ensures
            m.wf(),
            m@ == Map::<Seq<char>, Real>::empty(),
            m.entries@.len() == 0,
    {
        let m = NamedValues { entries: Vec::new() };
        assert(m@ =~= Map::<Seq<char>, Real>::empty());
        m
    }

    /// How many names have a value.
    pub fn len(&self) -> (n: usize)
        ensures
            n == self.entries@.len(),
    {
        self.entries.len()
    }

    /// The first position whose name does not come before `name`.
    fn slot(&self, name: &str) -> (k: usize)
        requires
            self.wf(),
        ensures
            k <= self.entries@.len(),
            forall|i: int| 0 <= i < k ==> text::text_before(#[trigger] self.entries@[i].0@, name@),
            k < self.entries@.len() ==> !text::text_before(self.entries@[k as int].0@, name@),
    {
        let mut k: usize = 0;
        while k < self.entries.len() && text::comes_before(self.entries[k].0.as_str(), name)
            invariant
                k <= self.entries@.len(),
                forall|i: int|
                    0 <= i < k ==> text::text_before(#[trigger] self.entries@[i].0@, name@),
            decreases self.entries.len() - k,
        {
            k = k + 1;
        }
        k
    }

    /// The value of `name`.
    pub fn get(&self, name: &str) -> (r: Option<Real>)
        requires
            self.wf(),
        ensures
            r == (if self@.contains_key(name@) {
                Some(self@[name@])
            } else {
                None
            }),
    {
        let k: usize = self.slot(name);
        if k < self.entries.len() && text::same(self.entries[k].0.as_str(), name) {
            proof {
                lemma_entry_is_value(*self, k as int);
            }
            return Some(self.entries[k].1);
        }
        proof {
            if self.has(name@) {
                let p = self.position(name@);
                text::lemma_text_before_strict(name@, name@);
                assert(k <= p);
                text::lemma_text_before_total(self.entries@[k as int].0@, name@);
                if k < p {
                    assert(text::text_before(self.entries@[k as int].0@, self.entries@[p].0@));
                }
            }
        }
        None
    }

    /// Sets the value of `name`, replacing an earlier one.
    pub fn insert(&mut self, name: String, value: Real)
        requires
            old(self).wf(),
        ensures
            final(self).wf(),
            final(self)@ == old(self)@.insert(name@, value),
    {
        let k: usize = self.slot(name.as_str());
        let ghost before = *self;
        if k < self.entries.len() && text::same(self.entries[k].0.as_str(), name.as_str()) {
            self.entries.set(k, (name, value));
            proof {
                assert(forall|i: int|
                    0 <= i < self.entries@.len() ==> self.entries@[i].0@
                        == before.entries@[i].0@);
                assert(self.wf()) by {
                    assert forall|i: int, j: int|
                        0 <= i < j < self.entries@.len() implies #[trigger] text::text_before(
                        self.entries@[i].0@,
                        self.entries@[j].0@,
                    ) by {
                        assert(text::text_before(before.entries@[i].0@, before.entries@[j].0@));
                    }
                }
                lemma_replaced(before, *self, k as int);
            }
        } else {
            self.entries.insert(k, (name, value));
            proof {
                lemma_inserted(before, *self, k as int);
            }
        }
    }

    /// A copy.
    pub fn clone(&self) -> (r: NamedValues)
        ensures
            r@ == self@,
            self.wf() ==> r.wf(),
            r.entries@.len() == self.entries@.len(),
    {
        let mut entries: Vec<(String, Real)> = Vec::new();
        let mut i: usize = 0;
        while i < self.entries.len()
            invariant
                i <= self.entries.len(),
                entries@ == self.entries@.take(i as int),
            decreases self.entries.len() - i,
        {
            entries.push((self.entries[i].0.clone(), self.entries[i].1));
            assert(self.entries@.take(i + 1) == self.entries@.take(i as int).push(self.entries@[i as int]));
            i = i + 1;
        }
        let r = NamedValues { entries };
        assert(self.entries@.take(self.entries@.len() as int) == self.entries@);
        assert(r@ =~= self@);
        r
    }
}

proof fn lemma_replaced(a: NamedValues, b: NamedValues, k: int)
    requires
        a.wf(),
        b.wf(),
        0 <= k < a.entries@.len(),
        b.entries@.len() == a.entries@.len(),
        b.entries@[k].0@ == a.entries@[k].0@,
        forall|i: int| 0 <= i < a.entries@.len() && i != k ==> b.entries@[i] == a.entries@[i],
    ensures
        b@ == a@.insert(a.entries@[k].0@, b.entries@[k].1),
{
    let key = a.entries@[k].0@;
    assert forall|name: Seq<char>| b.has(name) == (a.has(name) || name == key) by {
        if b.has(name) {
            let p = b.position(name);
            assert(a.entries@[p].0@ == name);
        }
        if a.has(name) {
            let p = a.position(name);
            assert(b.entries@[p].0@ == name);
        }
        if name == key {
            assert(b.entries@[k].0@ == name);
        }
    }
    assert forall|name: Seq<char>| b.has(name) implies b@[name] == a@.insert(key, b.entries@[k].1)[name] by {
        let p = b.position(name);
        lemma_entry_is_value(b, p);
        lemma_entry_is_value(a, p);
        lemma_entry_is_value(a, k);
        assert(a.entries@[p].0@ == name);
    }
    assert(b@ =~= a@.insert(key, b.entries@[k].1));
}

proof fn lemma_inserted(a: NamedValues, b: NamedValues, k: int)
    requires
        a.wf(),
        0 <= k <= a.entries@.len(),
        b.entries@.len() == a.entries@.len() + 1,
        b.entries@ == a.entries@.insert(k, b.entries@[k]),
        forall|i: int| 0 <= i < k ==> text::text_before(#[trigger] a.entries@[i].0@, b.entries@[k].0@),
        k < a.entries@.len() ==> !text::text_before(a.entries@[k].0@, b.entries@[k].0@),
        k < a.entries@.len() ==> a.entries@[k].0@ != b.entries@[k].0@,
    ensures
        b.wf(),
        b@ == a@.insert(b.entries@[k].0@, b.entries@[k].1),
{
    let key = b.entries@[k].0@;
    if k < a.entries@.len() {
        text::lemma_text_before_total(a.entries@[k].0@, key);
    }
    assert forall|i: int, j: int| 0 <= i < j < b.entries@.len() implies #[trigger] text::text_before(
        b.entries@[i].0@,
        b.entries@[j].0@,
    ) by {
        let ai = if i < k { i } else { i - 1 };
        let aj = if j < k { j } else { j - 1 };
        if i != k && j != k {
            assert(text::text_before(a.entries@[ai].0@, a.entries@[aj].0@));
        } else if j == k {
            assert(text::text_before(a.entries@[i].0@, key));
        } else {
            if j > k + 1 {
                assert(text::text_before(a.entries@[k].0@, a.entries@[aj].0@));
                text::lemma_text_before_transitive(key, a.entries@[k].0@, a.entries@[aj].0@);
            }
        }
    }
    assert forall|name: Seq<char>| b.has(name) == (a.has(name) || name == key) by {
        if b.has(name) {
            let p = b.position(name);
            if p != k {
                let q = if p < k { p } else { p - 1 };
                assert(a.entries@[q].0@ == name);
            }
        }
        if a.has(name) {
            let p = a.position(name);
            let q = if p < k { p } else { p + 1 };
            assert(b.entries@[q].0@ == name);
        }
        if name == key {
            assert(b.entries@[k].0@ == name);
        }
    }
    assert forall|name: Seq<char>| b.has(name) implies b@[name] == a@.insert(key, b.entries@[k].1)[name] by {
        let p = b.position(name);
        lemma_entry_is_value(b, p);
        if p != k {
            let q = if p < k { p } else { p - 1 };
            lemma_entry_is_value(a, q);
            if p < k {
                assert(text::text_before(b.entries@[p].0@, b.entries@[k].0@));
            } else {
                assert(text::text_before(b.entries@[k].0@, b.entries@[p].0@));
            }
            text::lemma_text_before_strict(key, key);
        }
    }
    assert(b@ =~= a@.insert(key, b.entries@[k].1));
}

} // verus!

//! Metric names and the compact identifiers that stand for them.
use crate::base::text;
use crate::base::types::MetricId;
use vstd::hash_map::StringHashMap;
use vstd::prelude::*;

verus! {

/// How many distinct metrics there can be: one for each identifier.
pub const MAX_METRICS: usize = 65_536;

/// An append-only table of metric names. A name keeps its identifier;
/// identifiers count up from 0 and are never reused.
pub struct MetricRegistry {
    names: Vec<String>,
    ids: StringHashMap<MetricId>,
}

impl View for MetricRegistry {
    type V = Seq<Seq<char>>;

    /// The names in the order of their identifiers.
    closed spec fn view(&self) -> Seq<Seq<char>> {
        text::texts(self.names@)
    }
}

/// The identifier of `name` among registered `names`: its position.
pub open spec fn id_of(names: Seq<Seq<char>>, name: Seq<char>) -> Option<MetricId> {
    if names.contains(name) {
        Some(MetricId(names.index_of(name) as u16))
    } else {
        None
    }
}

/// The names after `name` is registered, if there is room for it.
pub open spec fn names_after(names: Seq<Seq<char>>, name: Seq<char>) -> Seq<Seq<char>> {
    if names.contains(name) || names.len() >= MAX_METRICS {
        names
    } else {
        names.push(name)
    }
}

impl MetricRegistry {
    /// No name occurs twice, and the index agrees with the table.
    pub closed spec fn wf(self) -> bool {
        &&& self@.no_duplicates()
        &&& self@.len() <= MAX_METRICS
        &&& forall|n: Seq<char>| #[trigger] self.ids@.contains_key(n) <==> self@.contains(n)
        &&& forall|i: int|
            0 <= i < self@.len() ==> self.ids@.contains_key(#[trigger] self@[i])
                && self.ids@[self@[i]] == MetricId(i as u16)
    }

    /// A registry never holds a name twice, nor more names than identifiers.
    pub proof fn names_are_distinct(self)
        requires
            self.wf(),
        ensures
            self@.no_duplicates(),
            self@.len() <= MAX_METRICS,
    {
    }

    /// An empty registry.
    pub fn new() -> (r: MetricRegistry)
        ensures
            r.wf(),
            r@ == Seq::<Seq<char>>::empty(),
    {
        let r = MetricRegistry { names: Vec::new(), ids: StringHashMap::new() };
        assert(r@ =~= Seq::<Seq<char>>::empty());
        r
    }

    /// Registers `name`, or finds it registered; `None` when it is new and the
    /// registry is full.
    pub fn try_register(&mut self, name: &str) -> (r: Option<MetricId>)
        requires
            old(self).wf(),
        ensures
            final(self).wf(),
            final(self)@ == names_after(old(self)@, name@),
            r == id_of(final(self)@, name@),
            r is None <==> !old(self)@.contains(name@) && old(self)@.len() >= MAX_METRICS,
    {
        let ghost before = self@;
        match self.ids.get(name) {
            Some(id) => {
                let found: MetricId = *id;
                proof {
                    let i = self@.index_of(name@);
                    assert(self@[i] == name@);
                }
                return Some(found);
            },
            None => {},
        }
        let n: usize = self.names.len();
        if n >= MAX_METRICS {
            return None;
        }
        let id = MetricId(n as u16);
        self.names.push(name.to_owned());
        self.ids.insert(name.to_owned(), id);
        proof {
            assert(self@ =~= before.push(name@));
            assert(self@[n as int] == name@);
            assert forall|k: Seq<char>| #[trigger]
                self.ids@.contains_key(k) <==> self@.contains(k) by {
                if before.contains(k) {
                    let i = choose|i: int| 0 <= i < before.len() && before[i] == k;
                    assert(self@[i] == k);
                }
                if self@.contains(k) && k != name@ {
                    let i = choose|i: int| 0 <= i < self@.len() && self@[i] == k;
                    assert(before[i] == k);
                }
            }
            assert forall|i: int| 0 <= i < self@.len() implies self.ids@.contains_key(
                #[trigger] self@[i],
            ) && self.ids@[self@[i]] == MetricId(i as u16) by {
                if i < n {
                    assert(before[i] == self@[i]);
                    assert(before.contains(before[i]));
                }
            }
            assert forall|i: int, j: int|
                0 <= i < self@.len() && 0 <= j < self@.len() && i != j implies self@[i]
                != self@[j] by {
                if i < n && j < n {
                    assert(before[i] != before[j]);
                } else if i < n {
                    assert(before.contains(before[i]));
                } else {
                    assert(before.contains(before[j]));
                }
            }
            assert(self@.index_of(name@) == n);
        }
        Some(id)
    }

    /// Registers `name`, or finds it registered. There has to be room for it.
    pub fn register(&mut self, name: &str) -> (id: MetricId)
        requires
            old(self).wf(),
            old(self)@.contains(name@) || old(self)@.len() < MAX_METRICS,
        ensures
            final(self).wf(),
            final(self)@ == names_after(old(self)@, name@),
            id_of(final(self)@, name@) == Some(id),
    {
        self.try_register(name).expect(
            "metric registry exceeded MAX_METRICS (65 536 distinct metrics)",
        )
    }

    /// The name behind an identifier, if it was registered here.
    pub fn name(&self, id: MetricId) -> (r: Option<&str>)
        ensures
            match r {
                Some(name) => (id.0 as int) < self@.len() && name@ == self@[id.0 as int],
                None => id.0 as int >= self@.len(),
            },
    {
        let i: usize = id.0 as usize;
        if i < self.names.len() {
            assert(self@[i as int] == self.names@[i as int]@);
            Some(self.names[i].as_str())
        } else {
            None
        }
    }

    /// The identifier of a name that is already registered.
    pub fn get(&self, name: &str) -> (r: Option<MetricId>)
        requires
            self.wf(),
        ensures
            r == id_of(self@, name@),
    {
        match self.ids.get(name) {
            Some(id) => {
                proof {
                    let i = self@.index_of(name@);
                    assert(self@[i] == name@);
                }
                Some(*id)
            },
            None => None,
        }
    }

    /// How many metrics are registered.
    pub fn len(&self) -> (n: usize)
        ensures
            n == self@.len(),
    {
        self.names.len()
    }

    /// Whether no metric is registered.
    pub fn is_empty(&self) -> (r: bool)
        ensures
            r == (self@.len() == 0),
    {
        self.names.len() == 0
    }
}

impl Default for MetricRegistry {
    fn default() -> (r: MetricRegistry)
        ensures
            r.wf(),
            r@ == Seq::<Seq<char>>::empty(),
    {
        MetricRegistry::new()
    }
}

/// Registering is stable: names registered before keep their identifiers, and a
/// new name gets the next one.
pub proof fn identifiers_are_stable(names: Seq<Seq<char>>, added: Seq<char>, name: Seq<char>)
    requires
        names.no_duplicates(),
        names.len() <= MAX_METRICS,
    ensures
        names.contains(name) ==> id_of(names_after(names, added), name) == id_of(names, name),
        !names.contains(added) && names.len() < MAX_METRICS ==> id_of(
            names_after(names, added),
            added,
        ) == Some(MetricId(names.len() as u16)),
{
    let after = names_after(names, added);
    if names.contains(name) {
        let i = names.index_of(name);
        assert(names[i] == name);
        assert(after[i] == name);
        let j = after.index_of(name);
        assert(after[j] == name);
        if j < names.len() {
            assert(names[j] == name);
        }
    }
    if !names.contains(added) && names.len() < MAX_METRICS {
        assert(after[names.len() as int] == added);
        let j = after.index_of(added);
        assert(after[j] == added);
        if j < names.len() {
            assert(names[j] == added);
        }
    }
}

/// Registering twice is registering once.
pub proof fn registering_is_idempotent(names: Seq<Seq<char>>, name: Seq<char>)
    ensures
        names_after(names_after(names, name), name) == names_after(names, name),
{
    let after = names_after(names, name);
    if !names.contains(name) && names.len() < MAX_METRICS {
        assert(after[names.len() as int] == name);
    }
}

/// Names and identifiers undo each other: the name behind a name's identifier
/// is that name, and the identifier of the name behind one is that identifier.
pub proof fn names_and_identifiers_agree(names: Seq<Seq<char>>, name: Seq<char>, i: int)
    requires
        names.no_duplicates(),
        names.len() <= MAX_METRICS,
    ensures
        id_of(names, name) matches Some(id) ==> (id.0 as int) < names.len() && names[id.0 as int]
            == name,
        0 <= i < names.len() ==> id_of(names, names[i]) == Some(MetricId(i as u16)),
{
    if names.contains(name) {
        assert(names[names.index_of(name)] == name);
    }
    if 0 <= i < names.len() {
        assert(names.contains(names[i]));
        assert(names[names.index_of(names[i])] == names[i]);
    }
}

} // verus!

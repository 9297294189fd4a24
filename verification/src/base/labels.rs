//! Tables of metric names.
use crate::base::text;
use crate::base::types;
use crate::base::types::MetricId;
use std::collections::BTreeMap;
use vstd::prelude::*;
use vstd::string::*;

verus! {

broadcast use vstd::std_specs::btree::group_btree_axioms;

/// The names that a label table holds.
pub open spec fn label_views(m: Map<u16, String>) -> Map<u16, Seq<char>> {
    Map::new(|k: u16| m.contains_key(k), |k: u16| m[k]@)
}

/// The name shown for a metric: its registered name, or `m` and its number.
pub open spec fn shown_label(labels: Map<u16, Seq<char>>, id: MetricId) -> Seq<char> {
    if labels.contains_key(id.0) {
        labels[id.0]
    } else {
        seq!['m'] + text::decimal(id.0 as nat)
    }
}

/// A label table after the first `k` pairs of a list.
pub open spec fn seeded(labels: Seq<(MetricId, &str)>, k: int) -> Map<u16, Seq<char>>
    decreases k,
{
    if k <= 0 {
        Map::empty()
    } else {
        seeded(labels, k - 1).insert(labels[k - 1].0.0, labels[k - 1].1@)
    }
}

/// The name shown for a metric.
pub fn label_in(labels: &BTreeMap<u16, String>, id: MetricId) -> (r: String)
    ensures
        r@ == shown_label(label_views(labels@), id),
{
    match labels.get(&id.0) {
        Some(name) => name.clone(),
        None => {
            let mut out: String = String::new();
            out.push('m');
            out.append(text::decimal_text(id.0 as u64).as_str());
            assert(out@ =~= seq!['m'] + text::decimal(id.0 as nat));
            out
        },
    }
}

/// The label table of a list of names; a later name replaces an earlier one.
pub fn label_table(names: &[(MetricId, &str)]) -> (r: BTreeMap<u16, String>)
    ensures
        label_views(r@) == seeded(names@, names@.len() as int),
{
    let mut table: BTreeMap<u16, String> = BTreeMap::new();
    let mut i: usize = 0;
    assert(label_views(table@) =~= Map::<u16, Seq<char>>::empty());
    while i < names.len()
        invariant
            i <= names@.len(),
            label_views(table@) == seeded(names@, i as int),
        decreases names.len() - i,
    {
        let ghost before = label_views(table@);
        let name: String = names[i].1.to_owned();
        let _ = table.insert(names[i].0.0, name);
        assert(label_views(table@) =~= before.insert(names@[i as int].0.0, names@[i as int].1@));
        i = i + 1;
    }
    table
}

/// A label table after it learned the first `k` names of a list.
pub open spec fn learned(
    labels: Map<u16, Seq<char>>,
    names: Seq<(MetricId, Seq<char>)>,
    k: int,
) -> Map<u16, Seq<char>>
    decreases k,
{
    if k <= 0 {
        labels
    } else {
        learned(labels, names, k - 1).insert(names[k - 1].0.0, names[k - 1].1)
    }
}

/// Adds the names of a list to a label table; a later name replaces an earlier
/// one.
pub fn learn_names(labels: &mut BTreeMap<u16, String>, names: &Vec<(MetricId, String)>)
    ensures
        label_views(final(labels)@) == learned(
            label_views(old(labels)@),
            types::names_view(names@),
            names@.len() as int,
        ),
{
    let ghost start = label_views(labels@);
    let mut i: usize = 0;
    while i < names.len()
        invariant
            i <= names@.len(),
            label_views(labels@) == learned(start, types::names_view(names@), i as int),
        decreases names.len() - i,
    {
        let ghost before = label_views(labels@);
        let _ = labels.insert(names[i].0.0, names[i].1.clone());
        assert(label_views(labels@) =~= before.insert(names@[i as int].0.0, names@[i as int].1@));
        i = i + 1;
    }
}

/// A label table lists the metrics of its list, each under the last name that the list
/// gives it.
pub proof fn tables_keep_the_last_name(labels: Seq<(MetricId, &str)>, k: int, id: u16)
    requires
        0 <= k <= labels.len(),
    ensures
        seeded(labels, k).contains_key(id) <==> exists|i: int|
            0 <= i < k && (#[trigger] labels[i]).0.0 == id,
        forall|i: int|
            0 <= i < k && (#[trigger] labels[i]).0.0 == id && (forall|j: int|
                i < j < k ==> (#[trigger] labels[j]).0.0 != id) ==> seeded(labels, k)[id]
                == labels[i].1@,
    decreases k,
{
    if k > 0 {
        tables_keep_the_last_name(labels, k - 1, id);
        assert forall|i: int|
            0 <= i < k && (#[trigger] labels[i]).0.0 == id && (forall|j: int|
                i < j < k ==> (#[trigger] labels[j]).0.0 != id) implies seeded(labels, k)[id]
            == labels[i].1@ by {
            if i < k - 1 {
                assert(labels[k - 1].0.0 != id);
            }
        }
    }
}

/// A label table that learns names lists each metric under the last name given for it,
/// and keeps the names of the others.
pub proof fn the_last_name_learned_counts(
    labels: Map<u16, Seq<char>>,
    names: Seq<(MetricId, Seq<char>)>,
    k: int,
    id: u16,
)
    requires
        0 <= k <= names.len(),
    ensures
        (forall|i: int| 0 <= i < k ==> (#[trigger] names[i]).0.0 != id) ==> learned(
            labels,
            names,
            k,
        ).contains_key(id) == labels.contains_key(id) && learned(labels, names, k)[id]
            == labels[id],
        forall|i: int|
            0 <= i < k && (#[trigger] names[i]).0.0 == id && (forall|j: int|
                i < j < k ==> (#[trigger] names[j]).0.0 != id) ==> learned(
                labels,
                names,
                k,
            ).contains_key(id) && learned(labels, names, k)[id] == names[i].1,
    decreases k,
{
    if k > 0 {
        the_last_name_learned_counts(labels, names, k - 1, id);
        assert forall|i: int|
            0 <= i < k && (#[trigger] names[i]).0.0 == id && (forall|j: int|
                i < j < k ==> (#[trigger] names[j]).0.0 != id) implies learned(
            labels,
            names,
            k,
        ).contains_key(id) && learned(labels, names, k)[id] == names[i].1 by {
            if i < k - 1 {
                assert(names[k - 1].0.0 != id);
            }
        }
    }
}

/// A metric without a name is shown as `m` and its number, and two such metrics never
/// look the same.
pub proof fn nameless_metrics_show_their_number(labels: Map<u16, Seq<char>>, id: MetricId)
    ensures
        labels.contains_key(id.0) ==> shown_label(labels, id) == labels[id.0],
        !labels.contains_key(id.0) ==> {
            &&& shown_label(labels, id)[0] == 'm'
            &&& text::numeral_value(shown_label(labels, id).skip(1)) == id.0
            &&& shown_label(labels, id).skip(1) == text::decimal(id.0 as nat)
        },
{
    text::numerals_read_back(id.0 as nat);
    assert((seq!['m'] + text::decimal(id.0 as nat)).skip(1) =~= text::decimal(id.0 as nat));
}

} // verus!

//! The properties of one node: identifiers in the order in which they were
//! bound, each with its values.

use vstd::prelude::*;
use crate::model::{has_key, position_of, unique_keys, valued, PropertyModel};
use crate::utf8::str_eq;

verus! {

/// The texts of a list of strings.
pub open spec fn texts(values: Seq<String>) -> Seq<Seq<char>> {
    Seq::new(values.len(), |i: int| values[i]@)
}

/// A property as a mathematical value.
pub open spec fn entry_model(entry: (String, Vec<String>)) -> PropertyModel {
    (entry.0@, texts(entry.1@))
}

/// A list of properties as a mathematical value.
pub open spec fn entry_models(entries: Seq<(String, Vec<String>)>) -> Seq<PropertyModel> {
    Seq::new(entries.len(), |i: int| entry_model(entries[i]))
}

/// The list without its first property named `id`.
pub open spec fn without_key(properties: Seq<PropertyModel>, id: Seq<char>) -> Seq<PropertyModel> {
    if has_key(properties, id) {
        properties.remove(position_of(properties, id))
    } else {
        properties
    }
}

/// The list in which `id` is bound to `values` and to nothing else: an earlier
/// binding is taken out, and the new one goes to the end.
pub open spec fn with_binding(
    properties: Seq<PropertyModel>,
    id: Seq<char>,
    values: Seq<Seq<char>>,
) -> Seq<PropertyModel> {
    without_key(properties, id).push((id, values))
}

/// Where no property before `at` is named `id`, the first such property is
/// not before `at`; where the one at `at` is, it is the first.
pub proof fn lemma_position_of(properties: Seq<PropertyModel>, id: Seq<char>, at: int)
    requires
        0 <= at <= properties.len(),
        forall|j: int| 0 <= j < at ==> (#[trigger] properties[j]).0 != id,
    ensures
        at < properties.len() && properties[at].0 == id ==> position_of(properties, id) == at,
        at <= position_of(properties, id) <= properties.len(),
        at == properties.len() ==> !has_key(properties, id),
        has_key(properties, id) ==> position_of(properties, id) < properties.len()
            && properties[position_of(properties, id)].0 == id,
    decreases properties.len(),
{
    if properties.len() == 0 || properties[0].0 == id {
    } else {
        let rest = properties.drop_first();
        if at >= 1 {
            assert forall|j: int| 0 <= j < at - 1 implies (#[trigger] rest[j]).0 != id by {
                assert(rest[j] == properties[j + 1]);
            }
            lemma_position_of(rest, id, at - 1);
        } else {
            lemma_position_of(rest, id, 0);
        }
        if has_key(properties, id) {
            let k = choose|k: int| 0 <= k < properties.len() && properties[k].0 == id;
            assert(rest[k - 1].0 == id);
        }
    }
}

/// Binding an identifier in a list without repeats leaves it without repeats,
/// and the new binding can be looked up.
pub proof fn lemma_with_binding(
    properties: Seq<PropertyModel>,
    id: Seq<char>,
    values: Seq<Seq<char>>,
)
    requires
        unique_keys(properties),
    ensures
        unique_keys(with_binding(properties, id, values)),
        has_key(with_binding(properties, id, values), id),
        with_binding(properties, id, values)[position_of(with_binding(properties, id, values), id)]
            == (id, values),
        valued(properties) && values.len() >= 1 ==> valued(with_binding(properties, id, values)),
        forall|other: Seq<char>|
            other != id ==> has_key(with_binding(properties, id, values), other) == has_key(
                properties,
                other,
            ),
{
    let kept = without_key(properties, id);
    let bound = with_binding(properties, id, values);
    lemma_position_of(properties, id, 0);
    assert forall|j: int| 0 <= j < kept.len() implies (#[trigger] kept[j]).0 != id by {
        if has_key(properties, id) {
            let at = position_of(properties, id);
            if j < at {
                assert(kept[j] == properties[j]);
            } else {
                assert(kept[j] == properties[j + 1]);
            }
        }
    }
    assert forall|i: int, j: int| 0 <= i < j < bound.len() implies (#[trigger] bound[i]).0 != (
    #[trigger] bound[j]).0 by {
        if has_key(properties, id) {
            let at = position_of(properties, id);
            let a = if i < at { i } else { i + 1 };
            assert(bound[i] == properties[a]);
            if j < kept.len() {
                let b = if j < at { j } else { j + 1 };
                assert(bound[j] == properties[b]);
            }
        }
    }
    assert(bound[kept.len() as int].0 == id);
    lemma_position_of(bound, id, kept.len() as int);
    assert forall|other: Seq<char>| other != id implies has_key(bound, other) == has_key(
        properties,
        other,
    ) by {
        if has_key(bound, other) {
            let k = choose|k: int| 0 <= k < bound.len() && bound[k].0 == other;
            if has_key(properties, id) {
                let at = position_of(properties, id);
                let a = if k < at { k } else { k + 1 };
                assert(properties[a].0 == other);
            } else {
                assert(properties[k].0 == other);
            }
        }
        if has_key(properties, other) {
            let k = choose|k: int| 0 <= k < properties.len() && properties[k].0 == other;
            if has_key(properties, id) {
                let at = position_of(properties, id);
                let a = if k < at { k } else { k - 1 };
                assert(bound[a].0 == other);
            } else {
                assert(bound[k].0 == other);
            }
        }
    }
    if valued(properties) && values.len() >= 1 {
        assert forall|i: int| 0 <= i < bound.len() implies (#[trigger] bound[i]).1.len() >= 1 by {
            if i < kept.len() {
                if has_key(properties, id) {
                    let at = position_of(properties, id);
                    let a = if i < at { i } else { i + 1 };
                    assert(bound[i] == properties[a]);
                } else {
                    assert(bound[i] == properties[i]);
                }
            }
        }
    }
}

/// Binding an identifier leaves every other identifier bound to what it was
/// bound to.
pub proof fn lemma_kept_binding(
    properties: Seq<PropertyModel>,
    id: Seq<char>,
    values: Seq<Seq<char>>,
    other: Seq<char>,
)
    requires
        unique_keys(properties),
        other != id,
    ensures
        has_key(with_binding(properties, id, values), other) == has_key(properties, other),
        has_key(properties, other) ==> with_binding(properties, id, values)[position_of(
            with_binding(properties, id, values),
            other,
        )].1 == properties[position_of(properties, other)].1,
{
    let bound = with_binding(properties, id, values);
    lemma_with_binding(properties, id, values);
    lemma_position_of(properties, id, 0);
    lemma_position_of(properties, other, 0);
    lemma_position_of(bound, other, 0);
    if has_key(properties, other) {
        let k = position_of(properties, other);
        let b = position_of(bound, other);
        assert(b < bound.len() - 1) by {
            if b == bound.len() - 1 {
                assert(bound[b].0 == id);
            }
        }
        if has_key(properties, id) {
            let at = position_of(properties, id);
            let a = if b < at { b } else { b + 1 };
            assert(bound[b] == properties[a]);
            assert(a == k) by {
                if a < k {
                } else if k < a {
                }
            }
        } else {
            assert(bound[b] == properties[b]);
            assert(b == k) by {
                if b < k {
                } else if k < b {
                }
            }
        }
    }
}

/// The properties of a node. No identifier is bound twice, and each is bound to
/// one value at least.
#[derive(Debug)]
pub struct PropertyMap {
    entries: Vec<(String, Vec<String>)>,
}

impl View for PropertyMap {
    type V = Seq<PropertyModel>;

    closed spec fn view(&self) -> Seq<PropertyModel> {
        entry_models(self.entries@)
    }
}

impl PropertyMap {
    #[verifier::type_invariant]
    spec fn well_formed(&self) -> bool {
        unique_keys(entry_models(self.entries@)) && valued(entry_models(self.entries@))
    }

    /// No properties.
    pub fn new() -> (map: PropertyMap)
        ensures
            map@ == Seq::<PropertyModel>::empty(),
    {
        let map = PropertyMap { entries: Vec::new() };
        assert(map@ =~= Seq::<PropertyModel>::empty());
        map
    }

    /// The properties in the given order, unless an identifier occurs twice
    /// among them or one of them has no value.
    pub fn from_entries(entries: Vec<(String, Vec<String>)>) -> (map: Option<PropertyMap>)
        ensures
            map is Some <==> unique_keys(entry_models(entries@)) && valued(entry_models(entries@)),
            map matches Some(m) ==> m@ == entry_models(entries@),
    {
        let ghost models = entry_models(entries@);
        let mut j: usize = 0;
        while j < entries.len()
            invariant
                0 <= j <= entries@.len(),
                models == entry_models(entries@),
                forall|a: int, b: int| 0 <= a < b < j ==> (#[trigger] models[a]).0 != (
                #[trigger] models[b]).0,
                forall|a: int| 0 <= a < j ==> (#[trigger] models[a]).1.len() >= 1,
            decreases entries@.len() - j,
        {
            if entries[j].1.len() == 0 {
                assert(models[j as int].1.len() == 0);
                return None;
            }
            let mut i: usize = 0;
            while i < j
                invariant
                    0 <= i <= j < entries@.len(),
                    models == entry_models(entries@),
                    forall|a: int| 0 <= a < i ==> (#[trigger] models[a]).0 != models[j as int].0,
                decreases j - i,
            {
                if entries[i].0 == entries[j].0 {
                    assert(models[i as int].0 == models[j as int].0);
                    return None;
                }
                i += 1;
            }
            j += 1;
        }
        Some(PropertyMap { entries })
    }

    /// The number of properties. It is a property of every map that no
    /// identifier is bound twice and that each is bound to one value at least.
    pub fn len(&self) -> (n: usize)
        ensures
            n == self@.len(),
            unique_keys(self@),
            valued(self@),
    {
        proof {
            use_type_invariant(self);
        }
        self.entries.len()
    }

    /// The identifier of the property at `index`.
    pub fn key_at(&self, index: usize) -> (id: &String)
        requires
            index < self@.len(),
        ensures
            id@ == self@[index as int].0,
    {
        &self.entries[index].0
    }

    /// The values of the property at `index`: one at least.
    pub fn values_at(&self, index: usize) -> (values: &Vec<String>)
        requires
            index < self@.len(),
        ensures
            texts(values@) == self@[index as int].1,
            values@.len() >= 1,
    {
        proof {
            use_type_invariant(self);
            assert(self@[index as int].1.len() >= 1);
        }
        &self.entries[index].1
    }

    /// Where the property named `id` stands, if there is one.
    fn find(&self, id: &str) -> (at: Option<usize>)
        ensures
            at is Some <==> has_key(self@, id@),
            at matches Some(i) ==> i == position_of(self@, id@) && i < self@.len() && self@[i as int].0
                == id@,
            unique_keys(self@),
            valued(self@),
    {
        proof {
            use_type_invariant(self);
        }
        let mut i: usize = 0;
        while i < self.entries.len()
            invariant
                0 <= i <= self.entries@.len(),
                unique_keys(self@),
                valued(self@),
                forall|j: int| 0 <= j < i ==> (#[trigger] self@[j]).0 != id@,
            decreases self.entries@.len() - i,
        {
            if str_eq(self.entries[i].0.as_str(), id) {
                proof {
                    lemma_position_of(self@, id@, i as int);
                }
                return Some(i);
            }
            i += 1;
        }
        proof {
            lemma_position_of(self@, id@, i as int);
        }
        None
    }

    /// Whether a property named `id` is bound.
    pub fn contains_key(&self, id: &str) -> (found: bool)
        ensures
            found == has_key(self@, id@),
            unique_keys(self@),
            valued(self@),
    {
        self.find(id).is_some()
    }

    /// The values of the property named `id`, if it is bound: one at least.
    pub fn get(&self, id: &str) -> (values: Option<&Vec<String>>)
        ensures
            values is Some <==> has_key(self@, id@),
            values matches Some(v) ==> texts(v@) == self@[position_of(self@, id@)].1 && v@.len()
                >= 1,
            unique_keys(self@),
            valued(self@),
    {
        match self.find(id) {
            Some(i) => {
                assert(self@[i as int].1.len() >= 1);
                Some(&self.entries[i].1)
            },
            None => None,
        }
    }

    /// Takes out the property named `id`, if it is bound.
    pub fn remove(&mut self, id: &str)
        ensures
            final(self)@ == without_key(old(self)@, id@),
            unique_keys(final(self)@),
            valued(final(self)@),
    {
        proof {
            use_type_invariant(&*self);
            lemma_without_key(self@, id@);
        }
        match self.find(id) {
            Some(i) => {
                let mut entries: Vec<(String, Vec<String>)> = Vec::new();
                proof {
                    assert(entry_models(entries@) =~= Seq::empty());
                }
                core::mem::swap(&mut self.entries, &mut entries);
                let ghost before = entry_models(entries@);
                entries.remove(i);
                proof {
                    assert(entry_models(entries@) =~= before.remove(i as int));
                    lemma_without_key(before, id@);
                }
                self.entries = entries;
            },
            None => {},
        }
    }

    /// Binds `id` to `values`, in place of what it was bound to.
    pub fn insert(&mut self, id: String, values: Vec<String>)
        requires
            values@.len() >= 1,
        ensures
            final(self)@ == with_binding(old(self)@, id@, texts(values@)),
            unique_keys(final(self)@),
            valued(final(self)@),
    {
        proof {
            use_type_invariant(&*self);
        }
        self.remove(id.as_str());
        let ghost bound = with_binding(old(self)@, id@, texts(values@));
        let mut entries: Vec<(String, Vec<String>)> = Vec::new();
        proof {
            assert(entry_models(entries@) =~= Seq::empty());
        }
        core::mem::swap(&mut self.entries, &mut entries);
        entries.push((id, values));
        proof {
            lemma_with_binding(old(self)@, id@, texts(values@));
            assert(entry_models(entries@) =~= bound);
        }
        self.entries = entries;
    }
}

/// Taking a property out of a list without repeats leaves it without repeats,
/// and each property that is left has the values it had.
pub proof fn lemma_without_key(properties: Seq<PropertyModel>, id: Seq<char>)
    requires
        unique_keys(properties),
    ensures
        unique_keys(without_key(properties, id)),
        !has_key(without_key(properties, id), id),
        valued(properties) ==> valued(without_key(properties, id)),
{
    let kept = without_key(properties, id);
    lemma_position_of(properties, id, 0);
    if has_key(properties, id) {
        let at = position_of(properties, id);
        assert forall|i: int, j: int| 0 <= i < j < kept.len() implies (#[trigger] kept[i]).0 != (
        #[trigger] kept[j]).0 by {
            let a = if i < at { i } else { i + 1 };
            let b = if j < at { j } else { j + 1 };
            assert(kept[i] == properties[a]);
            assert(kept[j] == properties[b]);
        }
        if has_key(kept, id) {
            let k = choose|k: int| 0 <= k < kept.len() && kept[k].0 == id;
            let a = if k < at { k } else { k + 1 };
            assert(kept[k] == properties[a]);
        }
        if valued(properties) {
            assert forall|i: int| 0 <= i < kept.len() implies (#[trigger] kept[i]).1.len() >= 1 by {
                let a = if i < at { i } else { i + 1 };
                assert(kept[i] == properties[a]);
            }
        }
    }
}

} // verus!

//! A map from keys to values that keeps the order in which keys first came.
use vstd::prelude::*;

use crate::parser::Property;

verus! {

/// The entries seen as pairs of character sequences.
pub open spec fn props_view(v: Seq<Property>) -> Seq<(Seq<char>, Seq<char>)> {
    v.map_values(|p: Property| p@)
}

/// The keys of a sequence of entries, in order.
pub open spec fn keys_of(es: Seq<(Seq<char>, Seq<char>)>) -> Seq<Seq<char>> {
    es.map_values(|e: (Seq<char>, Seq<char>)| e.0)
}

/// The map that inserting the entries one after the other gives: a later
/// entry overwrites an earlier one with the same key.
pub open spec fn map_of(es: Seq<(Seq<char>, Seq<char>)>) -> Map<Seq<char>, Seq<char>>
    decreases es.len(),
{
    if es.len() == 0 {
        Map::empty()
    } else {
        map_of(es.drop_last()).insert(es.last().0, es.last().1)
    }
}

/// The keys of the map are exactly the keys of the entries.
pub proof fn lemma_map_of_dom(es: Seq<(Seq<char>, Seq<char>)>)
    ensures
        map_of(es).dom() == keys_of(es).to_set(),
    decreases es.len(),
{
    if es.len() > 0 {
        lemma_map_of_dom(es.drop_last());
        assert(keys_of(es.drop_last()) =~= keys_of(es).drop_last());
        assert(map_of(es).dom() =~= keys_of(es).to_set()) by {
            assert forall|k| keys_of(es).to_set().contains(k) implies map_of(es).dom().contains(
                k,
            ) by {
                let i = choose|i: int| 0 <= i < keys_of(es).len() && keys_of(es)[i] == k;
                if i < es.len() - 1 {
                    assert(keys_of(es.drop_last())[i] == k);
                }
            }
            assert forall|k| map_of(es).dom().contains(k) implies keys_of(es).to_set().contains(
                k,
            ) by {
                if k != es.last().0 {
                    let i = choose|i: int|
                        0 <= i < keys_of(es.drop_last()).len() && keys_of(es.drop_last())[i] == k;
                    assert(keys_of(es)[i] == k);
                } else {
                    assert(keys_of(es)[es.len() - 1] == k);
                }
            }
        }
    }
}

/// Of the entries with one key, the last gives the value that the map holds
/// for that key.
pub proof fn lemma_map_of_last(es: Seq<(Seq<char>, Seq<char>)>, i: int)
    requires
        0 <= i < es.len(),
        forall|j: int| i < j < es.len() ==> es[j].0 != es[i].0,
    ensures
        map_of(es).contains_key(es[i].0),
        map_of(es)[es[i].0] == es[i].1,
    decreases es.len(),
{
    if i < es.len() - 1 {
        lemma_map_of_last(es.drop_last(), i);
    }
}

/// The map holds as many keys as the entries have distinct keys.
pub proof fn lemma_map_of_len(es: Seq<(Seq<char>, Seq<char>)>)
    ensures
        map_of(es).len() == keys_of(es).to_set().len(),
{
    lemma_map_of_dom(es);
}

/// Setting the value of an entry whose key no other entry holds sets the
/// value of that key in the map.
proof fn lemma_map_of_update(es: Seq<(Seq<char>, Seq<char>)>, j: int, v: Seq<char>)
    requires
        0 <= j < es.len(),
        keys_of(es).no_duplicates(),
    ensures
        map_of(es.update(j, (es[j].0, v))) == map_of(es).insert(es[j].0, v),
    decreases es.len(),
{
    let u = es.update(j, (es[j].0, v));
    if j == es.len() - 1 {
        assert(u.drop_last() =~= es.drop_last());
        assert(map_of(u) =~= map_of(es).insert(es[j].0, v));
    } else {
        assert(keys_of(es.drop_last()) =~= keys_of(es).drop_last());
        lemma_map_of_update(es.drop_last(), j, v);
        assert(u.drop_last() =~= es.drop_last().update(j, (es[j].0, v)));
        assert(keys_of(es)[j] != keys_of(es)[es.len() - 1]);
        assert(map_of(u) =~= map_of(es).insert(es[j].0, v));
    }
}

/// A map from keys to values; each key stands once, in the order in which it
/// was first inserted.
pub struct PropertyMap {
    entries: Vec<Property>,
}

impl View for PropertyMap {
    type V = Map<Seq<char>, Seq<char>>;

    closed spec fn view(&self) -> Map<Seq<char>, Seq<char>> {
        map_of(props_view(self.entries@))
    }
}

/// The position of the entry with the given key, if any.
fn find_key(entries: &Vec<Property>, key: &String) -> (r: Option<usize>)
    ensures
        match r {
            Some(j) => j < entries@.len() && entries@[j as int].key@ == key@,
            None => forall|i: int| 0 <= i < entries@.len() ==> entries@[i].key@ != key@,
        },
{
    let mut i: usize = 0;
    while i < entries.len()
        invariant
            i <= entries@.len(),
            forall|k: int| 0 <= k < i ==> entries@[k].key@ != key@,
        decreases entries@.len() - i,
    {
        if entries[i].key == *key {
            return Some(i);
        }
        i = i + 1;
    }
    None
}

impl PropertyMap {
    #[verifier::type_invariant]
    spec fn keys_unique(&self) -> bool {
        keys_of(props_view(self.entries@)).no_duplicates()
    }

    /// The number of keys.
    pub fn len(&self) -> (r: usize)
        ensures
            r == self@.len(),
    {
        proof {
            use_type_invariant(self);
            let es = props_view(self.entries@);
            lemma_map_of_dom(es);
            keys_of(es).unique_seq_to_set();
        }
        self.entries.len()
    }

    /// The value of a key, if the map holds it.
    pub fn get(&self, key: &str) -> (r: Option<&String>)
        ensures
            match r {
                Some(v) => self@.contains_key(key@) && v@ == self@[key@],
                None => !self@.contains_key(key@),
            },
    {
        proof {
            use_type_invariant(self);
            lemma_map_of_dom(props_view(self.entries@));
        }
        let k = key.to_owned();
        match find_key(&self.entries, &k) {
            Some(j) => {
                proof {
                    let es = props_view(self.entries@);
                    assert forall|i: int| j < i < es.len() implies es[i].0 != es[j as int].0 by {
                        assert(keys_of(es)[i] != keys_of(es)[j as int]);
                    }
                    lemma_map_of_last(es, j as int);
                }
                Some(&self.entries[j].value)
            },
            None => {
                proof {
                    let es = props_view(self.entries@);
                    if keys_of(es).to_set().contains(key@) {
                        let i = choose|i: int| 0 <= i < keys_of(es).len() && keys_of(es)[i] == key@;
                        assert(self.entries@[i].key@ == key@);
                    }
                }
                None
            },
        }
    }
}

/// Folds entries into a map, in order: of entries with one key, the last
/// one's value stays.
pub fn to_map(props: Vec<Property>) -> (r: PropertyMap)
    ensures
        r@ == map_of(props_view(props@)),
{
    let mut entries: Vec<Property> = Vec::new();
    let mut i: usize = 0;
    assert(keys_of(props_view(entries@)) =~= Seq::empty());
    assert(props_view(props@.subrange(0, 0)) =~= Seq::empty());
    while i < props.len()
        invariant
            i <= props@.len(),
            keys_of(props_view(entries@)).no_duplicates(),
            map_of(props_view(entries@)) == map_of(props_view(props@.subrange(0, i as int))),
        decreases props@.len() - i,
    {
        let ghost before = props_view(entries@);
        let p = &props[i];
        assert(props_view(props@.subrange(0, i + 1)).drop_last() =~= props_view(
            props@.subrange(0, i as int),
        ));
        match find_key(&entries, &p.key) {
            Some(j) => {
                entries.set(j, Property { key: p.key.clone(), value: p.value.clone() });
                proof {
                    lemma_map_of_update(before, j as int, p.value@);
                    assert(props_view(entries@) =~= before.update(j as int, (before[j as int].0, p.value@)));
                    assert(keys_of(props_view(entries@)) =~= keys_of(before));
                }
            },
            None => {
                entries.push(Property { key: p.key.clone(), value: p.value.clone() });
                proof {
                    assert(props_view(entries@).drop_last() =~= before);
                    assert(keys_of(props_view(entries@)) =~= keys_of(before).push(p.key@));
                    assert forall|k: int| 0 <= k < keys_of(before).len() implies keys_of(before)[k] != p.key@ by {
                        assert(entries@[k].key@ != p.key@);
                    }
                }
            },
        }
        i = i + 1;
    }
    assert(props@.subrange(0, i as int) =~= props@);
    PropertyMap { entries }
}

} // verus!

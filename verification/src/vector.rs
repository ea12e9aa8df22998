//! Vector-overlay feature naming: which of a GeoJSON feature's
//! properties gives the name shown when the feature is identified.
//!
//! Natural Earth files use uppercase `NAME` / `NAME_LONG`; other
//! providers may use lowercase. The keys are tried in a fixed order and
//! the first non-empty string value wins.
use vstd::prelude::*;
use crate::body::same_text;

verus! {

/// One property of a feature as the name lookup sees it: its key, and
/// its value when that value is a string.
pub struct Property {
    pub key: String,
    pub text: Option<String>,
}

/// The property keys tried for a display name, in order.
pub open spec fn display_name_keys() -> Seq<Seq<char>> {
    seq!["NAME"@, "name"@, "NAME_LONG"@, "ADMIN"@, "SOVEREIGNT"@, "FORMAL_EN"@]
}

/// Index of the first property of `props` from `from` on with key `key`.
pub open spec fn property_index(props: Seq<Property>, key: Seq<char>, from: int) -> Option<int>
    decreases props.len() - from,
{
    if from < 0 || from >= props.len() {
        None
    } else if props[from].key@ == key {
        Some(from)
    } else {
        property_index(props, key, from + 1)
    }
}

/// The name that key number `k` (in `display_name_keys`) gives: the
/// value of the first property with that key when it is a non-empty
/// string.
pub open spec fn name_under_key(props: Seq<Property>, k: int) -> Option<Seq<char>> {
    match property_index(props, display_name_keys()[k], 0) {
        Some(i) => match props[i].text {
            Some(t) => if t@.len() > 0 {
                Some(t@)
            } else {
                None
            },
            None => None,
        },
        None => None,
    }
}

/// The display name from key number `k` on: the first key that gives
/// a name.
pub open spec fn name_from_key(props: Seq<Property>, k: int) -> Option<Seq<char>>
    decreases display_name_keys().len() - k,
{
    if k < 0 || k >= display_name_keys().len() {
        None
    } else if name_under_key(props, k) is Some {
        name_under_key(props, k)
    } else {
        name_from_key(props, k + 1)
    }
}

fn display_name_key(k: usize) -> (key: &'static str)
    requires
        k < 6,
    ensures
        key@ == display_name_keys()[k as int],
{
    match k {
        0 => "NAME",
        1 => "name",
        2 => "NAME_LONG",
        3 => "ADMIN",
        4 => "SOVEREIGNT",
        _ => "FORMAL_EN",
    }
}

fn find_property(props: &Vec<Property>, key: &str) -> (r: Option<usize>)
    ensures
        (match r {
            Some(i) => property_index(props@, key@, 0) == Some(i as int) && i < props@.len(),
            None => property_index(props@, key@, 0) is None,
        }),
{
    let mut i: usize = 0;
    while i < props.len()
        invariant
            0 <= i <= props@.len(),
            property_index(props@, key@, i as int) == property_index(props@, key@, 0),
        decreases props@.len() - i,
    {
        if same_text(props[i].key.as_str(), key) {
            return Some(i);
        }
        i = i + 1;
    }
    None
}

fn display_name_in(p: &Vec<Property>) -> (name: Option<String>)
    ensures
        (match name_from_key(p@, 0) {
            Some(t) => name matches Some(s) && s@ == t,
            None => name is None,
        }),
{
    let mut k: usize = 0;
    while k < 6
        invariant
            0 <= k <= 6,
            display_name_keys().len() == 6,
            name_from_key(p@, k as int) == name_from_key(p@, 0),
        decreases 6 - k,
    {
        let key = display_name_key(k);
        match find_property(p, key) {
            Some(i) => match &p[i].text {
                Some(t) => {
                    if !t.as_str().is_empty() {
                        return Some(t.clone());
                    }
                },
                None => {},
            },
            None => {},
        }
        k = k + 1;
    }
    None
}

/// A feature's display name: the first of the keys `NAME`, `name`,
/// `NAME_LONG`, `ADMIN`, `SOVEREIGNT`, `FORMAL_EN` whose property holds
/// a non-empty string; `None` when there is no such key, or the feature
/// has no properties at all.
pub fn feature_display_name(props: &Option<Vec<Property>>) -> (name: Option<String>)
    ensures
        (match props {
            None => name is None,
            Some(p) => match name_from_key(p@, 0) {
                Some(t) => name matches Some(s) && s@ == t,
                None => name is None,
            },
        }),
{
    match props {
        Some(p) => display_name_in(p),
        None => None,
    }
}


/// Every key of the list is consulted, the lowercase `name` among them:
/// a feature whose only property is `name` holding a non-empty string
/// is named by that string.
pub proof fn lemma_lowercase_name_consulted(p: Property)
    requires
        p.key@ == "name"@,
        p.text matches Some(t) && t@.len() > 0,
    ensures
        name_from_key(seq![p], 0) == Some(p.text->Some_0@),
{
    reveal_strlit("name");
    reveal_strlit("NAME");
    let props = seq![p];
    assert("NAME"@ != "name"@) by {
        assert("NAME"@[0] != "name"@[0]);
    }
    assert(property_index(props, "NAME"@, 1) is None);
    assert(property_index(props, "NAME"@, 0) is None);
    assert(name_under_key(props, 0) is None);
    assert(property_index(props, "name"@, 0) == Some(0int));
    assert(name_under_key(props, 1) == Some(p.text->Some_0@));
    assert(display_name_keys().len() == 6);
    assert(name_from_key(props, 1) == Some(p.text->Some_0@));
    assert(name_from_key(props, 0) == name_from_key(props, 1));
}

} // verus!

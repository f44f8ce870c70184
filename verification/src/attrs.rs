//! Attribute lists: lookup by key, and what a list takes over from another.

use vstd::prelude::*;
use crate::document::{AttrValue, Attribute, attrs_model};
use crate::model::{AttrModel, has_key, value_of};

verus! {

/// `own`, followed by each attribute of `extra` whose key none before it has.
pub open spec fn absorb(own: Seq<AttrModel>, extra: Seq<AttrModel>) -> Seq<AttrModel>
    decreases extra.len(),
{
    if extra.len() == 0 {
        own
    } else if has_key(own, extra[0].name) {
        absorb(own, extra.drop_first())
    } else {
        absorb(own.push(extra[0]), extra.drop_first())
    }
}

/// A key has a value exactly where some attribute has the key.
pub proof fn lemma_value_of_has_key(attrs: Seq<AttrModel>, name: Seq<char>)
    ensures
        value_of(attrs, name) is Some <==> has_key(attrs, name),
    decreases attrs.len(),
{
    if attrs.len() > 0 {
        let rest = attrs.drop_first();
        lemma_value_of_has_key(rest, name);
        if has_key(rest, name) {
            let k = choose|k: int| 0 <= k < rest.len() && (#[trigger] rest[k]).name == name;
            assert(attrs[k + 1].name == name);
        }
        if has_key(attrs, name) && attrs[0].name != name {
            let k = choose|k: int| 0 <= k < attrs.len() && (#[trigger] attrs[k]).name == name;
            assert(rest[k - 1].name == name);
        }
    }
}

/// Appending an attribute leaves the values of the keys that were there.
pub proof fn lemma_value_of_push(attrs: Seq<AttrModel>, a: AttrModel, name: Seq<char>)
    ensures
        has_key(attrs, name) ==> value_of(attrs.push(a), name) == value_of(attrs, name),
        !has_key(attrs, name) && a.name == name ==> value_of(attrs.push(a), name) == Some(a.value),
        !has_key(attrs, name) && a.name != name ==> value_of(attrs.push(a), name) is None,
    decreases attrs.len(),
{
    if attrs.len() == 0 {
        assert(attrs.push(a).drop_first() =~= Seq::<AttrModel>::empty());
    } else {
        let rest = attrs.drop_first();
        assert(attrs.push(a).drop_first() =~= rest.push(a));
        lemma_value_of_push(rest, a, name);
        if has_key(rest, name) {
            let k = choose|k: int| 0 <= k < rest.len() && (#[trigger] rest[k]).name == name;
            assert(attrs[k + 1].name == name);
        }
        if has_key(attrs, name) && attrs[0].name != name {
            let k = choose|k: int| 0 <= k < attrs.len() && (#[trigger] attrs[k]).name == name;
            assert(rest[k - 1].name == name);
        }
        if attrs[0].name == name {
            assert(has_key(attrs, name));
        }
    }
}

/// The value of the first attribute with the key `name`.
pub fn find_value<'a>(attrs: &'a Vec<Attribute>, name: &String) -> (r: Option<&'a AttrValue>)
    ensures
        match r {
            Some(v) => value_of(attrs_model(attrs@), name@) == Some(v@),
            None => value_of(attrs_model(attrs@), name@) is None,
        },
        r is Some <==> has_key(attrs_model(attrs@), name@),
{
    let ghost model = attrs_model(attrs@);
    let n: usize = attrs.len();
    let mut i: usize = 0;
    proof {
        lemma_value_of_has_key(model, name@);
        assert(model.skip(0) =~= model);
    }
    while i < n
        invariant
            model == attrs_model(attrs@),
            n == attrs@.len(),
            i <= n,
            value_of(model, name@) == value_of(model.skip(i as int), name@),
        decreases n - i,
    {
        proof {
            assert(model.skip(i as int)[0] == attrs@[i as int]@);
            assert(model.skip(i as int).drop_first() =~= model.skip(i + 1));
        }
        if attrs[i].name == *name {
            return Some(&attrs[i].value);
        }
        i = i + 1;
    }
    None
}

/// `own`, followed by a copy of each attribute of `extra` whose key none
/// before it has.
pub fn absorb_attributes(own: &Vec<Attribute>, extra: &Vec<Attribute>) -> (r: Vec<Attribute>)
    ensures
        attrs_model(r@) == absorb(attrs_model(own@), attrs_model(extra@)),
{
    let ghost own_m = attrs_model(own@);
    let ghost extra_m = attrs_model(extra@);
    let mut r: Vec<Attribute> = Vec::new();
    let n: usize = own.len();
    let mut i: usize = 0;
    while i < n
        invariant
            n == own@.len(),
            i <= n,
            r@.len() == i,
            attrs_model(r@) == attrs_model(own@).take(i as int),
        decreases n - i,
    {
        let ghost before = r@;
        let a = own[i].clone();
        r.push(a);
        proof {
            assert forall|k: int| 0 <= k < i + 1 implies attrs_model(r@)[k] == attrs_model(
                own@,
            ).take(i + 1)[k] by {
                if k < i {
                    assert(r@[k] == before[k]);
                    assert(attrs_model(before)[k] == attrs_model(own@).take(i as int)[k]);
                }
            }
            assert(attrs_model(r@) =~= attrs_model(own@).take(i + 1));
        }
        i = i + 1;
    }
    proof {
        assert(own_m.take(n as int) =~= own_m);
        assert(extra_m.skip(0) =~= extra_m);
    }
    let m: usize = extra.len();
    let mut j: usize = 0;
    while j < m
        invariant
            own_m == attrs_model(own@),
            extra_m == attrs_model(extra@),
            m == extra@.len(),
            j <= m,
            absorb(attrs_model(r@), extra_m.skip(j as int)) == absorb(own_m, extra_m),
        decreases m - j,
    {
        let ghost before = attrs_model(r@);
        proof {
            assert(extra_m.skip(j as int)[0] == extra@[j as int]@);
            assert(extra_m.skip(j as int).drop_first() =~= extra_m.skip(j + 1));
        }
        if find_value(&r, &extra[j].name).is_none() {
            let ghost held = r@;
            let a = extra[j].clone();
            r.push(a);
            proof {
                assert forall|k: int| 0 <= k < held.len() implies attrs_model(r@)[k]
                    == before[k] by {
                    assert(r@[k] == held[k]);
                }
                assert(attrs_model(r@) =~= before.push(extra@[j as int]@));
            }
        }
        j = j + 1;
    }
    r
}

} // verus!

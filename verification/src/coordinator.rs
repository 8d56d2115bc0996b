//! Telling a coordinator in front of several servers from a plain server, and what it says it can
//! do.

use vstd::prelude::*;
use vstd::string::*;
use crate::json;
use crate::json::{Json, Tree};
use crate::text;

verus! {

/// Whether a reply is a coordinator's own.
pub open spec fn is_coordinator(body: Tree) -> bool {
    body.field("orangu_coordinator"@) == Tree::Bool(true)
}

fn says_coordinator(body: &Json) -> (yes: bool)
    ensures
        yes == is_coordinator(body.tree()),
{
    match body.get("orangu_coordinator") {
        Some(value) => match value.as_bool() {
            Some(b) => b,
            None => false,
        },
        None => false,
    }
}

/// The texts of a list, in turn; what is no text is passed over.
pub open spec fn texts(items: Seq<Tree>) -> Seq<Seq<char>>
    decreases items.len(),
{
    if items.len() == 0 {
        Seq::empty()
    } else {
        match items.last() {
            Tree::Text(s) => texts(items.drop_last()).push(s),
            _ => texts(items.drop_last()),
        }
    }
}

/// The roles a reply names: none for one that is no coordinator's, or that names none.
pub open spec fn roles_of(body: Tree) -> Option<Seq<Seq<char>>> {
    match body.field("roles"@) {
        Tree::Array(items) => if is_coordinator(body) && texts(items).len() > 0 {
            Some(texts(items))
        } else {
            None
        },
        _ => None,
    }
}

pub open spec fn names_view(names: Option<Vec<String>>) -> Option<Seq<Seq<char>>> {
    match names {
        Some(list) => Some(text::views(list@)),
        None => None,
    }
}

/// Parses `roles` out of a coordinator's reply, or nothing when the body is not a coordinator's or
/// carries no `roles` — an older coordinator, whose caller then falls back to establishing the
/// capability the expensive way.
pub fn parse_coordinator_roles(body: &Json) -> (roles: Option<Vec<String>>)
    ensures
        names_view(roles) == roles_of(body.tree()),
{
    if !says_coordinator(body) {
        return None;
    }
    let value = match body.get("roles") {
        Some(value) => value,
        None => return None,
    };
    let items = match value.as_array() {
        Some(items) => items,
        None => return None,
    };
    let ghost trees = value.tree()->Array_0;
    let mut roles: Vec<String> = Vec::new();
    assert(text::views(roles@) =~= texts(trees.take(0)));
    let mut i: usize = 0;
    while i < items.len()
        invariant
            i <= items@.len(),
            trees.len() == items@.len(),
            forall|k: int| 0 <= k < items@.len() ==> (#[trigger] items@[k]).tree() == trees[k],
            text::views(roles@) == texts(trees.take(i as int)),
        decreases items.len() - i,
    {
        let ghost before = text::views(roles@);
        assert(items@[i as int].tree() == trees[i as int]);
        assert(trees.take(i + 1).drop_last() =~= trees.take(i as int));
        if let Some(role) = items[i].as_str() {
            roles.push(role.to_string());
            assert(text::views(roles@) =~= before.push(role@));
        }
        i = i + 1;
    }
    assert(trees.take(trees.len() as int) =~= trees);
    if roles.len() == 0 {
        return None;
    }
    Some(roles)
}

/// Equal neighbours once each.
pub open spec fn deduped(names: Seq<Seq<char>>) -> Seq<Seq<char>>
    decreases names.len(),
{
    if names.len() < 2 {
        names
    } else if names[names.len() - 2] == names.last() {
        deduped(names.drop_last())
    } else {
        deduped(names.drop_last()).push(names.last())
    }
}

/// What an object's fields hold.
pub open spec fn values_of(fields: Seq<(Seq<char>, Tree)>) -> Seq<Tree> {
    fields.map_values(|f: (Seq<char>, Tree)| f.1)
}

/// The models named in a reply's `models`, before they are put in order.
pub open spec fn models_named(body: Tree) -> Seq<Seq<char>> {
    match body.field("models"@) {
        Tree::Object(fields) => texts(values_of(fields)),
        _ => Seq::empty(),
    }
}

/// The models a reply names, in order and once each; nothing for one that is no coordinator's.
pub open spec fn models_of(body: Tree) -> Option<Seq<Seq<char>>> {
    if is_coordinator(body) {
        Some(deduped(text::sorted_spec(models_named(body))))
    } else {
        None
    }
}

fn model_names(body: &Json) -> (models: Vec<String>)
    ensures
        text::views(models@) == models_named(body.tree()),
{
    let mut models: Vec<String> = Vec::new();
    assert(text::views(models@) =~= Seq::empty());
    let value = match body.get("models") {
        Some(value) => value,
        None => return models,
    };
    let fields = match value.as_object() {
        Some(fields) => fields,
        None => return models,
    };
    let ghost trees = value.tree()->Object_0;
    let ghost values = values_of(trees);
    assert(text::views(models@) =~= texts(values.take(0)));
    let mut i: usize = 0;
    while i < fields.len()
        invariant
            i <= fields@.len(),
            trees.len() == fields@.len(),
            values == values_of(trees),
            forall|k: int|
                0 <= k < fields@.len() ==> ((#[trigger] fields@[k]).0@, fields@[k].1.tree())
                    == trees[k],
            text::views(models@) == texts(values.take(i as int)),
        decreases fields.len() - i,
    {
        let ghost before = text::views(models@);
        assert((fields@[i as int].0@, fields@[i as int].1.tree()) == trees[i as int]);
        assert(values.take(i + 1).drop_last() =~= values.take(i as int));
        assert(values[i as int] == fields@[i as int].1.tree());
        if let Some(model) = fields[i].1.as_str() {
            models.push(model.to_string());
            assert(text::views(models@) =~= before.push(model@));
        }
        i = i + 1;
    }
    assert(values.take(values.len() as int) =~= values);
    models
}

/// Parses a coordinator's reply: every distinct model named in its `models` when it says it is a
/// coordinator, nothing otherwise.
pub fn parse_coordinator_body(body: &Json) -> (models: Option<Vec<String>>)
    ensures
        names_view(models) == models_of(body.tree()),
{
    if !says_coordinator(body) {
        return None;
    }
    let sorted = text::sorted(model_names(body));
    let ghost all = text::views(sorted@);
    let mut models: Vec<String> = Vec::new();
    assert(text::views(models@) =~= deduped(all.take(0)));
    let mut i: usize = 0;
    while i < sorted.len()
        invariant
            i <= sorted@.len(),
            all == text::views(sorted@),
            text::views(models@) == deduped(all.take(i as int)),
        decreases sorted.len() - i,
    {
        let ghost before = text::views(models@);
        assert(all.take(i + 1).drop_last() =~= all.take(i as int));
        if i == 0 || !text::same(sorted[i - 1].as_str(), sorted[i].as_str()) {
            models.push(sorted[i].clone());
            assert(text::views(models@) =~= before.push(all[i as int]));
            assert(i == 0 ==> all.take(1) =~= seq![all[0]]);
            assert(i == 0 ==> before =~= Seq::empty());
        }
        i = i + 1;
        assert(text::views(models@) =~= deduped(all.take(i as int)));
    }
    assert(all.take(all.len() as int) =~= all);
    Some(models)
}

/// Every name before the next.
pub open spec fn strictly_ascending(names: Seq<Seq<char>>) -> bool {
    forall|i: int, j: int| 0 <= i < j < names.len() ==> text::precedes(names[i], names[j])
}

/// Taking equal neighbours once loses no name and adds none, and of names in order leaves each
/// once.
pub proof fn law_each_model_is_named_once(names: Seq<Seq<char>>)
    requires
        text::ascending(names),
    ensures
        strictly_ascending(deduped(names)),
        forall|name: Seq<char>| #[trigger] deduped(names).contains(name) == names.contains(name),
        names.len() > 0 ==> deduped(names).len() > 0 && deduped(names).last() == names.last(),
    decreases names.len(),
{
    if names.len() >= 2 {
        let rest = names.drop_last();
        law_each_model_is_named_once(rest);
        let kept = deduped(names);
        let before = deduped(rest);
        assert(names =~= rest.push(names.last()));
        assert(rest.last() == names[names.len() - 2]);
        text::lemma_order_is_total(names[names.len() - 2], names.last());
        assert forall|name: Seq<char>| #[trigger] kept.contains(name) == names.contains(name) by {
            assert(before.contains(name) == rest.contains(name));
            if names.contains(name) {
                let k = choose|k: int| 0 <= k < names.len() && names[k] == name;
                if k < rest.len() {
                    assert(rest[k] == name);
                    let m = choose|m: int| 0 <= m < before.len() && before[m] == name;
                    assert(kept[m] == name);
                } else {
                    assert(kept[kept.len() - 1] == name);
                }
            }
            if kept.contains(name) {
                let m = choose|m: int| 0 <= m < kept.len() && kept[m] == name;
                if m < before.len() {
                    assert(before[m] == name);
                    let k = choose|k: int| 0 <= k < rest.len() && rest[k] == name;
                    assert(names[k] == name);
                } else {
                    assert(names[names.len() - 1] == name);
                }
            }
        }
        if names[names.len() - 2] != names.last() {
            assert forall|i: int, j: int| 0 <= i < j < kept.len() implies text::precedes(
                kept[i],
                kept[j],
            ) by {
                if j == before.len() {
                    if i < before.len() - 1 {
                        assert(text::precedes(before[i], before[before.len() - 1]));
                        lemma_strict(before[i], before.last(), names.last());
                    }
                }
            }
        }
    }
}

proof fn lemma_strict(a: Seq<char>, b: Seq<char>, c: Seq<char>)
    requires
        text::precedes(a, b),
        text::precedes(b, c),
    ensures
        text::precedes(a, c),
{
    text::lemma_order_is_total(a, b);
    text::lemma_order_is_total(b, c);
    text::lemma_order_is_transitive(a, b, c);
    text::lemma_order_is_total(a, c);
}

/// What a reply of `GET /v1/coordinator` says of models: nothing for a failed request or a body
/// that is not JSON.
pub open spec fn models_told(success: bool, body: Seq<u8>) -> Option<Seq<Seq<char>>> {
    match json::json_text(body) {
        Some(tree) => if success { models_of(tree) } else { None },
        None => None,
    }
}

/// What a reply of `GET /v1/coordinator` says of roles.
pub open spec fn roles_told(success: bool, body: Seq<u8>) -> Option<Seq<Seq<char>>> {
    match json::json_text(body) {
        Some(tree) => if success { roles_of(tree) } else { None },
        None => None,
    }
}

/// Reads the models out of a reply, by whether the request succeeded and the bytes that came.
pub fn coordinator_models(success: bool, body: &[u8]) -> (models: Option<Vec<String>>)
    ensures
        names_view(models) == models_told(success, body@),
{
    if !success {
        return None;
    }
    match Json::parse(body) {
        Some(json) => parse_coordinator_body(&json),
        None => None,
    }
}

/// Reads the roles out of a reply, by whether the request succeeded and the bytes that came.
pub fn coordinator_roles(success: bool, body: &[u8]) -> (roles: Option<Vec<String>>)
    ensures
        names_view(roles) == roles_told(success, body@),
{
    if !success {
        return None;
    }
    match Json::parse(body) {
        Some(json) => parse_coordinator_roles(&json),
        None => None,
    }
}

/// Where a server is asked whether it is a coordinator.
pub fn coordinator_url(base: &str) -> (url: String)
    ensures
        url@ == base@ + "/v1/coordinator"@,
{
    let mut url = base.to_string();
    url.append("/v1/coordinator");
    url
}

/// A list's texts are taken in turn: those of its front, then those of its back, a text as itself
/// and anything else not at all.
pub proof fn law_texts_are_taken_in_turn(front: Seq<Tree>, back: Seq<Tree>, item: Tree)
    ensures
        texts(front + back) == texts(front) + texts(back),
        item matches Tree::Text(s) ==> texts(seq![item]) == seq![s],
        !(item is Text) ==> texts(seq![item]) == Seq::<Seq<char>>::empty(),
        texts(Seq::empty()) == Seq::<Seq<char>>::empty(),
    decreases back.len(),
{
    assert(seq![item].drop_last() =~= Seq::empty());
    assert(texts(Seq::<Tree>::empty()) =~= Seq::empty());
    if back.len() > 0 {
        law_texts_are_taken_in_turn(front, back.drop_last(), item);
        assert((front + back).drop_last() =~= front + back.drop_last());
        assert((front + back).last() == back.last());
        assert(texts(front + back) =~= texts(front) + texts(back));
    } else {
        assert(front + back =~= front);
        assert(texts(front + back) =~= texts(front) + texts(back));
    }
    if let Tree::Text(s) = item {
        assert(texts(seq![item]) =~= seq![s]);
    }
}

proof fn lemma_texts(items: Seq<Tree>, name: Seq<char>)
    ensures
        texts(items).contains(name) <==> items.contains(Tree::Text(name)),
    decreases items.len(),
{
    if items.len() > 0 {
        let rest = items.drop_last();
        lemma_texts(rest, name);
        if texts(items).contains(name) {
            let k = choose|k: int| 0 <= k < texts(items).len() && texts(items)[k] == name;
            if k < texts(rest).len() {
                assert(texts(rest)[k] == name);
                let j = choose|j: int| 0 <= j < rest.len() && rest[j] == Tree::Text(name);
                assert(items[j] == Tree::Text(name));
            } else {
                assert(items[items.len() - 1] == Tree::Text(name));
            }
        }
        if items.contains(Tree::Text(name)) {
            let j = choose|j: int| 0 <= j < items.len() && items[j] == Tree::Text(name);
            if j < rest.len() {
                assert(rest[j] == Tree::Text(name));
                let k = choose|k: int| 0 <= k < texts(rest).len() && texts(rest)[k] == name;
                assert(texts(items)[k] == name);
            } else {
                assert(texts(items)[texts(rest).len() as int] == name);
            }
        }
    } else {
        assert(texts(items) =~= Seq::empty());
    }
}

/// A coordinator is asked for nothing it did not say: a model is listed exactly where a field of
/// its `models` names it, a role exactly where its `roles` do, models in order and once each; and
/// a body that does not say it is a coordinator's names neither.
pub proof fn law_what_is_listed_is_what_was_said(body: Tree, name: Seq<char>, k: int)
    ensures
        body.field("orangu_coordinator"@) != Tree::Bool(true) ==> models_of(body) is None
            && roles_of(body) is None,
        body.field("orangu_coordinator"@) == Tree::Bool(true) ==> models_of(body) is Some,
        models_of(body) matches Some(models) ==> strictly_ascending(models) && match body.field(
            "models"@,
        ) {
            Tree::Object(fields) => models.contains(name) <==> exists|i: int|
                0 <= i < fields.len() && (#[trigger] fields[i]).1 == Tree::Text(name),
            _ => models.len() == 0,
        },
        roles_of(body) matches Some(roles) ==> roles.len() > 0 && body.field("roles"@) is Array && (
        roles.contains(name) <==> body.field("roles"@)->Array_0.contains(Tree::Text(name))),
        roles_of(body) is None && body.field("orangu_coordinator"@) == Tree::Bool(true)
            && body.field("roles"@) is Array ==> !body.field("roles"@)->Array_0.contains(
            Tree::Text(name),
        ),
{
    broadcast use vstd::seq_lib::group_to_multiset_ensures;

    if let Tree::Array(items) = body.field("roles"@) {
        lemma_texts(items, name);
        if texts(items).len() == 0 {
            assert(!texts(items).contains(name));
        }
    }
    let named = models_named(body);
    text::lemma_sorted(named);
    let sorted = text::sorted_spec(named);
    law_each_model_is_named_once(sorted);
    assert(deduped(sorted).contains(name) == sorted.contains(name));
    assert(sorted.contains(name) <==> sorted.to_multiset().count(name) > 0);
    assert(named.contains(name) <==> named.to_multiset().count(name) > 0);
    if let Tree::Object(fields) = body.field("models"@) {
        let values = values_of(fields);
        lemma_texts(values, name);
        if values.contains(Tree::Text(name)) {
            let j = choose|j: int| 0 <= j < values.len() && values[j] == Tree::Text(name);
            assert(fields[j].1 == Tree::Text(name));
        }
        if exists|i: int| 0 <= i < fields.len() && (#[trigger] fields[i]).1 == Tree::Text(name) {
            let i = choose|i: int| 0 <= i < fields.len() && (#[trigger] fields[i]).1 == Tree::Text(name);
            assert(values[i] == Tree::Text(name));
        }
    } else {
        assert(sorted.len() == 0);
    }
}

/// A request that failed tells nothing, and neither does a body that is no JSON.
pub proof fn law_a_failed_request_tells_nothing(body: Seq<u8>)
    ensures
        models_told(false, body) is None,
        roles_told(false, body) is None,
        json::json_text(body) is None ==> models_told(true, body) is None && roles_told(
            true,
            body,
        ) is None,
        json::json_text(body) matches Some(tree) ==> models_told(true, body) == models_of(tree)
            && roles_told(true, body) == roles_of(tree),
{
}

} // verus!

//! JSON documents as plain values.

use crate::text::same_text;
use vstd::prelude::*;

verus! {

/// The three readings of a JSON number that the library uses.
#[derive(Clone, Copy, Debug, PartialEq, Eq, Structural)]
pub struct Number {
    /// The value when it is a non-negative integer below 2^64.
    pub unsigned: Option<u64>,
    /// The binary64 bit pattern of the value.
    pub double: u64,
    /// The binary32 bit pattern of the value.
    pub single: u32,
}

/// A JSON value. Objects list their members in the order in which the parser keeps them.
#[derive(Debug)]
pub enum Json {
    Null,
    Bool(bool),
    Number(Number),
    /// A string, with the number that its text denotes when the text is a numeral.
    Text(String, Option<Number>),
    Array(Vec<Json>),
    Object(Vec<(String, Json)>),
}

/// The mathematical counterpart of [`Json`].
pub ghost enum Tree {
    Null,
    Bool(bool),
    Number(Number),
    Text(Seq<char>, Option<Number>),
    Array(Seq<Tree>),
    Object(Seq<(Seq<char>, Tree)>),
}

impl Json {
    /// The tree of this value.
    pub open spec fn tree(self) -> Tree
        decreases self,
    {
        match self {
            Json::Null => Tree::Null,
            Json::Bool(b) => Tree::Bool(b),
            Json::Number(n) => Tree::Number(n),
            Json::Text(t, n) => Tree::Text(t@, n),
            Json::Array(items) => Tree::Array(
                Seq::new(
                    items@.len(),
                    |i: int|
                        if 0 <= i < items@.len() {
                            items@[i].tree()
                        } else {
                            Tree::Null
                        },
                ),
            ),
            Json::Object(members) => Tree::Object(
                Seq::new(
                    members@.len(),
                    |i: int|
                        if 0 <= i < members@.len() {
                            (members@[i].0@, members@[i].1.tree())
                        } else {
                            (Seq::empty(), Tree::Null)
                        },
                ),
            ),
        }
    }
}

impl View for Json {
    type V = Tree;

    open spec fn view(&self) -> Tree {
        self.tree()
    }
}

/// The trees of a list of values.
pub open spec fn trees(items: Seq<Json>) -> Seq<Tree> {
    Seq::new(items.len(), |i: int| items[i]@)
}

/// The trees of a list of members.
pub open spec fn member_trees(members: Seq<(String, Json)>) -> Seq<(Seq<char>, Tree)> {
    Seq::new(members.len(), |i: int| (members[i].0@, members[i].1@))
}

/// An array's tree holds the trees of its items.
pub proof fn lemma_array_view(items: Vec<Json>)
    ensures
        Json::Array(items)@ == Tree::Array(trees(items@)),
{
    reveal_with_fuel(Json::tree, 2);
    assert(Json::Array(items)@->Array_0 =~= trees(items@));
}

/// An object's tree holds the trees of its members.
pub proof fn lemma_object_view(members: Vec<(String, Json)>)
    ensures
        Json::Object(members)@ == Tree::Object(member_trees(members@)),
{
    reveal_with_fuel(Json::tree, 2);
    assert(Json::Object(members)@->Object_0 =~= member_trees(members@));
}

/// An item of an array stands below it.
pub proof fn lemma_array_descends(items: Vec<Json>, i: int)
    requires
        0 <= i < items@.len(),
    ensures
        decreases_to!(Json::Array(items) => items@[i]),
{
    let whole = Json::Array(items);
    assert(decreases_to!(whole => whole->Array_0));
    assert(decreases_to!(items => items@));
    assert(decreases_to!(items@ => items@[i]));
}

/// A member of an object stands below it.
pub proof fn lemma_object_descends(members: Vec<(String, Json)>, i: int)
    requires
        0 <= i < members@.len(),
    ensures
        decreases_to!(Json::Object(members) => members@[i].1),
{
    let whole = Json::Object(members);
    assert(decreases_to!(whole => whole->Object_0));
    assert(decreases_to!(members => members@));
    assert(decreases_to!(members@ => members@[i]));
    assert(decreases_to!(members@[i] => members@[i].1));
}

/// The tree behind an optional reference.
pub open spec fn tree_of(v: Option<&Json>) -> Option<Tree> {
    match v {
        Some(j) => Some(j@),
        None => None,
    }
}

/// The position of the first member named `key`, at `from` or later.
pub open spec fn member_index(members: Seq<(Seq<char>, Tree)>, key: Seq<char>, from: int) -> Option<
    int,
>
    decreases members.len() - from,
{
    if from < 0 || from >= members.len() {
        None
    } else if members[from].0 == key {
        Some(from)
    } else {
        member_index(members, key, from + 1)
    }
}

/// What stands under `key` in an object; nothing in any other value.
pub open spec fn get_of(v: Option<Tree>, key: Seq<char>) -> Option<Tree> {
    match v {
        Some(Tree::Object(members)) => match member_index(members, key, 0) {
            Some(i) => Some(members[i].1),
            None => None,
        },
        _ => None,
    }
}

/// The text of a string.
pub open spec fn text_of(v: Option<Tree>) -> Option<Seq<char>> {
    match v {
        Some(Tree::Text(t, _)) => Some(t),
        _ => None,
    }
}

/// The value of a boolean.
pub open spec fn bool_of(v: Option<Tree>) -> Option<bool> {
    match v {
        Some(Tree::Bool(b)) => Some(b),
        _ => None,
    }
}

/// A number.
pub open spec fn number_of(v: Option<Tree>) -> Option<Number> {
    match v {
        Some(Tree::Number(n)) => Some(n),
        _ => None,
    }
}

/// A number that is a non-negative integer below 2^64.
pub open spec fn unsigned_of(v: Option<Tree>) -> Option<u64> {
    match v {
        Some(Tree::Number(n)) => n.unsigned,
        _ => None,
    }
}

/// The binary32 pattern of a number, `default` for any other value.
pub open spec fn single_or_of(v: Option<Tree>, default: u32) -> u32 {
    match v {
        Some(Tree::Number(n)) => n.single,
        _ => default,
    }
}

/// The items of an array.
pub open spec fn array_of(v: Option<Tree>) -> Option<Seq<Tree>> {
    match v {
        Some(Tree::Array(items)) => Some(items),
        _ => None,
    }
}

/// The items of an array, none for any other value.
pub open spec fn items_of(v: Option<Tree>) -> Seq<Tree> {
    match v {
        Some(Tree::Array(items)) => items,
        _ => Seq::empty(),
    }
}

/// The members of an object.
pub open spec fn object_of(v: Option<Tree>) -> Option<Seq<(Seq<char>, Tree)>> {
    match v {
        Some(Tree::Object(members)) => Some(members),
        _ => None,
    }
}

/// The item at `index` of an array.
pub open spec fn item_of(v: Option<Tree>, index: int) -> Option<Tree> {
    match v {
        Some(Tree::Array(items)) => if 0 <= index < items.len() {
            Some(items[index])
        } else {
            None
        },
        _ => None,
    }
}

/// The first member of an object, with its name.
pub open spec fn first_key_value_of(v: Option<Tree>) -> Option<(Seq<char>, Tree)> {
    match v {
        Some(Tree::Object(members)) => if members.len() > 0 {
            Some(members[0])
        } else {
            None
        },
        _ => None,
    }
}

/// The views of an optional string.
pub open spec fn chars_opt(v: Option<&String>) -> Option<Seq<char>> {
    match v {
        Some(s) => Some(s@),
        None => None,
    }
}

/// What stands under `key` in an object.
pub fn get<'a>(v: Option<&'a Json>, key: &str) -> (r: Option<&'a Json>)
    ensures
        tree_of(r) == get_of(tree_of(v), key@),
        r matches Some(j) ==> v matches Some(o) && decreases_to!(*o => *j),
{
    match v {
        Some(Json::Object(members)) => {
            proof {
                lemma_object_view(*members);
            }
            let ghost view = member_trees(members@);
            let mut i: usize = 0;
            while i < members.len()
                invariant
                    i <= members@.len(),
                    view == member_trees(members@),
                    member_index(view, key@, 0) == member_index(view, key@, i as int),
                    v == Some(&Json::Object(*members)),
                    v->0@ == Tree::Object(view),
                decreases members@.len() - i,
            {
                if same_text(members[i].0.as_str(), key) {
                    return Some(&members[i].1);
                }
                i += 1;
            }
            None
        },
        _ => None,
    }
}

/// The text of a string.
pub fn text<'a>(v: Option<&'a Json>) -> (r: Option<&'a String>)
    ensures
        chars_opt(r) == text_of(tree_of(v)),
{
    match v {
        Some(Json::Text(t, _)) => Some(t),
        _ => None,
    }
}

/// The value of a boolean.
pub fn boolean(v: Option<&Json>) -> (r: Option<bool>)
    ensures
        r == bool_of(tree_of(v)),
{
    match v {
        Some(Json::Bool(b)) => Some(*b),
        _ => None,
    }
}

/// A number.
pub fn number(v: Option<&Json>) -> (r: Option<Number>)
    ensures
        r == number_of(tree_of(v)),
{
    match v {
        Some(Json::Number(n)) => Some(*n),
        _ => None,
    }
}

/// A number that is a non-negative integer below 2^64.
pub fn unsigned(v: Option<&Json>) -> (r: Option<u64>)
    ensures
        r == unsigned_of(tree_of(v)),
{
    match v {
        Some(Json::Number(n)) => n.unsigned,
        _ => None,
    }
}

/// The binary32 pattern of a number, `default` for any other value.
pub fn single_or(v: Option<&Json>, default: u32) -> (r: u32)
    ensures
        r == single_or_of(tree_of(v), default),
{
    match v {
        Some(Json::Number(n)) => n.single,
        _ => default,
    }
}

/// The items of an array.
pub fn array<'a>(v: Option<&'a Json>) -> (r: Option<&'a Vec<Json>>)
    ensures
        match r {
            Some(items) => array_of(tree_of(v)) == Some(trees(items@)) && v == Some(
                &Json::Array(*items),
            ),
            None => array_of(tree_of(v)) is None,
        },
{
    match v {
        Some(Json::Array(items)) => {
            proof {
                lemma_array_view(*items);
            }
            Some(items)
        },
        _ => None,
    }
}

/// The members of an object.
pub fn object<'a>(v: Option<&'a Json>) -> (r: Option<&'a Vec<(String, Json)>>)
    ensures
        match r {
            Some(members) => object_of(tree_of(v)) == Some(member_trees(members@)) && v == Some(
                &Json::Object(*members),
            ),
            None => object_of(tree_of(v)) is None,
        },
{
    match v {
        Some(Json::Object(members)) => {
            proof {
                lemma_object_view(*members);
            }
            Some(members)
        },
        _ => None,
    }
}

/// The item at `index` of an array.
pub fn item<'a>(v: Option<&'a Json>, index: usize) -> (r: Option<&'a Json>)
    ensures
        tree_of(r) == item_of(tree_of(v), index as int),
{
    match array(v) {
        Some(items) => if index < items.len() {
            Some(&items[index])
        } else {
            None
        },
        None => None,
    }
}

/// The first member of an object, with its name.
pub fn first_key_value<'a>(v: Option<&'a Json>) -> (r: Option<(&'a String, &'a Json)>)
    ensures
        match r {
            Some((k, j)) => first_key_value_of(tree_of(v)) == Some((k@, j@)),
            None => first_key_value_of(tree_of(v)) is None,
        },
{
    match object(v) {
        Some(members) => if members.len() > 0 {
            Some((&members[0].0, &members[0].1))
        } else {
            None
        },
        None => None,
    }
}

/// Whether a string value is exactly `literal`.
pub fn text_is(v: Option<&Json>, literal: &str) -> (r: bool)
    ensures
        r == (text_of(tree_of(v)) == Some(literal@)),
{
    match text(v) {
        Some(t) => same_text(t.as_str(), literal),
        None => false,
    }
}

impl Json {
    /// A value with the same tree.
    pub fn duplicate(&self) -> (r: Json)
        ensures
            r@ == self@,
        decreases self,
    {
        match self {
            Json::Null => Json::Null,
            Json::Bool(b) => Json::Bool(*b),
            Json::Number(n) => Json::Number(*n),
            Json::Text(t, n) => Json::Text(t.clone(), *n),
            Json::Array(items) => {
                let mut copy: Vec<Json> = Vec::new();
                let mut i: usize = 0;
                while i < items.len()
                    invariant
                        i <= items@.len(),
                        *self == Json::Array(*items),
                        copy@.len() == i,
                        forall|k: int| 0 <= k < i ==> (#[trigger] copy@[k])@ == items@[k]@,
                    decreases items@.len() - i,
                {
                    proof {
                        lemma_array_descends(*items, i as int);
                    }
                    let one = items[i].duplicate();
                    copy.push(one);
                    i += 1;
                }
                proof {
                    lemma_array_view(*items);
                    lemma_array_view(copy);
                    assert(trees(copy@) =~= trees(items@));
                }
                Json::Array(copy)
            },
            Json::Object(members) => {
                let mut copy: Vec<(String, Json)> = Vec::new();
                let mut i: usize = 0;
                while i < members.len()
                    invariant
                        i <= members@.len(),
                        *self == Json::Object(*members),
                        copy@.len() == i,
                        forall|k: int|
                            0 <= k < i ==> (#[trigger] copy@[k]).1@ == members@[k].1@
                                && copy@[k].0@ == members@[k].0@,
                    decreases members@.len() - i,
                {
                    proof {
                        lemma_object_descends(*members, i as int);
                    }
                    let one = members[i].1.duplicate();
                    copy.push((members[i].0.clone(), one));
                    i += 1;
                }
                proof {
                    lemma_object_view(*members);
                    lemma_object_view(copy);
                    assert(member_trees(copy@) =~= member_trees(members@));
                }
                Json::Object(copy)
            },
        }
    }
}

/// The values directly inside a value: an array's items, or what an object's members hold.
pub open spec fn kids(t: Tree) -> Seq<Tree> {
    match t {
        Tree::Array(items) => items,
        Tree::Object(members) => Seq::new(members.len(), |i: int| members[i].1),
        _ => Seq::empty(),
    }
}

/// What is inside a value stands below it.
pub proof fn lemma_kid_descends(t: Tree, i: int)
    requires
        0 <= i < kids(t).len(),
    ensures
        decreases_to!(t => kids(t)[i]),
{
    match t {
        Tree::Array(items) => {
            assert(decreases_to!(t => t->Array_0));
            assert(decreases_to!(items => items[i]));
        },
        Tree::Object(members) => {
            assert(decreases_to!(t => t->Object_0));
            assert(decreases_to!(members => members[i]));
            assert(decreases_to!(members[i] => members[i].1));
        },
        _ => {},
    }
}

/// The first member found lies within the object.
pub proof fn lemma_member_index(members: Seq<(Seq<char>, Tree)>, key: Seq<char>, from: int)
    ensures
        member_index(members, key, from) matches Some(i) ==> 0 <= i < members.len() && from <= i
            && members[i].0 == key,
    decreases members.len() - from,
{
    if 0 <= from < members.len() && members[from].0 != key {
        lemma_member_index(members, key, from + 1);
    }
}

/// What stands under a key stands below the object.
pub proof fn lemma_get_descends(t: Tree, key: Seq<char>)
    ensures
        get_of(Some(t), key) matches Some(u) ==> decreases_to!(t => u),
{
    match t {
        Tree::Object(members) => {
            lemma_member_index(members, key, 0);
            match member_index(members, key, 0) {
                Some(i) => {
                    lemma_kid_descends(t, i);
                },
                None => {},
            }
        },
        _ => {},
    }
}

/// The items of the array under a key stand below the object.
pub proof fn lemma_get_item_descends(t: Tree, key: Seq<char>, i: int)
    requires
        0 <= i < items_of(get_of(Some(t), key)).len(),
    ensures
        decreases_to!(t => items_of(get_of(Some(t), key))[i]),
{
    lemma_get_descends(t, key);
    let u = get_of(Some(t), key)->0;
    lemma_kid_descends(u, i);
}

/// How many values are directly inside a value.
pub fn kid_count(v: &Json) -> (n: usize)
    ensures
        n == kids(v@).len(),
{
    match v {
        Json::Array(items) => {
            proof {
                lemma_array_view(*items);
            }
            items.len()
        },
        Json::Object(members) => {
            proof {
                lemma_object_view(*members);
            }
            members.len()
        },
        _ => 0,
    }
}

/// One of the values directly inside a value.
pub fn kid<'a>(v: &'a Json, i: usize) -> (r: &'a Json)
    requires
        i < kids(v@).len(),
    ensures
        r@ == kids(v@)[i as int],
        decreases_to!(*v => *r),
{
    match v {
        Json::Array(items) => {
            proof {
                lemma_array_view(*items);
                lemma_array_descends(*items, i as int);
            }
            &items[i]
        },
        Json::Object(members) => {
            proof {
                lemma_object_view(*members);
                lemma_object_descends(*members, i as int);
            }
            &members[i].1
        },
        _ => v,
    }
}

/// The items of the array under `key`, none if there is no array.
pub fn items_under<'a>(v: &'a Json, key: &str) -> (r: Option<&'a Vec<Json>>)
    ensures
        match r {
            Some(items) => items_of(get_of(Some(v@), key@)) == trees(items@) && forall|i: int|
                #![trigger items@[i]]
                0 <= i < items@.len() ==> decreases_to!(*v => items@[i]),
            None => items_of(get_of(Some(v@), key@)).len() == 0,
        },
{
    let u = get(Some(v), key);
    match array(u) {
        Some(items) => {
            proof {
                assert forall|i: int|
                    #![trigger items@[i]]
                    0 <= i < items@.len() implies decreases_to!(*v => items@[i]) by {
                    lemma_array_descends(*items, i);
                }
            }
            Some(items)
        },
        None => None,
    }
}

/// What stands under `key` in an object or, when the key is the numeral of `index`, at that
/// position of an array.
pub open spec fn get_or_item_of(v: Option<Tree>, key: Seq<char>, index: int) -> Option<Tree> {
    match v {
        Some(Tree::Array(_)) => item_of(v, index),
        _ => get_of(v, key),
    }
}

/// What stands under `key` in an object or at position `index` of an array.
pub fn get_or_item<'a>(v: Option<&'a Json>, key: &str, index: usize) -> (r: Option<&'a Json>)
    ensures
        tree_of(r) == get_or_item_of(tree_of(v), key@, index as int),
{
    match v {
        Some(Json::Array(_)) => item(v, index),
        _ => get(v, key),
    }
}

/// What stands under a name in an object is the first member of that name.
pub proof fn law_first_member_of_a_name_counts(
    members: Seq<(Seq<char>, Tree)>,
    at: int,
    key: Seq<char>,
)
    requires
        0 <= at < members.len(),
        members[at].0 == key,
        forall|k: int| 0 <= k < at ==> (#[trigger] members[k]).0 != key,
    ensures
        get_of(Some(Tree::Object(members)), key) == Some(members[at].1),
{
    lemma_member_is_at(members, key, 0, at);
}

/// The first member of a name is found.
proof fn lemma_member_is_at(members: Seq<(Seq<char>, Tree)>, key: Seq<char>, from: int, at: int)
    requires
        0 <= from <= at < members.len(),
        members[at].0 == key,
        forall|k: int| 0 <= k < at ==> (#[trigger] members[k]).0 != key,
    ensures
        member_index(members, key, from) == Some(at),
    decreases at - from,
{
    if from < at {
        assert(members[from].0 != key);
        lemma_member_is_at(members, key, from + 1, at);
    }
}

/// Nothing stands under a name that no member has, nor in a value that is no object.
pub proof fn law_missing_members(members: Seq<(Seq<char>, Tree)>, key: Seq<char>, items: Seq<Tree>)
    requires
        forall|k: int| 0 <= k < members.len() ==> (#[trigger] members[k]).0 != key,
    ensures
        get_of(Some(Tree::Object(members)), key) is None,
        get_of(Some(Tree::Array(items)), key) is None,
        get_of(Some(Tree::Null), key) is None,
        get_of(None, key) is None,
{
    lemma_no_member(members, key, 0);
}

/// Where no member has a name, none is found.
proof fn lemma_no_member(members: Seq<(Seq<char>, Tree)>, key: Seq<char>, from: int)
    requires
        0 <= from,
        forall|k: int| 0 <= k < members.len() ==> (#[trigger] members[k]).0 != key,
    ensures
        member_index(members, key, from) is None,
    decreases members.len() - from,
{
    if from < members.len() {
        assert(members[from].0 != key);
        lemma_no_member(members, key, from + 1);
    }
}

} // verus!

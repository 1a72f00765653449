//! The named numbers that accompany geometries and animations.

use crate::float_bits::{double_finite, double_finite_of, double_to_u32, double_to_u32_of};
use crate::json::{array, get, get_of, items_of, text, text_of, tree_of, trees, Json, Tree};
use vstd::hash_map::StringHashMap;
use vstd::prelude::*;

verus! {

/// A number in two precisions, as bit patterns.
#[derive(Clone, Copy, Debug, PartialEq, Eq, Structural)]
pub struct Figure {
    pub double: u64,
    pub single: u32,
}

/// The number that a value stands for: a number itself, a string that is a finite numeral, and
/// zero for everything else.
pub open spec fn figure_of(v: Option<Tree>) -> Figure {
    match v {
        Some(Tree::Number(n)) => Figure { double: n.double, single: n.single },
        Some(Tree::Text(_, Some(n))) => if double_finite_of(n.double) {
            Figure { double: n.double, single: n.single }
        } else {
            Figure { double: 0, single: 0 }
        },
        _ => Figure { double: 0, single: 0 },
    }
}

/// The number that a value stands for.
pub fn figure(v: Option<&Json>) -> (r: Figure)
    ensures
        r == figure_of(tree_of(v)),
{
    match v {
        Some(Json::Number(n)) => Figure { double: n.double, single: n.single },
        Some(Json::Text(_, Some(n))) => if double_finite(n.double) {
            Figure { double: n.double, single: n.single }
        } else {
            Figure { double: 0, single: 0 }
        },
        _ => Figure { double: 0, single: 0 },
    }
}

/// The list of named values of a geometry or an animation channel.
pub open spec fn user_data_list(t: Tree) -> Seq<Tree> {
    items_of(get_of(get_of(Some(t), "UserDataContainer"@), "Values"@))
}

/// The numbers of the first `n` named values. A later value replaces an earlier one of its name.
pub open spec fn figures_upto(list: Seq<Tree>, n: int) -> Map<Seq<char>, Figure>
    decreases n,
{
    if n <= 0 {
        Map::empty()
    } else {
        let before = figures_upto(list, n - 1);
        match text_of(get_of(Some(list[n - 1]), "Name"@)) {
            Some(name) => before.insert(name, figure_of(get_of(Some(list[n - 1]), "Value"@))),
            None => before,
        }
    }
}

/// The named numbers of a geometry or an animation channel.
pub open spec fn user_data_of(t: Tree) -> Map<Seq<char>, Figure> {
    figures_upto(user_data_list(t), user_data_list(t).len() as int)
}

/// The named numbers of a geometry or an animation channel.
pub fn user_data_values(value: &Json) -> (r: StringHashMap<Figure>)
    ensures
        r@ == user_data_of(value@),
{
    let mut result: StringHashMap<Figure> = StringHashMap::new();
    match array(get(get(Some(value), "UserDataContainer"), "Values")) {
        Some(values) => {
            let ghost list = trees(values@);
            let mut i: usize = 0;
            while i < values.len()
                invariant
                    i <= values@.len(),
                    list == trees(values@),
                    result@ == figures_upto(list, i as int),
                decreases values@.len() - i,
            {
                let entry = Some(&values[i]);
                assert(list[i as int] == values@[i as int]@);
                match text(get(entry, "Name")) {
                    Some(name) => {
                        result.insert(name.clone(), figure(get(entry, "Value")));
                    },
                    None => {},
                }
                i += 1;
            }
        },
        None => {},
    }
    result
}

/// The number of that name cut to an unsigned 32-bit integer, zero if there is none.
pub open spec fn flags_of(m: Map<Seq<char>, Figure>, key: Seq<char>) -> u32 {
    if m.contains_key(key) {
        double_to_u32_of(m[key].double)
    } else {
        double_to_u32_of(0)
    }
}

/// The binary32 pattern of the number of that name, zero if there is none.
pub open spec fn single_of(m: Map<Seq<char>, Figure>, key: Seq<char>) -> u32 {
    if m.contains_key(key) {
        m[key].single
    } else {
        0
    }
}

/// The number of that name cut to an unsigned 32-bit integer.
pub fn flags(m: &StringHashMap<Figure>, key: &str) -> (r: u32)
    ensures
        r == flags_of(m@, key@),
{
    match m.get(key) {
        Some(f) => double_to_u32(f.double),
        None => double_to_u32(0),
    }
}

/// The binary32 pattern of the number of that name.
pub fn meta_value(m: &StringHashMap<Figure>, key: &str) -> (r: u32)
    ensures
        r == single_of(m@, key@),
{
    match m.get(key) {
        Some(f) => f.single,
        None => 0,
    }
}

/// Of several values listed under a name the last one
/// counts.
pub proof fn law_last_value_counts(list: Seq<Tree>, n: int, i: int)
    requires
        0 <= i < n <= list.len(),
        text_of(get_of(Some(list[i]), "Name"@)) is Some,
        forall|j: int|
            i < j < n ==> text_of(get_of(Some(#[trigger] list[j]), "Name"@)) != text_of(
                get_of(Some(list[i]), "Name"@),
            ),
    ensures
        figures_upto(list, n).contains_key(text_of(get_of(Some(list[i]), "Name"@))->0),
        figures_upto(list, n)[text_of(get_of(Some(list[i]), "Name"@))->0] == figure_of(
            get_of(Some(list[i]), "Value"@),
        ),
    decreases n,
{
    if i < n - 1 {
        assert(text_of(get_of(Some(list[n - 1]), "Name"@)) != text_of(
            get_of(Some(list[i]), "Name"@),
        ));
        law_last_value_counts(list, n - 1, i);
    }
}

/// The numbers of a geometry or a channel are those of its user data: each value with a name is
/// kept under it, as the number that it is or that its text denotes, and zero if it is neither; of
/// several values of a name the last one counts.
pub proof fn law_user_data_is_read(t: Tree, list: Seq<Tree>, i: int, name: Seq<char>)
    requires
        get_of(get_of(Some(t), "UserDataContainer"@), "Values"@) == Some(Tree::Array(list)),
        0 <= i < list.len(),
        text_of(get_of(Some(list[i]), "Name"@)) == Some(name),
        forall|j: int|
            i < j < list.len() ==> text_of(get_of(Some(#[trigger] list[j]), "Name"@)) != Some(name),
    ensures
        user_data_of(t).contains_key(name),
        get_of(Some(list[i]), "Value"@) matches Some(Tree::Number(n)) ==> user_data_of(t)[name].single
            == n.single && user_data_of(t)[name].double == n.double,
        get_of(Some(list[i]), "Value"@) matches Some(Tree::Text(_, Some(n))) ==> (double_finite_of(
            n.double,
        ) ==> user_data_of(t)[name].single == n.single && user_data_of(t)[name].double == n.double),
        get_of(Some(list[i]), "Value"@) is None ==> user_data_of(t)[name].single == 0,
{
    law_last_value_counts(list, list.len() as int, i);
}

/// What is read of a number is the number itself, and zero where there is none of its name.
pub proof fn law_missing_numbers_are_zero(m: Map<Seq<char>, Figure>, key: Seq<char>, f: Figure)
    ensures
        single_of(m.insert(key, f), key) == f.single,
        flags_of(m.insert(key, f), key) == double_to_u32_of(f.double),
        !m.contains_key(key) ==> single_of(m, key) == 0,
{
}

} // verus!

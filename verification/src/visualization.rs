//! The files that visualize the mutants which passed.

use crate::text::texts;
use std::collections::HashMap;
use vstd::prelude::*;

verus! {

/// The path of `name` in the directory `dir`.
pub open spec fn path_in(dir: Seq<char>, name: Seq<char>) -> Seq<char> {
    dir + "/"@ + name
}

/// The directory for the visualization of a function.
pub fn item_dir(vis_dir: &str, item_name: &str) -> (res: String)
    ensures
        res@ == vis_dir@ + "/"@ + item_name@,
        res@ == path_in(vis_dir@, item_name@),
{
    vis_dir.to_string().concat("/").concat(item_name)
}

/// The file that lists the functions with a visualization.
pub fn functions_file(vis_dir: &str) -> (res: String)
    ensures
        res@ == vis_dir@ + "/functions.json"@,
        res@ == path_in(vis_dir@, "functions.json"@),
{
    proof {
        reveal_strlit("/");
        reveal_strlit("functions.json");
        reveal_strlit("/functions.json");
        assert(vis_dir@ + "/functions.json"@ =~= path_in(vis_dir@, "functions.json"@));
    }
    vis_dir.to_string().concat("/functions.json")
}

/// The hexadecimal digit `d`, in lower case.
pub open spec fn hex_digit(d: int) -> char {
    if d < 10 {
        ('0' as int + d) as char
    } else {
        ('a' as int + d - 10) as char
    }
}

/// How a character is written between the quotes of a JSON string.
pub open spec fn json_char(c: char) -> Seq<char> {
    if c == '"' {
        seq!['\\', '"']
    } else if c == '\\' {
        seq!['\\', '\\']
    } else if c as int == 8 {
        seq!['\\', 'b']
    } else if c as int == 9 {
        seq!['\\', 't']
    } else if c as int == 10 {
        seq!['\\', 'n']
    } else if c as int == 12 {
        seq!['\\', 'f']
    } else if c as int == 13 {
        seq!['\\', 'r']
    } else if (c as int) < 32 {
        seq!['\\', 'u', '0', '0', hex_digit(c as int / 16), hex_digit(c as int % 16)]
    } else {
        seq![c]
    }
}

/// `text` as a JSON string.
pub open spec fn json_string(text: Seq<char>) -> Seq<char> {
    seq!['"'] + text.map_values(|c: char| json_char(c)).flatten() + seq!['"']
}

/// `entries` as the members of a JSON object.
pub open spec fn json_members(entries: Seq<(Seq<char>, Seq<char>)>) -> Seq<char>
    decreases entries.len(),
{
    if entries.len() == 0 {
        Seq::empty()
    } else {
        let member = json_string(entries.last().0) + seq![':'] + json_string(entries.last().1);
        if entries.len() == 1 {
            member
        } else {
            json_members(entries.drop_last()) + seq![','] + member
        }
    }
}

/// `entries` as a JSON object without white space.
pub open spec fn json_object(entries: Seq<(Seq<char>, Seq<char>)>) -> Seq<char> {
    seq!['{'] + json_members(entries) + seq!['}']
}

/// The texts of a list of pairs of strings.
pub open spec fn text_pairs(pairs: Seq<(String, String)>) -> Seq<(Seq<char>, Seq<char>)> {
    pairs.map_values(|pair: (String, String)| (pair.0@, pair.1@))
}

/// `text` is the JSON object with exactly the members `entries`, in some order.
pub open spec fn is_json_object_of(
    text: Seq<char>,
    entries: Set<(Seq<char>, Seq<char>)>,
) -> bool {
    exists|order: Seq<(Seq<char>, Seq<char>)>|
        #![trigger json_object(order)]
        order.no_duplicates() && order.to_set() == entries && text == json_object(order)
}

/// `serde_json::Error`, the reason why a value cannot be written as JSON.
#[verifier::external_type_specification]
#[verifier::external_body]
pub struct ExSerdeJsonError(serde_json::Error);

/// `serde_json::to_string` on a `HashMap` with these keys and values. Between strings and
/// strings it succeeds, and it writes the members in the order in which the map is walked,
/// which is not determined.
#[verifier::external_body]
fn map_to_json(pairs: Vec<(String, String)>) -> (res: Result<String, serde_json::Error>)
    requires
        forall|i: int, j: int|
            #![trigger pairs@[i], pairs@[j]]
            0 <= i < j < pairs@.len() ==> pairs@[i].0@ != pairs@[j].0@,
    ensures
        res is Ok,
        is_json_object_of(res->Ok_0@, text_pairs(pairs@).to_set()),
{
    serde_json::to_string(&pairs.into_iter().collect::<HashMap<String, String>>())
}

/// Each of `names` with itself.
pub open spec fn with_itself(names: Set<Seq<char>>) -> Set<(Seq<char>, Seq<char>)> {
    names.map(|name: Seq<char>| (name, name))
}

/// Whether one of the pairs begins with `name`.
fn has_key(pairs: &Vec<(String, String)>, name: &String) -> (res: bool)
    ensures
        res == (exists|i: int|
            #![trigger pairs@[i]]
            0 <= i < pairs@.len() && pairs@[i].0@ == name@),
{
    let mut i: usize = 0;
    while i < pairs.len()
        invariant
            i <= pairs.len(),
            forall|j: int| 0 <= j < i ==> (#[trigger] pairs@[j]).0@ != name@,
        decreases pairs.len() - i,
    {
        if pairs[i].0 == *name {
            assert(pairs@[i as int].0@ == name@);
            return true;
        }
        i = i + 1;
    }
    false
}

/// The contents of the file that lists the functions with a visualization: a JSON object
/// that maps the name of each function to itself.
pub fn functions_json(item_names: &Vec<String>) -> (res: String)
    ensures
        is_json_object_of(res@, with_itself(texts(item_names@).to_set())),
{
    let ghost names = texts(item_names@);
    let mut pairs: Vec<(String, String)> = Vec::new();
    let mut i: usize = 0;
    while i < item_names.len()
        invariant
            names == texts(item_names@),
            i <= item_names.len(),
            forall|j: int, k: int|
                #![trigger pairs@[j], pairs@[k]]
                0 <= j < k < pairs@.len() ==> pairs@[j].0@ != pairs@[k].0@,
            forall|j: int|
                0 <= j < pairs@.len() ==> (#[trigger] pairs@[j]).1@ == pairs@[j].0@
                    && names.contains(pairs@[j].0@),
            forall|k: int|
                0 <= k < i ==> exists|j: int|
                    #![trigger pairs@[j]]
                    0 <= j < pairs@.len() && pairs@[j].0@ == #[trigger] names[k],
        decreases item_names.len() - i,
    {
        let name = &item_names[i];
        let ghost before = pairs@;
        assert(names[i as int] == name@);
        if !has_key(&pairs, name) {
            pairs.push((name.clone(), name.clone()));
            assert(pairs@[before.len() as int].0@ == name@);
            assert forall|k: int| 0 <= k < i implies exists|j: int|
                #![trigger pairs@[j]]
                0 <= j < pairs@.len() && pairs@[j].0@ == #[trigger] names[k] by {
                let j = choose|j: int|
                    #![trigger before[j]]
                    0 <= j < before.len() && before[j].0@ == names[k];
                assert(pairs@[j] == before[j]);
            }
        }
        i = i + 1;
    }
    proof {
        let entries = text_pairs(pairs@);
        assert forall|entry: (Seq<char>, Seq<char>)| entries.to_set().contains(entry)
            == #[trigger] with_itself(names.to_set()).contains(entry) by {
            if entries.to_set().contains(entry) {
                let j = choose|j: int| 0 <= j < entries.len() && entries[j] == entry;
                assert(pairs@[j].1@ == pairs@[j].0@);
                assert(names.to_set().contains(entry.0));
            }
            if with_itself(names.to_set()).contains(entry) {
                let k = choose|k: int| 0 <= k < names.len() && names[k] == entry.0;
                let j = choose|j: int|
                    #![trigger pairs@[j]]
                    0 <= j < pairs@.len() && pairs@[j].0@ == names[k];
                assert(entries[j] == entry);
            }
        }
        assert(entries.to_set() =~= with_itself(names.to_set()));
    }
    map_to_json(pairs).expect("Failed to serialize item names to JSON")
}

/// The list of functions has an entry for each name and no other, and maps it to itself.
pub proof fn law_each_function_is_listed_as_itself(
    names: Set<Seq<char>>,
    key: Seq<char>,
    value: Seq<char>,
)
    ensures
        with_itself(names).contains((key, value)) <==> names.contains(key) && value == key,
{
    if names.contains(key) && value == key {
        assert(with_itself(names).contains((key, key)));
    }
}

/// A path is the directory, a slash and the name, whatever they are.
pub proof fn law_paths(dir: Seq<char>, name: Seq<char>)
    ensures
        path_in(dir, name).take(dir.len() as int) == dir,
        path_in(dir, name)[dir.len() as int] == '/',
        path_in(dir, name).skip((dir.len() + 1) as int) == name,
{
    reveal_strlit("/");
    assert(path_in(dir, name).take(dir.len() as int) =~= dir);
    assert(path_in(dir, name).skip((dir.len() + 1) as int) =~= name);
}

/// The members of a JSON object are exactly the given entries, each of them once.
pub proof fn law_an_object_has_exactly_its_entries(
    text: Seq<char>,
    entries: Set<(Seq<char>, Seq<char>)>,
)
    requires
        is_json_object_of(text, entries),
    ensures
        exists|order: Seq<(Seq<char>, Seq<char>)>|
            #![trigger json_members(order)]
            {
                &&& order.no_duplicates()
                &&& forall|entry: (Seq<char>, Seq<char>)| #[trigger]
                    order.contains(entry) <==> entries.contains(entry)
                &&& text == seq!['{'] + json_members(order) + seq!['}']
            },
{
    let order = choose|order: Seq<(Seq<char>, Seq<char>)>|
        #![trigger json_object(order)]
        order.no_duplicates() && order.to_set() == entries && text == json_object(order);
    assert forall|entry: (Seq<char>, Seq<char>)| #[trigger] order.contains(
        entry,
    ) <==> entries.contains(entry) by {
        assert(order.to_set().contains(entry) <==> order.contains(entry));
    }
    assert(text == seq!['{'] + json_members(order) + seq!['}']);
}

} // verus!

//! What a line of JSON holds.

use crate::json::{
    has_key, is_json_line, json_inside, json_members, json_quoted, member_set, object_text,
    version_key,
};
use vstd::prelude::*;

verus! {

/// The key of the version is the name of the program, a hyphen, and `version`.
pub proof fn lemma_version_key(package: Seq<char>)
    ensures
        version_key(package) == package + seq!['-', 'v', 'e', 'r', 's', 'i', 'o', 'n'],
{
    reveal_strlit("-version");
    assert(version_key(package) =~= package + seq!['-', 'v', 'e', 'r', 's', 'i', 'o', 'n']);
}

/// A line is an object in braces that holds, under the name of the program followed by
/// `-version`, the version, both in quotes, and every member of the value under
/// another key.
pub proof fn lemma_line_of_a_sample(
    v: serde_json::Value,
    package: Seq<char>,
    version: Seq<char>,
    line: Seq<char>,
    m: (Seq<char>, Seq<char>),
)
    requires
        is_json_line(v, package, version, line),
    ensures
        ({
            let key = package + seq!['-', 'v', 'e', 'r', 's', 'i', 'o', 'n'];
            let stamp = seq!['"'] + json_inside(key) + seq!['"', ':', '"'] + json_inside(version)
                + seq!['"'];
            &&& line.len() >= 2
            &&& line[0] == '{'
            &&& line.last() == '}'
            &&& crate::text::occurs_in(line, stamp)
            &&& json_members(v).contains(m) && m.0 != key ==> exists|members: Seq<
                (Seq<char>, Seq<char>),
            >| #[trigger] object_text(members) == line && members.contains(m)
        }),
{
    let members = choose|members: Seq<(Seq<char>, Seq<char>)>|
        #[trigger] member_set(
            json_members(v),
            members,
            version_key(package),
            json_quoted(version),
        ) && line == object_text(members);
    let key = package + seq!['-', 'v', 'e', 'r', 's', 'i', 'o', 'n'];
    lemma_version_key(package);
    crate::json::lemma_line_carries_version(json_members(v), members, package, version);
    let stamp = seq!['"'] + json_inside(key) + seq!['"', ':', '"'] + json_inside(version)
        + seq!['"'];
    assert(crate::json::member_text((key, json_quoted(version))) =~= stamp);
    lemma_other_members_stay(json_members(v), members, key, json_quoted(version), m);
    assert(object_text(members) == line);
}

/// Setting a member leaves every other member as it is, adds none but the one that
/// is set, and there is no other text under its key afterwards.
pub proof fn lemma_other_members_stay(
    before: Seq<(Seq<char>, Seq<char>)>,
    after: Seq<(Seq<char>, Seq<char>)>,
    key: Seq<char>,
    text: Seq<char>,
    m: (Seq<char>, Seq<char>),
)
    requires
        member_set(before, after, key, text),
    ensures
        m.0 != key ==> (before.contains(m) <==> after.contains(m)),
        after.contains((key, text)),
        m.0 == key && after.contains(m) ==> m.1 == text,
{
    if has_key(before, key) {
        let k = choose|i: int| 0 <= i < before.len() && (#[trigger] before[i]).0 == key;
        assert(after[k] == (key, text));
        if before.contains(m) {
            let i = choose|i: int| 0 <= i < before.len() && before[i] == m;
            assert(m.0 != key ==> after[i] == m);
        }
        if after.contains(m) {
            let i = choose|i: int| 0 <= i < after.len() && after[i] == m;
            assert(m.0 != key ==> before[i] == m);
        }
    } else {
        let k = choose|i: int|
            {
                &&& 0 <= i <= before.len()
                &&& after == #[trigger] before.insert(i, (key, text))
                &&& forall|j: int|
                    0 <= j < i ==> crate::json::comes_before((#[trigger] before[j]).0, key)
                &&& forall|j: int|
                    i <= j < before.len() ==> crate::json::comes_before(
                        key,
                        (#[trigger] before[j]).0,
                    )
            };
        assert(after[k] == (key, text));
        if before.contains(m) {
            let i = choose|i: int| 0 <= i < before.len() && before[i] == m;
            if i < k {
                assert(after[i] == m);
            } else {
                assert(after[i + 1] == m);
            }
        }
        if after.contains(m) {
            let i = choose|i: int| 0 <= i < after.len() && after[i] == m;
            if i < k {
                assert(before[i] == m);
            } else if i > k {
                assert(before[i - 1] == m);
            }
        }
    }
}

} // verus!

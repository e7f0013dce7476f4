//! One line of JSON per sample.
//!
//! A sample becomes a JSON value outside; here the value is stamped with the
//! version of the program and printed.

use vstd::prelude::*;

verus! {

/// `serde_json::Value`.
#[verifier::external_type_specification]
#[verifier::external_body]
pub struct ExJsonValue(serde_json::Value);

/// Whether a JSON value is an object.
pub uninterp spec fn json_is_object(v: serde_json::Value) -> bool;

/// The members of a JSON object in the order of their keys: each key, and the text
/// of what it maps to.
pub uninterp spec fn json_members(v: serde_json::Value) -> Seq<(Seq<char>, Seq<char>)>;

/// `serde_json::Value::is_object`: tells whether the value is an object.
pub assume_specification[ serde_json::Value::is_object ](v: &serde_json::Value) -> (r: bool)
    ensures
        r == json_is_object(*v),
;

/// A hexadecimal digit.
pub open spec fn hex_digit(n: int) -> char {
    if n < 10 {
        ('0' as int + n) as char
    } else {
        ('a' as int + (n - 10)) as char
    }
}

/// How one character stands inside a JSON string.
pub open spec fn json_escaped(c: char) -> Seq<char> {
    if c == '"' {
        seq!['\\', '"']
    } else if c == '\\' {
        seq!['\\', '\\']
    } else if c == '\u{8}' {
        seq!['\\', 'b']
    } else if c == '\t' {
        seq!['\\', 't']
    } else if c == '\n' {
        seq!['\\', 'n']
    } else if c == '\u{c}' {
        seq!['\\', 'f']
    } else if c == '\r' {
        seq!['\\', 'r']
    } else if ' ' > c {
        seq!['\\', 'u', '0', '0', hex_digit(c as int / 16), hex_digit(c as int % 16)]
    } else {
        seq![c]
    }
}

/// The inside of a JSON string.
pub open spec fn json_inside(s: Seq<char>) -> Seq<char>
    decreases s.len(),
{
    if s.len() == 0 {
        Seq::empty()
    } else {
        json_inside(s.drop_last()) + json_escaped(s.last())
    }
}

/// A JSON string.
pub open spec fn json_quoted(s: Seq<char>) -> Seq<char> {
    (seq!['"'] + json_inside(s)).push('"')
}

/// One member as it is printed.
pub open spec fn member_text(m: (Seq<char>, Seq<char>)) -> Seq<char> {
    json_quoted(m.0).push(':') + m.1
}

/// An object as it is printed: its members between braces, with commas between
/// them and no space.
pub open spec fn object_text(members: Seq<(Seq<char>, Seq<char>)>) -> Seq<char> {
    (seq!['{'] + crate::text::joined(
        members.map_values(|m: (Seq<char>, Seq<char>)| member_text(m)),
        ',',
    )).push('}')
}

/// `a` comes before `b`, character by character.
pub open spec fn comes_before(a: Seq<char>, b: Seq<char>) -> bool
    decreases a.len(),
{
    if b.len() == 0 {
        false
    } else if a.len() == 0 {
        true
    } else if a[0] != b[0] {
        a[0] < b[0]
    } else {
        comes_before(a.drop_first(), b.drop_first())
    }
}

/// The object has a member of that key.
pub open spec fn has_key(members: Seq<(Seq<char>, Seq<char>)>, key: Seq<char>) -> bool {
    exists|i: int| 0 <= i < members.len() && (#[trigger] members[i]).0 == key
}

/// `after` is `before` with `key` set to `text`: in its place where the key was
/// there already, and where it belongs in the order of keys where it was not.
pub open spec fn member_set(
    before: Seq<(Seq<char>, Seq<char>)>,
    after: Seq<(Seq<char>, Seq<char>)>,
    key: Seq<char>,
    text: Seq<char>,
) -> bool {
    if has_key(before, key) {
        &&& after.len() == before.len()
        &&& forall|i: int|
            0 <= i < before.len() ==> #[trigger] after[i] == (if before[i].0 == key {
                (key, text)
            } else {
                before[i]
            })
    } else {
        exists|i: int|
            {
                &&& 0 <= i <= before.len()
                &&& after == #[trigger] before.insert(i, (key, text))
                &&& forall|j: int| 0 <= j < i ==> comes_before((#[trigger] before[j]).0, key)
                &&& forall|j: int|
                    i <= j < before.len() ==> comes_before(key, (#[trigger] before[j]).0)
            }
    }
}

/// Indexing a `serde_json::Value` by a key and assigning a string: on an object
/// this sets the member of that key to the string, which is printed in quotes, and
/// leaves the other members and the order of keys as they are.
#[verifier::external_body]
fn set_text_member(v: &mut serde_json::Value, key: &str, text: &str)
    requires
        json_is_object(*old(v)),
    ensures
        json_is_object(*final(v)),
        member_set(
            json_members(*old(v)),
            json_members(*final(v)),
            key@,
            json_quoted(text@),
        ),
{
    v[key] = serde_json::Value::String(text.to_string());
}

/// `to_string` of a `serde_json::Value`: prints an object in its compact form.
#[verifier::external_body]
fn print_object(v: &serde_json::Value) -> (r: String)
    requires
        json_is_object(*v),
    ensures
        r@ == object_text(json_members(*v)),
{
    v.to_string()
}

/// The key under which a program of that name puts its version.
pub open spec fn version_key(package: Seq<char>) -> Seq<char> {
    package + "-version"@
}

/// `line` is the value with the version of the program set, printed.
pub open spec fn is_json_line(
    v: serde_json::Value,
    package: Seq<char>,
    version: Seq<char>,
    line: Seq<char>,
) -> bool {
    exists|members: Seq<(Seq<char>, Seq<char>)>|
        #[trigger] member_set(
            json_members(v),
            members,
            version_key(package),
            json_quoted(version),
        ) && line == object_text(members)
}

/// The line that a sample makes, `v` being the sample as a JSON value: the value
/// with the version of the program added.  `None` when the value is not an object.
pub fn json_line(v: serde_json::Value, package: &str, version: &str) -> (r: Option<String>)
    ensures
        r matches Some(line) ==> is_json_line(v, package@, version@, line@),
        r is Some <==> json_is_object(v),
        r matches Some(line) ==> exists|members: Seq<(Seq<char>, Seq<char>)>|
            #[trigger] member_set(
                json_members(v),
                members,
                version_key(package@),
                json_quoted(version@),
            ) && line@ == object_text(members),
{
    if !v.is_object() {
        return None;
    }
    let mut stamped: serde_json::Value = v;
    let mut key: String = String::new();
    key.append(package);
    key.append("-version");
    assert(key@ =~= version_key(package@));
    set_text_member(&mut stamped, key.as_str(), version);
    Some(print_object(&stamped))
}

/// A part that was joined stands in the whole.
proof fn lemma_joined_holds(texts: Seq<Seq<char>>, sep: char, k: int)
    requires
        0 <= k < texts.len(),
    ensures
        crate::text::occurs_in(crate::text::joined(texts, sep), texts[k]),
    decreases texts.len(),
{
    let whole = crate::text::joined(texts, sep);
    if texts.len() == 1 {
        assert(whole.subrange(0, texts[0].len() as int) =~= texts[0]);
        assert(crate::text::stands_at(whole, texts[k], 0));
    } else {
        let head = crate::text::joined(texts.drop_last(), sep);
        if k == texts.len() - 1 {
            let at = (head.len() + 1) as int;
            assert(whole.subrange(at, at + texts[k].len()) =~= texts[k]);
            assert(crate::text::stands_at(whole, texts[k], at));
        } else {
            lemma_joined_holds(texts.drop_last(), sep, k);
            let at = choose|i: int| crate::text::stands_at(head, texts[k], i);
            assert(whole.subrange(at, at + texts[k].len()) =~= head.subrange(
                at,
                at + texts[k].len(),
            ));
            assert(crate::text::stands_at(whole, texts[k], at));
        }
    }
}

/// Every line carries the version of the program: the printed object holds the
/// member that was set.
pub proof fn lemma_line_carries_version(
    before: Seq<(Seq<char>, Seq<char>)>,
    after: Seq<(Seq<char>, Seq<char>)>,
    package: Seq<char>,
    version: Seq<char>,
)
    requires
        member_set(before, after, version_key(package), json_quoted(version)),
    ensures
        crate::text::occurs_in(
            object_text(after),
            member_text((version_key(package), json_quoted(version))),
        ),
{
    let key = version_key(package);
    let m = (key, json_quoted(version));
    let k = if has_key(before, key) {
        let i = choose|i: int| 0 <= i < before.len() && (#[trigger] before[i]).0 == key;
        assert(after[i] == m);
        i
    } else {
        let i = choose|i: int|
            {
                &&& 0 <= i <= before.len()
                &&& after == #[trigger] before.insert(i, m)
                &&& forall|j: int| 0 <= j < i ==> comes_before((#[trigger] before[j]).0, key)
                &&& forall|j: int|
                    i <= j < before.len() ==> comes_before(key, (#[trigger] before[j]).0)
            };
        assert(after[i] == m);
        i
    };
    let texts = after.map_values(|m: (Seq<char>, Seq<char>)| member_text(m));
    assert(texts[k] == member_text(m));
    lemma_joined_holds(texts, ',', k);
    let inner = crate::text::joined(texts, ',');
    let at = choose|i: int| crate::text::stands_at(inner, texts[k], i);
    let whole = object_text(after);
    assert(whole.subrange(at + 1, at + 1 + texts[k].len()) =~= inner.subrange(
        at,
        at + texts[k].len(),
    ));
    assert(crate::text::stands_at(whole, member_text(m), at + 1));
}

} // verus!

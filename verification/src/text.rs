//! Plain text: characters, whitespace, decimal numerals.
//!
//! Every function here works on the characters of a string, so its contract is
//! a statement about `Seq<char>`.

use vstd::prelude::*;

verus! {

/// `String::push`: appends one character.
pub assume_specification[ String::push ](s: &mut String, c: char)
    ensures
        final(s)@ == old(s)@.push(c),
;

/// The characters of `s`, one by one.
pub fn to_chars(s: &str) -> (r: Vec<char>)
    ensures
        r@ == s@,
{
    let mut r: Vec<char> = Vec::new();
    for c in it: s.chars()
        invariant
            r@ == it.seq().take(it.index()),
            it.seq() == s@,
    {
        r.push(c);
    }
    r
}

// ---------------------------------------------------------------------------
// Digits and numerals
// ---------------------------------------------------------------------------

pub open spec fn is_digit(c: char) -> bool {
    '0' <= c <= '9'
}

/// The number that the digit `c` stands for.
pub open spec fn digit_value(c: char) -> nat {
    (c as int - '0' as int) as nat
}

/// The digit that stands for `d`.
pub open spec fn digit_char(d: nat) -> char {
    ('0' as int + d) as char
}

pub open spec fn all_digits(s: Seq<char>) -> bool {
    forall|i: int| 0 <= i < s.len() ==> is_digit(#[trigger] s[i])
}

/// The number that a sequence of digits denotes, most significant first.
pub open spec fn digits_value(s: Seq<char>) -> nat
    decreases s.len(),
{
    if s.len() == 0 {
        0
    } else {
        digits_value(s.drop_last()) * 10 + digit_value(s.last())
    }
}

/// The decimal numeral of `n`, without leading zeros.
pub open spec fn decimal(n: nat) -> Seq<char>
    decreases n,
{
    if n < 10 {
        seq![digit_char(n)]
    } else {
        decimal(n / 10).push(digit_char(n % 10))
    }
}

/// The decimal numeral of a signed number.
pub open spec fn signed_decimal(n: int) -> Seq<char> {
    if n < 0 {
        seq!['-'] + decimal((-n) as nat)
    } else {
        decimal(n as nat)
    }
}

/// A numeral is made of digits, and there is at least one.
pub proof fn lemma_decimal_digits(n: nat)
    ensures
        decimal(n).len() > 0,
        all_digits(decimal(n)),
    decreases n,
{
    if n >= 10 {
        lemma_decimal_digits(n / 10);
    }
}

/// Reading a numeral gives back the number it was written for.
pub proof fn lemma_decimal_value(n: nat)
    ensures
        digits_value(decimal(n)) == n,
    decreases n,
{
    if n < 10 {
        assert(decimal(n).drop_last() =~= Seq::<char>::empty());
        reveal_with_fuel(digits_value, 2);
    } else {
        lemma_decimal_value(n / 10);
        assert(decimal(n).drop_last() =~= decimal(n / 10));
    }
}

/// A prefix of a digit sequence denotes no larger a number.
pub proof fn lemma_digits_value_prefix(s: Seq<char>, i: int)
    requires
        0 <= i <= s.len(),
    ensures
        digits_value(s.take(i)) <= digits_value(s),
    decreases s.len() - i,
{
    if i < s.len() {
        lemma_digits_value_prefix(s, i + 1);
        assert(s.take(i + 1).drop_last() =~= s.take(i));
    } else {
        assert(s.take(i) =~= s);
    }
}

/// Appends the decimal numeral of `n` to `out`.
pub fn push_decimal(out: &mut String, n: u128)
    ensures
        final(out)@ == old(out)@ + decimal(n as nat),
    decreases n,
{
    if n >= 10 {
        push_decimal(out, n / 10);
    }
    let d: u8 = (n % 10) as u8;
    let c: char = (48u8 + d) as char;
    out.push(c);
    proof {
        assert(c == digit_char((n % 10) as nat));
        assert(out@ =~= old(out)@ + decimal(n as nat));
    }
}

/// The decimal numeral of `n`.
pub fn decimal_text(n: u128) -> (r: String)
    ensures
        r@ == decimal(n as nat),
{
    let mut r: String = String::new();
    push_decimal(&mut r, n);
    assert(r@ =~= decimal(n as nat));
    r
}

/// The decimal numeral of a signed number.
pub fn signed_decimal_text(n: i64) -> (r: String)
    ensures
        r@ == signed_decimal(n as int),
{
    let mut r: String = String::new();
    if n < 0 {
        r.push('-');
        push_decimal(&mut r, (-(n as i128)) as u128);
    } else {
        push_decimal(&mut r, n as u128);
    }
    assert(r@ =~= signed_decimal(n as int));
    r
}

// ---------------------------------------------------------------------------
// Reading text
// ---------------------------------------------------------------------------

/// The characters that Unicode calls white space.
pub open spec fn is_space(c: char) -> bool {
    ||| '\u{9}' <= c <= '\u{d}'
    ||| c == ' '
    ||| c == '\u{85}'
    ||| c == '\u{a0}'
    ||| c == '\u{1680}'
    ||| '\u{2000}' <= c <= '\u{200a}'
    ||| c == '\u{2028}'
    ||| c == '\u{2029}'
    ||| c == '\u{202f}'
    ||| c == '\u{205f}'
    ||| c == '\u{3000}'
}

/// The runs of characters that are not white space, in order.
pub open spec fn words(s: Seq<char>) -> Seq<Seq<char>>
    decreases s.len(),
{
    if s.len() == 0 {
        Seq::empty()
    } else {
        let before = s.drop_last();
        let done = words(before);
        if is_space(s.last()) {
            done
        } else if before.len() == 0 || is_space(before.last()) {
            done.push(seq![s.last()])
        } else {
            done.drop_last().push(done.last().push(s.last()))
        }
    }
}

/// The stretches of `s` between occurrences of `sep`: one more than there are
/// separators.
pub open spec fn pieces(s: Seq<char>, sep: char) -> Seq<Seq<char>>
    decreases s.len(),
{
    if s.len() == 0 {
        seq![Seq::empty()]
    } else {
        let done = pieces(s.drop_last(), sep);
        if s.last() == sep {
            done.push(Seq::empty())
        } else {
            done.drop_last().push(done.last().push(s.last()))
        }
    }
}

/// `s` without the white space at its front.
pub open spec fn trim_front(s: Seq<char>) -> Seq<char>
    decreases s.len(),
{
    if s.len() > 0 && is_space(s.first()) {
        trim_front(s.drop_first())
    } else {
        s
    }
}

/// `s` without the white space at its back.
pub open spec fn trim_back(s: Seq<char>) -> Seq<char>
    decreases s.len(),
{
    if s.len() > 0 && is_space(s.last()) {
        trim_back(s.drop_last())
    } else {
        s
    }
}

/// `s` without the white space around it.
pub open spec fn trimmed(s: Seq<char>) -> Seq<char> {
    trim_back(trim_front(s))
}

/// `part` stands in `s` from position `i` on.
pub open spec fn stands_at(s: Seq<char>, part: Seq<char>, i: int) -> bool {
    0 <= i && i + part.len() <= s.len() && s.subrange(i, i + part.len()) == part
}

/// `part` stands somewhere in `s`.
pub open spec fn occurs_in(s: Seq<char>, part: Seq<char>) -> bool {
    exists|i: int| stands_at(s, part, i)
}

/// The number that a digit sequence denotes, if it is one and the number is at
/// most `max`.
pub open spec fn digits_number(s: Seq<char>, max: int) -> Option<int> {
    if s.len() > 0 && all_digits(s) && digits_value(s) <= max {
        Some(digits_value(s) as int)
    } else {
        None
    }
}

/// The unsigned number that `s` denotes: digits, with a plus sign or without.
pub open spec fn unsigned_number(s: Seq<char>) -> Option<int> {
    if s.len() > 0 && s[0] == '+' {
        digits_number(s.skip(1), u64::MAX as int)
    } else {
        digits_number(s, u64::MAX as int)
    }
}

/// The signed number that `s` denotes: digits, with a sign or without.
pub open spec fn signed_number(s: Seq<char>) -> Option<int> {
    if s.len() > 0 && s[0] == '-' {
        match digits_number(s.skip(1), -(i64::MIN as int)) {
            Some(n) => Some(-n),
            None => None,
        }
    } else if s.len() > 0 && s[0] == '+' {
        digits_number(s.skip(1), i64::MAX as int)
    } else {
        digits_number(s, i64::MAX as int)
    }
}

/// Whether Unicode calls `c` white space.
pub fn is_space_char(c: char) -> (r: bool)
    ensures
        r == is_space(c),
{
    ('\u{9}' <= c && c <= '\u{d}') || c == ' ' || c == '\u{85}' || c == '\u{a0}' || c == '\u{1680}'
        || ('\u{2000}' <= c && c <= '\u{200a}') || c == '\u{2028}' || c == '\u{2029}' || c
        == '\u{202f}' || c == '\u{205f}' || c == '\u{3000}'
}

/// Whether `c` is one of the ten digits.
pub fn is_digit_char(c: char) -> (r: bool)
    ensures
        r == is_digit(c),
{
    '0' <= c && c <= '9'
}

/// The characters of `cs` from `from` up to `to`.
pub fn slice_chars(cs: &Vec<char>, from: usize, to: usize) -> (r: Vec<char>)
    requires
        from <= to <= cs@.len(),
    ensures
        r@ == cs@.subrange(from as int, to as int),
{
    let mut r: Vec<char> = Vec::new();
    let mut i: usize = from;
    while i < to
        invariant
            from <= i <= to <= cs@.len(),
            r@ == cs@.subrange(from as int, i as int),
        decreases to - i,
    {
        r.push(cs[i]);
        i += 1;
    }
    r
}

/// Whether `part` stands in `s` from position `at` on.
pub fn has_at(s: &Vec<char>, part: &Vec<char>, at: usize) -> (r: bool)
    ensures
        r == stands_at(s@, part@, at as int),
{
    if at > s.len() || part.len() > s.len() - at {
        return false;
    }
    let len: usize = s.len();
    let mut i: usize = 0;
    while i < part.len()
        invariant
            i <= part@.len(),
            len == s@.len(),
            at + part@.len() <= len,
            forall|k: int| 0 <= k < i ==> s@[at + k] == #[trigger] part@[k],
        decreases part@.len() - i,
    {
        if s[at + i] != part[i] {
            assert(s@.subrange(at as int, at + part@.len())[i as int] != part@[i as int]);
            return false;
        }
        i += 1;
    }
    assert(s@.subrange(at as int, at + part@.len()) =~= part@);
    true
}

/// Whether two texts hold the same characters.
pub fn same_text(a: &Vec<char>, b: &Vec<char>) -> (r: bool)
    ensures
        r == (a@ == b@),
{
    let r: bool = a.len() == b.len() && has_at(a, b, 0);
    assert(a@.len() == b@.len() ==> a@.subrange(0, b@.len() as int) =~= a@);
    r
}

/// Whether `part` stands somewhere in `s`.
pub fn contains_text(s: &Vec<char>, part: &Vec<char>) -> (r: bool)
    ensures
        r == occurs_in(s@, part@),
{
    if part.len() > s.len() {
        return false;
    }
    let last: usize = s.len() - part.len();
    let mut i: usize = 0;
    while i < last
        invariant
            i <= last,
            last == s@.len() - part@.len(),
            forall|k: int| 0 <= k < i ==> !stands_at(s@, part@, k),
        decreases last - i,
    {
        if has_at(s, part, i) {
            return true;
        }
        i += 1;
    }
    has_at(s, part, last)
}

/// The stretches of `s` between occurrences of `sep`.
pub fn split_at(s: &Vec<char>, sep: char) -> (r: Vec<Vec<char>>)
    ensures
        r@.map_values(|p: Vec<char>| p@) == pieces(s@, sep),
{
    let mut r: Vec<Vec<char>> = Vec::new();
    let mut open: Vec<char> = Vec::new();
    let mut i: usize = 0;
    assert(r@.map_values(|p: Vec<char>| p@).push(open@) =~= pieces(s@.take(0), sep));
    while i < s.len()
        invariant
            i <= s@.len(),
            r@.map_values(|p: Vec<char>| p@).push(open@) == pieces(s@.take(i as int), sep),
        decreases s@.len() - i,
    {
        let ghost done = r@.map_values(|p: Vec<char>| p@);
        let ghost piece = open@;
        let c: char = s[i];
        assert(s@.take(i + 1).drop_last() =~= s@.take(i as int));
        assert(done.push(piece).drop_last() =~= done);
        if c == sep {
            r.push(open);
            open = Vec::new();
            assert(r@.map_values(|p: Vec<char>| p@) =~= done.push(piece));
        } else {
            open.push(c);
        }
        i += 1;
    }
    let ghost done = r@.map_values(|p: Vec<char>| p@);
    let ghost piece = open@;
    r.push(open);
    assert(s@.take(s@.len() as int) =~= s@);
    assert(r@.map_values(|p: Vec<char>| p@) =~= done.push(piece));
    r
}

/// The runs of characters of `s` that are not white space.
pub fn split_words(s: &Vec<char>) -> (r: Vec<Vec<char>>)
    ensures
        r@.map_values(|p: Vec<char>| p@) == words(s@),
{
    let mut r: Vec<Vec<char>> = Vec::new();
    let mut open: Vec<char> = Vec::new();
    let mut i: usize = 0;
    assert(r@.map_values(|p: Vec<char>| p@) =~= words(s@.take(0)));
    while i < s.len()
        invariant
            i <= s@.len(),
            open@.len() == 0 <==> (i == 0 || is_space(s@[i - 1])),
            words(s@.take(i as int)) == (if open@.len() == 0 {
                r@.map_values(|p: Vec<char>| p@)
            } else {
                r@.map_values(|p: Vec<char>| p@).push(open@)
            }),
        decreases s@.len() - i,
    {
        let ghost done = r@.map_values(|p: Vec<char>| p@);
        let ghost word = open@;
        let c: char = s[i];
        assert(s@.take(i + 1).drop_last() =~= s@.take(i as int));
        assert(done.push(word).drop_last() =~= done);
        if is_space_char(c) {
            if open.len() > 0 {
                r.push(open);
                open = Vec::new();
                assert(r@.map_values(|p: Vec<char>| p@) =~= done.push(word));
            }
        } else {
            open.push(c);
            assert(word.len() == 0 ==> open@ =~= seq![c]);
            if i > 0 {
                assert(s@.take(i as int).last() == s@[i - 1]);
            }
        }
        i += 1;
    }
    let ghost done = r@.map_values(|p: Vec<char>| p@);
    let ghost word = open@;
    assert(s@.take(s@.len() as int) =~= s@);
    if open.len() > 0 {
        r.push(open);
        assert(r@.map_values(|p: Vec<char>| p@) =~= done.push(word));
    }
    r
}

/// `s` without the white space around it.
pub fn trim_chars(s: &Vec<char>) -> (r: Vec<char>)
    ensures
        r@ == trimmed(s@),
{
    let mut from: usize = 0;
    assert(s@.skip(0) =~= s@);
    while from < s.len() && is_space_char(s[from])
        invariant
            from <= s@.len(),
            trim_front(s@) == trim_front(s@.skip(from as int)),
        decreases s@.len() - from,
    {
        assert(s@.skip(from as int).drop_first() =~= s@.skip(from + 1));
        from += 1;
    }
    let ghost front = s@.skip(from as int);
    let mut to: usize = s.len();
    assert(s@.subrange(from as int, to as int) =~= front);
    while from < to && is_space_char(s[to - 1])
        invariant
            from <= to <= s@.len(),
            trim_back(front) == trim_back(s@.subrange(from as int, to as int)),
        decreases to - from,
    {
        assert(s@.subrange(from as int, to as int).drop_last() =~= s@.subrange(
            from as int,
            to - 1,
        ));
        to -= 1;
    }
    slice_chars(s, from, to)
}

/// The number that the characters of `s` from `from` on denote, if they are
/// digits and the number is at most `max`.
pub fn parse_digits(s: &Vec<char>, from: usize, max: u64) -> (r: Option<u64>)
    requires
        from <= s@.len(),
    ensures
        match r {
            Some(n) => digits_number(s@.skip(from as int), max as int) == Some(n as int),
            None => digits_number(s@.skip(from as int), max as int) is None,
        },
{
    let ghost body = s@.skip(from as int);
    if from == s.len() {
        return None;
    }
    let mut n: u128 = 0;
    let mut i: usize = from;
    while i < s.len()
        invariant
            from <= i <= s@.len(),
            body == s@.skip(from as int),
            all_digits(body.take(i - from)),
            n == digits_value(body.take(i - from)),
            n <= max,
        decreases s@.len() - i,
    {
        let c: char = s[i];
        assert(body[i - from] == c);
        if !is_digit_char(c) {
            return None;
        }
        let ghost shorter = body.take(i - from);
        let ghost longer = body.take(i + 1 - from);
        assert(longer.drop_last() =~= shorter);
        n = n * 10 + (c as u32 - 48) as u128;
        assert forall|k: int| 0 <= k < longer.len() implies is_digit(#[trigger] longer[k]) by {
            if k < shorter.len() {
                assert(shorter[k] == longer[k]);
            }
        }
        if n > max as u128 {
            proof {
                lemma_digits_value_prefix(body, i + 1 - from);
            }
            return None;
        }
        i += 1;
    }
    assert(body.take(s@.len() - from) =~= body);
    Some(n as u64)
}

/// The unsigned number that `s` denotes.
pub fn parse_unsigned(s: &Vec<char>) -> (r: Option<u64>)
    ensures
        match r {
            Some(n) => unsigned_number(s@) == Some(n as int),
            None => unsigned_number(s@) is None,
        },
{
    assert(s@.skip(0) =~= s@);
    if s.len() > 0 && s[0] == '+' {
        parse_digits(s, 1, u64::MAX)
    } else {
        parse_digits(s, 0, u64::MAX)
    }
}

/// The signed number that `s` denotes.
pub fn parse_signed(s: &Vec<char>) -> (r: Option<i64>)
    ensures
        match r {
            Some(n) => signed_number(s@) == Some(n as int),
            None => signed_number(s@) is None,
        },
{
    assert(s@.skip(0) =~= s@);
    if s.len() > 0 && s[0] == '-' {
        match parse_digits(s, 1, 0x8000_0000_0000_0000) {
            Some(n) => Some((-(n as i128)) as i64),
            None => None,
        }
    } else if s.len() > 0 && s[0] == '+' {
        match parse_digits(s, 1, 0x7fff_ffff_ffff_ffff) {
            Some(n) => Some(n as i64),
            None => None,
        }
    } else {
        match parse_digits(s, 0, 0x7fff_ffff_ffff_ffff) {
            Some(n) => Some(n as i64),
            None => None,
        }
    }
}

/// A number written in decimal is read back as it was.
pub proof fn lemma_unsigned_round_trip(n: u64)
    ensures
        unsigned_number(decimal(n as nat)) == Some(n as int),
{
    lemma_decimal_digits(n as nat);
    lemma_decimal_value(n as nat);
    assert(is_digit(decimal(n as nat)[0]));
}

/// A signed number written in decimal is read back as it was.
pub proof fn lemma_signed_round_trip(n: i64)
    ensures
        signed_number(signed_decimal(n as int)) == Some(n as int),
{
    if n < 0 {
        let m = (-(n as int)) as nat;
        lemma_decimal_digits(m);
        lemma_decimal_value(m);
        assert(signed_decimal(n as int).skip(1) =~= decimal(m));
    } else {
        lemma_decimal_digits(n as nat);
        lemma_decimal_value(n as nat);
        assert(is_digit(decimal(n as nat)[0]));
    }
}

// ---------------------------------------------------------------------------
// Joining
// ---------------------------------------------------------------------------

/// The texts with `sep` between them.
pub open spec fn joined(texts: Seq<Seq<char>>, sep: char) -> Seq<char>
    decreases texts.len(),
{
    if texts.len() == 0 {
        Seq::empty()
    } else if texts.len() == 1 {
        texts[0]
    } else {
        joined(texts.drop_last(), sep).push(sep) + texts.last()
    }
}

/// What each string holds.
pub open spec fn texts_of(strings: Seq<String>) -> Seq<Seq<char>> {
    strings.map_values(|s: String| s@)
}

/// The strings with `sep` between them.
pub fn join_strings(strings: &Vec<String>, sep: char) -> (r: String)
    ensures
        r@ == joined(texts_of(strings@), sep),
{
    let ghost all = texts_of(strings@);
    let mut r: String = String::new();
    let mut i: usize = 0;
    while i < strings.len()
        invariant
            i <= strings@.len(),
            all == texts_of(strings@),
            r@ == joined(all.take(i as int), sep),
        decreases strings@.len() - i,
    {
        if i > 0 {
            r.push(sep);
        }
        r.append(strings[i].as_str());
        proof {
            assert(all.take(i + 1).drop_last() =~= all.take(i as int));
            assert(all.take(i + 1).last() == strings@[i as int]@);
            if i == 0 {
                assert(r@ =~= joined(all.take(1), sep));
            } else {
                assert(r@ =~= joined(all.take(i as int), sep).push(sep) + strings@[i as int]@);
            }
        }
        i += 1;
    }
    assert(all.take(strings@.len() as int) =~= all);
    r
}

/// There is no `c` in `s`.
pub open spec fn free_of(s: Seq<char>, c: char) -> bool {
    forall|i: int| 0 <= i < s.len() ==> (#[trigger] s[i]) != c
}

/// A text without separators is one piece.
pub proof fn lemma_pieces_of_free(s: Seq<char>, sep: char)
    requires
        free_of(s, sep),
    ensures
        pieces(s, sep) == seq![s],
    decreases s.len(),
{
    if s.len() > 0 {
        lemma_pieces_of_free(s.drop_last(), sep);
        assert(s.drop_last().push(s.last()) =~= s);
        assert(pieces(s, sep) =~= seq![s]);
    } else {
        assert(s =~= Seq::empty());
    }
}

/// A separator and a text without separators add one piece.
pub proof fn lemma_pieces_of_longer(front: Seq<char>, sep: char, back: Seq<char>)
    requires
        free_of(back, sep),
    ensures
        pieces(front.push(sep) + back, sep) == pieces(front, sep).push(back),
    decreases back.len(),
{
    let all = front.push(sep) + back;
    if back.len() == 0 {
        assert(all =~= front.push(sep));
        assert(all.drop_last() =~= front);
        assert(back =~= Seq::empty());
    } else {
        lemma_pieces_of_longer(front, sep, back.drop_last());
        assert(all.drop_last() =~= front.push(sep) + back.drop_last());
        assert(back.drop_last().push(back.last()) =~= back);
        let done = pieces(front, sep).push(back.drop_last());
        assert(done.drop_last() =~= pieces(front, sep));
        assert(pieces(all, sep) =~= pieces(front, sep).push(back));
    }
}

/// Splitting what was joined gives back the parts, as long as none of them holds
/// the separator.
pub proof fn lemma_join_then_split(texts: Seq<Seq<char>>, sep: char)
    requires
        texts.len() > 0,
        forall|i: int| 0 <= i < texts.len() ==> free_of(#[trigger] texts[i], sep),
    ensures
        pieces(joined(texts, sep), sep) == texts,
    decreases texts.len(),
{
    assert(free_of(texts.last(), sep)) by {
        assert(free_of(texts[texts.len() - 1], sep));
    }
    if texts.len() == 1 {
        lemma_pieces_of_free(texts[0], sep);
        assert(seq![texts[0]] =~= texts);
    } else {
        let front = texts.drop_last();
        assert forall|i: int| 0 <= i < front.len() implies free_of(#[trigger] front[i], sep) by {
            assert(front[i] == texts[i]);
        }
        lemma_join_then_split(front, sep);
        lemma_pieces_of_longer(joined(front, sep), sep, texts.last());
        assert(front.push(texts.last()) =~= texts);
    }
}

/// A character that is not the separator and in none of the parts is not in the
/// whole.
pub proof fn lemma_joined_free_of(texts: Seq<Seq<char>>, sep: char, c: char)
    requires
        c != sep,
        forall|i: int| 0 <= i < texts.len() ==> free_of(#[trigger] texts[i], c),
    ensures
        free_of(joined(texts, sep), c),
    decreases texts.len(),
{
    if texts.len() == 1 {
        assert(free_of(texts[0], c));
    } else if texts.len() > 1 {
        let front = texts.drop_last();
        assert forall|i: int| 0 <= i < front.len() implies free_of(#[trigger] front[i], c) by {
            assert(front[i] == texts[i]);
        }
        lemma_joined_free_of(front, sep, c);
        assert(free_of(texts[texts.len() - 1], c));
        let whole = joined(texts, sep);
        let head = joined(front, sep);
        assert forall|i: int| 0 <= i < whole.len() implies (#[trigger] whole[i]) != c by {
            if i < head.len() {
                assert(whole[i] == head[i]);
            } else if i > head.len() {
                assert(whole[i] == texts.last()[i - head.len() - 1]);
            }
        }
    }
}

/// A text without white space, at the front or after some, is one more word.
pub proof fn lemma_words_of_longer(front: Seq<char>, word: Seq<char>)
    requires
        front.len() == 0 || is_space(front.last()),
        word.len() > 0,
        forall|i: int| 0 <= i < word.len() ==> !is_space(#[trigger] word[i]),
    ensures
        words(front + word) == words(front).push(word),
    decreases word.len(),
{
    let all = front + word;
    let before = word.drop_last();
    assert(all.drop_last() =~= front + before);
    assert(all.last() == word.last());
    assert(before.push(word.last()) =~= word);
    if before.len() == 0 {
        assert(front + before =~= front);
        assert(seq![word.last()] =~= word);
    } else {
        lemma_words_of_longer(front, before);
        assert((front + before).last() == before.last());
        assert(words(front).push(before).drop_last() =~= words(front));
    }
}

} // verus!

//! Text as sequences of characters: searching, replacing, splitting, ordering
//! and writing numbers.

use vstd::prelude::*;

use vstd::string::StringExecFns;

verus! {

/// The characters of a text.
pub fn chars_of(text: &str) -> (chars: Vec<char>)
    ensures
        chars@ == text@,
{
    let mut chars: Vec<char> = Vec::new();
    for c in it: text.chars()
        invariant
            it.seq() == text@,
            chars@ == text@.take(it.index() as int),
    {
        chars.push(c);
    }
    assert(text@.take(text@.len() as int) =~= text@);
    chars
}

/// Collects characters into a string with the standard library's
/// `String: FromIterator<&char>`, of which it is believed that the string holds
/// exactly those characters, in their order.
#[verifier::external_body]
pub(crate) fn string_of(chars: &Vec<char>) -> (text: String)
    ensures
        text@ == chars@,
{
    chars.iter().collect()
}

/// `pattern` stands in the text at place `i`.
pub open spec fn occurs_at(text: Seq<char>, pattern: Seq<char>, i: int) -> bool {
    &&& 0 <= i
    &&& i + pattern.len() <= text.len()
    &&& forall|k: int| 0 <= k < pattern.len() ==> text[i + k] == #[trigger] pattern[k]
}

/// `pattern` stands somewhere in the text.
pub open spec fn occurs(text: Seq<char>, pattern: Seq<char>) -> bool {
    exists|i: int| occurs_at(text, pattern, i)
}

fn matches_at(text: &Vec<char>, pattern: &Vec<char>, i: usize) -> (found: bool)
    requires
        i <= text@.len(),
    ensures
        found == occurs_at(text@, pattern@, i as int),
{
    let count: usize = text.len();
    if pattern.len() > count - i {
        return false;
    }
    let mut k: usize = 0;
    while k < pattern.len()
        invariant
            k <= pattern@.len(),
            count == text@.len(),
            i + pattern@.len() <= count,
            forall|j: int| 0 <= j < k ==> text@[i + j] == #[trigger] pattern@[j],
        decreases pattern@.len() - k,
    {
        if text[i + k] != pattern[k] {
            proof {
                assert(text@[i + k] != pattern@[k as int]);
            }
            return false;
        }
        k = k + 1;
    }
    true
}

pub fn contains(text: &str, pattern: &str) -> (found: bool)
    ensures
        found == occurs(text@, pattern@),
{
    let chars = chars_of(text);
    let wanted = chars_of(pattern);
    let mut i: usize = 0;
    while i < chars.len()
        invariant
            i <= chars@.len(),
            chars@ == text@,
            wanted@ == pattern@,
            forall|j: int| 0 <= j < i ==> !#[trigger] occurs_at(text@, pattern@, j),
        decreases chars@.len() - i,
    {
        if matches_at(&chars, &wanted, i) {
            return true;
        }
        i = i + 1;
    }
    matches_at(&chars, &wanted, i)
}

/// The text with every occurrence of `pattern`, from left to right, replaced.
pub open spec fn replaced(text: Seq<char>, pattern: Seq<char>, by: Seq<char>) -> Seq<char>
    decreases text.len(),
{
    if pattern.len() == 0 || text.len() == 0 {
        text
    } else if occurs_at(text, pattern, 0) {
        by + replaced(text.skip(pattern.len() as int), pattern, by)
    } else {
        seq![text[0]] + replaced(text.skip(1), pattern, by)
    }
}

/// Replaces every occurrence of a pattern that is not empty.
pub fn replace(text: &str, pattern: &str, by: &str) -> (result: String)
    requires
        pattern@.len() > 0,
    ensures
        result@ == replaced(text@, pattern@, by@),
{
    let chars = chars_of(text);
    let wanted = chars_of(pattern);
    let new = chars_of(by);
    let mut result: Vec<char> = Vec::new();
    let mut i: usize = 0;
    proof {
        assert(text@.skip(0) =~= text@);
        assert(result@ + replaced(text@, pattern@, by@) =~= replaced(text@, pattern@, by@));
    }
    while i < chars.len()
        invariant
            i <= chars@.len(),
            chars@ == text@,
            wanted@ == pattern@,
            new@ == by@,
            pattern@.len() > 0,
            result@ + replaced(text@.skip(i as int), pattern@, by@) == replaced(
                text@,
                pattern@,
                by@,
            ),
        decreases chars@.len() - i,
    {
        let ghost rest = text@.skip(i as int);
        let ghost before = result@;
        let found = matches_at(&chars, &wanted, i);
        proof {
            assert(occurs_at(text@, pattern@, i as int) == occurs_at(rest, pattern@, 0)) by {
                if occurs_at(text@, pattern@, i as int) {
                    assert forall|k: int| 0 <= k < pattern@.len() implies rest[0 + k]
                        == #[trigger] pattern@[k] by {
                        assert(text@[i + k] == pattern@[k]);
                    }
                }
                if occurs_at(rest, pattern@, 0) {
                    assert forall|k: int| 0 <= k < pattern@.len() implies text@[i + k]
                        == #[trigger] pattern@[k] by {
                        assert(rest[0 + k] == pattern@[k]);
                    }
                }
            }
        }
        if found {
            push_all(&mut result, &new);
            proof {
                assert(rest.skip(pattern@.len() as int) =~= text@.skip(i + pattern@.len()));
                assert(before + (by@ + replaced(text@.skip(i + pattern@.len()), pattern@, by@))
                    =~= (before + by@) + replaced(text@.skip(i + pattern@.len()), pattern@, by@));
            }
            i = i + wanted.len();
        } else {
            let c: char = chars[i];
            result.push(c);
            proof {
                assert(rest.skip(1) =~= text@.skip(i + 1));
                assert(before + (seq![c] + replaced(text@.skip(i + 1), pattern@, by@)) =~= before.push(
                    c,
                ) + replaced(text@.skip(i + 1), pattern@, by@));
            }
            i = i + 1;
        }
    }
    proof {
        assert(text@.skip(text@.len() as int) =~= Seq::empty());
        assert(result@ + Seq::<char>::empty() =~= result@);
    }
    string_of(&result)
}

fn push_all(target: &mut Vec<char>, more: &Vec<char>)
    ensures
        final(target)@ == old(target)@ + more@,
{
    let ghost before = target@;
    let mut i: usize = 0;
    while i < more.len()
        invariant
            i <= more@.len(),
            target@ == before + more@.take(i as int),
        decreases more@.len() - i,
    {
        target.push(more[i]);
        proof {
            assert(more@.take(i + 1) =~= more@.take(i as int).push(more@[i as int]));
        }
        i = i + 1;
    }
    assert(more@.take(more@.len() as int) =~= more@);
}

/// The part of the text from `from` up to `to`.
fn part(chars: &Vec<char>, from: usize, to: usize) -> (text: String)
    requires
        from <= to <= chars@.len(),
    ensures
        text@ == chars@.subrange(from as int, to as int),
{
    let mut result: Vec<char> = Vec::new();
    let mut i: usize = from;
    while i < to
        invariant
            from <= i <= to <= chars@.len(),
            result@ == chars@.subrange(from as int, i as int),
        decreases to - i,
    {
        result.push(chars[i]);
        proof {
            assert(chars@.subrange(from as int, i + 1) =~= chars@.subrange(
                from as int,
                i as int,
            ).push(chars@[i as int]));
        }
        i = i + 1;
    }
    string_of(&result)
}

/// The first place of a character, or the length of the text.
pub open spec fn first_place(text: Seq<char>, c: char) -> int
    decreases text.len(),
{
    if text.len() == 0 || text[0] == c {
        0
    } else {
        1 + first_place(text.skip(1), c)
    }
}

proof fn lemma_first_place(text: Seq<char>, c: char, i: int)
    requires
        0 <= i <= text.len(),
        forall|k: int| 0 <= k < i ==> #[trigger] text[k] != c,
        i < text.len() ==> text[i] == c,
    ensures
        first_place(text, c) == i,
    decreases text.len(),
{
    if text.len() > 0 && i > 0 {
        assert(text[0] != c);
        let rest = text.skip(1);
        assert forall|k: int| 0 <= k < i - 1 implies #[trigger] rest[k] != c by {
            assert(rest[k] == text[k + 1]);
        }
        lemma_first_place(rest, c, i - 1);
    }
}

fn find(chars: &Vec<char>, from: usize, c: char) -> (place: usize)
    requires
        from <= chars@.len(),
    ensures
        from <= place <= chars@.len(),
        place - from == first_place(chars@.skip(from as int), c),
{
    let mut i: usize = from;
    while i < chars.len() && chars[i] != c
        invariant
            from <= i <= chars@.len(),
            forall|k: int| from <= k < i ==> #[trigger] chars@[k] != c,
        decreases chars@.len() - i,
    {
        i = i + 1;
    }
    proof {
        let rest = chars@.skip(from as int);
        assert forall|k: int| 0 <= k < i - from implies #[trigger] rest[k] != c by {
            assert(rest[k] == chars@[from + k]);
        }
        lemma_first_place(rest, c, i - from);
    }
    i
}

/// What stands before and behind the first occurrence of a character.
pub fn split_once(text: &str, c: char) -> (parts: Option<(String, String)>)
    ensures
        match parts {
            Some((before, behind)) => {
                let i = first_place(text@, c);
                &&& i < text@.len()
                &&& before@ == text@.take(i)
                &&& behind@ == text@.skip(i + 1)
            },
            None => first_place(text@, c) == text@.len(),
        },
{
    let chars = chars_of(text);
    let i: usize = find(&chars, 0, c);
    proof {
        assert(chars@.skip(0) =~= chars@);
    }
    if i == chars.len() {
        return None;
    }
    let before = part(&chars, 0, i);
    let behind = part(&chars, i + 1, chars.len());
    proof {
        assert(before@ =~= text@.take(i as int));
        assert(behind@ =~= text@.skip(i + 1));
    }
    Some((before, behind))
}

/// The parts of the text between the occurrences of a character.
pub open spec fn split_parts(text: Seq<char>, c: char) -> Seq<Seq<char>>
    decreases text.len(),
{
    let i = first_place(text, c);
    if i < 0 || i >= text.len() {
        seq![text]
    } else {
        seq![text.take(i)] + split_parts(text.skip(i + 1), c)
    }
}

/// The contents of strings.
pub open spec fn texts(strings: Seq<String>) -> Seq<Seq<char>> {
    strings.map_values(|s: String| s@)
}

pub fn split(text: &str, c: char) -> (parts: Vec<String>)
    ensures
        texts(parts@) == split_parts(text@, c),
{
    let chars = chars_of(text);
    let mut parts: Vec<String> = Vec::new();
    let mut from: usize = 0;
    let mut i: usize = find(&chars, 0, c);
    proof {
        assert(chars@.skip(0) =~= chars@);
        assert(texts(parts@) + split_parts(chars@.skip(0), c) =~= split_parts(text@, c));
    }
    while i < chars.len()
        invariant
            from <= i <= chars@.len(),
            chars@ == text@,
            i - from == first_place(chars@.skip(from as int), c),
            texts(parts@) + split_parts(chars@.skip(from as int), c) == split_parts(text@, c),
        decreases chars@.len() - i,
    {
        let ghost rest = chars@.skip(from as int);
        let ghost before = parts@;
        let next = part(&chars, from, i);
        proof {
            assert(next@ =~= rest.take(i - from));
            assert(rest.skip(i - from + 1) =~= chars@.skip(i + 1));
        }
        parts.push(next);
        proof {
            assert(texts(parts@) =~= texts(before).push(next@));
            assert(texts(before) + (seq![next@] + split_parts(chars@.skip(i + 1), c)) =~= texts(
                parts@,
            ) + split_parts(chars@.skip(i + 1), c));
        }
        from = i + 1;
        i = find(&chars, from, c);
    }
    let ghost before = parts@;
    let last = part(&chars, from, chars.len());
    proof {
        assert(last@ =~= chars@.skip(from as int));
    }
    parts.push(last);
    proof {
        assert(texts(parts@) =~= texts(before) + seq![last@]);
    }
    parts
}

/// White space as Unicode defines it.
pub open spec fn is_space(c: char) -> bool {
    ||| '\u{9}' <= c <= '\u{d}'
    ||| c == ' ' || c == '\u{85}' || c == '\u{a0}' || c == '\u{1680}'
    ||| '\u{2000}' <= c <= '\u{200a}'
    ||| c == '\u{2028}' || c == '\u{2029}' || c == '\u{202f}' || c == '\u{205f}'
    ||| c == '\u{3000}'
}

fn is_white(c: char) -> (white: bool)
    ensures
        white == is_space(c),
{
    ('\u{9}' <= c && c <= '\u{d}') || c == ' ' || c == '\u{85}' || c == '\u{a0}' || c == '\u{1680}'
        || ('\u{2000}' <= c && c <= '\u{200a}') || c == '\u{2028}' || c == '\u{2029}' || c
        == '\u{202f}' || c == '\u{205f}' || c == '\u{3000}'
}

/// `inner` is the text without the white space around it.
pub open spec fn is_trimmed(text: Seq<char>, inner: Seq<char>) -> bool {
    exists|from: int, to: int| #[trigger] trims_to(text, inner, from, to)
}

pub open spec fn trims_to(text: Seq<char>, inner: Seq<char>, from: int, to: int) -> bool {
    &&& 0 <= from <= to <= text.len()
    &&& inner == text.subrange(from, to)
    &&& forall|k: int| 0 <= k < from ==> is_space(#[trigger] text[k])
    &&& forall|k: int| to <= k < text.len() ==> is_space(#[trigger] text[k])
    &&& inner.len() > 0 ==> !is_space(inner[0]) && !is_space(inner.last())
}

/// Only one text is left when white space is trimmed away.
pub proof fn lemma_trimmed_once(text: Seq<char>, a: Seq<char>, b: Seq<char>)
    requires
        is_trimmed(text, a),
        is_trimmed(text, b),
    ensures
        a == b,
{
    let (f1, t1) = choose|from: int, to: int| #[trigger] trims_to(text, a, from, to);
    let (f2, t2) = choose|from: int, to: int| #[trigger] trims_to(text, b, from, to);
    if a.len() > 0 {
        assert(a[0] == text[f1]);
        assert(a.last() == text[t1 - 1]);
    }
    if b.len() > 0 {
        assert(b[0] == text[f2]);
        assert(b.last() == text[t2 - 1]);
    }
    if a.len() > 0 && b.len() == 0 {
        assert(f2 <= f1 || f1 < f2);
    }
    assert(a =~= b);
}

/// The text without the white space around it.
pub open spec fn trimmed(text: Seq<char>) -> Seq<char> {
    choose|inner: Seq<char>| is_trimmed(text, inner)
}

pub fn trim(text: &str) -> (inner: String)
    ensures
        inner@ == trimmed(text@),
        is_trimmed(text@, inner@),
{
    let chars = chars_of(text);
    let mut from: usize = 0;
    while from < chars.len() && is_white(chars[from])
        invariant
            from <= chars@.len(),
            forall|k: int| 0 <= k < from ==> is_space(#[trigger] chars@[k]),
        decreases chars@.len() - from,
    {
        from = from + 1;
    }
    let mut to: usize = chars.len();
    while to > from && is_white(chars[to - 1])
        invariant
            from <= to <= chars@.len(),
            forall|k: int| to <= k < chars@.len() ==> is_space(#[trigger] chars@[k]),
        decreases to,
    {
        to = to - 1;
    }
    let inner = part(&chars, from, to);
    proof {
        assert(trims_to(text@, inner@, from as int, to as int));
        assert(is_trimmed(text@, inner@));
        lemma_trimmed_once(text@, inner@, trimmed(text@));
    }
    inner
}

/// A decimal digit.
pub open spec fn digit(d: int) -> char {
    if d == 0 {
        '0'
    } else if d == 1 {
        '1'
    } else if d == 2 {
        '2'
    } else if d == 3 {
        '3'
    } else if d == 4 {
        '4'
    } else if d == 5 {
        '5'
    } else if d == 6 {
        '6'
    } else if d == 7 {
        '7'
    } else if d == 8 {
        '8'
    } else {
        '9'
    }
}

fn digit_of(d: u64) -> (c: char)
    requires
        d < 10,
    ensures
        c == digit(d as int),
{
    if d == 0 {
        '0'
    } else if d == 1 {
        '1'
    } else if d == 2 {
        '2'
    } else if d == 3 {
        '3'
    } else if d == 4 {
        '4'
    } else if d == 5 {
        '5'
    } else if d == 6 {
        '6'
    } else if d == 7 {
        '7'
    } else if d == 8 {
        '8'
    } else {
        '9'
    }
}

/// A number in decimal digits, without leading zeros.
pub open spec fn decimal(n: nat) -> Seq<char>
    decreases n,
{
    if n < 10 {
        seq![digit(n as int)]
    } else {
        decimal(n / 10).push(digit((n % 10) as int))
    }
}

pub fn decimal_text(n: u64) -> (text: String)
    ensures
        text@ == decimal(n as nat),
{
    let mut reversed: Vec<char> = Vec::new();
    let mut rest: u64 = n;
    proof {
        assert(decimal(n as nat) =~= decimal(rest as nat) + reversed@.reverse());
    }
    while rest >= 10
        invariant
            decimal(n as nat) == decimal(rest as nat) + reversed@.reverse(),
        decreases rest,
    {
        let c: char = digit_of(rest % 10);
        let ghost before = reversed@;
        let ghost was = rest;
        reversed.push(c);
        rest = rest / 10;
        proof {
            assert(decimal(was as nat) == decimal(rest as nat).push(c));
            assert(reversed@.reverse() =~= seq![c] + before.reverse());
            assert(decimal(rest as nat).push(c) + before.reverse() =~= decimal(rest as nat)
                + reversed@.reverse());
        }
    }
    let c: char = digit_of(rest);
    let ghost before = reversed@;
    reversed.push(c);
    proof {
        assert(decimal(rest as nat) =~= seq![c]);
        assert(reversed@.reverse() =~= seq![c] + before.reverse());
    }
    let forward = reverse(&reversed);
    string_of(&forward)
}

fn reverse(chars: &Vec<char>) -> (result: Vec<char>)
    ensures
        result@ == chars@.reverse(),
{
    let mut result: Vec<char> = Vec::new();
    let mut i: usize = chars.len();
    while i > 0
        invariant
            i <= chars@.len(),
            result@.len() == chars@.len() - i,
            forall|k: int| 0 <= k < result@.len() ==> result@[k] == chars@[chars@.len() - 1 - k],
        decreases i,
    {
        i = i - 1;
        result.push(chars[i]);
    }
    assert(result@ =~= chars@.reverse());
    result
}

/// Different numbers are written differently.
pub proof fn lemma_decimal_injective(a: nat, b: nat)
    requires
        decimal(a) == decimal(b),
    ensures
        a == b,
    decreases a,
{
    if a < 10 && b >= 10 {
        assert(decimal(b / 10).len() >= 1) by {
            lemma_decimal_nonempty(b / 10);
        }
        assert(decimal(b).len() >= 2);
    } else if a >= 10 && b < 10 {
        assert(decimal(a / 10).len() >= 1) by {
            lemma_decimal_nonempty(a / 10);
        }
        assert(decimal(a).len() >= 2);
    } else if a >= 10 {
        let da = decimal(a);
        let db = decimal(b);
        assert(da.drop_last() =~= decimal(a / 10));
        assert(db.drop_last() =~= decimal(b / 10));
        lemma_decimal_injective(a / 10, b / 10);
        assert(da.last() == digit((a % 10) as int));
        assert(db.last() == digit((b % 10) as int));
    } else {
        assert(decimal(a)[0] == digit(a as int));
        assert(decimal(b)[0] == digit(b as int));
    }
}

pub proof fn lemma_decimal_nonempty(n: nat)
    ensures
        decimal(n).len() >= 1,
    decreases n,
{
    if n >= 10 {
        lemma_decimal_nonempty(n / 10);
    }
}

/// A number in decimal digits, with its sign where it is negative.
pub open spec fn signed_decimal(n: int) -> Seq<char> {
    if n < 0 {
        seq!['-'] + decimal((-n) as nat)
    } else {
        decimal(n as nat)
    }
}

pub fn signed_decimal_text(n: i64) -> (text: String)
    ensures
        text@ == signed_decimal(n as int),
{
    if n >= 0 {
        return decimal_text(n as u64);
    }
    let size: u64 = (-(n as i128)) as u64;
    let mut text = String::from_str("-");
    proof {
        reveal_strlit("-");
        assert("-"@ =~= seq!['-']);
    }
    text.append(decimal_text(size).as_str());
    text
}

/// Two digits, the first of them possibly zero.
pub open spec fn two_digits(n: int) -> Seq<char> {
    seq![digit(n / 10), digit(n % 10)]
}

/// Four digits.
pub open spec fn four_digits(n: int) -> Seq<char> {
    two_digits(n / 100) + two_digits(n % 100)
}

/// The order of texts by their characters.
pub open spec fn text_leq(a: Seq<char>, b: Seq<char>) -> bool
    decreases a.len(),
{
    if a.len() == 0 {
        true
    } else if b.len() == 0 {
        false
    } else if a[0] != b[0] {
        a[0] < b[0]
    } else {
        text_leq(a.skip(1), b.skip(1))
    }
}

pub proof fn lemma_text_leq_total(a: Seq<char>, b: Seq<char>)
    ensures
        text_leq(a, b) || text_leq(b, a),
    decreases a.len(),
{
    if a.len() > 0 && b.len() > 0 && a[0] == b[0] {
        lemma_text_leq_total(a.skip(1), b.skip(1));
    }
}

pub proof fn lemma_text_leq_transitive(a: Seq<char>, b: Seq<char>, c: Seq<char>)
    requires
        text_leq(a, b),
        text_leq(b, c),
    ensures
        text_leq(a, c),
    decreases a.len(),
{
    if a.len() > 0 && b.len() > 0 && c.len() > 0 && a[0] == b[0] && b[0] == c[0] {
        lemma_text_leq_transitive(a.skip(1), b.skip(1), c.skip(1));
    }
}

pub proof fn lemma_text_leq_antisymmetric(a: Seq<char>, b: Seq<char>)
    requires
        text_leq(a, b),
        text_leq(b, a),
    ensures
        a == b,
    decreases a.len(),
{
    if a.len() > 0 && b.len() > 0 {
        lemma_text_leq_antisymmetric(a.skip(1), b.skip(1));
        assert(a =~= seq![a[0]] + a.skip(1));
        assert(b =~= seq![b[0]] + b.skip(1));
    } else {
        assert(a =~= b);
    }
}

/// Whether one text stands before another or is the same.
pub fn text_at_most(a: &str, b: &str) -> (r: bool)
    ensures
        r == text_leq(a@, b@),
{
    let left = chars_of(a);
    let right = chars_of(b);
    let mut i: usize = 0;
    proof {
        assert(a@.skip(0) =~= a@);
        assert(b@.skip(0) =~= b@);
    }
    while i < left.len() && i < right.len() && left[i] == right[i]
        invariant
            left@ == a@,
            right@ == b@,
            i <= left@.len(),
            i <= right@.len(),
            text_leq(a@.skip(i as int), b@.skip(i as int)) == text_leq(a@, b@),
        decreases left@.len() - i,
    {
        proof {
            assert(a@.skip(i as int).skip(1) =~= a@.skip(i + 1));
            assert(b@.skip(i as int).skip(1) =~= b@.skip(i + 1));
        }
        i = i + 1;
    }
    if i == left.len() {
        true
    } else if i == right.len() {
        false
    } else {
        left[i] < right[i]
    }
}

/// Texts one after another, with a separator between them.
pub open spec fn joined(parts: Seq<Seq<char>>, separator: Seq<char>) -> Seq<char>
    decreases parts.len(),
{
    if parts.len() == 0 {
        Seq::empty()
    } else if parts.len() == 1 {
        parts[0]
    } else {
        joined(parts.drop_last(), separator) + separator + parts.last()
    }
}

pub fn join(parts: &Vec<String>, separator: &str) -> (text: String)
    ensures
        text@ == joined(texts(parts@), separator@),
{
    let mut text = String::new();
    let mut i: usize = 0;
    while i < parts.len()
        invariant
            i <= parts@.len(),
            text@ == joined(texts(parts@).take(i as int), separator@),
        decreases parts@.len() - i,
    {
        let ghost all = texts(parts@);
        if i > 0 {
            text.append(separator);
        }
        text.append(parts[i].as_str());
        proof {
            let next = all.take(i + 1);
            assert(next.drop_last() =~= all.take(i as int));
            assert(next.last() == parts@[i as int]@);
            if i == 0 {
                assert(text@ =~= next[0]);
            }
        }
        i = i + 1;
    }
    assert(texts(parts@).take(parts@.len() as int) =~= texts(parts@));
    text
}

/// What the standard library's `Debug` writes for a text: quoted, with
/// characters that could mislead a reader escaped.
pub uninterp spec fn debug_text(text: Seq<char>) -> Seq<char>;

/// Quotes a text with the standard library's `Debug` for `str`, whose result
/// depends on the text alone.
#[verifier::external_body]
pub(crate) fn quoted(text: &str) -> (result: String)
    ensures
        result@ == debug_text(text@),
{
    format!("{text:?}")
}

/// Copies a list of texts.
pub(crate) fn copy_texts(list: &Vec<String>) -> (copy: Vec<String>)
    ensures
        copy@ == list@,
{
    let mut copy: Vec<String> = Vec::new();
    let mut i: usize = 0;
    while i < list.len()
        invariant
            i <= list@.len(),
            copy@ == list@.take(i as int),
        decreases list@.len() - i,
    {
        copy.push(list[i].clone());
        proof {
            assert(list@.take(i + 1) =~= list@.take(i as int).push(list@[i as int]));
        }
        i = i + 1;
    }
    assert(list@.take(list@.len() as int) =~= list@);
    copy
}

/// A pattern stands at a place of a text if and only if the text reads like the pattern
/// from there on, and somewhere in it if and only if the text is the pattern with
/// something before it and something behind it.
pub proof fn lemma_occurs(text: Seq<char>, pattern: Seq<char>, i: int)
    ensures
        occurs_at(text, pattern, i) <==> 0 <= i && i + pattern.len() <= text.len()
            && text.subrange(i, i + pattern.len()) == pattern,
        occurs(text, pattern) <==> exists|before: Seq<char>, behind: Seq<char>|
            text == #[trigger] (before + pattern + behind),
{
    if 0 <= i && i + pattern.len() <= text.len() {
        let here = text.subrange(i, i + pattern.len());
        if occurs_at(text, pattern, i) {
            assert(here =~= pattern);
        }
        if here == pattern {
            assert forall|k: int| 0 <= k < pattern.len() implies text[i + k]
                == #[trigger] pattern[k] by {
                assert(here[k] == pattern[k]);
            }
        }
    }
    if occurs(text, pattern) {
        let j = choose|j: int| occurs_at(text, pattern, j);
        assert(text =~= text.take(j) + pattern + text.skip(j + pattern.len()));
    }
    if exists|before: Seq<char>, behind: Seq<char>|
        text == #[trigger] (before + pattern + behind) {
        let (before, behind) = choose|before: Seq<char>, behind: Seq<char>|
            text == #[trigger] (before + pattern + behind);
        assert(occurs_at(text, pattern, before.len() as int));
    }
}

/// A text in which the pattern does not stand stays as it is; otherwise the first pattern
/// gives way to the new text, what stands before it stays, and what stands behind it is
/// treated the same way.
pub proof fn lemma_replaced(
    before: Seq<char>,
    behind: Seq<char>,
    pattern: Seq<char>,
    by: Seq<char>,
)
    requires
        pattern.len() > 0,
    ensures
        !occurs(behind, pattern) ==> replaced(behind, pattern, by) == behind,
        (forall|i: int|
            0 <= i < before.len() ==> !#[trigger] occurs_at(before + pattern + behind, pattern, i))
            ==> replaced(before + pattern + behind, pattern, by) == before + by + replaced(
            behind,
            pattern,
            by,
        ),
    decreases before.len() + behind.len(),
{
    let text = before + pattern + behind;
    if behind.len() > 0 && !occurs(behind, pattern) {
        let rest = behind.skip(1);
        if occurs(rest, pattern) {
            let i = choose|i: int| occurs_at(rest, pattern, i);
            assert(occurs_at(behind, pattern, i + 1)) by {
                assert forall|k: int| 0 <= k < pattern.len() implies behind[i + 1 + k]
                    == #[trigger] pattern[k] by {
                    assert(rest[i + k] == pattern[k]);
                }
            }
        }
        assert(!occurs_at(behind, pattern, 0));
        lemma_replaced(Seq::empty(), rest, pattern, by);
        assert(seq![behind[0]] + rest =~= behind);
    }
    if forall|i: int| 0 <= i < before.len() ==> !#[trigger] occurs_at(text, pattern, i) {
        if before.len() == 0 {
            assert(occurs_at(text, pattern, 0));
            assert(text.skip(pattern.len() as int) =~= behind);
            assert(before + by + replaced(behind, pattern, by) =~= by + replaced(
                behind,
                pattern,
                by,
            ));
        } else {
            let rest = before.skip(1);
            let shorter = rest + pattern + behind;
            assert(text.skip(1) =~= shorter);
            assert forall|i: int| 0 <= i < rest.len() implies !#[trigger] occurs_at(
                shorter,
                pattern,
                i,
            ) by {
                if occurs_at(shorter, pattern, i) {
                    assert forall|k: int| 0 <= k < pattern.len() implies text[i + 1 + k]
                        == #[trigger] pattern[k] by {
                        assert(shorter[i + k] == pattern[k]);
                    }
                    assert(occurs_at(text, pattern, i + 1));
                }
            }
            assert(!occurs_at(text, pattern, 0));
            lemma_replaced(rest, behind, pattern, by);
            assert(text[0] == before[0]);
            assert(seq![before[0]] + (rest + by + replaced(behind, pattern, by)) =~= before + by
                + replaced(behind, pattern, by));
        }
    }
}

/// The first place of a character: it stands there and at no place before, and where it
/// stands nowhere the place is the end of the text.
pub proof fn lemma_first_place_found(text: Seq<char>, c: char)
    ensures
        0 <= first_place(text, c) <= text.len(),
        forall|k: int| 0 <= k < first_place(text, c) ==> #[trigger] text[k] != c,
        first_place(text, c) < text.len() ==> text[first_place(text, c)] == c,
        first_place(text, c) == text.len() <==> !text.contains(c),
    decreases text.len(),
{
    if text.len() > 0 && text[0] != c {
        let rest = text.skip(1);
        lemma_first_place_found(rest, c);
        assert forall|k: int| 0 <= k < first_place(text, c) implies #[trigger] text[k] != c by {
            if k > 0 {
                assert(rest[k - 1] == text[k]);
            }
        }
    }
}

/// The parts of a text hold the character that it was split at nowhere, and give the
/// text back when they are joined by it.
pub proof fn lemma_split(text: Seq<char>, c: char)
    ensures
        split_parts(text, c).len() > 0,
        joined(split_parts(text, c), seq![c]) == text,
        forall|i: int|
            0 <= i < split_parts(text, c).len() ==> !(#[trigger] split_parts(text, c)[i]).contains(
                c,
            ),
    decreases text.len(),
{
    lemma_first_place_found(text, c);
    let i = first_place(text, c);
    if i < text.len() {
        let rest = text.skip(i + 1);
        let parts = split_parts(rest, c);
        lemma_split(rest, c);
        lemma_joined(text.take(i), parts, seq![c]);
        assert(text =~= text.take(i) + seq![c] + rest);
        assert forall|k: int| 0 <= k < split_parts(text, c).len() implies !(
        #[trigger] split_parts(text, c)[k]).contains(c) by {
            if k > 0 {
                assert(split_parts(text, c)[k] == parts[k - 1]);
            } else {
                assert(split_parts(text, c)[k] == text.take(i));
            }
        }
    } else {
        assert(split_parts(text, c) =~= seq![text]);
    }
}

/// Joined texts: nothing for none, the text itself for one, and otherwise the first, the
/// separator, and the others joined.
pub proof fn lemma_joined(first: Seq<char>, others: Seq<Seq<char>>, separator: Seq<char>)
    ensures
        joined(Seq::<Seq<char>>::empty(), separator).len() == 0,
        joined(seq![first], separator) == first,
        others.len() > 0 ==> joined(seq![first] + others, separator) == first + separator + joined(
            others,
            separator,
        ),
    decreases others.len(),
{
    if others.len() > 0 {
        let all = seq![first] + others;
        assert(all.last() == others.last());
        assert(all.drop_last() =~= seq![first] + others.drop_last());
        if others.len() == 1 {
            assert(all.drop_last() =~= seq![first]);
            assert(joined(others, separator) == others[0]);
        } else {
            lemma_joined(first, others.drop_last(), separator);
            assert(first + separator + joined(others.drop_last(), separator) + separator
                + others.last() =~= first + separator + (joined(others.drop_last(), separator)
                + separator + others.last()));
        }
    }
}

/// White space, by the numbers of the characters.
pub proof fn lemma_space(c: char)
    ensures
        is_space(c) <==> ({
            let n = c as u32;
            9 <= n <= 13 || n == 32 || n == 0x85 || n == 0xa0 || n == 0x1680 || 0x2000 <= n
                <= 0x200a || n == 0x2028 || n == 0x2029 || n == 0x202f || n == 0x205f || n
                == 0x3000
        }),
{
}

/// Trimming takes white space off both ends and nothing else: the text is what is left
/// with white space before it and behind it, and neither end of what is left is white.
pub proof fn lemma_trimmed(text: Seq<char>)
    ensures
        exists|before: Seq<char>, behind: Seq<char>|
            text == #[trigger] (before + trimmed(text) + behind) && (forall|i: int|
                0 <= i < before.len() ==> is_space(#[trigger] before[i])) && (forall|i: int|
                0 <= i < behind.len() ==> is_space(#[trigger] behind[i])),
        trimmed(text).len() > 0 ==> !is_space(trimmed(text)[0]) && !is_space(trimmed(text).last()),
{
    lemma_can_trim(text);
    let inner = trimmed(text);
    assert(is_trimmed(text, inner));
    let (from, to) = choose|from: int, to: int| #[trigger] trims_to(text, inner, from, to);
    let before = text.take(from);
    let behind = text.skip(to);
    assert(text =~= before + inner + behind);
    assert forall|i: int| 0 <= i < before.len() implies is_space(#[trigger] before[i]) by {
        assert(before[i] == text[i]);
    }
    assert forall|i: int| 0 <= i < behind.len() implies is_space(#[trigger] behind[i]) by {
        assert(behind[i] == text[to + i]);
    }
}

proof fn lemma_can_trim(text: Seq<char>)
    ensures
        exists|inner: Seq<char>| is_trimmed(text, inner),
{
    let from = lemma_white_front(text, 0);
    let to = lemma_white_back(text, from, text.len() as int);
    let inner = text.subrange(from, to);
    assert(trims_to(text, inner, from, to));
    assert(is_trimmed(text, inner));
}

/// The end of the white space at the beginning of a text.
proof fn lemma_white_front(text: Seq<char>, at: int) -> (from: int)
    requires
        0 <= at <= text.len(),
        forall|k: int| 0 <= k < at ==> is_space(#[trigger] text[k]),
    ensures
        0 <= from <= text.len(),
        forall|k: int| 0 <= k < from ==> is_space(#[trigger] text[k]),
        from < text.len() ==> !is_space(text[from]),
    decreases text.len() - at,
{
    if at < text.len() && is_space(text[at]) {
        lemma_white_front(text, at + 1)
    } else {
        at
    }
}

/// The beginning of the white space at the end of a text.
proof fn lemma_white_back(text: Seq<char>, from: int, at: int) -> (to: int)
    requires
        0 <= from <= at <= text.len(),
        forall|k: int| at <= k < text.len() ==> is_space(#[trigger] text[k]),
    ensures
        from <= to <= text.len(),
        forall|k: int| to <= k < text.len() ==> is_space(#[trigger] text[k]),
        from < to ==> !is_space(text[to - 1]),
    decreases at,
{
    if from < at && is_space(text[at - 1]) {
        lemma_white_back(text, from, at - 1)
    } else {
        at
    }
}

/// The number that digits stand for.
pub open spec fn value_of_digits(digits: Seq<char>) -> int
    decreases digits.len(),
{
    if digits.len() == 0 {
        0
    } else {
        10 * value_of_digits(digits.drop_last()) + (digits.last() as int - '0' as int)
    }
}

/// A number is written in the digits that stand for it, with no zero in front unless it
/// is zero itself; a negative one with a minus before the digits of its size.
pub proof fn lemma_decimal(n: nat)
    ensures
        value_of_digits(decimal(n)) == n,
        forall|i: int| 0 <= i < decimal(n).len() ==> '0' <= #[trigger] decimal(n)[i] <= '9',
        decimal(n).len() > 0,
        decimal(n)[0] == '0' <==> n == 0,
        n == 0 ==> decimal(n).len() == 1,
        signed_decimal(n as int) == decimal(n),
        n > 0 ==> signed_decimal(-(n as int)) == seq!['-'] + decimal(n),
    decreases n,
{
    let digits = decimal(n);
    if n >= 10 {
        let before = decimal(n / 10);
        lemma_decimal(n / 10);
        assert(digits.drop_last() =~= before);
        assert(digits[0] == before[0]);
        assert forall|i: int| 0 <= i < digits.len() implies '0' <= #[trigger] digits[i] <= '9' by {
            if i < before.len() {
                assert(digits[i] == before[i]);
            }
        }
    } else {
        assert(digits.drop_last() =~= Seq::empty());
        assert(value_of_digits(digits.drop_last()) == 0);
    }
}

/// Numbers in a fixed count of digits.
pub proof fn lemma_fixed_digits(n: int)
    ensures
        two_digits(n).len() == 2 && four_digits(n).len() == 4,
        0 <= n < 100 ==> value_of_digits(two_digits(n)) == n,
        0 <= n < 10000 ==> value_of_digits(four_digits(n)) == n,
{
    if 0 <= n < 100 {
        lemma_two_digits(n);
    }
    if 0 <= n < 10000 {
        lemma_two_digits(n / 100);
        let high = two_digits(n / 100);
        let all = four_digits(n);
        assert(all.drop_last().drop_last() =~= high);
        assert(all.last() == digit(n % 100 % 10));
        assert(all.drop_last().last() == digit(n % 100 / 10));
        assert(value_of_digits(all.drop_last()) == 10 * (n / 100) + n % 100 / 10);
    }
}

proof fn lemma_two_digits(n: int)
    requires
        0 <= n < 100,
    ensures
        value_of_digits(two_digits(n)) == n,
{
    let digits = two_digits(n);
    assert(digits.drop_last() =~= seq![digit(n / 10)]);
    assert(digits.drop_last().drop_last() =~= Seq::empty());
    assert(value_of_digits(digits.drop_last().drop_last()) == 0);
    assert(value_of_digits(digits.drop_last()) == n / 10);
}

/// The order of texts: one is at most another if and only if the other begins with it, or
/// it has the lesser character at the first place where the two differ.
pub proof fn lemma_text_order(a: Seq<char>, b: Seq<char>)
    ensures
        text_leq(a, b) <==> (a.len() <= b.len() && a == b.take(a.len() as int) || exists|i: int|
            0 <= i < a.len() && i < b.len() && a.take(i) == b.take(i) && #[trigger] a[i] < b[i]),
    decreases a.len(),
{
    if a.len() > 0 && b.len() > 0 {
        let (p, q) = (a.skip(1), b.skip(1));
        if a[0] == b[0] {
            lemma_text_order(p, q);
            if a.len() <= b.len() {
                if p == q.take(p.len() as int) {
                    assert forall|k: int| 0 <= k < a.len() implies #[trigger] a[k] == b.take(
                        a.len() as int,
                    )[k] by {
                        if k > 0 {
                            assert(p[k - 1] == q.take(p.len() as int)[k - 1]);
                        }
                    }
                    assert(a =~= b.take(a.len() as int));
                }
                if a == b.take(a.len() as int) {
                    assert forall|k: int| 0 <= k < p.len() implies #[trigger] p[k] == q.take(
                        p.len() as int,
                    )[k] by {
                        assert(a[k + 1] == b.take(a.len() as int)[k + 1]);
                    }
                    assert(p =~= q.take(p.len() as int));
                }
            }
            if exists|i: int|
                0 <= i < p.len() && i < q.len() && p.take(i) == q.take(i) && #[trigger] p[i]
                    < q[i] {
                let i = choose|i: int|
                    0 <= i < p.len() && i < q.len() && p.take(i) == q.take(i) && #[trigger] p[i]
                        < q[i];
                assert forall|k: int| 0 <= k < i + 1 implies #[trigger] a.take(i + 1)[k] == b.take(
                    i + 1,
                )[k] by {
                    if k > 0 {
                        assert(p.take(i)[k - 1] == q.take(i)[k - 1]);
                    }
                }
                assert(a.take(i + 1) =~= b.take(i + 1));
                assert(a[i + 1] < b[i + 1]);
            }
            if exists|i: int|
                0 <= i < a.len() && i < b.len() && a.take(i) == b.take(i) && #[trigger] a[i]
                    < b[i] {
                let i = choose|i: int|
                    0 <= i < a.len() && i < b.len() && a.take(i) == b.take(i) && #[trigger] a[i]
                        < b[i];
                assert(i > 0);
                assert forall|k: int| 0 <= k < i - 1 implies #[trigger] p.take(i - 1)[k] == q.take(
                    i - 1,
                )[k] by {
                    assert(a.take(i)[k + 1] == b.take(i)[k + 1]);
                }
                assert(p.take(i - 1) =~= q.take(i - 1));
                assert(p[i - 1] < q[i - 1]);
            }
        } else {
            if a.len() <= b.len() && a == b.take(a.len() as int) {
                assert(a[0] == b.take(a.len() as int)[0]);
            }
            if a[0] < b[0] {
                assert(a.take(0) =~= b.take(0));
            }
            if exists|i: int|
                0 <= i < a.len() && i < b.len() && a.take(i) == b.take(i) && #[trigger] a[i]
                    < b[i] {
                let i = choose|i: int|
                    0 <= i < a.len() && i < b.len() && a.take(i) == b.take(i) && #[trigger] a[i]
                        < b[i];
                if i > 0 {
                    assert(a.take(i)[0] == b.take(i)[0]);
                }
            }
        }
    } else if a.len() == 0 {
        assert(a =~= b.take(0));
    }
}

} // verus!

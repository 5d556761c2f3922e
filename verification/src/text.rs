//! Small operations on text.

use crate::numbers::{digit_value, digits_value, is_digit};
use vstd::prelude::*;
use vstd::string::*;

verus! {

/// The text begins with a minus sign.
pub open spec fn starts_with_minus(s: Seq<char>) -> bool {
    s.len() > 0 && s[0] == '-'
}

/// The texts of a list of strings.
pub open spec fn texts(items: Seq<String>) -> Seq<Seq<char>> {
    items.map_values(|s: String| s@)
}

/// The items in order, with `separator` between each two.
pub open spec fn joined(items: Seq<Seq<char>>, separator: Seq<char>) -> Seq<char>
    decreases items.len(),
{
    if items.len() == 0 {
        Seq::empty()
    } else if items.len() == 1 {
        items[0]
    } else {
        joined(items.drop_last(), separator) + separator + items.last()
    }
}

/// Whether the text begins with a minus sign.
pub fn has_leading_minus(s: &str) -> (r: bool)
    ensures
        r == starts_with_minus(s@),
{
    s.unicode_len() > 0 && s.get_char(0) == '-'
}

/// The text without its first character.
pub fn without_first(s: &str) -> (r: String)
    requires
        s@.len() > 0,
    ensures
        r@ == s@.skip(1),
{
    let n = s.unicode_len();
    let tail = s.substring_char(1, n);
    assert(tail@ =~= s@.skip(1));
    String::from_str(tail)
}

/// The strings in order, with `separator` between each two.
pub fn join_strings(items: &Vec<String>, separator: &str) -> (r: String)
    ensures
        r@ == joined(texts(items@), separator@),
{
    let mut r = String::new();
    let ghost all = texts(items@);
    let mut i: usize = 0;
    while i < items.len()
        invariant
            i <= items@.len(),
            all == texts(items@),
            r@ == joined(all.take(i as int), separator@),
        decreases items@.len() - i,
    {
        if i > 0 {
            r.append(separator);
        }
        r.append(items[i].as_str());
        proof {
            let next = all.take(i + 1);
            assert(next.drop_last() =~= all.take(i as int));
            assert(next.last() == items@[i as int]@);
            if i == 0 {
                assert(r@ =~= next[0]);
            }
        }
        i = i + 1;
    }
    assert(all.take(i as int) =~= all);
    r
}

/// The text begins with `prefix`.
pub open spec fn has_prefix(text: Seq<char>, prefix: Seq<char>) -> bool {
    text.len() >= prefix.len() && text.take(prefix.len() as int) == prefix
}

/// What follows `prefix` in `line`, where the line begins with it.
pub fn strip_prefix(line: &str, prefix: &str) -> (r: Option<String>)
    ensures
        r is Some <==> has_prefix(line@, prefix@),
        r matches Some(rest) ==> rest@ == line@.skip(prefix@.len() as int),
{
    let n = line.unicode_len();
    let k = prefix.unicode_len();
    if n < k {
        return None;
    }
    let mut i: usize = 0;
    while i < k
        invariant
            i <= k,
            k == prefix@.len(),
            n == line@.len(),
            k <= n,
            forall|m: int| 0 <= m < i ==> line@[m] == prefix@[m],
        decreases k - i,
    {
        if line.get_char(i) != prefix.get_char(i) {
            assert(line@.take(k as int)[i as int] != prefix@[i as int]);
            return None;
        }
        i = i + 1;
    }
    assert(line@.take(k as int) =~= prefix@);
    let rest = line.substring_char(k, n);
    assert(rest@ =~= line@.skip(k as int));
    Some(String::from_str(rest))
}

/// Whether two texts are the same.
pub fn same_text(a: &str, b: &str) -> (r: bool)
    ensures
        r == (a@ == b@),
{
    String::from_str(a) == String::from_str(b)
}

/// The text is a run of decimal digits, at least one.
pub open spec fn is_digits(s: Seq<char>) -> bool {
    s.len() > 0 && forall|i: int| 0 <= i < s.len() ==> is_digit(#[trigger] s[i])
}

/// The index that a text writes: a run of decimal digits whose number a
/// machine integer holds.
pub open spec fn index_of_text(s: Seq<char>) -> Option<usize> {
    if is_digits(s) && digits_value(s) <= usize::MAX {
        Some(digits_value(s) as usize)
    } else {
        None
    }
}

/// The number written by the first digits of a run is no greater than the
/// number written by the whole run.
pub proof fn lemma_digits_value_prefix(s: Seq<char>, k: int)
    requires
        0 <= k <= s.len(),
        forall|i: int| 0 <= i < s.len() ==> is_digit(#[trigger] s[i]),
    ensures
        digits_value(s.take(k)) <= digits_value(s),
    decreases s.len() - k,
{
    if k < s.len() {
        lemma_digits_value_prefix(s, k + 1);
        let next = s.take(k + 1);
        assert(next.drop_last() =~= s.take(k));
        assert(next.last() == s[k]);
        assert(is_digit(s[k]));
    } else {
        assert(s.take(k) =~= s);
    }
}

/// Reads an index written in decimal digits.
pub fn parse_index(s: &str) -> (r: Option<usize>)
    ensures
        r == index_of_text(s@),
{
    let n = s.unicode_len();
    if n == 0 {
        return None;
    }
    let mut value: usize = 0;
    let mut i: usize = 0;
    while i < n
        invariant
            i <= n,
            n == s@.len(),
            forall|m: int| 0 <= m < i ==> is_digit(#[trigger] s@[m]),
            value == digits_value(s@.take(i as int)),
        decreases n - i,
    {
        let c = s.get_char(i);
        if !(c >= '0' && c <= '9') {
            assert(!is_digit(s@[i as int]));
            return None;
        }
        let digit = (c as u32 - '0' as u32) as usize;
        assert(digit == digit_value(c));
        proof {
            let next = s@.take(i + 1);
            assert(next.drop_last() =~= s@.take(i as int));
            assert(next.last() == c);
            assert(digits_value(next) == value * 10 + digit);
        }
        let scaled = match value.checked_mul(10) {
            Some(scaled) => scaled,
            None => {
                proof {
                    if is_digits(s@) {
                        lemma_digits_value_prefix(s@, i + 1);
                    }
                }
                return None;
            },
        };
        value = match scaled.checked_add(digit) {
            Some(sum) => sum,
            None => {
                proof {
                    if is_digits(s@) {
                        lemma_digits_value_prefix(s@, i + 1);
                    }
                }
                return None;
            },
        };
        i = i + 1;
    }
    assert(s@.take(i as int) =~= s@);
    Some(value)
}

/// The position of the first full stop of a text; its length if it has none.
pub open spec fn first_dot(name: Seq<char>) -> int
    decreases name.len(),
{
    if name.len() == 0 {
        0
    } else if name[0] == '.' {
        0
    } else {
        1 + first_dot(name.skip(1))
    }
}

/// What follows the first full stop of a name; the whole name if it has none.
pub open spec fn after_first_dot(name: Seq<char>) -> Seq<char> {
    if first_dot(name) < name.len() {
        name.skip(first_dot(name) + 1)
    } else {
        name
    }
}

/// What follows the first full stop of a name, where it has one.
pub fn split_after_first_dot(name: &str) -> (r: Option<String>)
    ensures
        r is Some <==> first_dot(name@) < name@.len(),
        r matches Some(rest) ==> rest@ == name@.skip(first_dot(name@) + 1),
{
    let n = name.unicode_len();
    let mut i: usize = 0;
    assert(name@.skip(0) =~= name@);
    while i < n
        invariant
            i <= n,
            n == name@.len(),
            first_dot(name@) == i + first_dot(name@.skip(i as int)),
        decreases n - i,
    {
        if name.get_char(i) == '.' {
            assert(name@.skip(i as int)[0] == '.');
            let rest = name.substring_char(i + 1, n);
            assert(rest@ =~= name@.skip(i + 1));
            return Some(String::from_str(rest));
        }
        proof {
            let here = name@.skip(i as int);
            assert(here[0] == name@[i as int]);
            assert(here.skip(1) =~= name@.skip(i + 1));
        }
        i = i + 1;
    }
    assert(name@.skip(i as int).len() == 0);
    None
}

/// What follows the first full stop of a name; the whole name if it has none.
pub fn strip_first_component(name: &str) -> (r: String)
    ensures
        r@ == after_first_dot(name@),
{
    match split_after_first_dot(name) {
        Some(rest) => rest,
        None => String::from_str(name),
    }
}

/// The parts of a text between the occurrences of a separator.
pub open spec fn split(s: Seq<char>, separator: char) -> Seq<Seq<char>>
    decreases s.len(),
{
    if s.len() == 0 {
        seq![Seq::empty()]
    } else {
        let before = split(s.drop_last(), separator);
        if s.last() == separator {
            before.push(Seq::empty())
        } else {
            before.drop_last().push(before.last().push(s.last()))
        }
    }
}

/// The parts of a line between the occurrences of a separator.
pub fn split_fields(line: &str, separator: char) -> (r: Vec<String>)
    ensures
        texts(r@) == split(line@, separator),
{
    let n = line.unicode_len();
    let mut fields: Vec<String> = Vec::new();
    let mut current = String::new();
    let mut i: usize = 0;
    assert(texts(fields@).push(current@) =~= split(line@.take(0), separator));
    while i < n
        invariant
            i <= n,
            n == line@.len(),
            texts(fields@).push(current@) == split(line@.take(i as int), separator),
        decreases n - i,
    {
        let c = line.get_char(i);
        let ghost before = split(line@.take(i as int), separator);
        let ghost done = texts(fields@);
        proof {
            let upto = line@.take(i + 1);
            assert(upto.drop_last() =~= line@.take(i as int));
            assert(upto.last() == c);
            assert(before.drop_last() =~= done);
            assert(before.last() == current@);
        }
        if c == separator {
            fields.push(current);
            current = String::new();
            assert(texts(fields@) =~= before);
        } else {
            let one = line.substring_char(i, i + 1);
            assert(one@ =~= seq![c]);
            current.append(one);
            assert(current@ =~= before.last().push(c));
        }
        i = i + 1;
    }
    assert(line@.take(i as int) =~= line@);
    let ghost done = texts(fields@);
    fields.push(current);
    assert(texts(fields@) =~= done.push(current@));
    fields
}

/// The first text comes before the second in the order of a dictionary,
/// character by character.
pub open spec fn precedes(a: Seq<char>, b: Seq<char>) -> bool
    decreases a.len(),
{
    if b.len() == 0 {
        false
    } else if a.len() == 0 {
        true
    } else if a[0] != b[0] {
        (a[0] as int) < (b[0] as int)
    } else {
        precedes(a.skip(1), b.skip(1))
    }
}

/// Whether the first text comes before the second in the order of a dictionary.
pub fn text_precedes(a: &str, b: &str) -> (r: bool)
    ensures
        r == precedes(a@, b@),
{
    let n = a.unicode_len();
    let m = b.unicode_len();
    let mut i: usize = 0;
    assert(a@.skip(0) =~= a@);
    assert(b@.skip(0) =~= b@);
    while i < n && i < m
        invariant
            i <= n,
            i <= m,
            n == a@.len(),
            m == b@.len(),
            precedes(a@, b@) == precedes(a@.skip(i as int), b@.skip(i as int)),
        decreases n - i,
    {
        let x = a.get_char(i);
        let y = b.get_char(i);
        proof {
            let ra = a@.skip(i as int);
            let rb = b@.skip(i as int);
            assert(ra[0] == x);
            assert(rb[0] == y);
            assert(ra.skip(1) =~= a@.skip(i + 1));
            assert(rb.skip(1) =~= b@.skip(i + 1));
        }
        if x != y {
            return (x as u32) < (y as u32);
        }
        i = i + 1;
    }
    proof {
        assert(a@.skip(i as int).len() == n - i);
        assert(b@.skip(i as int).len() == m - i);
    }
    i < m
}

} // verus!

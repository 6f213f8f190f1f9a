//! Texts as sequences of characters: the searching, cutting and joining that
//! the tables and the workflow templates need.

use vstd::prelude::*;
use vstd::string::*;

verus! {

/// The characters of `text`, in order.
pub fn chars_of(text: &str) -> (chars: Vec<char>)
    ensures
        chars@ == text@,
{
    let mut chars: Vec<char> = Vec::new();
    for c in it: text.chars()
        invariant
            it.seq() == text@,
            chars@ == text@.take(it.index()),
    {
        chars.push(c);
        assert(text@.take(it.index() + 1) =~= text@.take(it.index()).push(c));
    }
    assert(text@.take(text@.len() as int) =~= text@);
    chars
}

/// Whether two texts hold the same characters.
pub fn same_text(left: &str, right: &str) -> (same: bool)
    ensures
        same == (left@ == right@),
{
    let a = chars_of(left);
    let b = chars_of(right);
    if a.len() != b.len() {
        return false;
    }
    let mut i: usize = 0;
    while i < a.len()
        invariant
            a@ == left@,
            b@ == right@,
            a@.len() == b@.len(),
            i <= a@.len(),
            forall|k: int| 0 <= k < i ==> a@[k] == b@[k],
        decreases a@.len() - i,
    {
        if a[i] != b[i] {
            return false;
        }
        i = i + 1;
    }
    assert(left@ =~= right@);
    true
}

/// `first` followed by `second`.
pub fn cat2(first: &str, second: &str) -> (whole: String)
    ensures
        whole@ == first@ + second@,
{
    let mut whole = first.to_owned();
    whole.append(second);
    whole
}

/// Three texts, one after the other.
pub fn cat3(a: &str, b: &str, c: &str) -> (whole: String)
    ensures
        whole@ == a@ + b@ + c@,
{
    let mut whole = cat2(a, b);
    whole.append(c);
    whole
}

/// Four texts, one after the other.
pub fn cat4(a: &str, b: &str, c: &str, d: &str) -> (whole: String)
    ensures
        whole@ == a@ + b@ + c@ + d@,
{
    let mut whole = cat3(a, b, c);
    whole.append(d);
    whole
}

/// Five texts, one after the other.
pub fn cat5(a: &str, b: &str, c: &str, d: &str, e: &str) -> (whole: String)
    ensures
        whole@ == a@ + b@ + c@ + d@ + e@,
{
    let mut whole = cat4(a, b, c, d);
    whole.append(e);
    whole
}

/// What the formatter of `{:?}` prints for a text: the text between double
/// quotes, with the characters escaped that the formatter escapes.
pub uninterp spec fn debug_text(text: Seq<char>) -> Seq<char>;

/// `format!` with `{:?}` on a string slice: the printed text is `debug_text` of
/// the slice. Which characters are escaped, and how, is left unsaid.
#[verifier::external_body]
pub(crate) fn quoted(text: &str) -> (printed: String)
    ensures
        printed@ == debug_text(text@),
{
    format!("{:?}", text)
}

/// Whether `c` is one of the ten ASCII digits.
pub open spec fn is_digit(c: char) -> bool {
    '0' <= c <= '9'
}

/// Whether every character of `text` is an ASCII digit.
pub open spec fn all_digits(text: Seq<char>) -> bool {
    forall|i: int| 0 <= i < text.len() ==> is_digit(#[trigger] text[i])
}

/// The decimal digit of a number below ten.
pub open spec fn digit_char(n: int) -> char {
    ('0' as int + n) as char
}

/// A number in decimal notation, without leading zeros.
pub open spec fn decimal(n: nat) -> Seq<char>
    decreases n,
{
    if n < 10 {
        seq![digit_char(n as int)]
    } else {
        decimal(n / 10).push(digit_char((n % 10) as int))
    }
}

fn digit_text(n: usize) -> (text: &'static str)
    requires
        n < 10,
    ensures
        text@ == seq![digit_char(n as int)],
{
    proof {
        reveal_strlit("0");
        reveal_strlit("1");
        reveal_strlit("2");
        reveal_strlit("3");
        reveal_strlit("4");
        reveal_strlit("5");
        reveal_strlit("6");
        reveal_strlit("7");
        reveal_strlit("8");
        reveal_strlit("9");
    }
    if n == 0 {
        "0"
    } else if n == 1 {
        "1"
    } else if n == 2 {
        "2"
    } else if n == 3 {
        "3"
    } else if n == 4 {
        "4"
    } else if n == 5 {
        "5"
    } else if n == 6 {
        "6"
    } else if n == 7 {
        "7"
    } else if n == 8 {
        "8"
    } else {
        "9"
    }
}

/// Prints a number in decimal notation.
pub fn decimal_text(n: usize) -> (text: String)
    ensures
        text@ == decimal(n as nat),
    decreases n,
{
    if n < 10 {
        digit_text(n).to_owned()
    } else {
        let mut text = decimal_text(n / 10);
        text.append(digit_text(n % 10));
        assert(text@ =~= decimal(n as nat));
        text
    }
}

/// The place of the first `c` in `text`, or the length of `text` when there is
/// none.
pub open spec fn place_of(text: Seq<char>, c: char) -> nat
    decreases text.len(),
{
    if text.len() == 0 || text[0] == c {
        0
    } else {
        1 + place_of(text.skip(1), c)
    }
}

/// What stands before the first `c`: all of `text` when there is none.
pub open spec fn before(text: Seq<char>, c: char) -> Seq<char> {
    text.take(place_of(text, c) as int)
}

/// What stands behind the first `c`: nothing when there is none.
pub open spec fn after(text: Seq<char>, c: char) -> Seq<char> {
    if place_of(text, c) < text.len() {
        text.skip(place_of(text, c) as int + 1)
    } else {
        Seq::empty()
    }
}

/// The first `c` is the one that has no `c` before it.
pub proof fn lemma_place_of(text: Seq<char>, c: char, k: int)
    requires
        0 <= k <= text.len(),
        forall|i: int| 0 <= i < k ==> text[i] != c,
        k < text.len() ==> text[k] == c,
    ensures
        place_of(text, c) == k,
    decreases k,
{
    if k > 0 {
        lemma_place_of(text.skip(1), c, k - 1);
    }
}

/// `place_of` is in range, holds `c` unless it is the length, and has no `c`
/// before it.
pub proof fn lemma_place_of_is_first(text: Seq<char>, c: char)
    ensures
        place_of(text, c) <= text.len(),
        place_of(text, c) < text.len() ==> text[place_of(text, c) as int] == c,
        forall|i: int| 0 <= i < place_of(text, c) ==> text[i] != c,
        place_of(text, c) < text.len() <==> text.contains(c),
    decreases text.len(),
{
    if text.len() != 0 && text[0] != c {
        let rest = text.skip(1);
        lemma_place_of_is_first(rest, c);
        assert forall|i: int| 0 <= i < place_of(text, c) implies text[i] != c by {
            if i > 0 {
                assert(text[i] == rest[i - 1]);
            }
        }
        if text.contains(c) {
            let i = choose|i: int| 0 <= i < text.len() && text[i] == c;
            assert(rest[i - 1] == c);
        }
    }
}

/// Finds the first `c`.
pub fn find_char(text: &str, c: char) -> (place: usize)
    ensures
        place == place_of(text@, c),
        place <= text@.len(),
{
    let chars = chars_of(text);
    let mut i: usize = 0;
    while i < chars.len() && chars[i] != c
        invariant
            chars@ == text@,
            i <= chars@.len(),
            forall|k: int| 0 <= k < i ==> text@[k] != c,
        decreases chars@.len() - i,
    {
        i = i + 1;
    }
    proof {
        lemma_place_of(text@, c, i as int);
    }
    i
}

/// Cuts `text` at the first `c`.
pub fn cut<'a>(text: &'a str, c: char) -> (halves: (&'a str, &'a str))
    ensures
        halves.0@ == before(text@, c),
        halves.1@ == after(text@, c),
{
    let place = find_char(text, c);
    let len = text.unicode_len();
    let head = text.substring_char(0, place);
    let tail = if place < len {
        text.substring_char(place + 1, len)
    } else {
        text.substring_char(len, len)
    };
    assert(tail@ =~= after(text@, c));
    (head, tail)
}

/// Whether `c` occurs in `text`.
pub fn has_char(text: &str, c: char) -> (found: bool)
    ensures
        found == text@.contains(c),
{
    let place = find_char(text, c);
    proof {
        lemma_place_of_is_first(text@, c);
    }
    place < text.unicode_len()
}

/// Whether `pattern` stands in `text` at place `i`.
pub open spec fn occurs_at(text: Seq<char>, pattern: Seq<char>, i: int) -> bool {
    &&& 0 <= i
    &&& i + pattern.len() <= text.len()
    &&& text.subrange(i, i + pattern.len()) == pattern
}

/// Whether `pattern` stands anywhere in `text`.
pub open spec fn occurs(text: Seq<char>, pattern: Seq<char>) -> bool {
    exists|i: int| #[trigger] occurs_at(text, pattern, i)
}

fn stands_at(text: &Vec<char>, pattern: &Vec<char>, at: usize) -> (found: bool)
    requires
        at <= text@.len(),
    ensures
        found == occurs_at(text@, pattern@, at as int),
{
    if pattern.len() > text.len() - at {
        return false;
    }
    let mut k: usize = 0;
    while k < pattern.len()
        invariant
            at + pattern@.len() <= text@.len() <= usize::MAX,
            k <= pattern@.len(),
            forall|j: int| 0 <= j < k ==> text@[at + j] == pattern@[j],
        decreases pattern@.len() - k,
    {
        if text[at + k] != pattern[k] {
            assert(text@.subrange(at as int, at + pattern@.len())[k as int] != pattern@[k as int]);
            return false;
        }
        k = k + 1;
    }
    assert(text@.subrange(at as int, at + pattern@.len()) =~= pattern@);
    true
}

/// Whether `pattern` stands anywhere in `text`.
pub fn has_text(text: &str, pattern: &str) -> (found: bool)
    ensures
        found == occurs(text@, pattern@),
{
    let chars = chars_of(text);
    let wanted = chars_of(pattern);
    let mut i: usize = 0;
    while i < chars.len() && !stands_at(&chars, &wanted, i)
        invariant
            chars@ == text@,
            wanted@ == pattern@,
            i <= chars@.len(),
            forall|k: int| 0 <= k < i ==> !occurs_at(text@, pattern@, k),
        decreases chars@.len() - i,
    {
        i = i + 1;
    }
    stands_at(&chars, &wanted, i)
}

/// Whether `text` ends with `suffix`.
pub fn has_suffix(text: &str, suffix: &str) -> (found: bool)
    ensures
        found == suffix@.is_suffix_of(text@),
{
    let chars = chars_of(text);
    let wanted = chars_of(suffix);
    if wanted.len() > chars.len() {
        return false;
    }
    let at = chars.len() - wanted.len();
    let found = stands_at(&chars, &wanted, at);
    assert(at + wanted@.len() == chars@.len());
    found
}

/// `text` with every occurrence of `pattern` replaced, from the left and
/// without overlaps.
pub open spec fn replaced(text: Seq<char>, pattern: Seq<char>, with: Seq<char>) -> Seq<char>
    recommends
        pattern.len() > 0,
    decreases text.len(),
{
    if text.len() == 0 || pattern.len() == 0 {
        text
    } else if pattern.is_prefix_of(text) {
        with + replaced(text.skip(pattern.len() as int), pattern, with)
    } else {
        seq![text[0]] + replaced(text.skip(1), pattern, with)
    }
}

/// Replaces every occurrence of `pattern`, from the left and without overlaps.
pub fn replace_text(text: &str, pattern: &str, with: &str) -> (result: String)
    requires
        pattern@.len() > 0,
    ensures
        result@ == replaced(text@, pattern@, with@),
{
    let chars = chars_of(text);
    let wanted = chars_of(pattern);
    let mut result = String::new();
    let mut kept: usize = 0;
    let mut i: usize = 0;
    assert(text@.skip(0) =~= text@);
    assert(result@ + text@.subrange(0, 0) + replaced(text@, pattern@, with@) =~= replaced(
        text@,
        pattern@,
        with@,
    ));
    while i < chars.len()
        invariant
            chars@ == text@,
            wanted@ == pattern@,
            wanted@.len() > 0,
            kept <= i <= chars@.len(),
            result@ + text@.subrange(kept as int, i as int) + replaced(
                text@.skip(i as int),
                pattern@,
                with@,
            ) == replaced(text@, pattern@, with@),
        decreases chars@.len() - i,
    {
        let ghost rest = text@.skip(i as int);
        let ghost done = result@ + text@.subrange(kept as int, i as int);
        if stands_at(&chars, &wanted, i) {
            let next = i + wanted.len();
            assert(text@.subrange(i as int, next as int) =~= rest.take(pattern@.len() as int));
            assert(pattern@.is_prefix_of(rest));
            assert(rest.skip(pattern@.len() as int) =~= text@.skip(next as int));
            result.append(text.substring_char(kept, i));
            result.append(with);
            assert(result@ + text@.subrange(next as int, next as int) + replaced(
                text@.skip(next as int),
                pattern@,
                with@,
            ) =~= done + (with@ + replaced(text@.skip(next as int), pattern@, with@)));
            kept = next;
            i = next;
        } else {
            proof {
                if pattern@.is_prefix_of(rest) {
                    assert(text@.subrange(i as int, i + pattern@.len()) =~= rest.take(
                        pattern@.len() as int,
                    ));
                }
            }
            assert(rest.skip(1) =~= text@.skip(i + 1));
            assert(result@ + text@.subrange(kept as int, i + 1) + replaced(
                text@.skip(i + 1),
                pattern@,
                with@,
            ) =~= done + (seq![rest[0]] + replaced(text@.skip(i + 1), pattern@, with@)));
            i = i + 1;
        }
    }
    result.append(text.substring_char(kept, i));
    assert(text@.skip(i as int) =~= Seq::<char>::empty());
    assert(result@ =~= replaced(text@, pattern@, with@));
    result
}

/// Whether `left` comes before `right` in the order of string slices: by the
/// first character in which they differ, a proper prefix first.
pub open spec fn sorts_before(left: Seq<char>, right: Seq<char>) -> bool
    decreases left.len(),
{
    if right.len() == 0 {
        false
    } else if left.len() == 0 {
        true
    } else if left[0] != right[0] {
        left[0] < right[0]
    } else {
        sorts_before(left.skip(1), right.skip(1))
    }
}

/// A common beginning does not matter to the order.
pub proof fn lemma_sorts_before_skip(left: Seq<char>, right: Seq<char>, k: int)
    requires
        0 <= k <= left.len(),
        k <= right.len(),
        forall|i: int| 0 <= i < k ==> left[i] == right[i],
    ensures
        sorts_before(left, right) == sorts_before(left.skip(k), right.skip(k)),
    decreases k,
{
    if k == 0 {
        assert(left.skip(0) =~= left);
        assert(right.skip(0) =~= right);
    } else {
        lemma_sorts_before_skip(left.skip(1), right.skip(1), k - 1);
        assert(left.skip(1).skip(k - 1) =~= left.skip(k));
        assert(right.skip(1).skip(k - 1) =~= right.skip(k));
    }
}

/// Of two beginnings of one length, the order of the whole is that of the
/// beginnings, or of what follows where the beginnings agree.
pub proof fn lemma_sorts_before_concat(
    head: Seq<char>,
    tail: Seq<char>,
    other_head: Seq<char>,
    other_tail: Seq<char>,
)
    requires
        head.len() == other_head.len(),
    ensures
        sorts_before(head + tail, other_head + other_tail) == (sorts_before(head, other_head) || (
        head == other_head && sorts_before(tail, other_tail))),
    decreases head.len(),
{
    let left = head + tail;
    let right = other_head + other_tail;
    if head.len() == 0 {
        assert(left =~= tail);
        assert(right =~= other_tail);
        assert(head =~= other_head);
    } else {
        assert(left[0] == head[0] && right[0] == other_head[0]);
        if head[0] == other_head[0] {
            lemma_sorts_before_concat(head.skip(1), tail, other_head.skip(1), other_tail);
            assert(left.skip(1) =~= head.skip(1) + tail);
            assert(right.skip(1) =~= other_head.skip(1) + other_tail);
            if head.skip(1) == other_head.skip(1) {
                assert forall|i: int| 0 <= i < head.len() implies head[i] == other_head[i] by {
                    if i > 0 {
                        assert(head.skip(1)[i - 1] == other_head.skip(1)[i - 1]);
                    }
                }
                assert(head =~= other_head);
            }
        }
    }
}

/// No text comes before itself.
pub proof fn lemma_sorts_before_irreflexive(text: Seq<char>)
    ensures
        !sorts_before(text, text),
    decreases text.len(),
{
    if text.len() > 0 {
        lemma_sorts_before_irreflexive(text.skip(1));
    }
}

/// The order of texts is transitive.
pub proof fn lemma_sorts_before_transitive(a: Seq<char>, b: Seq<char>, c: Seq<char>)
    requires
        sorts_before(a, b),
        sorts_before(b, c),
    ensures
        sorts_before(a, c),
    decreases a.len(),
{
    if a.len() > 0 && a[0] == b[0] && b[0] == c[0] {
        lemma_sorts_before_transitive(a.skip(1), b.skip(1), c.skip(1));
    }
}

/// Of two different texts, one comes before the other.
pub proof fn lemma_sorts_before_total(a: Seq<char>, b: Seq<char>)
    requires
        a != b,
    ensures
        sorts_before(a, b) || sorts_before(b, a),
    decreases a.len(),
{
    if a.len() > 0 && b.len() > 0 && a[0] == b[0] {
        if a.skip(1) == b.skip(1) {
            assert(a =~= seq![a[0]] + a.skip(1));
            assert(b =~= seq![b[0]] + b.skip(1));
        }
        lemma_sorts_before_total(a.skip(1), b.skip(1));
    } else if a.len() == 0 && b.len() == 0 {
        assert(a =~= b);
    }
}

/// Compares two texts by their order.
pub fn comes_before(left: &str, right: &str) -> (first: bool)
    ensures
        first == sorts_before(left@, right@),
{
    let a = chars_of(left);
    let b = chars_of(right);
    let mut i: usize = 0;
    while i < a.len() && i < b.len() && a[i] == b[i]
        invariant
            a@ == left@,
            b@ == right@,
            i <= a@.len(),
            i <= b@.len(),
            forall|k: int| 0 <= k < i ==> a@[k] == b@[k],
        decreases a@.len() - i,
    {
        i = i + 1;
    }
    proof {
        lemma_sorts_before_skip(left@, right@, i as int);
    }
    if i == b.len() {
        false
    } else if i == a.len() {
        true
    } else {
        a[i] < b[i]
    }
}

/// The characters of each text of a list.
pub open spec fn texts(list: Seq<String>) -> Seq<Seq<char>> {
    Seq::new(list.len(), |i: int| list[i]@)
}

/// Whether a list holds a text.
pub fn lists(list: &Vec<String>, wanted: &str) -> (found: bool)
    ensures
        found == texts(list@).contains(wanted@),
{
    let mut i: usize = 0;
    while i < list.len()
        invariant
            i <= list@.len(),
            forall|k: int| 0 <= k < i ==> #[trigger] texts(list@)[k] != wanted@,
        decreases list@.len() - i,
    {
        if same_text(list[i].as_str(), wanted) {
            assert(texts(list@)[i as int] == wanted@);
            return true;
        }
        i = i + 1;
    }
    false
}

/// The texts of a list, one after the other, with `separator` between them.
pub open spec fn joined(list: Seq<Seq<char>>, separator: Seq<char>) -> Seq<char>
    decreases list.len(),
{
    if list.len() == 0 {
        Seq::empty()
    } else if list.len() == 1 {
        list[0]
    } else {
        joined(list.drop_last(), separator) + separator + list.last()
    }
}

/// Joins the texts of a list with `separator` between them.
pub fn join_texts(list: &Vec<String>, separator: &str) -> (whole: String)
    ensures
        whole@ == joined(texts(list@), separator@),
{
    let ghost all = texts(list@);
    let mut whole = String::new();
    let mut i: usize = 0;
    while i < list.len()
        invariant
            all == texts(list@),
            i <= list@.len(),
            whole@ == joined(all.take(i as int), separator@),
        decreases list@.len() - i,
    {
        if i > 0 {
            whole.append(separator);
        }
        whole.append(list[i].as_str());
        i = i + 1;
        proof {
            let done = all.take(i as int);
            assert(done.drop_last() =~= all.take(i - 1));
            assert(done.last() == list@[i - 1]@);
            assert(whole@ =~= joined(done, separator@));
        }
    }
    assert(all.take(i as int) =~= all);
    whole
}

/// A text of a list that none before it equals stands at its first place.
pub proof fn lemma_first_place(list: Seq<Seq<char>>, wanted: Seq<char>, i: int)
    requires
        0 <= i < list.len(),
        list[i] == wanted,
        forall|k: int| 0 <= k < i ==> #[trigger] list[k] != wanted,
    ensures
        list.index_of_first(wanted) == Some(i),
{
    list.index_of_first_ensures(wanted);
    let place = list.index_of_first(wanted)->0;
    if place < i {
        assert(list[place] != wanted);
    }
}

/// A result as texts.
pub open spec fn result_text(result: Result<String, String>) -> Result<Seq<char>, Seq<char>> {
    match result {
        Ok(value) => Ok(value@),
        Err(message) => Err(message@),
    }
}

/// Whether no character of one text is a character of the other.
pub open spec fn disjoint_chars(left: Seq<char>, right: Seq<char>) -> bool {
    forall|i: int, j: int|
        0 <= i < left.len() && 0 <= j < right.len() ==> #[trigger] left[i] != #[trigger] right[j]
}

/// What a text with replacements starts with, the text starts with too, as
/// long as it holds no character of the replacement.
proof fn lemma_replaced_prefix(
    text: Seq<char>,
    pattern: Seq<char>,
    with: Seq<char>,
    prefix: Seq<char>,
)
    requires
        pattern.len() > 0,
        with.len() > 0,
        disjoint_chars(with, prefix),
        prefix.is_prefix_of(replaced(text, pattern, with)),
    ensures
        prefix.is_prefix_of(text),
    decreases text.len(),
{
    let result = replaced(text, pattern, with);
    if prefix.len() == 0 {
        assert(text.take(0) =~= prefix);
    } else if text.len() > 0 {
        assert(prefix[0] == result.take(prefix.len() as int)[0]);
        if pattern.is_prefix_of(text) {
            assert(result[0] == with[0]);
            assert(with[0] != prefix[0]);
        } else {
            let rest = prefix.skip(1);
            let rest_result = replaced(text.skip(1), pattern, with);
            assert(prefix =~= result.take(prefix.len() as int));
            assert(rest =~= rest_result.take(rest.len() as int));
            assert forall|i: int, j: int|
                0 <= i < with.len() && 0 <= j < rest.len() implies #[trigger] with[i]
                != #[trigger] rest[j] by {
                assert(rest[j] == prefix[j + 1]);
            }
            lemma_replaced_prefix(text.skip(1), pattern, with, rest);
            assert(rest =~= text.skip(1).take(rest.len() as int));
            assert(prefix =~= seq![prefix[0]] + rest);
            assert(text.take(prefix.len() as int) =~= seq![text[0]] + text.skip(1).take(
                rest.len() as int,
            ));
        }
    }
}

/// What stands in the rest of a text stands in the text.
proof fn lemma_occurs_in_rest(text: Seq<char>, k: int, pattern: Seq<char>)
    requires
        0 <= k <= text.len(),
        occurs(text.skip(k), pattern),
    ensures
        occurs(text, pattern),
{
    let i = choose|i: int| #[trigger] occurs_at(text.skip(k), pattern, i);
    assert(text.subrange(i + k, i + k + pattern.len()) =~= text.skip(k).subrange(
        i,
        i + pattern.len(),
    ));
    assert(occurs_at(text, pattern, i + k));
}

/// Replacing makes nothing appear that shares no character with the
/// replacement.
pub proof fn lemma_replaced_adds_nothing(
    text: Seq<char>,
    pattern: Seq<char>,
    with: Seq<char>,
    other: Seq<char>,
)
    requires
        pattern.len() > 0,
        with.len() > 0,
        other.len() > 0,
        disjoint_chars(with, other),
        occurs(replaced(text, pattern, with), other),
    ensures
        occurs(text, other),
    decreases text.len(),
{
    let result = replaced(text, pattern, with);
    let i = choose|i: int| #[trigger] occurs_at(result, other, i);
    assert(result.subrange(i, i + other.len())[0] == other[0]);
    if text.len() > 0 {
        if pattern.is_prefix_of(text) {
            let rest = text.skip(pattern.len() as int);
            if i < with.len() {
                assert(result[i] == with[i]);
                assert(with[i] != other[0]);
            } else {
                let place = i - with.len();
                assert(replaced(rest, pattern, with).subrange(place, place + other.len())
                    =~= result.subrange(i, i + other.len()));
                assert(occurs_at(replaced(rest, pattern, with), other, place));
                lemma_replaced_adds_nothing(rest, pattern, with, other);
                lemma_occurs_in_rest(text, pattern.len() as int, other);
            }
        } else if i == 0 {
            assert(result.subrange(0, other.len() as int) =~= result.take(other.len() as int));
            lemma_replaced_prefix(text, pattern, with, other);
            assert(text.subrange(0, other.len() as int) =~= text.take(other.len() as int));
            assert(occurs_at(text, other, 0));
        } else {
            let rest = text.skip(1);
            assert(replaced(rest, pattern, with).subrange(i - 1, i - 1 + other.len())
                =~= result.subrange(i, i + other.len()));
            assert(occurs_at(replaced(rest, pattern, with), other, i - 1));
            lemma_replaced_adds_nothing(rest, pattern, with, other);
            lemma_occurs_in_rest(text, 1, other);
        }
    }
}

/// A pattern that shares no character with its replacement is gone once it is
/// replaced.
pub proof fn lemma_replaced_removes(text: Seq<char>, pattern: Seq<char>, with: Seq<char>)
    requires
        pattern.len() > 0,
        with.len() > 0,
        disjoint_chars(with, pattern),
    ensures
        !occurs(replaced(text, pattern, with), pattern),
    decreases text.len(),
{
    let result = replaced(text, pattern, with);
    if occurs(result, pattern) {
        let i = choose|i: int| #[trigger] occurs_at(result, pattern, i);
        assert(result.subrange(i, i + pattern.len())[0] == pattern[0]);
        if text.len() > 0 {
            if pattern.is_prefix_of(text) {
                let rest = text.skip(pattern.len() as int);
                lemma_replaced_removes(rest, pattern, with);
                if i < with.len() {
                    assert(result[i] == with[i]);
                    assert(with[i] != pattern[0]);
                } else {
                    let place = i - with.len();
                    assert(replaced(rest, pattern, with).subrange(place, place + pattern.len())
                        =~= result.subrange(i, i + pattern.len()));
                    assert(occurs_at(replaced(rest, pattern, with), pattern, place));
                }
            } else if i == 0 {
                assert(result.subrange(0, pattern.len() as int) =~= result.take(
                    pattern.len() as int,
                ));
                lemma_replaced_prefix(text, pattern, with, pattern);
            } else {
                let rest = text.skip(1);
                lemma_replaced_removes(rest, pattern, with);
                assert(replaced(rest, pattern, with).subrange(i - 1, i - 1 + pattern.len())
                    =~= result.subrange(i, i + pattern.len()));
                assert(occurs_at(replaced(rest, pattern, with), pattern, i - 1));
            }
        }
    }
}

/// Whether a character is white space, by the Unicode property of that name.
pub open spec fn is_white_space(c: char) -> bool {
    ||| '\u{9}' <= c <= '\u{d}'
    ||| c == ' '
    ||| c == '\u{85}'
    ||| c == '\u{a0}'
    ||| c == '\u{1680}'
    ||| '\u{2000}' <= c <= '\u{200a}'
    ||| c == '\u{2028}'
    ||| c == '\u{2029}'
    ||| c == '\u{202f}'
    ||| c == '\u{205f}'
    ||| c == '\u{3000}'
}

/// Decides whether a character is white space.
pub fn white_space(c: char) -> (yes: bool)
    ensures
        yes == is_white_space(c),
{
    ('\u{9}' <= c && c <= '\u{d}') || c == ' ' || c == '\u{85}' || c == '\u{a0}' || c
        == '\u{1680}' || ('\u{2000}' <= c && c <= '\u{200a}') || c == '\u{2028}' || c == '\u{2029}'
        || c == '\u{202f}' || c == '\u{205f}' || c == '\u{3000}'
}

/// `text` without the white space at its start and at its end.
pub open spec fn trimmed(text: Seq<char>) -> Seq<char>
    decreases text.len(),
{
    if text.len() == 0 {
        text
    } else if is_white_space(text[0]) {
        trimmed(text.skip(1))
    } else if is_white_space(text.last()) {
        trimmed(text.drop_last())
    } else {
        text
    }
}

/// Removes the white space at the start and at the end.
pub fn trim_text(text: &str) -> (inner: &str)
    ensures
        inner@ == trimmed(text@),
{
    let chars = chars_of(text);
    let mut start: usize = 0;
    assert(text@.skip(0) =~= text@);
    while start < chars.len() && white_space(chars[start])
        invariant
            chars@ == text@,
            start <= chars@.len(),
            trimmed(text@.skip(start as int)) == trimmed(text@),
        decreases chars@.len() - start,
    {
        assert(text@.skip(start as int).skip(1) =~= text@.skip(start + 1));
        start = start + 1;
    }
    let mut end: usize = chars.len();
    assert(text@.subrange(start as int, end as int) =~= text@.skip(start as int));
    while start < end && white_space(chars[end - 1])
        invariant
            chars@ == text@,
            start <= end <= chars@.len(),
            start < chars@.len() ==> !is_white_space(chars@[start as int]),
            trimmed(text@.subrange(start as int, end as int)) == trimmed(text@),
        decreases end,
    {
        assert(text@.subrange(start as int, end as int).drop_last() =~= text@.subrange(
            start as int,
            end - 1,
        ));
        end = end - 1;
    }
    text.substring_char(start, end)
}

/// The first line of a text: what stands before the first line feed, without
/// a carriage return in front of that line feed; all of a text without one.
pub open spec fn first_line(text: Seq<char>) -> Seq<char> {
    let line = before(text, '\n');
    if text.contains('\n') && line.len() > 0 && line.last() == '\r' {
        line.drop_last()
    } else {
        line
    }
}

/// The lines of a text that are not empty.
pub open spec fn content_lines(text: Seq<char>) -> Seq<Seq<char>>
    decreases text.len(),
{
    if text.len() == 0 {
        Seq::empty()
    } else {
        let line = first_line(text);
        let rest = content_lines(after(text, '\n'));
        if line.len() > 0 {
            seq![line] + rest
        } else {
            rest
        }
    }
}

/// Splits a text into its lines, leaving the empty ones out.
pub fn split_lines(text: &str) -> (lines: Vec<String>)
    ensures
        texts(lines@) == content_lines(text@),
{
    let mut lines: Vec<String> = Vec::new();
    let mut rest = text;
    assert(texts(lines@) + content_lines(text@) =~= content_lines(text@));
    while !rest.is_empty()
        invariant
            texts(lines@) + content_lines(rest@) == content_lines(text@),
        decreases rest@.len(),
    {
        let ghost done = texts(lines@);
        let (head, tail) = cut(rest, '\n');
        proof {
            lemma_place_of_is_first(rest@, '\n');
        }
        let ended = has_char(rest, '\n');
        let len = head.unicode_len();
        let line = if ended && len > 0 && head.get_char(len - 1) == '\r' {
            head.substring_char(0, len - 1)
        } else {
            head
        };
        assert(line@ =~= first_line(rest@));
        if !line.is_empty() {
            lines.push(line.to_owned());
            assert(texts(lines@) =~= done.push(line@));
            assert(texts(lines@) + content_lines(tail@) =~= done + (seq![line@] + content_lines(
                tail@,
            )));
        }
        rest = tail;
    }
    assert(texts(lines@) =~= texts(lines@) + content_lines(rest@));
    lines
}

} // verus!

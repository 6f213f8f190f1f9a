//! What holds of searching, cutting, replacing, joining, trimming, ordering and
//! printing texts.

use vstd::prelude::*;

use crate::text;
use crate::tree;

verus! {

/// Three texts, one after the other.
pub open spec fn around(head: Seq<char>, part: Seq<char>, tail: Seq<char>) -> Seq<char> {
    head + part + tail
}

/// A text that has another one somewhere within it.
pub open spec fn stands_in(whole: Seq<char>, part: Seq<char>) -> bool {
    exists|head: Seq<char>, tail: Seq<char>| whole == #[trigger] around(head, part, tail)
}

proof fn lemma_stands_in(whole: Seq<char>, part: Seq<char>, i: int)
    requires
        0 <= i,
        i + part.len() <= whole.len(),
        whole.subrange(i, i + part.len()) == part,
    ensures
        stands_in(whole, part),
{
    assert(whole =~= around(whole.take(i), part, whole.skip(i + part.len())));
}

/// A pattern is found in a text exactly where the text is the pattern with
/// something before it and something behind it.
pub proof fn law_found_where_it_stands(whole: Seq<char>, part: Seq<char>)
    ensures
        text::occurs(whole, part) <==> stands_in(whole, part),
{
    if text::occurs(whole, part) {
        let i = choose|i: int| #[trigger] text::occurs_at(whole, part, i);
        lemma_stands_in(whole, part, i);
    }
    if stands_in(whole, part) {
        let (head, tail) = choose|head: Seq<char>, tail: Seq<char>|
            whole == #[trigger] around(head, part, tail);
        assert(whole.subrange(head.len() as int, (head.len() + part.len()) as int) =~= part);
        assert(text::occurs_at(whole, part, head.len() as int));
    }
}

/// Pieces, one after the other, with a text between each two of them.
pub open spec fn glued(pieces: Seq<Seq<char>>, between: Seq<char>) -> Seq<char>
    decreases pieces.len(),
{
    if pieces.len() == 0 {
        Seq::empty()
    } else if pieces.len() == 1 {
        pieces[0]
    } else {
        pieces[0] + between + glued(pieces.skip(1), between)
    }
}

/// The last piece comes last.
pub proof fn lemma_glued_last(pieces: Seq<Seq<char>>, between: Seq<char>)
    requires
        pieces.len() > 1,
    ensures
        glued(pieces, between) == glued(pieces.drop_last(), between) + between + pieces.last(),
    decreases pieces.len(),
{
    let rest = pieces.skip(1);
    if pieces.len() == 2 {
        assert(rest.len() == 1 && rest[0] == pieces[1]);
        assert(pieces.drop_last().len() == 1 && pieces.drop_last()[0] == pieces[0]);
        reveal_with_fuel(glued, 2);
    } else {
        lemma_glued_last(rest, between);
        assert(rest.drop_last() =~= pieces.drop_last().skip(1));
        assert(rest.last() == pieces.last());
        assert(pieces.drop_last()[0] == pieces[0]);
    }
    assert(glued(pieces, between) =~= glued(pieces.drop_last(), between) + between + pieces.last());
}

/// A joined list is its texts in their order, with the separator between each
/// two of them and nowhere else.
pub proof fn law_joined_texts_are_glued(list: Seq<Seq<char>>, separator: Seq<char>)
    ensures
        text::joined(list, separator) == glued(list, separator),
    decreases list.len(),
{
    if list.len() > 1 {
        law_joined_texts_are_glued(list.drop_last(), separator);
        lemma_glued_last(list, separator);
    }
}

/// Pieces of a text that its occurrences of a pattern part, from the left: no
/// piece can be shortened by an occurrence that starts earlier.
pub open spec fn parted(
    whole: Seq<char>,
    pattern: Seq<char>,
    pieces: Seq<Seq<char>>,
) -> bool {
    &&& pieces.len() > 0
    &&& whole == glued(pieces, pattern)
    &&& forall|i: int|
        0 <= i < pieces.len() - 1 ==> !stands_in(#[trigger] pieces[i] + pattern.drop_last(), pattern)
    &&& !stands_in(pieces.last(), pattern)
}

/// One text is another one with something else in every place of a pattern,
/// and is the same elsewhere.
pub open spec fn substituted(
    whole: Seq<char>,
    pattern: Seq<char>,
    with: Seq<char>,
    result: Seq<char>,
) -> bool {
    exists|pieces: Seq<Seq<char>>|
        #[trigger] parted(whole, pattern, pieces) && result == glued(pieces, with)
}

proof fn lemma_short_holds_nothing(whole: Seq<char>, pattern: Seq<char>)
    requires
        whole.len() < pattern.len(),
    ensures
        !stands_in(whole, pattern),
{
    if stands_in(whole, pattern) {
        let (head, tail) = choose|head: Seq<char>, tail: Seq<char>|
            whole == #[trigger] around(head, pattern, tail);
        assert(whole.len() == head.len() + pattern.len() + tail.len());
    }
}

/// One more character in front brings no occurrence, unless at the start.
proof fn lemma_one_in_front(c: char, rest: Seq<char>, pattern: Seq<char>)
    requires
        !stands_in(rest, pattern),
        !pattern.is_prefix_of(seq![c] + rest),
    ensures
        !stands_in(seq![c] + rest, pattern),
{
    let whole = seq![c] + rest;
    if stands_in(whole, pattern) {
        let (head, tail) = choose|head: Seq<char>, tail: Seq<char>|
            whole == #[trigger] around(head, pattern, tail);
        if head.len() == 0 {
            assert(whole.take(pattern.len() as int) =~= pattern);
        } else {
            assert(rest =~= whole.skip(1));
            assert(rest =~= around(head.skip(1), pattern, tail));
        }
    }
}

proof fn lemma_longer_first_piece(
    c: char,
    pieces: Seq<Seq<char>>,
    longer: Seq<Seq<char>>,
    between: Seq<char>,
)
    requires
        pieces.len() > 0,
        longer == pieces.update(0, seq![c] + pieces[0]),
    ensures
        glued(longer, between) == seq![c] + glued(pieces, between),
{
    assert(longer.skip(1) =~= pieces.skip(1));
    assert(glued(longer, between) =~= seq![c] + glued(pieces, between));
}

/// Replacing a pattern puts the replacement in every place of the pattern, from
/// the left and without overlaps, and keeps everything else.
pub proof fn law_replacing_substitutes(whole: Seq<char>, pattern: Seq<char>, with: Seq<char>)
    requires
        pattern.len() > 0,
    ensures
        substituted(whole, pattern, with, text::replaced(whole, pattern, with)),
    decreases whole.len(),
{
    let result = text::replaced(whole, pattern, with);
    if whole.len() == 0 {
        let pieces = seq![whole];
        lemma_short_holds_nothing(whole, pattern);
        assert(parted(whole, pattern, pieces));
        assert(result =~= glued(pieces, with));
    } else if pattern.is_prefix_of(whole) {
        let rest = whole.skip(pattern.len() as int);
        law_replacing_substitutes(rest, pattern, with);
        let some = choose|pieces: Seq<Seq<char>>|
            #[trigger] parted(rest, pattern, pieces) && text::replaced(rest, pattern, with) == glued(
                pieces,
                with,
            );
        let pieces = seq![Seq::<char>::empty()] + some;
        assert(pieces.skip(1) =~= some);
        assert(whole =~= pattern + rest);
        assert(glued(pieces, pattern) =~= whole);
        assert(glued(pieces, with) =~= result);
        lemma_short_holds_nothing(Seq::<char>::empty() + pattern.drop_last(), pattern);
        assert forall|i: int| 0 <= i < pieces.len() - 1 implies !stands_in(
            #[trigger] pieces[i] + pattern.drop_last(),
            pattern,
        ) by {
            if i > 0 {
                assert(pieces[i] == some[i - 1]);
            }
        }
        assert(pieces.last() == some.last());
        assert(parted(whole, pattern, pieces));
    } else {
        let rest = whole.skip(1);
        let c = whole[0];
        law_replacing_substitutes(rest, pattern, with);
        let some = choose|pieces: Seq<Seq<char>>|
            #[trigger] parted(rest, pattern, pieces) && text::replaced(rest, pattern, with) == glued(
                pieces,
                with,
            );
        let pieces = some.update(0, seq![c] + some[0]);
        lemma_longer_first_piece(c, some, pieces, pattern);
        lemma_longer_first_piece(c, some, pieces, with);
        assert(whole =~= seq![c] + rest);
        let first = pieces[0];
        if pieces.len() == 1 {
            assert(first =~= whole);
            lemma_one_in_front(c, some[0], pattern);
        } else {
            let head = some[0] + pattern.drop_last();
            assert(first + pattern.drop_last() =~= seq![c] + head);
            assert(whole =~= first + pattern + glued(pieces.skip(1), pattern));
            if pattern.is_prefix_of(seq![c] + head) {
                assert(whole.take(pattern.len() as int) =~= (seq![c] + head).take(
                    pattern.len() as int,
                ));
            }
            lemma_one_in_front(c, head, pattern);
        }
        assert forall|i: int| 0 <= i < pieces.len() - 1 implies !stands_in(
            #[trigger] pieces[i] + pattern.drop_last(),
            pattern,
        ) by {
            if i > 0 {
                assert(pieces[i] == some[i]);
            }
        }
        if pieces.len() > 1 {
            assert(pieces.last() == some.last());
        }
        assert(parted(whole, pattern, pieces));
    }
}

/// A text without a character.
pub open spec fn lacks(whole: Seq<char>, c: char) -> bool {
    forall|i: int| 0 <= i < whole.len() ==> #[trigger] whole[i] != c
}

/// Cutting at a character undoes setting it between two texts, the first of
/// which does not have it; a text without the character is all before the cut.
pub proof fn law_cutting_undoes_setting_between(head: Seq<char>, c: char, tail: Seq<char>)
    requires
        lacks(head, c),
    ensures
        text::place_of(head + seq![c] + tail, c) == head.len(),
        text::place_of(head, c) == head.len(),
        text::before(head + seq![c] + tail, c) == head,
        text::after(head + seq![c] + tail, c) == tail,
        text::before(head, c) == head,
        text::after(head, c) == Seq::<char>::empty(),
{
    let whole = head + seq![c] + tail;
    assert forall|i: int| 0 <= i < head.len() implies whole[i] != c by {
        assert(whole[i] == head[i]);
    }
    text::lemma_place_of(whole, c, head.len() as int);
    text::lemma_place_of(head, c, head.len() as int);
    assert(text::before(whole, c) =~= head);
    assert(text::after(whole, c) =~= tail);
    assert(text::before(head, c) =~= head);
}

/// The white space of Unicode, by code point.
pub open spec fn blank(c: char) -> bool {
    let point = c as int;
    ||| 9 <= point <= 13
    ||| point == 32
    ||| point == 133
    ||| point == 160
    ||| point == 5760
    ||| 8192 <= point <= 8202
    ||| point == 8232
    ||| point == 8233
    ||| point == 8239
    ||| point == 8287
    ||| point == 12288
}

/// Exactly these characters are white space.
pub proof fn law_white_space_by_code_point(c: char)
    ensures
        text::is_white_space(c) <==> blank(c),
{
}

/// A text of white space.
pub open spec fn all_blank(whole: Seq<char>) -> bool {
    forall|i: int| 0 <= i < whole.len() ==> blank(#[trigger] whole[i])
}

/// A text that neither starts nor ends with white space.
pub open spec fn tight(whole: Seq<char>) -> bool {
    whole.len() > 0 ==> !blank(whole[0]) && !blank(whole.last())
}

/// Trimming undoes setting white space around a text that neither starts nor
/// ends with it.
pub proof fn law_trimming_undoes_white_space(
    head: Seq<char>,
    inner: Seq<char>,
    tail: Seq<char>,
)
    requires
        all_blank(head),
        tight(inner),
        all_blank(tail),
    ensures
        text::trimmed(head + inner + tail) == inner,
    decreases head.len() + tail.len(),
{
    let whole = head + inner + tail;
    if head.len() > 0 {
        assert(whole[0] == head[0]);
        assert(blank(head[0]));
        assert forall|i: int| 0 <= i < head.skip(1).len() implies blank(
            #[trigger] head.skip(1)[i],
        ) by {
            assert(head.skip(1)[i] == head[i + 1]);
        }
        law_trimming_undoes_white_space(head.skip(1), inner, tail);
        assert(whole.skip(1) =~= head.skip(1) + inner + tail);
    } else if inner.len() > 0 {
        assert(whole[0] == inner[0]);
        if tail.len() > 0 {
            assert(whole.last() == tail.last());
            assert(blank(tail[tail.len() - 1]));
            law_trimming_undoes_white_space(head, inner, tail.drop_last());
            assert(whole.drop_last() =~= head + inner + tail.drop_last());
        } else {
            assert(whole =~= inner);
        }
    } else if tail.len() > 0 {
        assert(whole[0] == tail[0]);
        assert(blank(tail[0]));
        assert forall|i: int| 0 <= i < tail.skip(1).len() implies blank(
            #[trigger] tail.skip(1)[i],
        ) by {
            assert(tail.skip(1)[i] == tail[i + 1]);
        }
        law_trimming_undoes_white_space(head, inner, tail.skip(1));
        assert(whole.skip(1) =~= head + inner + tail.skip(1));
    } else {
        assert(whole =~= inner);
    }
}

/// The list of a text, or of none where the text is empty.
pub open spec fn if_any(line: Seq<char>) -> Seq<Seq<char>> {
    if line.len() == 0 {
        Seq::empty()
    } else {
        seq![line]
    }
}

/// A line ends at a line feed, with or without one carriage return before it,
/// or at the end of the text; a carriage return elsewhere belongs to its line.
/// Empty lines are left out, and the order of the others is kept.
pub proof fn law_lines_end_at_line_feeds(line: Seq<char>, rest: Seq<char>)
    requires
        lacks(line, '\n'),
    ensures
        text::content_lines(line + seq!['\r', '\n'] + rest) == if_any(line) + text::content_lines(
            rest,
        ),
        line.len() == 0 || line.last() != '\r' ==> text::content_lines(line + seq!['\n'] + rest)
            == if_any(line) + text::content_lines(rest),
        text::content_lines(line) == if_any(line),
{
    let returned = line + seq!['\r'];
    let whole = line + seq!['\r', '\n'] + rest;
    assert(whole =~= returned + seq!['\n'] + rest);
    assert(lacks(returned, '\n'));
    law_cutting_undoes_setting_between(returned, '\n', rest);
    assert(whole[returned.len() as int] == '\n');
    assert(whole.contains('\n'));
    assert(text::first_line(whole) =~= line);
    assert(text::content_lines(whole) =~= if_any(line) + text::content_lines(rest));
    let plain = line + seq!['\n'] + rest;
    law_cutting_undoes_setting_between(line, '\n', rest);
    assert(plain[line.len() as int] == '\n');
    assert(plain.contains('\n'));
    if line.len() == 0 || line.last() != '\r' {
        assert(text::first_line(plain) =~= line);
        assert(text::content_lines(plain) =~= if_any(line) + text::content_lines(rest));
    }
    assert(!line.contains('\n'));
    if line.len() > 0 {
        assert(text::first_line(line) == line);
        assert(text::content_lines(Seq::<char>::empty()) =~= Seq::<Seq<char>>::empty());
        assert(text::content_lines(line) =~= seq![line]);
    }
}

/// A text of ASCII digits.
pub open spec fn digits(whole: Seq<char>) -> bool {
    forall|i: int| 0 <= i < whole.len() ==> '0' <= #[trigger] whole[i] <= '9'
}

/// A power of ten.
pub open spec fn ten_to(power: nat) -> int
    decreases power,
{
    if power == 0 {
        1
    } else {
        10 * ten_to((power - 1) as nat)
    }
}

/// What digits are worth by their places, counted from the right.
pub open spec fn worth(whole: Seq<char>) -> int
    decreases whole.len(),
{
    if whole.len() == 0 {
        0
    } else {
        (whole[0] as int - '0' as int) * ten_to((whole.len() - 1) as nat) + worth(whole.skip(1))
    }
}

proof fn lemma_worth_of_one_more(whole: Seq<char>, c: char)
    ensures
        worth(whole.push(c)) == 10 * worth(whole) + (c as int - '0' as int),
    decreases whole.len(),
{
    let more = whole.push(c);
    if whole.len() == 0 {
        assert(more.skip(1) =~= Seq::<char>::empty());
        assert(worth(more.skip(1)) == 0 && worth(whole) == 0);
        let d = c as int - '0' as int;
        let p = ten_to(0);
        assert(d * p == d) by (nonlinear_arith)
            requires
                p == 1,
        ;
        assert(more[0] == c && more.len() - 1 == 0);
    } else {
        lemma_worth_of_one_more(whole.skip(1), c);
        assert(more.skip(1) =~= whole.skip(1).push(c));
        let d = whole[0] as int - '0' as int;
        let p = ten_to((whole.len() - 1) as nat);
        assert(ten_to(whole.len()) == 10 * p);
        assert(d * (10 * p) == 10 * (d * p)) by (nonlinear_arith);
        assert(more[0] == whole[0] && more.len() - 1 == whole.len());
    }
}

/// A printed number is digits, without a zero in front of others, and their
/// worth is the number.
pub proof fn law_printed_numbers_read_back(n: nat)
    ensures
        digits(text::decimal(n)),
        worth(text::decimal(n)) == n,
        text::decimal(n).len() > 0,
        text::decimal(n).len() > 1 ==> text::decimal(n)[0] != '0',
    decreases n,
{
    if n < 10 {
        let d = text::digit_char(n as int);
        assert(text::decimal(n) =~= Seq::<char>::empty().push(d));
        lemma_worth_of_one_more(Seq::<char>::empty(), d);
    } else {
        let d = text::digit_char((n % 10) as int);
        law_printed_numbers_read_back(n / 10);
        lemma_worth_of_one_more(text::decimal(n / 10), d);
        if text::decimal(n / 10).len() == 1 {
            let c = text::decimal(n / 10)[0];
            assert(text::decimal(n / 10) =~= Seq::<char>::empty().push(c));
            lemma_worth_of_one_more(Seq::<char>::empty(), c);
        }
    }
}

/// One text is a proper beginning of another one, or has the lower character
/// where the two first differ.
pub open spec fn comes_first(left: Seq<char>, right: Seq<char>) -> bool {
    exists|k: int| #[trigger] parts_at(left, right, k)
}

/// Two texts agree before place `k`, and there the first one ends or has the
/// lower character.
pub open spec fn parts_at(left: Seq<char>, right: Seq<char>, k: int) -> bool {
    &&& 0 <= k <= left.len()
    &&& k < right.len()
    &&& forall|i: int| 0 <= i < k ==> #[trigger] left[i] == right[i]
    &&& k < left.len() ==> left[k] < right[k]
}

/// Texts are ordered by the first character in which they differ, with a
/// proper beginning first.
pub proof fn law_order_is_by_first_difference(left: Seq<char>, right: Seq<char>)
    ensures
        text::sorts_before(left, right) <==> comes_first(left, right),
    decreases left.len(),
{
    if right.len() == 0 {
    } else if left.len() == 0 {
        assert(parts_at(left, right, 0));
    } else if left[0] != right[0] {
        if left[0] < right[0] {
            assert(parts_at(left, right, 0));
        }
    } else {
        let (a, b) = (left.skip(1), right.skip(1));
        law_order_is_by_first_difference(a, b);
        if comes_first(a, b) {
            let k = choose|k: int| #[trigger] parts_at(a, b, k);
            assert forall|i: int| 0 <= i < k + 1 implies #[trigger] left[i] == right[i] by {
                if i > 0 {
                    assert(a[i - 1] == b[i - 1]);
                }
            }
            assert(parts_at(left, right, k + 1));
        }
        if comes_first(left, right) {
            let k = choose|k: int| #[trigger] parts_at(left, right, k);
            assert forall|i: int| 0 <= i < k - 1 implies #[trigger] a[i] == b[i] by {
                assert(left[i + 1] == right[i + 1]);
            }
            assert(parts_at(a, b, k - 1));
        }
    }
}

/// The texts of a set, each once, every one before those that it comes before.
pub open spec fn in_order(set: Set<Seq<char>>, list: Seq<Seq<char>>) -> bool {
    &&& list.to_set() == set
    &&& forall|i: int, j: int|
        0 <= i < j < list.len() ==> comes_first(#[trigger] list[i], #[trigger] list[j])
}

proof fn lemma_insert_in_order(list: Seq<Seq<char>>, new: Seq<char>) -> (more: Seq<Seq<char>>)
    requires
        tree::ascending(list),
        !list.contains(new),
    ensures
        tree::ascending(more),
        more.to_set() == list.to_set().insert(new),
    decreases list.len(),
{
    if list.len() == 0 || text::sorts_before(list.last(), new) {
        let more = list.push(new);
        assert forall|i: int, j: int| 0 <= i < j < more.len() implies text::sorts_before(
            #[trigger] more[i],
            #[trigger] more[j],
        ) by {
            if j == list.len() && i < list.len() - 1 {
                assert(text::sorts_before(list[i], list[list.len() - 1]));
                text::lemma_sorts_before_transitive(list[i], list.last(), new);
            }
        }
        assert forall|t: Seq<char>| more.to_set().contains(t) == list.to_set().insert(new).contains(
            t,
        ) by {
            if list.contains(t) {
                let k = choose|k: int| 0 <= k < list.len() && list[k] == t;
                assert(more[k] == t);
            }
            assert(more[list.len() as int] == new);
        }
        assert(more.to_set() =~= list.to_set().insert(new));
        more
    } else {
        let last = list.last();
        let fewer = list.drop_last();
        assert(list[list.len() - 1] == last);
        assert(list.contains(last));
        text::lemma_sorts_before_total(last, new);
        assert(!fewer.contains(new)) by {
            if fewer.contains(new) {
                let k = choose|k: int| 0 <= k < fewer.len() && fewer[k] == new;
                assert(list[k] == new);
            }
        }
        let inner = lemma_insert_in_order(fewer, new);
        let more = inner.push(last);
        assert forall|t: Seq<char>| #[trigger] inner.contains(t) == (fewer.contains(t) || t == new) by {
            assert(inner.to_set().contains(t) == fewer.to_set().insert(new).contains(t));
        }
        assert forall|i: int, j: int| 0 <= i < j < more.len() implies text::sorts_before(
            #[trigger] more[i],
            #[trigger] more[j],
        ) by {
            if j == inner.len() {
                assert(inner.contains(inner[i]));
                if inner[i] != new {
                    let k = choose|k: int| 0 <= k < fewer.len() && fewer[k] == inner[i];
                    assert(text::sorts_before(list[k], list[list.len() - 1]));
                }
            }
        }
        assert forall|t: Seq<char>| more.to_set().contains(t) == list.to_set().insert(new).contains(
            t,
        ) by {
            if inner.contains(t) {
                let k = choose|k: int| 0 <= k < inner.len() && inner[k] == t;
                assert(more[k] == t);
                if fewer.contains(t) {
                    let m = choose|m: int| 0 <= m < fewer.len() && fewer[m] == t;
                    assert(list[m] == t);
                }
            }
            assert(more[inner.len() as int] == last);
            if list.contains(t) && t != last {
                let k = choose|k: int| 0 <= k < list.len() && list[k] == t;
                assert(fewer[k] == t);
            }
        }
        assert(more.to_set() =~= list.to_set().insert(new));
        more
    }
}

proof fn lemma_some_order(set: Set<Seq<char>>) -> (list: Seq<Seq<char>>)
    requires
        set.finite(),
    ensures
        tree::ascending(list),
        list.to_set() == set,
    decreases set.len(),
{
    if set.len() == 0 {
        let list = Seq::<Seq<char>>::empty();
        assert(list.to_set() =~= set);
        list
    } else {
        let new = set.choose();
        let fewer = lemma_some_order(set.remove(new));
        assert(fewer.contains(new) == fewer.to_set().contains(new));
        let list = lemma_insert_in_order(fewer, new);
        assert(set.remove(new).insert(new) =~= set);
        list
    }
}

/// The sorted texts of a finite set are its texts, each once and in their order;
/// no other list is.
pub proof fn law_sorted_texts_are_in_order(set: Set<Seq<char>>, list: Seq<Seq<char>>)
    requires
        set.finite(),
    ensures
        in_order(set, list) <==> list == tree::sorted(set),
{
    let some = lemma_some_order(set);
    tree::lemma_sorted(some);
    assert forall|i: int, j: int| 0 <= i < j < some.len() implies comes_first(
        #[trigger] some[i],
        #[trigger] some[j],
    ) by {
        law_order_is_by_first_difference(some[i], some[j]);
    }
    if in_order(set, list) {
        assert forall|i: int, j: int| 0 <= i < j < list.len() implies text::sorts_before(
            #[trigger] list[i],
            #[trigger] list[j],
        ) by {
            law_order_is_by_first_difference(list[i], list[j]);
        }
        tree::lemma_sorted(list);
    }
}

/// A list of texts is seen as its texts, in their order.
pub proof fn law_lists_are_seen_whole(list: Seq<String>, slices: Seq<&str>)
    ensures
        text::texts(list) == list.map_values(|item: String| item@),
        crate::package::slice_texts(slices) == slices.map_values(|item: &str| item@),
{
    assert(text::texts(list) =~= list.map_values(|item: String| item@));
    assert(crate::package::slice_texts(slices) =~= slices.map_values(|item: &str| item@));
}

/// A result is seen as the text that it holds, on its own side.
pub proof fn law_results_are_seen_whole(value: String)
    ensures
        text::result_text(Ok(value)) == Ok::<Seq<char>, Seq<char>>(value@),
        text::result_text(Err(value)) == Err::<Seq<char>, Seq<char>>(value@),
{
}

} // verus!

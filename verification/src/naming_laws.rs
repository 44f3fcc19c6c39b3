//! How texts, numbers and port declarations are written and read.

use crate::buffer::{hex_digit, hexadecimal};
use crate::port::{
    all_digits, answers, decimal_denotes, is_digit, lemma_segments_around, lemma_segments_clean,
    lemma_segments_nonempty, lemma_segments_whole, numeral, port_spec, segments, size_denoted,
    tagged, PortSpecView,
};
use crate::text::{decimal, first_missing, first_shared, joined, signed_decimal, text_less};
use vstd::prelude::*;

verus! {

// ----------------------------------------------------------------------- pieces

/// The pieces of a text, with the separator between them, are the text; and
/// none of them holds the separator.
pub proof fn pieces_join_back(s: Seq<char>, c: char)
    ensures
        segments(s, c).len() > 0,
        joined(segments(s, c), seq![c]) == s,
        forall|i: int|
            0 <= i < segments(s, c).len() ==> !(#[trigger] segments(s, c)[i]).contains(c),
    decreases s.len(),
{
    lemma_segments_nonempty(s, c);
    lemma_segments_clean(s, c);
    let all = segments(s, c);
    if s.len() == 0 {
        assert(all[0] =~= s);
    } else {
        let front = s.drop_last();
        let before = segments(front, c);
        pieces_join_back(front, c);
        if s.last() == c {
            assert(all.drop_last() =~= before);
            assert(all.last() =~= Seq::empty());
            assert(joined(all, seq![c]) =~= s);
        } else {
            let last = before.last();
            assert(all.drop_last() =~= before.drop_last());
            assert(all.last() == last.push(s.last()));
            if before.len() == 1 {
                assert(all[0] == all.last());
                assert(before[0] == last);
                assert(last.push(s.last()) =~= s);
            } else {
                assert(joined(before, seq![c]) == joined(before.drop_last(), seq![c]) + seq![c]
                    + last);
                let early = joined(before.drop_last(), seq![c]) + seq![c];
                assert(all.len() == before.len());
                assert(joined(all, seq![c]) == early + all.last());
                assert(early + last.push(s.last()) =~= (early + last).push(s.last()));
                assert(front.push(s.last()) =~= s);
            }
        }
    }
}

/// Texts are put together in order, with the separator between each two.
pub proof fn joined_texts_follow_each_other(parts: Seq<Seq<char>>, x: Seq<char>, sep: Seq<char>)
    ensures
        joined(seq![x], sep) == x,
        parts.len() > 0 ==> joined(parts.push(x), sep) == joined(parts, sep) + sep + x,
{
    assert(parts.push(x).drop_last() =~= parts);
}

// ------------------------------------------------------------------ declarations

/// An accepted declaration is a name, a tag and a name, or a tag, an index and a
/// name, with colons between them; and it says just what is written there.
pub proof fn declarations_are_taken_at_their_word(decl: Seq<char>)
    requires
        port_spec(decl) is Ok,
    ensures
        ({
            let p = port_spec(decl)->Ok_0;
            let colon = seq![':'];
            ||| p.tag.len() == 0 && p.index is None && decl == p.name
            ||| p.index is None && decl == p.tag + colon + p.name
            ||| p.index is Some && exists|number: Seq<char>|
                decl == p.tag + colon + number + colon + p.name && #[trigger] size_denoted(number)
                    == p.index
        }),
{
    pieces_join_back(decl, ':');
    let parts = segments(decl, ':');
    let colon = seq![':'];
    let p = port_spec(decl)->Ok_0;
    if parts.len() == 1 {
        assert(parts[0] == parts.last());
    } else if parts.len() == 2 {
        let one = parts.drop_last();
        assert(joined(parts, colon) == joined(one, colon) + colon + parts.last());
        assert(joined(one, colon) == one[0]);
        assert(one[0] == parts[0]);
    } else {
        let two = parts.drop_last();
        let one = two.drop_last();
        assert(joined(parts, colon) == joined(two, colon) + colon + parts.last());
        assert(joined(two, colon) == joined(one, colon) + colon + two.last());
        assert(joined(one, colon) == one[0]);
        assert(one[0] == parts[0] && two.last() == parts[1]);
        assert(size_denoted(parts[1]) == p.index);
    }
}

/// A declaration of a tag, an index and a name is accepted exactly if the index
/// is a number and the name is not empty. One with a further colon is refused,
/// and so is one without a name.
pub proof fn declarations_are_refused(a: Seq<char>, b: Seq<char>, c: Seq<char>, d: Seq<char>)
    requires
        !a.contains(':'),
        !b.contains(':'),
        !c.contains(':'),
        !d.contains(':'),
    ensures
        port_spec(a) is Ok <==> a.len() > 0,
        port_spec(a.push(':') + c) is Ok <==> c.len() > 0,
        port_spec(a.push(':') + (b.push(':') + c)) is Ok <==> size_denoted(b) is Some && c.len()
            > 0,
        port_spec(a.push(':') + (b.push(':') + (c.push(':') + d))) is Err,
{
    lemma_segments_whole(a, ':');
    lemma_segments_whole(b, ':');
    lemma_segments_whole(c, ':');
    lemma_segments_whole(d, ':');
    lemma_segments_around(a, c, ':');
    assert(seq![a] + seq![c] =~= seq![a, c]);
    lemma_segments_around(b, c, ':');
    lemma_segments_around(a, b.push(':') + c, ':');
    assert(seq![a] + (seq![b] + seq![c]) =~= seq![a, b, c]);
    lemma_segments_around(c, d, ':');
    lemma_segments_around(b, c.push(':') + d, ':');
    lemma_segments_around(a, b.push(':') + (c.push(':') + d), ':');
}

/// An index is a number exactly if it is made of digits, with a plus sign in
/// front or without, and is not too large; a minus sign is none.
pub proof fn indices_are_numbers(n: usize, digits: Seq<char>)
    requires
        digits.len() > 0,
        all_digits(digits),
    ensures
        size_denoted(decimal(n as nat)) == Some(n),
        size_denoted(seq!['+'] + decimal(n as nat)) == Some(n),
        size_denoted(digits) is Some <==> numeral(digits) <= usize::MAX,
        size_denoted(seq!['-'] + digits) is None,
        size_denoted(Seq::empty()) is None,
{
    decimal_denotes(n as nat);
    let d = decimal(n as nat);
    assert(is_digit(d[0]));
    assert(is_digit(digits[0]));
    let plus = seq!['+'] + d;
    assert(plus.drop_first() =~= d);
    let minus = seq!['-'] + digits;
    assert(!is_digit(minus[0]));
}

/// The index of a port without one of its own is the number of ports of its tag
/// before it; one that declares an index has that.
pub proof fn ports_are_counted_by_tag(list: Seq<PortSpecView>, i: int, index: nat)
    requires
        0 <= i < list.len(),
    ensures
        ({
            let tag = list[i].tag;
            let before = list.take(i).filter(|p: PortSpecView| p.tag == tag);
            &&& list[i].index is None ==> (answers(list, i, tag, index) <==> index == before.len())
            &&& list[i].index matches Some(n) ==> (answers(list, i, tag, index) <==> index == n)
        }),
{
    lemma_tagged(list.take(i), list[i].tag);
}

proof fn lemma_tagged(list: Seq<PortSpecView>, tag: Seq<char>)
    ensures
        tagged(list, tag) == list.filter(|p: PortSpecView| p.tag == tag).len(),
    decreases list.len(),
{
    reveal(Seq::filter);
    if list.len() > 0 {
        lemma_tagged(list.drop_last(), tag);
    }
}

/// A port answers to no tag but its own.
pub proof fn ports_answer_to_their_tag(
    list: Seq<PortSpecView>,
    i: int,
    tag: Seq<char>,
    index: nat,
)
    requires
        0 <= i < list.len(),
    ensures
        answers(list, i, tag, index) ==> list[i].tag == tag,
{
}

// ------------------------------------------------------------------------ order

/// Texts are ordered by the first character in which they differ, and a text
/// comes before a longer one that it begins.
pub proof fn texts_are_ordered_by_characters(
    p: Seq<char>,
    a: char,
    b: char,
    x: Seq<char>,
    y: Seq<char>,
)
    ensures
        a != b ==> (text_less(p + (seq![a] + x), p + (seq![b] + y)) <==> (a as int) < (b as int)),
        text_less(p, p + (seq![a] + x)),
        !text_less(p + (seq![a] + x), p),
    decreases p.len(),
{
    let (u, v) = (p + (seq![a] + x), p + (seq![b] + y));
    if p.len() > 0 {
        let rest = p.drop_first();
        texts_are_ordered_by_characters(rest, a, b, x, y);
        assert(u.drop_first() =~= rest + (seq![a] + x));
        assert(v.drop_first() =~= rest + (seq![b] + y));
        assert(u[0] == p[0] && v[0] == p[0]);
    } else {
        assert(u[0] == a && v[0] == b);
    }
}

/// What is named as missing is the first text of a list that is not known.
pub proof fn the_first_missing_text_is_named(list: Seq<Seq<char>>, known: Seq<Seq<char>>)
    ensures
        first_missing(list, known) matches Some(x) ==> exists|i: int|
            {
                &&& 0 <= i < list.len()
                &&& #[trigger] list[i] == x
                &&& !known.contains(x)
                &&& forall|k: int| 0 <= k < i ==> known.contains(#[trigger] list[k])
            },
        first_missing(list, known) is None ==> forall|k: int|
            0 <= k < list.len() ==> known.contains(#[trigger] list[k]),
    decreases list.len(),
{
    if list.len() > 0 {
        let front = list.drop_last();
        the_first_missing_text_is_named(front, known);
        assert forall|k: int| 0 <= k < front.len() implies front[k] == #[trigger] list[k] by {}
        if first_missing(front, known) is Some {
            let x = first_missing(front, known)->Some_0;
            let i = choose|i: int|
                {
                    &&& 0 <= i < front.len()
                    &&& #[trigger] front[i] == x
                    &&& !known.contains(x)
                    &&& forall|k: int| 0 <= k < i ==> known.contains(#[trigger] front[k])
                };
            assert(list[i] == x);
            assert forall|k: int| 0 <= k < i implies known.contains(#[trigger] list[k]) by {
                assert(known.contains(front[k]));
            }
        } else {
            assert forall|k: int| 0 <= k < front.len() implies known.contains(
                #[trigger] list[k],
            ) by {
                assert(known.contains(front[k]));
            }
            assert(list[list.len() - 1] == list.last());
        }
    }
}

/// What is named as shared is the first text of a list that is among others.
pub proof fn the_first_shared_text_is_named(list: Seq<Seq<char>>, others: Seq<Seq<char>>)
    ensures
        first_shared(list, others) matches Some(x) ==> exists|i: int|
            {
                &&& 0 <= i < list.len()
                &&& #[trigger] list[i] == x
                &&& others.contains(x)
                &&& forall|k: int| 0 <= k < i ==> !others.contains(#[trigger] list[k])
            },
        first_shared(list, others) is None ==> forall|k: int|
            0 <= k < list.len() ==> !others.contains(#[trigger] list[k]),
    decreases list.len(),
{
    if list.len() > 0 {
        let front = list.drop_last();
        the_first_shared_text_is_named(front, others);
        assert forall|k: int| 0 <= k < front.len() implies front[k] == #[trigger] list[k] by {}
        if first_shared(front, others) is Some {
            let x = first_shared(front, others)->Some_0;
            let i = choose|i: int|
                {
                    &&& 0 <= i < front.len()
                    &&& #[trigger] front[i] == x
                    &&& others.contains(x)
                    &&& forall|k: int| 0 <= k < i ==> !others.contains(#[trigger] front[k])
                };
            assert(list[i] == x);
            assert forall|k: int| 0 <= k < i implies !others.contains(#[trigger] list[k]) by {
                assert(!others.contains(front[k]));
            }
        } else {
            assert forall|k: int| 0 <= k < front.len() implies !others.contains(
                #[trigger] list[k],
            ) by {
                assert(!others.contains(front[k]));
            }
            assert(list[list.len() - 1] == list.last());
        }
    }
}

// ---------------------------------------------------------------------- numbers

/// The notation of a signed number is that of its size, with a minus sign in
/// front exactly if it is below zero.
pub proof fn signed_numbers_read_back(n: int)
    ensures
        n >= 0 ==> all_digits(signed_decimal(n)) && numeral(signed_decimal(n)) == n,
        n < 0 ==> signed_decimal(n)[0] == '-' && all_digits(signed_decimal(n).skip(1)) && numeral(
            signed_decimal(n).skip(1),
        ) == -n,
{
    if n < 0 {
        decimal_denotes((-n) as nat);
        assert(signed_decimal(n).skip(1) =~= decimal((-n) as nat));
    } else {
        decimal_denotes(n as nat);
    }
}

/// The value of a digit to the base of sixteen.
pub open spec fn hex_value(c: char) -> int {
    if '0' as int <= c as int <= '9' as int {
        c as int - '0' as int
    } else {
        c as int - 'a' as int + 10
    }
}

/// The number that digits to the base of sixteen denote.
pub open spec fn hex_numeral(s: Seq<char>) -> int {
    s.fold_left(0int, |sum: int, c: char| 16 * sum + hex_value(c))
}

/// The notation to the base of sixteen denotes the number.
pub proof fn hexadecimal_reads_back(n: nat)
    ensures
        hex_numeral(hexadecimal(n)) == n,
        n > 0 ==> hexadecimal(n)[0] != '0',
        hexadecimal(n).len() > 0,
    decreases n,
{
    let s = hexadecimal(n);
    let f = |sum: int, c: char| 16 * sum + hex_value(c);
    assert(hex_value(hex_digit(n % 16)) == n % 16);
    if n < 16 {
        assert(s.drop_last() =~= Seq::empty());
        assert(s.drop_last().fold_left(0int, f) == 0);
        assert(s.last() == hex_digit(n));
    } else {
        hexadecimal_reads_back(n / 16);
        assert(s.drop_last() =~= hexadecimal(n / 16));
        assert(s.last() == hex_digit(n % 16));
        assert(s[0] == hexadecimal(n / 16)[0]);
    }
}

} // verus!

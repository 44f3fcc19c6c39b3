//! Spelling suggestions for names that are not known.

use crate::text::{
    cat3, chars_of, less, text_less, text_less_irreflexive, text_less_total, text_less_transitive,
    texts,
};
use vstd::prelude::*;
use vstd::utf8::encode_utf8;

verus! {

/// The least of three numbers.
pub open spec fn least(a: nat, b: nat, c: nat) -> nat {
    if a <= b && a <= c {
        a
    } else if b <= c {
        b
    } else {
        c
    }
}

/// The least number of insertions, deletions and replacements of a character
/// that turn `a` into `b`.
pub open spec fn distance(a: Seq<char>, b: Seq<char>) -> nat
    decreases a.len() + b.len(),
{
    if a.len() == 0 {
        b.len()
    } else if b.len() == 0 {
        a.len()
    } else if a.last() == b.last() {
        distance(a.drop_last(), b.drop_last())
    } else {
        1 + least(
            distance(a.drop_last(), b.drop_last()),
            distance(a.drop_last(), b),
            distance(a, b.drop_last()),
        )
    }
}

/// The distance lies between the difference of the lengths and the larger
/// length.
pub proof fn distance_bounds(a: Seq<char>, b: Seq<char>)
    ensures
        distance(a, b) <= if a.len() >= b.len() {
            a.len()
        } else {
            b.len()
        },
        distance(a, b) >= a.len() - b.len(),
        distance(a, b) >= b.len() - a.len(),
    decreases a.len() + b.len(),
{
    if a.len() > 0 && b.len() > 0 {
        distance_bounds(a.drop_last(), b.drop_last());
        if a.last() != b.last() {
            distance_bounds(a.drop_last(), b);
            distance_bounds(a, b.drop_last());
        }
    }
}

/// The distance is zero between equal texts and only there.
pub proof fn distance_zero(a: Seq<char>, b: Seq<char>)
    ensures
        distance(a, b) == 0 <==> a == b,
    decreases a.len() + b.len(),
{
    if a.len() == 0 || b.len() == 0 {
        assert(a.len() == b.len() ==> a =~= b);
    } else if a.last() == b.last() {
        distance_zero(a.drop_last(), b.drop_last());
        assert(a =~= a.drop_last().push(a.last()));
        assert(b =~= b.drop_last().push(b.last()));
    }
}

/// The distance does not depend on the direction.
pub proof fn distance_symmetric(a: Seq<char>, b: Seq<char>)
    ensures
        distance(a, b) == distance(b, a),
    decreases a.len() + b.len(),
{
    if a.len() > 0 && b.len() > 0 {
        distance_symmetric(a.drop_last(), b.drop_last());
        if a.last() != b.last() {
            distance_symmetric(a.drop_last(), b);
            distance_symmetric(a, b.drop_last());
        }
    }
}

/// One more character at the end of one text changes the distance by at most
/// one.
proof fn lemma_distance_step(a: Seq<char>, b: Seq<char>)
    ensures
        a.len() > 0 ==> distance(a, b) <= distance(a.drop_last(), b) + 1,
        b.len() > 0 ==> distance(a, b) <= distance(a, b.drop_last()) + 1,
        a.len() > 0 ==> distance(a.drop_last(), b) <= distance(a, b) + 1,
        b.len() > 0 ==> distance(a, b.drop_last()) <= distance(a, b) + 1,
    decreases a.len() + b.len(),
{
    if a.len() > 0 && b.len() > 0 {
        let x = a.drop_last();
        let y = b.drop_last();
        lemma_distance_step(x, y);
        lemma_distance_step(x, b);
        lemma_distance_step(a, y);
    }
}

/// Going by way of a third text is never shorter.
pub proof fn distance_triangle(a: Seq<char>, b: Seq<char>, c: Seq<char>)
    ensures
        distance(a, c) <= distance(a, b) + distance(b, c),
    decreases a.len() + b.len() + c.len(),
{
    distance_bounds(a, b);
    distance_bounds(b, c);
    distance_bounds(a, c);
    if a.len() > 0 && b.len() > 0 && c.len() > 0 {
        let x = a.drop_last();
        let y = b.drop_last();
        let z = c.drop_last();
        distance_triangle(x, y, z);
        distance_triangle(x, b, c);
        distance_triangle(a, b, z);
        distance_triangle(a, y, c);
        distance_triangle(x, y, c);
        distance_triangle(a, y, z);
        distance_triangle(x, b, z);
        lemma_distance_step(a, c);
        lemma_distance_step(a, b);
        lemma_distance_step(b, c);
        lemma_distance_step(x, c);
        lemma_distance_step(a, z);
    }
}

/// The length of a text in bytes.
pub open spec fn byte_length(s: Seq<char>) -> nat {
    encode_utf8(s).len()
}

/// Whether `candidate` is close enough to `value` to be suggested: at most one
/// edit away if both are at most four bytes long, else at most two.
pub open spec fn close(value: Seq<char>, candidate: Seq<char>) -> bool {
    distance(value, candidate) <= if byte_length(value) <= 4 && byte_length(candidate) <= 4 {
        1nat
    } else {
        2nat
    }
}

/// Whether `a` is a better suggestion than `b`: nearer, or as near and first
/// in order.
pub open spec fn better(value: Seq<char>, a: Seq<char>, b: Seq<char>) -> bool {
    distance(value, a) < distance(value, b) || (distance(value, a) == distance(value, b)
        && text_less(a, b))
}

/// Whether `c` is the best of the close candidates.
pub open spec fn is_best(value: Seq<char>, candidates: Seq<Seq<char>>, c: Seq<char>) -> bool {
    &&& value.len() > 0
    &&& candidates.contains(c)
    &&& close(value, c)
    &&& forall|i: int|
        0 <= i < candidates.len() && close(value, #[trigger] candidates[i]) ==> candidates[i] == c
            || better(value, c, candidates[i])
}

/// The suggestion for `value`, if a candidate is close to it.
pub open spec fn suggested(value: Seq<char>, candidates: Seq<Seq<char>>) -> Option<Seq<char>> {
    if exists|c: Seq<char>| is_best(value, candidates, c) {
        Some(choose|c: Seq<char>| is_best(value, candidates, c))
    } else {
        None
    }
}

/// The hint that is appended to a message about `value`.
pub open spec fn hint(value: Seq<char>, candidates: Seq<Seq<char>>) -> Seq<char> {
    match suggested(value, candidates) {
        Some(c) => "; did you mean `"@ + c + "`?"@,
        None => Seq::empty(),
    }
}

/// The texts of a list of candidates.
pub open spec fn candidate_texts(candidates: Seq<&str>) -> Seq<Seq<char>> {
    Seq::new(candidates.len(), |i: int| candidates[i]@)
}

/// There is at most one best candidate.
proof fn lemma_best_unique(
    value: Seq<char>,
    candidates: Seq<Seq<char>>,
    a: Seq<char>,
    b: Seq<char>,
)
    requires
        is_best(value, candidates, a),
        is_best(value, candidates, b),
    ensures
        a == b,
{
    let i = candidates.index_of(a);
    let j = candidates.index_of(b);
    assert(candidates[i] == a && candidates[j] == b);
    if a != b {
        assert(better(value, b, a) && better(value, a, b));
        text_less_transitive(a, b, a);
        text_less_irreflexive(a);
    }
}

/// The number of edits between two texts.
pub fn edit_distance(left: &str, right: &str) -> (r: usize)
    ensures
        r == distance(left@, right@),
{
    let left = chars_of(left);
    let right = chars_of(right);
    let mut previous: Vec<usize> = Vec::new();
    previous.push(0);
    for j in 0..right.len()
        invariant
            previous@.len() == j + 1,
            forall|k: int| 0 <= k <= j ==> #[trigger] previous@[k] == k,
    {
        previous.push(j + 1);
    }
    assert(left@.take(0) =~= Seq::empty());
    for i in 0..left.len()
        invariant
            previous@.len() == right@.len() + 1,
            forall|k: int|
                0 <= k <= right@.len() ==> #[trigger] previous@[k] == distance(
                    left@.take(i as int),
                    right@.take(k),
                ),
    {
        let ghost row = left@.take(i as int);
        let ghost next = left@.take(i + 1);
        assert(next.drop_last() =~= row);
        assert(next.last() == left@[i as int]);
        let mut current: Vec<usize> = Vec::new();
        current.push(i + 1);
        assert(right@.take(0) =~= Seq::empty());
        for j in 0..right.len()
            invariant
                i < left@.len(),
                previous@.len() == right@.len() + 1,
                forall|k: int|
                    0 <= k <= right@.len() ==> #[trigger] previous@[k] == distance(
                        row,
                        right@.take(k),
                    ),
                next.len() == i + 1,
                next.drop_last() == row,
                next.last() == left@[i as int],
                current@.len() == j + 1,
                forall|k: int|
                    0 <= k <= j ==> #[trigger] current@[k] == distance(next, right@.take(k)),
        {
            let ghost part = right@.take(j + 1);
            proof {
                assert(part.drop_last() =~= right@.take(j as int));
                assert(part.last() == right@[j as int]);
                distance_bounds(next, part);
                assert(part.len() == j + 1 <= right.len());
                assert(next.len() <= left.len());
                assert(previous@[j as int] == distance(row, right@.take(j as int)));
                assert(previous@[j + 1] == distance(row, part));
                assert(current@[j as int] == distance(next, right@.take(j as int)));
            }
            let diagonal: usize = previous[j];
            let entry: usize = if left[i] == right[j] {
                diagonal
            } else {
                let above: usize = previous[j + 1];
                let before: usize = current[j];
                let mut smallest: usize = diagonal;
                if above < smallest {
                    smallest = above;
                }
                if before < smallest {
                    smallest = before;
                }
                1 + smallest
            };
            assert(entry == distance(next, part));
            current.push(entry);
        }
        previous = current;
    }
    assert(left@.take(left@.len() as int) =~= left@);
    assert(right@.take(right@.len() as int) =~= right@);
    previous[right.len()]
}

/// The candidate that `value` most likely stands for.
pub fn suggestion<'a>(value: &str, candidates: &Vec<&'a str>) -> (r: Option<&'a str>)
    ensures
        match r {
            Some(c) => suggested(value@, candidate_texts(candidates@)) == Some(c@),
            None => suggested(value@, candidate_texts(candidates@)) is None,
        },
{
    let ghost all = candidate_texts(candidates@);
    if value.is_empty() {
        return None;
    }
    let mut found: Option<(usize, &'a str)> = None;
    for i in 0..candidates.len()
        invariant
            value@.len() > 0,
            all == candidate_texts(candidates@),
            match found {
                Some((d, c)) => d == distance(value@, c@) && is_best(
                    value@,
                    all.take(i as int),
                    c@,
                ),
                None => forall|k: int| 0 <= k < i ==> !close(value@, #[trigger] all[k]),
            },
    {
        let candidate: &'a str = candidates[i];
        let ghost before = all.take(i as int);
        let ghost now = all.take(i + 1);
        assert(now =~= before.push(candidate@));
        assert(now[i as int] == candidate@);
        assert forall|k: int| 0 <= k < i implies before[k] == now[k] && before[k] == all[k] by {}
        let d: usize = edit_distance(value, candidate);
        let limit: usize = if value.as_bytes().len() <= 4 && candidate.as_bytes().len() <= 4 {
            1
        } else {
            2
        };
        let mut replace = d <= limit;
        if replace {
            match found {
                Some((best, c)) => {
                    replace = d < best || (d == best && less(candidate, c));
                    proof {
                        let p = before.index_of(c@);
                        assert(before[p] == c@);
                        assert(now[p] == c@);
                        text_less_total(c@, candidate@);
                        if replace {
                            assert forall|k: int|
                                0 <= k < now.len() && close(value@, #[trigger] now[k]) implies now[k]
                                == candidate@ || better(value@, candidate@, now[k]) by {
                                if k < i {
                                    assert(before[k] == now[k]);
                                    if before[k] != c@ && d == best && distance(value@, before[k])
                                        == best {
                                        text_less_transitive(
                                            candidate@,
                                            c@,
                                            before[k],
                                        );
                                    }
                                }
                            }
                        } else {
                            assert forall|k: int|
                                0 <= k < now.len() && close(value@, #[trigger] now[k]) implies now[k]
                                == c@ || better(value@, c@, now[k]) by {
                                if k < i {
                                    assert(before[k] == now[k]);
                                }
                            }
                        }
                    }
                },
                None => {
                    assert forall|k: int|
                        0 <= k < now.len() && close(value@, #[trigger] now[k]) implies now[k]
                        == candidate@ by {
                        if k < i {
                            assert(all[k] == now[k]);
                        }
                    }
                },
            }
        } else {
            proof {
                if let Some((best, c)) = found {
                    let p = before.index_of(c@);
                    assert(before[p] == c@);
                    assert(now[p] == c@);
                    assert forall|k: int|
                        0 <= k < now.len() && close(value@, #[trigger] now[k]) implies now[k] == c@
                        || better(value@, c@, now[k]) by {
                        if k < i {
                            assert(before[k] == now[k]);
                        }
                    }
                }
            }
        }
        if replace {
            found = Some((d, candidate));
        }
    }
    assert(all.take(all.len() as int) =~= all);
    match found {
        Some((_, c)) => {
            proof {
                let chosen = choose|x: Seq<char>| is_best(value@, all, x);
                lemma_best_unique(value@, all, chosen, c@);
            }
            Some(c)
        },
        None => {
            proof {
                assert forall|x: Seq<char>| !is_best(value@, all, x) by {
                    if is_best(value@, all, x) {
                        let p = all.index_of(x);
                        assert(all[p] == x);
                    }
                }
            }
            None
        },
    }
}

/// The hint that is appended to a message about `value`.
pub fn did_you_mean(value: &str, candidates: &Vec<&str>) -> (r: String)
    ensures
        r@ == hint(value@, candidate_texts(candidates@)),
{
    match suggestion(value, candidates) {
        Some(c) => cat3("; did you mean `", c, "`?"),
        None => String::new(),
    }
}

/// The strings of a list, borrowed as candidates.
pub fn candidates_of<'a>(list: &'a Vec<String>) -> (r: Vec<&'a str>)
    ensures
        candidate_texts(r@) == texts(list@),
{
    let mut out: Vec<&'a str> = Vec::new();
    for i in 0..list.len()
        invariant
            out@.len() == i,
            forall|k: int| 0 <= k < i ==> (#[trigger] out@[k])@ == list@[k]@,
    {
        out.push(list[i].as_str());
    }
    assert(candidate_texts(out@) =~= texts(list@));
    out
}

} // verus!

//! Strings as sequences of characters: concatenation, equality, order and
//! decimal numbers.

use vstd::prelude::*;

verus! {

/// `String::push`: the character is appended to the text.
pub assume_specification[ String::push ](s: &mut String, c: char)
    ensures
        final(s)@ == old(s)@.push(c),
;

/// The texts held by a sequence of strings.
pub open spec fn texts(list: Seq<String>) -> Seq<Seq<char>> {
    Seq::new(list.len(), |i: int| list[i]@)
}

/// The decimal digit `d`.
pub open spec fn digit(d: nat) -> char {
    ('0' as int + d as int) as char
}

/// The decimal notation of `n`, without leading zeros.
pub open spec fn decimal(n: nat) -> Seq<char>
    decreases n,
{
    if n < 10 {
        seq![digit(n)]
    } else {
        decimal(n / 10).push(digit(n % 10))
    }
}

/// The decimal notation of a signed number.
pub open spec fn signed_decimal(n: int) -> Seq<char> {
    if n < 0 {
        seq!['-'] + decimal((-n) as nat)
    } else {
        decimal(n as nat)
    }
}

/// Strict lexicographic order by code point.
pub open spec fn text_less(a: Seq<char>, b: Seq<char>) -> bool
    decreases a.len(),
{
    if b.len() == 0 {
        false
    } else if a.len() == 0 {
        true
    } else if a[0] == b[0] {
        text_less(a.drop_first(), b.drop_first())
    } else {
        (a[0] as int) < (b[0] as int)
    }
}

/// `parts` with `separator` between each two neighbours.
pub open spec fn joined(parts: Seq<Seq<char>>, separator: Seq<char>) -> Seq<char>
    decreases parts.len(),
{
    if parts.len() == 0 {
        Seq::empty()
    } else if parts.len() == 1 {
        parts[0]
    } else {
        joined(parts.drop_last(), separator) + separator + parts.last()
    }
}

/// Whether two texts are equal.
pub fn same(a: &str, b: &str) -> (r: bool)
    ensures
        r == (a@ == b@),
{
    a.to_owned() == b.to_owned()
}

/// Whether one of the strings reads `text`.
pub fn contains_text(list: &Vec<String>, text: &str) -> (r: bool)
    ensures
        r == texts(list@).contains(text@),
{
    for i in 0..list.len()
        invariant
            forall|k: int| 0 <= k < i ==> (#[trigger] list@[k])@ != text@,
    {
        if same(list[i].as_str(), text) {
            assert(texts(list@)[i as int] == text@);
            return true;
        }
    }
    false
}

/// The first text of a list that is not among the known ones.
pub open spec fn first_missing(list: Seq<Seq<char>>, known: Seq<Seq<char>>) -> Option<Seq<char>>
    decreases list.len(),
{
    if list.len() == 0 {
        None
    } else if first_missing(list.drop_last(), known) is Some {
        first_missing(list.drop_last(), known)
    } else if known.contains(list.last()) {
        None
    } else {
        Some(list.last())
    }
}

/// The first text of a list that is among the others.
pub open spec fn first_shared(list: Seq<Seq<char>>, others: Seq<Seq<char>>) -> Option<Seq<char>>
    decreases list.len(),
{
    if list.len() == 0 {
        None
    } else if first_shared(list.drop_last(), others) is Some {
        first_shared(list.drop_last(), others)
    } else if others.contains(list.last()) {
        Some(list.last())
    } else {
        None
    }
}

/// A text that is missing from a part of a list is the first missing one of
/// the whole list.
pub proof fn first_missing_prefix(list: Seq<Seq<char>>, known: Seq<Seq<char>>, k: int)
    requires
        0 <= k <= list.len(),
        first_missing(list.take(k), known) is Some,
    ensures
        first_missing(list, known) == first_missing(list.take(k), known),
    decreases list.len() - k,
{
    if k < list.len() {
        assert(list.take(k + 1).drop_last() =~= list.take(k));
        first_missing_prefix(list, known, k + 1);
    } else {
        assert(list.take(k) =~= list);
    }
}

/// A text shared by a part of a list is the first shared one of the whole
/// list.
pub proof fn first_shared_prefix(list: Seq<Seq<char>>, others: Seq<Seq<char>>, k: int)
    requires
        0 <= k <= list.len(),
        first_shared(list.take(k), others) is Some,
    ensures
        first_shared(list, others) == first_shared(list.take(k), others),
    decreases list.len() - k,
{
    if k < list.len() {
        assert(list.take(k + 1).drop_last() =~= list.take(k));
        first_shared_prefix(list, others, k + 1);
    } else {
        assert(list.take(k) =~= list);
    }
}

/// Nothing is missing exactly if everything is known.
pub proof fn none_missing(list: Seq<Seq<char>>, known: Seq<Seq<char>>)
    ensures
        first_missing(list, known) is None <==> forall|i: int|
            0 <= i < list.len() ==> known.contains(#[trigger] list[i]),
        first_missing(list, known) is Some ==> list.contains(first_missing(list, known)->Some_0)
            && !known.contains(first_missing(list, known)->Some_0),
    decreases list.len(),
{
    if list.len() > 0 {
        let front = list.drop_last();
        none_missing(front, known);
        assert forall|i: int| 0 <= i < front.len() implies front[i] == list[i] by {}
        if first_missing(front, known) is Some {
            let m = first_missing(front, known)->Some_0;
            let p = front.index_of(m);
            assert(front[p] == m && list[p] == m);
        } else {
            assert(list[list.len() - 1] == list.last());
            assert forall|i: int| 0 <= i < list.len() && known.contains(list.last()) implies
                known.contains(#[trigger] list[i]) by {
                if i < front.len() {
                    assert(front[i] == list[i]);
                }
            }
        }
    }
}

/// Nothing is shared exactly if nothing is among the others.
pub proof fn none_shared(list: Seq<Seq<char>>, others: Seq<Seq<char>>)
    ensures
        first_shared(list, others) is None <==> forall|i: int|
            0 <= i < list.len() ==> !others.contains(#[trigger] list[i]),
    decreases list.len(),
{
    if list.len() > 0 {
        let front = list.drop_last();
        none_shared(front, others);
        assert forall|i: int| 0 <= i < front.len() implies front[i] == list[i] by {}
        assert(list[list.len() - 1] == list.last());
        if first_shared(front, others) is None {
            assert forall|i: int| 0 <= i < list.len() && !others.contains(list.last()) implies
                !others.contains(#[trigger] list[i]) by {
                if i < front.len() {
                    assert(front[i] == list[i]);
                }
            }
        } else {
            let i = choose|i: int| 0 <= i < front.len() && others.contains(#[trigger] front[i]);
            assert(others.contains(list[i]));
        }
    }
}

/// The position of the first text of a list that is not among the known ones.
pub fn find_missing(list: &Vec<String>, known: &Vec<String>) -> (r: Option<usize>)
    ensures
        match r {
            Some(i) => i < list@.len() && first_missing(texts(list@), texts(known@)) == Some(
                list@[i as int]@,
            ),
            None => first_missing(texts(list@), texts(known@)) is None,
        },
{
    let ghost all = texts(list@);
    assert(all.take(0) =~= Seq::empty());
    for i in 0..list.len()
        invariant
            all == texts(list@),
            first_missing(all.take(i as int), texts(known@)) is None,
    {
        proof {
            assert(all.take(i + 1).drop_last() =~= all.take(i as int));
            assert(all.take(i + 1).last() == list@[i as int]@);
        }
        if !contains_text(known, list[i].as_str()) {
            proof {
                first_missing_prefix(all, texts(known@), i + 1);
            }
            return Some(i);
        }
    }
    assert(all.take(all.len() as int) =~= all);
    None
}

/// The position of the first text of a list that is among the others.
pub fn find_shared(list: &Vec<String>, others: &Vec<String>) -> (r: Option<usize>)
    ensures
        match r {
            Some(i) => i < list@.len() && first_shared(texts(list@), texts(others@)) == Some(
                list@[i as int]@,
            ),
            None => first_shared(texts(list@), texts(others@)) is None,
        },
{
    let ghost all = texts(list@);
    assert(all.take(0) =~= Seq::empty());
    for i in 0..list.len()
        invariant
            all == texts(list@),
            first_shared(all.take(i as int), texts(others@)) is None,
    {
        proof {
            assert(all.take(i + 1).drop_last() =~= all.take(i as int));
            assert(all.take(i + 1).last() == list@[i as int]@);
        }
        if contains_text(others, list[i].as_str()) {
            proof {
                first_shared_prefix(all, texts(others@), i + 1);
            }
            return Some(i);
        }
    }
    assert(all.take(all.len() as int) =~= all);
    None
}

pub fn cat2(a: &str, b: &str) -> (r: String)
    ensures
        r@ == a@ + b@,
{
    let mut s = a.to_owned();
    s.append(b);
    s
}

pub fn cat3(a: &str, b: &str, c: &str) -> (r: String)
    ensures
        r@ == a@ + b@ + c@,
{
    let mut s = cat2(a, b);
    s.append(c);
    s
}

pub fn cat4(a: &str, b: &str, c: &str, d: &str) -> (r: String)
    ensures
        r@ == a@ + b@ + c@ + d@,
{
    let mut s = cat3(a, b, c);
    s.append(d);
    s
}

pub fn cat5(a: &str, b: &str, c: &str, d: &str, e: &str) -> (r: String)
    ensures
        r@ == a@ + b@ + c@ + d@ + e@,
{
    let mut s = cat4(a, b, c, d);
    s.append(e);
    s
}

pub fn cat6(a: &str, b: &str, c: &str, d: &str, e: &str, f: &str) -> (r: String)
    ensures
        r@ == a@ + b@ + c@ + d@ + e@ + f@,
{
    let mut s = cat5(a, b, c, d, e);
    s.append(f);
    s
}

pub fn cat7(a: &str, b: &str, c: &str, d: &str, e: &str, f: &str, g: &str) -> (r: String)
    ensures
        r@ == a@ + b@ + c@ + d@ + e@ + f@ + g@,
{
    let mut s = cat6(a, b, c, d, e, f);
    s.append(g);
    s
}

/// The characters of a text.
pub fn chars_of(s: &str) -> (v: Vec<char>)
    ensures
        v@ == s@,
{
    let mut v: Vec<char> = Vec::new();
    for c in it: s.chars()
        invariant
            v@ == it.seq().take(it.index()),
            it.seq() == s@,
    {
        v.push(c);
    }
    assert(s@.take(s@.len() as int) =~= s@);
    v
}

/// The text made of the characters `from..to`.
pub fn text_of(chars: &Vec<char>, from: usize, to: usize) -> (s: String)
    requires
        from <= to <= chars@.len(),
    ensures
        s@ == chars@.subrange(from as int, to as int),
{
    let mut s = String::new();
    for i in from..to
        invariant
            to <= chars@.len(),
            s@ == chars@.subrange(from as int, i as int),
    {
        s.push(chars[i]);
    }
    s
}

fn digit_of(d: u64) -> (c: char)
    requires
        d < 10,
    ensures
        c == digit(d as nat),
{
    match d {
        0 => '0',
        1 => '1',
        2 => '2',
        3 => '3',
        4 => '4',
        5 => '5',
        6 => '6',
        7 => '7',
        8 => '8',
        _ => '9',
    }
}

/// The decimal notation of `n`.
pub fn decimal_of(n: u64) -> (s: String)
    ensures
        s@ == decimal(n as nat),
    decreases n,
{
    if n < 10 {
        let mut s = String::new();
        s.push(digit_of(n));
        s
    } else {
        let mut s = decimal_of(n / 10);
        s.push(digit_of(n % 10));
        s
    }
}

/// The decimal notation of a size or an index.
pub fn decimal_of_size(n: usize) -> (s: String)
    ensures
        s@ == decimal(n as nat),
{
    decimal_of(n as u64)
}

/// The decimal notation of a signed number.
pub fn decimal_of_signed(n: i64) -> (s: String)
    ensures
        s@ == signed_decimal(n as int),
{
    if n < 0 {
        let magnitude: u64 = if n == i64::MIN {
            9223372036854775808u64
        } else {
            (-n) as u64
        };
        let digits = decimal_of(magnitude);
        proof {
            reveal_strlit("-");
            assert("-"@ =~= seq!['-']);
        }
        cat2("-", digits.as_str())
    } else {
        decimal_of(n as u64)
    }
}

/// Strict lexicographic order by code point.
pub fn less(a: &str, b: &str) -> (r: bool)
    ensures
        r == text_less(a@, b@),
{
    let x = chars_of(a);
    let y = chars_of(b);
    let mut i: usize = 0;
    assert(x@.skip(0) =~= x@ && y@.skip(0) =~= y@);
    while i < x.len() && i < y.len()
        invariant
            x@ == a@,
            y@ == b@,
            i <= x@.len(),
            i <= y@.len(),
            text_less(a@, b@) == text_less(x@.skip(i as int), y@.skip(i as int)),
        decreases x@.len() - i,
    {
        proof {
            let p = x@.skip(i as int);
            let q = y@.skip(i as int);
            assert(p[0] == x@[i as int] && q[0] == y@[i as int]);
            assert(p.drop_first() =~= x@.skip(i + 1));
            assert(q.drop_first() =~= y@.skip(i + 1));
        }
        if x[i] != y[i] {
            return x[i] < y[i];
        }
        i += 1;
    }
    i < y.len()
}

/// `parts` with `separator` between each two neighbours.
pub fn join(parts: &Vec<String>, separator: &str) -> (r: String)
    ensures
        r@ == joined(texts(parts@), separator@),
{
    let mut s = String::new();
    for i in 0..parts.len()
        invariant
            s@ == joined(texts(parts@.take(i as int)), separator@),
    {
        proof {
            let done = texts(parts@.take(i as int));
            let next = texts(parts@.take(i + 1));
            assert(next.drop_last() =~= done);
            assert(next.last() == parts@[i as int]@);
        }
        if i > 0 {
            s.append(separator);
            s.append(parts[i].as_str());
        } else {
            s.append(parts[i].as_str());
            assert(s@ =~= parts@[0]@);
        }
    }
    assert(parts@.take(parts@.len() as int) =~= parts@);
    s
}

/// A copy of a list of strings.
pub fn clone_texts(list: &Vec<String>) -> (r: Vec<String>)
    ensures
        r@ == list@,
{
    let mut out: Vec<String> = Vec::new();
    for i in 0..list.len()
        invariant
            out@ == list@.take(i as int),
    {
        out.push(list[i].clone());
    }
    assert(list@.take(list@.len() as int) =~= list@);
    out
}

/// No text comes before itself.
pub proof fn text_less_irreflexive(a: Seq<char>)
    ensures
        !text_less(a, a),
    decreases a.len(),
{
    if a.len() > 0 {
        text_less_irreflexive(a.drop_first());
    }
}

/// Of two different texts one comes before the other.
pub proof fn text_less_total(a: Seq<char>, b: Seq<char>)
    ensures
        a == b || text_less(a, b) || text_less(b, a),
    decreases a.len(),
{
    if a.len() == 0 || b.len() == 0 {
        assert(a.len() == b.len() ==> a =~= b);
    } else if a[0] == b[0] {
        text_less_total(a.drop_first(), b.drop_first());
        if a.drop_first() == b.drop_first() {
            assert forall|i: int| 0 <= i < a.len() implies a[i] == b[i] by {
                if i > 0 {
                    assert(a[i] == a.drop_first()[i - 1]);
                    assert(b[i] == b.drop_first()[i - 1]);
                }
            }
            assert(a.len() == a.drop_first().len() + 1);
            assert(b.len() == b.drop_first().len() + 1);
            assert(a =~= b);
        }
    }
}

/// The order of texts is transitive.
pub proof fn text_less_transitive(a: Seq<char>, b: Seq<char>, c: Seq<char>)
    requires
        text_less(a, b),
        text_less(b, c),
    ensures
        text_less(a, c),
    decreases a.len(),
{
    if a.len() > 0 && a[0] == b[0] && b[0] == c[0] {
        text_less_transitive(a.drop_first(), b.drop_first(), c.drop_first());
    }
}

} // verus!

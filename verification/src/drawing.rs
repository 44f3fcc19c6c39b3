//! What a drawing shows: which arrows a reader of the DOT language finds in it.

use crate::config::NodeView;
use crate::dot::{
    all_edge_lines, cluster, clusters, drawing, edge_lines, escaped, executor_kind, executor_text,
    node_line, node_lines, node_text, opening, reading_attributes, reading_lines,
};
use crate::plan::{PlanEdgeView, PlanNodeView, PlanView};
use crate::port::{all_digits, decimal_denotes, is_digit};
use crate::text::{decimal, joined};
use vstd::prelude::*;

verus! {

// --------------------------------------------------------------------- reading

/// A reader of a drawing: what it saw outside of double quotes, and whether it
/// is inside of them or behind a backslash there.
#[verifier::ext_equal]
pub struct Reader {
    pub out: Seq<char>,
    pub quoted: bool,
    pub skips: bool,
}

impl Reader {
    /// After one more character.
    pub open spec fn after(self, c: char) -> Reader {
        if !self.quoted {
            if c == '"' {
                Reader { quoted: true, ..self }
            } else {
                Reader { out: self.out.push(c), ..self }
            }
        } else if self.skips {
            Reader { skips: false, ..self }
        } else if c == '\\' {
            Reader { skips: true, ..self }
        } else if c == '"' {
            Reader { quoted: false, ..self }
        } else {
            self
        }
    }

    /// After a text.
    pub open spec fn read(self, s: Seq<char>) -> Reader
        decreases s.len(),
    {
        if s.len() == 0 {
            self
        } else {
            self.after(s[0]).read(s.skip(1))
        }
    }
}

/// A text without what stands in double quotes.
pub open spec fn bare(s: Seq<char>) -> Seq<char> {
    (Reader { out: Seq::empty(), quoted: false, skips: false }).read(s).out
}

proof fn lemma_read_add(st: Reader, a: Seq<char>, b: Seq<char>)
    ensures
        st.read(a + b) == st.read(a).read(b),
    decreases a.len(),
{
    if a.len() == 0 {
        assert(a + b =~= b);
    } else {
        assert((a + b).skip(1) =~= a.skip(1) + b);
        assert((a + b)[0] == a[0]);
        lemma_read_add(st.after(a[0]), a.skip(1), b);
    }
}

/// Whether a reader that is inside of quotes or not (`from`) is so at the end
/// (`to`), and sees `out` on the way.
spec fn strips(s: Seq<char>, from: bool, to: bool, out: Seq<char>) -> bool {
    forall|seen: Seq<char>|
        (#[trigger] (Reader { out: seen, quoted: from, skips: false }).read(s)) == (Reader {
            out: seen + out,
            quoted: to,
            skips: false,
        })
}

proof fn lemma_strips_add(
    a: Seq<char>,
    b: Seq<char>,
    from: bool,
    mid: bool,
    to: bool,
    x: Seq<char>,
    y: Seq<char>,
)
    requires
        strips(a, from, mid, x),
        strips(b, mid, to, y),
    ensures
        strips(a + b, from, to, x + y),
{
    assert forall|seen: Seq<char>|
        (#[trigger] (Reader { out: seen, quoted: from, skips: false }).read(a + b)) == (Reader {
            out: seen + (x + y),
            quoted: to,
            skips: false,
        }) by {
        let st = Reader { out: seen, quoted: from, skips: false };
        lemma_read_add(st, a, b);
        assert((seen + x) + y =~= seen + (x + y));
        assert((Reader { out: seen + x, quoted: mid, skips: false }).read(b) == (Reader {
            out: (seen + x) + y,
            quoted: to,
            skips: false,
        }));
    }
}

/// A text without double quotes is seen as it is.
proof fn lemma_plain(s: Seq<char>)
    requires
        !s.contains('"'),
    ensures
        strips(s, false, false, s),
    decreases s.len(),
{
    if s.len() == 0 {
        assert forall|seen: Seq<char>|
            (#[trigger] (Reader { out: seen, quoted: false, skips: false }).read(s)) == (Reader {
                out: seen + s,
                quoted: false,
                skips: false,
            }) by {
            assert(seen + s =~= seen);
        }
    } else {
        let rest = s.skip(1);
        assert forall|i: int| 0 <= i < rest.len() implies rest[i] != '"' by {
            assert(s.contains(s[i + 1]));
        }
        lemma_plain(rest);
        assert(s.contains(s[0]));
        assert forall|seen: Seq<char>|
            (#[trigger] (Reader { out: seen, quoted: false, skips: false }).read(s)) == (Reader {
                out: seen + s,
                quoted: false,
                skips: false,
            }) by {
            assert(seen.push(s[0]) + rest =~= seen + s);
            assert((Reader { out: seen.push(s[0]), quoted: false, skips: false }).read(rest) == (
            Reader { out: seen.push(s[0]) + rest, quoted: false, skips: false }));
        }
    }
}

proof fn lemma_step(st: Reader, c: char)
    ensures
        st.read(seq![c]) == st.after(c),
{
    assert(seq![c].skip(1) =~= Seq::empty());
    reveal_with_fuel(Reader::read, 2);
}

/// An escaped text inside quotes leaves nothing behind.
proof fn lemma_escaped(x: Seq<char>)
    ensures
        strips(escaped(x), true, true, Seq::empty()),
    decreases x.len(),
{
    let nothing = Seq::<char>::empty();
    if x.len() == 0 {
        assert forall|seen: Seq<char>|
            (#[trigger] (Reader { out: seen, quoted: true, skips: false }).read(escaped(x))) == (
            Reader { out: seen + nothing, quoted: true, skips: false }) by {
            assert(seen + nothing =~= seen);
        }
    } else {
        let front = escaped(x.drop_last());
        lemma_escaped(x.drop_last());
        let c = x.last();
        let last = if c == '\\' || c == '"' {
            seq!['\\', c]
        } else {
            seq![c]
        };
        assert(escaped(x) =~= front + last);
        assert forall|seen: Seq<char>|
            (#[trigger] (Reader { out: seen, quoted: true, skips: false }).read(last)) == (Reader {
                out: seen + nothing,
                quoted: true,
                skips: false,
            }) by {
            let st = Reader { out: seen, quoted: true, skips: false };
            assert(seen + nothing =~= seen);
            if c == '\\' || c == '"' {
                assert(last =~= seq!['\\'] + seq![c]);
                lemma_read_add(st, seq!['\\'], seq![c]);
                lemma_step(st, '\\');
                lemma_step(st.after('\\'), c);
            } else {
                lemma_step(st, c);
            }
        }
        lemma_strips_add(front, last, true, true, true, nothing, nothing);
        assert(nothing + nothing =~= nothing);
    }
}

/// Whether a reader is inside of quotes behind a text, read from position
/// `i`, if it finds no arrow on the way, and no end of a line where there must
/// be none (`lines` is false).
spec fn scan(s: Seq<char>, i: int, quoted: bool, lines: bool) -> Option<bool>
    decreases s.len() - i,
{
    if i < 0 || i >= s.len() {
        Some(quoted)
    } else if quoted {
        if s[i] == '\\' {
            None
        } else {
            scan(s, i + 1, s[i] != '"', lines)
        }
    } else if s[i] == '>' || (!lines && s[i] == '\n') {
        None
    } else {
        scan(s, i + 1, s[i] == '"', lines)
    }
}

/// Whether what was seen has no arrow, and no end of a line where there must
/// be none.
spec fn quiet(out: Seq<char>, lines: bool) -> bool {
    &&& !out.contains('>')
    &&& !lines ==> !out.contains('\n')
}

/// Whether a text leads from inside or outside of quotes to the other end
/// without an arrow, and without the end of a line if `lines` is false.
spec fn calm(s: Seq<char>, from: bool, to: bool, lines: bool) -> bool {
    exists|out: Seq<char>| #[trigger] strips(s, from, to, out) && quiet(out, lines)
}

proof fn lemma_calm_add(
    a: Seq<char>,
    b: Seq<char>,
    from: bool,
    mid: bool,
    to: bool,
    lines: bool,
)
    requires
        calm(a, from, mid, lines),
        calm(b, mid, to, lines),
    ensures
        calm(a + b, from, to, lines),
{
    let x = choose|out: Seq<char>| #[trigger] strips(a, from, mid, out) && quiet(out, lines);
    let y = choose|out: Seq<char>| #[trigger] strips(b, mid, to, out) && quiet(out, lines);
    lemma_strips_add(a, b, from, mid, to, x, y);
    assert forall|i: int| 0 <= i < (x + y).len() implies (x + y)[i] != '>' && (!lines ==> (x
        + y)[i] != '\n') by {
        if i < x.len() {
            assert(x.contains(x[i]));
        } else {
            assert(y.contains(y[i - x.len()]));
        }
    }
}

proof fn lemma_scan(s: Seq<char>, i: int, from: bool, lines: bool) -> (out: Seq<char>)
    requires
        0 <= i <= s.len(),
        scan(s, i, from, lines) is Some,
    ensures
        strips(s.skip(i), from, scan(s, i, from, lines)->Some_0, out),
        quiet(out, lines),
    decreases s.len() - i,
{
    let text = s.skip(i);
    if i == s.len() {
        let out = Seq::<char>::empty();
        assert forall|seen: Seq<char>|
            (#[trigger] (Reader { out: seen, quoted: from, skips: false }).read(text)) == (Reader {
                out: seen + out,
                quoted: from,
                skips: false,
            }) by {
            assert(seen + out =~= seen);
        }
        out
    } else {
        let next = if from {
            s[i] != '"'
        } else {
            s[i] == '"'
        };
        let rest = lemma_scan(s, i + 1, next, lines);
        let out = if !from && s[i] != '"' {
            seq![s[i]] + rest
        } else {
            rest
        };
        let to = scan(s, i, from, lines)->Some_0;
        assert(text.skip(1) =~= s.skip(i + 1));
        assert(text[0] == s[i]);
        assert forall|seen: Seq<char>|
            (#[trigger] (Reader { out: seen, quoted: from, skips: false }).read(text)) == (Reader {
                out: seen + out,
                quoted: to,
                skips: false,
            }) by {
            let st = (Reader { out: seen, quoted: from, skips: false }).after(s[i]);
            if !from && s[i] != '"' {
                assert(seen.push(s[i]) + rest =~= seen + out);
                assert(st == (Reader { out: seen.push(s[i]), quoted: next, skips: false }));
            } else {
                assert(st == (Reader { out: seen, quoted: next, skips: false }));
            }
            assert(st.read(s.skip(i + 1)) == (Reader {
                out: st.out + rest,
                quoted: to,
                skips: false,
            }));
        }
        assert forall|k: int| 0 <= k < out.len() implies out[k] != '>' && (!lines ==> out[k]
            != '\n') by {
            if !from && s[i] != '"' {
                if k > 0 {
                    assert(rest.contains(rest[k - 1]));
                }
            } else {
                assert(rest.contains(rest[k]));
            }
        }
        out
    }
}

proof fn lemma_literal(s: Seq<char>, from: bool, to: bool, lines: bool)
    requires
        scan(s, 0, from, lines) == Some(to),
    ensures
        calm(s, from, to, lines),
{
    let out = lemma_scan(s, 0, from, lines);
    assert(s.skip(0) =~= s);
    assert(strips(s, from, to, out));
}

proof fn lemma_calm_escaped(x: Seq<char>, lines: bool)
    ensures
        calm(escaped(x), true, true, lines),
{
    lemma_escaped(x);
    assert(strips(escaped(x), true, true, Seq::empty()));
}

proof fn lemma_calm_empty(lines: bool)
    ensures
        calm(Seq::empty(), false, false, lines),
{
    lemma_plain(Seq::empty());
    assert(strips(Seq::empty(), false, false, Seq::empty()));
}

proof fn lemma_calm_decimal(n: nat, from: bool, lines: bool)
    ensures
        calm(decimal(n), from, from, lines),
{
    decimal_denotes(n);
    lemma_calm_digits(decimal(n), 0, from, lines);
    lemma_literal(decimal(n), from, from, lines);
}

proof fn lemma_calm_digits(s: Seq<char>, i: int, from: bool, lines: bool)
    requires
        all_digits(s),
        0 <= i <= s.len(),
    ensures
        scan(s, i, from, lines) == Some(from),
    decreases s.len() - i,
{
    if i < s.len() {
        assert(is_digit(s[i]));
        lemma_calm_digits(s, i + 1, from, lines);
    }
}

// ---------------------------------------------------------------------- arrows

/// The ends that an arrow of a plan can have.
pub enum End {
    Input,
    Output,
    Edge(nat),
    Node(nat),
}

impl End {
    /// What an end is called in a drawing.
    pub open spec fn text(self) -> Seq<char> {
        match self {
            End::Input => "graph_input"@,
            End::Output => "graph_output"@,
            End::Edge(k) => "edge_"@ + decimal(k),
            End::Node(i) => "node_"@ + decimal(i),
        }
    }
}

/// An arrow as it is written at the start of a line.
pub open spec fn arrow(tail: End, head: End) -> Seq<char> {
    "  "@ + tail.text() + " -> "@ + head.text()
}

/// Whether an arrow is written at a place: it starts a line there, and its
/// head ends before a blank or a semicolon.
pub open spec fn arrow_at(t: Seq<char>, i: int, tail: End, head: End) -> bool {
    let a = arrow(tail, head);
    &&& 0 <= i
    &&& i + a.len() < t.len()
    &&& i == 0 || t[i - 1] == '\n'
    &&& t.subrange(i, i + a.len()) == a
    &&& t[i + a.len()] == ' ' || t[i + a.len()] == ';'
}

/// Whether a drawing, read without what it quotes, holds an arrow.
pub open spec fn draws(t: Seq<char>, tail: End, head: End) -> bool {
    exists|i: int| #[trigger] arrow_at(t, i, tail, head)
}

spec fn wordlike(s: Seq<char>) -> bool {
    forall|i: int|
        0 <= i < s.len() ==> (#[trigger] s[i]) != ' ' && s[i] != ';' && s[i] != '\n' && s[i] != '"'
}

proof fn lemma_end_text(x: End)
    ensures
        wordlike(x.text()),
        x.text().len() > 0,
{
    reveal_strlit("graph_input");
    reveal_strlit("graph_output");
    reveal_strlit("edge_");
    reveal_strlit("node_");
    match x {
        End::Edge(k) => {
            decimal_denotes(k);
            assert forall|i: int| 0 <= i < x.text().len() implies (#[trigger] x.text()[i]) != ' '
                && x.text()[i] != ';' && x.text()[i] != '\n' && x.text()[i] != '"' by {
                if i >= 5 {
                    assert(is_digit(decimal(k)[i - 5]));
                }
            }
        },
        End::Node(k) => {
            decimal_denotes(k);
            assert forall|i: int| 0 <= i < x.text().len() implies (#[trigger] x.text()[i]) != ' '
                && x.text()[i] != ';' && x.text()[i] != '\n' && x.text()[i] != '"' by {
                if i >= 5 {
                    assert(is_digit(decimal(k)[i - 5]));
                }
            }
        },
        _ => {},
    }
}

/// Different ends are called differently.
pub proof fn ends_have_names_of_their_own(x: End, y: End)
    ensures
        x.text() == y.text() ==> x == y,
{
    reveal_strlit("graph_input");
    reveal_strlit("graph_output");
    reveal_strlit("edge_");
    reveal_strlit("node_");
    let (a, b) = (x.text(), y.text());
    if a == b {
        assert(a[0] == b[0]);
        match (x, y) {
            (End::Edge(k), End::Edge(m)) => {
                assert(a.skip(5) =~= decimal(k));
                assert(b.skip(5) =~= decimal(m));
                decimal_denotes(k);
                decimal_denotes(m);
            },
            (End::Node(k), End::Node(m)) => {
                assert(a.skip(5) =~= decimal(k));
                assert(b.skip(5) =~= decimal(m));
                decimal_denotes(k);
                decimal_denotes(m);
            },
            _ => {
                assert(a.len() == b.len());
            },
        }
    }
}

proof fn lemma_arrow_text(tail: End, head: End)
    ensures
        ({
            let a = arrow(tail, head);
            &&& a.len() == 2 + tail.text().len() + 4 + head.text().len()
            &&& forall|i: int| 0 <= i < a.len() ==> (#[trigger] a[i]) != '\n' && a[i] != '"'
            &&& a[tail.text().len() as int + 4] == '>'
        }),
{
    reveal_strlit("  ");
    reveal_strlit(" -> ");
    lemma_end_text(tail);
    lemma_end_text(head);
    let a = arrow(tail, head);
    let n = tail.text().len();
    assert forall|i: int| 0 <= i < a.len() implies (#[trigger] a[i]) != '\n' && a[i] != '"' by {
        if 2 <= i < 2 + n {
            assert(a[i] == tail.text()[i - 2]);
        } else if i >= 2 + n + 4 {
            assert(a[i] == head.text()[i - 2 - n - 4]);
        }
    }
}

/// Whether a text consists of whole lines.
spec fn lined(t: Seq<char>) -> bool {
    t.len() == 0 || t.last() == '\n'
}

proof fn lemma_draws_add(t: Seq<char>, u: Seq<char>, tail: End, head: End)
    requires
        lined(t),
    ensures
        draws(t + u, tail, head) <==> draws(t, tail, head) || draws(u, tail, head),
{
    let w = t + u;
    let a = arrow(tail, head);
    lemma_arrow_text(tail, head);
    if draws(t, tail, head) {
        let i = choose|i: int| #[trigger] arrow_at(t, i, tail, head);
        assert(w.subrange(i, i + a.len()) =~= t.subrange(i, i + a.len()));
        assert(arrow_at(w, i, tail, head));
    }
    if draws(u, tail, head) {
        let i = choose|i: int| #[trigger] arrow_at(u, i, tail, head);
        let j = i + t.len();
        assert(w.subrange(j, j + a.len()) =~= u.subrange(i, i + a.len()));
        if i > 0 {
            assert(w[j - 1] == u[i - 1]);
        }
        assert(arrow_at(w, j, tail, head));
    }
    if draws(w, tail, head) {
        let i = choose|i: int| #[trigger] arrow_at(w, i, tail, head);
        if i < t.len() {
            if i + a.len() >= t.len() {
                let k = t.len() - 1 - i;
                assert(w.subrange(i, i + a.len())[k] == w[t.len() - 1]);
                assert(a[k] == '\n');
            }
            assert(t.subrange(i, i + a.len()) =~= w.subrange(i, i + a.len()));
            assert(arrow_at(t, i, tail, head));
        } else {
            let j = i - t.len();
            assert(u.subrange(j, j + a.len()) =~= w.subrange(i, i + a.len()));
            if j > 0 {
                assert(u[j - 1] == w[i - 1]);
            }
            assert(arrow_at(u, j, tail, head));
        }
    }
}

proof fn lemma_quiet_draws_nothing(t: Seq<char>, tail: End, head: End)
    requires
        !t.contains('>'),
    ensures
        !draws(t, tail, head),
{
    lemma_arrow_text(tail, head);
    if draws(t, tail, head) {
        let i = choose|i: int| #[trigger] arrow_at(t, i, tail, head);
        let a = arrow(tail, head);
        let k = tail.text().len() as int + 4;
        assert(t.subrange(i, i + a.len())[k] == t[i + k]);
        assert(t.contains(t[i + k]));
    }
}

/// Two words before blanks or semicolons are the same word.
proof fn lemma_split(a: Seq<char>, r: Seq<char>, b: Seq<char>, s: Seq<char>)
    requires
        a + r == b + s,
        wordlike(a),
        wordlike(b),
        r.len() > 0 && (r[0] == ' ' || r[0] == ';'),
        s.len() > 0 && (s[0] == ' ' || s[0] == ';'),
    ensures
        a == b,
        r == s,
{
    let w = a + r;
    if a.len() < b.len() {
        assert(w[a.len() as int] == r[0]);
        assert((b + s)[a.len() as int] == b[a.len() as int]);
    } else if b.len() < a.len() {
        assert((b + s)[b.len() as int] == s[0]);
        assert(w[b.len() as int] == a[b.len() as int]);
    }
    assert(a =~= w.take(a.len() as int));
    assert(b =~= (b + s).take(a.len() as int));
    assert(r =~= w.skip(a.len() as int));
    assert(s =~= (b + s).skip(a.len() as int));
}

/// Two arrows that are written alike have the same ends.
proof fn lemma_same_arrow(x: End, y: End, r: Seq<char>, tail: End, head: End, s: Seq<char>)
    requires
        arrow(x, y) + r == arrow(tail, head) + s,
        r.len() > 0 && (r[0] == ' ' || r[0] == ';'),
        s.len() > 0 && (s[0] == ' ' || s[0] == ';'),
    ensures
        x == tail,
        y == head,
{
    let t = arrow(x, y) + r;
    let blank = "  "@;
    let line = " -> "@;
    assert(blank.len() == 2) by {
        reveal_strlit("  ");
    }
    assert(line.len() == 4 && line[0] == ' ') by {
        reveal_strlit(" -> ");
    }
    lemma_end_text(x);
    lemma_end_text(y);
    lemma_end_text(tail);
    lemma_end_text(head);
    let r1 = line + y.text() + r;
    let s1 = line + head.text() + s;
    assert(t =~= blank + (x.text() + r1));
    assert(arrow(tail, head) + s =~= blank + (tail.text() + s1));
    assert(t.skip(2) =~= x.text() + r1);
    assert((blank + (tail.text() + s1)).skip(2) =~= tail.text() + s1);
    lemma_split(x.text(), r1, tail.text(), s1);
    assert(r1.skip(4) =~= y.text() + r);
    assert(s1.skip(4) =~= head.text() + s);
    lemma_split(y.text(), r, head.text(), s);
    ends_have_names_of_their_own(x, tail);
    ends_have_names_of_their_own(y, head);
}

/// A line that starts with an arrow draws it and no other.
proof fn lemma_line(x: End, y: End, r: Seq<char>, tail: End, head: End)
    requires
        r.len() > 0,
        r[0] == ' ' || r[0] == ';',
        forall|i: int| 0 <= i < r.len() - 1 ==> (#[trigger] r[i]) != '\n',
    ensures
        draws(arrow(x, y) + r, tail, head) <==> tail == x && head == y,
{
    let a = arrow(x, y);
    let t = a + r;
    lemma_arrow_text(x, y);
    assert(t.subrange(0, a.len() as int) =~= a);
    assert(arrow_at(t, 0, x, y));
    if draws(t, tail, head) {
        let i = choose|i: int| #[trigger] arrow_at(t, i, tail, head);
        let b = arrow(tail, head);
        lemma_arrow_text(tail, head);
        if i > 0 {
            if i - 1 < a.len() {
                assert(t[i - 1] == a[i - 1]);
            } else {
                assert(t[i - 1] == r[i - 1 - a.len()]);
            }
        }
        assert(i == 0);
        let s = t.skip(b.len() as int);
        assert(t.subrange(0, b.len() as int) == b);
        assert(t =~= b + s);
        assert(s[0] == t[b.len() as int]);
        lemma_same_arrow(x, y, r, tail, head, s);
    }
}

/// Whether a text, in a drawing, draws exactly a set of arrows.
spec fn shows(s: Seq<char>, arrows: Set<(End, End)>) -> bool {
    exists|t: Seq<char>| #[trigger]
        strips(s, false, false, t) && lined(t) && forall|x: End, y: End| #[trigger]
            draws(t, x, y) <==> arrows.contains((x, y))
}

proof fn lemma_shows_add(a: Seq<char>, b: Seq<char>, p: Set<(End, End)>, q: Set<(End, End)>)
    requires
        shows(a, p),
        shows(b, q),
    ensures
        shows(a + b, p.union(q)),
{
    let t = choose|t: Seq<char>| #[trigger]
        strips(a, false, false, t) && lined(t) && forall|x: End, y: End| #[trigger]
            draws(t, x, y) <==> p.contains((x, y));
    let u = choose|t: Seq<char>| #[trigger]
        strips(b, false, false, t) && lined(t) && forall|x: End, y: End| #[trigger]
            draws(t, x, y) <==> q.contains((x, y));
    lemma_strips_add(a, b, false, false, false, t, u);
    assert(lined(t + u));
    assert forall|x: End, y: End| #[trigger] draws(t + u, x, y) <==> p.union(q).contains(
        (x, y),
    ) by {
        lemma_draws_add(t, u, x, y);
        assert(draws(t, x, y) <==> p.contains((x, y)));
        assert(draws(u, x, y) <==> q.contains((x, y)));
    }
}

/// A text of whole lines without an arrow shows none.
proof fn lemma_shows_nothing(s: Seq<char>)
    requires
        calm(s, false, false, true),
        lined(s),
    ensures
        shows(s, Set::empty()),
{
    let out = choose|out: Seq<char>| #[trigger]
        strips(s, false, false, out) && quiet(out, true);
    let start = Reader { out: Seq::empty(), quoted: false, skips: false };
    assert(start.out + out =~= out);
    assert(start.read(s) == (Reader { out: start.out + out, quoted: false, skips: false }));
    if s.len() == 0 {
        assert(out =~= Seq::empty());
    } else {
        let front = s.drop_last();
        assert(s =~= front + seq!['\n']);
        lemma_read_add(start, front, seq!['\n']);
        lemma_step(start.read(front), '\n');
        assert(out.last() == '\n');
    }
    assert forall|x: End, y: End| #[trigger] draws(out, x, y) <==> Set::empty().contains(
        (x, y),
    ) by {
        lemma_quiet_draws_nothing(out, x, y);
    }
}

/// The line of an arrow, with whatever attributes behind it.
proof fn lemma_shows_arrow(x: End, y: End, rest: Seq<char>)
    requires
        calm(rest, false, false, false),
        rest.len() > 0,
        rest[0] == ' ' || rest[0] == ';',
    ensures
        shows(arrow(x, y) + rest + seq!['\n'], set![(x, y)]),
{
    let a = arrow(x, y);
    lemma_arrow_text(x, y);
    lemma_plain(a);
    let out = choose|out: Seq<char>| #[trigger]
        strips(rest, false, false, out) && quiet(out, false);
    let start = Reader { out: Seq::empty(), quoted: false, skips: false };
    assert(start.out + out =~= out);
    assert(start.read(rest) == (Reader { out: start.out + out, quoted: false, skips: false }));
    let mid = start.after(rest[0]);
    lemma_read_keeps(mid, rest.skip(1));
    assert(mid.out.len() == 1 && mid.out[0] == rest[0]);
    assert(out.take(1)[0] == out[0]);
    lemma_strips_add(a, rest, false, false, false, a, out);
    let nl = seq!['\n'];
    assert forall|i: int| 0 <= i < nl.len() implies nl[i] != '"' by {}
    lemma_plain(nl);
    lemma_strips_add(a + rest, nl, false, false, false, a + out, nl);
    let r = out + nl;
    assert((a + out) + nl =~= a + r);
    assert forall|i: int| 0 <= i < r.len() - 1 implies (#[trigger] r[i]) != '\n' by {
        assert(out.contains(out[i]));
    }
    assert forall|u: End, v: End| #[trigger] draws(a + r, u, v) <==> set![(x, y)].contains(
        (u, v),
    ) by {
        lemma_line(x, y, r, u, v);
    }
}

/// What was seen stays seen.
proof fn lemma_read_keeps(st: Reader, s: Seq<char>)
    ensures
        st.read(s).out.len() >= st.out.len(),
        st.read(s).out.take(st.out.len() as int) == st.out,
    decreases s.len(),
{
    if s.len() > 0 {
        let next = st.after(s[0]);
        lemma_read_keeps(next, s.skip(1));
        let all = st.read(s).out;
        assert(all.take(st.out.len() as int) =~= all.take(next.out.len() as int).take(
            st.out.len() as int,
        ));
        assert(next.out.take(st.out.len() as int) =~= st.out);
    } else {
        assert(st.out.take(st.out.len() as int) =~= st.out);
    }
}


// ---------------------------------------------------------------- whole drawing

proof fn lemma_calm_opening()
    ensures
        calm(
            opening("lmflow_plan"@, Some("lmflow configuration plan"@)),
            false,
            false,
            true,
        ),
{
    let name = "lmflow_plan"@;
    let label = escaped("lmflow configuration plan"@);
    let a = "digraph "@;
    let b = " {\n  rankdir=LR;\n  newrank=true;\n  graph [fontname=\"sans\", nodesep=0.35, ranksep=0.65"@;
    let c = ", labelloc=t, label=\""@;
    let d = "\""@;
    let e = "];\n  node [fontname=\"sans\", shape=box, style=\"rounded,filled\", fillcolor=white, ordering=out];\n  edge [fontname=\"sans\", fontsize=10];\n"@;
    assert(scan(a, 0, false, true) == Some(false)) by {
        reveal_strlit("digraph ");
        reveal_with_fuel(scan, 10);
    }
    lemma_literal(a, false, false, true);
    assert(scan(name, 0, false, true) == Some(false)) by {
        reveal_strlit("lmflow_plan");
        reveal_with_fuel(scan, 13);
    }
    lemma_literal(name, false, false, true);
    lemma_opening_middle();
    assert(scan(c, 0, false, true) == Some(true)) by {
        reveal_strlit(", labelloc=t, label=\"");
        reveal_with_fuel(scan, 24);
    }
    lemma_literal(c, false, true, true);
    lemma_calm_escaped("lmflow configuration plan"@, true);
    assert(scan(d, 0, true, true) == Some(false)) by {
        reveal_strlit("\"");
        reveal_with_fuel(scan, 3);
    }
    lemma_literal(d, true, false, true);
    lemma_opening_end();
    lemma_calm_add(c, label, false, true, true, true);
    lemma_calm_add(c + label, d, false, true, false, true);
    lemma_calm_add(a, name, false, false, false, true);
    lemma_calm_add(a + name, b, false, false, false, true);
    lemma_calm_add(a + name + b, c + label + d, false, false, false, true);
    lemma_calm_add(a + name + b + (c + label + d), e, false, false, false, true);
}

#[verifier::rlimit(60)]
proof fn lemma_opening_middle()
    ensures
        calm(
            " {\n  rankdir=LR;\n  newrank=true;\n  graph [fontname=\"sans\", nodesep=0.35, ranksep=0.65"@,
            false,
            false,
            true,
        ),
{
    let b = " {\n  rankdir=LR;\n  newrank=true;\n  graph [fontname=\"sans\", nodesep=0.35, ranksep=0.65"@;
    assert(scan(b, 0, false, true) == Some(false)) by {
        reveal_strlit(
            " {\n  rankdir=LR;\n  newrank=true;\n  graph [fontname=\"sans\", nodesep=0.35, ranksep=0.65",
        );
        reveal_with_fuel(scan, 90);
    }
    lemma_literal(b, false, false, true);
}

#[verifier::rlimit(60)]
proof fn lemma_opening_end()
    ensures
        calm(
            "];\n  node [fontname=\"sans\", shape=box, style=\"rounded,filled\", fillcolor=white, ordering=out];\n  edge [fontname=\"sans\", fontsize=10];\n"@,
            false,
            false,
            true,
        ),
{
    let e = "];\n  node [fontname=\"sans\", shape=box, style=\"rounded,filled\", fillcolor=white, ordering=out];\n  edge [fontname=\"sans\", fontsize=10];\n"@;
    assert(scan(e, 0, false, true) == Some(false)) by {
        reveal_strlit(
            "];\n  node [fontname=\"sans\", shape=box, style=\"rounded,filled\", fillcolor=white, ordering=out];\n  edge [fontname=\"sans\", fontsize=10];\n",
        );
        reveal_with_fuel(scan, 50);
        assert(scan(e, 90, false, true) == Some(false));
        assert(scan(e, 45, false, true) == Some(false));
    }
    lemma_literal(e, false, false, true);
}

#[verifier::rlimit(60)]
proof fn lemma_calm_input_line()
    ensures
        calm(
            "  graph_input [shape=cds, style=filled, fillcolor=\"#e8e8e8\", color=\"#777777\", label=\"graph input\"];\n"@,
            false,
            false,
            true,
        ),
{
    let s = "  graph_input [shape=cds, style=filled, fillcolor=\"#e8e8e8\", color=\"#777777\", label=\"graph input\"];\n"@;
    assert(scan(s, 0, false, true) == Some(false)) by {
        reveal_strlit(
            "  graph_input [shape=cds, style=filled, fillcolor=\"#e8e8e8\", color=\"#777777\", label=\"graph input\"];\n",
        );
        reveal_with_fuel(scan, 55);
        assert(scan(s, 70, true, true) == Some(false));
        assert(scan(s, 40, false, true) == Some(false));
    }
    lemma_literal(s, false, false, true);
}

#[verifier::rlimit(60)]
proof fn lemma_calm_output_line()
    ensures
        calm(
            "  graph_output [shape=cds, style=filled, fillcolor=\"#e8e8e8\", color=\"#777777\", label=\"graph output\"];\n"@,
            false,
            false,
            true,
        ),
{
    let s = "  graph_output [shape=cds, style=filled, fillcolor=\"#e8e8e8\", color=\"#777777\", label=\"graph output\"];\n"@;
    assert(scan(s, 0, false, true) == Some(false)) by {
        reveal_strlit(
            "  graph_output [shape=cds, style=filled, fillcolor=\"#e8e8e8\", color=\"#777777\", label=\"graph output\"];\n",
        );
        reveal_with_fuel(scan, 55);
        assert(scan(s, 50, false, true) == Some(false));
    }
    lemma_literal(s, false, false, true);
}

proof fn lemma_calm_node_line(n: PlanNodeView)
    ensures
        calm(node_line(n), false, false, true),
{
    let text = escaped(node_text(n));
    let a = "    node_"@;
    let b = decimal(n.index as nat);
    let c = " [label=\""@;
    let d = "\"];\n"@;
    assert(scan(a, 0, false, true) == Some(false)) by {
        reveal_strlit("    node_");
        reveal_with_fuel(scan, 12);
    }
    lemma_literal(a, false, false, true);
    lemma_calm_decimal(n.index as nat, false, true);
    assert(scan(c, 0, false, true) == Some(true)) by {
        reveal_strlit(" [label=\"");
        reveal_with_fuel(scan, 12);
    }
    lemma_literal(c, false, true, true);
    lemma_calm_escaped(node_text(n), true);
    assert(scan(d, 0, true, true) == Some(false)) by {
        reveal_strlit("\"];\n");
        reveal_with_fuel(scan, 6);
    }
    lemma_literal(d, true, false, true);
    lemma_calm_add(a, b, false, false, false, true);
    lemma_calm_add(a + b, c, false, false, true, true);
    lemma_calm_add(a + b + c, text, false, true, true, true);
    lemma_calm_add(a + b + c + text, d, false, true, false, true);
}

proof fn lemma_calm_node_lines(p: PlanView, executor: Seq<char>, k: nat)
    ensures
        calm(node_lines(p, executor, k), false, false, true),
    decreases k,
{
    if k == 0 {
        lemma_calm_empty(true);
    } else {
        lemma_calm_node_lines(p, executor, (k - 1) as nat);
        lemma_calm_node_line(p.nodes[k - 1]);
        lemma_calm_add(
            node_lines(p, executor, (k - 1) as nat),
            node_line(p.nodes[k - 1]),
            false,
            false,
            false,
            true,
        );
    }
}

proof fn lemma_calm_cluster(
    p: PlanView,
    index: nat,
    name: Seq<char>,
    kind: Seq<char>,
    threads: nat,
)
    ensures
        calm(cluster(p, index, name, kind, threads), false, false, true),
        lined(cluster(p, index, name, kind, threads)),
{
    let a = "  subgraph cluster_executor_"@;
    let b = decimal(index);
    let c = " {\n    label=\""@;
    let shown = executor_text(name, kind, threads);
    let d = "\";\n    color=\"#888888\";\n"@;
    let e = node_lines(p, name, p.nodes.len());
    let f = "  }\n"@;
    assert(scan(a, 0, false, true) == Some(false)) by {
        reveal_strlit("  subgraph cluster_executor_");
        reveal_with_fuel(scan, 32);
    }
    lemma_literal(a, false, false, true);
    lemma_calm_decimal(index, false, true);
    assert(scan(c, 0, false, true) == Some(true)) by {
        reveal_strlit(" {\n    label=\"");
        reveal_with_fuel(scan, 18);
    }
    lemma_literal(c, false, true, true);
    lemma_calm_escaped(shown, true);
    assert(scan(d, 0, true, true) == Some(false)) by {
        reveal_strlit("\";\n    color=\"#888888\";\n");
        reveal_with_fuel(scan, 28);
    }
    lemma_literal(d, true, false, true);
    lemma_calm_node_lines(p, name, p.nodes.len());
    assert(scan(f, 0, false, true) == Some(false)) by {
        reveal_strlit("  }\n");
        reveal_with_fuel(scan, 6);
    }
    lemma_literal(f, false, false, true);
    lemma_calm_add(a, b, false, false, false, true);
    lemma_calm_add(a + b, c, false, false, true, true);
    lemma_calm_add(a + b + c, escaped(shown), false, true, true, true);
    lemma_calm_add(a + b + c + escaped(shown), d, false, true, false, true);
    lemma_calm_add(a + b + c + escaped(shown) + d, e, false, false, false, true);
    lemma_calm_add(a + b + c + escaped(shown) + d + e, f, false, false, false, true);
    reveal_strlit("  }\n");
    assert(cluster(p, index, name, kind, threads).last() == f.last());
}

proof fn lemma_calm_clusters(p: PlanView, k: nat)
    ensures
        calm(clusters(p, k), false, false, true),
        lined(clusters(p, k)),
        clusters(p, k).len() > 0,
    decreases k,
{
    reveal_strlit("  }\n");
    if k == 0 {
        lemma_calm_cluster(p, 0, "default"@, "ThreadPoolExecutor"@, 0);
    } else {
        let e = p.config.executors[k - 1];
        lemma_calm_clusters(p, (k - 1) as nat);
        let box_text = cluster(p, k, e.name, executor_kind(e), e.num_threads as nat);
        lemma_calm_cluster(p, k, e.name, executor_kind(e), e.num_threads as nat);
        lemma_calm_add(clusters(p, (k - 1) as nat), box_text, false, false, false, true);
        assert(box_text.len() > 0);
        assert(clusters(p, k).last() == box_text.last());
    }
}

proof fn lemma_calm_quoted(front: Seq<char>, x: Seq<char>)
    requires
        calm(front, false, true, false),
    ensures
        calm(front + escaped(x) + "\""@, false, false, false),
{
    let d = "\""@;
    assert(scan(d, 0, true, false) == Some(false)) by {
        reveal_strlit("\"");
        reveal_with_fuel(scan, 3);
    }
    lemma_literal(d, true, false, false);
    lemma_calm_escaped(x, false);
    lemma_calm_add(front, escaped(x), false, true, true, false);
    lemma_calm_add(front + escaped(x), d, false, true, false, false);
}

proof fn lemma_calm_feedback()
    ensures
        calm("style=dashed"@, false, false, false),
        calm("color=\"#7b61a8\""@, false, false, false),
        calm("fontcolor=\"#7b61a8\""@, false, false, false),
        calm("constraint=false"@, false, false, false),
        calm("tooltip=\"back-edge latest-value register\""@, false, false, false),
{
    assert(scan("style=dashed"@, 0, false, false) == Some(false)) by {
        reveal_strlit("style=dashed");
        reveal_with_fuel(scan, 16);
    }
    lemma_literal("style=dashed"@, false, false, false);
    assert(scan("color=\"#7b61a8\""@, 0, false, false) == Some(false)) by {
        reveal_strlit("color=\"#7b61a8\"");
        reveal_with_fuel(scan, 18);
    }
    lemma_literal("color=\"#7b61a8\""@, false, false, false);
    assert(scan("fontcolor=\"#7b61a8\""@, 0, false, false) == Some(false)) by {
        reveal_strlit("fontcolor=\"#7b61a8\"");
        reveal_with_fuel(scan, 22);
    }
    lemma_literal("fontcolor=\"#7b61a8\""@, false, false, false);
    assert(scan("constraint=false"@, 0, false, false) == Some(false)) by {
        reveal_strlit("constraint=false");
        reveal_with_fuel(scan, 18);
    }
    lemma_literal("constraint=false"@, false, false, false);
    assert(scan("tooltip=\"back-edge latest-value register\""@, 0, false, false) == Some(
        false,
    )) by {
        reveal_strlit("tooltip=\"back-edge latest-value register\"");
        reveal_with_fuel(scan, 48);
    }
    lemma_literal("tooltip=\"back-edge latest-value register\""@, false, false, false);
}

proof fn lemma_calm_attributes(e: PlanEdgeView, n: NodeView)
    ensures
        forall|i: int|
            0 <= i < reading_attributes(e, n).len() ==> calm(
                #[trigger] reading_attributes(e, n)[i],
                false,
                false,
                false,
            ),
{
    let label = "label=\""@;
    assert(scan(label, 0, false, false) == Some(true)) by {
        reveal_strlit("label=\"");
        reveal_with_fuel(scan, 10);
    }
    lemma_literal(label, false, true, false);
    lemma_calm_quoted(label, e.name);
    let capacity = n.capacity(e.name) as nat;
    let a = "xlabel=\"queue "@;
    let b = " packets\""@;
    assert(scan(a, 0, false, false) == Some(true)) by {
        reveal_strlit("xlabel=\"queue ");
        reveal_with_fuel(scan, 18);
    }
    lemma_literal(a, false, true, false);
    lemma_calm_decimal(capacity, true, false);
    assert(scan(b, 0, true, false) == Some(false)) by {
        reveal_strlit(" packets\"");
        reveal_with_fuel(scan, 12);
    }
    lemma_literal(b, true, false, false);
    lemma_calm_add(a, decimal(capacity), false, true, true, false);
    lemma_calm_add(a + decimal(capacity), b, false, true, false, false);
    lemma_calm_feedback();
}

proof fn lemma_calm_joined(parts: Seq<Seq<char>>)
    requires
        forall|i: int| 0 <= i < parts.len() ==> calm(#[trigger] parts[i], false, false, false),
    ensures
        calm(joined(parts, ", "@), false, false, false),
    decreases parts.len(),
{
    if parts.len() == 0 {
        lemma_calm_empty(false);
    } else if parts.len() > 1 {
        let front = parts.drop_last();
        assert forall|i: int| 0 <= i < front.len() implies calm(
            #[trigger] front[i],
            false,
            false,
            false,
        ) by {
            assert(front[i] == parts[i]);
        }
        lemma_calm_joined(front);
        assert(scan(", "@, 0, false, false) == Some(false)) by {
            reveal_strlit(", ");
            reveal_with_fuel(scan, 4);
        }
        lemma_literal(", "@, false, false, false);
        lemma_calm_add(joined(front, ", "@), ", "@, false, false, false, false);
        assert(parts.last() == parts[parts.len() - 1]);
        lemma_calm_add(joined(front, ", "@) + ", "@, parts.last(), false, false, false, false);
    } else {
        assert(calm(parts[0], false, false, false));
    }
}

/// The arrows from edge `k` to the first `c` nodes that read it.
spec fn readings(k: nat, e: PlanEdgeView, c: nat) -> Set<(End, End)>
    decreases c,
{
    if c == 0 {
        Set::empty()
    } else {
        readings(k, e, (c - 1) as nat).union(
            set![(End::Edge(k), End::Node(e.consumers[c - 1] as nat))],
        )
    }
}

/// The line of a reading, in pieces.
proof fn lemma_reading_line(before: Seq<char>, id: Seq<char>, n: Seq<char>, attributes: Seq<char>)
    ensures
        before + "  "@ + id + " -> node_"@ + n + " ["@ + attributes + "];\n"@ == before + ("  "@ + id
            + " -> "@ + ("node_"@ + n) + (" ["@ + attributes + "];"@) + seq!['\n']),
{
    let (a, b, c, d) = ("  "@, " -> "@, "node_"@, " ["@);
    let e = "];"@;
    let nl = seq!['\n'];
    assert("];\n"@ =~= e + nl) by {
        reveal_strlit("];\n");
        reveal_strlit("];");
    }
    assert(" -> node_"@ =~= b + c) by {
        reveal_strlit(" -> node_");
        reveal_strlit(" -> ");
        reveal_strlit("node_");
    }
    let one = a + id + b;
    assert(before + a + id =~= before + (a + id));
    assert(before + (a + id) + (b + c) =~= before + one + c);
    assert(before + one + c + n =~= before + (one + (c + n)));
    let two = one + (c + n);
    assert(before + two + d + attributes =~= before + two + (d + attributes));
    assert(before + two + (d + attributes) + (e + nl) =~= before + (two + (d + attributes + e)
        + nl));
}

proof fn lemma_shows_readings(p: PlanView, k: nat, e: PlanEdgeView, c: nat)
    requires
        c <= e.consumers.len(),
    ensures
        shows(reading_lines(p, "edge_"@ + decimal(k), e, c), readings(k, e, c)),
    decreases c,
{
    let id = "edge_"@ + decimal(k);
    if c == 0 {
        lemma_calm_empty(true);
        lemma_shows_nothing(Seq::empty());
    } else {
        lemma_shows_readings(p, k, e, (c - 1) as nat);
        let consumer = e.consumers[c - 1];
        let (x, y) = (End::Edge(k), End::Node(consumer as nat));
        let list = reading_attributes(e, p.config.nodes[consumer as int]);
        let attributes = joined(list, ", "@);
        lemma_calm_attributes(e, p.config.nodes[consumer as int]);
        lemma_calm_joined(list);
        let (a, b) = (" ["@, "];"@);
        assert(scan(a, 0, false, false) == Some(false)) by {
            reveal_strlit(" [");
            reveal_with_fuel(scan, 4);
        }
        lemma_literal(a, false, false, false);
        assert(scan(b, 0, false, false) == Some(false)) by {
            reveal_strlit("];");
            reveal_with_fuel(scan, 4);
        }
        lemma_literal(b, false, false, false);
        lemma_calm_add(a, attributes, false, false, false, false);
        lemma_calm_add(a + attributes, b, false, false, false, false);
        let rest = a + attributes + b;
        reveal_strlit(" [");
        assert(rest[0] == a[0]);
        lemma_shows_arrow(x, y, rest);
        let before = reading_lines(p, id, e, (c - 1) as nat);
        let line = arrow(x, y) + rest + seq!['\n'];
        lemma_shows_add(before, line, readings(k, e, (c - 1) as nat), set![(x, y)]);
        lemma_reading_line(before, id, decimal(consumer as nat), attributes);
    }
}

/// The arrows at edge `k`.
spec fn edge_arrows(p: PlanView, k: nat) -> Set<(End, End)> {
    let e = p.edges[k as int];
    let source = if e.graph_input {
        set![(End::Input, End::Edge(k))]
    } else {
        Set::empty()
    };
    let producer = match e.producer {
        Some(i) => set![(End::Node(i as nat), End::Edge(k))],
        None => Set::empty(),
    };
    let sink = if e.graph_output {
        set![(End::Edge(k), End::Output)]
    } else {
        Set::empty()
    };
    Set::empty().union(source).union(producer).union(readings(k, e, e.consumers.len())).union(sink)
}

proof fn lemma_labelled(name: Seq<char>) -> (rest: Seq<char>)
    ensures
        rest + seq!['\n'] == " [label=\""@ + escaped(name) + "\"];\n"@,
        calm(rest, false, false, false),
        rest.len() > 0,
        rest[0] == ' ',
{
    let a = " [label=\""@;
    assert(scan(a, 0, false, false) == Some(true)) by {
        reveal_strlit(" [label=\"");
        reveal_with_fuel(scan, 12);
    }
    lemma_literal(a, false, true, false);
    lemma_calm_quoted(a, name);
    let b = "];"@;
    assert(scan(b, 0, false, false) == Some(false)) by {
        reveal_strlit("];");
        reveal_with_fuel(scan, 4);
    }
    lemma_literal(b, false, false, false);
    let rest = a + escaped(name) + "\""@ + b;
    lemma_calm_add(a + escaped(name) + "\""@, b, false, false, false, false);
    assert("\"];\n"@ =~= "\""@ + b + seq!['\n']) by {
        reveal_strlit("\"];\n");
        reveal_strlit("];");
        reveal_strlit("\"");
    }
    assert(rest + seq!['\n'] =~= a + escaped(name) + "\"];\n"@);
    reveal_strlit(" [label=\"");
    assert(rest[0] == a[0]);
    rest
}

proof fn lemma_shows_point(k: nat)
    ensures
        shows(
            "  "@ + ("edge_"@ + decimal(k)) + " [shape=point, width=0.08, label=\"\"];\n"@,
            Set::empty(),
        ),
{
    let a = "  "@;
    let b = "edge_"@;
    let c = decimal(k);
    let d = " [shape=point, width=0.08, label=\"\"];\n"@;
    assert(scan(a, 0, false, true) == Some(false)) by {
        reveal_strlit("  ");
        reveal_with_fuel(scan, 4);
    }
    lemma_literal(a, false, false, true);
    assert(scan(b, 0, false, true) == Some(false)) by {
        reveal_strlit("edge_");
        reveal_with_fuel(scan, 7);
    }
    lemma_literal(b, false, false, true);
    lemma_calm_decimal(k, false, true);
    assert(scan(d, 0, false, true) == Some(false)) by {
        reveal_strlit(" [shape=point, width=0.08, label=\"\"];\n");
        reveal_with_fuel(scan, 42);
    }
    lemma_literal(d, false, false, true);
    lemma_calm_add(b, c, false, false, false, true);
    lemma_calm_add(a, b + c, false, false, false, true);
    lemma_calm_add(a + (b + c), d, false, false, false, true);
    reveal_strlit(" [shape=point, width=0.08, label=\"\"];\n");
    assert((a + (b + c) + d).last() == d.last());
    lemma_shows_nothing(a + (b + c) + d);
}

proof fn lemma_shows_source(p: PlanView, k: nat) -> (arrows: Set<(End, End)>)
    ensures
        arrows == if p.edges[k as int].graph_input {
            set![(End::Input, End::Edge(k))]
        } else {
            Set::empty()
        },
        shows(
            if p.edges[k as int].graph_input {
                "  graph_input -> "@ + ("edge_"@ + decimal(k)) + " [label=\""@ + escaped(
                    p.edges[k as int].name,
                ) + "\"];\n"@
            } else {
                Seq::empty()
            },
            arrows,
        ),
{
    let e = p.edges[k as int];
    if e.graph_input {
        let (x, y) = (End::Input, End::Edge(k));
        let rest = lemma_labelled(e.name);
        lemma_shows_arrow(x, y, rest);
        assert("  graph_input -> "@ =~= "  "@ + "graph_input"@ + " -> "@) by {
            reveal_strlit("  graph_input -> ");
            reveal_strlit("  ");
            reveal_strlit("graph_input");
            reveal_strlit(" -> ");
        }
        let line = "  graph_input -> "@ + ("edge_"@ + decimal(k)) + " [label=\""@ + escaped(e.name)
            + "\"];\n"@;
        assert(line =~= "  graph_input -> "@ + ("edge_"@ + decimal(k)) + (" [label=\""@ + escaped(
            e.name,
        ) + "\"];\n"@));
        assert(line =~= arrow(x, y) + rest + seq!['\n']);
        set![(x, y)]
    } else {
        lemma_calm_empty(true);
        lemma_shows_nothing(Seq::empty());
        Set::empty()
    }
}

proof fn lemma_shows_sink(p: PlanView, k: nat) -> (arrows: Set<(End, End)>)
    ensures
        arrows == if p.edges[k as int].graph_output {
            set![(End::Edge(k), End::Output)]
        } else {
            Set::empty()
        },
        shows(
            if p.edges[k as int].graph_output {
                "  "@ + ("edge_"@ + decimal(k)) + " -> graph_output [label=\""@ + escaped(
                    p.edges[k as int].name,
                ) + "\"];\n"@
            } else {
                Seq::empty()
            },
            arrows,
        ),
{
    let e = p.edges[k as int];
    if e.graph_output {
        let (x, y) = (End::Edge(k), End::Output);
        let rest = lemma_labelled(e.name);
        lemma_shows_arrow(x, y, rest);
        assert(" -> graph_output [label=\""@ =~= " -> "@ + "graph_output"@ + " [label=\""@) by {
            reveal_strlit(" -> graph_output [label=\"");
            reveal_strlit(" -> ");
            reveal_strlit("graph_output");
            reveal_strlit(" [label=\"");
        }
        let id = "edge_"@ + decimal(k);
        let line = "  "@ + id + " -> graph_output [label=\""@ + escaped(e.name) + "\"];\n"@;
        assert(line =~= "  "@ + id + " -> "@ + "graph_output"@ + (" [label=\""@ + escaped(e.name)
            + "\"];\n"@));
        assert(line =~= arrow(x, y) + rest + seq!['\n']);
        set![(x, y)]
    } else {
        lemma_calm_empty(true);
        lemma_shows_nothing(Seq::empty());
        Set::empty()
    }
}

proof fn lemma_shows_producer(p: PlanView, k: nat) -> (arrows: Set<(End, End)>)
    ensures
        arrows == match p.edges[k as int].producer {
            Some(i) => set![(End::Node(i as nat), End::Edge(k))],
            None => Set::empty(),
        },
        shows(
            match p.edges[k as int].producer {
                Some(i) => "  node_"@ + decimal(i as nat) + " -> "@ + ("edge_"@ + decimal(k))
                    + ";\n"@,
                None => Seq::empty(),
            },
            arrows,
        ),
{
    match p.edges[k as int].producer {
        Some(i) => {
            let (x, y) = (End::Node(i as nat), End::Edge(k));
            let rest = ";"@;
            assert(scan(rest, 0, false, false) == Some(false)) by {
                reveal_strlit(";");
                reveal_with_fuel(scan, 3);
            }
            lemma_literal(rest, false, false, false);
            reveal_strlit(";");
            lemma_shows_arrow(x, y, rest);
            assert("  node_"@ =~= "  "@ + "node_"@) by {
                reveal_strlit("  node_");
                reveal_strlit("  ");
                reveal_strlit("node_");
            }
            assert(";\n"@ =~= rest + seq!['\n']) by {
                reveal_strlit(";\n");
            }
            let line = "  node_"@ + decimal(i as nat) + " -> "@ + ("edge_"@ + decimal(k)) + ";\n"@;
            assert(line =~= arrow(x, y) + rest + seq!['\n']);
            set![(x, y)]
        },
        None => {
            lemma_calm_empty(true);
            lemma_shows_nothing(Seq::empty());
            Set::empty()
        },
    }
}

proof fn lemma_shows_edge(p: PlanView, k: nat)
    ensures
        shows(edge_lines(p, k), edge_arrows(p, k)),
{
    let e = p.edges[k as int];
    let id = "edge_"@ + decimal(k);
    let point = "  "@ + id + " [shape=point, width=0.08, label=\"\"];\n"@;
    let source = if e.graph_input {
        "  graph_input -> "@ + id + " [label=\""@ + escaped(e.name) + "\"];\n"@
    } else {
        Seq::empty()
    };
    let producer = match e.producer {
        Some(i) => "  node_"@ + decimal(i as nat) + " -> "@ + id + ";\n"@,
        None => Seq::empty(),
    };
    let readers = reading_lines(p, id, e, e.consumers.len());
    let sink = if e.graph_output {
        "  "@ + id + " -> graph_output [label=\""@ + escaped(e.name) + "\"];\n"@
    } else {
        Seq::empty()
    };
    lemma_shows_point(k);
    let a = lemma_shows_source(p, k);
    let b = lemma_shows_producer(p, k);
    let c = readings(k, e, e.consumers.len());
    lemma_shows_readings(p, k, e, e.consumers.len());
    let d = lemma_shows_sink(p, k);
    let none = Set::<(End, End)>::empty();
    lemma_shows_add(point, source, none, a);
    lemma_shows_add(point + source, producer, none.union(a), b);
    lemma_shows_add(point + source + producer, readers, none.union(a).union(b), c);
    lemma_shows_add(
        point + source + producer + readers,
        sink,
        none.union(a).union(b).union(c),
        d,
    );
}

/// The arrows at the first `k` edges.
spec fn all_arrows(p: PlanView, k: nat) -> Set<(End, End)>
    decreases k,
{
    if k == 0 {
        Set::empty()
    } else {
        all_arrows(p, (k - 1) as nat).union(edge_arrows(p, (k - 1) as nat))
    }
}

proof fn lemma_shows_edges(p: PlanView, k: nat)
    ensures
        shows(all_edge_lines(p, k), all_arrows(p, k)),
    decreases k,
{
    if k == 0 {
        lemma_calm_empty(true);
        lemma_shows_nothing(Seq::empty());
    } else {
        lemma_shows_edges(p, (k - 1) as nat);
        lemma_shows_edge(p, (k - 1) as nat);
        lemma_shows_add(
            all_edge_lines(p, (k - 1) as nat),
            edge_lines(p, (k - 1) as nat),
            all_arrows(p, (k - 1) as nat),
            edge_arrows(p, (k - 1) as nat),
        );
    }
}

proof fn lemma_shows_plan(p: PlanView)
    ensures
        shows(drawing(p), all_arrows(p, p.edges.len())),
{
    let head = opening("lmflow_plan"@, Some("lmflow configuration plan"@));
    let a = "  graph_input [shape=cds, style=filled, fillcolor=\"#e8e8e8\", color=\"#777777\", label=\"graph input\"];\n"@;
    let b = "  graph_output [shape=cds, style=filled, fillcolor=\"#e8e8e8\", color=\"#777777\", label=\"graph output\"];\n"@;
    let boxes = clusters(p, p.config.executors.len());
    lemma_calm_opening();
    lemma_calm_input_line();
    lemma_calm_output_line();
    lemma_calm_clusters(p, p.config.executors.len());
    lemma_calm_add(head, a, false, false, false, true);
    lemma_calm_add(head + a, b, false, false, false, true);
    lemma_calm_add(head + a + b, boxes, false, false, false, true);
    let front = head + a + b + boxes;
    assert(front.last() == boxes.last());
    lemma_shows_nothing(front);
    let lines = all_edge_lines(p, p.edges.len());
    let arrows = all_arrows(p, p.edges.len());
    lemma_shows_edges(p, p.edges.len());
    let none = Set::<(End, End)>::empty();
    lemma_shows_add(front, lines, none, arrows);
    let end = "}\n"@;
    assert(scan(end, 0, false, true) == Some(false)) by {
        reveal_strlit("}\n");
        reveal_with_fuel(scan, 4);
    }
    lemma_literal(end, false, false, true);
    reveal_strlit("}\n");
    lemma_shows_nothing(end);
    lemma_shows_add(front + lines, end, none.union(arrows), none);
    assert(none.union(arrows).union(none) =~= arrows);
}

proof fn lemma_readings(k: nat, e: PlanEdgeView, c: nat, x: End, y: End)
    requires
        c <= e.consumers.len(),
    ensures
        readings(k, e, c).contains((x, y)) <==> x == End::Edge(k) && exists|j: int|
            0 <= j < c && y == End::Node(#[trigger] e.consumers[j] as nat),
    decreases c,
{
    if c > 0 {
        lemma_readings(k, e, (c - 1) as nat, x, y);
        let last = e.consumers[c - 1];
        if x == End::Edge(k) && (exists|j: int|
            0 <= j < c && y == End::Node(#[trigger] e.consumers[j] as nat)) {
            let j = choose|j: int| 0 <= j < c && y == End::Node(#[trigger] e.consumers[j] as nat);
            assert(e.consumers[j] == e.consumers[j]);
            if j < c - 1 {
                assert(y == End::Node(e.consumers[j] as nat));
            }
        }
    }
}

/// Whether a plan has the connection that an arrow stands for: a graph input
/// and its edge, a node and an edge that it produces, an edge and a node that
/// reads it, or an edge and the graph output that it is.
pub open spec fn connected(p: PlanView, tail: End, head: End) -> bool {
    match (tail, head) {
        (End::Input, End::Edge(k)) => k < p.edges.len() && p.edges[k as int].graph_input,
        (End::Node(i), End::Edge(k)) => k < p.edges.len() && (
        p.edges[k as int].producer matches Some(n) && n == i),
        (End::Edge(k), End::Node(c)) => k < p.edges.len() && exists|j: int|
            0 <= j < p.edges[k as int].consumers.len() && (
            #[trigger] p.edges[k as int].consumers[j]) == c,
        (End::Edge(k), End::Output) => k < p.edges.len() && p.edges[k as int].graph_output,
        _ => false,
    }
}

proof fn lemma_all_arrows(p: PlanView, n: nat, x: End, y: End)
    requires
        n <= p.edges.len(),
    ensures
        all_arrows(p, n).contains((x, y)) <==> exists|k: nat|
            k < n && #[trigger] edge_arrows(p, k).contains((x, y)),
    decreases n,
{
    if n > 0 {
        lemma_all_arrows(p, (n - 1) as nat, x, y);
        if exists|k: nat| k < n && #[trigger] edge_arrows(p, k).contains((x, y)) {
            let k = choose|k: nat| k < n && #[trigger] edge_arrows(p, k).contains((x, y));
            if k < n - 1 {
                assert(edge_arrows(p, k).contains((x, y)));
            }
        }
        if edge_arrows(p, (n - 1) as nat).contains((x, y)) {
            assert(((n - 1) as nat) < n);
        }
    }
}

/// The drawing of a plan shows its connections, each as an arrow from where
/// packets come to where they go, and no other arrow: not one the other way
/// round, not one too many.
pub proof fn drawings_show_every_connection(p: PlanView, tail: End, head: End)
    ensures
        draws(bare(drawing(p)), tail, head) <==> connected(p, tail, head),
{
    let arrows = all_arrows(p, p.edges.len());
    lemma_shows_plan(p);
    let t = choose|t: Seq<char>| #[trigger]
        strips(drawing(p), false, false, t) && lined(t) && forall|x: End, y: End| #[trigger]
            draws(t, x, y) <==> arrows.contains((x, y));
    let start = Reader { out: Seq::empty(), quoted: false, skips: false };
    assert(start.out + t =~= t);
    assert(start.read(drawing(p)) == (Reader { out: start.out + t, quoted: false, skips: false }));
    assert(bare(drawing(p)) == t);
    assert(draws(t, tail, head) <==> arrows.contains((tail, head)));
    lemma_all_arrows(p, p.edges.len(), tail, head);
    assert forall|k: nat| k < p.edges.len() implies (#[trigger] edge_arrows(p, k).contains(
        (tail, head),
    ) <==> connected(p, tail, head) && (tail == End::Edge(k) || head == End::Edge(k))) by {
        let e = p.edges[k as int];
        lemma_readings(k, e, e.consumers.len(), tail, head);
        lemma_edge_connected(p, k, tail, head);
    }
    if connected(p, tail, head) {
        let k = match (tail, head) {
            (End::Edge(k), _) => k,
            (_, End::Edge(k)) => k,
            _ => 0,
        };
        assert(edge_arrows(p, k).contains((tail, head)));
    }
}

proof fn lemma_edge_connected(p: PlanView, k: nat, tail: End, head: End)
    requires
        k < p.edges.len(),
    ensures
        edge_arrows(p, k).contains((tail, head)) <==> connected(p, tail, head) && (tail
            == End::Edge(k) || head == End::Edge(k)),
{
    let e = p.edges[k as int];
    lemma_readings(k, e, e.consumers.len(), tail, head);
    match (tail, head) {
        (End::Edge(m), End::Node(c)) => {
            if m == k {
                if readings(k, e, e.consumers.len()).contains((tail, head)) {
                    let j = choose|j: int|
                        0 <= j < e.consumers.len() && head == End::Node(
                            #[trigger] e.consumers[j] as nat,
                        );
                    assert(p.edges[k as int].consumers[j] == c);
                }
                if connected(p, tail, head) {
                    let j = choose|j: int|
                        0 <= j < p.edges[k as int].consumers.len() && (
                        #[trigger] p.edges[k as int].consumers[j]) == c;
                    assert(head == End::Node(e.consumers[j] as nat));
                }
            }
        },
        _ => {},
    }
}

/// For every edge and every node that reads it the drawing has an arrow from
/// the edge to the node, and one from the node to the edge only if the node
/// produces the edge.
pub proof fn arrows_lead_to_readers(p: PlanView, k: int, j: int)
    requires
        0 <= k < p.edges.len(),
        0 <= j < p.edges[k].consumers.len(),
    ensures
        ({
            let (edge, node) = (
                End::Edge(k as nat),
                End::Node(p.edges[k].consumers[j] as nat),
            );
            &&& draws(bare(drawing(p)), edge, node)
            &&& draws(bare(drawing(p)), node, edge) <==> p.edges[k].producer == Some(
                p.edges[k].consumers[j],
            )
        }),
{
    let (edge, node) = (End::Edge(k as nat), End::Node(p.edges[k].consumers[j] as nat));
    drawings_show_every_connection(p, edge, node);
    drawings_show_every_connection(p, node, edge);
    assert(p.edges[k as nat as int].consumers[j] == p.edges[k].consumers[j]);
}

} // verus!

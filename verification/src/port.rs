//! Port declarations: `name`, `TAG:name` and `TAG:index:name`.

use crate::status::{Error, ErrorView};
use crate::text::{cat3, cat5, chars_of, decimal, decimal_of_size, digit, same, texts};
use vstd::prelude::*;

verus! {

/// The parts of a port declaration.
#[derive(Debug, Clone, PartialEq, Eq)]
pub struct PortSpec {
    pub tag: String,
    /// `None`: numbered by its place among the ports of the same tag.
    pub index: Option<usize>,
    pub name: String,
}

/// The parts of a port declaration, as texts.
pub struct PortSpecView {
    pub tag: Seq<char>,
    pub index: Option<usize>,
    pub name: Seq<char>,
}

impl View for PortSpec {
    type V = PortSpecView;

    open spec fn view(&self) -> PortSpecView {
        PortSpecView { tag: self.tag@, index: self.index, name: self.name@ }
    }
}

/// The pieces of `s` between the separators; there is one more than there are
/// separators.
pub open spec fn segments(s: Seq<char>, separator: char) -> Seq<Seq<char>>
    decreases s.len(),
{
    if s.len() == 0 {
        seq![Seq::empty()]
    } else {
        let before = segments(s.drop_last(), separator);
        if s.last() == separator {
            before.push(Seq::empty())
        } else {
            before.drop_last().push(before.last().push(s.last()))
        }
    }
}

/// Whether `c` is a decimal digit.
pub open spec fn is_digit(c: char) -> bool {
    '0' as int <= c as int <= '9' as int
}

/// The number that a string of digits denotes.
pub open spec fn numeral(s: Seq<char>) -> nat
    decreases s.len(),
{
    if s.len() == 0 {
        0
    } else {
        10 * numeral(s.drop_last()) + (s.last() as int - '0' as int) as nat
    }
}

/// Whether a text holds nothing but digits.
pub open spec fn all_digits(s: Seq<char>) -> bool {
    forall|i: int| 0 <= i < s.len() ==> is_digit(#[trigger] s[i])
}

/// A text without its leading plus sign, if it has one.
pub open spec fn without_plus(s: Seq<char>) -> Seq<char> {
    if s.len() > 0 && s[0] == '+' {
        s.drop_first()
    } else {
        s
    }
}

/// The size that a text denotes: digits, after an optional plus sign, whose
/// value a `usize` can hold.
pub open spec fn size_denoted(s: Seq<char>) -> Option<usize> {
    let digits = without_plus(s);
    if digits.len() > 0 && all_digits(digits) && numeral(digits) <= usize::MAX {
        Some(numeral(digits) as usize)
    } else {
        None
    }
}

/// What a port declaration says, or why it is refused.
pub open spec fn port_spec(decl: Seq<char>) -> Result<PortSpecView, ErrorView> {
    let parts = segments(decl, ':');
    if parts.len() > 3 {
        Err(
            ErrorView::InvalidArg(
                "port declaration `"@ + decl
                    + "` has an invalid number of segments (expected name / TAG:name / TAG:index:name)"@,
            ),
        )
    } else if parts.len() == 3 && size_denoted(parts[1]) is None {
        Err(
            ErrorView::InvalidArg(
                "port declaration `"@ + decl + "`: index `"@ + parts[1]
                    + "` is not a non-negative integer"@,
            ),
        )
    } else if parts.last().len() == 0 {
        Err(ErrorView::InvalidArg("port declaration `"@ + decl + "` has an empty name"@))
    } else {
        Ok(
            PortSpecView {
                tag: if parts.len() == 1 {
                    Seq::empty()
                } else {
                    parts[0]
                },
                index: if parts.len() == 3 {
                    size_denoted(parts[1])
                } else {
                    None
                },
                name: parts.last(),
            },
        )
    }
}

/// What a result says of a port, with its texts.
pub open spec fn port_outcome(r: Result<PortSpec, Error>) -> Result<PortSpecView, ErrorView> {
    match r {
        Ok(spec) => Ok(spec@),
        Err(e) => Err(e@),
    }
}

pub proof fn lemma_segments_nonempty(s: Seq<char>, separator: char)
    ensures
        segments(s, separator).len() > 0,
    decreases s.len(),
{
    if s.len() > 0 {
        lemma_segments_nonempty(s.drop_last(), separator);
    }
}

/// The pieces of `s` between the separators.
pub fn split(s: &str, separator: char) -> (r: Vec<String>)
    ensures
        texts(r@) == segments(s@, separator),
        r@.len() > 0,
{
    let chars = chars_of(s);
    let mut out: Vec<String> = Vec::new();
    let mut current = String::new();
    assert(chars@.take(0) =~= Seq::empty());
    assert(texts(out@).push(current@) =~= seq![Seq::<char>::empty()]);
    for i in 0..chars.len()
        invariant
            chars@ == s@,
            texts(out@).push(current@) == segments(chars@.take(i as int), separator),
    {
        let ghost done = texts(out@).push(current@);
        proof {
            let next = chars@.take(i + 1);
            assert(next.drop_last() =~= chars@.take(i as int));
            assert(next.last() == chars@[i as int]);
            assert(done.drop_last() =~= texts(out@));
        }
        if chars[i] == separator {
            out.push(current);
            current = String::new();
            assert(texts(out@) =~= done);
        } else {
            current.push(chars[i]);
        }
    }
    let ghost before = texts(out@);
    let ghost last = current@;
    out.push(current);
    assert(chars@.take(chars@.len() as int) =~= s@);
    assert(texts(out@) =~= before.push(last));
    out
}

proof fn lemma_numeral_grows(s: Seq<char>, k: int)
    requires
        0 <= k <= s.len(),
        all_digits(s),
    ensures
        numeral(s.take(k)) <= numeral(s),
    decreases s.len() - k,
{
    if k < s.len() {
        lemma_numeral_grows(s, k + 1);
        let next = s.take(k + 1);
        assert(next.drop_last() =~= s.take(k));
        assert(next.last() == s[k]);
    } else {
        assert(s.take(k) =~= s);
    }
}

/// The size that a text denotes.
pub fn parse_size(s: &str) -> (r: Option<usize>)
    ensures
        r == size_denoted(s@),
{
    let chars = chars_of(s);
    let start: usize = if chars.len() > 0 && chars[0] == '+' {
        1
    } else {
        0
    };
    let ghost digits = without_plus(s@);
    assert(digits =~= s@.skip(start as int));
    if start == chars.len() {
        return None;
    }
    let mut value: usize = 0;
    assert(digits.take(0) =~= Seq::<char>::empty());
    for i in start..chars.len()
        invariant
            chars@ == s@,
            start <= i,
            start <= chars@.len(),
            digits == without_plus(s@),
            digits == s@.skip(start as int),
            forall|k: int| 0 <= k < i - start ==> is_digit(#[trigger] digits[k]),
            value == numeral(digits.take(i - start)),
    {
        let c = chars[i];
        assert(digits[i - start] == c);
        if c < '0' || c > '9' {
            assert(!is_digit(digits[i - start]));
            return None;
        }
        let d: usize = (c as u32 - '0' as u32) as usize;
        proof {
            let next = digits.take(i - start + 1);
            assert(next.drop_last() =~= digits.take(i - start));
            assert(next.last() == c);
            assert(numeral(next) == 10 * value + d);
            if all_digits(digits) {
                lemma_numeral_grows(digits, i - start + 1);
            }
        }
        if value > (usize::MAX - d) / 10 {
            return None;
        }
        value = value * 10 + d;
    }
    assert(digits.take(digits.len() as int) =~= digits);
    Some(value)
}

/// Reads a port declaration.
pub fn parse_port_spec(decl: &str) -> (r: Result<PortSpec, Error>)
    ensures
        port_outcome(r) == port_spec(decl@),
{
    let parts = split(decl, ':');
    let ghost pieces = segments(decl@, ':');
    assert forall|i: int| 0 <= i < parts@.len() implies (#[trigger] parts@[i])@ == pieces[i] by {
        assert(texts(parts@)[i] == pieces[i]);
    }
    assert(pieces.last() == pieces[parts@.len() - 1]);
    if parts.len() > 3 {
        return Err(
            Error::InvalidArg(
                cat3(
                    "port declaration `",
                    decl,
                    "` has an invalid number of segments (expected name / TAG:name / TAG:index:name)",
                ),
            ),
        );
    }
    let mut index: Option<usize> = None;
    if parts.len() == 3 {
        match parse_size(parts[1].as_str()) {
            Some(n) => {
                index = Some(n);
            },
            None => {
                return Err(
                    Error::InvalidArg(
                        cat5(
                            "port declaration `",
                            decl,
                            "`: index `",
                            parts[1].as_str(),
                            "` is not a non-negative integer",
                        ),
                    ),
                );
            },
        }
    }
    let last: usize = parts.len() - 1;
    if parts[last].as_str().is_empty() {
        return Err(
            Error::InvalidArg(cat3("port declaration `", decl, "` has an empty name")),
        );
    }
    let tag = if parts.len() == 1 {
        String::new()
    } else {
        parts[0].clone()
    };
    Ok(PortSpec { tag, index, name: parts[last].clone() })
}

/// The declaration of a port like `spec` but named `name`.
pub open spec fn assembled(spec: PortSpecView, name: Seq<char>) -> Seq<char> {
    match spec.index {
        None => if spec.tag.len() == 0 {
            name
        } else {
            spec.tag + ":"@ + name
        },
        Some(i) => spec.tag + ":"@ + decimal(i as nat) + ":"@ + name,
    }
}

/// Writes a port declaration with the tag and the index of `spec` and another
/// name.
pub fn reassemble(spec: &PortSpec, name: &str) -> (r: String)
    ensures
        r@ == assembled(spec@, name@),
{
    match spec.index {
        None => if spec.tag.as_str().is_empty() {
            name.to_owned()
        } else {
            cat3(spec.tag.as_str(), ":", name)
        },
        Some(i) => {
            let index = decimal_of_size(i);
            cat5(spec.tag.as_str(), ":", index.as_str(), ":", name)
        },
    }
}

/// What a list of port declarations says, or the position of the first that is
/// refused and why.
pub open spec fn port_list(decls: Seq<Seq<char>>) -> Result<Seq<PortSpecView>, (int, ErrorView)>
    decreases decls.len(),
{
    if decls.len() == 0 {
        Ok(Seq::empty())
    } else {
        match port_list(decls.drop_last()) {
            Err(e) => Err(e),
            Ok(list) => match port_spec(decls.last()) {
                Err(e) => Err((decls.len() - 1, e)),
                Ok(spec) => Ok(list.push(spec)),
            },
        }
    }
}

/// The ports of a list, as texts.
pub open spec fn port_views(list: Seq<PortSpec>) -> Seq<PortSpecView> {
    Seq::new(list.len(), |i: int| list[i]@)
}

/// The names of the ports of a list.
pub open spec fn port_names(list: Seq<PortSpecView>) -> Seq<Seq<char>> {
    Seq::new(list.len(), |i: int| list[i].name)
}

/// Once a declaration is refused, more declarations do not change that.
proof fn lemma_port_list_prefix(decls: Seq<Seq<char>>, k: int)
    requires
        0 <= k <= decls.len(),
        port_list(decls.take(k)) is Err,
    ensures
        port_list(decls) == port_list(decls.take(k)),
    decreases decls.len() - k,
{
    if k < decls.len() {
        let next = decls.take(k + 1);
        assert(next.drop_last() =~= decls.take(k));
        lemma_port_list_prefix(decls, k + 1);
    } else {
        assert(decls.take(k) =~= decls);
    }
}

/// Reads a list of port declarations.
pub fn parse_ports(decls: &Vec<String>) -> (r: Result<Vec<PortSpec>, (usize, Error)>)
    ensures
        match r {
            Ok(list) => port_list(texts(decls@)) == Ok::<Seq<PortSpecView>, (int, ErrorView)>(
                port_views(list@),
            ),
            Err((k, e)) => port_list(texts(decls@)) == Err::<Seq<PortSpecView>, (int, ErrorView)>(
                (k as int, e@),
            ),
        },
{
    let mut list: Vec<PortSpec> = Vec::new();
    assert(port_views(list@) =~= Seq::empty());
    for i in 0..decls.len()
        invariant
            port_list(texts(decls@).take(i as int)) == Ok::<Seq<PortSpecView>, (int, ErrorView)>(
                port_views(list@),
            ),
    {
        let ghost done = port_views(list@);
        let ghost next = texts(decls@).take(i + 1);
        assert(next.drop_last() =~= texts(decls@).take(i as int));
        assert(next.last() == decls@[i as int]@);
        match parse_port_spec(decls[i].as_str()) {
            Ok(spec) => {
                list.push(spec);
                assert(port_views(list@) =~= done.push(spec@));
            },
            Err(e) => {
                proof {
                    lemma_port_list_prefix(texts(decls@), i + 1);
                }
                return Err((i, e));
            },
        }
    }
    assert(texts(decls@).take(decls@.len() as int) =~= texts(decls@));
    Ok(list)
}

/// The names of a list of ports.
pub fn names_of(list: &Vec<PortSpec>) -> (r: Vec<String>)
    ensures
        texts(r@) == port_names(port_views(list@)),
{
    let mut out: Vec<String> = Vec::new();
    for i in 0..list.len()
        invariant
            out@.len() == i,
            forall|k: int| 0 <= k < i ==> (#[trigger] out@[k])@ == list@[k].name@,
    {
        out.push(list[i].name.clone());
    }
    assert(texts(out@) =~= port_names(port_views(list@)));
    out
}

/// How many ports of a list have a tag.
pub open spec fn tagged(list: Seq<PortSpecView>, tag: Seq<char>) -> nat
    decreases list.len(),
{
    if list.len() == 0 {
        0
    } else {
        tagged(list.drop_last(), tag) + if list.last().tag == tag {
            1nat
        } else {
            0nat
        }
    }
}

/// The index of a port among those of its tag: the one it declares, else the
/// number of ports of that tag before it.
pub open spec fn slot(list: Seq<PortSpecView>, i: int) -> nat {
    match list[i].index {
        Some(n) => n as nat,
        None => tagged(list.take(i), list[i].tag),
    }
}

/// Whether port `i` is the one with that tag and that index.
pub open spec fn answers(list: Seq<PortSpecView>, i: int, tag: Seq<char>, index: nat) -> bool {
    list[i].tag == tag && slot(list, i) == index
}

/// The ports of a node, in order.
#[derive(Debug)]
pub struct PortTable {
    ports: Vec<PortSpec>,
    names: Vec<String>,
}

impl View for PortTable {
    type V = Seq<PortSpecView>;

    closed spec fn view(&self) -> Seq<PortSpecView> {
        port_views(self.ports@)
    }
}

impl PortTable {
    #[verifier::type_invariant]
    closed spec fn names_match(self) -> bool {
        texts(self.names@) == port_names(port_views(self.ports@))
    }

    /// Reads the declarations of the ports.
    pub fn build(decls: &Vec<String>) -> (r: Result<PortTable, Error>)
        ensures
            match port_list(texts(decls@)) {
                Err((_, e)) => r matches Err(x) && x@ == e,
                Ok(list) => r matches Ok(table) && table@ == list,
            },
    {
        match parse_ports(decls) {
            Err((_, e)) => Err(e),
            Ok(ports) => {
                let names = names_of(&ports);
                Ok(PortTable { ports, names })
            },
        }
    }

    /// A copy of the table.
    pub fn duplicate(&self) -> (r: PortTable)
        ensures
            r@ == self@,
    {
        let mut ports: Vec<PortSpec> = Vec::new();
        for i in 0..self.ports.len()
            invariant
                ports@.len() == i,
                forall|k: int| 0 <= k < i ==> (#[trigger] ports@[k])@ == self.ports@[k]@,
        {
            let port = &self.ports[i];
            ports.push(
                PortSpec { tag: port.tag.clone(), index: port.index, name: port.name.clone() },
            );
        }
        assert(port_views(ports@) =~= port_views(self.ports@));
        let names = names_of(&ports);
        PortTable { ports, names }
    }

    /// The names of the ports.
    pub fn names(&self) -> (r: &Vec<String>)
        ensures
            texts(r@) == port_names(self@),
            r@.len() == self@.len(),
    {
        proof {
            use_type_invariant(self);
            assert(texts(self.names@).len() == port_names(self@).len());
        }
        &self.names
    }

    pub fn len(&self) -> (r: usize)
        ensures
            r == self@.len(),
    {
        self.ports.len()
    }

    pub fn is_empty(&self) -> (r: bool)
        ensures
            r == (self@.len() == 0),
    {
        self.ports.len() == 0
    }

    /// The name of a port, if there is one at that position.
    pub fn name(&self, i: usize) -> (r: Option<&str>)
        ensures
            match r {
                Some(s) => i < self@.len() && s@ == self@[i as int].name,
                None => i >= self@.len(),
            },
    {
        if i < self.ports.len() {
            Some(self.ports[i].name.as_str())
        } else {
            None
        }
    }

    /// The position of the first port with that name.
    pub fn index_by_name(&self, name: &str) -> (r: Option<usize>)
        ensures
            match r {
                Some(i) => {
                    &&& i < self@.len()
                    &&& self@[i as int].name == name@
                    &&& forall|k: int| 0 <= k < i ==> (#[trigger] self@[k]).name != name@
                },
                None => forall|k: int| 0 <= k < self@.len() ==> (#[trigger] self@[k]).name != name@,
            },
    {
        for i in 0..self.ports.len()
            invariant
                forall|k: int| 0 <= k < i ==> (#[trigger] self@[k]).name != name@,
        {
            assert(self@[i as int] == self.ports@[i as int]@);
            if same(self.ports[i].name.as_str(), name) {
                return Some(i);
            }
        }
        None
    }

    /// The position of the first port with that tag and that index.
    pub fn id_by_tag(&self, tag: &str, index: usize) -> (r: Option<usize>)
        ensures
            match r {
                Some(i) => {
                    &&& i < self@.len()
                    &&& answers(self@, i as int, tag@, index as nat)
                    &&& forall|k: int|
                        0 <= k < i ==> !#[trigger] answers(self@, k, tag@, index as nat)
                },
                None => forall|k: int|
                    0 <= k < self@.len() ==> !#[trigger] answers(self@, k, tag@, index as nat),
            },
    {
        let mut seen: usize = 0;
        let ghost list = self@;
        assert(list.take(0) =~= Seq::empty());
        for i in 0..self.ports.len()
            invariant
                list == self@,
                list.len() == self.ports@.len(),
                seen == tagged(list.take(i as int), tag@),
                seen <= i,
                forall|k: int| 0 <= k < i ==> !#[trigger] answers(list, k, tag@, index as nat),
        {
            proof {
                assert(list[i as int] == self.ports@[i as int]@);
                assert(list.take(i + 1).drop_last() =~= list.take(i as int));
                assert(list.take(i + 1).last() == list[i as int]);
            }
            if same(self.ports[i].tag.as_str(), tag) {
                let number: usize = match self.ports[i].index {
                    Some(n) => n,
                    None => seen,
                };
                if number == index {
                    return Some(i);
                }
                seen += 1;
            }
        }
        None
    }
}

/// Splitting at a separator splits what stands on either side of it.
pub proof fn lemma_segments_around(a: Seq<char>, b: Seq<char>, separator: char)
    ensures
        segments(a.push(separator) + b, separator) == segments(a, separator) + segments(
            b,
            separator,
        ),
    decreases b.len(),
{
    let whole = a.push(separator) + b;
    lemma_segments_nonempty(a, separator);
    if b.len() == 0 {
        assert(whole =~= a.push(separator));
        assert(whole.drop_last() =~= a);
        assert(segments(a, separator).push(Seq::empty()) =~= segments(a, separator) + segments(
            b,
            separator,
        ));
    } else {
        lemma_segments_around(a, b.drop_last(), separator);
        lemma_segments_nonempty(b.drop_last(), separator);
        assert(whole.drop_last() =~= a.push(separator) + b.drop_last());
        assert(whole.last() == b.last());
        let left = segments(a, separator);
        let right = segments(b.drop_last(), separator);
        assert((left + right).push(Seq::empty()) =~= left + right.push(Seq::empty()));
        assert((left + right).drop_last() =~= left + right.drop_last());
        assert((left + right).last() == right.last());
        assert(left + right.drop_last().push(right.last().push(b.last())) =~= (left
            + right.drop_last()).push(right.last().push(b.last())));
    }
}

/// A text without separators is one piece.
pub proof fn lemma_segments_whole(s: Seq<char>, separator: char)
    requires
        !s.contains(separator),
    ensures
        segments(s, separator) == seq![s],
    decreases s.len(),
{
    if s.len() > 0 {
        assert forall|i: int| 0 <= i < s.len() - 1 implies s.drop_last()[i] != separator by {
            assert(s[i] == s.drop_last()[i]);
        }
        lemma_segments_whole(s.drop_last(), separator);
        assert(s[s.len() - 1] != separator);
        assert(s.drop_last().push(s.last()) =~= s);
        let one = seq![s.drop_last()];
        assert(one.drop_last() =~= Seq::empty());
        assert(one.drop_last().push(s) =~= seq![s]);
    } else {
        assert(s =~= Seq::empty());
    }
}

/// No piece holds a separator.
pub proof fn lemma_segments_clean(s: Seq<char>, separator: char)
    ensures
        forall|i: int|
            0 <= i < segments(s, separator).len() ==> !(#[trigger] segments(
                s,
                separator,
            )[i]).contains(separator),
    decreases s.len(),
{
    if s.len() > 0 {
        let before = segments(s.drop_last(), separator);
        lemma_segments_clean(s.drop_last(), separator);
        lemma_segments_nonempty(s.drop_last(), separator);
        let all = segments(s, separator);
        assert forall|i: int| 0 <= i < all.len() implies !(#[trigger] all[i]).contains(
            separator,
        ) by {
            if s.last() == separator {
                if i < before.len() {
                    assert(all[i] == before[i]);
                } else {
                    assert(all[i] =~= Seq::empty());
                }
            } else if i < before.len() - 1 {
                assert(all[i] == before[i]);
            } else {
                let old_last = before[before.len() - 1];
                assert(all[i] =~= old_last.push(s.last()));
                assert forall|j: int| 0 <= j < all[i].len() implies all[i][j] != separator by {
                    if j < old_last.len() {
                        assert(old_last[j] == all[i][j]);
                    }
                }
            }
        }
    }
}

/// The decimal notation of a number consists of digits that denote it.
pub proof fn decimal_denotes(n: nat)
    ensures
        decimal(n).len() > 0,
        all_digits(decimal(n)),
        numeral(decimal(n)) == n,
    decreases n,
{
    if n >= 10 {
        decimal_denotes(n / 10);
        let s = decimal(n);
        assert(s.drop_last() =~= decimal(n / 10));
        assert(s.last() == digit(n % 10));
        assert forall|i: int| 0 <= i < s.len() implies is_digit(#[trigger] s[i]) by {
            if i < s.len() - 1 {
                assert(s[i] == decimal(n / 10)[i]);
            }
        }
    } else {
        let s = decimal(n);
        assert(s.drop_last() =~= Seq::empty());
        assert(s.last() == digit(n));
        assert(numeral(s.drop_last()) == 0);
    }
}

/// Reading the decimal notation of a size gives the size back.
pub proof fn decimal_reads_back(n: usize)
    ensures
        size_denoted(decimal(n as nat)) == Some(n),
        !decimal(n as nat).contains(':'),
{
    decimal_denotes(n as nat);
    let s = decimal(n as nat);
    assert(is_digit(s[0]));
    assert forall|i: int| 0 <= i < s.len() implies s[i] != ':' by {
        assert(is_digit(s[i]));
    }
}

/// A declaration written by `reassemble` reads back as the same tag and index
/// with the new name.
pub proof fn reassembled_reads_back(spec: PortSpecView, name: Seq<char>)
    requires
        !spec.tag.contains(':'),
        !name.contains(':'),
        name.len() > 0,
    ensures
        port_spec(assembled(spec, name)) == Ok::<PortSpecView, ErrorView>(
            PortSpecView { tag: spec.tag, index: spec.index, name },
        ),
{
    reveal_strlit(":");
    lemma_segments_whole(name, ':');
    lemma_segments_whole(spec.tag, ':');
    match spec.index {
        None => if spec.tag.len() == 0 {
            assert(spec.tag =~= Seq::empty());
        } else {
            assert(spec.tag + ":"@ + name =~= spec.tag.push(':') + name);
            lemma_segments_around(spec.tag, name, ':');
            assert(segments(assembled(spec, name), ':') =~= seq![spec.tag, name]);
        },
        Some(i) => {
            let number = decimal(i as nat);
            decimal_reads_back(i);
            lemma_segments_whole(number, ':');
            let rest = number.push(':') + name;
            lemma_segments_around(number, name, ':');
            lemma_segments_around(spec.tag, rest, ':');
            assert(assembled(spec, name) =~= spec.tag.push(':') + rest);
            assert(segments(assembled(spec, name), ':') =~= seq![spec.tag, number, name]);
        },
    }
}

/// An accepted declaration has a name, and neither its tag nor its name holds
/// a colon.
pub proof fn accepted_port_is_clean(decl: Seq<char>)
    requires
        port_spec(decl) is Ok,
    ensures
        ({
            let spec = port_spec(decl)->Ok_0;
            &&& spec.name.len() > 0
            &&& !spec.name.contains(':')
            &&& !spec.tag.contains(':')
        }),
{
    lemma_segments_clean(decl, ':');
    lemma_segments_nonempty(decl, ':');
}

} // verus!

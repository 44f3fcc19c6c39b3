//! The parameters of a node: the `options` tree of its configuration, read by
//! dotted paths.

use crate::port::{segments, split};
use crate::runtime::{interned, without_zero};
use crate::text::{same, texts};
use crate::yaml::{
    json_of, yaml_content, yaml_contents, yaml_get, yaml_list, yaml_signed, yaml_text, yaml_to_json,
    yaml_truth, yaml_unsigned, YamlView,
};
use vstd::prelude::*;

verus! {

/// What lies under the keys `path`, one inside the other.
pub open spec fn descend(v: YamlView, path: Seq<Seq<char>>) -> Option<YamlView>
    decreases path.len(),
{
    if path.len() == 0 {
        Some(v)
    } else {
        match descend(v, path.drop_last()) {
            Some(inner) => inner.entry(path.last()),
            None => None,
        }
    }
}

/// What a dotted path leads to.
pub open spec fn at_path(v: YamlView, path: Seq<char>) -> Option<YamlView> {
    descend(v, segments(path, '.'))
}

/// The number of a value that is an integer. One beyond the range of `i64`
/// counts on from the other end.
pub open spec fn number_of(v: YamlView) -> Option<i64> {
    match v.as_signed() {
        Some(n) => Some(n),
        None => match v.as_unsigned() {
            Some(n) => Some((n - u64::MAX - 1) as i64),
            None => None,
        },
    }
}

/// The JSON text of a tree of options. One that is empty, or has none, is the
/// empty object.
pub open spec fn options_json(v: YamlView) -> Seq<char> {
    match json_of(v) {
        Some(s) => if s == "null"@ {
            "{}"@
        } else {
            s
        },
        None => "{}"@,
    }
}

/// The parameters of a node.
pub struct Options {
    root: serde_yaml::Value,
    json: String,
}

impl View for Options {
    type V = YamlView;

    closed spec fn view(&self) -> YamlView {
        yaml_content(self.root)
    }
}

/// The integer that a value holds.
fn number(v: &serde_yaml::Value) -> (r: Option<i64>)
    ensures
        r == number_of(yaml_content(*v)),
{
    match yaml_signed(v) {
        Some(n) => Some(n),
        None => match yaml_unsigned(v) {
            Some(u) => {
                assert(u > i64::MAX) by {
                    match yaml_content(*v).untagged() {
                        YamlView::Integer(n) => {
                            assert(n == u);
                        },
                        _ => {},
                    }
                }
                Some(-((u64::MAX - u) as i64) - 1)
            },
            None => None,
        },
    }
}

impl Options {
    #[verifier::type_invariant]
    closed spec fn text_matches(self) -> bool {
        &&& self.json@ == options_json(yaml_content(self.root))
        &&& yaml_content(self.root) is Null ==> self.json@ == "{}"@
    }

    /// The options of a tree.
    pub fn new(root: serde_yaml::Value) -> (r: Options)
        ensures
            r@ == yaml_content(root),
    {
        let json = match yaml_to_json(&root) {
            Some(s) => if same(s.as_str(), "null") {
                "{}".to_owned()
            } else {
                s
            },
            None => "{}".to_owned(),
        };
        Options { root, json }
    }

    /// What a dotted path leads to.
    pub fn get(&self, path: &str) -> (r: Option<&serde_yaml::Value>)
        ensures
            match r {
                Some(v) => at_path(self@, path@) == Some(yaml_content(*v)),
                None => at_path(self@, path@) is None,
            },
    {
        let keys = split(path, '.');
        let ghost all = texts(keys@);
        let mut current = &self.root;
        assert(all.take(0) =~= Seq::empty());
        for i in 0..keys.len()
            invariant
                all == texts(keys@),
                all == segments(path@, '.'),
                descend(self@, all.take(i as int)) == Some(yaml_content(*current)),
        {
            proof {
                assert(all.take(i + 1).drop_last() =~= all.take(i as int));
                assert(all.take(i + 1).last() == keys@[i as int]@);
            }
            match yaml_get(current, keys[i].as_str()) {
                Some(v) => {
                    current = v;
                },
                None => {
                    proof {
                        lemma_descend_prefix(self@, all, i + 1);
                    }
                    return None;
                },
            }
        }
        assert(all.take(all.len() as int) =~= all);
        Some(current)
    }

    /// Whether a dotted path leads anywhere.
    pub fn has(&self, path: &str) -> (r: bool)
        ensures
            r == (at_path(self@, path@) is Some),
    {
        self.get(path).is_some()
    }

    /// The integer at a path.
    pub fn i64(&self, path: &str) -> (r: Option<i64>)
        ensures
            r == match at_path(self@, path@) {
                Some(v) => number_of(v),
                None => None,
            },
    {
        match self.get(path) {
            Some(v) => number(v),
            None => None,
        }
    }

    /// The truth value at a path.
    pub fn bool(&self, path: &str) -> (r: Option<bool>)
        ensures
            r == match at_path(self@, path@) {
                Some(v) => v.as_truth(),
                None => None,
            },
    {
        match self.get(path) {
            Some(v) => yaml_truth(v),
            None => None,
        }
    }

    /// The text at a path.
    pub fn str(&self, path: &str) -> (r: Option<&str>)
        ensures
            match at_path(self@, path@) {
                Some(v) => match r {
                    Some(s) => v.as_text() == Some(s@),
                    None => v.as_text() is None,
                },
                None => r is None,
            },
    {
        match self.get(path) {
            Some(v) => yaml_text(v),
            None => None,
        }
    }

    /// The list at a path.
    pub fn seq(&self, path: &str) -> (r: Option<&Vec<serde_yaml::Value>>)
        ensures
            match at_path(self@, path@) {
                Some(v) => match r {
                    Some(list) => v.as_list() == Some(yaml_contents(list@)),
                    None => v.as_list() is None,
                },
                None => r is None,
            },
    {
        match self.get(path) {
            Some(v) => yaml_list(v),
            None => None,
        }
    }

    /// The list that a path leads to; empty where there is none.
    pub open spec fn list(self, path: Seq<char>) -> Seq<YamlView> {
        match at_path(self@, path) {
            Some(v) => match v.as_list() {
                Some(list) => list,
                None => Seq::empty(),
            },
            None => Seq::empty(),
        }
    }

    /// How long the list at a path is; zero where there is none.
    pub fn count(&self, path: &str) -> (r: usize)
        ensures
            r == self.list(path@).len(),
    {
        match self.seq(path) {
            Some(list) => list.len(),
            None => 0,
        }
    }

    /// Copies the numbers of the list at a path, as many as there is room
    /// for, and returns how long the list is. What is no integer is copied as
    /// zero.
    pub fn i64_array(&self, path: &str, out: &mut Vec<i64>) -> (r: usize)
        ensures
            r == self.list(path@).len(),
            final(out)@.len() == old(out)@.len(),
            forall|k: int|
                0 <= k < final(out)@.len() ==> #[trigger] final(out)@[k] == (if k < r {
                    match number_of(self.list(path@)[k]) {
                        Some(n) => n,
                        None => 0,
                    }
                } else {
                    old(out)@[k]
                }),
    {
        let ghost wanted = self.list(path@);
        match self.seq(path) {
            Some(list) => {
                for i in 0..list.len()
                    invariant
                        wanted == yaml_contents(list@),
                        out@.len() == old(out)@.len(),
                        forall|k: int|
                            0 <= k < out@.len() ==> #[trigger] out@[k] == (if k < i {
                                match number_of(wanted[k]) {
                                    Some(n) => n,
                                    None => 0,
                                }
                            } else {
                                old(out)@[k]
                            }),
                {
                    if i < out.len() {
                        let value: i64 = match number(&list[i]) {
                            Some(n) => n,
                            None => 0,
                        };
                        out.set(i, value);
                    }
                }
                list.len()
            },
            None => 0,
        }
    }

    /// Copies the texts of the list at a path, as many as there is room for,
    /// and returns how long the list is. What is no text, and a text with a
    /// zero within, is copied as an empty one.
    pub fn str_array(&self, path: &str, out: &mut Vec<String>) -> (r: usize)
        ensures
            r == self.list(path@).len(),
            final(out)@.len() == old(out)@.len(),
            forall|k: int|
                0 <= k < final(out)@.len() ==> (#[trigger] final(out)@[k])@ == (if k < r {
                    match self.list(path@)[k].as_text() {
                        Some(s) => without_zero(s),
                        None => Seq::<char>::empty(),
                    }
                } else {
                    old(out)@[k]@
                }),
    {
        let ghost wanted = self.list(path@);
        match self.seq(path) {
            Some(list) => {
                for i in 0..list.len()
                    invariant
                        wanted == yaml_contents(list@),
                        out@.len() == old(out)@.len(),
                        forall|k: int|
                            0 <= k < out@.len() ==> (#[trigger] out@[k])@ == (if k < i {
                                match wanted[k].as_text() {
                                    Some(s) => without_zero(s),
                                    None => Seq::<char>::empty(),
                                }
                            } else {
                                old(out)@[k]@
                            }),
                {
                    if i < out.len() {
                        let value = match yaml_text(&list[i]) {
                            Some(s) => interned(s),
                            None => String::new(),
                        };
                        out.set(i, value);
                    }
                }
                list.len()
            },
            None => 0,
        }
    }

    /// The options as a JSON text. No options are the empty object.
    pub fn json(&self) -> (r: &str)
        ensures
            r@ == options_json(self@),
            self@ is Null ==> r@ == "{}"@,
    {
        proof {
            use_type_invariant(self);
        }
        self.json.as_str()
    }
}

/// A path leads nowhere if its beginning does.
proof fn lemma_descend_prefix(v: YamlView, path: Seq<Seq<char>>, k: int)
    requires
        0 <= k <= path.len(),
        descend(v, path.take(k)) is None,
    ensures
        descend(v, path) is None,
    decreases path.len() - k,
{
    if k < path.len() {
        assert(path.take(k + 1).drop_last() =~= path.take(k));
        lemma_descend_prefix(v, path, k + 1);
    } else {
        assert(path.take(k) =~= path);
    }
}

/// A longer path goes on where the shorter one ends: the keys of both, read
/// one after the other.
pub proof fn paths_compose(v: YamlView, a: Seq<Seq<char>>, b: Seq<Seq<char>>)
    ensures
        descend(v, a + b) == match descend(v, a) {
            Some(inner) => descend(inner, b),
            None => None,
        },
    decreases b.len(),
{
    if b.len() == 0 {
        assert(a + b =~= a);
    } else {
        paths_compose(v, a, b.drop_last());
        assert((a + b).drop_last() =~= a + b.drop_last());
        assert((a + b).last() == b.last());
    }
}

} // verus!

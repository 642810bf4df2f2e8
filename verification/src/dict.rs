//! The data dictionary: a flat, immutable mapping from variable names to
//! substitution values, with unique, case-sensitive keys. It is built once
//! from the external JSON input and only read afterwards.

use vstd::prelude::*;

use crate::error::Error;

verus! {

/// The mapping that a sequence of key/value pairs denotes; a later pair for
/// the same key would win, but a well-formed dictionary has unique keys.
pub open spec fn pairs_map(ps: Seq<(String, String)>) -> Map<Seq<char>, Seq<char>>
    decreases ps.len(),
{
    if ps.len() == 0 {
        Map::empty()
    } else {
        pairs_map(ps.drop_last()).insert(ps.last().0@, ps.last().1@)
    }
}

/// A dictionary of variable bindings with unique keys.
pub struct Dict {
    pairs: Vec<(String, String)>,
}

impl View for Dict {
    type V = Map<Seq<char>, Seq<char>>;

    closed spec fn view(&self) -> Map<Seq<char>, Seq<char>> {
        pairs_map(self.pairs@)
    }
}

/// The mapping's domain is exactly the keys of the pairs.
proof fn lemma_pairs_map_domain(ps: Seq<(String, String)>, k: Seq<char>)
    ensures
        pairs_map(ps).contains_key(k) <==> exists|i: int| 0 <= i < ps.len() && ps[i].0@ == k,
    decreases ps.len(),
{
    if ps.len() > 0 {
        lemma_pairs_map_domain(ps.drop_last(), k);
        if pairs_map(ps).contains_key(k) {
            if ps.last().0@ != k {
                let i = choose|i: int| 0 <= i < ps.drop_last().len() && ps.drop_last()[i].0@ == k;
                assert(ps[i].0@ == k);
            }
        }
        if exists|i: int| 0 <= i < ps.len() && ps[i].0@ == k {
            let i = choose|i: int| 0 <= i < ps.len() && ps[i].0@ == k;
            if i < ps.len() - 1 {
                assert(ps.drop_last()[i].0@ == k);
            }
        }
    }
}

/// With unique keys, the mapping sends each key to its pair's value.
proof fn lemma_pairs_map_value(ps: Seq<(String, String)>, i: int)
    requires
        forall|a: int, b: int| 0 <= a < b < ps.len() ==> ps[a].0@ != ps[b].0@,
        0 <= i < ps.len(),
    ensures
        pairs_map(ps).contains_key(ps[i].0@),
        pairs_map(ps)[ps[i].0@] == ps[i].1@,
    decreases ps.len(),
{
    if i == ps.len() - 1 {
    } else {
        assert(ps[i].0@ != ps.last().0@);
        assert(ps.drop_last()[i] == ps[i]);
        lemma_pairs_map_value(ps.drop_last(), i);
    }
}

impl Dict {
    /// Unique keys: no two pairs bind the same name.
    pub closed spec fn wf(&self) -> bool {
        forall|a: int, b: int|
            0 <= a < b < self.pairs@.len() ==> self.pairs@[a].0@ != self.pairs@[b].0@
    }

    /// An empty dictionary.
    pub fn new() -> (d: Dict)
        ensures
            d.wf(),
            d@ == Map::<Seq<char>, Seq<char>>::empty(),
    {
        Dict { pairs: Vec::new() }
    }

    /// Bind a fresh name to a value.
    pub fn insert(&mut self, name: String, value: String)
        requires
            old(self).wf(),
            !old(self)@.contains_key(name@),
        ensures
            final(self).wf(),
            final(self)@ == old(self)@.insert(name@, value@),
    {
        proof {
            lemma_pairs_map_domain(self.pairs@, name@);
        }
        let ghost ps = self.pairs@;
        self.pairs.push((name, value));
        proof {
            assert(self.pairs@.drop_last() =~= ps);
        }
    }

    /// Look a name up: the bound value, or `None` when the name is absent.
    pub fn get(&self, name: &String) -> (r: Option<&String>)
        requires
            self.wf(),
        ensures
            match r {
                Some(v) => self@.contains_key(name@) && v@ == self@[name@],
                None => !self@.contains_key(name@),
            },
    {
        let n = self.pairs.len();
        let mut i: usize = 0;
        while i < n
            invariant
                self.wf(),
                n == self.pairs@.len(),
                i <= n,
                forall|j: int| 0 <= j < i ==> self.pairs@[j].0@ != name@,
            decreases n - i,
        {
            if self.pairs[i].0 == *name {
                proof {
                    lemma_pairs_map_value(self.pairs@, i as int);
                }
                return Some(&self.pairs[i].1);
            }
            i = i + 1;
        }
        proof {
            lemma_pairs_map_domain(self.pairs@, name@);
        }
        None
    }
}

/// The string-to-string object that the external JSON format assigns to a
/// text, if the text is a valid JSON object of string values.
pub uninterp spec fn json_object_of(s: Seq<char>) -> Option<Map<Seq<char>, Seq<char>>>;

/// Relies on `serde_json::from_str` with an ordered string-to-string map as
/// the target type: the parse is a deterministic function of the input text
/// alone, succeeds exactly on JSON objects whose values are strings, and
/// yields each key once.
#[verifier::external_body]
fn parse_json_object(s: &str) -> (r: Option<Dict>)
    ensures
        match r {
            Some(d) => d.wf() && json_object_of(s@) == Some(d@),
            None => json_object_of(s@) is None,
        },
{
    match serde_json::from_str::<std::collections::BTreeMap<String, String>>(s) {
        Ok(m) => Some(Dict { pairs: m.into_iter().collect() }),
        Err(_) => None,
    }
}

/// Build the data dictionary from the external JSON input text.
pub fn parse_data(s: &str) -> (r: Result<Dict, Error>)
    ensures
        match r {
            Ok(d) => d.wf() && json_object_of(s@) == Some(d@),
            Err(e) => json_object_of(s@) is None && e == Error::InputIsNotValidJson,
        },
{
    match parse_json_object(s) {
        Some(d) => Ok(d),
        None => Err(Error::InputIsNotValidJson),
    }
}

} // verus!

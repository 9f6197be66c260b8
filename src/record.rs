//! The parsed record and the parser itself.
use vstd::prelude::*;
use crate::grammar::{
    find_first, first_of, float_literal_at, i32_of, is_float_literal, pieces, split_ranges,
};
use crate::table::Table;

verus! {

/// What a [`Value`] holds: integers, coordinate triples and pairs of triples, by name.
/// Float components are kept as the literal text they were read from.
pub struct ValueModel {
    /// Integers by name.
    pub ints: Map<Seq<char>, i32>,
    /// Triples of float texts by name.
    pub xyz: Map<Seq<char>, Seq<Seq<char>>>,
    /// Pairs of float-text triples by name.
    pub coords: Map<Seq<char>, (Seq<Seq<char>>, Seq<Seq<char>>)>,
}

/// The record with no names.
pub open spec fn empty_model() -> ValueModel {
    ValueModel { ints: Map::empty(), xyz: Map::empty(), coords: Map::empty() }
}

/// The entries of a document: the runs between `|` and `?`.
pub open spec fn entries_of(s: Seq<char>) -> Seq<Seq<char>> {
    pieces(s, '|', '?')
}

/// The name of an entry and the texts of its values. An entry holding `#` is split at
/// its first `#` and its payload at every `,`; otherwise it is split at its first `-`
/// into a single value; with neither, the whole entry is the name and the value is `0`.
pub open spec fn entry_parts(e: Seq<char>) -> (Seq<char>, Seq<Seq<char>>) {
    let h = first_of(e, '#', '#');
    let d = first_of(e, '-', '-');
    if h < e.len() {
        (e.take(h), pieces(e.skip(h + 1), ',', ','))
    } else if d < e.len() {
        (e.take(d), seq![e.skip(d + 1)])
    } else {
        (e, seq![seq!['0']])
    }
}

/// The integer of a value text; in lossy mode a text that is no integer counts as `0`.
pub open spec fn int_value(t: Seq<char>, lossy: bool) -> Option<i32> {
    match i32_of(t) {
        Some(n) => Some(n),
        None => if lossy {
            Some(0)
        } else {
            None
        },
    }
}

/// A float text as stored: itself when it is a float literal, else `0`.
pub open spec fn float_or_zero(t: Seq<char>) -> Seq<char> {
    if is_float_literal(t) {
        t
    } else {
        seq!['0']
    }
}

/// The stored texts of a list of float texts; in strict mode every one must be a literal.
pub open spec fn float_texts(ts: Seq<Seq<char>>, lossy: bool) -> Option<Seq<Seq<char>>> {
    if lossy || forall|i: int| 0 <= i < ts.len() ==> is_float_literal(#[trigger] ts[i]) {
        Some(ts.map_values(|t: Seq<char>| float_or_zero(t)))
    } else {
        None
    }
}

/// The record after one more entry; `None` where a value fails in strict mode.
/// One value goes to the integers, three to the triples, six to the pairs;
/// any other count leaves the record as it was.
pub open spec fn apply_entry(m: ValueModel, e: Seq<char>, lossy: bool) -> Option<ValueModel> {
    let (name, vals) = entry_parts(e);
    if vals.len() == 1 {
        match int_value(vals[0], lossy) {
            Some(n) => Some(ValueModel { ints: m.ints.insert(name, n), ..m }),
            None => None,
        }
    } else if vals.len() == 3 {
        match float_texts(vals, lossy) {
            Some(f) => Some(ValueModel { xyz: m.xyz.insert(name, f), ..m }),
            None => None,
        }
    } else if vals.len() == 6 {
        match float_texts(vals, lossy) {
            Some(f) => Some(ValueModel { coords: m.coords.insert(name, (f.take(3), f.skip(3))), ..m }),
            None => None,
        }
    } else {
        Some(m)
    }
}

/// The record that a list of entries builds, from the empty one.
pub open spec fn apply_entries(es: Seq<Seq<char>>, lossy: bool) -> Option<ValueModel>
    decreases es.len(),
{
    if es.len() == 0 {
        Some(empty_model())
    } else {
        match apply_entries(es.drop_last(), lossy) {
            Some(m) => apply_entry(m, es.last(), lossy),
            None => None,
        }
    }
}

/// `m` with the empty name taken out of the integers.
pub open spec fn drop_unnamed_int(m: ValueModel) -> ValueModel {
    ValueModel { ints: m.ints.remove(Seq::empty()), ..m }
}

/// The record that a document denotes; `None` where strict parsing fails.
pub open spec fn parse_model(s: Seq<char>, lossy: bool) -> Option<ValueModel> {
    match apply_entries(entries_of(s), lossy) {
        Some(m) => Some(drop_unnamed_int(m)),
        None => None,
    }
}

/// Why a strict parse failed.
#[derive(Debug, Clone, Copy, PartialEq, Eq, Structural)]
pub enum ParseError {
    /// A value text is not a number of the kind its entry calls for.
    InvalidValue,
}

impl ParseError {
    /// A line that describes the error.
    pub fn message(&self) -> (r: String)
        ensures
            r@ == "Invalid value string"@,
    {
        "Invalid value string".to_owned()
    }
}

/// Named integers, coordinate triples and pairs of triples read from one document.
pub struct Value {
    /// Entries with one value.
    pub int_keys: Table<i32>,
    /// Entries with three values, each the text of a float literal.
    pub xyz_keys: Table<[String; 3]>,
    /// Entries with six values: the first three, then the last three.
    pub coord_keys: Table<([String; 3], [String; 3])>,
}

impl View for Value {
    type V = ValueModel;

    open spec fn view(&self) -> ValueModel {
        ValueModel { ints: self.int_keys@, xyz: self.xyz_keys@, coords: self.coord_keys@ }
    }
}

/// Relies on `<i32 as FromStr>::from_str`: an optional `+` or `-` followed by one or
/// more ASCII digits whose value fits in `i32` parses to that value; any other text fails.
#[verifier::external_body]
fn parse_i32(s: &str) -> (r: Option<i32>)
    ensures
        r == i32_of(s@),
{
    s.parse::<i32>().ok()
}

fn chars_of(s: &str) -> (r: Vec<char>)
    ensures
        r@ == s@,
{
    let n = s.unicode_len();
    let mut r: Vec<char> = Vec::new();
    let mut i: usize = 0;
    while i < n
        invariant
            n == s@.len(),
            i <= n,
            r@ == s@.take(i as int),
        decreases n - i,
    {
        r.push(s.get_char(i));
        i += 1;
        assert(r@ =~= s@.take(i as int));
    }
    assert(r@ =~= s@);
    r
}

fn zero_text() -> (r: String)
    ensures
        r@ == seq!['0'],
{
    proof {
        reveal_strlit("0");
    }
    "0".to_owned()
}

/// The stored text of the float literal in `v[lo..hi]`; `None` where it is none and
/// parsing is strict.
fn float_text_at(s: &str, v: &Vec<char>, lo: usize, hi: usize, lossy: bool) -> (r: Option<String>)
    requires
        v@ == s@,
        lo <= hi <= v@.len(),
    ensures
        r.is_some() == (lossy || is_float_literal(v@.subrange(lo as int, hi as int))),
        r.is_some() ==> r.unwrap()@ == float_or_zero(v@.subrange(lo as int, hi as int)),
{
    if float_literal_at(v, lo, hi) {
        Some(s.substring_char(lo, hi).to_owned())
    } else if lossy {
        Some(zero_text())
    } else {
        None
    }
}

impl Value {
    /// Each table's names are unique.
    pub open spec fn wf(&self) -> bool {
        self.int_keys.wf() && self.xyz_keys.wf() && self.coord_keys.wf()
    }

    fn new() -> (r: Self)
        ensures
            r.wf(),
            r@ == empty_model(),
    {
        Value { int_keys: Table::new(), xyz_keys: Table::new(), coord_keys: Table::new() }
    }
}

/// Once a prefix of the entries fails, the whole list fails.
pub proof fn lemma_failure_persists(es: Seq<Seq<char>>, j: int, lossy: bool)
    requires
        0 <= j <= es.len(),
        apply_entries(es.take(j), lossy) is None,
    ensures
        apply_entries(es, lossy) is None,
    decreases es.len(),
{
    if j == es.len() {
        assert(es.take(j) =~= es);
    } else {
        assert(es.drop_last().take(j) =~= es.take(j));
        lemma_failure_persists(es.drop_last(), j, lossy);
    }
}

impl Value {
    /// Adds the entry `v[lo..hi]` to the record; `false` where one of its values fails
    /// in strict mode, and the record is then of no further use.
    fn add_entry(&mut self, s: &str, v: &Vec<char>, lo: usize, hi: usize, lossy: bool) -> (ok: bool)
        requires
            old(self).wf(),
            v@ == s@,
            lo <= hi <= v@.len(),
        ensures
            ok == apply_entry(old(self)@, v@.subrange(lo as int, hi as int), lossy) is Some,
            ok ==> final(self).wf() && Some(final(self)@) == apply_entry(
                old(self)@,
                v@.subrange(lo as int, hi as int),
                lossy,
            ),
    {
        let ghost e = v@.subrange(lo as int, hi as int);
        let ghost parts = entry_parts(e);
        let h = find_first(v, lo, hi, '#', '#');
        if h < hi - lo {
            let name = s.substring_char(lo, lo + h).to_owned();
            let start = lo + h + 1;
            let ranges = split_ranges(v, start, hi, ',', ',');
            proof {
                assert(e.take(h as int) =~= v@.subrange(lo as int, start - 1));
                assert(e.skip(h + 1) =~= v@.subrange(start as int, hi as int));
            }
            let ghost vals = parts.1;
            if ranges.len() == 1 {
                let text = s.substring_char(ranges[0].0, ranges[0].1).to_owned();
                self.add_int(name, text, lossy)
            } else if ranges.len() == 3 {
                let x = float_text_at(s, v, ranges[0].0, ranges[0].1, lossy);
                let y = float_text_at(s, v, ranges[1].0, ranges[1].1, lossy);
                let z = float_text_at(s, v, ranges[2].0, ranges[2].1, lossy);
                match (x, y, z) {
                    (Some(x), Some(y), Some(z)) => {
                        let t = [x, y, z];
                        proof {
                            assert(lossy || forall|i: int|
                                0 <= i < vals.len() ==> is_float_literal(#[trigger] vals[i]));
                            assert(t.deep_view() =~= vals.map_values(
                                |t: Seq<char>| float_or_zero(t),
                            ));
                        }
                        self.xyz_keys.insert(name, t);
                        true
                    },
                    _ => {
                        assert(!lossy);
                        false
                    },
                }
            } else if ranges.len() == 6 {
                let a = float_text_at(s, v, ranges[0].0, ranges[0].1, lossy);
                let b = float_text_at(s, v, ranges[1].0, ranges[1].1, lossy);
                let c = float_text_at(s, v, ranges[2].0, ranges[2].1, lossy);
                let d = float_text_at(s, v, ranges[3].0, ranges[3].1, lossy);
                let e2 = float_text_at(s, v, ranges[4].0, ranges[4].1, lossy);
                let f = float_text_at(s, v, ranges[5].0, ranges[5].1, lossy);
                match (a, b, c, d, e2, f) {
                    (Some(a), Some(b), Some(c), Some(d), Some(e2), Some(f)) => {
                        let t = ([a, b, c], [d, e2, f]);
                        proof {
                            assert(lossy || forall|i: int|
                                0 <= i < vals.len() ==> is_float_literal(#[trigger] vals[i]));
                            let fl = vals.map_values(|t: Seq<char>| float_or_zero(t));
                            assert(t.0.deep_view() =~= fl.take(3));
                            assert(t.1.deep_view() =~= fl.skip(3));
                        }
                        self.coord_keys.insert(name, t);
                        true
                    },
                    _ => {
                        assert(!lossy);
                        false
                    },
                }
            } else {
                true
            }
        } else {
            let d = find_first(v, lo, hi, '-', '-');
            let name;
            let text;
            if d < hi - lo {
                name = s.substring_char(lo, lo + d).to_owned();
                text = s.substring_char(lo + d + 1, hi).to_owned();
                proof {
                    assert(e.take(d as int) =~= v@.subrange(lo as int, lo + d));
                    assert(e.skip(d + 1) =~= v@.subrange(lo + d + 1, hi as int));
                }
            } else {
                name = s.substring_char(lo, hi).to_owned();
                text = zero_text();
            }
            self.add_int(name, text, lossy)
        }
    }

    /// Adds the integer that `text` holds under `name`.
    fn add_int(&mut self, name: String, text: String, lossy: bool) -> (ok: bool)
        requires
            old(self).wf(),
        ensures
            ok == int_value(text@, lossy) is Some,
            ok ==> final(self).wf() && final(self)@ == (ValueModel {
                ints: old(self)@.ints.insert(name@, int_value(text@, lossy).unwrap()),
                ..old(self)@
            }),
    {
        match parse_i32(text.as_str()) {
            Some(n) => {
                self.int_keys.insert(name, n);
                true
            },
            None => {
                if lossy {
                    self.int_keys.insert(name, 0);
                    true
                } else {
                    false
                }
            },
        }
    }

    fn parse_with(s: &str, lossy: bool) -> (r: Option<Value>)
        ensures
            r is Some == parse_model(s@, lossy) is Some,
            r is Some ==> r.unwrap().wf() && parse_model(s@, lossy) == Some(r.unwrap()@),
    {
        let v = chars_of(s);
        let n = v.len();
        let ranges = split_ranges(&v, 0, n, '|', '?');
        let ghost es = entries_of(s@);
        assert(v@.subrange(0, n as int) =~= s@);
        let mut value = Value::new();
        let mut k: usize = 0;
        assert(es.take(0) =~= Seq::<Seq<char>>::empty());
        while k < ranges.len()
            invariant
                v@ == s@,
                n == v@.len(),
                es == entries_of(s@),
                ranges@.len() == es.len(),
                forall|j: int|
                    0 <= j < ranges@.len() ==> 0 <= (#[trigger] ranges@[j]).0 <= ranges@[j].1 <= n
                        && v@.subrange(ranges@[j].0 as int, ranges@[j].1 as int) == es[j],
                k <= ranges@.len(),
                value.wf(),
                apply_entries(es.take(k as int), lossy) == Some(value@),
            decreases ranges@.len() - k,
        {
            let (lo, hi) = ranges[k];
            assert(es.take(k + 1).drop_last() =~= es.take(k as int));
            assert(es.take(k + 1).last() == es[k as int]);
            if !value.add_entry(s, &v, lo, hi, lossy) {
                proof {
                    lemma_failure_persists(es, k + 1, lossy);
                }
                return None;
            }
            k += 1;
        }
        assert(es.take(k as int) =~= es);
        let empty = String::new();
        value.int_keys.remove(&empty);
        Some(value)
    }

    /// Parses a document strictly: every value must be a number of the kind its entry
    /// calls for, else the whole parse fails.
    pub fn parse_str(s: &str) -> (r: Result<Value, ParseError>)
        ensures
            r is Err <==> parse_model(s@, false) is None,
            r is Err ==> r == Err::<Value, ParseError>(ParseError::InvalidValue),
            r is Ok ==> r.unwrap().wf() && parse_model(s@, false) == Some(r.unwrap()@),
            r is Ok ==> !r.unwrap()@.ints.contains_key(Seq::empty()),
    {
        match Value::parse_with(s, false) {
            Some(v) => Ok(v),
            None => Err(ParseError::InvalidValue),
        }
    }

    /// Parses a document, reading each value that is not a number as zero; never fails.
    pub fn parse_str_lossy(s: &str) -> (r: Result<Value, ParseError>)
        ensures
            r is Ok,
            parse_model(s@, true) is Some,
            r.unwrap().wf() && parse_model(s@, true) == Some(r.unwrap()@),
            !r.unwrap()@.ints.contains_key(Seq::empty()),
    {
        proof {
            lemma_lossy_total(entries_of(s@));
        }
        match Value::parse_with(s, true) {
            Some(v) => Ok(v),
            None => Err(ParseError::InvalidValue),
        }
    }
}

/// Lossy parsing of a list of entries always yields a record.
pub proof fn lemma_lossy_total(es: Seq<Seq<char>>)
    ensures
        apply_entries(es, true) is Some,
    decreases es.len(),
{
    if es.len() > 0 {
        lemma_lossy_total(es.drop_last());
    }
}

} // verus!

//! What holds of every document: how an entry lands in the record, and when parsing fails.
use vstd::prelude::*;
use crate::grammar::{
    all_digits, digits_value, first_of, free_of, i32_of, is_digit, is_float_literal, is_mantissa, is_sign,
    is_word, lemma_first_of, lemma_first_of_found, lemma_pieces_concat, lemma_pieces_free,
    lemma_pieces_len, pieces,
    unsigned_part,
};
use crate::record::{
    apply_entries, apply_entry, drop_unnamed_int, empty_model, entries_of, entry_parts,
    float_or_zero, float_texts, int_value, parse_model, ValueModel,
};
use crate::writer::{all_literals, writable};

verus! {

/// `pre` is empty or ends where an entry may begin.
pub open spec fn opens_entry(pre: Seq<char>) -> bool {
    pre.len() == 0 || pre.last() == '|' || pre.last() == '?'
}

/// `tail` is empty or a single separator.
pub open spec fn closes_entry(tail: Seq<char>) -> bool {
    tail.len() == 0 || tail == seq!['|'] || tail == seq!['?']
}

pub(crate) proof fn lemma_empty_entry(m: ValueModel, lossy: bool)
    ensures
        apply_entry(m, Seq::empty(), lossy) == Some(
            ValueModel { ints: m.ints.insert(Seq::empty(), 0), ..m },
        ),
        drop_unnamed_int(ValueModel { ints: m.ints.insert(Seq::empty(), 0), ..m })
            == drop_unnamed_int(m),
{
    let z = seq!['0'];
    assert(z.drop_last() =~= Seq::<char>::empty());
    reveal_with_fuel(digits_value, 2);
    assert(unsigned_part(z) == z);
    assert(digits_value(z) == 0);
    assert(i32_of(z) == Some(0i32));
    assert(m.ints.insert(Seq::empty(), 0).remove(Seq::empty()) =~= m.ints.remove(Seq::empty()));
}

/// The empty document gives the empty record, strictly or not.
pub proof fn lemma_empty_document(lossy: bool)
    ensures
        parse_model(Seq::empty(), lossy) == Some(empty_model()),
{
    let es = entries_of(Seq::empty());
    assert(es == seq![Seq::<char>::empty()]);
    assert(es.drop_last() =~= Seq::<Seq<char>>::empty());
    assert(es.last() == Seq::<char>::empty());
    assert(apply_entries(es.drop_last(), lossy) == Some(empty_model()));
    lemma_empty_entry(empty_model(), lossy);
    assert(empty_model().ints.remove(Seq::empty()) =~= empty_model().ints);
    assert(drop_unnamed_int(empty_model()) == empty_model());
}

/// The record just before the entry `e` of the document `pre + e + tail`, and what
/// parsing that document makes of it.
proof fn lemma_one_more_entry(pre: Seq<char>, e: Seq<char>, tail: Seq<char>, lossy: bool) -> (m0:
    ValueModel)
    requires
        opens_entry(pre),
        free_of(e, '|', '?'),
        closes_entry(tail),
        parse_model(pre, lossy) is Some,
    ensures
        parse_model(pre, lossy) == Some(drop_unnamed_int(m0)),
        parse_model(pre + e + tail, lossy) == match apply_entry(m0, e, lossy) {
            Some(r) => Some(drop_unnamed_int(r)),
            None => None::<ValueModel>,
        },
{
    let ee: Seq<Seq<char>> = Seq::empty();
    lemma_pieces_free(e, '|', '?');
    let et = e + tail;
    let tail_es = if tail.len() == 0 {
        ee
    } else {
        seq![Seq::<char>::empty()]
    };
    if tail.len() == 0 {
        assert(et =~= e);
    } else {
        assert(et =~= e.push(tail[0]) + Seq::<char>::empty());
        lemma_pieces_concat(e, tail[0], Seq::<char>::empty(), '|', '?');
    }
    assert(entries_of(et) == seq![e] + tail_es);
    let front: Seq<Seq<char>>;
    let m0: ValueModel;
    if pre.len() == 0 {
        front = ee;
        m0 = empty_model();
        assert(pre + e + tail =~= et);
        assert(pre =~= Seq::<char>::empty());
        assert(seq![Seq::<char>::empty()].drop_last() =~= ee);
        lemma_empty_entry(m0, lossy);
    } else {
        let p = pre.drop_last();
        let c = pre.last();
        front = entries_of(p);
        assert(pre + e + tail =~= p.push(c) + et);
        lemma_pieces_concat(p, c, et, '|', '?');
        assert(pre =~= p.push(c) + Seq::<char>::empty());
        lemma_pieces_concat(p, c, Seq::<char>::empty(), '|', '?');
        let es = entries_of(pre);
        assert(es.drop_last() =~= front);
        m0 = apply_entries(front, lossy).unwrap();
        lemma_empty_entry(m0, lossy);
    }
    assert(apply_entries(front, lossy) == Some(m0));
    let all = entries_of(pre + e + tail);
    assert(all == front + (seq![e] + tail_es));
    assert(front.push(e).drop_last() =~= front);
    assert(apply_entries(front.push(e), lossy) == apply_entry(m0, e, lossy));
    if tail.len() == 0 {
        assert(all =~= front.push(e));
    } else {
        assert(all.drop_last() =~= front.push(e));
        assert(all.last() == Seq::<char>::empty());
        match apply_entry(m0, e, lossy) {
            Some(r) => {
                lemma_empty_entry(r, lossy);
            },
            None => {},
        }
    }
    m0
}

/// How `name-t` splits when `name` holds no `#` or `-` and `t` no `#`.
pub(crate) proof fn lemma_scalar_parts(name: Seq<char>, t: Seq<char>)
    requires
        free_of(name, '#', '-'),
        free_of(t, '#', '#'),
    ensures
        entry_parts(name.push('-') + t) == (name, seq![t]),
{
    let e = name.push('-') + t;
    lemma_first_of(e, '#', '#', e.len() as int);
    lemma_first_of(e, '-', '-', name.len() as int);
    assert(e.take(name.len() as int) =~= name);
    assert(e.skip(name.len() as int + 1) =~= t);
}

/// An integer entry `name-t` at the end of a document sets `name` to the integer of `t`.
proof fn lemma_scalar_entry(
    pre: Seq<char>,
    name: Seq<char>,
    t: Seq<char>,
    tail: Seq<char>,
    lossy: bool,
)
    requires
        opens_entry(pre),
        closes_entry(tail),
        parse_model(pre, lossy) is Some,
        name.len() > 0,
        free_of(name, '#', '-'),
        free_of(name, '|', '?'),
        free_of(t, '#', '#'),
        free_of(t, '|', '?'),
        int_value(t, lossy) is Some,
    ensures
        parse_model(pre + name.push('-') + t + tail, lossy) is Some,
        parse_model(pre + name.push('-') + t + tail, lossy).unwrap().ints[name] == int_value(
            t,
            lossy,
        ).unwrap(),
        parse_model(pre + name.push('-') + t + tail, lossy).unwrap().ints.contains_key(name),
{
    let e = name.push('-') + t;
    assert(free_of(e, '|', '?')) by {
        assert forall|i: int| 0 <= i < e.len() implies #[trigger] e[i] != '|' && e[i] != '?' by {
            if i > name.len() {
                assert(e[i] == t[i - name.len() - 1]);
            } else if i < name.len() {
                assert(e[i] == name[i]);
            }
        }
    }
    lemma_scalar_parts(name, t);
    let m0 = lemma_one_more_entry(pre, e, tail, lossy);
    assert(pre + name.push('-') + t + tail == pre + e + tail) by {
        assert(pre + name.push('-') + t + tail =~= pre + e + tail);
    }
}

/// A valid integer entry `name-N` that ends a document puts `N` under `name` in the
/// integer table, strictly or not: `pre` is whatever came before it, and `tail` an
/// optional closing separator.
pub proof fn lemma_int_entry_read(
    pre: Seq<char>,
    name: Seq<char>,
    n: Seq<char>,
    tail: Seq<char>,
    lossy: bool,
)
    requires
        opens_entry(pre),
        closes_entry(tail),
        parse_model(pre, lossy) is Some,
        name.len() > 0,
        free_of(name, '#', '-'),
        free_of(name, '|', '?'),
        i32_of(n) is Some,
    ensures
        parse_model(pre + name.push('-') + n + tail, lossy) is Some,
        parse_model(pre + name.push('-') + n + tail, lossy).unwrap().ints.contains_key(name),
        parse_model(pre + name.push('-') + n + tail, lossy).unwrap().ints[name] == i32_of(
            n,
        ).unwrap(),
{
    lemma_integer_text_chars(n);
    lemma_scalar_entry(pre, name, n, tail, lossy);
}

/// Lossy parsing of an entry `name-t` whose `t` is no integer, at the end of a document,
/// puts `0` under `name` in the integer table.
pub proof fn lemma_lossy_bad_int_reads_zero(
    pre: Seq<char>,
    name: Seq<char>,
    t: Seq<char>,
    tail: Seq<char>,
)
    requires
        opens_entry(pre),
        closes_entry(tail),
        parse_model(pre, true) is Some,
        name.len() > 0,
        free_of(name, '#', '-'),
        free_of(name, '|', '?'),
        free_of(t, '#', '#'),
        free_of(t, '|', '?'),
        i32_of(t) is None,
    ensures
        parse_model(pre + name.push('-') + t + tail, true) is Some,
        parse_model(pre + name.push('-') + t + tail, true).unwrap().ints.contains_key(name),
        parse_model(pre + name.push('-') + t + tail, true).unwrap().ints[name] == 0,
{
    lemma_scalar_entry(pre, name, t, tail, true);
}

/// An integer text holds only a sign and digits, so no separator of the format.
proof fn lemma_integer_text_chars(n: Seq<char>)
    requires
        i32_of(n) is Some,
    ensures
        free_of(n, '#', '#'),
        free_of(n, '|', '?'),
        free_of(n, ',', ','),
{
    let t = unsigned_part(n);
    assert forall|i: int| 0 <= i < n.len() implies #[trigger] n[i] != '#' && n[i] != '|' && n[i]
        != '?' && n[i] != ',' by {
        if n.len() > 0 && is_sign(n[0]) {
            if i > 0 {
                assert(n[i] == t[i - 1]);
            }
        } else {
            assert(n[i] == t[i]);
        }
    }
}

/// A character that the format uses as a delimiter.
pub open spec fn is_delimiter(c: char) -> bool {
    c == '|' || c == '?' || c == '#' || c == ','
}

/// `s` holds no delimiter of the format.
pub open spec fn plain(s: Seq<char>) -> bool {
    forall|i: int| 0 <= i < s.len() ==> !is_delimiter(#[trigger] s[i])
}

proof fn lemma_plain_free(s: Seq<char>)
    requires
        plain(s),
    ensures
        free_of(s, '|', '?'),
        free_of(s, '#', '#'),
        free_of(s, ',', ','),
{
    assert forall|i: int| 0 <= i < s.len() implies #[trigger] s[i] != '|' && s[i] != '?' by {
        assert(!is_delimiter(s[i]));
    }
    assert forall|i: int| 0 <= i < s.len() implies #[trigger] s[i] != '#' by {
        assert(!is_delimiter(s[i]));
    }
    assert forall|i: int| 0 <= i < s.len() implies #[trigger] s[i] != ',' by {
        assert(!is_delimiter(s[i]));
    }
}

proof fn lemma_digits_plain(s: Seq<char>)
    requires
        all_digits(s),
    ensures
        plain(s),
{
    assert forall|i: int| 0 <= i < s.len() implies !is_delimiter(#[trigger] s[i]) by {
        assert(is_digit(s[i]));
    }
}

proof fn lemma_sign_plain(s: Seq<char>)
    requires
        plain(unsigned_part(s)),
    ensures
        plain(s),
{
    let t = unsigned_part(s);
    assert forall|i: int| 0 <= i < s.len() implies !is_delimiter(#[trigger] s[i]) by {
        if s.len() > 0 && is_sign(s[0]) {
            if i > 0 {
                assert(s[i] == t[i - 1]);
            }
        } else {
            assert(s[i] == t[i]);
        }
    }
}

/// `s` is `x`, then the character `c`, then `y`.
proof fn lemma_plain_around(s: Seq<char>, k: int, c: char)
    requires
        0 <= k < s.len(),
        s[k] == c,
        !is_delimiter(c),
        plain(s.take(k)),
        plain(s.skip(k + 1)),
    ensures
        plain(s),
{
    assert forall|i: int| 0 <= i < s.len() implies !is_delimiter(#[trigger] s[i]) by {
        if i < k {
            assert(s[i] == s.take(k)[i]);
        } else if i > k {
            assert(s[i] == s.skip(k + 1)[i - k - 1]);
        }
    }
}

proof fn lemma_word_plain(t: Seq<char>, lw: Seq<char>, uw: Seq<char>)
    requires
        is_word(t, lw, uw),
        plain(lw),
        plain(uw),
        lw.len() == uw.len(),
    ensures
        plain(t),
{
    assert forall|i: int| 0 <= i < t.len() implies !is_delimiter(#[trigger] t[i]) by {
        assert(t[i] == lw[i] || t[i] == uw[i]);
    }
}

/// A float literal holds no delimiter of the format.
proof fn lemma_float_literal_plain(s: Seq<char>)
    requires
        is_float_literal(s),
    ensures
        plain(s),
{
    let t = unsigned_part(s);
    let inf_l = seq!['i', 'n', 'f'];
    let inf_u = seq!['I', 'N', 'F'];
    let infy_l = seq!['i', 'n', 'f', 'i', 'n', 'i', 't', 'y'];
    let infy_u = seq!['I', 'N', 'F', 'I', 'N', 'I', 'T', 'Y'];
    let nan_l = seq!['n', 'a', 'n'];
    let nan_u = seq!['N', 'A', 'N'];
    if is_word(t, inf_l, inf_u) {
        assert(plain(inf_l) && plain(inf_u));
        lemma_word_plain(t, inf_l, inf_u);
    } else if is_word(t, infy_l, infy_u) {
        assert(plain(infy_l) && plain(infy_u));
        lemma_word_plain(t, infy_l, infy_u);
    } else if is_word(t, nan_l, nan_u) {
        assert(plain(nan_l) && plain(nan_u));
        lemma_word_plain(t, nan_l, nan_u);
    } else {
        let k = first_of(t, 'e', 'E');
        lemma_first_of_found(t, 'e', 'E');
        if k < t.len() {
            lemma_mantissa_plain(t.take(k));
            let x = t.skip(k + 1);
            lemma_digits_plain(unsigned_part(x));
            lemma_sign_plain(x);
            lemma_plain_around(t, k, t[k]);
        } else {
            assert(t.take(k) =~= t);
            lemma_mantissa_plain(t);
        }
    }
    lemma_sign_plain(s);
}

proof fn lemma_mantissa_plain(m: Seq<char>)
    requires
        is_mantissa(m),
    ensures
        plain(m),
{
    let d = first_of(m, '.', '.');
    lemma_first_of_found(m, '.', '.');
    if d < m.len() {
        lemma_digits_plain(m.take(d));
        lemma_digits_plain(m.skip(d + 1));
        lemma_plain_around(m, d, '.');
    } else {
        lemma_digits_plain(m);
    }
}

/// The texts of `vals`, with `c` between each two.
pub open spec fn joined(vals: Seq<Seq<char>>, c: char) -> Seq<char>
    decreases vals.len(),
{
    if vals.len() == 0 {
        Seq::empty()
    } else if vals.len() == 1 {
        vals[0]
    } else {
        joined(vals.drop_last(), c).push(c) + vals.last()
    }
}

/// Every text of `vals` holds no delimiter.
pub open spec fn all_plain(vals: Seq<Seq<char>>) -> bool {
    forall|i: int| 0 <= i < vals.len() ==> plain(#[trigger] vals[i])
}

proof fn lemma_joined(vals: Seq<Seq<char>>)
    requires
        vals.len() >= 1,
        all_plain(vals),
    ensures
        pieces(joined(vals, ','), ',', ',') == vals,
        free_of(joined(vals, ','), '|', '?'),
        free_of(joined(vals, ','), '#', '#'),
    decreases vals.len(),
{
    if vals.len() == 1 {
        lemma_plain_free(vals[0]);
        lemma_pieces_free(vals[0], ',', ',');
        assert(seq![vals[0]] =~= vals);
    } else {
        let d = vals.drop_last();
        let l = vals.last();
        assert(all_plain(d)) by {
            assert forall|i: int| 0 <= i < d.len() implies plain(#[trigger] d[i]) by {
                assert(d[i] == vals[i]);
            }
        }
        assert(plain(l));
        lemma_plain_free(l);
        lemma_joined(d);
        lemma_pieces_free(l, ',', ',');
        let x = joined(d, ',');
        lemma_pieces_concat(x, ',', l, ',', ',');
        assert(d + seq![l] =~= vals);
        let j = x.push(',') + l;
        assert forall|i: int| 0 <= i < j.len() implies #[trigger] j[i] != '|' && j[i] != '?'
            && j[i] != '#' by {
            if i < x.len() {
                assert(j[i] == x[i]);
            } else if i > x.len() {
                assert(j[i] == l[i - x.len() - 1]);
            }
        }
    }
}

/// How `name#` followed by comma-separated texts splits, when `name` holds no `#`.
pub(crate) proof fn lemma_array_parts(name: Seq<char>, vals: Seq<Seq<char>>)
    requires
        free_of(name, '#', '#'),
        free_of(name, '|', '?'),
        vals.len() >= 1,
        all_plain(vals),
    ensures
        entry_parts(name.push('#') + joined(vals, ',')) == (name, vals),
        free_of(name.push('#') + joined(vals, ','), '|', '?'),
{
    let j = joined(vals, ',');
    let e = name.push('#') + j;
    lemma_joined(vals);
    lemma_first_of(e, '#', '#', name.len() as int);
    assert(e.take(name.len() as int) =~= name);
    assert(e.skip(name.len() as int + 1) =~= j);
    assert forall|i: int| 0 <= i < e.len() implies #[trigger] e[i] != '|' && e[i] != '?' by {
        if i < name.len() {
            assert(e[i] == name[i]);
        } else if i > name.len() {
            assert(e[i] == j[i - name.len() - 1]);
        }
    }
}

pub(crate) proof fn lemma_literals_kept(vals: Seq<Seq<char>>, lossy: bool)
    requires
        forall|i: int| 0 <= i < vals.len() ==> is_float_literal(#[trigger] vals[i]),
    ensures
        float_texts(vals, lossy) == Some(vals),
        all_plain(vals),
{
    assert(vals.map_values(|t: Seq<char>| float_or_zero(t)) =~= vals);
    assert forall|i: int| 0 <= i < vals.len() implies plain(#[trigger] vals[i]) by {
        lemma_float_literal_plain(vals[i]);
    }
}

/// A triple entry `name#a,b,c` of float literals that ends a document puts `[a, b, c]`
/// under `name` in the triple table, strictly or not: `pre` is whatever came before it,
/// and `tail` an optional closing separator.
pub proof fn lemma_xyz_entry_read(
    pre: Seq<char>,
    name: Seq<char>,
    a: Seq<char>,
    b: Seq<char>,
    c: Seq<char>,
    tail: Seq<char>,
    lossy: bool,
)
    requires
        opens_entry(pre),
        closes_entry(tail),
        parse_model(pre, lossy) is Some,
        free_of(name, '#', '#'),
        free_of(name, '|', '?'),
        is_float_literal(a),
        is_float_literal(b),
        is_float_literal(c),
    ensures
        parse_model(pre + name.push('#') + joined(seq![a, b, c], ',') + tail, lossy) is Some,
        parse_model(pre + name.push('#') + joined(seq![a, b, c], ',') + tail, lossy).unwrap().xyz[name]
            == seq![a, b, c],
{
    let vals = seq![a, b, c];
    lemma_literals_kept(vals, lossy);
    lemma_array_parts(name, vals);
    let e = name.push('#') + joined(vals, ',');
    let m0 = lemma_one_more_entry(pre, e, tail, lossy);
    assert(pre + name.push('#') + joined(vals, ',') + tail =~= pre + e + tail);
}

/// A pair entry `name#a,b,c,d,f,g` of float literals that ends a document puts
/// `([a, b, c], [d, f, g])` under `name` in the pair table, strictly or not.
pub proof fn lemma_coord_entry_read(
    pre: Seq<char>,
    name: Seq<char>,
    vals: Seq<Seq<char>>,
    tail: Seq<char>,
    lossy: bool,
)
    requires
        opens_entry(pre),
        closes_entry(tail),
        parse_model(pre, lossy) is Some,
        free_of(name, '#', '#'),
        free_of(name, '|', '?'),
        vals.len() == 6,
        forall|i: int| 0 <= i < vals.len() ==> is_float_literal(#[trigger] vals[i]),
    ensures
        parse_model(pre + name.push('#') + joined(vals, ',') + tail, lossy) is Some,
        parse_model(pre + name.push('#') + joined(vals, ',') + tail, lossy).unwrap().coords[name]
            == (seq![vals[0], vals[1], vals[2]], seq![vals[3], vals[4], vals[5]]),
{
    lemma_literals_kept(vals, lossy);
    lemma_array_parts(name, vals);
    let e = name.push('#') + joined(vals, ',');
    let m0 = lemma_one_more_entry(pre, e, tail, lossy);
    assert(pre + name.push('#') + joined(vals, ',') + tail =~= pre + e + tail);
    assert(vals.take(3) =~= seq![vals[0], vals[1], vals[2]]);
    assert(vals.skip(3) =~= seq![vals[3], vals[4], vals[5]]);
}

/// An entry whose value count is other than one, three or six adds nothing to the
/// record, strictly or not.
pub proof fn lemma_other_counts_dropped(pre: Seq<char>, e: Seq<char>, tail: Seq<char>, lossy: bool)
    requires
        opens_entry(pre),
        closes_entry(tail),
        parse_model(pre, lossy) is Some,
        free_of(e, '|', '?'),
        entry_parts(e).1.len() != 1,
        entry_parts(e).1.len() != 3,
        entry_parts(e).1.len() != 6,
    ensures
        parse_model(pre + e + tail, lossy) == parse_model(pre, lossy),
{
    let m0 = lemma_one_more_entry(pre, e, tail, lossy);
}

/// An entry with a value that is not a number of the kind its value count calls for.
pub open spec fn has_bad_value(e: Seq<char>) -> bool {
    let vals = entry_parts(e).1;
    ||| vals.len() == 1 && i32_of(vals[0]) is None
    ||| (vals.len() == 3 || vals.len() == 6) && exists|i: int|
        0 <= i < vals.len() && !is_float_literal(#[trigger] vals[i])
}

/// Strict parsing fails on every document that has an entry with a bad value.
pub proof fn lemma_bad_value_fails(s: Seq<char>, i: int)
    requires
        0 <= i < entries_of(s).len(),
        has_bad_value(entries_of(s)[i]),
    ensures
        parse_model(s, false) is None,
{
    let es = entries_of(s);
    assert(es.take(i + 1).drop_last() =~= es.take(i));
    assert(es.take(i + 1).last() == es[i]);
    crate::record::lemma_failure_persists(es, i + 1, false);
}

/// Every name of `m` holds no `#`, `|` or `?`, and its float texts are literals,
/// three to a triple.
pub open spec fn names_ok(m: ValueModel) -> bool {
    &&& forall|k: Seq<char>| #[trigger]
        m.ints.contains_key(k) ==> free_of(k, '#', '#') && free_of(k, '|', '?')
    &&& forall|k: Seq<char>| #[trigger]
        m.xyz.contains_key(k) ==> free_of(k, '#', '#') && free_of(k, '|', '?') && m.xyz[k].len()
            == 3 && all_literals(m.xyz[k])
    &&& forall|k: Seq<char>| #[trigger]
        m.coords.contains_key(k) ==> free_of(k, '#', '#') && free_of(k, '|', '?')
            && m.coords[k].0.len() == 3 && m.coords[k].1.len() == 3 && all_literals(m.coords[k].0)
            && all_literals(m.coords[k].1)
}

proof fn lemma_zero_literal()
    ensures
        is_float_literal(seq!['0']),
{
    let z = seq!['0'];
    lemma_first_of(z, 'e', 'E', 1);
    lemma_first_of(z, '.', '.', 1);
    assert(unsigned_part(z) == z);
    assert(is_digit(z[0]));
}

proof fn lemma_float_texts_literals(vals: Seq<Seq<char>>, lossy: bool)
    requires
        float_texts(vals, lossy) is Some,
    ensures
        all_literals(float_texts(vals, lossy).unwrap()),
        float_texts(vals, lossy).unwrap().len() == vals.len(),
{
    lemma_zero_literal();
    let f = float_texts(vals, lossy).unwrap();
    assert forall|i: int| 0 <= i < f.len() implies is_float_literal(#[trigger] f[i]) by {
        assert(f[i] == float_or_zero(vals[i]));
    }
}

proof fn lemma_prefix_free(e: Seq<char>, k: int, a: char, b: char)
    requires
        0 <= k <= e.len(),
        forall|j: int| 0 <= j < k ==> #[trigger] e[j] != a && e[j] != b,
        free_of(e, '|', '?'),
    ensures
        free_of(e.take(k), a, b),
        free_of(e.take(k), '|', '?'),
{
    assert forall|j: int| 0 <= j < k implies #[trigger] e.take(k)[j] != a && e.take(k)[j] != b
        && e.take(k)[j] != '|' && e.take(k)[j] != '?' by {
        assert(e.take(k)[j] == e[j]);
    }
}

proof fn lemma_entry_names_ok(m: ValueModel, e: Seq<char>, lossy: bool)
    requires
        names_ok(m),
        free_of(e, '|', '?'),
        apply_entry(m, e, lossy) is Some,
    ensures
        names_ok(apply_entry(m, e, lossy).unwrap()),
{
    let h = first_of(e, '#', '#');
    let d = first_of(e, '-', '-');
    lemma_first_of_found(e, '#', '#');
    lemma_first_of_found(e, '-', '-');
    let (name, vals) = entry_parts(e);
    if h < e.len() {
        lemma_prefix_free(e, h, '#', '#');
    } else if d < e.len() {
        lemma_prefix_free(e, h, '#', '#');
        assert(e.take(h) =~= e);
        lemma_prefix_free(e, d, '#', '#');
    } else {
        lemma_prefix_free(e, h, '#', '#');
        assert(e.take(h) =~= e);
    }
    assert(free_of(name, '#', '#') && free_of(name, '|', '?'));
    if vals.len() == 3 || vals.len() == 6 {
        lemma_float_texts_literals(vals, lossy);
        let f = float_texts(vals, lossy).unwrap();
        if vals.len() == 6 {
            assert forall|i: int| 0 <= i < 3 implies is_float_literal(#[trigger] f.take(3)[i])
                && is_float_literal(f.skip(3)[i]) by {
                assert(f.take(3)[i] == f[i]);
                assert(f.skip(3)[i] == f[i + 3]);
            }
        }
    }
}

proof fn lemma_entries_names_ok(es: Seq<Seq<char>>, lossy: bool)
    requires
        forall|i: int| 0 <= i < es.len() ==> free_of(#[trigger] es[i], '|', '?'),
        apply_entries(es, lossy) is Some,
    ensures
        names_ok(apply_entries(es, lossy).unwrap()),
    decreases es.len(),
{
    if es.len() > 0 {
        let d = es.drop_last();
        assert forall|i: int| 0 <= i < d.len() implies free_of(#[trigger] d[i], '|', '?') by {
            assert(d[i] == es[i]);
        }
        lemma_entries_names_ok(d, lossy);
        lemma_entry_names_ok(apply_entries(d, lossy).unwrap(), es.last(), lossy);
    }
}

proof fn lemma_pieces_separator_free(s: Seq<char>, a: char, b: char)
    ensures
        forall|i: int|
            0 <= i < pieces(s, a, b).len() ==> free_of(#[trigger] pieces(s, a, b)[i], a, b),
    decreases s.len(),
{
    if s.len() > 0 {
        let p = pieces(s.drop_last(), a, b);
        lemma_pieces_separator_free(s.drop_last(), a, b);
        lemma_pieces_len(s.drop_last(), a, b);
        let c = s.last();
        if c == a || c == b {
            assert forall|i: int| 0 <= i < p.len() + 1 implies free_of(
                #[trigger] p.push(Seq::empty())[i],
                a,
                b,
            ) by {
                if i < p.len() {
                    assert(p.push(Seq::empty())[i] == p[i]);
                }
            }
        } else {
            let q = p.update(p.len() - 1, p.last().push(c));
            assert forall|i: int| 0 <= i < q.len() implies free_of(#[trigger] q[i], a, b) by {
                if i < p.len() - 1 {
                    assert(q[i] == p[i]);
                } else {
                    let w = p.last().push(c);
                    assert(free_of(p[p.len() - 1], a, b));
                    assert forall|j: int| 0 <= j < w.len() implies #[trigger] w[j] != a && w[j]
                        != b by {
                        if j < w.len() - 1 {
                            assert(w[j] == p[p.len() - 1][j]);
                        }
                    }
                }
            }
        }
    }
}

/// Whatever parsing yields can be written and read back unchanged: its names and float
/// texts all fit the entry format. The one exception is an integer name that holds a `-`
/// (read from an entry such as `a-b#5`): written as `a-b-5` it would split at its own `-`.
pub proof fn lemma_parse_output_writable(s: Seq<char>, lossy: bool)
    requires
        parse_model(s, lossy) is Some,
        forall|k: Seq<char>| #[trigger]
            parse_model(s, lossy).unwrap().ints.contains_key(k) ==> free_of(k, '-', '-'),
    ensures
        writable(parse_model(s, lossy).unwrap()),
{
    let es = entries_of(s);
    lemma_pieces_separator_free(s, '|', '?');
    lemma_entries_names_ok(es, lossy);
    let m = apply_entries(es, lossy).unwrap();
    let r = parse_model(s, lossy).unwrap();
    assert forall|k: Seq<char>| #[trigger] r.ints.contains_key(k) implies k.len() > 0 && free_of(
        k,
        '#',
        '-',
    ) && free_of(k, '|', '?') by {
        assert(m.ints.contains_key(k));
        assert(k != Seq::<char>::empty());
        if k.len() == 0 {
            assert(k =~= Seq::<char>::empty());
        }
        assert forall|j: int| 0 <= j < k.len() implies #[trigger] k[j] != '#' && k[j] != '-' by {
            assert(free_of(k, '-', '-'));
            assert(free_of(k, '#', '#'));
        }
    }
}

} // verus!

//! Writing a record back in the entry format.
use vstd::prelude::*;
use crate::grammar::{
    decimal_of, free_of, is_digit, is_float_literal, lemma_decimal_round_trip,
    lemma_pieces_concat, lemma_pieces_free, pieces,
};
use crate::laws::{
    joined, lemma_array_parts, lemma_empty_entry, lemma_literals_kept,
    lemma_scalar_parts,
};
use crate::record::{
    apply_entries, drop_unnamed_int, empty_model, entries_of, parse_model, Value,
    ValueModel,
};
use crate::table::map_of;

verus! {

/// The entries, each followed by `|`.
pub open spec fn terminated(es: Seq<Seq<char>>) -> Seq<char>
    decreases es.len(),
{
    if es.len() == 0 {
        Seq::empty()
    } else {
        terminated(es.drop_last()) + es.last().push('|')
    }
}

/// Every text of `ts` is a float literal.
pub open spec fn all_literals(ts: Seq<Seq<char>>) -> bool {
    forall|i: int| 0 <= i < ts.len() ==> is_float_literal(#[trigger] ts[i])
}

/// A record that the entry format can hold: integer names are non-empty and hold no
/// `#`, `-`, `|` or `?`; other names hold no `#`, `|` or `?`; every float text is a literal.
pub open spec fn writable(m: ValueModel) -> bool {
    &&& forall|k: Seq<char>| #[trigger]
        m.ints.contains_key(k) ==> k.len() > 0 && free_of(k, '#', '-') && free_of(k, '|', '?')
    &&& forall|k: Seq<char>| #[trigger]
        m.xyz.contains_key(k) ==> free_of(k, '#', '#') && free_of(k, '|', '?') && m.xyz[k].len()
            == 3 && all_literals(m.xyz[k])
    &&& forall|k: Seq<char>| #[trigger]
        m.coords.contains_key(k) ==> free_of(k, '#', '#') && free_of(k, '|', '?')
            && m.coords[k].0.len() == 3 && m.coords[k].1.len() == 3 && all_literals(m.coords[k].0)
            && all_literals(m.coords[k].1)
}

/// Relies on `<i32 as ToString>::to_string`, which writes the number through `Display`:
/// its decimal digits without leading zeros, after a `-` when it is negative.
#[verifier::external_body]
fn decimal_text(n: i32) -> (r: String)
    ensures
        r@ == decimal_of(n as int),
{
    n.to_string()
}

proof fn lemma_pieces_extend(x: Seq<char>, t: Seq<char>)
    requires
        free_of(t, '|', '?'),
    ensures
        pieces(x + t, '|', '?').len() == pieces(x, '|', '?').len(),
        x.len() > 0 && x.last() == '|' ==> pieces(x + t, '|', '?') == pieces(x, '|', '?').drop_last().push(t),
    decreases t.len(),
{
    if t.len() == 0 {
        assert(x + t =~= x);
        assert(t =~= Seq::<char>::empty());
        if x.len() > 0 && x.last() == '|' {
            let y = x.drop_last();
            assert(x =~= y.push('|') + Seq::<char>::empty());
            lemma_pieces_concat(y, '|', Seq::<char>::empty(), '|', '?');
            assert(pieces(x, '|', '?').drop_last().push(t) =~= pieces(x, '|', '?'));
        }
    } else {
        let t0 = t.drop_last();
        assert(free_of(t0, '|', '?')) by {
            assert forall|i: int| 0 <= i < t0.len() implies #[trigger] t0[i] != '|' && t0[i] != '?' by {
                assert(t0[i] == t[i]);
            }
        }
        assert(t[t.len() - 1] != '|' && t[t.len() - 1] != '?');
        lemma_pieces_extend(x, t0);
        assert((x + t).drop_last() =~= x + t0);
        crate::grammar::lemma_pieces_len(x + t0, '|', '?');
        if x.len() > 0 && x.last() == '|' {
            let p = pieces(x, '|', '?').drop_last();
            assert(pieces(x + t0, '|', '?') == p.push(t0));
            assert(t0.push(t.last()) =~= t);
            assert((x + t).last() == t.last());
            assert(p.push(t0).last() == t0);
            assert(p.push(t0).update(p.len() as int, t0.push(t.last())) =~= p.push(t));
        }
    }
}

/// The entries of a written document are the written entries and a last empty one.
proof fn lemma_terminated(es: Seq<Seq<char>>)
    requires
        forall|i: int| 0 <= i < es.len() ==> free_of(#[trigger] es[i], '|', '?'),
    ensures
        entries_of(terminated(es)) == es.push(Seq::empty()),
        es.len() > 0 ==> terminated(es).len() > 0 && terminated(es).last() == '|',
    decreases es.len(),
{
    if es.len() > 0 {
        let d = es.drop_last();
        let l = es.last();
        assert(free_of(l, '|', '?'));
        assert forall|i: int| 0 <= i < d.len() implies free_of(#[trigger] d[i], '|', '?') by {
            assert(d[i] == es[i]);
        }
        lemma_terminated(d);
        let x = terminated(d);
        assert(terminated(es) =~= (x + l).push('|') + Seq::<char>::empty());
        lemma_pieces_concat(x + l, '|', Seq::<char>::empty(), '|', '?');
        if d.len() == 0 {
            assert(x + l =~= l);
            lemma_pieces_free(l, '|', '?');
        } else {
            lemma_pieces_extend(x, l);
        }
        assert(pieces(x + l, '|', '?') + pieces(Seq::<char>::empty(), '|', '?') =~= es.push(
            Seq::empty(),
        ));
    } else {
        assert(terminated(es) =~= Seq::<char>::empty());
    }
}

proof fn lemma_joined_concat(a: Seq<Seq<char>>, b: Seq<Seq<char>>)
    requires
        a.len() >= 1,
        b.len() >= 1,
    ensures
        joined(a + b, ',') == joined(a, ',').push(',') + joined(b, ','),
    decreases b.len(),
{
    assert((a + b).drop_last() =~= a + b.drop_last());
    assert((a + b).last() == b.last());
    if b.len() == 1 {
        assert(a + b.drop_last() =~= a);
    } else {
        lemma_joined_concat(a, b.drop_last());
        assert((joined(a, ',').push(',') + joined(b.drop_last(), ',')).push(',') + b.last()
            =~= joined(a, ',').push(',') + (joined(b.drop_last(), ',').push(',') + b.last()));
    }
}

/// Appends the texts of `vals`, separated by commas, to `out`.
fn append_joined(out: &mut String, vals: &[String])
    requires
        vals@.len() >= 1,
    ensures
        final(out)@ == old(out)@ + joined(vals.deep_view(), ','),
{
    let ghost start = out@;
    let ghost dv = vals.deep_view();
    out.append(vals[0].as_str());
    proof {
        assert(dv.take(1) =~= seq![vals@[0]@]);
    }
    let mut k: usize = 1;
    while k < vals.len()
        invariant
            1 <= k <= vals@.len(),
            dv == vals.deep_view(),
            out@ == start + joined(dv.take(k as int), ','),
        decreases vals@.len() - k,
    {
        proof {
            reveal_strlit(",");
        }
        out.append(",");
        out.append(vals[k].as_str());
        proof {
            assert(dv.take(k + 1).drop_last() =~= dv.take(k as int));
            assert(dv.take(k + 1).last() == vals@[k as int]@);
            assert(start + joined(dv.take(k as int), ',') + ","@ + vals@[k as int]@ =~= start + (
            joined(dv.take(k as int), ',').push(',') + vals@[k as int]@));
        }
        k += 1;
    }
    assert(dv.take(k as int) =~= dv);
}

/// The entry that writes an integer pair: `name-digits`.
pub open spec fn int_text(p: (String, i32)) -> Seq<char> {
    p.0@.push('-') + decimal_of(p.1 as int)
}

/// The entry that writes a triple: `name#a,b,c`.
pub open spec fn xyz_text(p: (String, [String; 3])) -> Seq<char> {
    p.0@.push('#') + joined(p.1.deep_view(), ',')
}

/// The entry that writes a pair of triples: `name#a,b,c,d,e,f`.
pub open spec fn coord_text(p: (String, ([String; 3], [String; 3]))) -> Seq<char> {
    p.0@.push('#') + joined(p.1.0.deep_view() + p.1.1.deep_view(), ',')
}

/// The entries that write the integers of `v`, in table order.
pub open spec fn int_texts(v: &Value) -> Seq<Seq<char>> {
    v.int_keys.pairs().map_values(|p: (String, i32)| int_text(p))
}

/// The entries that write the triples of `v`, in table order.
pub open spec fn xyz_texts(v: &Value) -> Seq<Seq<char>> {
    v.xyz_keys.pairs().map_values(|p: (String, [String; 3])| xyz_text(p))
}

/// The entries that write the pairs of triples of `v`, in table order.
pub open spec fn coord_texts(v: &Value) -> Seq<Seq<char>> {
    v.coord_keys.pairs().map_values(|p: (String, ([String; 3], [String; 3]))| coord_text(p))
}

/// The entries that write `v`: its integers, then its triples, then its pairs of triples,
/// each table in its own order.
pub open spec fn entry_texts(v: &Value) -> Seq<Seq<char>> {
    int_texts(v) + xyz_texts(v) + coord_texts(v)
}

proof fn lemma_int_step(v: &Value, i: int, es: Seq<Seq<char>>, m: ValueModel, l: bool)
    requires
        v.wf(),
        writable(v@),
        0 <= i < v.int_keys.pairs().len(),
        apply_entries(es, l) == Some(m),
    ensures
        apply_entries(es.push(int_text(v.int_keys.pairs()[i])), l) == Some(
            ValueModel {
                ints: m.ints.insert(v.int_keys.pairs()[i].0@, v.int_keys.pairs()[i].1),
                ..m
            },
        ),
        free_of(int_text(v.int_keys.pairs()[i]), '|', '?'),
{
    let p = v.int_keys.pairs()[i];
    v.int_keys.lemma_pairs();
    assert(v@.ints.contains_key(p.0@));
    let name = p.0@;
    let d = decimal_of(p.1 as int);
    lemma_decimal_round_trip(p.1);
    assert forall|j: int| 0 <= j < d.len() implies #[trigger] d[j] != '#' && d[j] != '|' && d[j]
        != '?' by {
        assert(is_digit(d[j]) || d[j] == '-');
    }
    lemma_scalar_parts(name, d);
    let e = int_text(p);
    assert(es.push(e).drop_last() =~= es);
    assert forall|j: int| 0 <= j < e.len() implies #[trigger] e[j] != '|' && e[j] != '?' by {
        if j < name.len() {
            assert(e[j] == name[j]);
        } else if j > name.len() {
            assert(e[j] == d[j - name.len() - 1]);
        }
    }
}

proof fn lemma_xyz_step(v: &Value, i: int, es: Seq<Seq<char>>, m: ValueModel, l: bool)
    requires
        v.wf(),
        writable(v@),
        0 <= i < v.xyz_keys.pairs().len(),
        apply_entries(es, l) == Some(m),
    ensures
        apply_entries(es.push(xyz_text(v.xyz_keys.pairs()[i])), l) == Some(
            ValueModel {
                xyz: m.xyz.insert(
                    v.xyz_keys.pairs()[i].0@,
                    v.xyz_keys.pairs()[i].1.deep_view(),
                ),
                ..m
            },
        ),
        free_of(xyz_text(v.xyz_keys.pairs()[i]), '|', '?'),
{
    let p = v.xyz_keys.pairs()[i];
    v.xyz_keys.lemma_pairs();
    assert(v@.xyz.contains_key(p.0@));
    let vals = p.1.deep_view();
    lemma_literals_kept(vals, l);
    lemma_array_parts(p.0@, vals);
    assert(es.push(xyz_text(p)).drop_last() =~= es);
}

proof fn lemma_coord_step(v: &Value, i: int, es: Seq<Seq<char>>, m: ValueModel, l: bool)
    requires
        v.wf(),
        writable(v@),
        0 <= i < v.coord_keys.pairs().len(),
        apply_entries(es, l) == Some(m),
    ensures
        apply_entries(es.push(coord_text(v.coord_keys.pairs()[i])), l) == Some(
            ValueModel {
                coords: m.coords.insert(
                    v.coord_keys.pairs()[i].0@,
                    v.coord_keys.pairs()[i].1.deep_view(),
                ),
                ..m
            },
        ),
        free_of(coord_text(v.coord_keys.pairs()[i]), '|', '?'),
{
    let p = v.coord_keys.pairs()[i];
    v.coord_keys.lemma_pairs();
    assert(v@.coords.contains_key(p.0@));
    let a = p.1.0.deep_view();
    let b = p.1.1.deep_view();
    let vals = a + b;
    assert forall|j: int| 0 <= j < vals.len() implies is_float_literal(#[trigger] vals[j]) by {
        if j < 3 {
            assert(vals[j] == a[j]);
        } else {
            assert(vals[j] == b[j - 3]);
        }
    }
    lemma_literals_kept(vals, l);
    lemma_array_parts(p.0@, vals);
    assert(vals.take(3) =~= a);
    assert(vals.skip(3) =~= b);
    assert(es.push(coord_text(p)).drop_last() =~= es);
}

proof fn lemma_table_step<V: DeepView>(t: Seq<(String, V)>, i: int)
    requires
        0 <= i < t.len(),
    ensures
        map_of(t.take(i + 1)) == map_of(t.take(i)).insert(t[i].0@, t[i].1.deep_view()),
{
    assert(t.take(i + 1).drop_last() =~= t.take(i));
}

/// Every text of `es` holds no `|` or `?`.
pub open spec fn all_entries_free(es: Seq<Seq<char>>) -> bool {
    forall|j: int| 0 <= j < es.len() ==> free_of(#[trigger] es[j], '|', '?')
}

proof fn lemma_push_entry(es: Seq<Seq<char>>, e: Seq<char>)
    requires
        all_entries_free(es),
        free_of(e, '|', '?'),
    ensures
        all_entries_free(es.push(e)),
        terminated(es.push(e)) == terminated(es) + e.push('|'),
{
    assert forall|j: int| 0 <= j < es.len() + 1 implies free_of(#[trigger] es.push(e)[j], '|', '?') by {
        if j < es.len() {
            assert(es.push(e)[j] == es[j]);
        }
    }
    assert(es.push(e).drop_last() =~= es);
}

impl Value {
    fn write_ints(&self, out: &mut String, Ghost(es0): Ghost<Seq<Seq<char>>>)
        requires
            self.wf(),
            old(out)@ == terminated(es0),
            writable(self@) ==> all_entries_free(es0),
            writable(self@) ==> forall|l: bool| #[trigger]
                apply_entries(es0, l) == Some(empty_model()),
        ensures
            final(out)@ == terminated(es0 + int_texts(self)),
            writable(self@) ==> all_entries_free(es0 + int_texts(self)),
            writable(self@) ==> forall|l: bool| #[trigger]
                apply_entries(es0 + int_texts(self), l) == Some(
                    ValueModel { ints: self.int_keys@, ..empty_model() },
                ),
    {
        let ghost ip = self.int_keys.pairs();
        let ghost texts = int_texts(self);
        let ghost ok = writable(self@);
        let ghost mut es = es0;
        proof {
            reveal_strlit("-");
            reveal_strlit("|");
            assert(ip.take(0) =~= Seq::<(String, i32)>::empty());
            assert(es0 + texts.take(0) =~= es0);
        }
        let n = self.int_keys.len();
        let mut i: usize = 0;
        while i < n
            invariant
                self.wf(),
                n == ip.len(),
                ip == self.int_keys.pairs(),
                texts == int_texts(self),
                ok == writable(self@),
                i <= n,
                es == es0 + texts.take(i as int),
                out@ == terminated(es),
                ok ==> all_entries_free(es),
                ok ==> forall|l: bool| #[trigger]
                    apply_entries(es, l) == Some(
                        ValueModel { ints: map_of(ip.take(i as int)), ..empty_model() },
                    ),
            decreases n - i,
        {
            proof {
                reveal_strlit("-");
                reveal_strlit("|");
            }
            let p = self.int_keys.pair_at(i);
            let mut e = p.0.clone();
            e.append("-");
            let d = decimal_text(p.1);
            e.append(d.as_str());
            out.append(e.as_str());
            out.append("|");
            proof {
                assert(e@ =~= int_text(ip[i as int]));
                assert(es0 + texts.take(i + 1) =~= es.push(e@));
                if ok {
                    assert forall|l: bool| #[trigger]
                        apply_entries(es.push(e@), l) == Some(
                            ValueModel { ints: map_of(ip.take(i + 1)), ..empty_model() },
                        ) by {
                        lemma_int_step(self, i as int, es, apply_entries(es, l).unwrap(), l);
                        lemma_table_step(ip, i as int);
                    }
                    lemma_int_step(self, i as int, es, apply_entries(es, false).unwrap(), false);
                    lemma_push_entry(es, e@);
                } else {
                    assert(es.push(e@).drop_last() =~= es);
                }
                assert(out@ =~= terminated(es) + e@.push('|'));
                es = es.push(e@);
            }
            i += 1;
        }
        proof {
            assert(ip.take(n as int) =~= ip);
            assert(texts.take(n as int) =~= texts);
        }
    }

    fn write_xyz(&self, out: &mut String, Ghost(es0): Ghost<Seq<Seq<char>>>)
        requires
            self.wf(),
            old(out)@ == terminated(es0),
            writable(self@) ==> all_entries_free(es0),
            writable(self@) ==> forall|l: bool| #[trigger]
                apply_entries(es0, l) == Some(
                    ValueModel { ints: self.int_keys@, ..empty_model() },
                ),
        ensures
            final(out)@ == terminated(es0 + xyz_texts(self)),
            writable(self@) ==> all_entries_free(es0 + xyz_texts(self)),
            writable(self@) ==> forall|l: bool| #[trigger]
                apply_entries(es0 + xyz_texts(self), l) == Some(
                    ValueModel { ints: self.int_keys@, xyz: self.xyz_keys@, ..empty_model() },
                ),
    {
        let ghost xp = self.xyz_keys.pairs();
        let ghost texts = xyz_texts(self);
        let ghost ok = writable(self@);
        let ghost mut es = es0;
        proof {
            assert(xp.take(0) =~= Seq::<(String, [String; 3])>::empty());
            assert(es0 + texts.take(0) =~= es0);
        }
        let n = self.xyz_keys.len();
        let mut i: usize = 0;
        while i < n
            invariant
                self.wf(),
                n == xp.len(),
                xp == self.xyz_keys.pairs(),
                texts == xyz_texts(self),
                ok == writable(self@),
                i <= n,
                es == es0 + texts.take(i as int),
                out@ == terminated(es),
                ok ==> all_entries_free(es),
                ok ==> forall|l: bool| #[trigger]
                    apply_entries(es, l) == Some(
                        ValueModel {
                            ints: self.int_keys@,
                            xyz: map_of(xp.take(i as int)),
                            ..empty_model()
                        },
                    ),
            decreases n - i,
        {
            proof {
                reveal_strlit("#");
                reveal_strlit("|");
            }
            let p = self.xyz_keys.pair_at(i);
            let mut e = p.0.clone();
            e.append("#");
            append_joined(&mut e, &p.1);
            out.append(e.as_str());
            out.append("|");
            proof {
                assert(e@ =~= xyz_text(xp[i as int]));
                assert(es0 + texts.take(i + 1) =~= es.push(e@));
                if ok {
                    assert forall|l: bool| #[trigger]
                        apply_entries(es.push(e@), l) == Some(
                            ValueModel {
                                ints: self.int_keys@,
                                xyz: map_of(xp.take(i + 1)),
                                ..empty_model()
                            },
                        ) by {
                        lemma_xyz_step(self, i as int, es, apply_entries(es, l).unwrap(), l);
                        lemma_table_step(xp, i as int);
                    }
                    lemma_xyz_step(self, i as int, es, apply_entries(es, false).unwrap(), false);
                    lemma_push_entry(es, e@);
                } else {
                    assert(es.push(e@).drop_last() =~= es);
                }
                assert(out@ =~= terminated(es) + e@.push('|'));
                es = es.push(e@);
            }
            i += 1;
        }
        proof {
            assert(xp.take(n as int) =~= xp);
            assert(texts.take(n as int) =~= texts);
        }
    }

    fn write_coords(&self, out: &mut String, Ghost(es0): Ghost<Seq<Seq<char>>>)
        requires
            self.wf(),
            old(out)@ == terminated(es0),
            writable(self@) ==> all_entries_free(es0),
            writable(self@) ==> forall|l: bool| #[trigger]
                apply_entries(es0, l) == Some(
                    ValueModel { ints: self.int_keys@, xyz: self.xyz_keys@, ..empty_model() },
                ),
        ensures
            final(out)@ == terminated(es0 + coord_texts(self)),
            writable(self@) ==> all_entries_free(es0 + coord_texts(self)),
            writable(self@) ==> forall|l: bool| #[trigger]
                apply_entries(es0 + coord_texts(self), l) == Some(self@),
    {
        let ghost cp = self.coord_keys.pairs();
        let ghost texts = coord_texts(self);
        let ghost ok = writable(self@);
        let ghost mut es = es0;
        proof {
            assert(cp.take(0) =~= Seq::<(String, ([String; 3], [String; 3]))>::empty());
            assert(es0 + texts.take(0) =~= es0);
        }
        let n = self.coord_keys.len();
        let mut i: usize = 0;
        while i < n
            invariant
                self.wf(),
                n == cp.len(),
                cp == self.coord_keys.pairs(),
                texts == coord_texts(self),
                ok == writable(self@),
                i <= n,
                es == es0 + texts.take(i as int),
                out@ == terminated(es),
                ok ==> all_entries_free(es),
                ok ==> forall|l: bool| #[trigger]
                    apply_entries(es, l) == Some(
                        ValueModel {
                            ints: self.int_keys@,
                            xyz: self.xyz_keys@,
                            coords: map_of(cp.take(i as int)),
                        },
                    ),
            decreases n - i,
        {
            proof {
                reveal_strlit("#");
                reveal_strlit(",");
                reveal_strlit("|");
            }
            let p = self.coord_keys.pair_at(i);
            let mut e = p.0.clone();
            e.append("#");
            append_joined(&mut e, &p.1.0);
            e.append(",");
            append_joined(&mut e, &p.1.1);
            out.append(e.as_str());
            out.append("|");
            proof {
                lemma_joined_concat(p.1.0.deep_view(), p.1.1.deep_view());
                assert(e@ =~= coord_text(cp[i as int]));
                assert(es0 + texts.take(i + 1) =~= es.push(e@));
                if ok {
                    assert forall|l: bool| #[trigger]
                        apply_entries(es.push(e@), l) == Some(
                            ValueModel {
                                ints: self.int_keys@,
                                xyz: self.xyz_keys@,
                                coords: map_of(cp.take(i + 1)),
                            },
                        ) by {
                        lemma_coord_step(self, i as int, es, apply_entries(es, l).unwrap(), l);
                        lemma_table_step(cp, i as int);
                    }
                    lemma_coord_step(self, i as int, es, apply_entries(es, false).unwrap(), false);
                    lemma_push_entry(es, e@);
                } else {
                    assert(es.push(e@).drop_last() =~= es);
                }
                assert(out@ =~= terminated(es) + e@.push('|'));
                es = es.push(e@);
            }
            i += 1;
        }
        proof {
            assert(cp.take(n as int) =~= cp);
            assert(texts.take(n as int) =~= texts);
        }
    }

    /// Writes the record in the entry format, one entry per name, each followed by `|`.
    /// Parsing the text again, strictly or not, gives back the same record wherever the
    /// format can hold it.
    pub fn to_entries_string(&self) -> (r: String)
        requires
            self.wf(),
        ensures
            r@ == terminated(entry_texts(self)),
            writable(self@) ==> parse_model(r@, false) == Some(self@),
            writable(self@) ==> parse_model(r@, true) == Some(self@),
    {
        let mut out = String::new();
        let ghost e0: Seq<Seq<char>> = Seq::empty();
        proof {
            assert(terminated(e0) =~= out@);
        }
        self.write_ints(&mut out, Ghost(e0));
        let ghost e1 = e0 + int_texts(self);
        self.write_xyz(&mut out, Ghost(e1));
        let ghost e2 = e1 + xyz_texts(self);
        self.write_coords(&mut out, Ghost(e2));
        let ghost e3 = e2 + coord_texts(self);
        proof {
            assert(e3 =~= entry_texts(self));
            if writable(self@) {
                let m = self@;
                assert(apply_entries(e3, false) == Some(m));
                assert(apply_entries(e3, true) == Some(m));
                lemma_terminated(e3);
                assert(e3.push(Seq::empty()).drop_last() =~= e3);
                lemma_empty_entry(m, false);
                lemma_empty_entry(m, true);
                assert(m.ints.remove(Seq::empty()) =~= m.ints);
                assert(drop_unnamed_int(m) == m);
            }
        }
        out
    }
}

} // verus!
//! The lexical rules of the format: splitting, and the integer and float literals.
use vstd::prelude::*;

verus! {

/// Position of the first character of `s` that is `a` or `b`; `s.len()` if there is none.
pub open spec fn first_of(s: Seq<char>, a: char, b: char) -> int
    decreases s.len(),
{
    if s.len() == 0 {
        0
    } else if s[0] == a || s[0] == b {
        0
    } else {
        1 + first_of(s.drop_first(), a, b)
    }
}

/// The runs of `s` between separators `a` or `b`, in order; empty runs included.
pub open spec fn pieces(s: Seq<char>, a: char, b: char) -> Seq<Seq<char>>
    decreases s.len(),
{
    if s.len() == 0 {
        seq![Seq::empty()]
    } else {
        let p = pieces(s.drop_last(), a, b);
        let c = s.last();
        if c == a || c == b {
            p.push(Seq::empty())
        } else {
            p.update(p.len() - 1, p.last().push(c))
        }
    }
}

/// An ASCII decimal digit.
pub open spec fn is_digit(c: char) -> bool {
    '0' <= c && c <= '9'
}

/// Every character of `s` is a decimal digit.
pub open spec fn all_digits(s: Seq<char>) -> bool {
    forall|i: int| 0 <= i < s.len() ==> is_digit(#[trigger] s[i])
}

/// A leading sign of a number.
pub open spec fn is_sign(c: char) -> bool {
    c == '+' || c == '-'
}

/// `s` without its leading sign, if it has one.
pub open spec fn unsigned_part(s: Seq<char>) -> Seq<char> {
    if s.len() > 0 && is_sign(s[0]) {
        s.drop_first()
    } else {
        s
    }
}

/// The value of a string of decimal digits.
pub open spec fn digits_value(s: Seq<char>) -> int
    decreases s.len(),
{
    if s.len() == 0 {
        0
    } else {
        digits_value(s.drop_last()) * 10 + (s.last() as int - '0' as int)
    }
}

/// The integer that `s` denotes: an optional sign and at least one decimal digit,
/// with a value that fits in `i32`.
pub open spec fn i32_of(s: Seq<char>) -> Option<i32> {
    let t = unsigned_part(s);
    let v = if s.len() > 0 && s[0] == '-' {
        -digits_value(t)
    } else {
        digits_value(t)
    };
    if t.len() > 0 && all_digits(t) && i32::MIN <= v <= i32::MAX {
        Some(v as i32)
    } else {
        None
    }
}

/// `s` spells the word whose lower-case letters are `lw` and upper-case letters `uw`,
/// each letter in either case.
pub open spec fn is_word(s: Seq<char>, lw: Seq<char>, uw: Seq<char>) -> bool {
    s.len() == lw.len() && forall|i: int|
        0 <= i < s.len() ==> #[trigger] s[i] == lw[i] || s[i] == uw[i]
}

/// Digits with at most one decimal point and at least one digit.
pub open spec fn is_mantissa(m: Seq<char>) -> bool {
    let d = first_of(m, '.', '.');
    if d < m.len() {
        m.len() >= 2 && all_digits(m.take(d)) && all_digits(m.skip(d + 1))
    } else {
        m.len() >= 1 && all_digits(m)
    }
}

/// The digits of an exponent after its `e`: an optional sign and at least one digit.
pub open spec fn is_exponent(x: Seq<char>) -> bool {
    unsigned_part(x).len() >= 1 && all_digits(unsigned_part(x))
}

/// A mantissa, then optionally `e` or `E` and an exponent.
pub open spec fn is_decimal(n: Seq<char>) -> bool {
    let k = first_of(n, 'e', 'E');
    if k < n.len() {
        is_mantissa(n.take(k)) && is_exponent(n.skip(k + 1))
    } else {
        is_mantissa(n)
    }
}

/// A literal that `f32` parsing accepts: an optional sign, then `inf`, `infinity`
/// or `nan` in any case, or a decimal number with an optional exponent.
pub open spec fn is_float_literal(s: Seq<char>) -> bool {
    let t = unsigned_part(s);
    ||| is_word(t, seq!['i', 'n', 'f'], seq!['I', 'N', 'F'])
    ||| is_word(
        t,
        seq!['i', 'n', 'f', 'i', 'n', 'i', 't', 'y'],
        seq!['I', 'N', 'F', 'I', 'N', 'I', 'T', 'Y'],
    )
    ||| is_word(t, seq!['n', 'a', 'n'], seq!['N', 'A', 'N'])
    ||| is_decimal(t)
}

/// The decimal digit of `d`, for `0 <= d < 10`.
pub open spec fn digit_char(d: int) -> char {
    seq!['0', '1', '2', '3', '4', '5', '6', '7', '8', '9'][d]
}

/// The decimal digits of `k`, without leading zeros.
pub open spec fn digits_of(k: nat) -> Seq<char>
    decreases k,
{
    if k < 10 {
        seq![digit_char(k as int)]
    } else {
        digits_of(k / 10).push(digit_char((k % 10) as int))
    }
}

/// The decimal text of `n`: a `-` for a negative number, then its digits.
pub open spec fn decimal_of(n: int) -> Seq<char> {
    if n < 0 {
        seq!['-'] + digits_of((-n) as nat)
    } else {
        digits_of(n as nat)
    }
}

proof fn lemma_digit_char(d: int)
    requires
        0 <= d < 10,
    ensures
        is_digit(digit_char(d)),
        digit_char(d) as int - '0' as int == d,
{
    let ds = seq!['0', '1', '2', '3', '4', '5', '6', '7', '8', '9'];
    if d == 0 {
        assert(ds[0] == '0');
    } else if d == 1 {
        assert(ds[1] == '1');
    } else if d == 2 {
        assert(ds[2] == '2');
    } else if d == 3 {
        assert(ds[3] == '3');
    } else if d == 4 {
        assert(ds[4] == '4');
    } else if d == 5 {
        assert(ds[5] == '5');
    } else if d == 6 {
        assert(ds[6] == '6');
    } else if d == 7 {
        assert(ds[7] == '7');
    } else if d == 8 {
        assert(ds[8] == '8');
    } else {
        assert(ds[9] == '9');
    }
}

proof fn lemma_digits_of(k: nat)
    ensures
        digits_of(k).len() >= 1,
        all_digits(digits_of(k)),
        digits_value(digits_of(k)) == k,
    decreases k,
{
    if k < 10 {
        lemma_digit_char(k as int);
        assert(digits_of(k).drop_last() =~= Seq::<char>::empty());
        assert(digits_value(Seq::<char>::empty()) == 0);
    } else {
        lemma_digits_of(k / 10);
        lemma_digit_char((k % 10) as int);
        let p = digits_of(k / 10);
        assert(digits_of(k).drop_last() =~= p);
        assert(k == (k / 10) * 10 + k % 10);
        assert(digits_value(digits_of(k)) == digits_value(p) * 10 + (k % 10));
        assert forall|i: int| 0 <= i < digits_of(k).len() implies is_digit(
            #[trigger] digits_of(k)[i],
        ) by {
            if i < p.len() {
                assert(digits_of(k)[i] == p[i]);
            }
        }
    }
}

/// Reading back the decimal text of an `i32` gives the number.
pub proof fn lemma_decimal_round_trip(n: i32)
    ensures
        i32_of(decimal_of(n as int)) == Some(n),
        all_digits(unsigned_part(decimal_of(n as int))),
        forall|i: int|
            0 <= i < decimal_of(n as int).len() ==> is_digit(#[trigger] decimal_of(n as int)[i])
                || decimal_of(n as int)[i] == '-',
{
    let s = decimal_of(n as int);
    if n < 0 {
        let k = (-n) as nat;
        lemma_digits_of(k);
        assert(s.drop_first() =~= digits_of(k));
        assert forall|i: int| 0 <= i < s.len() implies is_digit(#[trigger] s[i]) || s[i] == '-' by {
            if i > 0 {
                assert(s[i] == digits_of(k)[i - 1]);
            }
        }
    } else {
        lemma_digits_of(n as nat);
        lemma_digit_char(0);
        let d = digits_of(n as nat);
        assert(is_digit(d[0]));
    }
}

/// A position with no `a` or `b` before it, and one of them or the end at it, is `first_of`.
pub proof fn lemma_first_of(s: Seq<char>, a: char, b: char, i: int)
    requires
        0 <= i <= s.len(),
        forall|j: int| 0 <= j < i ==> s[j] != a && s[j] != b,
        i == s.len() || s[i] == a || s[i] == b,
    ensures
        first_of(s, a, b) == i,
    decreases s.len(),
{
    if s.len() > 0 && i > 0 {
        let t = s.drop_first();
        assert forall|j: int| 0 <= j < i - 1 implies t[j] != a && t[j] != b by {
            assert(t[j] == s[j + 1]);
        }
        if i < s.len() {
            assert(t[i - 1] == s[i]);
        }
        lemma_first_of(t, a, b, i - 1);
    }
}

/// `first_of` is in range, finds `a` or `b` when below the end, and passes over neither.
pub proof fn lemma_first_of_found(s: Seq<char>, a: char, b: char)
    ensures
        0 <= first_of(s, a, b) <= s.len(),
        first_of(s, a, b) < s.len() ==> s[first_of(s, a, b)] == a || s[first_of(s, a, b)] == b,
        forall|j: int| 0 <= j < first_of(s, a, b) ==> #[trigger] s[j] != a && s[j] != b,
    decreases s.len(),
{
    if s.len() > 0 && s[0] != a && s[0] != b {
        let t = s.drop_first();
        lemma_first_of_found(t, a, b);
        assert forall|j: int| 0 <= j < first_of(s, a, b) implies #[trigger] s[j] != a && s[j]
            != b by {
            if j > 0 {
                assert(s[j] == t[j - 1]);
            }
        }
    }
}

/// A text always has at least one piece.
pub proof fn lemma_pieces_len(s: Seq<char>, a: char, b: char)
    ensures
        pieces(s, a, b).len() >= 1,
    decreases s.len(),
{
    if s.len() > 0 {
        lemma_pieces_len(s.drop_last(), a, b);
    }
}

/// `s` holds neither `a` nor `b`.
pub open spec fn free_of(s: Seq<char>, a: char, b: char) -> bool {
    forall|i: int| 0 <= i < s.len() ==> #[trigger] s[i] != a && s[i] != b
}

/// A text without separators is a single piece.
pub proof fn lemma_pieces_free(t: Seq<char>, a: char, b: char)
    requires
        free_of(t, a, b),
    ensures
        pieces(t, a, b) == seq![t],
    decreases t.len(),
{
    if t.len() > 0 {
        let p = t.drop_last();
        assert(free_of(p, a, b)) by {
            assert forall|i: int| 0 <= i < p.len() implies #[trigger] p[i] != a && p[i] != b by {
                assert(p[i] == t[i]);
            }
        }
        lemma_pieces_free(p, a, b);
        assert(t[t.len() - 1] != a && t[t.len() - 1] != b);
        assert(p.push(t.last()) =~= t);
        assert(pieces(t, a, b) =~= seq![t]);
    } else {
        assert(t =~= Seq::<char>::empty());
    }
}

/// Splitting at a separator splits the pieces there.
pub proof fn lemma_pieces_concat(x: Seq<char>, c: char, y: Seq<char>, a: char, b: char)
    requires
        c == a || c == b,
    ensures
        pieces(x.push(c) + y, a, b) == pieces(x, a, b) + pieces(y, a, b),
    decreases y.len(),
{
    let s = x.push(c) + y;
    if y.len() == 0 {
        assert(s =~= x.push(c));
        assert(x.push(c).drop_last() =~= x);
        assert(pieces(x, a, b).push(Seq::empty()) =~= pieces(x, a, b) + pieces(y, a, b));
    } else {
        let y0 = y.drop_last();
        lemma_pieces_concat(x, c, y0, a, b);
        lemma_pieces_len(y0, a, b);
        assert(s.drop_last() =~= x.push(c) + y0);
        assert(s.last() == y.last());
        let px = pieces(x, a, b);
        let py = pieces(y0, a, b);
        if y.last() == a || y.last() == b {
            assert((px + py).push(Seq::empty()) =~= px + py.push(Seq::empty()));
        } else {
            assert((px + py).update((px + py).len() - 1, (px + py).last().push(y.last())) =~= px
                + py.update(py.len() - 1, py.last().push(y.last())));
        }
    }
}

/// Position, counted from `lo`, of the first `a` or `b` in `v[lo..hi]`.
pub fn find_first(v: &Vec<char>, lo: usize, hi: usize, a: char, b: char) -> (r: usize)
    requires
        lo <= hi <= v@.len(),
    ensures
        r == first_of(v@.subrange(lo as int, hi as int), a, b),
        r <= hi - lo,
{
    let ghost s = v@.subrange(lo as int, hi as int);
    let mut i: usize = lo;
    while i < hi
        invariant
            lo <= i <= hi <= v@.len(),
            s == v@.subrange(lo as int, hi as int),
            forall|j: int| lo <= j < i ==> v@[j] != a && v@[j] != b,
        decreases hi - i,
    {
        if v[i] == a || v[i] == b {
            proof {
                assert forall|j: int| 0 <= j < i - lo implies s[j] != a && s[j] != b by {
                    assert(s[j] == v@[lo + j]);
                }
                assert(s[i - lo] == v@[i as int]);
                lemma_first_of(s, a, b, i - lo);
            }
            return i - lo;
        }
        i += 1;
    }
    proof {
        assert forall|j: int| 0 <= j < i - lo implies s[j] != a && s[j] != b by {
            assert(s[j] == v@[lo + j]);
        }
        lemma_first_of(s, a, b, i - lo);
    }
    i - lo
}

/// Whether every character of `v[lo..hi]` is a decimal digit.
pub fn digits_only(v: &Vec<char>, lo: usize, hi: usize) -> (r: bool)
    requires
        lo <= hi <= v@.len(),
    ensures
        r == all_digits(v@.subrange(lo as int, hi as int)),
{
    let ghost s = v@.subrange(lo as int, hi as int);
    let mut i: usize = lo;
    while i < hi
        invariant
            lo <= i <= hi <= v@.len(),
            s == v@.subrange(lo as int, hi as int),
            forall|j: int| lo <= j < i ==> is_digit(v@[j]),
        decreases hi - i,
    {
        if !('0' <= v[i] && v[i] <= '9') {
            assert(s[i - lo] == v@[i as int]);
            return false;
        }
        i += 1;
    }
    assert forall|j: int| 0 <= j < s.len() implies is_digit(#[trigger] s[j]) by {
        assert(s[j] == v@[lo + j]);
    }
    true
}

/// The ranges of `v[lo..hi]` between separators `a` or `b`, in order.
pub fn split_ranges(v: &Vec<char>, lo: usize, hi: usize, a: char, b: char) -> (r: Vec<(usize, usize)>)
    requires
        lo <= hi <= v@.len(),
    ensures
        r@.len() == pieces(v@.subrange(lo as int, hi as int), a, b).len(),
        forall|k: int|
            0 <= k < r@.len() ==> lo <= (#[trigger] r@[k]).0 <= r@[k].1 <= hi && v@.subrange(
                r@[k].0 as int,
                r@[k].1 as int,
            ) == pieces(v@.subrange(lo as int, hi as int), a, b)[k],
{
    let mut r: Vec<(usize, usize)> = Vec::new();
    let mut start: usize = lo;
    let mut i: usize = lo;
    proof {
        assert(v@.subrange(lo as int, lo as int) =~= Seq::<char>::empty());
        assert(v@.subrange(start as int, i as int) =~= Seq::<char>::empty());
    }
    while i < hi
        invariant
            lo <= start <= i <= hi <= v@.len(),
            pieces(v@.subrange(lo as int, i as int), a, b).len() == r@.len() + 1,
            forall|k: int|
                0 <= k < r@.len() ==> lo <= (#[trigger] r@[k]).0 <= r@[k].1 <= i && v@.subrange(
                    r@[k].0 as int,
                    r@[k].1 as int,
                ) == pieces(v@.subrange(lo as int, i as int), a, b)[k],
            v@.subrange(start as int, i as int) == pieces(
                v@.subrange(lo as int, i as int),
                a,
                b,
            ).last(),
        decreases hi - i,
    {
        let ghost p = pieces(v@.subrange(lo as int, i as int), a, b);
        proof {
            let s1 = v@.subrange(lo as int, i + 1);
            assert(s1.drop_last() =~= v@.subrange(lo as int, i as int));
            assert(s1.last() == v@[i as int]);
        }
        if v[i] == a || v[i] == b {
            r.push((start, i));
            start = i + 1;
            proof {
                assert(v@.subrange(start as int, i + 1) =~= Seq::<char>::empty());
            }
        } else {
            proof {
                assert(v@.subrange(start as int, i + 1) =~= v@.subrange(start as int, i as int).push(
                    v@[i as int],
                ));
            }
        }
        i += 1;
    }
    r.push((start, hi));
    r
}

/// Whether `v[lo..hi]` spells the word `lw` / `uw`, each letter in either case.
fn word_at(v: &Vec<char>, lo: usize, hi: usize, lw: &[char], uw: &[char]) -> (r: bool)
    requires
        lo <= hi <= v@.len(),
        lw@.len() == uw@.len(),
    ensures
        r == is_word(v@.subrange(lo as int, hi as int), lw@, uw@),
{
    let ghost s = v@.subrange(lo as int, hi as int);
    if hi - lo != lw.len() {
        return false;
    }
    let mut i: usize = 0;
    while i < lw.len()
        invariant
            lo <= hi <= v@.len(),
            hi - lo == lw@.len(),
            lw@.len() == uw@.len(),
            s == v@.subrange(lo as int, hi as int),
            i <= lw@.len(),
            forall|j: int| 0 <= j < i ==> #[trigger] s[j] == lw@[j] || s[j] == uw@[j],
        decreases lw@.len() - i,
    {
        let c = v[lo + i];
        assert(s[i as int] == c);
        if !(c == lw[i] || c == uw[i]) {
            return false;
        }
        i += 1;
    }
    true
}

/// Whether `v[lo..hi]` is digits with at most one decimal point and at least one digit.
fn mantissa_at(v: &Vec<char>, lo: usize, hi: usize) -> (r: bool)
    requires
        lo <= hi <= v@.len(),
    ensures
        r == is_mantissa(v@.subrange(lo as int, hi as int)),
{
    let ghost m = v@.subrange(lo as int, hi as int);
    let d = find_first(v, lo, hi, '.', '.');
    if d < hi - lo {
        proof {
            assert(m.take(d as int) =~= v@.subrange(lo as int, lo + d));
            assert(m.skip(d + 1) =~= v@.subrange(lo + d + 1, hi as int));
        }
        hi - lo >= 2 && digits_only(v, lo, lo + d) && digits_only(v, lo + d + 1, hi)
    } else {
        hi - lo >= 1 && digits_only(v, lo, hi)
    }
}

/// Whether `v[lo..hi]` is a literal that `f32` parsing accepts.
pub fn float_literal_at(v: &Vec<char>, lo: usize, hi: usize) -> (r: bool)
    requires
        lo <= hi <= v@.len(),
    ensures
        r == is_float_literal(v@.subrange(lo as int, hi as int)),
{
    let ghost s = v@.subrange(lo as int, hi as int);
    let mut t: usize = lo;
    if lo < hi && (v[lo] == '+' || v[lo] == '-') {
        t = lo + 1;
        assert(s.drop_first() =~= v@.subrange(t as int, hi as int));
    } else {
        assert(s =~= v@.subrange(t as int, hi as int));
    }
    let inf_l = ['i', 'n', 'f'];
    let inf_u = ['I', 'N', 'F'];
    let infinity_l = ['i', 'n', 'f', 'i', 'n', 'i', 't', 'y'];
    let infinity_u = ['I', 'N', 'F', 'I', 'N', 'I', 'T', 'Y'];
    let nan_l = ['n', 'a', 'n'];
    let nan_u = ['N', 'A', 'N'];
    assert(inf_l@ == seq!['i', 'n', 'f'] && inf_u@ == seq!['I', 'N', 'F']);
    assert(infinity_l@ == seq!['i', 'n', 'f', 'i', 'n', 'i', 't', 'y']);
    assert(infinity_u@ == seq!['I', 'N', 'F', 'I', 'N', 'I', 'T', 'Y']);
    assert(nan_l@ == seq!['n', 'a', 'n'] && nan_u@ == seq!['N', 'A', 'N']);
    if word_at(v, t, hi, &inf_l, &inf_u) || word_at(v, t, hi, &infinity_l, &infinity_u)
        || word_at(v, t, hi, &nan_l, &nan_u) {
        return true;
    }
    let ghost n = v@.subrange(t as int, hi as int);
    let k = find_first(v, t, hi, 'e', 'E');
    if k < hi - t {
        proof {
            assert(n.take(k as int) =~= v@.subrange(t as int, t + k));
            assert(n.skip(k + 1) =~= v@.subrange(t + k + 1, hi as int));
        }
        if !mantissa_at(v, t, t + k) {
            return false;
        }
        let x = t + k + 1;
        let ghost xs = v@.subrange(x as int, hi as int);
        let mut u: usize = x;
        if x < hi && (v[x] == '+' || v[x] == '-') {
            u = x + 1;
            assert(xs.drop_first() =~= v@.subrange(u as int, hi as int));
        } else {
            assert(xs =~= v@.subrange(u as int, hi as int));
        }
        hi - u >= 1 && digits_only(v, u, hi)
    } else {
        mantissa_at(v, t, hi)
    }
}

} // verus!

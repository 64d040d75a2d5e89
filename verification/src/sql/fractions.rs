//! Decimal fractions keep their value when they are shortened.
use vstd::prelude::*;

use crate::sql::text::{
    all_digits, is_digit, is_numeral, shortened, value_of, zeros_end, zeros_start,
};

verus! {

/// A power of ten.
pub open spec fn ten_to(n: nat) -> nat
    decreases n,
{
    if n == 0 {
        1
    } else {
        10 * ten_to((n - 1) as nat)
    }
}

/// Whether a text is zeros.
spec fn all_zeros(s: Seq<char>) -> bool {
    forall|i: int| 0 <= i < s.len() ==> #[trigger] s[i] == '0'
}

proof fn zeros_behind(u: Seq<char>, m: Seq<char>)
    requires
        all_zeros(m),
    ensures
        value_of(u + m) == value_of(u) * ten_to(m.len()),
    decreases m.len(),
{
    if m.len() == 0 {
        assert(u + m =~= u);
        assert(value_of(u) * 1 == value_of(u));
    } else {
        let d = m.drop_last();
        assert forall|i: int| 0 <= i < d.len() implies #[trigger] d[i] == '0' by {
            assert(d[i] == m[i]);
        }
        zeros_behind(u, d);
        assert((u + m).drop_last() =~= u + d);
        assert((u + m).last() == m[m.len() - 1]);
        assert(m[m.len() - 1] == '0');
        let v = value_of(u);
        let t = ten_to(d.len());
        assert(ten_to(m.len()) == 10 * t);
        assert(value_of(u + m) == value_of(u + d) * 10);
        assert((v * t) * 10 == v * (10 * t)) by (nonlinear_arith);
    }
}

proof fn zeros_before(m: Seq<char>, u: Seq<char>)
    requires
        all_zeros(m),
    ensures
        value_of(m + u) == value_of(u),
    decreases u.len(),
{
    if u.len() == 0 {
        assert(m + u =~= Seq::<char>::empty() + m);
        zeros_behind(Seq::<char>::empty(), m);
        assert(value_of(Seq::<char>::empty()) == 0);
        assert(0 * ten_to(m.len()) == 0) by (nonlinear_arith);
    } else {
        zeros_before(m, u.drop_last());
        assert((m + u).drop_last() =~= m + u.drop_last());
    }
}

proof fn zeros_start_is(s: Seq<char>, n: int)
    requires
        0 <= n <= s.len(),
    ensures
        0 <= zeros_start(s, n) <= n,
        forall|i: int| zeros_start(s, n) <= i < n ==> #[trigger] s[i] == '0',
        zeros_start(s, n) > 0 ==> s[zeros_start(s, n) - 1] != '0',
    decreases n,
{
    if 0 < n && s[n - 1] == '0' {
        zeros_start_is(s, n - 1);
    }
}

proof fn zeros_end_is(s: Seq<char>, i: int)
    requires
        0 <= i <= s.len(),
    ensures
        i <= zeros_end(s, i) <= s.len(),
        forall|k: int| i <= k < zeros_end(s, i) ==> #[trigger] s[k] == '0',
        zeros_end(s, i) < s.len() ==> s[zeros_end(s, i)] != '0',
    decreases s.len() - i,
{
    if i < s.len() && s[i] == '0' {
        zeros_end_is(s, i + 1);
    }
}

/// A fraction with digits `a` before its point and digits `b` behind it is shortened to
/// one with digits `x` before and digits `y` behind, or to digits `x` alone: the value is
/// the same, there is no zero at its end, and none at its start but one before a point.
pub proof fn shortened_keeps_value(a: Seq<char>, b: Seq<char>) -> (r: (Seq<char>, Seq<char>))
    requires
        all_digits(a),
        all_digits(b),
        a.len() + b.len() > 0,
    ensures
        ({
            let (x, y) = r;
            &&& all_digits(x) && all_digits(y) && x.len() > 0 && y.len() <= b.len()
            &&& shortened(a + seq!['.'] + b) == if y.len() == 0 {
                x
            } else {
                x + seq!['.'] + y
            }
            &&& value_of(a + b) == value_of(x + y) * ten_to((b.len() - y.len()) as nat)
            &&& y.len() > 0 ==> y.last() != '0'
            &&& x.len() > 1 ==> x[0] != '0'
        }),
{
    let s = a + seq!['.'] + b;
    let p = a.len() as int;
    let e = s.len() as int;
    assert(s[p] == '.');
    assert forall|i: int| 0 <= i < p implies is_digit(#[trigger] s[i]) && s[i] == a[i] by {
        assert(is_digit(a[i]));
    }
    assert forall|i: int| p < i < e implies is_digit(#[trigger] s[i]) && s[i] == b[i - p - 1] by {
        assert(is_digit(b[i - p - 1]));
    }
    assert(is_numeral(s));
    assert(s.contains('.'));
    zeros_start_is(s, e);
    zeros_end_is(s, 0);
    let n = zeros_start(s, e);
    let z = zeros_end(s, 0);
    assert(n > p) by {
        if n <= p {
            assert(s[p] == '0');
        }
    }
    assert(z <= p) by {
        if z > p {
            assert(s[p] == '0');
        }
    }
    let c = n - p - 1;
    let y = b.take(c);
    let m = b.skip(c);
    let w = a.take(z);
    let v = a.skip(z);
    let x = if z == p {
        seq!['0']
    } else {
        v
    };
    assert forall|i: int| 0 <= i < m.len() implies #[trigger] m[i] == '0' by {
        assert(s[n + i] == b[n + i - p - 1]);
        assert(s[n + i] == '0');
    }
    assert forall|i: int| 0 <= i < w.len() implies #[trigger] w[i] == '0' by {
        assert(s[i] == '0');
        assert(s[i] == a[i]);
    }
    assert forall|i: int| 0 <= i < y.len() implies is_digit(#[trigger] y[i]) by {
        assert(y[i] == b[i]);
    }
    assert forall|i: int| 0 <= i < v.len() implies is_digit(#[trigger] v[i]) by {
        assert(v[i] == a[i + z]);
    }
    assert(b =~= y + m);
    assert(a =~= w + v);
    // The value.
    assert(a + b =~= (w + (v + y)) + m);
    zeros_behind(w + (v + y), m);
    zeros_before(w, v + y);
    if z == p {
        assert(v =~= seq![]);
        assert(v + y =~= y);
        assert(all_zeros(seq!['0']));
        zeros_before(seq!['0'], y);
    }
    assert(value_of(v + y) == value_of(x + y));
    assert(m.len() == b.len() - y.len());
    // The text.
    if c == 0 {
        assert(s[n - 1] == '.');
        if z == p {
            assert(shortened(s) =~= x);
        } else {
            assert(s.subrange(z, p) =~= v);
            assert(s[z] == a[z]);
            assert(is_digit(a[z]));
            assert(shortened(s) =~= x);
        }
    } else {
        assert(s[n - 1] == y.last());
        assert(is_digit(s[n - 1]));
        if z == p {
            assert(s.subrange(z, n) =~= seq!['.'] + y);
            assert(shortened(s) =~= x + seq!['.'] + y);
        } else {
            assert(s[z] == a[z]);
            assert(is_digit(a[z]));
            assert(s.subrange(z, n) =~= v + seq!['.'] + y);
            assert(shortened(s) =~= x + seq!['.'] + y);
        }
    }
    if z < p {
        assert(x[0] == s[z]);
    }
    (x, y)
}

} // verus!

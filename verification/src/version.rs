//! Ordering of dotted numeric version strings.

use vstd::prelude::*;
use crate::model::optional_text;
use crate::text::{chars_of, split, split_on, views};

verus! {

/// The number that a run of decimal digits writes.
pub open spec fn digits_value(s: Seq<char>) -> nat
    decreases s.len(),
{
    if s.len() == 0 {
        0
    } else {
        digits_value(s.drop_last()) * 10 + (s.last() as u32 - '0' as u32) as nat
    }
}

/// Every character of `s` is a decimal digit.
pub open spec fn all_digits(s: Seq<char>) -> bool {
    forall|i: int| 0 <= i < s.len() ==> '0' <= #[trigger] s[i] <= '9'
}

/// What stands behind one leading `+`, or all of `s` where it has none.
pub open spec fn unsigned_body(s: Seq<char>) -> Seq<char> {
    if s.len() > 0 && s[0] == '+' {
        s.drop_first()
    } else {
        s
    }
}

/// The number that one component of a version stands for: its value where
/// it is a non-empty run of decimal digits of any length, after at most one
/// `+`; zero for everything else.
pub open spec fn component_value(s: Seq<char>) -> nat {
    let body = unsigned_body(s);
    if body.len() > 0 && all_digits(body) {
        digits_value(body)
    } else {
        0
    }
}

/// A run of decimal digits that does not begin with a zero. Each number is
/// written by one such run; zero by the empty one.
pub open spec fn canonical(d: Seq<char>) -> bool {
    all_digits(d) && (d.len() > 0 ==> d[0] != '0')
}

/// How the number `x` stands to the number `y`: `-1`, `0` or `1`.
pub open spec fn number_order(x: nat, y: nat) -> int {
    if x > y {
        1
    } else if x < y {
        -1
    } else {
        0
    }
}

/// Ten to the power of `n`.
pub open spec fn pow10(n: nat) -> nat
    decreases n,
{
    if n == 0 {
        1
    } else {
        10 * pow10((n - 1) as nat)
    }
}

/// The number of the component at `i`, zero behind the last one.
pub open spec fn component_at(parts: Seq<Seq<char>>, i: int) -> nat {
    if 0 <= i < parts.len() {
        component_value(parts[i])
    } else {
        0
    }
}

/// How `a` stands to `b` on the components from `i` up to `n`: the first
/// pair that differs decides, `1` for the larger `a`, `-1` for the smaller,
/// `0` where none differs.
pub open spec fn order_between(a: Seq<Seq<char>>, b: Seq<Seq<char>>, i: int, n: int) -> int
    decreases n - i,
{
    if i >= n {
        0
    } else if component_at(a, i) > component_at(b, i) {
        1
    } else if component_at(a, i) < component_at(b, i) {
        -1
    } else {
        order_between(a, b, i + 1, n)
    }
}

/// The longer of two lengths.
pub open spec fn longer(x: int, y: int) -> int {
    if x >= y {
        x
    } else {
        y
    }
}

/// How version `a` stands to version `b`: `-1`, `0` or `1`. An absent
/// version is below every present one; two present ones are compared
/// component by component, the shorter one filled up with zeros.
pub open spec fn version_order(a: Option<Seq<char>>, b: Option<Seq<char>>) -> int {
    match (a, b) {
        (None, None) => 0,
        (None, Some(_)) => -1,
        (Some(_), None) => 1,
        (Some(x), Some(y)) => {
            let p = split_on(x, '.');
            let q = split_on(y, '.');
            order_between(p, q, 0, longer(p.len() as int, q.len() as int))
        },
    }
}

/// Zeros at the start of a run of digits do not change its number.
pub proof fn lemma_leading_zeros(s: Seq<char>, k: int)
    requires
        0 <= k <= s.len(),
        forall|j: int| 0 <= j < k ==> s[j] == '0',
    ensures
        digits_value(s) == digits_value(s.skip(k)),
    decreases s.len(),
{
    if k == 0 {
        assert(s.skip(0) =~= s);
    } else if s.len() == 1 {
        assert(s.skip(1) =~= Seq::<char>::empty());
        assert(s.drop_last() =~= Seq::<char>::empty());
    } else if k == s.len() {
        lemma_leading_zeros(s.drop_last(), k - 1);
        assert(s.drop_last().skip(k - 1) =~= Seq::<char>::empty());
        assert(s.skip(k) =~= Seq::<char>::empty());
    } else {
        lemma_leading_zeros(s.drop_last(), k);
        assert(s.skip(k).drop_last() =~= s.drop_last().skip(k));
    }
}

proof fn lemma_pow10_grows(a: nat, b: nat)
    requires
        a <= b,
    ensures
        1 <= pow10(a) <= pow10(b),
    decreases b,
{
    if a < b {
        lemma_pow10_grows(a, (b - 1) as nat);
    } else if a > 0 {
        lemma_pow10_grows((a - 1) as nat, (a - 1) as nat);
    }
}

/// A run of `n` digits writes a number below ten to the `n`, and one that
/// begins with no zero writes at least ten to the `n - 1`.
pub proof fn lemma_digits_bounds(s: Seq<char>)
    requires
        all_digits(s),
    ensures
        digits_value(s) < pow10(s.len()),
        s.len() > 0 && s[0] != '0' ==> digits_value(s) >= pow10((s.len() - 1) as nat),
    decreases s.len(),
{
    if s.len() > 0 {
        let t = s.drop_last();
        assert forall|i: int| 0 <= i < t.len() implies '0' <= #[trigger] t[i] <= '9' by {
            assert(t[i] == s[i]);
        }
        lemma_digits_bounds(t);
        assert('0' <= s[s.len() - 1] <= '9');
        if t.len() > 0 {
            assert(t[0] == s[0]);
        }
    }
}

/// Of two runs of digits of one length, the one whose beginning writes the
/// smaller number writes the smaller number.
pub proof fn lemma_beginning_decides(a: Seq<char>, b: Seq<char>, k: int)
    requires
        all_digits(a),
        all_digits(b),
        a.len() == b.len(),
        0 <= k <= a.len(),
        digits_value(a.take(k)) < digits_value(b.take(k)),
    ensures
        digits_value(a) < digits_value(b),
    decreases a.len() - k,
{
    if k < a.len() {
        assert(a.take(k + 1).drop_last() =~= a.take(k));
        assert(b.take(k + 1).drop_last() =~= b.take(k));
        assert('0' <= a[k] <= '9' && '0' <= b[k] <= '9');
        assert(a.take(k + 1).last() == a[k] && b.take(k + 1).last() == b[k]);
        lemma_beginning_decides(a, b, k + 1);
    } else {
        assert(a.take(k) =~= a && b.take(k) =~= b);
    }
}

/// The digits that write the number of a component, without zeros at their
/// start; none for zero.
pub fn component_digits(s: &Vec<char>) -> (digits: Vec<char>)
    ensures
        canonical(digits@),
        digits_value(digits@) == component_value(s@),
{
    let start: usize = if s.len() > 0 && s[0] == '+' {
        1
    } else {
        0
    };
    let ghost body = unsigned_body(s@);
    assert(body =~= s@.skip(start as int));
    let mut i: usize = start;
    while i < s.len()
        invariant
            start <= i <= s.len(),
            body == s@.skip(start as int),
            body == unsigned_body(s@),
            forall|k: int| start <= k < i ==> '0' <= #[trigger] s@[k] <= '9',
        decreases s.len() - i,
    {
        if s[i] < '0' || s[i] > '9' {
            assert(body[i - start] == s@[i as int]);
            return Vec::new();
        }
        i += 1;
    }
    assert(all_digits(body)) by {
        assert forall|k: int| 0 <= k < body.len() implies '0' <= #[trigger] body[k] <= '9' by {
            assert(body[k] == s@[k + start]);
        }
    }
    let mut from: usize = start;
    while from < s.len() && s[from] == '0'
        invariant
            start <= from <= s.len(),
            forall|k: int| start <= k < from ==> s@[k] == '0',
        decreases s.len() - from,
    {
        from += 1;
    }
    let digits = crate::text::slice_of(s, from, s.len());
    proof {
        assert forall|j: int| 0 <= j < from - start implies body[j] == '0' by {
            assert(body[j] == s@[j + start]);
        }
        lemma_leading_zeros(body, from - start);
        assert(body.skip(from - start) =~= digits@);
        assert forall|k: int| 0 <= k < digits@.len() implies '0' <= #[trigger] digits@[k]
            <= '9' by {
            assert(digits@[k] == s@[k + from]);
        }
    }
    digits
}

/// How the numbers of two runs of digits stand to each other. The longer
/// run writes the larger number; of two of one length, the first digit that
/// differs decides.
fn order_of_runs(a: &Vec<char>, b: &Vec<char>) -> (order: i8)
    requires
        canonical(a@),
        canonical(b@),
    ensures
        order == number_order(digits_value(a@), digits_value(b@)),
{
    proof {
        lemma_digits_bounds(a@);
        lemma_digits_bounds(b@);
    }
    if a.len() > b.len() {
        proof {
            lemma_pow10_grows(b@.len(), (a@.len() - 1) as nat);
        }
        return 1;
    }
    if a.len() < b.len() {
        proof {
            lemma_pow10_grows(a@.len(), (b@.len() - 1) as nat);
        }
        return -1;
    }
    let mut i: usize = 0;
    assert(a@.take(0) =~= b@.take(0));
    while i < a.len()
        invariant
            i <= a.len(),
            a.len() == b.len(),
            all_digits(a@),
            all_digits(b@),
            a@.take(i as int) == b@.take(i as int),
        decreases a.len() - i,
    {
        proof {
            assert(a@.take(i + 1).drop_last() =~= a@.take(i as int));
            assert(b@.take(i + 1).drop_last() =~= b@.take(i as int));
            assert(a@.take(i + 1).last() == a@[i as int]);
            assert(b@.take(i + 1).last() == b@[i as int]);
            assert('0' <= a@[i as int] <= '9' && '0' <= b@[i as int] <= '9');
        }
        if a[i] < b[i] {
            proof {
                lemma_beginning_decides(a@, b@, i + 1);
            }
            return -1;
        }
        if a[i] > b[i] {
            proof {
                lemma_beginning_decides(b@, a@, i + 1);
            }
            return 1;
        }
        i += 1;
        assert(a@.take(i as int) =~= b@.take(i as int));
    }
    assert(a@.take(i as int) =~= a@ && b@.take(i as int) =~= b@);
    0
}

/// How the numbers of two components stand to each other.
pub fn compare_components(a: &Vec<char>, b: &Vec<char>) -> (order: i8)
    ensures
        order == number_order(component_value(a@), component_value(b@)),
{
    order_of_runs(&component_digits(a), &component_digits(b))
}

/// Compares two optional dotted version strings: `-1` where the first is
/// the older, `1` where it is the newer, `0` where neither is.
pub fn compare_versions(v1: &Option<String>, v2: &Option<String>) -> (order: i8)
    ensures
        order == version_order(optional_text(*v1), optional_text(*v2)),
{
    match (v1, v2) {
        (None, None) => 0,
        (None, Some(_)) => -1,
        (Some(_), None) => 1,
        (Some(a), Some(b)) => {
            let p = split(&chars_of(a.as_str()), '.');
            let q = split(&chars_of(b.as_str()), '.');
            let n: usize = if p.len() >= q.len() {
                p.len()
            } else {
                q.len()
            };
            let absent: Vec<char> = Vec::new();
            let mut i: usize = 0;
            while i < n
                invariant
                    i <= n,
                    absent@.len() == 0,
                    n == longer(p.len() as int, q.len() as int),
                    views(p@) == split_on(a@, '.'),
                    views(q@) == split_on(b@, '.'),
                    v1 == Some(*a),
                    v2 == Some(*b),
                    order_between(views(p@), views(q@), 0, n as int) == order_between(
                        views(p@),
                        views(q@),
                        i as int,
                        n as int,
                    ),
                decreases n - i,
            {
                let order = compare_components(
                    if i < p.len() {
                        &p[i]
                    } else {
                        &absent
                    },
                    if i < q.len() {
                        &q[i]
                    } else {
                        &absent
                    },
                );
                assert(order == number_order(
                    component_at(views(p@), i as int),
                    component_at(views(q@), i as int),
                ));
                if order != 0 {
                    return order;
                }
                i += 1;
            }
            0
        },
    }
}

/// Components behind the end of both versions never decide: any bound at
/// or behind the longer length gives the same order.
pub proof fn lemma_order_bound(a: Seq<Seq<char>>, b: Seq<Seq<char>>, i: int, n: int, m: int)
    requires
        a.len() <= n <= m,
        b.len() <= n,
    ensures
        order_between(a, b, i, n) == order_between(a, b, i, m),
    decreases m - i,
{
    if i < m {
        lemma_order_bound(a, b, i + 1, n, m);
    }
}

proof fn lemma_between_reflexive(a: Seq<Seq<char>>, i: int, n: int)
    ensures
        order_between(a, a, i, n) == 0,
    decreases n - i,
{
    if i < n {
        lemma_between_reflexive(a, i + 1, n);
    }
}

proof fn lemma_between_swap(a: Seq<Seq<char>>, b: Seq<Seq<char>>, i: int, n: int)
    ensures
        order_between(a, b, i, n) == -order_between(b, a, i, n),
        -1 <= order_between(a, b, i, n) <= 1,
    decreases n - i,
{
    if i < n {
        lemma_between_swap(a, b, i + 1, n);
    }
}

proof fn lemma_between_transitive(
    a: Seq<Seq<char>>,
    b: Seq<Seq<char>>,
    c: Seq<Seq<char>>,
    i: int,
    n: int,
)
    requires
        order_between(a, b, i, n) <= 0,
        order_between(b, c, i, n) <= 0,
    ensures
        order_between(a, c, i, n) <= 0,
        order_between(a, b, i, n) < 0 || order_between(b, c, i, n) < 0 ==> order_between(
            a,
            c,
            i,
            n,
        ) < 0,
    decreases n - i,
{
    if i < n {
        if component_at(a, i) == component_at(b, i) && component_at(b, i) == component_at(c, i) {
            lemma_between_transitive(a, b, c, i + 1, n);
        }
    }
}

/// A version is neither older nor newer than itself.
pub proof fn lemma_version_order_reflexive(a: Option<Seq<char>>)
    ensures
        version_order(a, a) == 0,
{
    if let Some(x) = a {
        let p = split_on(x, '.');
        lemma_between_reflexive(p, 0, longer(p.len() as int, p.len() as int));
    }
}

/// The order is one of `-1`, `0` and `1`, and exchanging the two versions
/// turns it round: any two versions are comparable, and each is older than
/// the other exactly where the other is newer.
pub proof fn lemma_version_order_swap(a: Option<Seq<char>>, b: Option<Seq<char>>)
    ensures
        -1 <= version_order(a, b) <= 1,
        version_order(a, b) == -version_order(b, a),
{
    if let (Some(x), Some(y)) = (a, b) {
        let p = split_on(x, '.');
        let q = split_on(y, '.');
        lemma_between_swap(p, q, 0, longer(p.len() as int, q.len() as int));
    }
}

/// The order is transitive: where `a` is not newer than `b` and `b` not
/// newer than `c`, `a` is not newer than `c`, and it is older where one of
/// the two steps is.
pub proof fn lemma_version_order_transitive(
    a: Option<Seq<char>>,
    b: Option<Seq<char>>,
    c: Option<Seq<char>>,
)
    requires
        version_order(a, b) <= 0,
        version_order(b, c) <= 0,
    ensures
        version_order(a, c) <= 0,
        version_order(a, b) < 0 || version_order(b, c) < 0 ==> version_order(a, c) < 0,
{
    if let (Some(x), Some(y), Some(z)) = (a, b, c) {
        let p = split_on(x, '.');
        let q = split_on(y, '.');
        let r = split_on(z, '.');
        let pq = longer(p.len() as int, q.len() as int);
        let qr = longer(q.len() as int, r.len() as int);
        let pr = longer(p.len() as int, r.len() as int);
        let n = longer(pq, r.len() as int);
        lemma_order_bound(p, q, 0, pq, n);
        lemma_order_bound(q, r, 0, qr, n);
        lemma_order_bound(p, r, 0, pr, n);
        lemma_between_transitive(p, q, r, 0, n);
    }
}

/// An absent version is older than every present one and as old as
/// another absent one.
pub proof fn lemma_absent_version_least(x: Seq<char>)
    ensures
        version_order(None, None) == 0,
        version_order(None, Some(x)) == -1,
        version_order(Some(x), None) == 1,
{
}

} // verus!

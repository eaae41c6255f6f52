//! How the address parser reads the text of addresses written as `host:port` and
//! `host:first-last`.
use vstd::prelude::*;
use crate::port_range::{endpoint, expand_spec, port_run, ports_spec, split_spec, MAX_PORT_RANGE};
use crate::text::{
    all_digits, decimal, digit_char, digit_value, digits_value, index_of, is_digit, is_space,
    last_index_of, lemma_index_of, lemma_last_index_of, parse_u16, trim, trim_end, trim_start,
};

verus! {

/// `first-last` as written in a port token.
pub open spec fn range_text(first: u16, last: u16) -> Seq<char> {
    decimal(first as nat) + seq!['-'] + decimal(last as nat)
}

/// `host:port` text.
pub open spec fn host_port(host: Seq<char>, port: Seq<char>) -> Seq<char> {
    host + seq![':'] + port
}

/// A host as written before the colon: not bracketed and not starting with white space.
pub open spec fn plain_host(h: Seq<char>) -> bool {
    h.len() > 0 && h[0] != '[' && !is_space(h[0])
}

proof fn lemma_digit_char(d: nat)
    requires
        d < 10,
    ensures
        is_digit(digit_char(d)),
        digit_value(digit_char(d)) == d,
{
}

proof fn lemma_decimal(n: nat)
    ensures
        decimal(n).len() > 0,
        all_digits(decimal(n)),
        digits_value(decimal(n)) == n,
    decreases n,
{
    lemma_digit_char(n % 10);
    if n >= 10 {
        lemma_decimal(n / 10);
        let s = decimal(n / 10);
        assert(decimal(n).drop_last() == s);
        assert(decimal(n).last() == digit_char(n % 10));
        assert((n / 10) * 10 + n % 10 == n) by (nonlinear_arith);
        assert(digits_value(decimal(n)) == digits_value(s) * 10 + digit_value(decimal(n).last()));
        assert(digit_value(decimal(n).last()) == n % 10);
        assert forall|i: int| 0 <= i < decimal(n).len() implies is_digit(#[trigger] decimal(n)[i]) by {
            if i < s.len() {
                assert(decimal(n)[i] == s[i]);
            }
        }
    } else {
        assert(decimal(n)[0] == digit_char(n));
        assert(decimal(n).drop_last() == Seq::<char>::empty());
        assert(n % 10 == n);
        assert(digits_value(decimal(n)) == digits_value(Seq::<char>::empty()) * 10 + digit_value(digit_char(n)));
    }
}

proof fn lemma_trim_digits_tail(x: Seq<char>)
    requires
        x.len() > 0,
        !is_space(x[0]),
        !is_space(x.last()),
    ensures
        trim(x) == x,
{
}

proof fn lemma_single_port(p: u16)
    requires
        p >= 1,
    ensures
        ports_spec(decimal(p as nat)) == Ok::<Seq<u16>, crate::port_range::AddrError>(seq![p]),
{
    let d = decimal(p as nat);
    lemma_decimal(p as nat);
    assert(is_digit(d[0]));
    assert(is_digit(d.last()));
    lemma_trim_digits_tail(d);
    assert forall|j: int| 0 <= j < d.len() implies #[trigger] d[j] != '-' by {
        assert(is_digit(d[j]));
    }
    lemma_index_of(d, '-', d.len() as int);
    assert(parse_u16(d) == Some(p));
}

proof fn lemma_range_ports(a: u16, b: u16)
    requires
        1 <= a <= b,
        b - a + 1 <= MAX_PORT_RANGE,
    ensures
        ports_spec(range_text(a, b)) == Ok::<Seq<u16>, crate::port_range::AddrError>(port_run(a, b)),
{
    let da = decimal(a as nat);
    let db = decimal(b as nat);
    let raw = range_text(a, b);
    lemma_decimal(a as nat);
    lemma_decimal(b as nat);
    assert forall|j: int| 0 <= j < da.len() implies #[trigger] raw[j] != '-' by {
        assert(raw[j] == da[j]);
        assert(is_digit(da[j]));
    }
    assert(raw[da.len() as int] == '-');
    lemma_index_of(raw, '-', da.len() as int);
    assert(raw.subrange(0, da.len() as int) == da);
    assert(raw.subrange(da.len() + 1 as int, raw.len() as int) == db);
    assert(is_digit(da[0]) && is_digit(da.last()));
    assert(is_digit(db[0]) && is_digit(db.last()));
    lemma_trim_digits_tail(da);
    lemma_trim_digits_tail(db);
    assert(parse_u16(da) == Some(a));
    assert(parse_u16(db) == Some(b));
}

proof fn lemma_split(h: Seq<char>, p: Seq<char>)
    requires
        plain_host(h),
        p.len() > 0,
        all_digits(p.subrange(p.len() - 1, p.len() as int)),
        forall|j: int| 0 <= j < p.len() ==> #[trigger] p[j] != ':',
    ensures
        split_spec(host_port(h, p)) == Ok::<(Seq<char>, Seq<char>), crate::port_range::AddrError>(
            (h, p),
        ),
{
    let a = host_port(h, p);
    assert(a[0] == h[0]);
    assert(a.last() == p.last());
    assert(is_digit(p.subrange(p.len() - 1, p.len() as int)[0]));
    assert(is_digit(p.last()));
    lemma_trim_digits_tail(a);
    let k = h.len() as int;
    assert(a[k] == ':');
    assert forall|j: int| k < j < a.len() implies #[trigger] a[j] != ':' by {
        assert(a[j] == p[j - k - 1]);
    }
    lemma_last_index_of(a, ':', k);
    assert(a.subrange(0, k) == h);
    assert(a.subrange(k + 1, a.len() as int) == p);
}

proof fn lemma_decimal_text(n: nat)
    ensures
        decimal(n).len() > 0,
        all_digits(decimal(n).subrange(decimal(n).len() - 1, decimal(n).len() as int)),
        forall|j: int| 0 <= j < decimal(n).len() ==> #[trigger] decimal(n)[j] != ':',
{
    lemma_decimal(n);
    let d = decimal(n);
    assert forall|j: int| 0 <= j < d.len() implies #[trigger] d[j] != ':' by {
        assert(is_digit(d[j]));
    }
    assert forall|i: int| 0 <= i < d.subrange(d.len() - 1, d.len() as int).len() implies is_digit(#[trigger] d.subrange(d.len() - 1, d.len() as int)[i]) by {
        assert(d.subrange(d.len() - 1, d.len() as int)[i] == d[d.len() - 1]);
    }
}

proof fn lemma_range_text(a: u16, b: u16)
    ensures
        range_text(a, b).len() > 0,
        all_digits(range_text(a, b).subrange(range_text(a, b).len() - 1, range_text(a, b).len() as int)),
        forall|j: int| 0 <= j < range_text(a, b).len() ==> #[trigger] range_text(a, b)[j] != ':',
{
    lemma_decimal_text(a as nat);
    lemma_decimal_text(b as nat);
    let da = decimal(a as nat);
    let db = decimal(b as nat);
    let r = range_text(a, b);
    assert forall|j: int| 0 <= j < r.len() implies #[trigger] r[j] != ':' by {
        if j < da.len() {
            assert(r[j] == da[j]);
        } else if j > da.len() {
            assert(r[j] == db[j - da.len() - 1]);
        }
    }
    assert(r.subrange(r.len() - 1, r.len() as int) == db.subrange(db.len() - 1, db.len() as int));
}

/// `host:first-last` relayed to `target:port`: one listener per port of the range, in order,
/// each relaying to the one target port.
pub proof fn lemma_expand_range_to_port(h: Seq<char>, a: u16, b: u16, th: Seq<char>, t: u16)
    requires
        plain_host(h),
        plain_host(th),
        1 <= a <= b,
        b - a + 1 <= MAX_PORT_RANGE,
        t >= 1,
    ensures
        expand_spec(host_port(h, range_text(a, b)), host_port(th, decimal(t as nat))) is Ok,
        ({
            let v = expand_spec(host_port(h, range_text(a, b)), host_port(th, decimal(t as nat)))->Ok_0;
            &&& v.len() == b - a + 1
            &&& forall|i: int|
                0 <= i < v.len() ==> #[trigger] v[i] == (
                    endpoint(h, (a + i) as u16),
                    (a + i) as u16,
                    endpoint(th, t),
                )
        }),
{
    lemma_range_text(a, b);
    lemma_decimal_text(t as nat);
    lemma_split(h, range_text(a, b));
    lemma_split(th, decimal(t as nat));
    lemma_range_ports(a, b);
    lemma_single_port(t);
}

/// `host:port` relayed to `target:port`: a single listener.
pub proof fn lemma_expand_port_to_port(h: Seq<char>, a: u16, th: Seq<char>, t: u16)
    requires
        plain_host(h),
        plain_host(th),
        a >= 1,
        t >= 1,
    ensures
        expand_spec(host_port(h, decimal(a as nat)), host_port(th, decimal(t as nat)))
            == Ok::<Seq<(Seq<char>, u16, Seq<char>)>, crate::port_range::AddrError>(
            seq![(endpoint(h, a), a, endpoint(th, t))],
        ),
{
    lemma_decimal_text(a as nat);
    lemma_decimal_text(t as nat);
    lemma_split(h, decimal(a as nat));
    lemma_split(th, decimal(t as nat));
    lemma_single_port(a);
    lemma_single_port(t);
    let v = expand_spec(host_port(h, decimal(a as nat)), host_port(th, decimal(t as nat)))->Ok_0;
    assert(v =~= seq![(endpoint(h, a), a, endpoint(th, t))]);
}

/// `host:a-b` relayed to `target:c-d` with ranges of equal size: listeners paired by
/// position.
pub proof fn lemma_expand_range_to_range(
    h: Seq<char>,
    a: u16,
    b: u16,
    th: Seq<char>,
    c: u16,
    d: u16,
)
    requires
        plain_host(h),
        plain_host(th),
        1 <= a < b,
        1 <= c <= d,
        d - c == b - a,
        b - a + 1 <= MAX_PORT_RANGE,
    ensures
        expand_spec(host_port(h, range_text(a, b)), host_port(th, range_text(c, d))) is Ok,
        ({
            let v = expand_spec(host_port(h, range_text(a, b)), host_port(th, range_text(c, d)))->Ok_0;
            &&& v.len() == b - a + 1
            &&& forall|i: int|
                0 <= i < v.len() ==> #[trigger] v[i] == (
                    endpoint(h, (a + i) as u16),
                    (a + i) as u16,
                    endpoint(th, (c + i) as u16),
                )
        }),
{
    lemma_range_text(a, b);
    lemma_range_text(c, d);
    lemma_split(h, range_text(a, b));
    lemma_split(th, range_text(c, d));
    lemma_range_ports(a, b);
    lemma_range_ports(c, d);
}

} // verus!

//! The fixed-precision, line-oriented wire format.
//!
//! One line per complex sample, `re,im\n`, each component rendered as a
//! fixed-point decimal with exactly two digits after the point. The spec
//! functions here define the format once; the writer produces exactly that
//! text and the parser accepts exactly that text, which is what makes the
//! cross-process comparison byte-exact rather than tolerance-based.

use vstd::prelude::*;
use crate::sample::{Sample, component_wf, sample_wf, signal_wf};

verus! {

/// ASCII code of a decimal digit.
pub open spec fn is_digit(c: u8) -> bool {
    48 <= c <= 57
}

/// The canonical decimal digits of `n`, most significant first, with no
/// leading zeros (`0` renders as the single digit `0`).
pub open spec fn dec_rep(n: nat) -> Seq<u8>
    decreases n,
{
    if n < 10 {
        seq![(48 + n) as u8]
    } else {
        dec_rep((n / 10) as nat) + seq![(48 + n % 10) as u8]
    }
}

/// The numeric value of a run of decimal digits, most significant first.
pub open spec fn digits_val(s: Seq<u8>) -> nat
    decreases s.len(),
{
    if s.len() == 0 {
        0
    } else {
        digits_val(s.drop_last()) * 10 + (s.last() - 48) as nat
    }
}

/// Magnitude of a component value.
pub open spec fn abs_val(v: int) -> nat {
    if v < 0 {
        (-v) as nat
    } else {
        v as nat
    }
}

/// The text of one component held in hundredths: an optional minus sign,
/// the canonical integer part, a point, then exactly two fractional digits.
pub open spec fn render_component(v: int) -> Seq<u8> {
    let a = abs_val(v);
    let sign: Seq<u8> = if v < 0 {
        seq![45u8]
    } else {
        Seq::<u8>::empty()
    };
    sign + dec_rep(a / 100) + seq![46u8, (48 + (a / 10) % 10) as u8, (48 + a % 10) as u8]
}

/// The text of one sample: real component, comma, imaginary component,
/// newline.
pub open spec fn render_sample(s: Sample) -> Seq<u8> {
    render_component(s.re as int) + seq![44u8] + render_component(s.im as int) + seq![10u8]
}

/// The text of a whole signal: the samples' lines in order, nothing else.
pub open spec fn render_signal(q: Seq<Sample>) -> Seq<u8>
    decreases q.len(),
{
    if q.len() == 0 {
        Seq::<u8>::empty()
    } else {
        render_sample(q[0]) + render_signal(q.drop_first())
    }
}

/// Appends the canonical decimal digits of `n`.
pub(crate) fn push_decimal(out: &mut Vec<u8>, n: u64)
    ensures
        final(out)@ == old(out)@ + dec_rep(n as nat),
    decreases n,
{
    if n < 10 {
        out.push(48 + n as u8);
        assert(out@ =~= old(out)@ + dec_rep(n as nat));
    } else {
        push_decimal(out, n / 10);
        out.push(48 + (n % 10) as u8);
        assert(out@ =~= old(out)@ + dec_rep(n as nat));
    }
}

/// Appends the fixed-point text of one component held in hundredths.
fn push_component(out: &mut Vec<u8>, v: i64)
    requires
        component_wf(v),
    ensures
        final(out)@ == old(out)@ + render_component(v as int),
{
    let a: u64;
    if v < 0 {
        out.push(45);
        a = (-v) as u64;
    } else {
        a = v as u64;
    }
    assert(a as nat == abs_val(v as int));
    push_decimal(out, a / 100);
    out.push(46);
    out.push(48 + ((a / 10) % 10) as u8);
    out.push(48 + (a % 10) as u8);
    assert(out@ =~= old(out)@ + render_component(v as int));
}

/// Serializes a signal to the wire format, one `re,im` line per sample.
pub fn write_signal(signal: &Vec<Sample>) -> (r: Vec<u8>)
    requires
        signal_wf(signal@),
    ensures
        r@ == render_signal(signal@),
{
    let mut out: Vec<u8> = Vec::new();
    let mut i: usize = 0;
    while i < signal.len()
        invariant
            i <= signal.len(),
            signal_wf(signal@),
            out@ == render_signal(signal@.take(i as int)),
        decreases signal.len() - i,
    {
        let s = signal[i];
        assert(sample_wf(s));
        push_component(&mut out, s.re);
        out.push(44);
        push_component(&mut out, s.im);
        out.push(10);
        proof {
            lemma_render_signal_push(signal@.take(i as int), s);
            assert(signal@.take(i + 1 as int) =~= signal@.take(i as int).push(s));
            assert(out@ =~= render_signal(signal@.take(i as int)) + render_sample(s));
        }
        i = i + 1;
    }
    proof {
        assert(signal@.take(signal@.len() as int) =~= signal@);
    }
    out
}

/// The canonical digits of `n`: at least one, all decimal digits, and no
/// leading zero unless `n` itself is zero.
pub proof fn lemma_dec_rep_props(n: nat)
    ensures
        dec_rep(n).len() >= 1,
        forall|i: int| 0 <= i < dec_rep(n).len() ==> is_digit(#[trigger] dec_rep(n)[i]),
        n >= 1 ==> dec_rep(n)[0] != 48,
        n < 10 <==> dec_rep(n).len() == 1,
    decreases n,
{
    if n < 10 {
    } else {
        lemma_dec_rep_props(n / 10);
        assert forall|i: int| 0 <= i < dec_rep(n).len() implies is_digit(#[trigger] dec_rep(n)[i]) by {
            if i < dec_rep(n / 10).len() {
                assert(dec_rep(n)[i] == dec_rep(n / 10)[i]);
            } else {
                assert(dec_rep(n)[i] == (48 + n % 10) as u8);
            }
        }
        assert(dec_rep(n)[0] == dec_rep(n / 10)[0]);
    }
}

/// Reading the canonical digits of `n` back as a number yields `n`.
pub proof fn lemma_digits_val_dec_rep(n: nat)
    ensures
        digits_val(dec_rep(n)) == n,
    decreases n,
{
    if n < 10 {
        let s = dec_rep(n);
        assert(s == seq![(48 + n) as u8]);
        assert(s.len() == 1);
        assert(s.drop_last() =~= Seq::<u8>::empty());
        assert(digits_val(s.drop_last()) == 0);
        assert(s.last() == (48 + n) as u8);
        assert(digits_val(s) == digits_val(s.drop_last()) * 10 + (s.last() - 48) as nat);
    } else {
        lemma_digits_val_dec_rep(n / 10);
        let s = dec_rep(n);
        assert(s == dec_rep(n / 10) + seq![(48 + n % 10) as u8]);
        assert(s.drop_last() =~= dec_rep(n / 10));
        assert(s.last() == (48 + n % 10) as u8);
        assert(digits_val(s) == digits_val(s.drop_last()) * 10 + (s.last() - 48) as nat);
    }
}

/// A digit run headed by a nonzero digit has a positive value.
pub proof fn lemma_digits_val_pos(s: Seq<u8>)
    requires
        s.len() >= 1,
        forall|i: int| 0 <= i < s.len() ==> is_digit(#[trigger] s[i]),
        s[0] != 48,
    ensures
        digits_val(s) >= 1,
    decreases s.len(),
{
    if s.len() == 1 {
    } else {
        assert(s.drop_last()[0] == s[0]);
        lemma_digits_val_pos(s.drop_last());
    }
}

/// The value of a prefix of a digit run never exceeds the whole run's value.
pub proof fn lemma_digits_val_prefix(s: Seq<u8>, m: int)
    requires
        0 <= m <= s.len(),
    ensures
        digits_val(s.take(m)) <= digits_val(s),
    decreases s.len(),
{
    if m == s.len() {
        assert(s.take(m) =~= s);
    } else {
        assert(s.take(m) =~= s.drop_last().take(m));
        lemma_digits_val_prefix(s.drop_last(), m);
    }
}

/// A nonempty digit run without a leading zero is the canonical rendering
/// of its own value.
pub proof fn lemma_dec_rep_of_digits(s: Seq<u8>)
    requires
        s.len() >= 1,
        forall|i: int| 0 <= i < s.len() ==> is_digit(#[trigger] s[i]),
        s.len() > 1 ==> s[0] != 48,
    ensures
        dec_rep(digits_val(s)) == s,
    decreases s.len(),
{
    if s.len() == 1 {
        assert(s.drop_last() =~= Seq::<u8>::empty());
        assert(digits_val(s.drop_last()) == 0);
        assert(s.last() == s[0]);
        assert(digits_val(s) == digits_val(s.drop_last()) * 10 + (s.last() - 48) as nat);
        assert(digits_val(s) == (s[0] - 48) as nat);
        assert(is_digit(s[0]));
        assert(digits_val(s) < 10);
        assert(dec_rep(digits_val(s)) == seq![(48 + digits_val(s)) as u8]);
        assert(dec_rep(digits_val(s)) =~= s);
    } else {
        let p = s.drop_last();
        assert(p[0] == s[0]);
        lemma_dec_rep_of_digits(p);
        lemma_digits_val_pos(p);
        let n = digits_val(s);
        assert(n == digits_val(p) * 10 + (s.last() - 48) as nat);
        assert(n >= 10);
        assert(n / 10 == digits_val(p) && n % 10 == (s.last() - 48) as nat) by (nonlinear_arith)
            requires
                n == digits_val(p) * 10 + (s.last() - 48) as nat,
                ((s.last() - 48) as nat) < 10;
        assert(dec_rep(n) == dec_rep(digits_val(p)) + seq![(48 + n % 10) as u8]);
        assert(dec_rep(n) =~= s);
    }
}

/// Shape of one rendered component: an optional leading minus, digits, and
/// a single point three places from the end; never a comma or a newline.
pub proof fn lemma_render_component_props(v: int)
    ensures
        render_component(v).len() == (if v < 0 { 1int } else { 0int }) + dec_rep(
            abs_val(v) / 100,
        ).len() + 3,
        render_component(v).len() >= 4,
        forall|i: int| 0 <= i < render_component(v).len() ==> #[trigger] render_component(v)[i]
            != 44 && render_component(v)[i] != 10,
        forall|i: int| 0 <= i < render_component(v).len() ==> (#[trigger] render_component(v)[i]
            == 46 <==> i == render_component(v).len() - 3),
        v < 0 ==> render_component(v)[0] == 45,
        v >= 0 ==> is_digit(render_component(v)[0]),
        forall|i: int| (if v < 0 { 1int } else { 0int }) <= i < render_component(v).len()
            ==> #[trigger] render_component(v)[i] != 45,
{
    lemma_dec_rep_props(abs_val(v) / 100);
    let rc = render_component(v);
    let sign: int = if v < 0 { 1 } else { 0 };
    let d = dec_rep(abs_val(v) / 100);
    assert forall|i: int| 0 <= i < rc.len() implies {
        &&& #[trigger] rc[i] != 44
        &&& rc[i] != 10
        &&& (rc[i] == 46 <==> i == rc.len() - 3)
        &&& (i >= sign ==> rc[i] != 45)
    } by {
        if i < sign {
            assert(rc[i] == 45);
        } else if i < sign + d.len() {
            assert(rc[i] == d[i - sign]);
            assert(is_digit(d[i - sign]));
        } else if i == sign + d.len() {
            assert(rc[i] == 46);
        } else if i == sign + d.len() + 1 {
            assert(rc[i] == (48 + (abs_val(v) / 10) % 10) as u8);
        } else {
            assert(rc[i] == (48 + abs_val(v) % 10) as u8);
        }
    }
}

/// Shape of one rendered sample line: the only newline is the final byte,
/// and the only comma stands right after the real component.
pub proof fn lemma_render_sample_props(s: Sample)
    ensures
        render_sample(s).len() == render_component(s.re as int).len() + render_component(
            s.im as int,
        ).len() + 2,
        render_sample(s).len() >= 10,
        render_sample(s)[render_sample(s).len() - 1] == 10,
        forall|i: int| 0 <= i < render_sample(s).len() - 1 ==> #[trigger] render_sample(s)[i]
            != 10,
        forall|i: int| 0 <= i < render_sample(s).len() ==> (#[trigger] render_sample(s)[i] == 44
            <==> i == render_component(s.re as int).len()),
{
    lemma_render_component_props(s.re as int);
    lemma_render_component_props(s.im as int);
    let rs = render_sample(s);
    let ra = render_component(s.re as int);
    let rb = render_component(s.im as int);
    assert forall|i: int| 0 <= i < rs.len() implies {
        &&& (i < rs.len() - 1 ==> #[trigger] rs[i] != 10)
        &&& (rs[i] == 44 <==> i == ra.len())
    } by {
        if i < ra.len() {
            assert(rs[i] == ra[i]);
        } else if i == ra.len() {
            assert(rs[i] == 44);
        } else if i < ra.len() + 1 + rb.len() {
            assert(rs[i] == rb[i - ra.len() - 1]);
        } else {
            assert(rs[i] == 10);
        }
    }
    assert(rs[rs.len() - 1] == 10);
}

/// Two equal component renderings come from the same value.
pub proof fn lemma_render_component_inj(a: int, b: int)
    requires
        render_component(a) == render_component(b),
    ensures
        a == b,
{
    lemma_render_component_props(a);
    lemma_render_component_props(b);
    let ra = render_component(a);
    let rb = render_component(b);
    let da = dec_rep(abs_val(a) / 100);
    let db = dec_rep(abs_val(b) / 100);
    lemma_dec_rep_props(abs_val(a) / 100);
    lemma_dec_rep_props(abs_val(b) / 100);
    // The sign is determined by the first byte.
    assert(ra[0] == rb[0]);
    assert((a < 0) <==> (b < 0));
    let sign: int = if a < 0 { 1 } else { 0 };
    assert(da.len() == db.len());
    assert(da =~= db) by {
        assert forall|i: int| 0 <= i < da.len() implies da[i] == db[i] by {
            assert(ra[sign + i] == da[i]);
            assert(rb[sign + i] == db[i]);
        }
    }
    lemma_digits_val_dec_rep(abs_val(a) / 100);
    lemma_digits_val_dec_rep(abs_val(b) / 100);
    assert(abs_val(a) / 100 == abs_val(b) / 100);
    assert(ra[ra.len() - 2] == (48 + (abs_val(a) / 10) % 10) as u8);
    assert(rb[rb.len() - 2] == (48 + (abs_val(b) / 10) % 10) as u8);
    assert(ra[ra.len() - 1] == (48 + abs_val(a) % 10) as u8);
    assert(rb[rb.len() - 1] == (48 + abs_val(b) % 10) as u8);
    assert((abs_val(a) / 10) % 10 == (abs_val(b) / 10) % 10);
    assert(abs_val(a) % 10 == abs_val(b) % 10);
    lemma_hundredths_decompose(abs_val(a));
    lemma_hundredths_decompose(abs_val(b));
    assert(abs_val(a) == abs_val(b));
}

/// Any natural number splits into its hundreds, its tens digit and its
/// units digit.
pub proof fn lemma_hundredths_decompose(n: nat)
    ensures
        n == 100 * (n / 100) + 10 * ((n / 10) % 10) + n % 10,
{
    assert(n == 100 * (n / 100) + 10 * ((n / 10) % 10) + n % 10) by (nonlinear_arith);
}

/// Two equal sample lines come from the same sample.
pub proof fn lemma_render_sample_inj(x: Sample, y: Sample)
    requires
        render_sample(x) == render_sample(y),
    ensures
        x == y,
{
    lemma_render_sample_props(x);
    lemma_render_sample_props(y);
    lemma_render_component_props(x.re as int);
    lemma_render_component_props(y.re as int);
    let rs = render_sample(x);
    let ax = render_component(x.re as int);
    let ay = render_component(y.re as int);
    let bx = render_component(x.im as int);
    let by_ = render_component(y.im as int);
    // The unique comma fixes where the real component ends.
    assert(render_sample(x)[ax.len() as int] == 44);
    assert(render_sample(y)[ay.len() as int] == 44);
    assert(ax.len() == ay.len());
    assert(bx.len() == by_.len());
    assert(ax =~= ay) by {
        assert forall|i: int| 0 <= i < ax.len() implies ax[i] == ay[i] by {
            assert(render_sample(x)[i] == ax[i]);
            assert(render_sample(y)[i] == ay[i]);
        }
    }
    assert(bx =~= by_) by {
        assert forall|i: int| 0 <= i < bx.len() implies bx[i] == by_[i] by {
            assert(render_sample(x)[ax.len() + 1 + i] == bx[i]);
            assert(render_sample(y)[ay.len() + 1 + i] == by_[i]);
        }
    }
    lemma_render_component_inj(x.re as int, y.re as int);
    lemma_render_component_inj(x.im as int, y.im as int);
}

/// Rendering distributes over appending one sample at the end.
pub proof fn lemma_render_signal_push(q: Seq<Sample>, s: Sample)
    ensures
        render_signal(q.push(s)) == render_signal(q) + render_sample(s),
    decreases q.len(),
{
    if q.len() == 0 {
        assert(q.push(s)[0] == s);
        assert(q.push(s).drop_first() =~= Seq::<Sample>::empty());
        assert(render_signal(q.push(s)) == render_sample(s) + render_signal(Seq::<Sample>::empty()));
        assert(render_sample(s) + Seq::<u8>::empty() =~= render_sample(s));
        assert(render_signal(q) == Seq::<u8>::empty());
        assert(Seq::<u8>::empty() + render_sample(s) =~= render_sample(s));
    } else {
        lemma_render_signal_push(q.drop_first(), s);
        assert(q.push(s).drop_first() =~= q.drop_first().push(s));
        assert(q.push(s)[0] == q[0]);
        assert(render_signal(q.push(s)) == render_sample(q[0]) + render_signal(q.drop_first().push(s)));
        assert(render_sample(q[0]) + (render_signal(q.drop_first()) + render_sample(s)) =~= (render_sample(q[0])
            + render_signal(q.drop_first())) + render_sample(s));
    }
}

/// Rendering distributes over concatenation of signals.
pub proof fn lemma_render_signal_cat(a: Seq<Sample>, b: Seq<Sample>)
    ensures
        render_signal(a + b) == render_signal(a) + render_signal(b),
    decreases a.len(),
{
    if a.len() == 0 {
        assert(a + b =~= b);
        assert(Seq::<u8>::empty() + render_signal(b) =~= render_signal(b));
    } else {
        lemma_render_signal_cat(a.drop_first(), b);
        assert((a + b).drop_first() =~= a.drop_first() + b);
        assert((a + b)[0] == a[0]);
        assert(render_signal(a + b) == render_sample(a[0]) + (render_signal(a.drop_first())
            + render_signal(b)));
        assert(render_sample(a[0]) + (render_signal(a.drop_first()) + render_signal(b))
            =~= (render_sample(a[0]) + render_signal(a.drop_first())) + render_signal(b));
    }
}

/// A rendered signal that is a prefix of another rendered signal comes from
/// a prefix of the other signal: the line format is self-delimiting, so the
/// text read so far determines the samples read so far.
pub proof fn lemma_render_prefix_determined(a: Seq<Sample>, b: Seq<Sample>)
    requires
        render_signal(a).len() <= render_signal(b).len(),
        render_signal(b).take(render_signal(a).len() as int) == render_signal(a),
    ensures
        a.len() <= b.len(),
        b.take(a.len() as int) == a,
    decreases a.len(),
{
    if a.len() == 0 {
        assert(b.take(0) =~= a);
    } else {
        let t = render_signal(b);
        let ra = render_sample(a[0]);
        lemma_render_sample_props(a[0]);
        assert(render_signal(a) == ra + render_signal(a.drop_first()));
        assert(render_signal(a).len() >= ra.len());
        if b.len() == 0 {
            assert(render_signal(b).len() == 0);
            assert(false);
        }
        let rb = render_sample(b[0]);
        lemma_render_sample_props(b[0]);
        assert(t == rb + render_signal(b.drop_first()));
        assert(forall|i: int| 0 <= i < render_signal(a).len() ==> #[trigger] t[i]
            == render_signal(a)[i]);
        // The first newline pins both first lines to the same length.
        assert(render_signal(a)[ra.len() - 1] == ra[ra.len() - 1]);
        if ra.len() < rb.len() {
            assert(t[ra.len() - 1] == rb[ra.len() - 1]);
            assert(rb[ra.len() - 1] != 10);
            assert(false);
        }
        if ra.len() > rb.len() {
            assert(t[rb.len() - 1] == rb[rb.len() - 1]);
            assert(rb[rb.len() - 1] == 10);
            assert(render_signal(a)[rb.len() - 1] == ra[rb.len() - 1]);
            assert(ra[rb.len() - 1] != 10);
            assert(false);
        }
        assert(ra.len() == rb.len());
        assert(ra =~= rb) by {
            assert forall|i: int| 0 <= i < ra.len() implies ra[i] == rb[i] by {
                assert(render_signal(a)[i] == ra[i]);
                assert(t[i] == rb[i]);
            }
        }
        lemma_render_sample_inj(a[0], b[0]);
        let a2 = a.drop_first();
        let b2 = b.drop_first();
        assert(render_signal(b2).take(render_signal(a2).len() as int) =~= render_signal(a2)) by {
            assert forall|i: int| 0 <= i < render_signal(a2).len() implies render_signal(b2)[i]
                == render_signal(a2)[i] by {
                assert(render_signal(a)[ra.len() + i] == render_signal(a2)[i]);
                assert(t[ra.len() + i] == render_signal(b2)[i]);
            }
        }
        lemma_render_prefix_determined(a2, b2);
        assert(b.take(a.len() as int) =~= a) by {
            assert forall|i: int| 0 <= i < a.len() implies b.take(a.len() as int)[i] == a[i] by {
                if i > 0 {
                    assert(b2.take(a2.len() as int)[i - 1] == a2[i - 1]);
                }
            }
        }
    }
}

/// Serialization is injective: equal fixture texts come from equal signals.
/// Together with the writer's and the parser's contracts this is the round
/// trip law: parsing a written signal yields exactly that signal.
pub proof fn lemma_render_signal_inj(a: Seq<Sample>, b: Seq<Sample>)
    requires
        render_signal(a) == render_signal(b),
    ensures
        a == b,
{
    assert(render_signal(b).take(render_signal(a).len() as int) =~= render_signal(a));
    assert(render_signal(a).take(render_signal(b).len() as int) =~= render_signal(b));
    lemma_render_prefix_determined(a, b);
    lemma_render_prefix_determined(b, a);
    assert(a.len() == b.len());
    assert(a =~= b);
}

} // verus!

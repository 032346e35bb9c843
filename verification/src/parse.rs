//! Parsing the wire format back into a signal.
//!
//! The parser accepts exactly the texts that the writer produces: one
//! canonical fixed-point line per sample. Its contract states both
//! directions, so together with the writer's contract and the injectivity
//! of the format it yields the round-trip law.

use vstd::prelude::*;
use crate::sample::{Sample, component_wf, sample_wf, signal_wf};
use crate::serialize::{
    is_digit, dec_rep, digits_val, abs_val, render_component, render_sample, render_signal,
    lemma_dec_rep_props, lemma_digits_val_dec_rep, lemma_digits_val_prefix,
    lemma_dec_rep_of_digits, lemma_render_component_props, lemma_hundredths_decompose,
    lemma_render_signal_push, lemma_render_signal_cat, lemma_render_prefix_determined,
};

verus! {

/// A text that is not exactly a serialized signal is rejected.
#[derive(Clone, Copy, Debug, PartialEq, Eq, Structural)]
pub enum ParseError {
    /// The text is not in the wire format.
    Malformed,
}

/// `p` occurs in `t` starting at position `i`.
pub open spec fn starts_at(t: Seq<u8>, p: Seq<u8>, i: int) -> bool {
    0 <= i && i + p.len() <= t.len() && t.subrange(i, i + p.len()) == p
}

/// The largest integer part a component can carry without its magnitude in
/// hundredths overflowing a signed 64-bit count.
pub const MAX_INT_PART: u64 = 92233720368547758;

/// Reads the maximal digit run from `start`, rejecting values whose
/// integer part could not belong to any representable component.
fn scan_digits(t: &Vec<u8>, start: usize) -> (r: Result<(u64, usize), ParseError>)
    requires
        start <= t@.len(),
    ensures
        r matches Ok((val, end)) ==> {
            &&& start <= end <= t@.len()
            &&& (forall|i: int| start <= i < end ==> is_digit(#[trigger] t@[i]))
            &&& (end == t@.len() || !is_digit(t@[end as int]))
            &&& val == digits_val(t@.subrange(start as int, end as int))
            &&& val <= MAX_INT_PART
        },
        r is Err ==> exists|m: int|
            #![trigger t@.subrange(start as int, m)]
            start < m <= t@.len() && (forall|i: int| start <= i < m ==> is_digit(#[trigger] t@[i]))
                && digits_val(t@.subrange(start as int, m)) > MAX_INT_PART as nat,
{
    let mut j: usize = start;
    let mut acc: u64 = 0;
    proof {
        assert(t@.subrange(start as int, start as int) =~= Seq::<u8>::empty());
    }
    while j < t.len() && 48 <= t[j] && t[j] <= 57
        invariant
            start <= j <= t@.len(),
            forall|i: int| start <= i < j ==> is_digit(#[trigger] t@[i]),
            acc == digits_val(t@.subrange(start as int, j as int)),
            acc <= MAX_INT_PART,
        decreases t@.len() - j,
    {
        let d = t[j] - 48;
        let new_acc = acc * 10 + d as u64;
        proof {
            assert(t@.subrange(start as int, j + 1) =~= t@.subrange(start as int, j as int).push(
                t@[j as int],
            ));
            assert(t@.subrange(start as int, j + 1).drop_last() =~= t@.subrange(
                start as int,
                j as int,
            ));
            assert(digits_val(t@.subrange(start as int, j + 1)) == acc * 10 + (t@[j as int]
                - 48) as nat);
        }
        if new_acc > MAX_INT_PART {
            proof {
                assert(digits_val(t@.subrange(start as int, j + 1)) > MAX_INT_PART as nat);
            }
            return Err(ParseError::Malformed);
        }
        acc = new_acc;
        j = j + 1;
    }
    Ok((acc, j))
}

/// In any text where a component rendering starts at `start` and the digit
/// run from `ds` is maximal, the run is exactly the rendering's integer
/// part, and the point and fractional digits sit right after it.
proof fn lemma_match_alignment(t: Seq<u8>, start: int, v: i64, ds: int, dot: int)
    requires
        component_wf(v),
        starts_at(t, render_component(v as int), start),
        ds == start + if v < 0 { 1int } else { 0int },
        ds <= dot <= t.len(),
        forall|i: int| ds <= i < dot ==> is_digit(#[trigger] t[i]),
        dot == t.len() || !is_digit(t[dot]),
    ensures
        dot == ds + dec_rep(abs_val(v as int) / 100).len(),
        t.subrange(ds, dot) == dec_rep(abs_val(v as int) / 100),
        digits_val(t.subrange(ds, dot)) == abs_val(v as int) / 100,
        abs_val(v as int) / 100 <= MAX_INT_PART as nat,
        dot + 3 == start + render_component(v as int).len(),
        dot + 3 <= t.len(),
        dot > ds,
        t[dot] == 46,
        t[dot + 1] == (48 + (abs_val(v as int) / 10) % 10) as u8,
        t[dot + 2] == (48 + abs_val(v as int) % 10) as u8,
        dot - ds > 1 ==> t[ds] != 48,
        v < 0 ==> t[start] == 45,
{
    let av = abs_val(v as int);
    let d = dec_rep(av / 100);
    let l = d.len() as int;
    let rc = render_component(v as int);
    let sign: int = if v < 0 { 1 } else { 0 };
    lemma_render_component_props(v as int);
    lemma_dec_rep_props(av / 100);
    assert(rc.len() == sign + l + 3);
    assert(forall|k: int| 0 <= k < rc.len() ==> #[trigger] t[start + k] == rc[k]) by {
        assert(forall|k: int| 0 <= k < rc.len() ==> t.subrange(start, start + rc.len())[k]
            == rc[k]);
    }
    assert(forall|k: int| 0 <= k < l ==> #[trigger] rc[sign + k] == d[k]);
    assert(forall|k: int| 0 <= k < l ==> is_digit(#[trigger] d[k]));
    assert(rc[sign + l] == 46);
    assert(!is_digit(46u8));
    // The maximal digit run stops exactly at the point.
    if dot < ds + l {
        assert(t[dot] == rc[sign + (dot - ds)]);
        assert(rc[sign + (dot - ds)] == d[dot - ds]);
        assert(is_digit(t[dot]));
        assert(dot < t.len());
        assert(false);
    }
    if dot > ds + l {
        assert(is_digit(t[ds + l]));
        assert(t[ds + l] == rc[sign + l]);
        assert(false);
    }
    assert(dot == ds + l);
    assert(t.subrange(ds, dot) =~= d) by {
        assert forall|k: int| 0 <= k < l implies t.subrange(ds, dot)[k] == d[k] by {
            assert(t[ds + k] == rc[sign + k]);
        }
    }
    lemma_digits_val_dec_rep(av / 100);
    // A representable magnitude keeps the integer part under the cap.
    assert(av <= i64::MAX);
    assert(av / 100 <= MAX_INT_PART as nat);
    assert(t[dot] == rc[sign + l]);
    assert(t[dot + 1] == rc[sign + l + 1]);
    assert(t[dot + 2] == rc[sign + l + 2]);
    if dot - ds > 1 {
        assert(av / 100 >= 10);
        assert(d[0] != 48);
        assert(t[ds] == rc[sign]);
    }
    if v < 0 {
        assert(t[start] == rc[0]);
    }
}

/// A component rendering that starts at `start` fixes the first byte: it is
/// a minus sign exactly when the value is negative.
proof fn lemma_sign_determined(t: Seq<u8>, start: int, v: i64)
    requires
        starts_at(t, render_component(v as int), start),
    ensures
        start < t.len(),
        (t[start] == 45) <==> (v as int) < 0,
{
    lemma_render_component_props(v as int);
    let rc = render_component(v as int);
    assert(t[start] == rc[0]) by {
        assert(t.subrange(start, start + rc.len())[0] == rc[0]);
    }
    if (v as int) < 0 {
        assert(rc[0] == 45);
    } else {
        assert(is_digit(rc[0]));
    }
}

/// Parses one fixed-point component. Succeeds exactly on texts where a
/// canonical component rendering starts at `start`, and then consumes
/// exactly that rendering and returns exactly its value.
#[verifier::rlimit(100)]
pub(crate) fn parse_component_at(t: &Vec<u8>, start: usize) -> (r: Result<
    (i64, usize),
    ParseError,
>)
    requires
        start <= t@.len(),
    ensures
        r matches Ok((v, end)) ==> {
            &&& start < end <= t@.len()
            &&& component_wf(v)
            &&& t@.subrange(start as int, end as int) == render_component(v as int)
        },
        forall|v: i64|
            component_wf(v) && starts_at(t@, render_component(v as int), start as int) ==> r
                == Result::<(i64, usize), ParseError>::Ok(
                (v, (start + render_component(v as int).len()) as usize),
            ),
{
    let ghost tv = t@;
    let neg = start < t.len() && t[start] == 45;
    let ds = if neg {
        start + 1
    } else {
        start
    };
    proof {
        assert forall|v: i64|
            component_wf(v) && starts_at(tv, render_component(v as int), start as int) implies (
        neg <==> (v as int) < 0) by {
            lemma_sign_determined(tv, start as int, v);
        }
    }
    let scanned = scan_digits(t, ds);
    let (ip, dot) = match scanned {
        Ok(p) => p,
        Err(e) => {
            proof {
                assert forall|v: i64|
                    component_wf(v) && starts_at(tv, render_component(v as int), start as int)
                    implies false by {
                    lemma_sign_determined(tv, start as int, v);
                    let m = choose|m: int|
                        #![trigger tv.subrange(ds as int, m)]
                        ds < m <= tv.len() && (forall|i: int|
                            ds <= i < m ==> is_digit(#[trigger] tv[i])) && digits_val(
                            tv.subrange(ds as int, m),
                        ) > MAX_INT_PART as nat;
                    // The run the scanner choked on is a prefix of the
                    // rendering's integer part, whose value is in range.
                    lemma_render_component_props(v as int);
                    lemma_dec_rep_props(abs_val(v as int) / 100);
                    let l = dec_rep(abs_val(v as int) / 100).len() as int;
                    let rc = render_component(v as int);
                    let sign: int = if (v as int) < 0 { 1int } else { 0int };
                    assert(forall|k: int| 0 <= k < rc.len() ==> #[trigger] tv[start + k]
                        == rc[k]) by {
                        assert(forall|k: int| 0 <= k < rc.len() ==> tv.subrange(
                            start as int,
                            start + rc.len(),
                        )[k] == rc[k]);
                    }
                    assert(tv[ds + l] == rc[sign + l]);
                    assert(rc[sign + l] == 46);
                    if m > ds + l {
                        assert(is_digit(tv[ds + l]));
                        assert(false);
                    }
                    assert(tv.subrange(ds as int, ds + l) =~= dec_rep(abs_val(v as int) / 100))
                        by {
                        assert forall|k: int|
                            #![trigger tv.subrange(ds as int, ds + l)[k]]
                            0 <= k < l implies tv.subrange(ds as int, ds + l)[k]
                            == dec_rep(abs_val(v as int) / 100)[k] by {
                            assert(tv[ds + k] == rc[sign + k]);
                        }
                    }
                    lemma_digits_val_dec_rep(abs_val(v as int) / 100);
                    assert(tv.subrange(ds as int, m) =~= tv.subrange(ds as int, ds + l).take(
                        m - ds,
                    ));
                    lemma_digits_val_prefix(tv.subrange(ds as int, ds + l), m - ds);
                    assert(abs_val(v as int) <= i64::MAX);
                    assert(abs_val(v as int) / 100 <= MAX_INT_PART as nat);
                }
            }
            return Err(e);
        },
    };
    // The integer part must be nonempty and canonical.
    if dot == ds || (dot - ds > 1 && t[ds] == 48) {
        proof {
            assert forall|v: i64|
                component_wf(v) && starts_at(tv, render_component(v as int), start as int)
                implies false by {
                lemma_sign_determined(tv, start as int, v);
                lemma_match_alignment(tv, start as int, v, ds as int, dot as int);
            }
        }
        return Err(ParseError::Malformed);
    }
    // The point and exactly two fractional digits.
    if t.len() - dot < 3 || t[dot] != 46 || t[dot + 1] < 48 || t[dot + 1] > 57 || t[dot + 2] < 48
        || t[dot + 2] > 57 {
        proof {
            assert forall|v: i64|
                component_wf(v) && starts_at(tv, render_component(v as int), start as int)
                implies false by {
                lemma_sign_determined(tv, start as int, v);
                lemma_match_alignment(tv, start as int, v, ds as int, dot as int);
            }
        }
        return Err(ParseError::Malformed);
    }
    let d1 = (t[dot + 1] - 48) as u64;
    let d2 = (t[dot + 2] - 48) as u64;
    let a: u64 = ip * 100 + d1 * 10 + d2;
    // The magnitude must be representable, and a zero must carry no sign.
    if a > 9223372036854775807 || (neg && a == 0) {
        proof {
            assert forall|v: i64|
                component_wf(v) && starts_at(tv, render_component(v as int), start as int)
                implies false by {
                lemma_sign_determined(tv, start as int, v);
                lemma_match_alignment(tv, start as int, v, ds as int, dot as int);
                lemma_hundredths_decompose(abs_val(v as int));
            }
        }
        return Err(ParseError::Malformed);
    }
    let v: i64 = if neg {
        -(a as i64)
    } else {
        a as i64
    };
    let end = dot + 3;
    proof {
        assert(abs_val(v as int) == a as nat);
        vstd::arithmetic::div_mod::lemma_fundamental_div_mod_converse(
            a as int,
            100,
            ip as int,
            (d1 * 10 + d2) as int,
        );
        vstd::arithmetic::div_mod::lemma_fundamental_div_mod_converse(
            a as int,
            10,
            (ip * 10 + d1) as int,
            d2 as int,
        );
        vstd::arithmetic::div_mod::lemma_fundamental_div_mod_converse(
            (ip * 10 + d1) as int,
            10,
            ip as int,
            d1 as int,
        );
        assert(a as nat / 100 == ip as nat);
        assert((a as nat / 10) % 10 == d1 as nat);
        assert(a as nat % 10 == d2 as nat);
        lemma_dec_rep_of_digits(tv.subrange(ds as int, dot as int));
        assert(dec_rep(abs_val(v as int) / 100) == tv.subrange(ds as int, dot as int));
        lemma_render_component_props(v as int);
        let rc = render_component(v as int);
        let sign: int = if neg { 1int } else { 0int };
        assert(rc.len() == sign + (dot - ds) + 3);
        assert(tv.subrange(start as int, end as int) =~= rc) by {
            assert forall|k: int| 0 <= k < rc.len() implies tv.subrange(start as int, end as int)[k]
                == rc[k] by {
                if k < sign {
                    assert(tv[start as int] == 45);
                    assert(rc[0] == 45);
                } else if k < sign + (dot - ds) {
                    assert(rc[k] == dec_rep(abs_val(v as int) / 100)[k - sign]);
                    assert(tv.subrange(ds as int, dot as int)[k - sign] == tv[ds + (k - sign)]);
                } else if k == sign + (dot - ds) {
                    assert(rc[k] == 46);
                } else if k == sign + (dot - ds) + 1 {
                    assert(rc[k] == (48 + (abs_val(v as int) / 10) % 10) as u8);
                } else {
                    assert(rc[k] == (48 + abs_val(v as int) % 10) as u8);
                }
            }
        }
        // Any rendering that starts here is this very rendering.
        assert forall|w: i64|
            component_wf(w) && starts_at(tv, render_component(w as int), start as int) implies w
            == v && start + render_component(w as int).len() == end as int by {
            lemma_sign_determined(tv, start as int, w);
            lemma_match_alignment(tv, start as int, w, ds as int, dot as int);
            lemma_hundredths_decompose(abs_val(w as int));
            assert(digits_val(tv.subrange(ds as int, dot as int)) == abs_val(w as int) / 100);
            assert(abs_val(w as int) / 100 == ip as nat);
            assert(tv[dot as int + 1] == (48 + (abs_val(w as int) / 10) % 10) as u8);
            assert((abs_val(w as int) / 10) % 10 == d1 as nat);
            assert(abs_val(w as int) % 10 == d2 as nat);
            assert(abs_val(w as int) == a as nat);
            assert(w == v);
        }
    }
    Ok((v, end))
}

/// Where a sample line starts, its pieces sit at fixed offsets: the real
/// component, the comma, the imaginary component, the newline.
proof fn lemma_sample_decomposition(t: Seq<u8>, start: int, s: Sample)
    requires
        starts_at(t, render_sample(s), start),
    ensures
        render_sample(s).len() == render_component(s.re as int).len() + render_component(
            s.im as int,
        ).len() + 2,
        starts_at(t, render_component(s.re as int), start),
        t[start + render_component(s.re as int).len()] == 44,
        starts_at(t, render_component(s.im as int), start + render_component(s.re as int).len() + 1),
        t[start + render_sample(s).len() - 1] == 10,
{
    let rs = render_sample(s);
    let ra = render_component(s.re as int);
    let rb = render_component(s.im as int);
    assert(forall|k: int| 0 <= k < rs.len() ==> #[trigger] t[start + k] == rs[k]) by {
        assert(forall|k: int| 0 <= k < rs.len() ==> t.subrange(start, start + rs.len())[k]
            == rs[k]);
    }
    assert(forall|k: int| 0 <= k < ra.len() ==> #[trigger] rs[k] == ra[k]);
    assert(rs[ra.len() as int] == 44);
    assert(forall|k: int| 0 <= k < rb.len() ==> #[trigger] rs[ra.len() + 1 + k] == rb[k]);
    assert(rs[rs.len() - 1] == 10);
    assert(t.subrange(start, start + ra.len()) =~= ra) by {
        assert forall|k: int|
            #![trigger t.subrange(start, start + ra.len())[k]]
            0 <= k < ra.len() implies t.subrange(start, start + ra.len())[k] == ra[k] by {
            assert(t[start + k] == rs[k]);
        }
    }
    assert(t[start + ra.len()] == rs[ra.len() as int]);
    assert(t.subrange(start + ra.len() + 1, start + ra.len() + 1 + rb.len()) =~= rb) by {
        assert forall|k: int|
            #![trigger t.subrange(start + ra.len() + 1, start + ra.len() + 1 + rb.len())[k]]
            0 <= k < rb.len() implies t.subrange(
            start + ra.len() + 1,
            start + ra.len() + 1 + rb.len(),
        )[k] == rb[k] by {
            assert(t[start + (ra.len() + 1 + k)] == rs[ra.len() + 1 + k]);
        }
    }
    assert(t[start + rs.len() - 1] == rs[rs.len() - 1]);
}

/// Parses one sample line. Succeeds exactly on texts where a sample
/// rendering starts at `start`, and then consumes exactly that line and
/// returns exactly that sample.
#[verifier::rlimit(100)]
pub(crate) fn parse_sample_at(t: &Vec<u8>, start: usize) -> (r: Result<(Sample, usize), ParseError>)
    requires
        start <= t@.len(),
    ensures
        r matches Ok(p) ==> {
            &&& start < p.1 <= t@.len()
            &&& sample_wf(p.0)
            &&& t@.subrange(start as int, p.1 as int) == render_sample(p.0)
        },
        forall|s: Sample|
            sample_wf(s) && starts_at(t@, render_sample(s), start as int) ==> r == Result::<
                (Sample, usize),
                ParseError,
            >::Ok((s, (start + render_sample(s).len()) as usize)),
{
    let ghost tv = t@;
    let first = parse_component_at(t, start);
    let (vre, p) = match first {
        Ok(pair) => pair,
        Err(e) => {
            proof {
                assert forall|s: Sample|
                    sample_wf(s) && starts_at(tv, render_sample(s), start as int) implies false by {
                    lemma_sample_decomposition(tv, start as int, s);
                }
            }
            return Err(e);
        },
    };
    if p == t.len() || t[p] != 44 {
        proof {
            assert forall|s: Sample|
                sample_wf(s) && starts_at(tv, render_sample(s), start as int) implies false by {
                lemma_sample_decomposition(tv, start as int, s);
            }
        }
        return Err(ParseError::Malformed);
    }
    let second = parse_component_at(t, p + 1);
    let (vim, q) = match second {
        Ok(pair) => pair,
        Err(e) => {
            proof {
                assert forall|s: Sample|
                    sample_wf(s) && starts_at(tv, render_sample(s), start as int) implies false by {
                    lemma_sample_decomposition(tv, start as int, s);
                }
            }
            return Err(e);
        },
    };
    if q == t.len() || t[q] != 10 {
        proof {
            assert forall|s: Sample|
                sample_wf(s) && starts_at(tv, render_sample(s), start as int) implies false by {
                lemma_sample_decomposition(tv, start as int, s);
            }
        }
        return Err(ParseError::Malformed);
    }
    let smp = Sample { re: vre, im: vim };
    let end = q + 1;
    proof {
        let ra = render_component(vre as int);
        let rb = render_component(vim as int);
        assert(tv.subrange(start as int, end as int) =~= render_sample(smp)) by {
            assert forall|k: int|
                #![trigger render_sample(smp)[k]]
                0 <= k < render_sample(smp).len() implies tv.subrange(start as int, end as int)[k]
                == render_sample(smp)[k] by {
                if k < ra.len() {
                    assert(render_sample(smp)[k] == ra[k]);
                    assert(tv.subrange(start as int, p as int)[k] == ra[k]);
                } else if k == ra.len() {
                    assert(render_sample(smp)[k] == 44);
                } else if k < ra.len() + 1 + rb.len() {
                    assert(render_sample(smp)[k] == rb[k - ra.len() - 1]);
                    assert(tv.subrange(p + 1 as int, q as int)[k - ra.len() - 1] == rb[k - ra.len()
                        - 1]);
                } else {
                    assert(render_sample(smp)[k] == 10);
                }
            }
        }
        assert forall|s: Sample|
            sample_wf(s) && starts_at(tv, render_sample(s), start as int) implies s == smp && start
            + render_sample(s).len() == end as int by {
            lemma_sample_decomposition(tv, start as int, s);
            assert(s.re == vre);
            assert(p as int == start + render_component(s.re as int).len());
            assert(s.im == vim);
            assert(q as int == p + 1 + render_component(s.im as int).len());
        }
    }
    Ok((smp, end))
}

/// Parses a whole fixture text. Succeeds exactly on the texts that
/// `write_signal` produces, and then returns the one signal that renders to
/// the text; every other text is malformed.
pub fn parse_signal(t: &Vec<u8>) -> (r: Result<Vec<Sample>, ParseError>)
    ensures
        r matches Ok(sig) ==> signal_wf(sig@) && render_signal(sig@) == t@,
        forall|sig: Seq<Sample>| signal_wf(sig) && render_signal(sig) == t@ ==> r is Ok,
{
    let ghost tv = t@;
    let mut out: Vec<Sample> = Vec::new();
    let mut pos: usize = 0;
    proof {
        assert(tv.take(0) =~= Seq::<u8>::empty());
    }
    while pos < t.len()
        invariant
            pos <= t@.len(),
            tv == t@,
            signal_wf(out@),
            render_signal(out@) == tv.take(pos as int),
        decreases t@.len() - pos,
    {
        let parsed = parse_sample_at(t, pos);
        match parsed {
            Ok(pair) => {
                let (smp, end) = pair;
                proof {
                    lemma_render_signal_push(out@, smp);
                    assert(out@.push(smp)[out@.len() as int] == smp);
                    assert(tv.take(end as int) =~= tv.take(pos as int) + tv.subrange(
                        pos as int,
                        end as int,
                    ));
                    assert(signal_wf(out@.push(smp))) by {
                        assert(forall|i: int| 0 <= i < out@.len() ==> out@.push(smp)[i]
                            == out@[i]);
                    }
                }
                out.push(smp);
                pos = end;
            },
            Err(e) => {
                proof {
                    assert forall|sig: Seq<Sample>|
                        signal_wf(sig) && render_signal(sig) == tv implies false by {
                        assert(render_signal(sig).take(render_signal(out@).len() as int)
                            =~= render_signal(out@)) by {
                            assert(render_signal(out@) =~= tv.take(pos as int));
                        }
                        lemma_render_prefix_determined(out@, sig);
                        let k = out@.len() as int;
                        assert(sig =~= sig.take(k) + sig.skip(k));
                        lemma_render_signal_cat(sig.take(k), sig.skip(k));
                        assert(render_signal(sig.take(k)) == render_signal(out@));
                        let rest = render_signal(sig.skip(k));
                        assert(tv == tv.take(pos as int) + rest);
                        if sig.skip(k).len() == 0 {
                            assert(rest.len() == 0);
                            assert(tv.len() == pos);
                            assert(false);
                        }
                        let nxt = sig.skip(k)[0];
                        assert(sample_wf(nxt)) by {
                            assert(nxt == sig[k]);
                        }
                        assert(rest == render_sample(nxt) + render_signal(sig.skip(k).drop_first()));
                        assert(starts_at(tv, render_sample(nxt), pos as int)) by {
                            assert(tv.subrange(
                                pos as int,
                                pos + render_sample(nxt).len(),
                            ) =~= render_sample(nxt)) by {
                                assert forall|j: int|
                                    #![trigger render_sample(nxt)[j]]
                                    0 <= j < render_sample(nxt).len() implies tv[pos + j]
                                    == render_sample(nxt)[j] by {
                                    assert(tv[pos + j] == (tv.take(pos as int) + rest)[pos + j]);
                                    assert(rest[j] == render_sample(nxt)[j]);
                                }
                            }
                        }
                    }
                }
                return Err(e);
            },
        }
    }
    proof {
        assert(tv.take(tv.len() as int) =~= tv);
    }
    Ok(out)
}

} // verus!

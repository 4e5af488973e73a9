//! Min-max normalization of a sequence of scalars and the linear color ramp.

use vstd::prelude::*;
use vstd::set_lib::{lemma_int_range, lemma_subset_equality, set_int_range};
use crate::fixed::{Fixed, UNITS_PER_ONE};

verus! {

/// A fraction of two machine integers.
#[derive(Clone, Copy, Debug, PartialEq, Eq, Structural)]
pub struct Ratio {
    pub num: u128,
    pub den: u128,
}

impl Ratio {
    /// The number that this fraction stands for.
    pub open spec fn value(self) -> real {
        self.num as real / self.den as real
    }

    /// The fraction has a denominator and lies between zero and one.
    pub open spec fn is_unit(self) -> bool {
        0 < self.den && self.num <= self.den
    }

    /// A fraction between zero and one whose denominator fits in 64 bits,
    /// as normalization produces it.
    pub open spec fn is_shade(self) -> bool {
        self.is_unit() && self.den <= u64::MAX
    }
}

/// A color of three channels, each between zero and one.
#[derive(Clone, Copy, Debug, PartialEq, Eq, Structural)]
pub struct ColorRGB {
    pub r: Ratio,
    pub g: Ratio,
    pub b: Ratio,
}

/// Why a sequence of scalars cannot be normalized.
#[derive(Clone, Copy, Debug, PartialEq, Eq, Structural)]
pub enum NormalizeError {
    /// The sequence is empty, so it has no range.
    InvalidInput,
}

/// `m` occurs in `z` and no element of `z` is below it.
pub open spec fn is_min(z: Seq<Fixed>, m: Fixed) -> bool {
    &&& z.contains(m)
    &&& forall|i: int| 0 <= i < z.len() ==> m.units <= (#[trigger] z[i]).units
}

/// `m` occurs in `z` and no element of `z` is above it.
pub open spec fn is_max(z: Seq<Fixed>, m: Fixed) -> bool {
    &&& z.contains(m)
    &&& forall|i: int| 0 <= i < z.len() ==> (#[trigger] z[i]).units <= m.units
}

/// The least element of a non-empty sequence.
pub open spec fn seq_min(z: Seq<Fixed>) -> Fixed
    decreases z.len(),
{
    if z.len() <= 1 {
        z[0]
    } else {
        let m = seq_min(z.drop_last());
        if z.last().units < m.units {
            z.last()
        } else {
            m
        }
    }
}

/// The greatest element of a non-empty sequence.
pub open spec fn seq_max(z: Seq<Fixed>) -> Fixed
    decreases z.len(),
{
    if z.len() <= 1 {
        z[0]
    } else {
        let m = seq_max(z.drop_last());
        if z.last().units > m.units {
            z.last()
        } else {
            m
        }
    }
}

/// `seq_min` and `seq_max` are the least and the greatest element.
pub proof fn lemma_seq_min_max(z: Seq<Fixed>)
    requires
        z.len() > 0,
    ensures
        is_min(z, seq_min(z)),
        is_max(z, seq_max(z)),
    decreases z.len(),
{
    if z.len() == 1 {
        assert(z[0] == seq_min(z));
        assert(z[0] == seq_max(z));
    } else {
        let head = z.drop_last();
        lemma_seq_min_max(head);
        let lo = seq_min(head);
        let hi = seq_max(head);
        let i = choose|i: int| 0 <= i < head.len() && head[i] == lo;
        let j = choose|j: int| 0 <= j < head.len() && head[j] == hi;
        assert(z[i] == lo);
        assert(z[j] == hi);
        assert(z[z.len() - 1] == z.last());
        assert forall|k: int| 0 <= k < z.len() implies seq_min(z).units <= (#[trigger] z[k]).units by {
            if k < head.len() {
                assert(head[k] == z[k]);
            }
        }
        assert forall|k: int| 0 <= k < z.len() implies (#[trigger] z[k]).units <= seq_max(z).units by {
            if k < head.len() {
                assert(head[k] == z[k]);
            }
        }
    }
}

/// A sequence has at most one least and one greatest element.
pub proof fn lemma_min_max_unique(z: Seq<Fixed>, a: Fixed, b: Fixed)
    ensures
        is_min(z, a) && is_min(z, b) ==> a == b,
        is_max(z, a) && is_max(z, b) ==> a == b,
{
    if is_min(z, a) && is_min(z, b) {
        let i = choose|i: int| 0 <= i < z.len() && z[i] == a;
        let j = choose|j: int| 0 <= j < z.len() && z[j] == b;
        assert(a.units <= z[j].units);
        assert(b.units <= z[i].units);
    }
    if is_max(z, a) && is_max(z, b) {
        let i = choose|i: int| 0 <= i < z.len() && z[i] == a;
        let j = choose|j: int| 0 <= j < z.len() && z[j] == b;
        assert(z[j].units <= a.units);
        assert(z[i].units <= b.units);
    }
}

/// The least and the greatest element, found in one pass; `None` for an
/// empty sequence.
pub fn min_max(values: &Vec<Fixed>) -> (r: Option<(Fixed, Fixed)>)
    ensures
        values.len() == 0 <==> r is None,
        r matches Some((lo, hi)) ==> lo == seq_min(values@) && hi == seq_max(values@),
        r matches Some((lo, hi)) ==> is_min(values@, lo) && is_max(values@, hi),
{
    if values.len() == 0 {
        return None;
    }
    let mut lo = values[0];
    let mut hi = values[0];
    let mut i: usize = 1;
    assert(values@.subrange(0, 1).len() == 1);
    while i < values.len()
        invariant
            1 <= i <= values.len(),
            lo == seq_min(values@.subrange(0, i as int)),
            hi == seq_max(values@.subrange(0, i as int)),
        decreases values.len() - i,
    {
        let v = values[i];
        proof {
            let next = values@.subrange(0, i + 1);
            assert(next.drop_last() == values@.subrange(0, i as int));
            assert(next.last() == v);
        }
        if v.units < lo.units {
            lo = v;
        }
        if v.units > hi.units {
            hi = v;
        }
        i += 1;
    }
    proof {
        assert(values@.subrange(0, i as int) == values@);
        lemma_seq_min_max(values@);
    }
    Some((lo, hi))
}

/// The share of the way from `lo` to `hi` at which `v` lies, and zero where
/// `lo` and `hi` coincide.
pub open spec fn normalized(v: Fixed, lo: Fixed, hi: Fixed) -> Ratio {
    if hi.units == lo.units {
        Ratio { num: 0, den: 1 }
    } else {
        Ratio { num: (v.units - lo.units) as u128, den: (hi.units - lo.units) as u128 }
    }
}

/// Each element of `z` normalized against the least and the greatest one.
pub open spec fn spec_normalize(z: Seq<Fixed>) -> Seq<Ratio> {
    Seq::new(z.len(), |i: int| normalized(z[i], seq_min(z), seq_max(z)))
}

/// The green-dominant linear ramp: three tenths, nine tenths and three
/// tenths of `t`.
pub open spec fn ramp(t: Ratio) -> ColorRGB {
    ColorRGB {
        r: Ratio { num: (3 * t.num) as u128, den: (10 * t.den) as u128 },
        g: Ratio { num: (9 * t.num) as u128, den: (10 * t.den) as u128 },
        b: Ratio { num: (3 * t.num) as u128, den: (10 * t.den) as u128 },
    }
}

/// The ramp color of each element of `z` after normalization.
pub open spec fn spec_colors(z: Seq<Fixed>) -> Seq<ColorRGB> {
    Seq::new(z.len(), |i: int| ramp(spec_normalize(z)[i]))
}

/// A value between `lo` and `hi` normalizes to a shade.
pub proof fn lemma_normalized_is_shade(v: Fixed, lo: Fixed, hi: Fixed)
    requires
        lo.units <= v.units <= hi.units,
    ensures
        normalized(v, lo, hi).is_shade(),
        hi.units != lo.units ==> normalized(v, lo, hi).num == v.units - lo.units,
        hi.units != lo.units ==> normalized(v, lo, hi).den == hi.units - lo.units,
{
}

/// A fraction between zero and one stands for a number between zero and
/// one.
pub proof fn lemma_unit_value(t: Ratio)
    requires
        t.is_unit(),
    ensures
        0real <= t.value() <= 1real,
        t.num == 0 <==> t.value() == 0real,
        t.num == t.den <==> t.value() == 1real,
{
    let n = t.num as real;
    let d = t.den as real;
    assert(0real <= n / d <= 1real && (n == 0real <==> n / d == 0real) && (n == d <==> n / d
        == 1real)) by (nonlinear_arith)
        requires
            0real < d,
            0real <= n <= d,
    ;
}

/// Fractions over one denominator are ordered as their numerators are.
pub proof fn lemma_value_order(a: Ratio, b: Ratio)
    requires
        a.den == b.den,
        0 < a.den,
        a.num <= b.num,
    ensures
        a.value() <= b.value(),
{
    let x = a.num as real;
    let y = b.num as real;
    let d = a.den as real;
    assert(x / d <= y / d) by (nonlinear_arith)
        requires
            0real < d,
            x <= y,
    ;
}

/// Every normalized value lies between zero and one. The least element
/// normalizes to zero, and the greatest to one where the range is not
/// empty.
pub proof fn lemma_normalize_range(z: Seq<Fixed>)
    requires
        z.len() > 0,
    ensures
        forall|i: int|
            0 <= i < z.len() ==> 0real <= (#[trigger] spec_normalize(z)[i]).value() <= 1real,
        forall|i: int|
            0 <= i < z.len() && z[i] == seq_min(z) ==> (#[trigger] spec_normalize(z)[i]).value()
                == 0real,
        forall|i: int|
            0 <= i < z.len() && z[i] == seq_max(z) && seq_min(z) != seq_max(z) ==> (
            #[trigger] spec_normalize(z)[i]).value() == 1real,
{
    lemma_seq_min_max(z);
    let lo = seq_min(z);
    let hi = seq_max(z);
    assert forall|i: int| 0 <= i < z.len() implies {
        &&& 0real <= (#[trigger] spec_normalize(z)[i]).value() <= 1real
        &&& z[i] == lo ==> spec_normalize(z)[i].value() == 0real
        &&& z[i] == hi && lo != hi ==> spec_normalize(z)[i].value() == 1real
    } by {
        assert(lo.units <= z[i].units <= hi.units);
        lemma_normalized_is_shade(z[i], lo, hi);
        lemma_unit_value(spec_normalize(z)[i]);
    }
}

/// Where the range is not empty, a normalized value is the distance of the
/// element from the least one, divided by the range.
pub proof fn lemma_normalize_formula(z: Seq<Fixed>, i: int)
    requires
        0 <= i < z.len(),
        seq_min(z) != seq_max(z),
    ensures
        spec_normalize(z)[i].value() == (z[i].value() - seq_min(z).value()) / (seq_max(z).value()
            - seq_min(z).value()),
{
    lemma_seq_min_max(z);
    let lo = seq_min(z);
    let hi = seq_max(z);
    assert(lo.units <= z[i].units <= hi.units);
    lemma_normalized_is_shade(z[i], lo, hi);
    let v = z[i].units as real;
    let l = lo.units as real;
    let h = hi.units as real;
    let one = UNITS_PER_ONE as real;
    assert(spec_normalize(z)[i].value() == (v - l) / (h - l));
    assert((v - l) / (h - l) == (v / one - l / one) / (h / one - l / one)) by (nonlinear_arith)
        requires
            l < h,
            one > 0real,
    ;
}

/// Where all elements are equal, every normalized value is zero.
pub proof fn lemma_normalize_constant(z: Seq<Fixed>)
    requires
        z.len() > 0,
        forall|i: int, j: int| 0 <= i < z.len() && 0 <= j < z.len() ==> z[i] == z[j],
    ensures
        forall|i: int|
            0 <= i < z.len() ==> #[trigger] spec_normalize(z)[i] == (Ratio { num: 0, den: 1 }),
        forall|i: int| 0 <= i < z.len() ==> (#[trigger] spec_normalize(z)[i]).value() == 0real,
{
    lemma_seq_min_max(z);
    let lo = seq_min(z);
    let hi = seq_max(z);
    let a = choose|a: int| 0 <= a < z.len() && z[a] == lo;
    let b = choose|b: int| 0 <= b < z.len() && z[b] == hi;
    assert(z[a] == z[b]);
    assert forall|i: int| 0 <= i < z.len() implies (#[trigger] spec_normalize(z)[i]).value()
        == 0real by {
        lemma_unit_value(spec_normalize(z)[i]);
    }
}

/// Two sequences with the same elements have the same least and greatest
/// element.
pub proof fn lemma_same_elements_same_range(z1: Seq<Fixed>, z2: Seq<Fixed>)
    requires
        z1.len() > 0,
        z2.len() > 0,
        forall|v: Fixed| z1.contains(v) <==> z2.contains(v),
    ensures
        seq_min(z1) == seq_min(z2),
        seq_max(z1) == seq_max(z2),
{
    lemma_seq_min_max(z1);
    lemma_seq_min_max(z2);
    let lo = seq_min(z1);
    let hi = seq_max(z1);
    assert forall|j: int| 0 <= j < z2.len() implies lo.units <= (#[trigger] z2[j]).units
        <= hi.units by {
        assert(z2.contains(z2[j]));
        let k = choose|k: int| 0 <= k < z1.len() && z1[k] == z2[j];
        assert(lo.units <= z1[k].units <= hi.units);
    }
    lemma_min_max_unique(z2, lo, seq_min(z2));
    lemma_min_max_unique(z2, hi, seq_max(z2));
}

/// Normalization follows a rearrangement of its input: where `z2` holds
/// the elements of `z1` in another order, an element has the same
/// normalized value wherever it stands in either of them.
pub proof fn lemma_normalize_rearranged(z1: Seq<Fixed>, z2: Seq<Fixed>)
    requires
        z1.to_multiset() == z2.to_multiset(),
    ensures
        spec_normalize(z1).len() == spec_normalize(z2).len(),
        forall|i: int, j: int|
            0 <= i < z1.len() && 0 <= j < z2.len() && z1[i] == z2[j] ==> #[trigger] spec_normalize(
                z1,
            )[i] == #[trigger] spec_normalize(z2)[j],
{
    z1.to_multiset_ensures();
    z2.to_multiset_ensures();
    if z1.len() > 0 {
        assert forall|v: Fixed| z1.contains(v) <==> z2.contains(v) by {
            assert(z1.contains(v) <==> z1.to_multiset().count(v) > 0);
            assert(z2.contains(v) <==> z2.to_multiset().count(v) > 0);
        }
        lemma_same_elements_same_range(z1, z2);
    }
}

/// Normalization commutes with a permutation of the indices: where `z2[i]`
/// is `z1[p[i]]` for a permutation `p`, the normalized value at `i` of `z2`
/// is the one at `p[i]` of `z1`.
pub proof fn lemma_normalize_permuted(z1: Seq<Fixed>, z2: Seq<Fixed>, p: Seq<int>)
    requires
        p.len() == z1.len(),
        z2.len() == z1.len(),
        p.no_duplicates(),
        forall|i: int| 0 <= i < p.len() ==> 0 <= #[trigger] p[i] < z1.len(),
        forall|i: int| 0 <= i < z2.len() ==> #[trigger] z2[i] == z1[p[i]],
    ensures
        forall|i: int|
            0 <= i < z2.len() ==> #[trigger] spec_normalize(z2)[i] == spec_normalize(z1)[p[i]],
{
    if z1.len() > 0 {
        let n = z1.len() as int;
        assert forall|k: int| 0 <= k < n implies p.contains(k) by {
            let all = set_int_range(0, n);
            p.unique_seq_to_set();
            lemma_int_range(0, n);
            assert(p.to_set().subset_of(all)) by {
                assert forall|x: int| p.to_set().contains(x) implies all.contains(x) by {
                    let i = choose|i: int| 0 <= i < p.len() && p[i] == x;
                    assert(0 <= p[i] < n);
                }
            }
            lemma_subset_equality(p.to_set(), all);
            assert(all.contains(k));
        }
        assert forall|v: Fixed| z1.contains(v) <==> z2.contains(v) by {
            if z1.contains(v) {
                let k = choose|k: int| 0 <= k < z1.len() && z1[k] == v;
                assert(p.contains(k));
                let i = choose|i: int| 0 <= i < p.len() && p[i] == k;
                assert(z2[i] == v);
            }
            if z2.contains(v) {
                let i = choose|i: int| 0 <= i < z2.len() && z2[i] == v;
                assert(z1[p[i]] == v);
            }
        }
        lemma_same_elements_same_range(z1, z2);
    }
}

/// The ramp never darkens a channel as the value grows: of two elements of
/// one sequence, the greater has in each channel at least the share of the
/// smaller.
pub proof fn lemma_ramp_monotonic(z: Seq<Fixed>, i: int, j: int)
    requires
        0 <= i < z.len(),
        0 <= j < z.len(),
        z[i].units <= z[j].units,
    ensures
        spec_colors(z)[i].r.value() <= spec_colors(z)[j].r.value(),
        spec_colors(z)[i].g.value() <= spec_colors(z)[j].g.value(),
        spec_colors(z)[i].b.value() <= spec_colors(z)[j].b.value(),
{
    lemma_seq_min_max(z);
    let lo = seq_min(z);
    let hi = seq_max(z);
    assert(lo.units <= z[i].units <= hi.units);
    assert(lo.units <= z[j].units <= hi.units);
    lemma_normalized_is_shade(z[i], lo, hi);
    lemma_normalized_is_shade(z[j], lo, hi);
    let a = spec_colors(z)[i];
    let b = spec_colors(z)[j];
    lemma_value_order(a.r, b.r);
    lemma_value_order(a.g, b.g);
    lemma_value_order(a.b, b.b);
}

/// Each channel of the ramp is a fixed share of the shade: three tenths in
/// red and blue, nine tenths in green.
pub proof fn lemma_ramp_shares(t: Ratio)
    requires
        t.is_shade(),
    ensures
        ramp(t).r.value() == t.value() * (3real / 10real),
        ramp(t).g.value() == t.value() * (9real / 10real),
        ramp(t).b.value() == t.value() * (3real / 10real),
{
    let n = t.num as real;
    let d = t.den as real;
    assert((3real * n) / (10real * d) == (n / d) * (3real / 10real) && (9real * n) / (10real * d)
        == (n / d) * (9real / 10real)) by (nonlinear_arith)
        requires
            0real < d,
    ;
}

/// Normalizes each value against the range of the whole sequence: the
/// least value becomes zero, the greatest one, and all of them zero where
/// the range is empty. An empty sequence has no range and is refused.
pub fn normalize(values: &Vec<Fixed>) -> (r: Result<Vec<Ratio>, NormalizeError>)
    ensures
        values.len() == 0 ==> r == Err::<Vec<Ratio>, NormalizeError>(NormalizeError::InvalidInput),
        values.len() > 0 ==> r is Ok,
        r matches Ok(out) ==> out@ == spec_normalize(values@),
        r matches Ok(out) ==> forall|i: int| 0 <= i < out.len() ==> (#[trigger] out[i]).is_shade(),
        r matches Ok(out) ==> forall|i: int|
            0 <= i < out.len() ==> 0real <= (#[trigger] out[i]).value() <= 1real,
        r matches Ok(out) ==> forall|i: int|
            0 <= i < out.len() && values[i] == seq_min(values@) ==> (#[trigger] out[i]).value()
                == 0real,
        r matches Ok(out) ==> forall|i: int|
            0 <= i < out.len() && values[i] == seq_max(values@) && seq_min(values@) != seq_max(
                values@,
            ) ==> (#[trigger] out[i]).value() == 1real,
        r matches Ok(out) ==> (forall|i: int, j: int|
            0 <= i < values.len() && 0 <= j < values.len() ==> values[i] == values[j])
            ==> forall|i: int|
            0 <= i < out.len() ==> #[trigger] out[i] == (Ratio { num: 0, den: 1 }) && out[i].value()
                == 0real,
{
    let (lo, hi) = match min_max(values) {
        Some(pair) => pair,
        None => {
            return Err(NormalizeError::InvalidInput);
        },
    };
    let mut out: Vec<Ratio> = Vec::with_capacity(values.len());
    let mut i: usize = 0;
    while i < values.len()
        invariant
            i <= values.len(),
            out.len() == i,
            is_min(values@, lo),
            is_max(values@, hi),
            forall|k: int| 0 <= k < i ==> #[trigger] out[k] == normalized(values[k], lo, hi),
            forall|k: int| 0 <= k < i ==> (#[trigger] out[k]).is_shade(),
        decreases values.len() - i,
    {
        let v = values[i];
        proof {
            lemma_normalized_is_shade(v, lo, hi);
        }
        let t = if hi.units == lo.units {
            Ratio { num: 0, den: 1 }
        } else {
            Ratio {
                num: (v.units as i128 - lo.units as i128) as u128,
                den: (hi.units as i128 - lo.units as i128) as u128,
            }
        };
        out.push(t);
        i += 1;
    }
    assert(out@ =~= spec_normalize(values@));
    proof {
        lemma_normalize_range(values@);
        if forall|i: int, j: int|
            0 <= i < values.len() && 0 <= j < values.len() ==> values[i] == values[j] {
            lemma_normalize_constant(values@);
        }
    }
    Ok(out)
}

/// The ramp color of one shade: red and blue are three tenths of it,
/// green nine tenths.
pub fn manual_ramp(t: Ratio) -> (c: ColorRGB)
    requires
        t.is_shade(),
    ensures
        c == ramp(t),
        c.r.is_unit(),
        c.g.is_unit(),
        c.b.is_unit(),
        c.r.value() == t.value() * (3real / 10real),
        c.g.value() == t.value() * (9real / 10real),
        c.b.value() == t.value() * (3real / 10real),
{
    proof {
        lemma_ramp_shares(t);
    }
    let den: u128 = 10 * t.den;
    ColorRGB {
        r: Ratio { num: 3 * t.num, den },
        g: Ratio { num: 9 * t.num, den },
        b: Ratio { num: 3 * t.num, den },
    }
}

/// The display color of each value: its normalized share of the range of
/// the whole sequence, sent through the linear ramp. An empty sequence is
/// refused.
pub fn z_coords_to_rgb(z_coords: &Vec<Fixed>) -> (r: Result<Vec<ColorRGB>, NormalizeError>)
    ensures
        z_coords.len() == 0 ==> r == Err::<Vec<ColorRGB>, NormalizeError>(
            NormalizeError::InvalidInput,
        ),
        z_coords.len() > 0 ==> r is Ok,
        r matches Ok(out) ==> out@ == spec_colors(z_coords@),
        r matches Ok(out) ==> forall|i: int|
            0 <= i < out.len() ==> (#[trigger] out[i]).r.is_unit() && out[i].g.is_unit()
                && out[i].b.is_unit(),
        r matches Ok(out) ==> forall|i: int, j: int|
            0 <= i < out.len() && 0 <= j < out.len() && z_coords[i].units <= z_coords[j].units ==> (
            #[trigger] out[i]).r.value() <= (#[trigger] out[j]).r.value() && out[i].g.value()
                <= out[j].g.value() && out[i].b.value() <= out[j].b.value(),
{
    let shades = match normalize(z_coords) {
        Ok(shades) => shades,
        Err(e) => {
            return Err(e);
        },
    };
    let mut out: Vec<ColorRGB> = Vec::with_capacity(shades.len());
    let mut i: usize = 0;
    while i < shades.len()
        invariant
            i <= shades.len(),
            out.len() == i,
            shades@ == spec_normalize(z_coords@),
            forall|k: int| 0 <= k < shades.len() ==> (#[trigger] shades[k]).is_shade(),
            forall|k: int| 0 <= k < i ==> #[trigger] out[k] == ramp(shades[k]),
        decreases shades.len() - i,
    {
        out.push(manual_ramp(shades[i]));
        i += 1;
    }
    assert(out@ =~= spec_colors(z_coords@));
    proof {
        assert forall|i: int, j: int|
            0 <= i < out.len() && 0 <= j < out.len() && z_coords[i].units
                <= z_coords[j].units implies {
            &&& (#[trigger] out[i]).r.value() <= (#[trigger] out[j]).r.value()
            &&& out[i].g.value() <= out[j].g.value()
            &&& out[i].b.value() <= out[j].b.value()
        } by {
            lemma_ramp_monotonic(z_coords@, i, j);
        }
    }
    Ok(out)
}

} // verus!

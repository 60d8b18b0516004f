//! Text elements: placeholder substitution over the sensor history, and the
//! cropping and placement of rasterized text within its tile.
use vstd::prelude::*;

use crate::fixed::{format_cents, lemma_round_div_mono, lemma_round_div_scale, lemma_cents_text_no_brace, micros_text, parse_fixed, parse_spec, parsed_limit, round_div, round_div_exec};
use crate::strings::{chars_of, string_of};
use crate::raster::{clear, crop, crop_spec, overlay, overlay_spec, Raster};
use crate::{SensorType, SensorValue, SensorValueModifier, TextAlign, TextConfig};

verus! {

/// The first reading of `frame` with id `id`.
pub open spec fn find_in(frame: Seq<SensorValue>, id: Seq<char>) -> Option<SensorValue>
    decreases frame.len(),
{
    if frame.len() == 0 {
        None
    } else if frame[0].id@ == id {
        Some(frame[0])
    } else {
        find_in(frame.skip(1), id)
    }
}

/// The reading with id `id` in the newest frame of the history.
pub open spec fn latest_reading(history: Seq<Vec<SensorValue>>, id: Seq<char>) -> Option<SensorValue> {
    if history.len() == 0 {
        None
    } else {
        find_in(history[0]@, id)
    }
}

pub open spec fn na_text() -> Seq<char> {
    seq!['N', '/', 'A']
}

/// The newest value of the sensor, or "N/A".
pub open spec fn value_text(history: Seq<Vec<SensorValue>>, id: Seq<char>) -> Seq<char> {
    match latest_reading(history, id) {
        Some(v) => v.value@,
        None => na_text(),
    }
}

/// The newest unit of the sensor, or the empty text.
pub open spec fn unit_text(history: Seq<Vec<SensorValue>>, id: Seq<char>) -> Seq<char> {
    match latest_reading(history, id) {
        Some(v) => v.unit@,
        None => Seq::empty(),
    }
}

/// The millionths that one frame contributes to the numeric samples: its
/// reading of the sensor, when that reading is of Number kind and parses.
pub open spec fn frame_sample(frame: Seq<SensorValue>, id: Seq<char>) -> Seq<int> {
    match find_in(frame, id) {
        Some(v) => if v.sensor_type == SensorType::Number && parse_spec(v.value@) is Some {
            seq![parse_spec(v.value@).unwrap().micros as int]
        } else {
            Seq::empty()
        },
        None => Seq::empty(),
    }
}

/// The numeric samples of the sensor over the whole history, newest first.
pub open spec fn number_samples(history: Seq<Vec<SensorValue>>, id: Seq<char>) -> Seq<int>
    decreases history.len(),
{
    if history.len() == 0 {
        Seq::empty()
    } else {
        number_samples(history.drop_last(), id) + frame_sample(history.last()@, id)
    }
}

pub open spec fn seq_min(s: Seq<int>) -> int
    decreases s.len(),
{
    if s.len() <= 1 {
        s[0]
    } else if s.last() < seq_min(s.drop_last()) {
        s.last()
    } else {
        seq_min(s.drop_last())
    }
}

pub open spec fn seq_max(s: Seq<int>) -> int
    decreases s.len(),
{
    if s.len() <= 1 {
        s[0]
    } else if s.last() > seq_max(s.drop_last()) {
        s.last()
    } else {
        seq_max(s.drop_last())
    }
}

pub open spec fn seq_sum(s: Seq<int>) -> int
    decreases s.len(),
{
    if s.len() == 0 {
        0
    } else {
        seq_sum(s.drop_last()) + s.last()
    }
}

/// The smallest numeric sample with two fractional digits, or "N/A".
pub open spec fn min_text(history: Seq<Vec<SensorValue>>, id: Seq<char>) -> Seq<char> {
    let s = number_samples(history, id);
    if s.len() == 0 {
        na_text()
    } else {
        micros_text(seq_min(s), 1)
    }
}

/// The largest numeric sample with two fractional digits, or "N/A".
pub open spec fn max_text(history: Seq<Vec<SensorValue>>, id: Seq<char>) -> Seq<char> {
    let s = number_samples(history, id);
    if s.len() == 0 {
        na_text()
    } else {
        micros_text(seq_max(s), 1)
    }
}

/// The mean of the numeric samples with two fractional digits, or "N/A".
pub open spec fn avg_text(history: Seq<Vec<SensorValue>>, id: Seq<char>) -> Seq<char> {
    let s = number_samples(history, id);
    if s.len() == 0 {
        na_text()
    } else {
        micros_text(seq_sum(s), s.len() as int)
    }
}

/// What `{value}` stands for under a modifier.
pub open spec fn modified_text(
    m: SensorValueModifier,
    history: Seq<Vec<SensorValue>>,
    id: Seq<char>,
) -> Seq<char> {
    match m {
        SensorValueModifier::Current => value_text(history, id),
        SensorValueModifier::Min => min_text(history, id),
        SensorValueModifier::Max => max_text(history, id),
        SensorValueModifier::Avg => avg_text(history, id),
    }
}

/// Returns the reading of the sensor in the newest frame, if any.
pub fn get_latest_value<'a>(sensor_id: &str, sensor_value_history: &'a [Vec<SensorValue>]) -> (r:
    Option<&'a SensorValue>)
    ensures
        r is None <==> latest_reading(sensor_value_history@, sensor_id@) is None,
        r matches Some(v) ==> latest_reading(sensor_value_history@, sensor_id@) == Some(*v),
{
    if sensor_value_history.len() == 0 {
        return None;
    }
    find_reading(&sensor_value_history[0], sensor_id)
}

fn find_reading<'a>(frame: &'a Vec<SensorValue>, sensor_id: &str) -> (r: Option<&'a SensorValue>)
    ensures
        r is None <==> find_in(frame@, sensor_id@) is None,
        r matches Some(v) ==> find_in(frame@, sensor_id@) == Some(*v),
{
    let key = sensor_id.to_owned();
    let mut i: usize = 0;
    assert(frame@.skip(0) =~= frame@);
    while i < frame.len()
        invariant
            i <= frame.len(),
            key@ == sensor_id@,
            find_in(frame@, sensor_id@) == find_in(frame@.skip(i as int), sensor_id@),
        decreases frame.len() - i,
    {
        assert(frame@.skip(i as int).skip(1) =~= frame@.skip(i + 1));
        if frame[i].id == key {
            return Some(&frame[i]);
        }
        i = i + 1;
    }
    None
}

/// Returns the newest value of the sensor, or "N/A" when the newest frame has none.
pub fn get_value(sensor_id: &str, sensor_value_history: &[Vec<SensorValue>]) -> (r: String)
    ensures
        r@ == value_text(sensor_value_history@, sensor_id@),
{
    match get_latest_value(sensor_id, sensor_value_history) {
        Some(v) => v.value.clone(),
        None => not_available(),
    }
}

/// Returns the newest unit of the sensor, or "" when the newest frame has none.
pub fn get_unit(sensor_id: &str, sensor_value_history: &[Vec<SensorValue>]) -> (r: String)
    ensures
        r@ == unit_text(sensor_value_history@, sensor_id@),
{
    match get_latest_value(sensor_id, sensor_value_history) {
        Some(v) => v.unit.clone(),
        None => String::new(),
    }
}

fn not_available() -> (r: String)
    ensures
        r@ == na_text(),
{
    let v = vec!['N', '/', 'A'];
    string_of(&v)
}

/// Returns the sensor's Number-kind readings that parse, over the whole
/// history, newest first.
pub fn get_sensor_values_as_number(sensor_id: &str, sensor_value_history: &[Vec<SensorValue>]) -> (r:
    Vec<crate::fixed::Fixed>)
    ensures
        r.len() == number_samples(sensor_value_history@, sensor_id@).len(),
        forall|i: int|
            0 <= i < r.len() ==> #[trigger] r[i].micros == number_samples(
                sensor_value_history@,
                sensor_id@,
            )[i],
        forall|i: int| 0 <= i < r.len() ==> -parsed_limit() < #[trigger] r[i].micros < parsed_limit(),
{
    let ghost h = sensor_value_history@;
    let mut out: Vec<crate::fixed::Fixed> = Vec::new();
    let mut i: usize = 0;
    assert(h.take(0) =~= Seq::<Vec<SensorValue>>::empty());
    while i < sensor_value_history.len()
        invariant
            i <= h.len(),
            h == sensor_value_history@,
            out.len() == number_samples(h.take(i as int), sensor_id@).len(),
            forall|k: int|
                0 <= k < out.len() ==> #[trigger] out[k].micros == number_samples(
                    h.take(i as int),
                    sensor_id@,
                )[k],
            forall|k: int| 0 <= k < out.len() ==> -parsed_limit() < #[trigger] out[k].micros < parsed_limit(),
        decreases h.len() - i,
    {
        assert(h.take(i + 1).drop_last() =~= h.take(i as int));
        assert(h.take(i + 1).last() == h[i as int]);
        match find_reading(&sensor_value_history[i], sensor_id) {
            Some(v) => {
                if v.sensor_type == SensorType::Number {
                    let chars = chars_of(v.value.as_str());
                    match parse_fixed(&chars) {
                        Some(f) => {
                            out.push(f);
                        },
                        None => {},
                    }
                }
            },
            None => {},
        }
        i = i + 1;
    }
    assert(h.take(h.len() as int) =~= h);
    out
}

/// Returns the smallest numeric sample of the sensor with two fractional
/// digits, or "N/A" when it has none.
pub fn get_value_min(sensor_id: &str, sensor_value_history: &[Vec<SensorValue>]) -> (r: String)
    ensures
        r@ == min_text(sensor_value_history@, sensor_id@),
{
    let values = get_sensor_values_as_number(sensor_id, sensor_value_history);
    let ghost s = number_samples(sensor_value_history@, sensor_id@);
    if values.len() == 0 {
        return not_available();
    }
    let mut m: i64 = values[0].micros;
    let mut i: usize = 1;
    assert(s.take(1).len() == 1);
    while i < values.len()
        invariant
            1 <= i <= values.len() == s.len(),
            forall|k: int| 0 <= k < values.len() ==> #[trigger] values[k].micros == s[k],
            forall|k: int| 0 <= k < values.len() ==> -parsed_limit() < #[trigger] values[k].micros < parsed_limit(),
            m == seq_min(s.take(i as int)),
            -parsed_limit() < m < parsed_limit(),
        decreases values.len() - i,
    {
        assert(s.take(i + 1).drop_last() =~= s.take(i as int));
        if values[i].micros < m {
            m = values[i].micros;
        }
        i = i + 1;
    }
    assert(s.take(s.len() as int) =~= s);
    string_of(&format_cents(round_div_exec(m as i128, 10000)))
}

/// Returns the largest numeric sample of the sensor with two fractional
/// digits, or "N/A" when it has none.
pub fn get_value_max(sensor_id: &str, sensor_value_history: &[Vec<SensorValue>]) -> (r: String)
    ensures
        r@ == max_text(sensor_value_history@, sensor_id@),
{
    let values = get_sensor_values_as_number(sensor_id, sensor_value_history);
    let ghost s = number_samples(sensor_value_history@, sensor_id@);
    if values.len() == 0 {
        return not_available();
    }
    let mut m: i64 = values[0].micros;
    let mut i: usize = 1;
    assert(s.take(1).len() == 1);
    while i < values.len()
        invariant
            1 <= i <= values.len() == s.len(),
            forall|k: int| 0 <= k < values.len() ==> #[trigger] values[k].micros == s[k],
            forall|k: int| 0 <= k < values.len() ==> -parsed_limit() < #[trigger] values[k].micros < parsed_limit(),
            m == seq_max(s.take(i as int)),
            -parsed_limit() < m < parsed_limit(),
        decreases values.len() - i,
    {
        assert(s.take(i + 1).drop_last() =~= s.take(i as int));
        if values[i].micros > m {
            m = values[i].micros;
        }
        i = i + 1;
    }
    assert(s.take(s.len() as int) =~= s);
    string_of(&format_cents(round_div_exec(m as i128, 10000)))
}

/// Returns the mean of the sensor's numeric samples with two fractional
/// digits, or "N/A" when it has none.
pub fn get_value_avg(sensor_id: &str, sensor_value_history: &[Vec<SensorValue>]) -> (r: String)
    ensures
        r@ == avg_text(sensor_value_history@, sensor_id@),
{
    let values = get_sensor_values_as_number(sensor_id, sensor_value_history);
    let ghost s = number_samples(sensor_value_history@, sensor_id@);
    if values.len() == 0 {
        return not_available();
    }
    let mut sum: i128 = 0;
    let mut i: usize = 0;
    assert(parsed_limit() == 0x8000000000000000);
    assert(s.take(0) =~= Seq::<int>::empty());
    while i < values.len()
        invariant
            0 <= i <= values.len() == s.len(),
            forall|k: int| 0 <= k < values.len() ==> #[trigger] values[k].micros == s[k],
            forall|k: int| 0 <= k < values.len() ==> -parsed_limit() < #[trigger] values[k].micros < parsed_limit(),
            sum == seq_sum(s.take(i as int)),
            parsed_limit() == 0x8000000000000000,
            -(i * 0x8000000000000000) <= sum <= i * 0x8000000000000000,
        decreases values.len() - i,
    {
        assert(s.take(i + 1).drop_last() =~= s.take(i as int));
        sum = sum + values[i].micros as i128;
        i = i + 1;
    }
    assert(s.take(s.len() as int) =~= s);
    let n = values.len() as i128;
    proof {
        assert(n * 0x8000000000000000 <= 0xffffffffffffffff * 0x8000000000000000) by (nonlinear_arith)
            requires
                0 < n <= 0xffffffffffffffff,
        ;
    }
    let c = round_div_exec(sum, n * 10000);
    string_of(&format_cents(c))
}

/// `s` with every occurrence of `pat` replaced by `rep`, matched left to
/// right without overlap.
pub open spec fn replace_all(s: Seq<char>, pat: Seq<char>, rep: Seq<char>) -> Seq<char>
    decreases s.len(),
{
    if pat.len() == 0 || s.len() < pat.len() {
        s
    } else if s.take(pat.len() as int) == pat {
        rep + replace_all(s.skip(pat.len() as int), pat, rep)
    } else {
        seq![s[0]] + replace_all(s.skip(1), pat, rep)
    }
}

pub open spec fn avg_token() -> Seq<char> {
    seq!['{', 'v', 'a', 'l', 'u', 'e', '-', 'a', 'v', 'g', '}']
}

pub open spec fn min_token() -> Seq<char> {
    seq!['{', 'v', 'a', 'l', 'u', 'e', '-', 'm', 'i', 'n', '}']
}

pub open spec fn max_token() -> Seq<char> {
    seq!['{', 'v', 'a', 'l', 'u', 'e', '-', 'm', 'a', 'x', '}']
}

pub open spec fn value_token() -> Seq<char> {
    seq!['{', 'v', 'a', 'l', 'u', 'e', '}']
}

pub open spec fn unit_token() -> Seq<char> {
    seq!['{', 'u', 'n', 'i', 't', '}']
}

/// The format with its placeholders filled, in this order: `{value-avg}`,
/// `{value-min}`, `{value-max}`, `{value}`, `{unit}`.
pub open spec fn substituted(
    format: Seq<char>,
    m: SensorValueModifier,
    history: Seq<Vec<SensorValue>>,
    id: Seq<char>,
) -> Seq<char> {
    let t1 = replace_all(format, avg_token(), avg_text(history, id));
    let t2 = replace_all(t1, min_token(), min_text(history, id));
    let t3 = replace_all(t2, max_token(), max_text(history, id));
    let t4 = replace_all(t3, value_token(), modified_text(m, history, id));
    replace_all(t4, unit_token(), unit_text(history, id))
}

fn matches_at(s: &Vec<char>, i: usize, pat: &Vec<char>) -> (r: bool)
    requires
        i <= s.len(),
    ensures
        r == (i + pat.len() <= s.len() && s@.subrange(i as int, i + pat.len()) == pat@),
{
    if pat.len() > s.len() - i {
        return false;
    }
    let mut k: usize = 0;
    while k < pat.len()
        invariant
            k <= pat.len(),
            i + pat.len() <= s.len(),
            forall|j: int| 0 <= j < k ==> s@[i + j] == pat@[j],
        decreases pat.len() - k,
    {
        if s[i + k] != pat[k] {
            assert(s@.subrange(i as int, i + pat.len())[k as int] != pat@[k as int]);
            return false;
        }
        k = k + 1;
    }
    assert(s@.subrange(i as int, i + pat.len()) =~= pat@);
    true
}

/// Replaces every occurrence of `pat` in `s` by `rep`, left to right.
pub fn replace_all_chars(s: &Vec<char>, pat: &Vec<char>, rep: &Vec<char>) -> (r: Vec<char>)
    ensures
        r@ == replace_all(s@, pat@, rep@),
{
    if pat.len() == 0 {
        return s.clone();
    }
    let mut out: Vec<char> = Vec::new();
    let mut i: usize = 0;
    assert(s@.skip(0) =~= s@);
    while i < s.len()
        invariant
            i <= s.len(),
            pat.len() > 0,
            replace_all(s@, pat@, rep@) == out@ + replace_all(s@.skip(i as int), pat@, rep@),
        decreases s.len() - i,
    {
        let ghost rest = s@.skip(i as int);
        if matches_at(s, i, pat) {
            assert(rest.take(pat.len() as int) =~= s@.subrange(i as int, i + pat.len()));
            assert(rest.skip(pat.len() as int) =~= s@.skip(i + pat.len()));
            let mut k: usize = 0;
            let ghost base = out@;
            while k < rep.len()
                invariant
                    k <= rep.len(),
                    out@ == base + rep@.take(k as int),
                decreases rep.len() - k,
            {
                assert(rep@.take(k + 1) =~= rep@.take(k as int).push(rep@[k as int]));
                out.push(rep[k]);
                k = k + 1;
            }
            assert(rep@.take(rep.len() as int) =~= rep@);
            assert(out@ + replace_all(s@.skip(i + pat.len()), pat@, rep@) =~= base + (rep@
                + replace_all(rest.skip(pat.len() as int), pat@, rep@)));
            i = i + pat.len();
        } else {
            assert(rest.len() < pat.len() || rest.take(pat.len() as int) != pat@) by {
                if rest.len() >= pat.len() {
                    assert(rest.take(pat.len() as int) =~= s@.subrange(i as int, i + pat.len()));
                }
            }
            assert(rest.skip(1) =~= s@.skip(i + 1));
            let ghost base = out@;
            out.push(s[i]);
            proof {
                if rest.len() < pat@.len() {
                    lemma_replace_all_short(rest.skip(1), pat@, rep@);
                    assert(replace_all(rest, pat@, rep@) == rest);
                    assert(rest =~= seq![s@[i as int]] + rest.skip(1));
                }
            }
            assert(out@ + replace_all(s@.skip(i + 1), pat@, rep@) =~= base + (seq![s@[i as int]]
                + replace_all(rest.skip(1), pat@, rep@)));
            i = i + 1;
        }
    }
    assert(s@.skip(s.len() as int) =~= Seq::<char>::empty());
    assert(out@ + Seq::<char>::empty() =~= out@);
    out
}

proof fn lemma_replace_all_short(s: Seq<char>, pat: Seq<char>, rep: Seq<char>)
    requires
        s.len() < pat.len(),
    ensures
        replace_all(s, pat, rep) == s,
{
}

/// Fills the placeholders of the text's format from the sensor history.
pub fn replace_placeholders(
    text_config: &TextConfig,
    sensor_id: &str,
    sensor_value_history: &[Vec<SensorValue>],
) -> (r: String)
    ensures
        r@ == substituted(
            text_config.format@,
            text_config.value_modifier,
            sensor_value_history@,
            sensor_id@,
        ),
{
    let h = sensor_value_history;
    let format = chars_of(text_config.format.as_str());
    let avg = chars_of(get_value_avg(sensor_id, h).as_str());
    let t1 = replace_all_chars(&format, &vec!['{', 'v', 'a', 'l', 'u', 'e', '-', 'a', 'v', 'g', '}'], &avg);
    let min = chars_of(get_value_min(sensor_id, h).as_str());
    let t2 = replace_all_chars(&t1, &vec!['{', 'v', 'a', 'l', 'u', 'e', '-', 'm', 'i', 'n', '}'], &min);
    let max = chars_of(get_value_max(sensor_id, h).as_str());
    let t3 = replace_all_chars(&t2, &vec!['{', 'v', 'a', 'l', 'u', 'e', '-', 'm', 'a', 'x', '}'], &max);
    let value = match text_config.value_modifier {
        SensorValueModifier::Current => get_value(sensor_id, h),
        SensorValueModifier::Min => get_value_min(sensor_id, h),
        SensorValueModifier::Max => get_value_max(sensor_id, h),
        SensorValueModifier::Avg => get_value_avg(sensor_id, h),
    };
    let t4 = replace_all_chars(&t3, &vec!['{', 'v', 'a', 'l', 'u', 'e', '}'], &chars_of(value.as_str()));
    let unit = chars_of(get_unit(sensor_id, h).as_str());
    let t5 = replace_all_chars(&t4, &vec!['{', 'u', 'n', 'i', 't', '}'], &unit);
    string_of(&t5)
}

/// A rectangle within a raster.
#[derive(Clone, Copy, Debug, PartialEq, Eq, Structural)]
pub struct BoundingBox {
    pub left: u32,
    pub top: u32,
    pub width: u32,
    pub height: u32,
}

/// Every pixel of column `x` is fully transparent (alpha 0), whatever its color.
pub open spec fn column_clear(r: Raster, x: int) -> bool {
    forall|y: int| 0 <= y < r.height ==> #[trigger] r.at(x, y).a == 0
}

/// Every pixel of row `y` is fully transparent (alpha 0), whatever its color.
pub open spec fn row_clear(r: Raster, y: int) -> bool {
    forall|x: int| 0 <= x < r.width ==> #[trigger] r.at(x, y).a == 0
}

pub open spec fn all_clear(r: Raster) -> bool {
    forall|x: int| 0 <= x < r.width ==> #[trigger] column_clear(r, x)
}

/// `b` is the tightest box around the pixels of `r` whose alpha is not 0; a
/// raster with none gets the whole of itself.
pub open spec fn is_bounding_box(r: Raster, b: BoundingBox) -> bool {
    if all_clear(r) {
        b == BoundingBox { left: 0, top: 0, width: r.width, height: r.height }
    } else {
        &&& 0 < b.width
        &&& 0 < b.height
        &&& b.left + b.width <= r.width
        &&& b.top + b.height <= r.height
        &&& !column_clear(r, b.left as int)
        &&& !column_clear(r, b.left + b.width - 1)
        &&& !row_clear(r, b.top as int)
        &&& !row_clear(r, b.top + b.height - 1)
        &&& forall|x: int|
            (0 <= x < b.left || b.left + b.width <= x < r.width) ==> #[trigger] column_clear(r, x)
        &&& forall|y: int|
            (0 <= y < b.top || b.top + b.height <= y < r.height) ==> #[trigger] row_clear(r, y)
    }
}

/// The bounding box of the visible pixels of `r`.
pub open spec fn bounding_box(r: Raster) -> BoundingBox {
    choose|b: BoundingBox| is_bounding_box(r, b)
}

proof fn lemma_bounding_box_unique(r: Raster, b1: BoundingBox, b2: BoundingBox)
    requires
        is_bounding_box(r, b1),
        is_bounding_box(r, b2),
    ensures
        b1 == b2,
{
    if !all_clear(r) {
        if b1.left < b2.left {
            assert(column_clear(r, b1.left as int));
        }
        if b2.left < b1.left {
            assert(column_clear(r, b2.left as int));
        }
        if b1.left + b1.width < b2.left + b2.width {
            assert(column_clear(r, b2.left + b2.width - 1));
        }
        if b2.left + b2.width < b1.left + b1.width {
            assert(column_clear(r, b1.left + b1.width - 1));
        }
        if b1.top < b2.top {
            assert(row_clear(r, b1.top as int));
        }
        if b2.top < b1.top {
            assert(row_clear(r, b2.top as int));
        }
        if b1.top + b1.height < b2.top + b2.height {
            assert(row_clear(r, b2.top + b2.height - 1));
        }
        if b2.top + b2.height < b1.top + b1.height {
            assert(row_clear(r, b1.top + b1.height - 1));
        }
    }
}

fn is_clear(p: crate::raster::Rgba) -> (r: bool)
    ensures
        r == (p.a == 0),
{
    p.a == 0
}

fn column_is_clear(image: &Raster, x: u32) -> (r: bool)
    requires
        image.wf(),
        x < image.width,
    ensures
        r == column_clear(*image, x as int),
{
    let mut y: u32 = 0;
    while y < image.height
        invariant
            image.wf(),
            x < image.width,
            y <= image.height,
            forall|k: int| 0 <= k < y ==> #[trigger] image.at(x as int, k).a == 0,
        decreases image.height - y,
    {
        if !is_clear(image.get_pixel(x, y)) {
            return false;
        }
        y = y + 1;
    }
    true
}

fn row_is_clear(image: &Raster, y: u32) -> (r: bool)
    requires
        image.wf(),
        y < image.height,
    ensures
        r == row_clear(*image, y as int),
{
    let mut x: u32 = 0;
    while x < image.width
        invariant
            image.wf(),
            y < image.height,
            x <= image.width,
            forall|k: int| 0 <= k < x ==> #[trigger] image.at(k, y as int).a == 0,
        decreases image.width - x,
    {
        if !is_clear(image.get_pixel(x, y)) {
            return false;
        }
        x = x + 1;
    }
    true
}

/// Finds the tightest box around the pixels of `image` whose alpha is not
/// 0, scanning inward from each edge; an image with none gets its whole
/// extent.
pub fn get_bounding_box(image: &Raster) -> (b: BoundingBox)
    requires
        image.wf(),
    ensures
        is_bounding_box(*image, b),
        b == bounding_box(*image),
{
    let full = BoundingBox { left: 0, top: 0, width: image.width, height: image.height };
    let mut left: u32 = 0;
    while left < image.width && column_is_clear(image, left)
        invariant
            image.wf(),
            left <= image.width,
            forall|x: int| 0 <= x < left ==> #[trigger] column_clear(*image, x),
        decreases image.width - left,
    {
        left = left + 1;
    }
    if left == image.width {
        assert(is_bounding_box(*image, full));
        proof {
            lemma_bounding_box_unique(*image, full, bounding_box(*image));
        }
        return full;
    }
    let mut right: u32 = image.width;
    while right > left + 1 && column_is_clear(image, right - 1)
        invariant
            image.wf(),
            left < right <= image.width,
            !column_clear(*image, left as int),
            forall|x: int| right <= x < image.width ==> #[trigger] column_clear(*image, x),
        decreases right,
    {
        right = right - 1;
    }
    let mut top: u32 = 0;
    while top < image.height && row_is_clear(image, top)
        invariant
            image.wf(),
            top <= image.height,
            forall|y: int| 0 <= y < top ==> #[trigger] row_clear(*image, y),
        decreases image.height - top,
    {
        top = top + 1;
    }
    if top == image.height {
        proof {
            let y = choose|y: int| 0 <= y < image.height && #[trigger] image.at(left as int, y).a != 0;
            assert(row_clear(*image, y));
            assert(image.at(left as int, y).a == 0);
        }
        return full;
    }
    let mut bottom: u32 = image.height;
    while bottom > top + 1 && row_is_clear(image, bottom - 1)
        invariant
            image.wf(),
            top < bottom <= image.height,
            !row_clear(*image, top as int),
            forall|y: int| bottom <= y < image.height ==> #[trigger] row_clear(*image, y),
        decreases bottom,
    {
        bottom = bottom - 1;
    }
    let b = BoundingBox { left, top, width: right - left, height: bottom - top };
    assert(!all_clear(*image));
    assert(is_bounding_box(*image, b));
    proof {
        lemma_bounding_box_unique(*image, b, bounding_box(*image));
    }
    b
}

/// Row of the top of a `glyph_h` high text block centred in a `tile_h` high tile.
pub open spec fn text_y(tile_h: int, glyph_h: int) -> int {
    if tile_h > glyph_h {
        (tile_h - glyph_h) / 2
    } else {
        0
    }
}

/// Column of the left of a `glyph_w` wide text block placed in a `tile_w`
/// wide tile.
pub open spec fn text_x(align: TextAlign, tile_w: int, glyph_w: int) -> int {
    let rest = if tile_w > glyph_w {
        tile_w - glyph_w
    } else {
        0
    };
    match align {
        TextAlign::Left => 0,
        TextAlign::Center => rest / 2,
        TextAlign::Right => rest,
    }
}

/// Left-aligned text starts at the tile's left edge, and right-aligned text
/// that fits ends at the tile's right edge.
pub proof fn lemma_alignment_edges(tile_w: int, glyph_w: int)
    requires
        0 <= glyph_w <= tile_w,
    ensures
        text_x(TextAlign::Left, tile_w, glyph_w) == 0,
        text_x(TextAlign::Right, tile_w, glyph_w) + glyph_w == tile_w,
        0 <= text_x(TextAlign::Center, tile_w, glyph_w),
        text_x(TextAlign::Center, tile_w, glyph_w) + glyph_w <= tile_w,
{
}

/// The tile that a text element shows, given its text rasterized onto
/// `scratch`: the visible part of `scratch`, cropped to its bounding box,
/// centred vertically and placed horizontally by the alignment on a clear
/// tile of the element's size.
pub open spec fn text_tile(text_config: TextConfig, scratch: Raster) -> Seq<crate::raster::Rgba> {
    let b = bounding_box(scratch);
    let w = text_config.width as int;
    let h = text_config.height as int;
    overlay_spec(
        w,
        Seq::new((w * h) as nat, |i: int| clear()),
        b.width as int,
        b.height as int,
        crop_spec(
            scratch.width as int,
            scratch.pixels@,
            b.left as int,
            b.top as int,
            b.width as int,
            b.height as int,
        ),
        text_x(text_config.alignment, w, b.width as int),
        text_y(h, b.height as int),
    )
}

/// Builds a text element's tile from its rasterized text.
pub fn render(text_config: &TextConfig, scratch: &Raster) -> (r: Raster)
    requires
        scratch.wf(),
        text_config.width * text_config.height <= usize::MAX,
    ensures
        r.wf(),
        r.width == text_config.width,
        r.height == text_config.height,
        r.pixels@ == text_tile(*text_config, *scratch),
{
    let b = get_bounding_box(scratch);
    let block = crop(scratch, b.left, b.top, b.width, b.height);
    let mut tile = Raster::new(text_config.width, text_config.height);
    let y: u32 = if text_config.height > block.height {
        (text_config.height - block.height) / 2
    } else {
        0
    };
    let rest: u32 = if text_config.width > block.width {
        text_config.width - block.width
    } else {
        0
    };
    let x: u32 = match text_config.alignment {
        TextAlign::Left => 0,
        TextAlign::Center => rest / 2,
        TextAlign::Right => rest,
    };
    assert(tile.pixels@ =~= Seq::new(
        (text_config.width * text_config.height) as nat,
        |i: int| clear(),
    ));
    overlay(&mut tile, &block, x as i64, y as i64);
    tile
}

/// The placeholders in the order of substitution.
pub open spec fn placeholder(j: int) -> Seq<char> {
    if j == 0 {
        avg_token()
    } else if j == 1 {
        min_token()
    } else if j == 2 {
        max_token()
    } else if j == 3 {
        value_token()
    } else {
        unit_token()
    }
}

/// `t` occurs in `s` at index `i`.
pub open spec fn occurs_at(s: Seq<char>, i: int, t: Seq<char>) -> bool {
    0 <= i && i + t.len() <= s.len() && s.subrange(i, i + t.len()) == t
}

pub open spec fn brace_free(s: Seq<char>) -> bool {
    forall|i: int| 0 <= i < s.len() ==> #[trigger] s[i] != '{'
}

/// Every '{' of `s` begins one of the placeholders `k..5`.
pub open spec fn braces_begin_placeholders(s: Seq<char>, k: int) -> bool {
    forall|i: int|
        0 <= i < s.len() && #[trigger] s[i] == '{' ==> exists|j: int|
            k <= j < 5 && #[trigger] occurs_at(s, i, placeholder(j))
}

proof fn lemma_placeholder_shape(j: int)
    requires
        0 <= j < 5,
    ensures
        placeholder(j).len() > 0,
        placeholder(j)[0] == '{',
        forall|m: int| 1 <= m < placeholder(j).len() ==> #[trigger] placeholder(j)[m] != '{',
{
    let t = placeholder(j);
    assert forall|m: int| 1 <= m < t.len() implies #[trigger] t[m] != '{' by {
        if m == 1 {
        } else if m == 2 {
        } else if m == 3 {
        } else if m == 4 {
        } else if m == 5 {
        } else if m == 6 {
        } else if m == 7 {
        } else if m == 8 {
        } else if m == 9 {
        } else {
        }
    }
}

proof fn lemma_replace_keeps_prefix(x: Seq<char>, pat: Seq<char>, rep: Seq<char>, m: int)
    requires
        pat.len() > 0,
        pat[0] == '{',
        0 <= m <= x.len(),
        forall|q: int| 0 <= q < m ==> #[trigger] x[q] != '{',
    ensures
        replace_all(x, pat, rep).len() >= m,
        replace_all(x, pat, rep).take(m) == x.take(m),
    decreases m,
{
    if m > 0 && x.len() >= pat.len() {
        assert(x.take(pat.len() as int)[0] == x[0]);
        let y = x.skip(1);
        assert forall|q: int| 0 <= q < m - 1 implies #[trigger] y[q] != '{' by {
            assert(y[q] == x[q + 1]);
        }
        lemma_replace_keeps_prefix(y, pat, rep, m - 1);
        let r = replace_all(x, pat, rep);
        assert(r == seq![x[0]] + replace_all(y, pat, rep));
        assert(r.take(m) =~= seq![x[0]] + replace_all(y, pat, rep).take(m - 1));
        assert(x.take(m) =~= seq![x[0]] + y.take(m - 1));
    }
}

proof fn lemma_occurs_shift(a: Seq<char>, b: Seq<char>, i: int, t: Seq<char>)
    requires
        occurs_at(b, i, t),
    ensures
        occurs_at(a + b, i + a.len(), t),
{
    assert((a + b).subrange(i + a.len(), i + a.len() + t.len()) =~= b.subrange(i, i + t.len()));
}

proof fn lemma_occurs_skip(s: Seq<char>, d: int, i: int, t: Seq<char>)
    requires
        0 <= d <= s.len(),
        occurs_at(s, i + d, t),
        i >= 0,
    ensures
        occurs_at(s.skip(d), i, t),
{
    assert(s.skip(d).subrange(i, i + t.len()) =~= s.subrange(i + d, i + d + t.len()));
}

proof fn lemma_replace_step(s: Seq<char>, k: int, rep: Seq<char>)
    requires
        0 <= k < 5,
        brace_free(rep),
        braces_begin_placeholders(s, k),
    ensures
        braces_begin_placeholders(replace_all(s, placeholder(k), rep), k + 1),
    decreases s.len(),
{
    let t = placeholder(k);
    lemma_placeholder_shape(k);
    let r = replace_all(s, t, rep);
    if s.len() < t.len() {
        assert forall|i: int| 0 <= i < r.len() && #[trigger] r[i] == '{' implies exists|j: int|
            k + 1 <= j < 5 && #[trigger] occurs_at(r, i, placeholder(j)) by {
            let j = choose|j: int| k <= j < 5 && #[trigger] occurs_at(s, i, placeholder(j));
            assert(j != k);
        }
    } else {
        let d = if s.take(t.len() as int) == t {
            t.len() as int
        } else {
            1int
        };
        let y = s.skip(d);
        assert forall|i: int| 0 <= i < y.len() && #[trigger] y[i] == '{' implies exists|j: int|
            k <= j < 5 && #[trigger] occurs_at(y, i, placeholder(j)) by {
            assert(s[i + d] == '{');
            let j = choose|j: int| k <= j < 5 && #[trigger] occurs_at(s, i + d, placeholder(j));
            lemma_occurs_skip(s, d, i, placeholder(j));
        }
        lemma_replace_step(y, k, rep);
        let ry = replace_all(y, t, rep);
        let head = if d == t.len() {
            rep
        } else {
            seq![s[0]]
        };
        assert(r == head + ry);
        assert forall|i: int| 0 <= i < r.len() && #[trigger] r[i] == '{' implies exists|j: int|
            k + 1 <= j < 5 && #[trigger] occurs_at(r, i, placeholder(j)) by {
            if i >= head.len() {
                assert(ry[i - head.len()] == '{');
                let j = choose|j: int|
                    k + 1 <= j < 5 && #[trigger] occurs_at(ry, i - head.len(), placeholder(j));
                lemma_occurs_shift(head, ry, i - head.len(), placeholder(j));
            } else {
                assert(d != t.len());
                assert(s[0] == '{');
                let j = choose|j: int| k <= j < 5 && #[trigger] occurs_at(s, 0, placeholder(j));
                let pj = placeholder(j);
                lemma_placeholder_shape(j);
                if j == k {
                    assert(s.take(t.len() as int) =~= s.subrange(0, t.len() as int));
                }
                assert forall|q: int| 0 <= q < pj.len() - 1 implies #[trigger] y[q] != '{' by {
                    assert(y[q] == s[q + 1]);
                    assert(s[q + 1] == s.subrange(0, pj.len() as int)[q + 1]);
                }
                lemma_replace_keeps_prefix(y, t, rep, pj.len() - 1);
                assert(r.subrange(0, pj.len() as int) =~= seq![s[0]] + ry.take(pj.len() - 1));
                assert(y.take(pj.len() - 1) =~= s.subrange(1, pj.len() as int));
                assert(seq![s[0]] + s.subrange(1, pj.len() as int) =~= s.subrange(0, pj.len() as int));
                assert(occurs_at(r, 0, pj));
            }
        }
    }
}

/// Every value that substitution puts in place of a placeholder is free of
/// '{' when the newest reading's value and unit are.
proof fn lemma_fills_brace_free(m: SensorValueModifier, history: Seq<Vec<SensorValue>>, id: Seq<char>)
    requires
        latest_reading(history, id) matches Some(v) ==> brace_free(v.value@) && brace_free(v.unit@),
    ensures
        brace_free(avg_text(history, id)),
        brace_free(min_text(history, id)),
        brace_free(max_text(history, id)),
        brace_free(modified_text(m, history, id)),
        brace_free(unit_text(history, id)),
{
    let s = number_samples(history, id);
    if s.len() > 0 {
        lemma_cents_text_no_brace(round_div(seq_sum(s), s.len() as int * 10000));
        lemma_cents_text_no_brace(round_div(seq_min(s), 10000));
        lemma_cents_text_no_brace(round_div(seq_max(s), 10000));
    }
    assert(brace_free(na_text()));
    assert(brace_free(Seq::<char>::empty()));
}

/// Substitution leaves no '{', and so no placeholder, in the text when
/// every '{' of the format begins a placeholder and the newest reading's
/// value and unit hold no '{'.
pub proof fn lemma_no_placeholder_left(
    format: Seq<char>,
    m: SensorValueModifier,
    history: Seq<Vec<SensorValue>>,
    id: Seq<char>,
)
    requires
        braces_begin_placeholders(format, 0),
        latest_reading(history, id) matches Some(v) ==> brace_free(v.value@) && brace_free(v.unit@),
    ensures
        brace_free(substituted(format, m, history, id)),
        forall|i: int, j: int|
            0 <= j < 5 ==> !#[trigger] occurs_at(substituted(format, m, history, id), i, placeholder(j)),
{
    lemma_fills_brace_free(m, history, id);
    let t1 = replace_all(format, avg_token(), avg_text(history, id));
    lemma_replace_step(format, 0, avg_text(history, id));
    let t2 = replace_all(t1, min_token(), min_text(history, id));
    lemma_replace_step(t1, 1, min_text(history, id));
    let t3 = replace_all(t2, max_token(), max_text(history, id));
    lemma_replace_step(t2, 2, max_text(history, id));
    let t4 = replace_all(t3, value_token(), modified_text(m, history, id));
    lemma_replace_step(t3, 3, modified_text(m, history, id));
    let out = replace_all(t4, unit_token(), unit_text(history, id));
    lemma_replace_step(t4, 4, unit_text(history, id));
    assert forall|i: int| 0 <= i < out.len() implies #[trigger] out[i] != '{' by {
        if out[i] == '{' {
            let j = choose|j: int| 5 <= j < 5 && #[trigger] occurs_at(out, i, placeholder(j));
        }
    }
    assert forall|i: int, j: int| 0 <= j < 5 implies !#[trigger] occurs_at(out, i, placeholder(j)) by {
        if occurs_at(out, i, placeholder(j)) {
            lemma_placeholder_shape(j);
            assert(out[i] == out.subrange(i, i + placeholder(j).len())[0]);
            assert(out[i] == '{');
        }
    }
}

proof fn lemma_sum_bounds(s: Seq<int>)
    requires
        s.len() > 0,
    ensures
        s.len() * seq_min(s) <= seq_sum(s) <= s.len() * seq_max(s),
    decreases s.len(),
{
    let n = s.len() as int;
    let d = s.drop_last();
    if s.len() == 1 {
        assert(d.len() == 0);
        assert(seq_sum(s) == s[0]);
    } else {
        lemma_sum_bounds(d);
        let lo = seq_min(s);
        let hi = seq_max(s);
        assert(lo <= seq_min(d) && lo <= s.last());
        assert(hi >= seq_max(d) && hi >= s.last());
        assert(n * lo <= seq_sum(d) + s.last()) by (nonlinear_arith)
            requires
                (n - 1) * seq_min(d) <= seq_sum(d),
                lo <= seq_min(d),
                lo <= s.last(),
                n >= 2,
        ;
        assert(seq_sum(d) + s.last() <= n * hi) by (nonlinear_arith)
            requires
                seq_sum(d) <= (n - 1) * seq_max(d),
                hi >= seq_max(d),
                hi >= s.last(),
                n >= 2,
        ;
    }
}

/// The mean of the numeric samples, rounded to hundredths, lies between
/// their least and greatest values rounded the same way.
pub proof fn lemma_avg_between_min_max(s: Seq<int>)
    requires
        s.len() > 0,
    ensures
        round_div(seq_min(s), 10000) <= round_div(seq_sum(s), s.len() as int * 10000),
        round_div(seq_sum(s), s.len() as int * 10000) <= round_div(seq_max(s), 10000),
{
    let n = s.len() as int;
    lemma_sum_bounds(s);
    lemma_round_div_scale(seq_min(s), n, 10000);
    lemma_round_div_scale(seq_max(s), n, 10000);
    lemma_round_div_mono(n * seq_min(s), seq_sum(s), n * 10000);
    lemma_round_div_mono(seq_sum(s), n * seq_max(s), n * 10000);
}

} // verus!

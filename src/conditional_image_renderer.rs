//! Conditional images: the image of a gallery that best fits a sensor value,
//! by edit distance of the file name for text sensors, and by the number in
//! the file name for number sensors.
use vstd::prelude::*;

use crate::fixed::{parse_fixed, parse_spec, parsed_limit, Fixed};
use crate::strings::{chars_of, string_of};
use crate::{ConditionalImageConfig, SensorType};

verus! {

pub open spec fn min3(a: int, b: int, c: int) -> int {
    if a <= b && a <= c {
        a
    } else if b <= c {
        b
    } else {
        c
    }
}

/// The Levenshtein distance: the fewest insertions, deletions and
/// substitutions of characters that turn `a` into `b`.
pub open spec fn lev(a: Seq<char>, b: Seq<char>) -> nat
    decreases a.len() + b.len(),
{
    if a.len() == 0 {
        b.len()
    } else if b.len() == 0 {
        a.len()
    } else {
        min3(
            lev(a.drop_last(), b) + 1int,
            lev(a, b.drop_last()) + 1int,
            lev(a.drop_last(), b.drop_last()) as int + if a.last() == b.last() {
                0int
            } else {
                1int
            },
        ) as nat
    }
}

proof fn lemma_lev_bound(a: Seq<char>, b: Seq<char>)
    ensures
        lev(a, b) <= if a.len() >= b.len() {
            a.len()
        } else {
            b.len()
        },
    decreases a.len() + b.len(),
{
    if a.len() > 0 && b.len() > 0 {
        lemma_lev_bound(a.drop_last(), b.drop_last());
    }
}

/// Returns the Levenshtein distance between two strings, over Unicode
/// scalar values.
pub fn levenshtein_distance(s1: &str, s2: &str) -> (r: usize)
    ensures
        r == lev(s1@, s2@),
{
    let v1 = chars_of(s1);
    let v2 = chars_of(s2);
    let n1 = v1.len();
    let n2 = v2.len();
    if n1 == 0 {
        return n2;
    }
    if n2 == 0 {
        return n1;
    }
    let ghost a = v1@;
    let ghost b = v2@;
    let mut column: Vec<usize> = Vec::new();
    let mut k: usize = 0;
    while k <= n1
        invariant
            k <= n1 + 1,
            n1 == a.len(),
            n1 <= isize::MAX,
            column.len() == k,
            forall|y: int| 0 <= y < k ==> #[trigger] column@[y] == lev(a.take(y), b.take(0)),
        decreases n1 + 1 - k,
    {
        proof {
            assert(lev(a.take(k as int), b.take(0)) == k);
        }
        column.push(k);
        k = k + 1;
    }
    let mut x: usize = 1;
    while x <= n2
        invariant
            1 <= x <= n2 + 1,
            n1 == a.len(),
            n2 == b.len(),
            n1 <= isize::MAX,
            n2 <= isize::MAX,
            v1@ == a,
            v2@ == b,
            column.len() == n1 + 1,
            forall|y: int| 0 <= y <= n1 ==> #[trigger] column@[y] == lev(a.take(y), b.take(x - 1)),
        decreases n2 + 1 - x,
    {
        proof {
            assert(a.take(0).len() == 0);
            assert(lev(a.take(0), b.take(x as int)) == x);
        }
        let mut lastdiag: usize = column[0];
        column.set(0, x);
        let mut y: usize = 1;
        while y <= n1
            invariant
                1 <= x <= n2,
                1 <= y <= n1 + 1,
                n1 == a.len(),
                n2 == b.len(),
                n1 <= isize::MAX,
                n2 <= isize::MAX,
                v1@ == a,
                v2@ == b,
                column.len() == n1 + 1,
                lastdiag == lev(a.take(y - 1), b.take(x - 1)),
                forall|k: int| 0 <= k < y ==> #[trigger] column@[k] == lev(a.take(k), b.take(x as int)),
                forall|k: int| y <= k <= n1 ==> #[trigger] column@[k] == lev(a.take(k), b.take(x - 1)),
            decreases n1 + 1 - y,
        {
            let ghost ay = a.take(y as int);
            let ghost bx = b.take(x as int);
            proof {
                assert(ay.drop_last() =~= a.take(y - 1));
                assert(bx.drop_last() =~= b.take(x - 1));
                assert(ay.last() == a[y - 1]);
                assert(bx.last() == b[x - 1]);
                lemma_lev_bound(a.take(y as int), b.take(x - 1));
                lemma_lev_bound(a.take(y - 1), b.take(x as int));
                lemma_lev_bound(a.take(y - 1), b.take(x - 1));
            }
            let olddiag = column[y];
            let del = column[y] + 1;
            let ins = column[y - 1] + 1;
            let sub = lastdiag + if v1[y - 1] == v2[x - 1] {
                0
            } else {
                1
            };
            let best = if del <= ins && del <= sub {
                del
            } else if ins <= sub {
                ins
            } else {
                sub
            };
            column.set(y, best);
            lastdiag = olddiag;
            y = y + 1;
        }
        x = x + 1;
    }
    proof {
        assert(a.take(n1 as int) =~= a);
        assert(b.take(n2 as int) =~= b);
    }
    column[n1]
}

/// Index of the last '.' in `s`, or -1.
pub open spec fn last_dot(s: Seq<char>) -> int
    decreases s.len(),
{
    if s.len() == 0 {
        -1
    } else if s.last() == '.' {
        s.len() - 1
    } else {
        last_dot(s.drop_last())
    }
}

/// A file name without its extension: the text before its last '.', or the
/// whole name when it has none.
pub open spec fn stem(s: Seq<char>) -> Seq<char> {
    if last_dot(s) >= 0 {
        s.take(last_dot(s))
    } else {
        s
    }
}

proof fn lemma_last_dot(s: Seq<char>, i: int)
    requires
        0 <= i <= s.len(),
        forall|k: int| i <= k < s.len() ==> s[k] != '.',
        i == 0 || s[i - 1] == '.',
    ensures
        last_dot(s) == i - 1,
    decreases s.len(),
{
    if s.len() > i {
        lemma_last_dot(s.drop_last(), i);
    }
}

/// Returns a file name without its extension.
pub fn remove_file_extension(file_name: &str) -> (r: String)
    ensures
        r@ == stem(file_name@),
{
    let v = chars_of(file_name);
    let mut i: usize = v.len();
    while i > 0 && v[i - 1] != '.'
        invariant
            i <= v.len(),
            forall|k: int| i <= k < v.len() ==> v@[k] != '.',
        decreases i,
    {
        i = i - 1;
    }
    proof {
        lemma_last_dot(v@, i as int);
    }
    if i == 0 {
        return file_name.to_owned();
    }
    let mut out: Vec<char> = Vec::new();
    let mut k: usize = 0;
    while k < i - 1
        invariant
            0 < i <= v.len(),
            k <= i - 1,
            out@ == v@.take(k as int),
        decreases i - 1 - k,
    {
        assert(v@.take(k + 1) =~= v@.take(k as int).push(v@[k as int]));
        out.push(v[k]);
        k = k + 1;
    }
    string_of(&out)
}

pub open spec fn is_number_char(c: char) -> bool {
    ('0' <= c && c <= '9') || c == '.' || c == '-' || c == '+'
}

pub open spec fn comma_to_dot(c: char) -> char {
    if c == ',' {
        '.'
    } else {
        c
    }
}

/// The characters of `s` that can belong to a number, with ',' read as '.'.
pub open spec fn number_chars(s: Seq<char>) -> Seq<char>
    decreases s.len(),
{
    if s.len() == 0 {
        Seq::empty()
    } else if is_number_char(comma_to_dot(s.last())) {
        number_chars(s.drop_last()).push(comma_to_dot(s.last()))
    } else {
        number_chars(s.drop_last())
    }
}

pub open spec fn strip_leading_dots(s: Seq<char>) -> Seq<char>
    decreases s.len(),
{
    if s.len() > 0 && s[0] == '.' {
        strip_leading_dots(s.skip(1))
    } else {
        s
    }
}

pub open spec fn strip_trailing_dots(s: Seq<char>) -> Seq<char>
    decreases s.len(),
{
    if s.len() > 0 && s.last() == '.' {
        strip_trailing_dots(s.drop_last())
    } else {
        s
    }
}

/// The number that a file name holds: its number characters, without
/// leading and trailing dots, read as a decimal.
pub open spec fn file_number(name: Seq<char>) -> Option<Fixed> {
    parse_spec(strip_trailing_dots(strip_leading_dots(number_chars(name))))
}

proof fn lemma_strip_leading(s: Seq<char>, i: int)
    requires
        0 <= i <= s.len(),
        forall|k: int| 0 <= k < i ==> s[k] == '.',
        i == s.len() || s[i] != '.',
    ensures
        strip_leading_dots(s) == s.skip(i),
    decreases i,
{
    if i == 0 {
        assert(s.skip(0) =~= s);
    } else {
        assert(s.skip(1).skip(i - 1) =~= s.skip(i));
        lemma_strip_leading(s.skip(1), i - 1);
    }
}

proof fn lemma_strip_trailing(s: Seq<char>, e: int)
    requires
        0 <= e <= s.len(),
        forall|k: int| e <= k < s.len() ==> s[k] == '.',
        e == 0 || s[e - 1] != '.',
    ensures
        strip_trailing_dots(s) == s.take(e),
    decreases s.len(),
{
    if e == s.len() {
        assert(s.take(e) =~= s);
    } else {
        assert(s.drop_last().take(e) =~= s.take(e));
        lemma_strip_trailing(s.drop_last(), e);
    }
}

/// Reads the number in a file name, e.g. 1 from "1.png" and -1.123 from
/// "-1,123.png".
pub fn to_number(file_name: &str) -> (r: Option<Fixed>)
    ensures
        r == file_number(file_name@),
        r matches Some(v) ==> -parsed_limit() < v.micros < parsed_limit(),
{
    let v = chars_of(file_name);
    let mut kept: Vec<char> = Vec::new();
    let mut i: usize = 0;
    assert(v@.take(0) =~= Seq::<char>::empty());
    while i < v.len()
        invariant
            i <= v.len(),
            kept@ == number_chars(v@.take(i as int)),
        decreases v.len() - i,
    {
        assert(v@.take(i + 1).drop_last() =~= v@.take(i as int));
        let c = if v[i] == ',' {
            '.'
        } else {
            v[i]
        };
        if ('0' <= c && c <= '9') || c == '.' || c == '-' || c == '+' {
            kept.push(c);
        }
        i = i + 1;
    }
    assert(v@.take(v.len() as int) =~= v@);
    let mut start: usize = 0;
    while start < kept.len() && kept[start] == '.'
        invariant
            start <= kept.len(),
            forall|k: int| 0 <= k < start ==> kept@[k] == '.',
        decreases kept.len() - start,
    {
        start = start + 1;
    }
    let mut end: usize = kept.len();
    while end > start && kept[end - 1] == '.'
        invariant
            start <= end <= kept.len(),
            forall|k: int| end <= k < kept.len() ==> kept@[k] == '.',
        decreases end,
    {
        end = end - 1;
    }
    let mut cleaned: Vec<char> = Vec::new();
    let mut k: usize = start;
    while k < end
        invariant
            start <= k <= end <= kept.len(),
            cleaned@ == kept@.subrange(start as int, k as int),
        decreases end - k,
    {
        assert(kept@.subrange(start as int, k + 1) =~= kept@.subrange(start as int, k as int).push(
            kept@[k as int],
        ));
        cleaned.push(kept[k]);
        k = k + 1;
    }
    proof {
        lemma_strip_leading(kept@, start as int);
        let t = kept@.skip(start as int);
        lemma_strip_trailing(t, end - start);
        assert(t.take(end - start) =~= cleaned@);
    }
    parse_fixed(&cleaned)
}

/// One image of a gallery: its file name and its encoded bytes, in the
/// order in which the gallery's folder lists them.
#[derive(Clone, Debug, PartialEq)]
pub struct GalleryImage {
    pub file_name: String,
    pub data: Vec<u8>,
}

pub open spec fn text_distance(value: Seq<char>, images: Seq<GalleryImage>, i: int) -> nat {
    lev(value, stem(images[i].file_name@))
}

/// Image `i` has the least distance to `value`, and no image before it has
/// the same distance.
pub open spec fn is_best_text_match(value: Seq<char>, images: Seq<GalleryImage>, i: int) -> bool {
    &&& 0 <= i < images.len()
    &&& forall|j: int|
        0 <= j < i ==> #[trigger] text_distance(value, images, j) > text_distance(value, images, i)
    &&& forall|j: int|
        i < j < images.len() ==> #[trigger] text_distance(value, images, j) >= text_distance(
            value,
            images,
            i,
        )
}

/// Picks the image whose name, without extension, is nearest to the sensor
/// value by edit distance; the first such in gallery order.
pub fn get_image_based_on_text_sensor_value(sensor_value: &str, images: &Vec<GalleryImage>) -> (r:
    Option<usize>)
    ensures
        r is None <==> images.len() == 0,
        r matches Some(i) ==> is_best_text_match(sensor_value@, images@, i as int),
{
    if images.len() == 0 {
        return None;
    }
    let mut best: usize = 0;
    let name = remove_file_extension(images[0].file_name.as_str());
    let mut min_distance = levenshtein_distance(sensor_value, name.as_str());
    let mut i: usize = 1;
    while i < images.len()
        invariant
            1 <= i <= images.len(),
            best < i,
            min_distance == text_distance(sensor_value@, images@, best as int),
            forall|j: int|
                0 <= j < best ==> #[trigger] text_distance(sensor_value@, images@, j)
                    > text_distance(sensor_value@, images@, best as int),
            forall|j: int|
                best < j < i ==> #[trigger] text_distance(sensor_value@, images@, j)
                    >= text_distance(sensor_value@, images@, best as int),
        decreases images.len() - i,
    {
        let name = remove_file_extension(images[i].file_name.as_str());
        let distance = levenshtein_distance(sensor_value, name.as_str());
        if distance < min_distance {
            min_distance = distance;
            best = i;
        }
        i = i + 1;
    }
    Some(best)
}

/// The numbers in the gallery's file names.
pub open spec fn file_values(images: Seq<GalleryImage>) -> Seq<Option<Fixed>> {
    Seq::new(images.len(), |i: int| file_number(images[i].file_name@))
}

/// The smallest number among the present values of `s`.
pub open spec fn least_value(s: Seq<Option<Fixed>>) -> Option<int>
    decreases s.len(),
{
    if s.len() == 0 {
        None
    } else {
        match (least_value(s.drop_last()), s.last()) {
            (None, None) => None,
            (Some(m), None) => Some(m),
            (None, Some(v)) => Some(v.micros as int),
            (Some(m), Some(v)) => Some(if (v.micros as int) < m {
                v.micros as int
            } else {
                m
            }),
        }
    }
}

/// The largest number among the present values of `s`.
pub open spec fn greatest_value(s: Seq<Option<Fixed>>) -> Option<int>
    decreases s.len(),
{
    if s.len() == 0 {
        None
    } else {
        match (greatest_value(s.drop_last()), s.last()) {
            (None, None) => None,
            (Some(m), None) => Some(m),
            (None, Some(v)) => Some(v.micros as int),
            (Some(m), Some(v)) => Some(if (v.micros as int) > m {
                v.micros as int
            } else {
                m
            }),
        }
    }
}

pub open spec fn abs(x: int) -> int {
    if x < 0 {
        -x
    } else {
        x
    }
}

/// The sensor value mapped affinely from `[cmin, cmax]` onto `[imin, imax]`
/// is `remapped_numerator / (cmax - cmin)`.
pub open spec fn remapped_numerator(v: int, cmin: int, cmax: int, imin: int, imax: int) -> int {
    (v - cmin) * (imax - imin) + imin * (cmax - cmin)
}

/// `|t - n|` for the remapped value `t = num / den`, scaled by `|den|`.
pub open spec fn scaled_distance(num: int, den: int, n: int) -> int {
    abs(num - n * den)
}

/// Candidate `i` comes before candidate `j`: it is nearer, or as near with a
/// smaller number, or the same number earlier in the gallery.
pub open spec fn fits_before(di: int, ni: int, i: int, dj: int, nj: int, j: int) -> bool {
    di < dj || (di == dj && (ni < nj || (ni == nj && i < j)))
}

/// Among the present values of `values`, `i` is the one nearest to
/// `num / den`, ties going to the smaller number and then to the earlier one.
pub open spec fn is_best_fit(values: Seq<Option<Fixed>>, num: int, den: int, i: int) -> bool {
    &&& 0 <= i < values.len()
    &&& values[i] is Some
    &&& forall|j: int|
        0 <= j < values.len() && j != i && #[trigger] values[j] is Some ==> fits_before(
            scaled_distance(num, den, values[i].unwrap().micros as int),
            values[i].unwrap().micros as int,
            i,
            scaled_distance(num, den, values[j].unwrap().micros as int),
            values[j].unwrap().micros as int,
            j,
        )
}

/// Returns the index of the value nearest to `remapped_num / remapped_den`,
/// in ascending order of the values with ties kept in gallery order.
pub fn get_best_fitting_image_path(
    numbered_images: &Vec<Option<Fixed>>,
    remapped_num: i128,
    remapped_den: i128,
) -> (r: Option<usize>)
    requires
        -0x40000000000000000000000000000000 < remapped_num < 0x40000000000000000000000000000000,
        -0x4000000000000000 < remapped_den < 0x4000000000000000,
        forall|i: int|
            0 <= i < numbered_images.len() && #[trigger] numbered_images@[i] is Some ==> -parsed_limit()
                < numbered_images@[i].unwrap().micros < parsed_limit(),
    ensures
        r is None <==> forall|i: int| 0 <= i < numbered_images.len() ==> #[trigger] numbered_images@[i] is None,
        r matches Some(i) ==> is_best_fit(numbered_images@, remapped_num as int, remapped_den as int, i as int),
{
    let ghost values = numbered_images@;
    let mut best: Option<usize> = None;
    let mut best_distance: i128 = 0;
    let mut best_value: i64 = 0;
    let mut i: usize = 0;
    while i < numbered_images.len()
        invariant
            i <= numbered_images.len(),
            values == numbered_images@,
            -0x40000000000000000000000000000000 < remapped_num < 0x40000000000000000000000000000000,
            -0x4000000000000000 < remapped_den < 0x4000000000000000,
            forall|k: int|
                0 <= k < values.len() && #[trigger] values[k] is Some ==> -parsed_limit()
                    < values[k].unwrap().micros < parsed_limit(),
            best is None <==> forall|k: int| 0 <= k < i ==> #[trigger] values[k] is None,
            best matches Some(b) ==> {
                &&& b < i
                &&& values[b as int] is Some
                &&& best_value == values[b as int].unwrap().micros
                &&& best_distance == scaled_distance(remapped_num as int, remapped_den as int, best_value as int)
                &&& forall|j: int|
                    0 <= j < i && j != b && #[trigger] values[j] is Some ==> fits_before(
                        best_distance as int,
                        best_value as int,
                        b as int,
                        scaled_distance(remapped_num as int, remapped_den as int, values[j].unwrap().micros as int),
                        values[j].unwrap().micros as int,
                        j,
                    )
            },
        decreases numbered_images.len() - i,
    {
        match numbered_images[i] {
            Some(v) => {
                proof {
                    assert(parsed_limit() == 0x8000000000000000);
                    assert(-0x20000000000000000000000000000000int < v.micros as int * remapped_den
                        < 0x20000000000000000000000000000000int) by (nonlinear_arith)
                        requires
                            -0x8000000000000000 < v.micros < 0x8000000000000000,
                            -0x4000000000000000 < remapped_den < 0x4000000000000000,
                    ;
                }
                let diff = remapped_num - v.micros as i128 * remapped_den;
                let distance = if diff < 0 {
                    -diff
                } else {
                    diff
                };
                let take = match best {
                    None => true,
                    Some(_) => distance < best_distance || (distance == best_distance && v.micros
                        < best_value),
                };
                if take {
                    best = Some(i);
                    best_distance = distance;
                    best_value = v.micros;
                }
            },
            None => {},
        }
        i = i + 1;
    }
    best
}

/// Reads the number in each image's file name, in gallery order.
pub fn get_image_numbers(images: &Vec<GalleryImage>) -> (r: Vec<Option<Fixed>>)
    ensures
        r@ == file_values(images@),
        forall|i: int|
            0 <= i < r.len() && #[trigger] r@[i] is Some ==> -parsed_limit() < r@[i].unwrap().micros
                < parsed_limit(),
{
    let mut out: Vec<Option<Fixed>> = Vec::new();
    let mut i: usize = 0;
    while i < images.len()
        invariant
            i <= images.len(),
            out.len() == i,
            forall|k: int| 0 <= k < i ==> #[trigger] out@[k] == file_number(images@[k].file_name@),
            forall|k: int|
                0 <= k < out.len() && #[trigger] out@[k] is Some ==> -parsed_limit()
                    < out@[k].unwrap().micros < parsed_limit(),
        decreases images.len() - i,
    {
        out.push(to_number(images[i].file_name.as_str()));
        i = i + 1;
    }
    assert(out@ =~= file_values(images@));
    out
}

/// The least and greatest present values, if any is present.
fn value_range(values: &Vec<Option<Fixed>>) -> (r: Option<(i64, i64)>)
    ensures
        r is None <==> least_value(values@) is None,
        r is None <==> greatest_value(values@) is None,
        r is None <==> forall|i: int| 0 <= i < values.len() ==> #[trigger] values@[i] is None,
        r matches Some((lo, hi)) ==> least_value(values@) == Some(lo as int) && greatest_value(
            values@,
        ) == Some(hi as int),
{
    let mut range: Option<(i64, i64)> = None;
    let mut i: usize = 0;
    assert(values@.take(0) =~= Seq::<Option<Fixed>>::empty());
    while i < values.len()
        invariant
            i <= values.len(),
            range is None <==> least_value(values@.take(i as int)) is None,
            range is None <==> greatest_value(values@.take(i as int)) is None,
            range is None <==> forall|k: int| 0 <= k < i ==> #[trigger] values@[k] is None,
            range matches Some((lo, hi)) ==> least_value(values@.take(i as int)) == Some(lo as int)
                && greatest_value(values@.take(i as int)) == Some(hi as int),
        decreases values.len() - i,
    {
        assert(values@.take(i + 1).drop_last() =~= values@.take(i as int));
        assert(values@.take(i + 1).last() == values@[i as int]);
        match values[i] {
            Some(v) => {
                range = match range {
                    None => Some((v.micros, v.micros)),
                    Some((lo, hi)) => Some(
                        (
                            if v.micros < lo {
                                v.micros
                            } else {
                                lo
                            },
                            if v.micros > hi {
                                v.micros
                            } else {
                                hi
                            },
                        ),
                    ),
                };
            },
            None => {},
        }
        i = i + 1;
    }
    assert(values@.take(values.len() as int) =~= values@);
    range
}

/// The remapping of the value `v` from `[cmin, cmax]` onto the gallery's
/// numbers can be computed: some file name holds a number, the sensor range
/// is not empty, and 128-bit arithmetic holds its terms (a range under 2^62
/// millionths, a numerator under 2^126 in magnitude).
pub open spec fn remap_defined(v: int, cmin: int, cmax: int, values: Seq<Option<Fixed>>) -> bool {
    &&& least_value(values) is Some
    &&& cmin != cmax
    &&& -0x4000000000000000 < cmax - cmin < 0x4000000000000000
    &&& -0x40000000000000000000000000000000 < remapped_numerator(
        v,
        cmin,
        cmax,
        least_value(values).unwrap(),
        greatest_value(values).unwrap(),
    ) < 0x40000000000000000000000000000000
}

/// Picks the image whose file-name number is nearest to the sensor value
/// mapped affinely from `[sensor_min, sensor_max]` onto the range of the
/// gallery's numbers; no image when the remapping cannot be computed.
pub fn get_image_based_on_numeric_sensor_value(
    sensor_min: Fixed,
    sensor_max: Fixed,
    sensor_value: Fixed,
    images: &Vec<GalleryImage>,
) -> (r: Option<usize>)
    ensures
        r is None <==> !remap_defined(
            sensor_value.micros as int,
            sensor_min.micros as int,
            sensor_max.micros as int,
            file_values(images@),
        ),
        r matches Some(i) ==> is_best_fit(
            file_values(images@),
            remapped_numerator(
                sensor_value.micros as int,
                sensor_min.micros as int,
                sensor_max.micros as int,
                least_value(file_values(images@)).unwrap(),
                greatest_value(file_values(images@)).unwrap(),
            ),
            sensor_max.micros - sensor_min.micros,
            i as int,
        ),
{
    let values = get_image_numbers(images);
    let (lo, hi) = match value_range(&values) {
        Some(range) => range,
        None => {
            return None;
        },
    };
    let den = sensor_max.micros as i128 - sensor_min.micros as i128;
    if den == 0 || den <= -0x4000000000000000 || den >= 0x4000000000000000 {
        return None;
    }
    proof {
        lemma_range_bounds(values@);
        assert(parsed_limit() == 0x8000000000000000);
        assert(-0x20000000000000000000000000000000int < lo * den
            < 0x20000000000000000000000000000000int) by (nonlinear_arith)
            requires
                -0x4000000000000000 < den < 0x4000000000000000,
                -0x8000000000000000 < lo < 0x8000000000000000,
        ;
    }
    let span = hi as i128 - lo as i128;
    let offset = sensor_value.micros as i128 - sensor_min.micros as i128;
    let scaled = lo as i128 * den;
    let num = match offset.checked_mul(span) {
        Some(product) => match product.checked_add(scaled) {
            Some(sum) => sum,
            None => {
                return None;
            },
        },
        None => {
            return None;
        },
    };
    if num <= -0x40000000000000000000000000000000 || num >= 0x40000000000000000000000000000000 {
        return None;
    }
    get_best_fitting_image_path(&values, num, den)
}

proof fn lemma_range_bounds(s: Seq<Option<Fixed>>)
    requires
        forall|i: int|
            0 <= i < s.len() && #[trigger] s[i] is Some ==> -parsed_limit() < s[i].unwrap().micros
                < parsed_limit(),
    ensures
        least_value(s) matches Some(m) ==> -parsed_limit() < m < parsed_limit(),
        greatest_value(s) matches Some(m) ==> -parsed_limit() < m < parsed_limit(),
    decreases s.len(),
{
    if s.len() > 0 {
        let d = s.drop_last();
        assert forall|i: int| 0 <= i < d.len() && #[trigger] d[i] is Some implies -parsed_limit()
            < d[i].unwrap().micros < parsed_limit() by {
            assert(d[i] == s[i]);
        }
        lemma_range_bounds(d);
        assert(s.last() == s[s.len() - 1]);
    }
}

/// The image that a text sensor selects: the best text match, if any.
pub fn render_text_sensor<'a>(
    conditional_image_config: &ConditionalImageConfig,
    images: &'a Vec<GalleryImage>,
) -> (r: Option<&'a Vec<u8>>)
    ensures
        r is None <==> images.len() == 0,
        r matches Some(d) ==> exists|i: int|
            is_best_text_match(conditional_image_config.sensor_value@, images@, i) && *d
                == #[trigger] images@[i].data,
{
    match get_image_based_on_text_sensor_value(conditional_image_config.sensor_value.as_str(), images) {
        Some(i) => Some(&images[i].data),
        None => None,
    }
}

/// The image that a number sensor selects: none when its value is no
/// number or its remapping cannot be computed, else the best numeric fit.
pub fn render_number_sensor<'a>(
    conditional_image_config: &ConditionalImageConfig,
    images: &'a Vec<GalleryImage>,
) -> (r: Option<&'a Vec<u8>>)
    ensures
        r is None <==> parse_spec(conditional_image_config.sensor_value@) is None || !remap_defined(
            parse_spec(conditional_image_config.sensor_value@).unwrap().micros as int,
            conditional_image_config.min_sensor_value.micros as int,
            conditional_image_config.max_sensor_value.micros as int,
            file_values(images@),
        ),
        r matches Some(d) ==> exists|i: int|
            is_best_fit(
                file_values(images@),
                remapped_numerator(
                    parse_spec(conditional_image_config.sensor_value@).unwrap().micros as int,
                    conditional_image_config.min_sensor_value.micros as int,
                    conditional_image_config.max_sensor_value.micros as int,
                    least_value(file_values(images@)).unwrap(),
                    greatest_value(file_values(images@)).unwrap(),
                ),
                conditional_image_config.max_sensor_value.micros
                    - conditional_image_config.min_sensor_value.micros,
                i,
            ) && *d == #[trigger] images@[i].data,
{
    let c = conditional_image_config;
    let value = match parse_fixed(&chars_of(c.sensor_value.as_str())) {
        Some(v) => v,
        None => {
            return None;
        },
    };
    match get_image_based_on_numeric_sensor_value(c.min_sensor_value, c.max_sensor_value, value, images) {
        Some(i) => Some(&images[i].data),
        None => None,
    }
}

/// The bytes of the gallery image that the sensor's value selects, unchanged.
pub fn render<'a>(
    sensor_type: SensorType,
    conditional_image_config: &ConditionalImageConfig,
    images: &'a Vec<GalleryImage>,
) -> (r: Option<&'a Vec<u8>>)
    ensures
        sensor_type == SensorType::Text ==> (r is None <==> images.len() == 0),
        sensor_type == SensorType::Text ==> (r matches Some(d) ==> exists|i: int|
            is_best_text_match(conditional_image_config.sensor_value@, images@, i) && *d
                == #[trigger] images@[i].data),
        sensor_type == SensorType::Number ==> (r is None <==> parse_spec(
            conditional_image_config.sensor_value@,
        ) is None || !remap_defined(
            parse_spec(conditional_image_config.sensor_value@).unwrap().micros as int,
            conditional_image_config.min_sensor_value.micros as int,
            conditional_image_config.max_sensor_value.micros as int,
            file_values(images@),
        )),
        sensor_type == SensorType::Number ==> (r matches Some(d) ==> exists|i: int|
            is_best_fit(
                file_values(images@),
                remapped_numerator(
                    parse_spec(conditional_image_config.sensor_value@).unwrap().micros as int,
                    conditional_image_config.min_sensor_value.micros as int,
                    conditional_image_config.max_sensor_value.micros as int,
                    least_value(file_values(images@)).unwrap(),
                    greatest_value(file_values(images@)).unwrap(),
                ),
                conditional_image_config.max_sensor_value.micros
                    - conditional_image_config.min_sensor_value.micros,
                i,
            ) && *d == #[trigger] images@[i].data),
{
    match sensor_type {
        SensorType::Text => render_text_sensor(conditional_image_config, images),
        SensorType::Number => render_number_sensor(conditional_image_config, images),
    }
}

/// At most one image of a gallery is the best text match for a value.
pub proof fn lemma_best_text_unique(value: Seq<char>, images: Seq<GalleryImage>, i: int, j: int)
    requires
        is_best_text_match(value, images, i),
        is_best_text_match(value, images, j),
    ensures
        i == j,
{
    if i < j {
        assert(text_distance(value, images, i) > text_distance(value, images, j));
    } else if j < i {
        assert(text_distance(value, images, j) > text_distance(value, images, i));
    }
}

/// At most one candidate is the best numeric fit for a remapped value.
pub proof fn lemma_best_fit_unique(values: Seq<Option<Fixed>>, num: int, den: int, i: int, j: int)
    requires
        is_best_fit(values, num, den, i),
        is_best_fit(values, num, den, j),
    ensures
        i == j,
{
    if i != j {
        assert(values[j] is Some);
        assert(values[i] is Some);
    }
}

/// The index of the gallery image that the sensor selects, if any.
pub open spec fn selected_image(
    sensor_type: SensorType,
    config: ConditionalImageConfig,
    images: Seq<GalleryImage>,
) -> Option<int> {
    match sensor_type {
        SensorType::Text => if images.len() == 0 {
            None
        } else {
            Some(choose|i: int| is_best_text_match(config.sensor_value@, images, i))
        },
        SensorType::Number => {
            let values = file_values(images);
            if parse_spec(config.sensor_value@) is None || !remap_defined(
                parse_spec(config.sensor_value@).unwrap().micros as int,
                config.min_sensor_value.micros as int,
                config.max_sensor_value.micros as int,
                values,
            ) {
                None
            } else {
                Some(
                    choose|i: int|
                        #[trigger] is_best_fit(
                            values,
                            remapped_numerator(
                                parse_spec(config.sensor_value@).unwrap().micros as int,
                                config.min_sensor_value.micros as int,
                                config.max_sensor_value.micros as int,
                                least_value(values).unwrap(),
                                greatest_value(values).unwrap(),
                            ),
                            config.max_sensor_value.micros - config.min_sensor_value.micros,
                            i,
                        ),
                )
            }
        },
    }
}

/// The bytes of the selected gallery image, unchanged.
pub fn select_image<'a>(
    sensor_type: SensorType,
    conditional_image_config: &ConditionalImageConfig,
    images: &'a Vec<GalleryImage>,
) -> (r: Option<&'a Vec<u8>>)
    ensures
        r is None <==> selected_image(sensor_type, *conditional_image_config, images@) is None,
        r matches Some(d) ==> *d == images@[selected_image(
            sensor_type,
            *conditional_image_config,
            images@,
        ).unwrap()].data,
{
    let r = render(sensor_type, conditional_image_config, images);
    proof {
        let c = *conditional_image_config;
        if let Some(d) = r {
            match sensor_type {
                SensorType::Text => {
                    let i = choose|i: int|
                        is_best_text_match(c.sensor_value@, images@, i) && *d == #[trigger] images@[i].data;
                    let k = choose|k: int| is_best_text_match(c.sensor_value@, images@, k);
                    lemma_best_text_unique(c.sensor_value@, images@, i, k);
                },
                SensorType::Number => {
                    let values = file_values(images@);
                    let num = remapped_numerator(
                        parse_spec(c.sensor_value@).unwrap().micros as int,
                        c.min_sensor_value.micros as int,
                        c.max_sensor_value.micros as int,
                        least_value(values).unwrap(),
                        greatest_value(values).unwrap(),
                    );
                    let den = c.max_sensor_value.micros - c.min_sensor_value.micros;
                    let i = choose|i: int| is_best_fit(values, num, den, i) && *d == #[trigger] images@[i].data;
                    let k = choose|k: int| #[trigger] is_best_fit(values, num, den, k);
                    lemma_best_fit_unique(values, num, den, i, k);
                },
            }
        }
    }
    r
}

} // verus!

//! Renders sensor displays: text with historical aggregates, time-series
//! graphs and condition-selected images, composited into one RGBA frame.
use std::collections::HashMap;
use vstd::prelude::*;

pub mod conditional_image_renderer;
pub mod fixed;
pub mod graph_renderer;
pub mod raster;
pub mod strings;
pub mod text_renderer;

use crate::conditional_image_renderer::{select_image, selected_image, GalleryImage};
use crate::fixed::{parse_fixed, parse_spec, Fixed};
use crate::graph_renderer::{border_of, is_chart, prepared, GraphPlan};
use crate::raster::{overlay, overlay_spec, Raster, Rgba};
use crate::strings::{chars_of, string_of};

verus! {

/// What a transport message carries: assets to store before rendering, or
/// the data of one frame.
#[derive(Clone, Debug, PartialEq)]
pub struct TransportMessage {
    pub transport_type: TransportType,
    pub data: Vec<u8>,
}

/// The kind of payload in a `TransportMessage`.
#[derive(Clone, Debug, PartialEq, Eq, Structural)]
pub enum TransportType {
    /// Font data, as `PrepareTextData`.
    PrepareText,
    /// Static images, as `PrepareStaticImageData`.
    PrepareStaticImage,
    /// Image galleries, as `PrepareConditionalImageData`.
    PrepareConditionalImage,
    /// One frame to render, as `RenderData`.
    RenderImage,
}

/// One frame to render: the display layout and the newest sensor readings.
#[derive(Clone, Debug, PartialEq)]
pub struct RenderData {
    pub display_config: DisplayConfig,
    pub sensor_values: Vec<SensorValue>,
}

/// Font data keyed by element id.
#[derive(Clone, Debug, PartialEq)]
pub struct PrepareTextData {
    pub font_data: HashMap<String, Vec<u8>>,
}

/// Encoded static images keyed by element id.
#[derive(Clone, Debug, PartialEq)]
pub struct PrepareStaticImageData {
    pub images_data: HashMap<String, Vec<u8>>,
}

/// Image galleries keyed by element id, each keyed by file name.
#[derive(Clone, Debug, PartialEq)]
pub struct PrepareConditionalImageData {
    pub images_data: HashMap<String, HashMap<String, Vec<u8>>>,
}

/// The display: its resolution and its elements, drawn in order.
#[derive(Clone, Debug, PartialEq)]
pub struct DisplayConfig {
    pub resolution_height: u32,
    pub resolution_width: u32,
    pub elements: Vec<ElementConfig>,
}

/// One element of the display, anchored at `(x, y)`; the anchor may lie
/// partly or wholly outside the frame.
#[derive(Clone, Debug, PartialEq)]
pub struct ElementConfig {
    pub id: String,
    pub name: String,
    pub x: i32,
    pub y: i32,
    pub payload: ElementPayload,
}

/// The configuration of an element, one variant for each element type.
#[derive(Clone, Debug, PartialEq)]
pub enum ElementPayload {
    Text(TextConfig),
    StaticImage(ImageConfig),
    Graph(GraphConfig),
    ConditionalImage(ConditionalImageConfig),
}

impl ElementConfig {
    /// The type tag of this element's payload.
    pub fn element_type(&self) -> (r: ElementType)
        ensures
            r == element_type_of(self.payload),
    {
        match &self.payload {
            ElementPayload::Text(_) => ElementType::Text,
            ElementPayload::StaticImage(_) => ElementType::StaticImage,
            ElementPayload::Graph(_) => ElementType::Graph,
            ElementPayload::ConditionalImage(_) => ElementType::ConditionalImage,
        }
    }
}

pub open spec fn element_type_of(p: ElementPayload) -> ElementType {
    match p {
        ElementPayload::Text(_) => ElementType::Text,
        ElementPayload::StaticImage(_) => ElementType::StaticImage,
        ElementPayload::Graph(_) => ElementType::Graph,
        ElementPayload::ConditionalImage(_) => ElementType::ConditionalImage,
    }
}

/// A text element: a format with placeholders, filled from one sensor.
#[derive(Clone, Debug, PartialEq)]
pub struct TextConfig {
    pub sensor_id: String,
    pub value_modifier: SensorValueModifier,
    pub format: String,
    pub font_family: String,
    pub font_size: u32,
    pub font_color: String,
    pub width: u32,
    pub height: u32,
    pub alignment: TextAlign,
}

/// Horizontal placement of text within its tile.
#[derive(Clone, Copy, Debug, PartialEq, Eq, Structural)]
pub enum TextAlign {
    Left,
    Center,
    Right,
}

/// A static image element.
#[derive(Clone, Debug, PartialEq)]
pub struct ImageConfig {
    pub width: u32,
    pub height: u32,
    pub image_path: String,
}

/// How a graph draws its series.
#[derive(Clone, Copy, Debug, PartialEq, Eq, Structural)]
pub enum GraphType {
    Line,
    LineFill,
}

/// A graph element: one sensor's history as a line chart.
#[derive(Clone, Debug, PartialEq)]
pub struct GraphConfig {
    pub sensor_id: String,
    pub sensor_values: Vec<Fixed>,
    pub min_sensor_value: Option<Fixed>,
    pub max_sensor_value: Option<Fixed>,
    pub width: u32,
    pub height: u32,
    pub graph_type: GraphType,
    pub graph_color: String,
    pub graph_stroke_width: i32,
    pub background_color: String,
    pub border_color: String,
}

/// A conditional image element: one image of a gallery, chosen by a sensor.
#[derive(Clone, Debug, PartialEq)]
pub struct ConditionalImageConfig {
    pub sensor_id: String,
    pub sensor_value: String,
    pub images_path: String,
    pub min_sensor_value: Fixed,
    pub max_sensor_value: Fixed,
    pub width: u32,
    pub height: u32,
}

/// The type of an element.
#[derive(Clone, Copy, Debug, PartialEq, Eq, Structural)]
pub enum ElementType {
    Text,
    StaticImage,
    Graph,
    ConditionalImage,
}

/// One sensor reading.
#[derive(Clone, Debug, PartialEq)]
pub struct SensorValue {
    pub id: String,
    pub value: String,
    pub unit: String,
    pub label: String,
    pub sensor_type: SensorType,
}

/// Which reduction over the history a text's `{value}` shows.
#[derive(Clone, Copy, Debug, PartialEq, Eq, Structural)]
pub enum SensorValueModifier {
    /// The newest reading as it stands.
    Current,
    Min,
    Max,
    Avg,
}

/// Whether a sensor reads text or numbers.
#[derive(Clone, Copy, Debug, PartialEq, Eq, Structural)]
pub enum SensorType {
    Text,
    Number,
}

pub open spec fn is_hex_digit(c: char) -> bool {
    ('0' <= c && c <= '9') || ('a' <= c && c <= 'f') || ('A' <= c && c <= 'F')
}

pub open spec fn hex_digit_value(c: char) -> nat {
    if '0' <= c && c <= '9' {
        (c as u32 - '0' as u32) as nat
    } else if 'a' <= c && c <= 'f' {
        (c as u32 - 'a' as u32 + 10) as nat
    } else {
        (c as u32 - 'A' as u32 + 10) as nat
    }
}

/// The number that the hexadecimal digits `s` write.
pub open spec fn hex_value(s: Seq<char>) -> nat
    decreases s.len(),
{
    if s.len() == 0 {
        0
    } else {
        hex_value(s.drop_last()) * 16 + hex_digit_value(s.last())
    }
}

/// `s` without its leading '#' characters.
pub open spec fn strip_hashes(s: Seq<char>) -> Seq<char>
    decreases s.len(),
{
    if s.len() > 0 && s[0] == '#' {
        strip_hashes(s.skip(1))
    } else {
        s
    }
}

/// The color that `#RRGGBBAA` text writes: after its leading '#', one to
/// eight hexadecimal digits, read as a 32-bit number whose bytes are red,
/// green, blue and alpha from the most significant down.
pub open spec fn color_of(s: Seq<char>) -> Option<Rgba> {
    let d = strip_hashes(s);
    if 0 < d.len() <= 8 && (forall|i: int| 0 <= i < d.len() ==> is_hex_digit(#[trigger] d[i])) {
        let v = hex_value(d);
        Some(
            Rgba {
                r: ((v / 0x1000000) % 256) as u8,
                g: ((v / 0x10000) % 256) as u8,
                b: ((v / 0x100) % 256) as u8,
                a: (v % 256) as u8,
            },
        )
    } else {
        None
    }
}

pub open spec fn pow16(n: nat) -> nat
    decreases n,
{
    if n == 0 {
        1
    } else {
        16 * pow16((n - 1) as nat)
    }
}

proof fn lemma_strip_hashes(s: Seq<char>, i: int)
    requires
        0 <= i <= s.len(),
        forall|k: int| 0 <= k < i ==> s[k] == '#',
        i == s.len() || s[i] != '#',
    ensures
        strip_hashes(s) == s.skip(i),
    decreases i,
{
    if i == 0 {
        assert(s.skip(0) =~= s);
    } else {
        assert(s.skip(1).skip(i - 1) =~= s.skip(i));
        lemma_strip_hashes(s.skip(1), i - 1);
    }
}

proof fn lemma_pow16_positive(n: nat)
    ensures
        pow16(n) >= 1,
    decreases n,
{
    if n > 0 {
        lemma_pow16_positive((n - 1) as nat);
    }
}

/// Reads a `#RRGGBBAA` color; `None` when the text after the leading '#'
/// is not one to eight hexadecimal digits.
pub fn hex_to_rgba(hex_string: &str) -> (r: Option<Rgba>)
    ensures
        r == color_of(hex_string@),
{
    let s = chars_of(hex_string);
    let mut start: usize = 0;
    while start < s.len() && s[start] == '#'
        invariant
            start <= s.len(),
            forall|k: int| 0 <= k < start ==> s@[k] == '#',
        decreases s.len() - start,
    {
        start = start + 1;
    }
    proof {
        lemma_strip_hashes(s@, start as int);
    }
    let ghost d = s@.skip(start as int);
    let n = s.len() - start;
    if n == 0 || n > 8 {
        return None;
    }
    let mut v: u64 = 0;
    let mut i: usize = start;
    proof {
        reveal_with_fuel(pow16, 9);
        assert(pow16(8) == 0x100000000);
        assert(pow16(0) == 1);
        assert(pow16(0) * pow16((8 - 0) as nat) == 0x100000000);
    }
    while i < s.len()
        invariant
            start <= i <= s.len(),
            s.len() - start <= 8,
            d == s@.skip(start as int),
            s@ == hex_string@,
            strip_hashes(hex_string@) == d,
            forall|k: int| 0 <= k < i - start ==> is_hex_digit(#[trigger] d[k]),
            v == hex_value(d.take(i - start)),
            v < pow16((i - start) as nat),
            pow16((i - start) as nat) * pow16((8 - (i - start)) as nat) == 0x100000000,
        decreases s.len() - i,
    {
        let c = s[i];
        let digit: u64 = if '0' <= c && c <= '9' {
            (c as u32 - '0' as u32) as u64
        } else if 'a' <= c && c <= 'f' {
            (c as u32 - 'a' as u32 + 10) as u64
        } else if 'A' <= c && c <= 'F' {
            (c as u32 - 'A' as u32 + 10) as u64
        } else {
            assert(d[i - start] == c);
            assert(!is_hex_digit(d[i - start]));
            assert(strip_hashes(hex_string@) == d);
            assert(!(forall|k: int| 0 <= k < d.len() ==> is_hex_digit(#[trigger] d[k])));
            assert(color_of(hex_string@) is None);
            return None;
        };
        proof {
            let k = (i - start) as nat;
            assert(d.take(k + 1int).drop_last() =~= d.take(k as int));
            assert(d.take(k + 1int).last() == c);
            assert(pow16(k + 1) == 16 * pow16(k));
            assert(pow16((8 - k) as nat) == 16 * pow16((8 - (k + 1)) as nat));
            assert(pow16(k + 1) * pow16((8 - (k + 1)) as nat) == 0x100000000) by (nonlinear_arith)
                requires
                    pow16(k + 1) == 16 * pow16(k),
                    pow16((8 - k) as nat) == 16 * pow16((8 - (k + 1)) as nat),
                    pow16(k) * pow16((8 - k) as nat) == 0x100000000,
            ;
            lemma_pow16_positive((8 - (k + 1)) as nat);
            assert(v * 16 + digit < pow16(k + 1)) by (nonlinear_arith)
                requires
                    v < pow16(k),
                    digit < 16,
                    pow16(k + 1) == 16 * pow16(k),
            ;
            assert(pow16(k + 1) <= 0x100000000) by (nonlinear_arith)
                requires
                    pow16(k + 1) * pow16((8 - (k + 1)) as nat) == 0x100000000,
                    pow16((8 - (k + 1)) as nat) >= 1,
            ;
        }
        v = v * 16 + digit;
        i = i + 1;
    }
    proof {
        assert(d.take(d.len() as int) =~= d);
    }
    Some(
        Rgba {
            r: ((v / 0x1000000) % 256) as u8,
            g: ((v / 0x10000) % 256) as u8,
            b: ((v / 0x100) % 256) as u8,
            a: (v % 256) as u8,
        },
    )
}

/// An encoded image decoded to RGBA8: its width, height and pixels.
pub uninterp spec fn decoded(bytes: Seq<u8>) -> Option<(u32, u32, Seq<Rgba>)>;

/// Relies on `image::load_from_memory` and `DynamicImage::to_rgba8`: the
/// format is guessed from the bytes and the image decoded, or an error
/// returned; an `RgbaImage` holds four bytes for each of its pixels.
#[verifier::external_body]
fn decode_image(bytes: &Vec<u8>) -> (r: Option<Raster>)
    ensures
        r is None <==> decoded(bytes@) is None,
        r matches Some(img) ==> img.wf() && decoded(bytes@) == Some(
            (img.width, img.height, img.pixels@),
        ),
{
    let img = image::load_from_memory(bytes).ok()?.to_rgba8();
    let pixels = img.pixels().map(|p| Rgba { r: p[0], g: p[1], b: p[2], a: p[3] }).collect();
    Some(Raster { width: img.width(), height: img.height(), pixels })
}

/// The frame after the encoded image `bytes` is drawn at `(x, y)`;
/// unchanged when the bytes do not decode.
pub open spec fn drawn_encoded(frame: Raster, bytes: Seq<u8>, x: int, y: int) -> Seq<Rgba> {
    match decoded(bytes) {
        Some((w, h, p)) => overlay_spec(frame.width as int, frame.pixels@, w as int, h as int, p, x, y),
        None => frame.pixels@,
    }
}

/// Draws a tile onto the frame with its top left corner at `(x, y)`,
/// blending source-over and clipping to the frame.
pub fn draw_tile(image: &mut Raster, tile: &Raster, x: i32, y: i32)
    requires
        old(image).wf(),
        tile.wf(),
    ensures
        final(image).wf(),
        final(image).width == old(image).width,
        final(image).height == old(image).height,
        final(image).pixels@ == overlay_spec(
            old(image).width as int,
            old(image).pixels@,
            tile.width as int,
            tile.height as int,
            tile.pixels@,
            x as int,
            y as int,
        ),
{
    overlay(image, tile, x as i64, y as i64);
}

/// Draws an encoded static image at `(x, y)`; a missing image, or one that
/// does not decode, leaves the frame as it was.
pub fn draw_static_image(image: &mut Raster, image_data: Option<&Vec<u8>>, x: i32, y: i32)
    requires
        old(image).wf(),
    ensures
        final(image).wf(),
        final(image).width == old(image).width,
        final(image).height == old(image).height,
        image_data is None ==> final(image).pixels@ == old(image).pixels@,
        image_data matches Some(d) ==> final(image).pixels@ == drawn_encoded(*old(image), d@, x as int, y as int),
{
    if let Some(d) = image_data {
        if let Some(tile) = decode_image(d) {
            draw_tile(image, &tile, x, y);
        }
    }
}

/// Draws a text element at `(x, y)` from its text rasterized onto `scratch`.
pub fn draw_text(image: &mut Raster, text_config: &TextConfig, scratch: &Raster, x: i32, y: i32)
    requires
        old(image).wf(),
        scratch.wf(),
        text_config.width * text_config.height <= usize::MAX,
    ensures
        final(image).wf(),
        final(image).width == old(image).width,
        final(image).height == old(image).height,
        final(image).pixels@ == overlay_spec(
            old(image).width as int,
            old(image).pixels@,
            text_config.width as int,
            text_config.height as int,
            text_renderer::text_tile(*text_config, *scratch),
            x as int,
            y as int,
        ),
{
    let tile = text_renderer::render(text_config, scratch);
    draw_tile(image, &tile, x, y);
}

/// The configuration with the newest reading's value in place of the configured one.
pub open spec fn with_sensor_value(c: ConditionalImageConfig, value: String) -> ConditionalImageConfig {
    ConditionalImageConfig { sensor_value: value, ..c }
}

/// Draws a conditional image at `(x, y)`: the newest reading of its sensor
/// selects an image of `images`; without a reading, a selection, or a
/// decodable image the frame stays as it was.
pub fn draw_conditional_image(
    image: &mut Raster,
    x: i32,
    y: i32,
    config: &ConditionalImageConfig,
    sensor_value_history: &[Vec<SensorValue>],
    images: &Vec<GalleryImage>,
)
    requires
        old(image).wf(),
    ensures
        final(image).wf(),
        final(image).width == old(image).width,
        final(image).height == old(image).height,
        final(image).pixels@ == match text_renderer::latest_reading(sensor_value_history@, config.sensor_id@) {
            None => old(image).pixels@,
            Some(v) => match selected_image(v.sensor_type, with_sensor_value(*config, v.value), images@) {
                None => old(image).pixels@,
                Some(i) => drawn_encoded(*old(image), images@[i].data@, x as int, y as int),
            },
        },
{
    let reading = match text_renderer::get_latest_value(config.sensor_id.as_str(), sensor_value_history) {
        Some(v) => v,
        None => {
            return;
        },
    };
    let current = ConditionalImageConfig {
        sensor_id: config.sensor_id.clone(),
        sensor_value: reading.value.clone(),
        images_path: config.images_path.clone(),
        min_sensor_value: config.min_sensor_value,
        max_sensor_value: config.max_sensor_value,
        width: config.width,
        height: config.height,
    };
    assert(current == with_sensor_value(*config, reading.value));
    let data = select_image(reading.sensor_type, &current, images);
    draw_static_image(image, data, x, y);
}

/// The value of the first reading of the sensor in one frame whose value
/// parses as a number, if there is one.
pub open spec fn frame_value(frame: Seq<SensorValue>, id: Seq<char>) -> Seq<Fixed>
    decreases frame.len(),
{
    if frame.len() == 0 {
        Seq::empty()
    } else if frame[0].id@ == id && parse_spec(frame[0].value@) is Some {
        seq![parse_spec(frame[0].value@).unwrap()]
    } else {
        frame_value(frame.skip(1), id)
    }
}

/// The value of the first reading of the sensor in `frame` that parses.
fn first_parsed_value(frame: &Vec<SensorValue>, sensor_id: &str) -> (r: Option<Fixed>)
    ensures
        frame_value(frame@, sensor_id@) == match r {
            Some(f) => seq![f],
            None => Seq::<Fixed>::empty(),
        },
{
    let key = sensor_id.to_owned();
    let mut i: usize = 0;
    assert(frame@.skip(0) =~= frame@);
    while i < frame.len()
        invariant
            i <= frame.len(),
            key@ == sensor_id@,
            frame_value(frame@, sensor_id@) == frame_value(frame@.skip(i as int), sensor_id@),
        decreases frame.len() - i,
    {
        assert(frame@.skip(i as int).skip(1) =~= frame@.skip(i + 1));
        if frame[i].id == key {
            if let Some(f) = parse_fixed(&chars_of(frame[i].value.as_str())) {
                return Some(f);
            }
        }
        i = i + 1;
    }
    None
}

/// The sensor's parsed values over the history, oldest first.
pub open spec fn history_values(history: Seq<Vec<SensorValue>>, id: Seq<char>) -> Seq<Fixed>
    decreases history.len(),
{
    if history.len() == 0 {
        Seq::empty()
    } else {
        history_values(history.skip(1), id) + frame_value(history[0]@, id)
    }
}

/// Returns, for each frame of the history that has one, the first reading
/// of the sensor whose value parses as a number, oldest frame first.
pub fn extract_value_sequence(sensor_value_history: &[Vec<SensorValue>], sensor_id: &str) -> (r: Vec<
    Fixed,
>)
    ensures
        r@ == history_values(sensor_value_history@, sensor_id@),
{
    let ghost h = sensor_value_history@;
    let mut out: Vec<Fixed> = Vec::new();
    let mut i: usize = sensor_value_history.len();
    assert(h.skip(h.len() as int) =~= Seq::<Vec<SensorValue>>::empty());
    while i > 0
        invariant
            i <= h.len(),
            h == sensor_value_history@,
            out@ == history_values(h.skip(i as int), sensor_id@),
        decreases i,
    {
        assert(h.skip(i - 1).skip(1) =~= h.skip(i as int));
        assert(h.skip(i - 1)[0] == h[i - 1]);
        if let Some(f) = first_parsed_value(&sensor_value_history[i - 1], sensor_id) {
            out.push(f);
        }
        i = i - 1;
    }
    assert(h.skip(0) =~= h);
    out
}

/// Plans a graph element's tile from the sensor's history, in place of the
/// configured series.
pub fn plan_graph(config: &GraphConfig, sensor_value_history: &[Vec<SensorValue>]) -> (plan: GraphPlan)
    requires
        config.width * config.height <= usize::MAX,
    ensures
        is_chart(
            plan,
            *config,
            prepared(config.width as int, history_values(sensor_value_history@, config.sensor_id@)),
            config.graph_type == GraphType::LineFill,
        ),
        plan.border == border_of(config.border_color@),
{
    let values = extract_value_sequence(sensor_value_history, config.sensor_id.as_str());
    let current = GraphConfig {
        sensor_id: config.sensor_id.clone(),
        sensor_values: values,
        min_sensor_value: config.min_sensor_value,
        max_sensor_value: config.max_sensor_value,
        width: config.width,
        height: config.height,
        graph_type: config.graph_type,
        graph_color: config.graph_color.clone(),
        graph_stroke_width: config.graph_stroke_width,
        background_color: config.background_color.clone(),
        border_color: config.border_color.clone(),
    };
    graph_renderer::render(&current)
}

/// The name of the cache folder for an element type.
pub open spec fn type_folder(t: ElementType) -> Seq<char> {
    match t {
        ElementType::Text => seq!['t', 'e', 'x', 't'],
        ElementType::StaticImage => seq!['s', 't', 'a', 't', 'i', 'c', '-', 'i', 'm', 'a', 'g', 'e'],
        ElementType::Graph => seq!['g', 'r', 'a', 'p', 'h'],
        ElementType::ConditionalImage => seq![
            'c', 'o', 'n', 'd', 'i', 't', 'i', 'o', 'n', 'a', 'l', '-', 'i', 'm', 'a', 'g', 'e'
        ],
    }
}

/// `b` appended to the path `a` as one more component.
pub open spec fn join_path(a: Seq<char>, b: Seq<char>) -> Seq<char> {
    if a.len() == 0 || a.last() == '/' {
        a + b
    } else {
        a + seq!['/'] + b
    }
}

fn join_path_exec(a: &Vec<char>, b: &Vec<char>) -> (r: Vec<char>)
    ensures
        r@ == join_path(a@, b@),
{
    let mut out: Vec<char> = Vec::new();
    let mut i: usize = 0;
    while i < a.len()
        invariant
            i <= a.len(),
            out@ == a@.take(i as int),
        decreases a.len() - i,
    {
        assert(a@.take(i + 1) =~= a@.take(i as int).push(a@[i as int]));
        out.push(a[i]);
        i = i + 1;
    }
    assert(a@.take(a.len() as int) =~= a@);
    if a.len() > 0 && a[a.len() - 1] != '/' {
        out.push('/');
    }
    let ghost base = out@;
    let mut k: usize = 0;
    while k < b.len()
        invariant
            k <= b.len(),
            out@ == base + b@.take(k as int),
        decreases b.len() - k,
    {
        assert(b@.take(k + 1) =~= b@.take(k as int).push(b@[k as int]));
        out.push(b[k]);
        k = k + 1;
    }
    assert(b@.take(b.len() as int) =~= b@);
    assert(out@ =~= join_path(a@, b@));
    out
}

/// Returns the cache folder of an element: `<base>/<type folder>/<element id>`.
pub fn get_cache_dir(base_dir: &str, element_id: &str, element_type: &ElementType) -> (r: String)
    ensures
        r@ == join_path(join_path(base_dir@, type_folder(*element_type)), element_id@),
{
    let folder: Vec<char> = match element_type {
        ElementType::Text => vec!['t', 'e', 'x', 't'],
        ElementType::StaticImage => vec!['s', 't', 'a', 't', 'i', 'c', '-', 'i', 'm', 'a', 'g', 'e'],
        ElementType::Graph => vec!['g', 'r', 'a', 'p', 'h'],
        ElementType::ConditionalImage => vec![
            'c', 'o', 'n', 'd', 'i', 't', 'i', 'o', 'n', 'a', 'l', '-', 'i', 'm', 'a', 'g', 'e'
        ],
    };
    let typed = join_path_exec(&chars_of(base_dir), &folder);
    string_of(&join_path_exec(&typed, &chars_of(element_id)))
}

/// Two plans that both chart the same series under the same configuration
/// are the same plan.
pub proof fn lemma_chart_unique(
    first: GraphPlan,
    second: GraphPlan,
    config: GraphConfig,
    numbers: Seq<Fixed>,
    fill: bool,
)
    requires
        is_chart(first, config, numbers, fill),
        is_chart(second, config, numbers, fill),
    ensures
        first.tile.width == second.tile.width,
        first.tile.height == second.tile.height,
        first.tile.pixels@ == second.tile.pixels@,
        first.color == second.color,
        first.segments@ == second.segments@,
{
    assert(first.tile.pixels@ =~= second.tile.pixels@);
    assert(first.segments@ =~= second.segments@);
}

/// A raster of this size can be held in memory.
pub open spec fn fits(width: u32, height: u32) -> bool {
    width * height <= usize::MAX
}

/// Whether a raster of this size can be held in memory.
pub fn raster_fits(width: u32, height: u32) -> (r: bool)
    ensures
        r == fits(width, height),
{
    (width as usize).checked_mul(height as usize).is_some()
}

/// The outside work that an element needs before it can be drawn onto the
/// frame.
pub enum ElementWork {
    /// Rasterize `text` in the element's font and color onto a clear raster
    /// of the tile's size, then draw it with `draw_text`.
    RasterizeText { text: String },
    /// Load the element's cached image, then draw it with `draw_static_image`.
    LoadStaticImage,
    /// Stroke the plan's segments, then its border, onto its tile, then draw
    /// the tile with `draw_tile`.
    StrokeGraph { plan: GraphPlan },
    /// Load the element's gallery, then draw it with `draw_conditional_image`.
    LoadGallery,
    /// The element's tile cannot be held in memory; it is skipped.
    Skip,
}

/// Decides what drawing an element takes: the filled text of a text
/// element, the planned chart of a graph element from the sensor's history,
/// or the asset that an image element needs.
pub fn draw_element(element: &ElementConfig, sensor_value_history: &[Vec<SensorValue>]) -> (r: ElementWork)
    ensures
        match element.payload {
            ElementPayload::Text(c) => if fits(c.width, c.height) {
                r matches ElementWork::RasterizeText { text } && text@ == text_renderer::substituted(
                    c.format@,
                    c.value_modifier,
                    sensor_value_history@,
                    c.sensor_id@,
                )
            } else {
                r is Skip
            },
            ElementPayload::StaticImage(_) => r is LoadStaticImage,
            ElementPayload::Graph(c) => if fits(c.width, c.height) {
                r matches ElementWork::StrokeGraph { plan } && is_chart(
                    plan,
                    c,
                    prepared(c.width as int, history_values(sensor_value_history@, c.sensor_id@)),
                    c.graph_type == GraphType::LineFill,
                ) && plan.border == border_of(c.border_color@)
            } else {
                r is Skip
            },
            ElementPayload::ConditionalImage(_) => r is LoadGallery,
        },
{
    match &element.payload {
        ElementPayload::Text(c) => {
            if !raster_fits(c.width, c.height) {
                return ElementWork::Skip;
            }
            let text = text_renderer::replace_placeholders(c, c.sensor_id.as_str(), sensor_value_history);
            ElementWork::RasterizeText { text }
        },
        ElementPayload::StaticImage(_) => ElementWork::LoadStaticImage,
        ElementPayload::Graph(c) => {
            if !raster_fits(c.width, c.height) {
                return ElementWork::Skip;
            }
            ElementWork::StrokeGraph { plan: plan_graph(c, sensor_value_history) }
        },
        ElementPayload::ConditionalImage(_) => ElementWork::LoadGallery,
    }
}

} // verus!

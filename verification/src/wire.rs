//! The JSON a browser viewer reads: the style table, the layers, the map's
//! counts, and string escaping for the labels inside them.

use vstd::prelude::*;
use crate::style::{StyleTable, StyleView, VizLayer, hex_digit, push_hex_digit};
use crate::summary::MapStats;
use crate::text::{decimal, digit_char, signed_decimal, push_decimal, push_signed_decimal};

verus! {

/// How one character is written inside a JSON string: quote, backslash and
/// the control characters escaped, everything else as it is.
pub open spec fn char_escape(c: char) -> Seq<char> {
    if c == '"' {
        seq!['\\', '"']
    } else if c == '\\' {
        seq!['\\', '\\']
    } else if c == '\n' {
        seq!['\\', 'n']
    } else if c == '\r' {
        seq!['\\', 'r']
    } else if c == '\t' {
        seq!['\\', 't']
    } else if (c as u32) < 0x20 {
        seq!['\\', 'u', '0', '0', hex_digit(((c as u32) / 16) as u8), hex_digit(((c as u32) % 16) as u8)]
    } else {
        seq![c]
    }
}

/// A text as it is written inside a JSON string.
pub open spec fn escaped(text: Seq<char>) -> Seq<char>
    decreases text.len(),
{
    if text.len() == 0 { seq![] } else { escaped(text.drop_last()) + char_escape(text.last()) }
}

/// Appends `text` as it is written inside a JSON string.
pub fn push_escaped(out: &mut String, text: &str)
    ensures
        final(out)@ == old(out)@ + escaped(text@),
{
    let ghost front = old(out)@;
    let n = text.unicode_len();
    let mut i: usize = 0;
    while i < n
        invariant
            n == text@.len(),
            i <= n,
            out@ == front + escaped(text@.take(i as int)),
        decreases n - i,
    {
        let c = text.get_char(i);
        let ghost before = out@;
        if c == '"' {
            out.push('\\');
            out.push('"');
        } else if c == '\\' {
            out.push('\\');
            out.push('\\');
        } else if c == '\n' {
            out.push('\\');
            out.push('n');
        } else if c == '\r' {
            out.push('\\');
            out.push('r');
        } else if c == '\t' {
            out.push('\\');
            out.push('t');
        } else if (c as u32) < 0x20 {
            let code = c as u32;
            out.push('\\');
            out.push('u');
            out.push('0');
            out.push('0');
            push_hex_digit(out, (code / 16) as u8);
            push_hex_digit(out, (code % 16) as u8);
        } else {
            out.push(c);
        }
        proof {
            let t = text@.take(i + 1);
            assert(t.drop_last() =~= text@.take(i as int));
            assert(t.last() == c);
            assert(out@ =~= before + char_escape(c));
        }
        i = i + 1;
    }
    assert(text@.take(n as int) =~= text@);
}

/// A fraction in hundredths as the shortest decimal: `85` is `0.85`, `50`
/// is `0.5`, `100` is `1`.
pub open spec fn hundredths(v: nat) -> Seq<char> {
    decimal(v / 100) + if v % 100 == 0 {
        seq![]
    } else if v % 10 == 0 {
        seq!['.', digit_char((v % 100) / 10)]
    } else {
        seq!['.', digit_char((v % 100) / 10), digit_char(v % 10)]
    }
}

/// A number in tenths as the shortest decimal: `15` is `1.5`, `10` is `1`.
pub open spec fn tenths(v: nat) -> Seq<char> {
    decimal(v / 10) + if v % 10 == 0 { seq![] } else { seq!['.', digit_char(v % 10)] }
}

fn push_digit(out: &mut String, d: u32)
    requires
        d < 10,
    ensures
        final(out)@ == old(out)@.push(digit_char(d as nat)),
{
    out.push((48 + d as u8) as char);
}

pub fn push_hundredths(out: &mut String, v: u32)
    ensures
        final(out)@ == old(out)@ + hundredths(v as nat),
{
    let ghost front = old(out)@;
    push_decimal(out, (v / 100) as u64);
    if v % 100 != 0 {
        out.push('.');
        push_digit(out, (v % 100) / 10);
        if v % 10 != 0 {
            push_digit(out, v % 10);
        }
    }
    assert(out@ =~= front + hundredths(v as nat));
}

pub fn push_tenths(out: &mut String, v: u32)
    ensures
        final(out)@ == old(out)@ + tenths(v as nat),
{
    let ghost front = old(out)@;
    push_decimal(out, (v / 10) as u64);
    if v % 10 != 0 {
        out.push('.');
        push_digit(out, v % 10);
    }
    assert(out@ =~= front + tenths(v as nat));
}

/// The opening of a style's JSON object: name, label, painter's order and
/// whether the legend lists it.
pub open spec fn style_head(s: StyleView) -> Seq<char> {
    "{\"name\":\""@ + escaped(s.name) + "\",\"label\":\""@ + escaped(s.label) + "\",\"z\":"@ + signed_decimal(s.z as int)
        + ",\"inLegend\":"@ + (if s.in_legend { "true"@ } else { "false"@ })
}

pub open spec fn stroke_part(s: StyleView) -> Seq<char> {
    match s.stroke {
        Some(c) => ",\"stroke\":\""@ + c.spec_hex() + "\",\"strokeOpacity\":"@ + hundredths(s.stroke_opacity as nat)
            + ",\"strokeWidth\":"@ + tenths(s.stroke_width as nat),
        None => ",\"stroke\":null"@,
    }
}

pub open spec fn dash_part(s: StyleView) -> Seq<char> {
    match s.dash {
        Some(d) => ",\"dash\":["@ + decimal(d.0 as nat) + ","@ + decimal(d.1 as nat) + "]"@,
        None => ",\"dash\":null"@,
    }
}

pub open spec fn fill_part(s: StyleView) -> Seq<char> {
    match s.fill {
        Some(c) => ",\"fill\":\""@ + c.spec_hex() + "\",\"fillOpacity\":"@ + hundredths(s.fill_opacity as nat),
        None => ",\"fill\":null"@,
    }
}

/// One style as a JSON object.
pub open spec fn style_json(s: StyleView) -> Seq<char> {
    style_head(s) + stroke_part(s) + dash_part(s) + fill_part(s) + "}"@
}

/// The styles, as a JSON array in table order.
pub open spec fn styles_text(styles: Seq<StyleView>) -> Seq<char> {
    "["@ + joined_styles(styles) + "]"@
}

pub open spec fn joined_styles(styles: Seq<StyleView>) -> Seq<char>
    decreases styles.len(),
{
    if styles.len() == 0 {
        seq![]
    } else if styles.len() == 1 {
        style_json(styles[0])
    } else {
        joined_styles(styles.drop_last()) + ","@ + style_json(styles.last())
    }
}

fn push_head(out: &mut String, style: &crate::style::Style)
    ensures
        final(out)@ == old(out)@ + style_head(style@),
{
    let ghost front = old(out)@;
    out.append("{\"name\":\"");
    push_escaped(out, style.name.as_str());
    out.append("\",\"label\":\"");
    push_escaped(out, style.label);
    out.append("\",\"z\":");
    push_signed_decimal(out, style.z as i64);
    out.append(",\"inLegend\":");
    out.append(if style.in_legend { "true" } else { "false" });
    assert(out@ =~= front + style_head(style@));
}

fn push_stroke(out: &mut String, style: &crate::style::Style)
    ensures
        final(out)@ == old(out)@ + stroke_part(style@),
{
    let ghost front = old(out)@;
    match style.stroke {
        Some(c) => {
            out.append(",\"stroke\":\"");
            let hex = c.to_hex();
            out.append(hex.as_str());
            out.append("\",\"strokeOpacity\":");
            push_hundredths(out, style.stroke_opacity);
            out.append(",\"strokeWidth\":");
            push_tenths(out, style.stroke_width);
        },
        None => {
            out.append(",\"stroke\":null");
        },
    }
    assert(out@ =~= front + stroke_part(style@));
}

fn push_dash(out: &mut String, style: &crate::style::Style)
    ensures
        final(out)@ == old(out)@ + dash_part(style@),
{
    let ghost front = old(out)@;
    match style.dash {
        Some(d) => {
            out.append(",\"dash\":[");
            push_decimal(out, d.0 as u64);
            out.append(",");
            push_decimal(out, d.1 as u64);
            out.append("]");
        },
        None => {
            out.append(",\"dash\":null");
        },
    }
    assert(out@ =~= front + dash_part(style@));
}

fn push_fill(out: &mut String, style: &crate::style::Style)
    ensures
        final(out)@ == old(out)@ + fill_part(style@),
{
    let ghost front = old(out)@;
    match style.fill {
        Some(c) => {
            out.append(",\"fill\":\"");
            let hex = c.to_hex();
            out.append(hex.as_str());
            out.append("\",\"fillOpacity\":");
            push_hundredths(out, style.fill_opacity);
        },
        None => {
            out.append(",\"fill\":null");
        },
    }
    assert(out@ =~= front + fill_part(style@));
}

fn push_style(out: &mut String, style: &crate::style::Style)
    ensures
        final(out)@ == old(out)@ + style_json(style@),
{
    let ghost front = old(out)@;
    push_head(out, style);
    push_stroke(out, style);
    push_dash(out, style);
    push_fill(out, style);
    out.append("}");
    assert(out@ =~= front + style_json(style@));
}

/// The style table as a JSON array.
pub fn styles_json(table: &StyleTable) -> (r: String)
    ensures
        r@ == styles_text(table.spec_styles()),
{
    let mut out = String::from_str("[");
    let n = table.len();
    let mut i: usize = 0;
    while i < n
        invariant
            n == table.spec_styles().len(),
            i <= n,
            out@ == "["@ + joined_styles(table.spec_styles().take(i as int)),
        decreases n - i,
    {
        let ghost before = out@;
        if i > 0 {
            out.append(",");
        }
        match table.get(i) {
            Some(style) => {
                push_style(&mut out, style);
            },
            None => {},
        }
        proof {
            let t = table.spec_styles().take(i + 1);
            assert(t.drop_last() =~= table.spec_styles().take(i as int));
            assert(t.last() == table.spec_styles()[i as int]);
            if i == 0 {
                assert(t.len() == 1);
                assert(table.spec_styles().take(0) =~= Seq::<StyleView>::empty());
            }
            assert(out@ =~= "["@ + joined_styles(t));
        }
        i = i + 1;
    }
    out.append("]");
    assert(table.spec_styles().take(n as int) =~= table.spec_styles());
    out
}

/// One layer as a JSON object.
pub open spec fn layer_json(layer: VizLayer) -> Seq<char> {
    "{\"key\":\""@ + layer.spec_key() + "\",\"label\":\""@ + layer.spec_label() + "\"}"@
}

/// The layers in painter's order, as a JSON array.
pub open spec fn layers_text(layers: Seq<VizLayer>) -> Seq<char> {
    "["@ + joined_layers(layers) + "]"@
}

pub open spec fn joined_layers(layers: Seq<VizLayer>) -> Seq<char>
    decreases layers.len(),
{
    if layers.len() == 0 {
        seq![]
    } else if layers.len() == 1 {
        layer_json(layers[0])
    } else {
        joined_layers(layers.drop_last()) + ","@ + layer_json(layers.last())
    }
}

/// Every layer, in painter's order, as a JSON array of keys and labels.
pub fn layers_json() -> (r: String)
    ensures
        exists|layers: Seq<VizLayer>|
            layers.len() == 8 && (forall|i: int| 0 <= i < 8 ==> (#[trigger] layers[i]).spec_index() == i)
            && r@ == #[trigger] layers_text(layers),
{
    let all = VizLayer::all();
    let mut out = String::from_str("[");
    let mut i: usize = 0;
    while i < all.len()
        invariant
            i <= all@.len(),
            out@ == "["@ + joined_layers(all@.take(i as int)),
        decreases all@.len() - i,
    {
        if i > 0 {
            out.append(",");
        }
        out.append("{\"key\":\"");
        out.append(all[i].key());
        out.append("\",\"label\":\"");
        out.append(all[i].label());
        out.append("\"}");
        proof {
            let t = all@.take(i + 1);
            assert(t.drop_last() =~= all@.take(i as int));
            assert(t.last() == all@[i as int]);
            if i == 0 {
                assert(t.len() == 1);
                assert(all@.take(0) =~= Seq::<VizLayer>::empty());
            }
            assert(out@ =~= "["@ + joined_layers(t));
        }
        i = i + 1;
    }
    out.append("]");
    assert(all@.take(all@.len() as int) =~= all@);
    assert(out@ == layers_text(all@));
    out
}

/// The map's counts as a JSON object.
pub open spec fn stats_text(s: MapStats) -> Seq<char> {
    "{\"points\":"@ + decimal(s.points as nat) + ",\"lineStrings\":"@ + decimal(s.line_strings as nat) + ",\"polygons\":"@
        + decimal(s.polygons as nat) + ",\"lanelets\":"@ + decimal(s.lanelets as nat) + ",\"areas\":"@ + decimal(s.areas as nat)
        + ",\"regulatoryElements\":"@ + decimal(s.regulatory_elements as nat) + "}"@
}

/// The map's counts as `{"points":…,"lineStrings":…,…}`.
pub fn stats_json(stats: &MapStats) -> (r: String)
    ensures
        r@ == stats_text(*stats),
{
    let mut out = String::from_str("{\"points\":");
    push_decimal(&mut out, stats.points as u64);
    out.append(",\"lineStrings\":");
    push_decimal(&mut out, stats.line_strings as u64);
    out.append(",\"polygons\":");
    push_decimal(&mut out, stats.polygons as u64);
    out.append(",\"lanelets\":");
    push_decimal(&mut out, stats.lanelets as u64);
    out.append(",\"areas\":");
    push_decimal(&mut out, stats.areas as u64);
    out.append(",\"regulatoryElements\":");
    push_decimal(&mut out, stats.regulatory_elements as u64);
    out.append("}");
    assert(out@ =~= stats_text(*stats));
    out
}

/// How many vertices the first `k` shapes hold between them.
pub open spec fn vertices_before(counts: Seq<usize>, k: int) -> int
    decreases k,
{
    if k <= 0 { 0 } else { vertices_before(counts, k - 1) + counts[k - 1] }
}

/// Where each shape starts in the flat vertex buffer, and a final entry where
/// the last one ends: the running total of the shapes' vertex counts.
pub fn vertex_offsets(counts: &Vec<usize>) -> (r: Vec<u32>)
    requires
        vertices_before(counts@, counts@.len() as int) <= u32::MAX,
    ensures
        r@.len() == counts@.len() + 1,
        forall|i: int| 0 <= i <= counts@.len() ==> r@[i] == vertices_before(counts@, i),
{
    let mut offsets: Vec<u32> = Vec::new();
    let mut total: u32 = 0;
    let mut i: usize = 0;
    while i < counts.len()
        invariant
            i <= counts@.len(),
            vertices_before(counts@, counts@.len() as int) <= u32::MAX,
            total == vertices_before(counts@, i as int),
            offsets@.len() == i,
            forall|k: int| 0 <= k < i ==> offsets@[k] == vertices_before(counts@, k),
        decreases counts@.len() - i,
    {
        offsets.push(total);
        proof {
            lemma_vertices_before_mono(counts@, i as int + 1, counts@.len() as int);
        }
        total = total + counts[i] as u32;
        i = i + 1;
    }
    offsets.push(total);
    offsets
}

proof fn lemma_vertices_before_mono(counts: Seq<usize>, a: int, b: int)
    requires
        0 <= a <= b <= counts.len(),
    ensures
        vertices_before(counts, a) <= vertices_before(counts, b),
    decreases b - a,
{
    if a < b {
        lemma_vertices_before_mono(counts, a, b - 1);
    }
}

/// The label of shape `index`, or nothing where there is no such shape.
pub fn label_at(labels: &Vec<String>, index: usize) -> (r: String)
    ensures
        index < labels@.len() ==> r@ == labels@[index as int]@,
        index >= labels@.len() ==> r@ == Seq::<char>::empty(),
{
    if index < labels.len() {
        labels[index].clone()
    } else {
        String::new()
    }
}

} // verus!

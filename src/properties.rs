use vstd::prelude::*;

verus! {

/// The value set for `key` among the settings of a layer: the first entry of that key,
/// which holds `None` when its value is not a string.
pub open spec fn lookup(c: Seq<(String, Option<String>)>, key: Seq<char>) -> Option<Option<String>>
    decreases c.len(),
{
    if c.len() == 0 {
        None
    } else if c[0].0@ == key {
        Some(c[0].1)
    } else {
        lookup(c.drop_first(), key)
    }
}

/// The string set for `key`, or `default` when the key is missing or not set to a string.
pub open spec fn setting(c: Seq<(String, Option<String>)>, key: Seq<char>, default: Seq<char>) -> Seq<char> {
    match lookup(c, key) {
        Some(Some(v)) => v@,
        _ => default,
    }
}

fn string_or_default(c: &Vec<(String, Option<String>)>, key: &str, default: &str) -> (r: String)
    ensures
        r@ == setting(c@, key@, default@),
{
    let k = key.to_owned();
    let mut i: usize = 0;
    assert(c@.skip(0) =~= c@);
    while i < c.len()
        invariant
            0 <= i <= c.len(),
            k@ == key@,
            lookup(c@, key@) == lookup(c@.skip(i as int), key@),
        decreases c.len() - i,
    {
        assert(c@.skip(i as int).drop_first() =~= c@.skip(i + 1));
        if c[i].0 == k {
            match &c[i].1 {
                Some(v) => {
                    return v.clone();
                },
                None => {
                    return default.to_owned();
                },
            }
        }
        i += 1;
    }
    default.to_owned()
}

/// How a layer drawn in a single colour looks.
pub struct SingleColorLayerProperties {
    pub fill: String,
    pub fill_opacity: String,
    pub stroke: String,
    pub stroke_opacity: String,
    pub stroke_width: String,
    pub radius: String,
}

impl SingleColorLayerProperties {
    /// The settings of the layer, each defaulting as in `default`.
    pub fn from_config(c: &Vec<(String, Option<String>)>) -> (r: Self)
        ensures
            r.fill@ == setting(c@, "fill"@, "blue"@),
            r.fill_opacity@ == setting(c@, "fill-opacity"@, "0.8"@),
            r.stroke@ == setting(c@, "stroke"@, "black"@),
            r.stroke_opacity@ == setting(c@, "stroke-opacity"@, "1"@),
            r.stroke_width@ == setting(c@, "stroke-width"@, "0.7"@),
            r.radius@ == setting(c@, "radius"@, "4"@),
    {
        SingleColorLayerProperties {
            fill: string_or_default(c, "fill", "blue"),
            fill_opacity: string_or_default(c, "fill-opacity", "0.8"),
            stroke: string_or_default(c, "stroke", "black"),
            stroke_opacity: string_or_default(c, "stroke-opacity", "1"),
            stroke_width: string_or_default(c, "stroke-width", "0.7"),
            radius: string_or_default(c, "radius", "4"),
        }
    }

    /// Blue fill at opacity 0.8, black stroke of width 0.7 at opacity 1, radius 4.
    pub fn default() -> (r: Self)
        ensures
            r.fill@ == "blue"@,
            r.fill_opacity@ == "0.8"@,
            r.stroke@ == "black"@,
            r.stroke_opacity@ == "1"@,
            r.stroke_width@ == "0.7"@,
            r.radius@ == "4"@,
    {
        SingleColorLayerProperties {
            fill: "blue".to_owned(),
            fill_opacity: "0.8".to_owned(),
            stroke: "black".to_owned(),
            stroke_opacity: "1".to_owned(),
            stroke_width: "0.7".to_owned(),
            radius: "4".to_owned(),
        }
    }
}

/// How a layer coloured by class looks.
pub struct ChoroplethLayerProperties {
    pub type_classification: String,
    pub field_name: String,
    pub palette_name: String,
    pub fill_opacity: String,
    pub stroke: String,
    pub stroke_opacity: String,
    pub stroke_width: String,
    pub radius: String,
}

impl ChoroplethLayerProperties {
    /// The settings of the layer: quantiles of field "aaa" in the "Greens" palette, and
    /// otherwise the single-colour defaults, unless set.
    pub fn from_config(c: &Vec<(String, Option<String>)>) -> (r: Self)
        ensures
            r.type_classification@ == setting(c@, "classification"@, "Quantiles"@),
            r.field_name@ == setting(c@, "field"@, "aaa"@),
            r.palette_name@ == setting(c@, "palette"@, "Greens"@),
            r.fill_opacity@ == setting(c@, "fill-opacity"@, "0.8"@),
            r.stroke@ == setting(c@, "stroke"@, "black"@),
            r.stroke_opacity@ == setting(c@, "stroke-opacity"@, "1"@),
            r.stroke_width@ == setting(c@, "stroke-width"@, "0.7"@),
            r.radius@ == setting(c@, "radius"@, "4"@),
    {
        ChoroplethLayerProperties {
            type_classification: string_or_default(c, "classification", "Quantiles"),
            field_name: string_or_default(c, "field", "aaa"),
            palette_name: string_or_default(c, "palette", "Greens"),
            fill_opacity: string_or_default(c, "fill-opacity", "0.8"),
            stroke: string_or_default(c, "stroke", "black"),
            stroke_opacity: string_or_default(c, "stroke-opacity", "1"),
            stroke_width: string_or_default(c, "stroke-width", "0.7"),
            radius: string_or_default(c, "radius", "4"),
        }
    }
}

} // verus!

use vstd::prelude::*;

use crate::classification::{class_of, indexable, Classif};
use crate::CoreError;

verus! {

/// The names of the colour palettes that colorbrewer knows, spelled exactly.
pub open spec fn palette_named(s: Seq<char>) -> bool {
    ||| s == "YlGn"@ ||| s == "YlGnBu"@ ||| s == "GnBu"@ ||| s == "BuGn"@ ||| s == "PuBuGn"@
    ||| s == "PuBu"@ ||| s == "BuPu"@ ||| s == "RdPu"@ ||| s == "PuRd"@ ||| s == "OrRd"@
    ||| s == "YlOrRd"@ ||| s == "YlOrBr"@ ||| s == "Purples"@ ||| s == "Blues"@
    ||| s == "Greens"@ ||| s == "Oranges"@ ||| s == "Reds"@ ||| s == "Greys"@ ||| s == "PuOr"@
    ||| s == "BrBG"@ ||| s == "PRGn"@ ||| s == "PiYG"@ ||| s == "RdBu"@ ||| s == "RdGy"@
    ||| s == "RdYlBu"@ ||| s == "Spectral"@ ||| s == "RdYlGn"@ ||| s == "Accent"@
    ||| s == "Dark2"@ ||| s == "Paired"@ ||| s == "Pastel1"@ ||| s == "Pastel2"@
    ||| s == "Set1"@ ||| s == "Set2"@ ||| s == "Set3"@
}

/// The largest ramp of the palette named `s`; every palette has ramps from three colours
/// up to it.
pub open spec fn ramp_max(s: Seq<char>) -> int {
    if s == "PuOr"@ || s == "BrBG"@ || s == "PRGn"@ || s == "PiYG"@ || s == "RdBu"@ || s
        == "RdGy"@ || s == "RdYlBu"@ || s == "Spectral"@ || s == "RdYlGn"@ {
        11
    } else if s == "Accent"@ || s == "Dark2"@ || s == "Pastel2"@ || s == "Set2"@ {
        8
    } else if s == "Paired"@ || s == "Set3"@ {
        12
    } else if palette_named(s) {
        9
    } else {
        0
    }
}

/// The colours (red, green, blue) of the ramp of `n` colours of the palette named `name`.
pub uninterp spec fn ramp_colors(name: Seq<char>, n: u32) -> Seq<(u8, u8, u8)>;

/// Relies on `colorbrewer::Palette::from_str`, which accepts exactly the palette names
/// above, and on `colorbrewer::get_color_ramp`, which has a ramp of each size from three
/// to `ramp_max` of a palette, holding that many colours.
#[verifier::external_body]
fn color_ramp(name: &str, nb_value: u32) -> (r: Option<Vec<(u8, u8, u8)>>)
    ensures
        r is Some <==> (palette_named(name@) && 3 <= nb_value <= ramp_max(name@)),
        r matches Some(v) ==> (v@ == ramp_colors(name@, nb_value) && v@.len() == nb_value),
{
    let palette = name.parse::<colorbrewer::Palette>().ok()?;
    colorbrewer::get_color_ramp(palette, nb_value).map(|v| v.iter().map(|c| (c.r, c.g, c.b)).collect())
}

impl Classif {
    /// The colour of each of `values`: the colour of its class in `ramp`. Fails with
    /// `LookupFailure` when a value has no class, or its class has no colour.
    pub fn class_colors(&self, values: &Vec<i64>, ramp: &Vec<(u8, u8, u8)>) -> (r: Result<
        Vec<(u8, u8, u8)>,
        CoreError,
    >)
        requires
            indexable(self.bounds@),
        ensures
            match r {
                Ok(colors) => {
                    &&& colors@.len() == values@.len()
                    &&& forall|k: int|
                        0 <= k < values@.len() ==> (class_of(self.bounds@, #[trigger] values@[k]) matches Some(i)
                            && i < ramp@.len() && colors@[k] == ramp@[i])
                },
                Err(e) => {
                    &&& e == CoreError::LookupFailure
                    &&& exists|k: int|
                        0 <= k < values@.len() && !(class_of(self.bounds@, #[trigger] values@[k]) matches Some(i)
                            && i < ramp@.len())
                },
            },
    {
        let mut out: Vec<(u8, u8, u8)> = Vec::new();
        let mut k: usize = 0;
        while k < values.len()
            invariant
                0 <= k <= values.len(),
                indexable(self.bounds@),
                out@.len() == k,
                forall|t: int|
                    0 <= t < k ==> (class_of(self.bounds@, #[trigger] values@[t]) matches Some(i) && i
                        < ramp@.len() && out@[t] == ramp@[i]),
            decreases values.len() - k,
        {
            match self.get_class_index(values[k]) {
                Some(i) => {
                    if (i as usize) < ramp.len() {
                        out.push(ramp[i as usize]);
                    } else {
                        assert(!(class_of(self.bounds@, values@[k as int]) matches Some(j) && j < ramp@.len()));
                        return Err(CoreError::LookupFailure);
                    }
                },
                None => {
                    assert(!(class_of(self.bounds@, values@[k as int]) matches Some(j) && j < ramp@.len()));
                    return Err(CoreError::LookupFailure);
                },
            }
            k += 1;
        }
        Ok(out)
    }

    /// The colour of each value of the sample in the palette named `palette_name`: the
    /// colour of its class in the ramp of as many colours as there are classes. Fails
    /// with `PaletteUnavailable` when the palette is unknown or has no ramp of that size.
    pub fn palette_colors(&self, palette_name: &str) -> (r: Result<Vec<(u8, u8, u8)>, CoreError>)
        requires
            self.wf(),
        ensures
            r is Ok <==> palette_named(palette_name@) && 3 <= self.bounds@.len() - 1 <= ramp_max(
                palette_name@,
            ),
            r matches Err(e) ==> e == CoreError::PaletteUnavailable,
            r matches Ok(colors) ==> {
                &&& colors@.len() == self.values@.len()
                &&& forall|k: int|
                    0 <= k < colors@.len() ==> #[trigger] colors@[k] == ramp_colors(
                        palette_name@,
                        (self.bounds@.len() - 1) as u32,
                    )[class_of(self.bounds@, self.values@[k])->0]
            },
    {
        if self.bounds.len() - 1 > 12 {
            proof {
                assert(ramp_max(palette_name@) <= 12);
            }
            return Err(CoreError::PaletteUnavailable);
        }
        let nb_class = (self.bounds.len() - 1) as u32;
        let ramp = match color_ramp(palette_name, nb_class) {
            Some(v) => v,
            None => {
                return Err(CoreError::PaletteUnavailable);
            },
        };
        proof {
            assert forall|k: int| 0 <= k < self.values@.len() implies (class_of(self.bounds@, #[trigger] self.values@[k]) matches Some(i)
                && i < ramp@.len()) by {
                crate::classification::lemma_sample_values_classified(self.bounds@, self.values@, k);
            }
        }
        match self.class_colors(&self.values, &ramp) {
            Ok(colors) => Ok(colors),
            Err(_) => {
                proof {
                    let k = choose|k: int| 0 <= k < self.values@.len() && !(class_of(self.bounds@, #[trigger] self.values@[k]) matches Some(i)
                        && i < ramp@.len());
                    assert(class_of(self.bounds@, self.values@[k]) matches Some(i) && i < ramp@.len());
                }
                Err(CoreError::PaletteUnavailable)
            },
        }
    }
}

} // verus!

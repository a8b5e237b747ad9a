//! The theme part of a workbook package: colour scheme and font scheme, as
//! the typed form the XML layer hands over.

use vstd::prelude::*;
use vstd::string::StrSliceExecFns;
use vstd::string::StringExecFns;

verus! {

pub struct ThemePart {
    pub name: String,
    pub theme_elements: CtBaseStyles,
}

pub struct CtBaseStyles {
    pub clr_scheme: CtColorScheme,
    pub font_scheme: CtFontScheme,
}

pub struct CtColorScheme {
    pub name: String,
    pub dk1: EgColorChoice,
    pub lt1: EgColorChoice,
    pub dk2: EgColorChoice,
    pub lt2: EgColorChoice,
    pub accent1: EgColorChoice,
    pub accent2: EgColorChoice,
    pub accent3: EgColorChoice,
    pub accent4: EgColorChoice,
    pub accent5: EgColorChoice,
    pub accent6: EgColorChoice,
    pub hlink: EgColorChoice,
    pub fol_hlink: EgColorChoice,
}

pub enum EgColorChoice {
    SysClr(CtSystemColor),
    SrgbClr(CtSrgbColor),
}

impl EgColorChoice {
    /// The colour's RGB rendering with a full alpha channel: `FF` followed
    /// by the stored value; a system colour with no recorded value renders
    /// empty.
    pub open spec fn spec_color(self) -> Seq<char> {
        match self {
            EgColorChoice::SysClr(sys) => match sys.last_clr {
                Some(rgb) => "FF"@ + rgb@,
                None => Seq::<char>::empty(),
            },
            EgColorChoice::SrgbClr(srgb) => "FF"@ + srgb.val@,
        }
    }

    pub fn get_color(&self) -> (r: String)
        ensures
            r@ == self.spec_color(),
    {
        proof {
            reveal_strlit("FF");
            reveal_strlit("");
        }
        match self {
            EgColorChoice::SysClr(sys) => {
                if let Some(rgb) = &sys.last_clr {
                    let mut a = String::from_str("FF");
                    a.append(rgb.as_str());
                    a
                } else {
                    String::from_str("")
                }
            },
            EgColorChoice::SrgbClr(srgb_color) => {
                let rgb = &srgb_color.val;
                let mut a = String::from_str("FF");
                a.append(rgb.as_str());
                a
            },
        }
    }
}

pub struct CtSystemColor {
    pub val: String,
    pub last_clr: Option<String>,
}

pub struct CtSrgbColor {
    pub val: String,
}

pub struct CtFontScheme {
    pub name: String,
    pub major_font: CtFontCollection,
    pub minor_font: CtFontCollection,
}

pub struct CtFontCollection {
    pub latin: CtTextFont,
    pub ea: CtTextFont,
    pub cs: CtTextFont,
    pub fonts: Vec<CtSupplementalFont>,
}

pub struct CtTextFont {
    pub typeface: String,
    pub panose: Option<String>,
    pub pitch_family: u8,
    pub charset: u8,
}

/// The character set a text font falls back to when the XML names none.
pub fn default_charset() -> (r: u8)
    ensures
        r == 1,
{
    1
}

pub struct CtSupplementalFont {
    pub script: String,
    pub typeface: String,
}

} // verus!

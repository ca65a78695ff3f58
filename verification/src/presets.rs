//! The preset catalogue: categories, and lookup of presets by name and by
//! category. The signal-processing values of each preset live with the
//! engine; the catalogue logic only reads a preset's name and category.

use vstd::prelude::*;
use vstd::string::StringSliceAdditionalSpecFns;

verus! {

/// Groups of presets shown together.
#[derive(Clone, Copy, Debug, PartialEq, Eq, Structural)]
pub enum PresetCategory {
    /// Tracks beats and drums: short, punchy envelopes.
    Percussion,
    /// Follows melody and vocals: smooth, sustained.
    Musical,
    /// Bass-focused: heavy, slow.
    Bass,
    /// Special effects and creative uses.
    Effect,
    /// Starting points.
    Init,
}

/// The label shown for a category.
pub open spec fn category_label(c: PresetCategory) -> Seq<char> {
    match c {
        PresetCategory::Percussion => "DRUMS"@,
        PresetCategory::Musical => "MUSICAL"@,
        PresetCategory::Bass => "BASS"@,
        PresetCategory::Effect => "FX"@,
        PresetCategory::Init => "INIT"@,
    }
}

/// Every category in display order.
pub open spec fn category_order() -> Seq<PresetCategory> {
    seq![
        PresetCategory::Init,
        PresetCategory::Percussion,
        PresetCategory::Musical,
        PresetCategory::Bass,
        PresetCategory::Effect,
    ]
}

impl PresetCategory {
    pub fn label(&self) -> (l: &'static str)
        ensures
            l@ == category_label(*self),
    {
        match self {
            PresetCategory::Percussion => "DRUMS",
            PresetCategory::Musical => "MUSICAL",
            PresetCategory::Bass => "BASS",
            PresetCategory::Effect => "FX",
            PresetCategory::Init => "INIT",
        }
    }

    pub fn all() -> (cs: &'static [PresetCategory])
        ensures
            cs@ == category_order(),
    {
        let cs: &'static [PresetCategory] = &[
            PresetCategory::Init,
            PresetCategory::Percussion,
            PresetCategory::Musical,
            PresetCategory::Bass,
            PresetCategory::Effect,
        ];
        assert(cs@ =~= category_order());
        cs
    }
}

/// `all` lists every category exactly once.
pub proof fn law_all_lists_every_category_once(c: PresetCategory)
    ensures
        category_order().contains(c),
        forall|i: int, j: int|
            0 <= i < j < category_order().len() ==> category_order()[i] != category_order()[j],
{
    match c {
        PresetCategory::Init => assert(category_order()[0] == c),
        PresetCategory::Percussion => assert(category_order()[1] == c),
        PresetCategory::Musical => assert(category_order()[2] == c),
        PresetCategory::Bass => assert(category_order()[3] == c),
        PresetCategory::Effect => assert(category_order()[4] == c),
    }
}

/// What the catalogue logic reads of a preset.
#[derive(Clone, Copy, Debug)]
pub struct PresetEntry {
    pub name: &'static str,
    pub category: PresetCategory,
}

/// ASCII lowercase of one byte; other bytes are unchanged.
pub open spec fn ascii_lower(b: u8) -> u8 {
    if 65 <= b <= 90 {
        (b + 32) as u8
    } else {
        b
    }
}

/// A byte string with its ASCII letters lowercased.
pub open spec fn ascii_folded(bytes: Seq<u8>) -> Seq<u8> {
    bytes.map_values(|b: u8| ascii_lower(b))
}

/// Whether two strings are equal up to ASCII case.
pub open spec fn equal_ignoring_ascii_case(a: &str, b: &str) -> bool {
    ascii_folded(a.spec_bytes()) == ascii_folded(b.spec_bytes())
}

fn lower_byte(b: u8) -> (l: u8)
    ensures
        l == ascii_lower(b),
{
    if 65 <= b && b <= 90 {
        b + 32
    } else {
        b
    }
}

/// ASCII case-insensitive string comparison.
pub fn eq_ignore_ascii_case(a: &str, b: &str) -> (same: bool)
    ensures
        same == equal_ignoring_ascii_case(a, b),
{
    let x = a.as_bytes();
    let y = b.as_bytes();
    if x.len() != y.len() {
        proof {
            assert(ascii_folded(a.spec_bytes()).len() != ascii_folded(b.spec_bytes()).len());
        }
        return false;
    }
    let n = x.len();
    let mut i: usize = 0;
    while i < n
        invariant
            n == x@.len(),
            n == y@.len(),
            x@ == a.spec_bytes(),
            y@ == b.spec_bytes(),
            i <= n,
            forall|k: int| 0 <= k < i ==> ascii_lower(#[trigger] x@[k]) == ascii_lower(y@[k]),
        decreases n - i,
    {
        if lower_byte(x[i]) != lower_byte(y[i]) {
            proof {
                assert(ascii_folded(a.spec_bytes())[i as int] != ascii_folded(b.spec_bytes())[i as int]);
            }
            return false;
        }
        i = i + 1;
    }
    proof {
        assert(ascii_folded(a.spec_bytes()) =~= ascii_folded(b.spec_bytes()));
    }
    true
}

/// Position of the first preset whose name matches `name` up to ASCII case.
pub fn position_of_preset(catalog: &[PresetEntry], name: &str) -> (found: Option<usize>)
    ensures
        match found {
            Some(i) => {
                &&& i < catalog@.len()
                &&& equal_ignoring_ascii_case(catalog@[i as int].name, name)
                &&& forall|j: int|
                    0 <= j < i ==> !equal_ignoring_ascii_case(#[trigger] catalog@[j].name, name)
            },
            None => forall|j: int|
                0 <= j < catalog@.len() ==> !equal_ignoring_ascii_case(#[trigger] catalog@[j].name, name),
        },
{
    let mut i: usize = 0;
    while i < catalog.len()
        invariant
            i <= catalog@.len(),
            forall|j: int| 0 <= j < i ==> !equal_ignoring_ascii_case(#[trigger] catalog@[j].name, name),
        decreases catalog@.len() - i,
    {
        if eq_ignore_ascii_case(catalog[i].name, name) {
            return Some(i);
        }
        i = i + 1;
    }
    None
}

/// Two bytes fold to the same byte exactly when they are equal, or one is
/// an ASCII upper-case letter (`A` to `Z`) and the other is its lower-case
/// letter, which lies 32 above it.
pub proof fn law_folding_pairs_each_letter_with_its_lower_case(x: u8, y: u8)
    ensures
        ascii_lower(x) == ascii_lower(y) <==> (x == y || (65 <= x <= 90 && y == x + 32) || (65 <= y
            <= 90 && x == y + 32)),
{
}

/// Two strings are equal up to ASCII case exactly when they have the same
/// length and, byte by byte, are equal or an ASCII upper-case letter faces
/// its lower-case letter.
pub proof fn law_equal_ignoring_case_bytewise(a: &str, b: &str)
    ensures
        equal_ignoring_ascii_case(a, b) <==> {
            let x = a.spec_bytes();
            let y = b.spec_bytes();
            &&& x.len() == y.len()
            &&& forall|i: int|
                0 <= i < x.len() ==> (#[trigger] x[i] == y[i] || (65 <= x[i] <= 90 && y[i] == x[i]
                    + 32) || (65 <= y[i] <= 90 && x[i] == y[i] + 32))
        },
{
    let x = a.spec_bytes();
    let y = b.spec_bytes();
    let fx = ascii_folded(x);
    let fy = ascii_folded(y);
    if fx == fy {
        assert forall|i: int| 0 <= i < x.len() implies (#[trigger] x[i] == y[i] || (65 <= x[i] <= 90
            && y[i] == x[i] + 32) || (65 <= y[i] <= 90 && x[i] == y[i] + 32)) by {
            assert(fx[i] == fy[i]);
            law_folding_pairs_each_letter_with_its_lower_case(x[i], y[i]);
        }
    }
    if x.len() == y.len() && forall|i: int|
        0 <= i < x.len() ==> (#[trigger] x[i] == y[i] || (65 <= x[i] <= 90 && y[i] == x[i] + 32) || (
        65 <= y[i] <= 90 && x[i] == y[i] + 32)) {
        assert forall|i: int| 0 <= i < fx.len() implies fx[i] == fy[i] by {
            law_folding_pairs_each_letter_with_its_lower_case(x[i], y[i]);
        }
        assert(fx =~= fy);
    }
}

/// Lookup by name does not depend on the ASCII case of the name asked for.
pub proof fn law_lookup_ignores_ascii_case(entry: PresetEntry, a: &str, b: &str)
    requires
        ascii_folded(a.spec_bytes()) == ascii_folded(b.spec_bytes()),
    ensures
        equal_ignoring_ascii_case(entry.name, a) == equal_ignoring_ascii_case(entry.name, b),
{
}

/// Positions, in catalogue order, of the presets in `category`.
pub fn positions_in_category(catalog: &[PresetEntry], category: PresetCategory) -> (found: Vec<usize>)
    ensures
        forall|k: int, l: int| 0 <= k < l < found@.len() ==> found@[k] < found@[l],
        forall|k: int|
            0 <= k < found@.len() ==> (#[trigger] found@[k] as int) < catalog@.len()
                && catalog@[found@[k] as int].category == category,
        forall|j: int|
            0 <= j < catalog@.len() && (#[trigger] catalog@[j]).category == category ==> found@.contains(
                j as usize,
            ),
{
    let mut found: Vec<usize> = Vec::new();
    let mut i: usize = 0;
    while i < catalog.len()
        invariant
            i <= catalog@.len(),
            forall|k: int, l: int| 0 <= k < l < found@.len() ==> found@[k] < found@[l],
            forall|k: int| 0 <= k < found@.len() ==> (#[trigger] found@[k]) < i,
            forall|k: int|
                0 <= k < found@.len() ==> (#[trigger] found@[k] as int) < catalog@.len()
                    && catalog@[found@[k] as int].category == category,
            forall|j: int|
                0 <= j < i && (#[trigger] catalog@[j]).category == category ==> found@.contains(
                    j as usize,
                ),
        decreases catalog@.len() - i,
    {
        if catalog[i].category == category {
            let ghost before = found@;
            found.push(i);
            proof {
                assert(found@[found@.len() - 1] == i);
                assert forall|j: int|
                    0 <= j < i + 1 && (#[trigger] catalog@[j]).category == category implies found@.contains(
                    j as usize,
                ) by {
                    if j < i {
                        let k = choose|k: int| 0 <= k < before.len() && before[k] == j as usize;
                        assert(found@[k] == j as usize);
                    }
                }
            }
        }
        i = i + 1;
    }
    found
}

} // verus!

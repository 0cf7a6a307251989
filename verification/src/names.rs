//! The names of the facets and of their values.
use vstd::prelude::*;

verus! {

/// Number of entries in the table of value names.
pub const NUM_VALUE_NAMES: usize = 126;

/// The name of each facet, by its index.
pub const FACET_NAMES: [&'static str; 22] = [
    "cap-shape",
    "cap-surface",
    "cap-color",
    "bruises?",
    "odor",
    "gill-attachment",
    "gill-spacing",
    "gill-size",
    "gill-color",
    "stalk-shape",
    "stalk-root",
    "stalk-surface-above-ring",
    "stalk-surface-below-ring",
    "stalk-color-above-ring",
    "stalk-color-below-ring",
    "veil-type",
    "veil-color",
    "ring-number",
    "ring-type",
    "spore-print-color",
    "population",
    "habitat",
];

/// The name of each value: the facet, the code that stands for the value in a
/// record, and the name.
pub const VALUE_NAMES: [(usize, char, &'static str); NUM_VALUE_NAMES] = [
    (0, 'b', "bell"),
    (0, 'c', "conical"),
    (0, 'x', "convex"),
    (0, 'f', "flat"),
    (0, 'k', "knobbed"),
    (0, 's', "sunken"),
    (1, 'f', "fibrous"),
    (1, 'g', "grooves"),
    (1, 'y', "scaly"),
    (1, 's', "smooth"),
    (2, 'n', "brown"),
    (2, 'b', "buff"),
    (2, 'c', "cinnamon"),
    (2, 'g', "gray"),
    (2, 'r', "green"),
    (2, 'p', "pink"),
    (2, 'u', "purple"),
    (2, 'e', "red"),
    (2, 'w', "white"),
    (2, 'y', "yellow"),
    (3, 't', "bruises"),
    (3, 'f', "no"),
    (4, 'a', "almond"),
    (4, 'l', "anise"),
    (4, 'c', "creosote"),
    (4, 'y', "fishy"),
    (4, 'f', "foul"),
    (4, 'm', "musty"),
    (4, 'n', "none"),
    (4, 'p', "pungent"),
    (4, 's', "spicy"),
    (5, 'a', "attached"),
    (5, 'd', "descending"),
    (5, 'f', "free"),
    (5, 'n', "notched"),
    (6, 'c', "close"),
    (6, 'w', "crowded"),
    (6, 'd', "distant"),
    (7, 'b', "broad"),
    (7, 'n', "narrow"),
    (8, 'k', "black"),
    (8, 'n', "brown"),
    (8, 'b', "buff"),
    (8, 'h', "chocolate"),
    (8, 'g', "gray"),
    (8, 'r', "green"),
    (8, 'o', "orange"),
    (8, 'p', "pink"),
    (8, 'u', "purple"),
    (8, 'e', "red"),
    (8, 'w', "white"),
    (8, 'y', "yellow"),
    (9, 'e', "enlarging"),
    (9, 't', "tapering"),
    (10, 'b', "bulbous"),
    (10, 'c', "club"),
    (10, 'u', "cup"),
    (10, 'e', "equal"),
    (10, 'z', "rhizomorphs"),
    (10, 'r', "rooted"),
    (10, '?', "missing"),
    (11, 'f', "fibrous"),
    (11, 'y', "scaly"),
    (11, 'k', "silky"),
    (11, 's', "smooth"),
    (12, 'f', "fibrous"),
    (12, 'y', "scaly"),
    (12, 'k', "silky"),
    (12, 's', "smooth"),
    (13, 'n', "brown"),
    (13, 'b', "buff"),
    (13, 'c', "cinnamon"),
    (13, 'g', "gray"),
    (13, 'o', "orange"),
    (13, 'p', "pink"),
    (13, 'e', "red"),
    (13, 'w', "white"),
    (13, 'y', "yellow"),
    (14, 'n', "brown"),
    (14, 'b', "buff"),
    (14, 'c', "cinnamon"),
    (14, 'g', "gray"),
    (14, 'o', "orange"),
    (14, 'p', "pink"),
    (14, 'e', "red"),
    (14, 'w', "white"),
    (14, 'y', "yellow"),
    (15, 'p', "partial"),
    (15, 'u', "universal"),
    (16, 'n', "brown"),
    (16, 'o', "orange"),
    (16, 'w', "white"),
    (16, 'y', "yellow"),
    (17, 'n', "none"),
    (17, 'o', "one"),
    (17, 't', "two"),
    (18, 'c', "cobwebby"),
    (18, 'e', "evanescent"),
    (18, 'f', "flaring"),
    (18, 'l', "large"),
    (18, 'n', "none"),
    (18, 'p', "pendant"),
    (18, 's', "sheathing"),
    (18, 'z', "zone"),
    (19, 'k', "black"),
    (19, 'n', "brown"),
    (19, 'b', "buff"),
    (19, 'h', "chocolate"),
    (19, 'r', "green"),
    (19, 'o', "orange"),
    (19, 'u', "purple"),
    (19, 'w', "white"),
    (19, 'y', "yellow"),
    (20, 'a', "abundant"),
    (20, 'c', "clustered"),
    (20, 'n', "numerous"),
    (20, 's', "scattered"),
    (20, 'v', "several"),
    (20, 'y', "solitary"),
    (21, 'g', "grasses"),
    (21, 'l', "leaves"),
    (21, 'm', "meadows"),
    (21, 'p', "paths"),
    (21, 'u', "urban"),
    (21, 'w', "waste"),
    (21, 'd', "woods"),
];

} // verus!

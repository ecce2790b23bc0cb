//! Theme identifiers: which palettes exist and which one a fresh start uses.
use vstd::prelude::*;
use crate::text::same_text;

verus! {

/// How many themes there are.
pub const THEME_COUNT: usize = 9;

/// The identifier of theme `i`.
pub open spec fn spec_theme_id(i: int) -> Seq<char> {
    if i == 0 {
        "terminal"@
    } else if i == 1 {
        "ember"@
    } else if i == 2 {
        "flare"@
    } else if i == 3 {
        "cobalt"@
    } else if i == 4 {
        "orchid"@
    } else if i == 5 {
        "wire"@
    } else if i == 6 {
        "void"@
    } else if i == 7 {
        "paper"@
    } else {
        "blueprint"@
    }
}

/// The position of the first theme with this identifier.
pub open spec fn spec_theme_index(id: Seq<char>) -> Option<int> {
    if exists|i: int| 0 <= i < THEME_COUNT && spec_theme_id(i) == id {
        Some(choose|i: int| 0 <= i < THEME_COUNT && spec_theme_id(i) == id && forall|j: int| 0 <= j < i ==> spec_theme_id(j) != id)
    } else {
        None
    }
}

/// The identifier of theme `i`.
pub fn theme_id(i: usize) -> (id: &'static str)
    requires
        i < THEME_COUNT,
    ensures
        id@ == spec_theme_id(i as int),
{
    if i == 0 {
        "terminal"
    } else if i == 1 {
        "ember"
    } else if i == 2 {
        "flare"
    } else if i == 3 {
        "cobalt"
    } else if i == 4 {
        "orchid"
    } else if i == 5 {
        "wire"
    } else if i == 6 {
        "void"
    } else if i == 7 {
        "paper"
    } else {
        "blueprint"
    }
}

/// The position of the theme with this identifier, if any.
pub fn theme_index(id: &str) -> (r: Option<usize>)
    ensures
        r matches Some(i) ==> spec_theme_index(id@) == Some(i as int) && i < THEME_COUNT,
        r is None ==> spec_theme_index(id@) is None,
{
    let mut i: usize = 0;
    while i < THEME_COUNT
        invariant
            i <= THEME_COUNT,
            forall|j: int| 0 <= j < i ==> spec_theme_id(j) != id@,
        decreases THEME_COUNT - i,
    {
        if same_text(theme_id(i), id) {
            proof {
                let w = choose|w: int| 0 <= w < THEME_COUNT && spec_theme_id(w) == id@ && forall|j: int| 0 <= j < w ==> spec_theme_id(j) != id@;
                assert(0 <= i < THEME_COUNT && spec_theme_id(i as int) == id@);
                if w < i {
                    assert(spec_theme_id(w) != id@);
                } else if w > i {
                    assert(spec_theme_id(i as int) != id@);
                }
            }
            return Some(i);
        }
        i += 1;
    }
    None
}

proof fn lemma_default_ids()
    ensures
        spec_theme_index("paper"@) == Some(7int),
        spec_theme_index("terminal"@) == Some(0int),
{
    reveal_strlit("terminal");
    reveal_strlit("ember");
    reveal_strlit("flare");
    reveal_strlit("cobalt");
    reveal_strlit("orchid");
    reveal_strlit("wire");
    reveal_strlit("void");
    reveal_strlit("paper");
    reveal_strlit("blueprint");
    assert(spec_theme_id(7) == "paper"@);
    assert(spec_theme_id(0) == "terminal"@);
    assert forall|j: int| 0 <= j < 7 implies spec_theme_id(j) != "paper"@ by {
        if j == 0 {
            assert(spec_theme_id(j)[0] != "paper"@[0]);
        } else if j == 1 {
            assert(spec_theme_id(j)[0] != "paper"@[0]);
        } else if j == 2 {
            assert(spec_theme_id(j)[0] != "paper"@[0]);
        } else if j == 3 {
            assert(spec_theme_id(j)[0] != "paper"@[0]);
        } else if j == 4 {
            assert(spec_theme_id(j)[0] != "paper"@[0]);
        } else if j == 5 {
            assert(spec_theme_id(j)[0] != "paper"@[0]);
        } else {
            assert(spec_theme_id(j)[0] != "paper"@[0]);
        }
    }
    let w = choose|w: int| 0 <= w < THEME_COUNT && spec_theme_id(w) == "paper"@ && forall|j: int| 0 <= j < w ==> spec_theme_id(j) != "paper"@;
    assert(0 <= 7 < THEME_COUNT && spec_theme_id(7) == "paper"@ && forall|j: int| 0 <= j < 7 ==> spec_theme_id(j) != "paper"@);
    if w < 7 {
        assert(spec_theme_id(w) != "paper"@);
    } else if w > 7 {
        assert(spec_theme_id(7) != "paper"@);
    }
    let v = choose|w: int| 0 <= w < THEME_COUNT && spec_theme_id(w) == "terminal"@ && forall|j: int| 0 <= j < w ==> spec_theme_id(j) != "terminal"@;
    assert(0 <= 0 < THEME_COUNT && spec_theme_id(0) == "terminal"@);
    if v > 0 {
        assert(spec_theme_id(0) != "terminal"@);
    }
}

/// The theme a fresh start uses: `paper` on a light system, else
/// `terminal` (the first theme when one is missing).
pub fn default_theme(light: bool) -> (r: usize)
    ensures
        r == match spec_theme_index(if light { "paper"@ } else { "terminal"@ }) {
            Some(i) => i as usize,
            None => 0,
        },
        r == if light { 7usize } else { 0usize },
        r < THEME_COUNT,
{
    proof {
        lemma_default_ids();
    }
    match theme_index(if light { "paper" } else { "terminal" }) {
        Some(i) => i,
        None => 0,
    }
}

/// What the theme panel reports for one frame.
#[derive(Default)]
pub struct PanelEvents {
    /// The theme picked, if any.
    pub theme: Option<usize>,
    /// Whether speed or density moved.
    pub prefs_changed: bool,
    /// Whether the panel was closed.
    pub close: bool,
}

} // verus!

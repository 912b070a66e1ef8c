//! What the command line and the environment ask of the start of a run.

use vstd::prelude::*;
use vstd::string::*;

verus! {

/// The first of three values that is there.
pub open spec fn first_given(a: Option<String>, b: Option<String>, c: Option<String>) -> Option<String> {
    if a is Some {
        a
    } else if b is Some {
        b
    } else {
        c
    }
}

/// Whether this process prints the banner: it is the first one, or it runs
/// alone. The three values are what the launchers that are looked for, in order,
/// say of its rank.
pub fn prints_banner(ompi: &Option<String>, pmi: &Option<String>, pmix: &Option<String>) -> (r: bool)
    ensures
        r == (match first_given(*ompi, *pmi, *pmix) {
            Some(rank) => rank@ == "0"@,
            None => true,
        }),
{
    let rank: &Option<String> = if ompi.is_some() {
        ompi
    } else if pmi.is_some() {
        pmi
    } else {
        pmix
    };
    match rank {
        Some(text) => *text == "0".to_owned(),
        None => true,
    }
}

/// Whether the command line asks for the schedule.
pub fn wants_schedule(args: &Vec<String>) -> (r: bool)
    ensures
        r == exists|k: int| 0 <= k < args@.len() && (#[trigger] args@[k])@ == "--schedule"@,
{
    let flag: String = "--schedule".to_owned();
    let mut k: usize = 0;
    while k < args.len()
        invariant
            k <= args@.len(),
            flag@ == "--schedule"@,
            forall|j: int| 0 <= j < k ==> (#[trigger] args@[j])@ != flag@,
        decreases args.len() - k,
    {
        if args[k] == flag {
            return true;
        }
        k = k + 1;
    }
    false
}

/// The lines of the banner.
pub fn banner() -> (r: Vec<String>)
    ensures
        crate::text::texts(r@) == seq![
            ""@,
            "   o-o  o-o  o  o   "@,
            "  |     | |  |  |   "@,
            "   o-o  | |  |  |   "@,
            "      | | |  |  |   "@,
            "   o-o  o-o  o  o-o "@,
            "  Substrate for Off-lattice Interacting Lagrangians"@,
            ""@,
        ],
{
    let mut lines: Vec<String> = Vec::new();
    lines.push("".to_owned());
    lines.push("   o-o  o-o  o  o   ".to_owned());
    lines.push("  |     | |  |  |   ".to_owned());
    lines.push("   o-o  | |  |  |   ".to_owned());
    lines.push("      | | |  |  |   ".to_owned());
    lines.push("   o-o  o-o  o  o-o ".to_owned());
    lines.push("  Substrate for Off-lattice Interacting Lagrangians".to_owned());
    lines.push("".to_owned());
    assert(crate::text::texts(lines@) =~= seq![
        ""@,
        "   o-o  o-o  o  o   "@,
        "  |     | |  |  |   "@,
        "   o-o  | |  |  |   "@,
        "      | | |  |  |   "@,
        "   o-o  o-o  o  o-o "@,
        "  Substrate for Off-lattice Interacting Lagrangians"@,
        ""@,
    ]);
    lines
}

} // verus!

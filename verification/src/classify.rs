//! The well-known locations whose size is measured, and what they are.
use vstd::prelude::*;
use crate::model::{Confidence, Reclaimability};
use crate::path::{join_relative, join_relative_exec};
use crate::text::{chars_of, str_is, string_of};

verus! {

/// A location to measure, and the category its size is reported under.
pub struct Rule {
    pub path: String,
    pub category: &'static str,
    pub name: &'static str,
    pub reclaimability: Reclaimability,
    pub confidence: Confidence,
}

/// The known locations in the order they are reported: a name and a path
/// relative to the home directory.
pub open spec fn known_locations() -> Seq<(Seq<char>, Seq<char>)> {
    seq![
        ("Downloads"@, "Downloads"@),
        ("Documents"@, "Documents"@),
        ("Photos"@, "Pictures"@),
        ("Rust"@, ".cargo"@),
        ("Gradle"@, ".gradle"@),
        ("npm"@, ".npm"@),
        ("Android"@, "Android/Sdk"@),
        ("Nix"@, ".nix-profile"@),
        ("Homebrew"@, ".linuxbrew"@),
    ]
}

/// The locations that hold the user's own files.
pub open spec fn is_personal(name: Seq<char>) -> bool {
    name == "Downloads"@ || name == "Documents"@ || name == "Photos"@
}

/// `rule` measures the location `name` at `rel` below `home`: personal
/// files are user owned, everything else is a developer cache.
pub open spec fn is_rule_for(rule: Rule, home: Seq<char>, name: Seq<char>, rel: Seq<char>) -> bool {
    &&& rule.name@ == name
    &&& rule.path@ == join_relative(home, rel)
    &&& rule.category@ == if is_personal(name) { "Personal"@ } else { "Developer"@ }
    &&& rule.reclaimability == if is_personal(name) { Reclaimability::UserOwned } else { Reclaimability::Cache }
    &&& rule.confidence == Confidence::High
}

fn rule(home: &[char], name: &'static str, rel: &str) -> (r: Rule)
    ensures
        is_rule_for(r, home@, name@, rel@),
{
    let personal = str_is(name, "Downloads") || str_is(name, "Documents") || str_is(name, "Photos");
    let rel_chars = chars_of(rel);
    let path = join_relative_exec(home, &rel_chars);
    Rule {
        path: string_of(&path),
        category: if personal { "Personal" } else { "Developer" },
        name: name,
        reclaimability: if personal { Reclaimability::UserOwned } else { Reclaimability::Cache },
        confidence: Confidence::High,
    }
}

/// The rules for the known locations below the home directory `home`.
pub fn known_rules(home: &str) -> (r: Vec<Rule>)
    ensures
        r@.len() == known_locations().len(),
        forall|i: int| 0 <= i < r@.len() ==> is_rule_for(
            #[trigger] r@[i],
            home@,
            known_locations()[i].0,
            known_locations()[i].1,
        ),
        forall|i: int| 0 <= i < r@.len() ==> {
            let name = (#[trigger] r@[i]).name@;
            let own = name == "Downloads"@ || name == "Documents"@ || name == "Photos"@;
            &&& (r@[i].category@ == "Personal"@ <==> own)
            &&& (r@[i].reclaimability == Reclaimability::UserOwned <==> own)
            &&& (!own ==> r@[i].category@ == "Developer"@ && r@[i].reclaimability == Reclaimability::Cache)
        },
{
    proof {
        reveal_strlit("Personal");
        reveal_strlit("Developer");
        assert("Personal"@[0] != "Developer"@[0]);
    }
    let h = chars_of(home);
    let mut r: Vec<Rule> = Vec::new();
    r.push(rule(&h, "Downloads", "Downloads"));
    r.push(rule(&h, "Documents", "Documents"));
    r.push(rule(&h, "Photos", "Pictures"));
    r.push(rule(&h, "Rust", ".cargo"));
    r.push(rule(&h, "Gradle", ".gradle"));
    r.push(rule(&h, "npm", ".npm"));
    r.push(rule(&h, "Android", "Android/Sdk"));
    r.push(rule(&h, "Nix", ".nix-profile"));
    r.push(rule(&h, "Homebrew", ".linuxbrew"));
    r
}

} // verus!

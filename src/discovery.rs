//! Rules that corpus discovery applies to file names.
use vstd::prelude::*;

verus! {

/// Which corpora discovery admits.
#[derive(Debug, Clone)]
pub struct DiscoveryConfig {
    /// Admit offensive and inoffensive corpora alike.
    pub allow_any: bool,
    /// Admit offensive corpora only; this wins over `allow_any`.
    pub offensive_only: bool,
}

impl Default for DiscoveryConfig {
    /// Inoffensive corpora only.
    fn default() -> (r: DiscoveryConfig)
        ensures
            !r.allow_any && !r.offensive_only,
    {
        DiscoveryConfig { allow_any: false, offensive_only: false }
    }
}

/// Whether a file name marks an offensive corpus: it ends with `-o`.
pub open spec fn offensive_name(name: Seq<char>) -> bool {
    name.len() >= 2 && name[name.len() - 2] == '-' && name[name.len() - 1] == 'o'
}

/// Whether a file name marks an offensive corpus: it ends with `-o`.
pub fn is_offensive(file_name: &str) -> (r: bool)
    ensures
        r == offensive_name(file_name@),
{
    let n = file_name.unicode_len();
    n >= 2 && file_name.get_char(n - 2) == '-' && file_name.get_char(n - 1) == 'o'
}

/// The name of the offensive counterpart of a corpus, or of the inoffensive one for an
/// offensive corpus: `-o` appended, or taken off.
pub fn offensive_alternate(file_name: &str) -> (r: String)
    ensures
        offensive_name(file_name@) ==> r@ == file_name@.subrange(0, file_name@.len() - 2),
        !offensive_name(file_name@) ==> r@ == file_name@ + "-o"@,
{
    if is_offensive(file_name) {
        let n = file_name.unicode_len();
        String::from_str(file_name.substring_char(0, n - 2))
    } else {
        let mut out = String::from_str(file_name);
        out.append("-o");
        out
    }
}

impl DiscoveryConfig {
    /// Whether discovery keeps a corpus with this file name: only offensive ones when
    /// `offensive_only` is set, any with `allow_any`, else only inoffensive ones.
    pub fn admits(&self, file_name: &str) -> (r: bool)
        ensures
            r == if self.offensive_only {
                offensive_name(file_name@)
            } else if self.allow_any {
                true
            } else {
                !offensive_name(file_name@)
            },
    {
        let offensive = is_offensive(file_name);
        if self.offensive_only {
            offensive
        } else if self.allow_any {
            true
        } else {
            !offensive
        }
    }
}

} // verus!

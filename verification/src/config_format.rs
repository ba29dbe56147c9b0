//! Choosing the parser for a configuration file by its extension.
use vstd::prelude::*;

verus! {

/// Whether `s` has exactly the characters of `lit`.
fn same_text(s: &str, lit: &str) -> (res: bool)
    ensures
        res == (s@ == lit@),
{
    let n = s.unicode_len();
    if n != lit.unicode_len() {
        return false;
    }
    let mut i: usize = 0;
    while i < n
        invariant
            n == s@.len(),
            n == lit@.len(),
            i <= n,
            forall|k: int| 0 <= k < i ==> s@[k] == lit@[k],
        decreases n - i,
    {
        if s.get_char(i) != lit.get_char(i) {
            return false;
        }
        i = i + 1;
    }
    assert(s@ =~= lit@);
    true
}

/// Whether a file with this extension holds YAML (`yml` or `yaml`); any other
/// extension is read as JSON.
pub fn is_yaml_extension(ext: &str) -> (res: bool)
    ensures
        res == (ext@ == "yml"@ || ext@ == "yaml"@),
{
    same_text(ext, "yml") || same_text(ext, "yaml")
}

} // verus!

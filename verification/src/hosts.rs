//! Recognising a hosts file that the blocker has installed.

use crate::text::{contains_str, has_substring, occurs_at};
use vstd::prelude::*;

verus! {

/// The comment that marks the hosts list shipped with the blocker.
pub open spec fn install_marker() -> Seq<char> {
    seq!['#', ' ', '#', ' ', 'B', 'e', 'b', 'a', 's', 'i', 'n']
}

/// Whether the hosts file with this content holds the blocker's hosts list,
/// that is, its marker comment.
pub fn is_installed(hosts_content: &str) -> (r: bool)
    ensures
        r == has_substring(hosts_content@, install_marker()),
        r == has_substring(hosts_content@, "# # Bebasin"@),
{
    let marker = "# # Bebasin";
    proof {
        reveal_strlit("# # Bebasin");
        assert(marker@ =~= install_marker());
    }
    contains_str(hosts_content, marker)
}

/// The marker is the eleven characters `# # Bebasin`. A hosts file holds the
/// blocker's list exactly when this text occurs in it anywhere, at its very
/// start too, and adding text before or after the marker keeps it there.
pub proof fn lemma_install_marker(before: Seq<char>, after: Seq<char>)
    ensures
        install_marker() == "# # Bebasin"@,
        install_marker().len() == 11,
        has_substring("# # Bebasin"@ + after, install_marker()),
        has_substring(before + "# # Bebasin"@ + after, install_marker()),
{
    reveal_strlit("# # Bebasin");
    let lit = "# # Bebasin"@;
    assert(install_marker() =~= lit);
    let s1 = lit + after;
    assert(s1.subrange(0, 11) =~= lit);
    assert(occurs_at(s1, install_marker(), 0));
    let s2 = before + lit + after;
    assert(s2.subrange(before.len() as int, before.len() + 11int) =~= lit);
    assert(occurs_at(s2, install_marker(), before.len() as int));
}

} // verus!

//! Rewriting of upstream repository addresses to the internal mirror.

use vstd::prelude::*;
use crate::text::{
    append_chars, chars_of, contains, contains_seq, free_of, lemma_free_of, lemma_split_pieces,
    occurs_at, split, split_on, string_of, views,
};

verus! {

/// The mark of an upstream address that the mirror carries.
pub open spec fn upstream_marker() -> Seq<char> {
    "github.com/pulp-platform"@
}

/// What every mirror address begins with.
pub open spec fn mirror_prefix() -> Seq<char> {
    "git@code.ihep.ac.cn:heris/heris-platform/"@
}

/// The repository name of an address: what follows its last `/`, or all of
/// it where it has none.
pub open spec fn repository_name(url: Seq<char>) -> Seq<char> {
    split_on(url, '/').last()
}

/// The address that `url` is rewritten to: the mirror's address of the same
/// repository where `url` carries the upstream mark, `url` itself otherwise.
pub open spec fn rewritten(url: Seq<char>) -> Seq<char> {
    if contains_seq(url, upstream_marker()) {
        mirror_prefix() + repository_name(url)
    } else {
        url
    }
}

/// Rewrites an upstream address to the internal mirror; any other address
/// comes back as it is.
pub fn convert_url(git_url: &str) -> (converted: String)
    ensures
        converted@ == rewritten(git_url@),
{
    let url = chars_of(git_url);
    let marker = chars_of("github.com/pulp-platform");
    if contains(&url, &marker) {
        let parts = split(&url, '/');
        let mut out = chars_of("git@code.ihep.ac.cn:heris/heris-platform/");
        append_chars(&mut out, &parts[parts.len() - 1]);
        proof {
            assert(views(parts@).last() == parts@[parts.len() - 1]@);
        }
        string_of(&out)
    } else {
        string_of(&url)
    }
}

/// A mirror address never carries the upstream mark.
pub proof fn lemma_mirror_address_unmarked(name: Seq<char>)
    requires
        forall|k: int| 0 <= k < name.len() ==> name[k] != '/',
    ensures
        !contains_seq(mirror_prefix() + name, upstream_marker()),
{
    reveal_strlit("github.com/pulp-platform");
    reveal_strlit("git@code.ihep.ac.cn:heris/heris-platform/");
    let p = mirror_prefix();
    let m = upstream_marker();
    let r = p + name;
    assert(free_of(p, '/', 0, 25)) by {
        reveal_with_fuel(free_of, 26);
    }
    assert(free_of(p, '/', 26, 40)) by {
        reveal_with_fuel(free_of, 15);
    }
    lemma_free_of(p, '/', 0, 25);
    lemma_free_of(p, '/', 26, 40);
    assert forall|i: int| !occurs_at(r, m, i) by {
        if occurs_at(r, m, i) {
            let sub = r.subrange(i, i + m.len());
            assert(sub[10] == r[i + 10]);
            assert(sub[0] == r[i]);
            assert(m[10] == '/');
            assert(m[0] == 'g');
            if i + 10 >= 41 {
                assert(r[i + 10] == name[i + 10 - 41]);
            } else {
                assert(r[i + 10] == p[i + 10]);
                assert(r[i] == p[i]);
                assert(i + 10 == 25 || i + 10 == 40);
            }
        }
    }
}

/// Rewriting is idempotent: an address that was rewritten is rewritten to
/// itself.
pub proof fn lemma_rewrite_idempotent(url: Seq<char>)
    ensures
        rewritten(rewritten(url)) == rewritten(url),
{
    if contains_seq(url, upstream_marker()) {
        lemma_split_pieces(url, '/');
        lemma_mirror_address_unmarked(repository_name(url));
    }
}

} // verus!

//! Link targets: neutralising script-bearing schemes and mapping NomadNet's
//! cross-node link forms onto `nomad://` URLs.

use vstd::prelude::*;
use vstd::string::*;
use crate::text::{
    chars_of, control, find_first, first_index, has_prefix, hex_digit, is_control, is_hex_digit,
    is_white_space, lower_seq, push_char, push_chars, starts_with, to_lower, white_space,
};

verus! {

/// Length of a NomadNet destination hash in hex characters (16 bytes).
pub const DEST_HASH_HEX_LEN: usize = 32;

/// NomadNet's default page, used when a link names a node with no path.
pub const NOMAD_DEFAULT_PAGE_PATH: &'static str = "/page/index.mu";

/// 32 ASCII hex digits: a destination hash.
pub open spec fn dest_hash(s: Seq<char>) -> bool {
    s.len() == DEST_HASH_HEX_LEN && forall|i: int| 0 <= i < s.len() ==> hex_digit(#[trigger] s[i])
}

/// The path part of a `<hash>:<path>` link: the default page when empty, and
/// always starting with `/`.
pub open spec fn node_path(path: Seq<char>) -> Seq<char> {
    if path.len() == 0 {
        NOMAD_DEFAULT_PAGE_PATH@
    } else if path[0] == '/' {
        path
    } else {
        seq!['/'] + path
    }
}

/// Where a link target leads once NomadNet's link forms are mapped:
/// `nomadnetwork://X` becomes `nomad://X`; `<hash>:<path>` becomes
/// `nomad://<hash><path>`; `:<path>` (this node) becomes `<path>`; a bare
/// `<hash>` becomes `nomad://<hash>/page/index.mu`; anything else is kept.
pub open spec fn rewritten(url: Seq<char>) -> Seq<char> {
    if has_prefix(url, "nomadnetwork://"@) {
        "nomad://"@ + url.skip("nomadnetwork://"@.len() as int)
    } else {
        match find_first(url, ':') {
            Some(k) => {
                let first = url.take(k);
                let path = url.skip(k + 1);
                if dest_hash(first) {
                    "nomad://"@ + first + node_path(path)
                } else if first.len() == 0 && path.len() > 0 && find_first(path, ':') is None {
                    path
                } else {
                    url
                }
            },
            None => if dest_hash(url) {
                "nomad://"@ + url + NOMAD_DEFAULT_PAGE_PATH@
            } else {
                url
            },
        }
    }
}

fn is_dest_hash(s: &[char]) -> (b: bool)
    ensures
        b == dest_hash(s@),
{
    if s.len() != DEST_HASH_HEX_LEN {
        return false;
    }
    let mut i: usize = 0;
    while i < s.len()
        invariant
            i <= s@.len(),
            forall|j: int| 0 <= j < i ==> hex_digit(#[trigger] s@[j]),
        decreases s@.len() - i,
    {
        if !is_hex_digit(s[i]) {
            return false;
        }
        i += 1;
    }
    true
}

/// Maps NomadNet's cross-node link forms onto the `nomad://` scheme the
/// webview can navigate; links within the current node are left relative.
pub fn rewrite_cross_node_url(url: &[char]) -> (r: String)
    ensures
        r@ == rewritten(url@),
{
    let scheme = chars_of("nomadnetwork://");
    if starts_with(url, scheme.as_slice()) {
        let mut out = String::from_str("nomad://");
        push_chars(&mut out, &url[scheme.len()..url.len()]);
        return out;
    }
    match first_index(url, ':') {
        Some(k) => {
            let n = url.len();
            assert(k < n);
            let first = &url[0..k];
            let path = &url[k + 1..url.len()];
            assert(first@ == url@.take(k as int));
            assert(path@ == url@.skip(k + 1));
            if is_dest_hash(first) {
                let mut out = String::from_str("nomad://");
                push_chars(&mut out, first);
                if path.len() == 0 {
                    out.append(NOMAD_DEFAULT_PAGE_PATH);
                } else if path[0] == '/' {
                    push_chars(&mut out, path);
                } else {
                    push_char(&mut out, '/');
                    push_chars(&mut out, path);
                    assert(out@ =~= "nomad://"@ + first@ + (seq!['/'] + path@));
                }
                out
            } else if first.len() == 0 && path.len() > 0 && first_index(path, ':').is_none() {
                let mut out = String::new();
                push_chars(&mut out, path);
                out
            } else {
                let mut out = String::new();
                push_chars(&mut out, url);
                out
            }
        },
        None => {
            let mut out = String::new();
            if is_dest_hash(url) {
                out.append("nomad://");
                push_chars(&mut out, url);
                out.append(NOMAD_DEFAULT_PAGE_PATH);
            } else {
                push_chars(&mut out, url);
            }
            out
        },
    }
}

/// Characters that a browser ignores when it resolves a URL's scheme.
pub open spec fn ignorable(c: char) -> bool {
    white_space(c) || control(c)
}

/// The characters of `s` that are not ignorable, in order.
pub open spec fn visible(s: Seq<char>) -> Seq<char>
    decreases s.len(),
{
    if s.len() == 0 {
        Seq::empty()
    } else if ignorable(s.last()) {
        visible(s.drop_last())
    } else {
        visible(s.drop_last()).push(s.last())
    }
}

/// The link target names a scheme that runs script when followed:
/// `javascript:`, `data:` or `vbscript:`, in any letter case, once white
/// space and control characters are ignored.
pub open spec fn script_scheme(url: Seq<char>) -> bool {
    let n = lower_seq(visible(url));
    has_prefix(n, "javascript:"@) || has_prefix(n, "data:"@) || has_prefix(n, "vbscript:"@)
}

/// The `href` that a link target renders as.
pub open spec fn sanitized(url: Seq<char>) -> Seq<char> {
    if script_scheme(url) {
        "#blocked"@
    } else {
        rewritten(url)
    }
}

/// Neutralises link targets that would execute script when followed, and
/// rewrites the rest as `rewrite_cross_node_url` does.
pub fn sanitize_url(url: &[char]) -> (r: String)
    ensures
        r@ == sanitized(url@),
{
    let mut normalised: Vec<char> = Vec::new();
    let mut i: usize = 0;
    assert(url@.take(0) =~= Seq::<char>::empty());
    while i < url.len()
        invariant
            i <= url@.len(),
            normalised@ == lower_seq(visible(url@.take(i as int))),
        decreases url@.len() - i,
    {
        let c = url[i];
        assert(url@.take(i + 1).drop_last() =~= url@.take(i as int));
        if !is_white_space(c) && !is_control(c) {
            normalised.push(to_lower(c));
        }
        i += 1;
        assert(normalised@ =~= lower_seq(visible(url@.take(i as int))));
    }
    assert(url@.take(i as int) =~= url@);
    let javascript = chars_of("javascript:");
    let data = chars_of("data:");
    let vbscript = chars_of("vbscript:");
    if starts_with(normalised.as_slice(), javascript.as_slice()) || starts_with(
        normalised.as_slice(),
        data.as_slice(),
    ) || starts_with(normalised.as_slice(), vbscript.as_slice()) {
        return String::from_str("#blocked");
    }
    rewrite_cross_node_url(url)
}

} // verus!

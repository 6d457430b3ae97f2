//! Turning a command-line location into an address.

use vstd::prelude::*;
use crate::strs::{append_string, concat, to_chars};

verus! {

pub open spec fn starts_with(s: Seq<char>, p: Seq<char>) -> bool {
    p.len() <= s.len() && s.subrange(0, p.len() as int) == p
}

fn starts_with_exec(s: &str, p: &str) -> (r: bool)
    ensures
        r == starts_with(s@, p@),
{
    let sv = to_chars(s);
    let pv = to_chars(p);
    if pv.len() > sv.len() {
        return false;
    }
    let mut i: usize = 0;
    while i < pv.len()
        invariant
            pv@ == p@,
            sv@ == s@,
            pv@.len() <= sv@.len(),
            i <= pv@.len(),
            forall|k: int| 0 <= k < i ==> sv@[k] == pv@[k],
        decreases pv@.len() - i,
    {
        if sv[i] != pv[i] {
            assert(sv@.subrange(0, pv@.len() as int)[i as int] != pv@[i as int]);
            return false;
        }
        i = i + 1;
    }
    assert(sv@.subrange(0, pv@.len() as int) =~= pv@);
    true
}

/// `base` with `rel` appended as a further path component.
pub open spec fn path_join(base: Seq<char>, rel: Seq<char>) -> Seq<char> {
    if base.len() == 0 {
        rel
    } else if base.last() == '/' {
        base + rel
    } else {
        base + seq!['/'] + rel
    }
}

pub open spec fn file_scheme() -> Seq<char> {
    seq!['f', 'i', 'l', 'e', ':', '/', '/']
}

/// The address for a location given on the command line: an http(s)
/// address as it is, an absolute path as a `file://` address, and a
/// relative path as a `file://` address under `basedir`.
pub open spec fn resolved(basedir: Seq<char>, u: Seq<char>) -> Seq<char> {
    if starts_with(u, seq!['h', 't', 't', 'p', ':', '/', '/']) || starts_with(
        u,
        seq!['h', 't', 't', 'p', 's', ':', '/', '/'],
    ) {
        u
    } else if starts_with(u, seq!['/']) {
        file_scheme() + u
    } else {
        file_scheme() + path_join(basedir, u)
    }
}

/// Resolves `u` against the directory `basedir`.
pub fn resolves_path(basedir: String, u: String) -> (r: String)
    ensures
        r@ == resolved(basedir@, u@),
{
    proof {
        reveal_strlit("http://");
        reveal_strlit("https://");
        reveal_strlit("/");
        reveal_strlit("file://");
        assert("http://"@ =~= seq!['h', 't', 't', 'p', ':', '/', '/']);
        assert("https://"@ =~= seq!['h', 't', 't', 'p', 's', ':', '/', '/']);
        assert("/"@ =~= seq!['/']);
        assert("file://"@ =~= file_scheme());
    }
    if starts_with_exec(u.as_str(), "http://") || starts_with_exec(u.as_str(), "https://") {
        u
    } else if starts_with_exec(u.as_str(), "/") {
        concat("file://", u.as_str())
    } else {
        let b = to_chars(basedir.as_str());
        let mut path = concat("file://", basedir.as_str());
        if b.len() > 0 && b[b.len() - 1] != '/' {
            crate::strs::push_char(&mut path, '/');
        }
        append_string(&mut path, &u);
        assert(path@ =~= file_scheme() + path_join(basedir@, u@));
        path
    }
}

} // verus!

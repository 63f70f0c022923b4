use vstd::prelude::*;

use crate::bytesutil::append_range;

verus! {

/// The part of a path after its last separator byte.
pub open spec fn file_part(p: Seq<u8>) -> Seq<u8>
    decreases p.len(),
{
    if p.len() == 0 {
        Seq::empty()
    } else if p.last() == 47 {
        Seq::empty()
    } else {
        file_part(p.drop_last()) + seq![p.last()]
    }
}

/// The part of a file name after its last dot, if the name has a dot.
pub open spec fn after_dot(name: Seq<u8>) -> Option<Seq<u8>>
    decreases name.len(),
{
    if name.len() == 0 {
        None
    } else if name.last() == 46 {
        Some(Seq::empty())
    } else {
        match after_dot(name.drop_last()) {
            Some(s) => Some(s + seq![name.last()]),
            None => None,
        }
    }
}

/// The extension of a file name: what follows the last dot, unless the dot
/// is absent or is the name's first byte.
pub open spec fn ext_of_name(name: Seq<u8>) -> Option<Seq<u8>> {
    match after_dot(name) {
        Some(e) => if e.len() + 1 < name.len() {
            Some(e)
        } else {
            None
        },
        None => None,
    }
}

/// The language hint of a path: its file extension, or empty if it has none.
pub open spec fn ext_of(p: Seq<u8>) -> Seq<u8> {
    match ext_of_name(file_part(p)) {
        Some(e) => e,
        None => Seq::empty(),
    }
}

proof fn lemma_file_part(p: Seq<u8>, s: int)
    requires
        0 <= s <= p.len(),
        forall|k: int| s <= k < p.len() ==> p[k] != 47,
        s > 0 ==> p[s - 1] == 47,
    ensures
        file_part(p) == p.subrange(s, p.len() as int),
    decreases p.len(),
{
    if p.len() == 0 {
        assert(file_part(p) =~= p.subrange(s, p.len() as int));
    } else if s == p.len() {
        assert(p.last() == 47);
        assert(file_part(p) =~= p.subrange(s, p.len() as int));
    } else {
        assert(p.last() != 47);
        lemma_file_part(p.drop_last(), s);
        assert(p.drop_last().subrange(s, p.len() - 1) + seq![p.last()] =~= p.subrange(
            s,
            p.len() as int,
        ));
    }
}

proof fn lemma_after_dot_none(name: Seq<u8>)
    requires
        forall|k: int| 0 <= k < name.len() ==> name[k] != 46,
    ensures
        after_dot(name) is None,
    decreases name.len(),
{
    if name.len() > 0 {
        lemma_after_dot_none(name.drop_last());
    }
}

proof fn lemma_after_dot_found(name: Seq<u8>, d: int)
    requires
        0 <= d < name.len(),
        name[d] == 46,
        forall|k: int| d < k < name.len() ==> name[k] != 46,
    ensures
        after_dot(name) == Some(name.subrange(d + 1, name.len() as int)),
    decreases name.len(),
{
    if d == name.len() - 1 {
        assert(after_dot(name) == Some(Seq::<u8>::empty()));
        assert(Seq::<u8>::empty() =~= name.subrange(d + 1, name.len() as int));
    } else {
        assert(name.last() != 46);
        lemma_after_dot_found(name.drop_last(), d);
        assert(name.drop_last().subrange(d + 1, name.len() - 1) + seq![name.last()]
            =~= name.subrange(d + 1, name.len() as int));
    }
}

/// The file-extension suffix of the resolved reference, used to tag the
/// fenced block; empty when the reference has no extension.
pub fn language_hint(path: &Vec<u8>) -> (h: Vec<u8>)
    ensures
        h@ == ext_of(path@),
{
    let n = path.len();
    let mut s: usize = n;
    while s > 0 && path[s - 1] != 47
        invariant
            s <= n,
            n == path@.len(),
            forall|k: int| s <= k < n ==> path@[k] != 47,
        decreases s,
    {
        s = s - 1;
    }
    proof {
        lemma_file_part(path@, s as int);
    }
    let ghost name = path@.subrange(s as int, n as int);
    let mut j: usize = n;
    while j > s && path[j - 1] != 46
        invariant
            s <= j <= n,
            n == path@.len(),
            forall|k: int| j <= k < n ==> path@[k] != 46,
        decreases j,
    {
        j = j - 1;
    }
    if j == s {
        proof {
            assert forall|k: int| 0 <= k < name.len() implies name[k] != 46 by {
                assert(name[k] == path@[s + k]);
            }
            lemma_after_dot_none(name);
        }
        Vec::new()
    } else {
        proof {
            let d = j - 1 - s;
            assert(name[d as int] == path@[j - 1]);
            assert forall|k: int| d < k < name.len() implies name[k] != 46 by {
                assert(name[k] == path@[s + k]);
            }
            lemma_after_dot_found(name, d as int);
            assert(name.subrange(j - s, name.len() as int) =~= path@.subrange(
                j as int,
                n as int,
            ));
        }
        if j > s + 1 {
            let mut h: Vec<u8> = Vec::new();
            append_range(&mut h, path, j, n);
            h
        } else {
            Vec::new()
        }
    }
}

/// The suffix appended to a template path to name its lockfile.
pub open spec fn lock_suffix() -> Seq<u8> {
    seq![46u8, 108u8, 111u8, 99u8, 107u8]
}

/// Derives the lockfile's path from the template's path: the template's
/// extension, if it has one, grows the lock suffix, and a template without
/// one gains it; either way the suffix is appended to the path.
pub fn get_lockfile_path(template_path: &Vec<u8>) -> (r: Vec<u8>)
    ensures
        r@ == template_path@ + lock_suffix(),
{
    let mut r: Vec<u8> = Vec::new();
    append_range(&mut r, template_path, 0, template_path.len());
    r.push(46u8);
    r.push(108u8);
    r.push(111u8);
    r.push(99u8);
    r.push(107u8);
    proof {
        assert(template_path@.subrange(0, template_path@.len() as int) =~= template_path@);
        assert(r@ =~= template_path@ + lock_suffix());
    }
    r
}

} // verus!

use vstd::prelude::*;

use crate::bytesutil::{trim_ws, trimmed_copy};

verus! {

/// One directive occurrence: the byte span it covers in the template
/// and the trimmed reference string between its delimiters.
#[derive(Debug)]
pub struct Directive {
    pub start: usize,
    pub end: usize,
    pub reference: Vec<u8>,
}

/// A directive at the specification level.
pub struct DirectiveSpec {
    pub start: int,
    pub end: int,
    pub reference: Seq<u8>,
}

impl View for Directive {
    type V = DirectiveSpec;

    open spec fn view(&self) -> DirectiveSpec {
        DirectiveSpec {
            start: self.start as int,
            end: self.end as int,
            reference: self.reference@,
        }
    }
}

/// The views of a vector of directives.
pub open spec fn dirs_view(ds: Seq<Directive>) -> Seq<DirectiveSpec> {
    ds.map_values(|d: Directive| d@)
}

/// The ten bytes that open a directive.
pub open spec fn opener() -> Seq<u8> {
    seq![91u8, 91u8, 105u8, 110u8, 99u8, 108u8, 117u8, 100u8, 101u8, 58u8]
}

/// Whether the directive opener occurs at position `i`.
pub open spec fn opener_at(t: Seq<u8>, i: int) -> bool {
    0 <= i && i + 10 <= t.len() && t.subrange(i, i + 10) == opener()
}

/// Whether the two-byte closing delimiter occurs at position `j`.
pub open spec fn closer_at(t: Seq<u8>, j: int) -> bool {
    0 <= j && j + 2 <= t.len() && t[j] == 93 && t[j + 1] == 93
}

/// The position of the first closing delimiter at or after `j`, if any.
pub open spec fn find_closer(t: Seq<u8>, j: int) -> Option<int>
    recommends
        0 <= j,
    decreases t.len() - j,
{
    if j < 0 || j + 2 > t.len() {
        None
    } else if closer_at(t, j) {
        Some(j)
    } else {
        find_closer(t, j + 1)
    }
}

pub proof fn lemma_find_closer(t: Seq<u8>, j: int)
    requires
        0 <= j,
    ensures
        match find_closer(t, j) {
            Some(c) => j <= c && closer_at(t, c) && forall|k: int| j <= k < c ==> !closer_at(t, k),
            None => forall|k: int| j <= k ==> !closer_at(t, k),
        },
    decreases t.len() - j,
{
    if j + 2 > t.len() {
    } else if closer_at(t, j) {
    } else {
        lemma_find_closer(t, j + 1);
    }
}

/// Every directive at or after position `pos`: at each opener, the directive
/// runs to the first closing delimiter after it, and scanning resumes past
/// that directive, so directives never overlap.
pub open spec fn scan_from(t: Seq<u8>, pos: int) -> Seq<DirectiveSpec>
    decreases t.len() - pos,
    via scan_from_decreases
{
    if pos < 0 || pos + 10 > t.len() {
        Seq::empty()
    } else if opener_at(t, pos) {
        match find_closer(t, pos + 10) {
            Some(j) => seq![
                DirectiveSpec {
                    start: pos,
                    end: j + 2,
                    reference: trim_ws(t.subrange(pos + 10, j)),
                },
            ] + scan_from(t, j + 2),
            None => Seq::empty(),
        }
    } else {
        scan_from(t, pos + 1)
    }
}

#[via_fn]
proof fn scan_from_decreases(t: Seq<u8>, pos: int) {
    if 0 <= pos && pos + 10 <= t.len() && opener_at(t, pos) {
        if find_closer(t, pos + 10) is Some {
            lemma_find_closer(t, pos + 10);
        }
    }
}

/// Every directive of the template, leftmost first.
pub open spec fn directives_of(t: Seq<u8>) -> Seq<DirectiveSpec> {
    scan_from(t, 0)
}

/// Whether directive `k` is within bounds, wide enough to hold its
/// delimiters, and starts no earlier than its predecessor ends.
pub open spec fn wf_at(t: Seq<u8>, ds: Seq<DirectiveSpec>, k: int) -> bool {
    &&& 0 <= ds[k].start
    &&& ds[k].start + 12 <= ds[k].end
    &&& ds[k].end <= t.len()
    &&& (k > 0 ==> ds[k - 1].end <= ds[k].start)
}

/// Directive spans are in bounds, non-overlapping, and ordered left to right.
pub open spec fn dirs_wf(t: Seq<u8>, ds: Seq<DirectiveSpec>) -> bool {
    forall|k: int| 0 <= k < ds.len() ==> #[trigger] wf_at(t, ds, k)
}

pub proof fn lemma_scan_wf(t: Seq<u8>, pos: int)
    requires
        0 <= pos,
    ensures
        dirs_wf(t, scan_from(t, pos)),
        forall|k: int|
            0 <= k < scan_from(t, pos).len() ==> (#[trigger] scan_from(t, pos)[k]).start >= pos,
    decreases t.len() - pos,
{
    if pos + 10 > t.len() {
    } else if opener_at(t, pos) {
        match find_closer(t, pos + 10) {
            Some(j) => {
                lemma_find_closer(t, pos + 10);
                lemma_scan_wf(t, j + 2);
                let d0 = DirectiveSpec {
                    start: pos,
                    end: j + 2,
                    reference: trim_ws(t.subrange(pos + 10, j)),
                };
                let tail = scan_from(t, j + 2);
                let ds = scan_from(t, pos);
                assert(ds == seq![d0] + tail);
                assert forall|k: int| 0 <= k < ds.len() implies #[trigger] wf_at(t, ds, k) && ds[k].start
                    >= pos by {
                    if k == 0 {
                        assert(ds[0] == d0);
                    } else {
                        assert(ds[k] == tail[k - 1]);
                        assert(wf_at(t, tail, k - 1));
                        assert(tail[k - 1].start >= j + 2);
                        if k == 1 {
                            assert(ds[0].end == j + 2);
                        } else {
                            assert(ds[k - 1] == tail[k - 2]);
                        }
                    }
                }
            },
            None => {},
        }
    } else {
        lemma_scan_wf(t, pos + 1);
        assert(scan_from(t, pos) == scan_from(t, pos + 1));
    }
}

/// The directive opener as a byte vector.
pub fn directive_opener() -> (v: Vec<u8>)
    ensures
        v@ == opener(),
{
    let mut v: Vec<u8> = Vec::new();
    v.push(91u8);
    v.push(91u8);
    v.push(105u8);
    v.push(110u8);
    v.push(99u8);
    v.push(108u8);
    v.push(117u8);
    v.push(100u8);
    v.push(101u8);
    v.push(58u8);
    proof {
        assert(v@ =~= opener());
    }
    v
}

fn check_opener(t: &Vec<u8>, pos: usize) -> (r: bool)
    requires
        pos + 10 <= t@.len(),
    ensures
        r == opener_at(t@, pos as int),
{
    let m = directive_opener();
    let n = t.len();
    let mut k: usize = 0;
    while k < 10
        invariant
            k <= 10,
            n == t@.len(),
            pos + 10 <= n,
            m@ == opener(),
            forall|j: int| 0 <= j < k ==> t@[pos + j] == opener()[j],
        decreases 10 - k,
    {
        if t[pos + k] != m[k] {
            proof {
                if opener_at(t@, pos as int) {
                    assert(t@.subrange(pos as int, pos as int + 10)[k as int]
                        == opener()[k as int]);
                }
            }
            return false;
        }
        k = k + 1;
    }
    proof {
        assert forall|j: int| 0 <= j < 10 implies t@.subrange(pos as int, pos as int + 10)[j]
            == opener()[j] by {}
        assert(t@.subrange(pos as int, pos as int + 10) =~= opener());
    }
    true
}

fn find_closer_exec(t: &Vec<u8>, from: usize) -> (r: Option<usize>)
    requires
        from <= t@.len(),
    ensures
        match r {
            Some(j) => find_closer(t@, from as int) == Some(j as int) && from <= j && j + 2
                <= t@.len(),
            None => find_closer(t@, from as int) is None,
        },
{
    let n = t.len();
    if n < 2 {
        return None;
    }
    let mut j: usize = from;
    while j <= n - 2
        invariant
            from <= j,
            n == t@.len(),
            n >= 2,
            find_closer(t@, from as int) == find_closer(t@, j as int),
        decreases n - j,
    {
        if t[j] == 93u8 && t[j + 1] == 93u8 {
            return Some(j);
        }
        j = j + 1;
    }
    None
}

/// Finds every directive of the template, leftmost first.
pub fn scan_template(t: &Vec<u8>) -> (dirs: Vec<Directive>)
    ensures
        dirs_view(dirs@) == directives_of(t@),
{
    let n = t.len();
    let mut dirs: Vec<Directive> = Vec::new();
    let mut pos: usize = 0;
    proof {
        assert(dirs_view(dirs@) + scan_from(t@, 0) =~= scan_from(t@, 0));
    }
    while n >= 10 && pos <= n - 10
        invariant
            pos <= n,
            n == t@.len(),
            directives_of(t@) == dirs_view(dirs@) + scan_from(t@, pos as int),
        decreases n - pos,
    {
        if check_opener(t, pos) {
            match find_closer_exec(t, pos + 10) {
                Some(j) => {
                    let reference = trimmed_copy(t, pos + 10, j);
                    let d = Directive { start: pos, end: j + 2, reference };
                    proof {
                        let d0 = DirectiveSpec {
                            start: pos as int,
                            end: j as int + 2,
                            reference: trim_ws(t@.subrange(pos as int + 10, j as int)),
                        };
                        assert(d@ == d0);
                        assert(scan_from(t@, pos as int) == seq![d0] + scan_from(
                            t@,
                            j as int + 2,
                        ));
                        assert(dirs_view(dirs@.push(d)) =~= dirs_view(dirs@) + seq![d0]);
                        assert((dirs_view(dirs@) + seq![d0]) + scan_from(t@, j as int + 2)
                            =~= dirs_view(dirs@) + (seq![d0] + scan_from(t@, j as int + 2)));
                    }
                    dirs.push(d);
                    pos = j + 2;
                },
                None => {
                    proof {
                        assert(scan_from(t@, pos as int) =~= Seq::<DirectiveSpec>::empty());
                        assert(scan_from(t@, n as int) =~= Seq::<DirectiveSpec>::empty());
                    }
                    pos = n;
                },
            }
        } else {
            proof {
                assert(scan_from(t@, pos as int) == scan_from(t@, pos as int + 1));
            }
            pos = pos + 1;
        }
    }
    proof {
        assert(scan_from(t@, pos as int) =~= Seq::<DirectiveSpec>::empty());
        assert(dirs_view(dirs@) + scan_from(t@, pos as int) =~= dirs_view(dirs@));
    }
    dirs
}

} // verus!

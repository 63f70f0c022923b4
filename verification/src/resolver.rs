use vstd::prelude::*;

use crate::bytesutil::{append_range, clone_bytes, is_utf8, utf8_valid};
use crate::digest::{calculate_hash, digest_hex_of};
use crate::errors::ClampError;
use crate::paths::{ext_of, language_hint};
use crate::scanner::{
    directives_of, dirs_view, dirs_wf, lemma_scan_wf, wf_at, Directive, DirectiveSpec,
};
use crate::table::DigestTable;

verus! {

/// A rendered block at the specification level.
pub struct BlockSpec {
    pub hint: Seq<u8>,
    pub content: Seq<u8>,
}

/// The fenced block substituted for one directive.
#[derive(Debug)]
pub struct RenderBlock {
    pub hint: Vec<u8>,
    pub content: Vec<u8>,
}

impl View for RenderBlock {
    type V = BlockSpec;

    open spec fn view(&self) -> BlockSpec {
        BlockSpec { hint: self.hint@, content: self.content@ }
    }
}

/// The views of a vector of blocks.
pub open spec fn blocks_view(bs: Seq<RenderBlock>) -> Seq<BlockSpec> {
    bs.map_values(|b: RenderBlock| b@)
}

/// A fenced block: an opening fence tagged with the language hint, the
/// content on its own lines, and a closing fence line.
pub open spec fn fence_block(hint: Seq<u8>, content: Seq<u8>) -> Seq<u8> {
    seq![96u8, 96u8, 96u8] + hint + seq![10u8] + content + seq![10u8, 96u8, 96u8, 96u8, 10u8]
}

/// The rendered output from directive `k` on, where `prev` is the template
/// position just past the previous directive.
pub open spec fn render_from(
    t: Seq<u8>,
    ds: Seq<DirectiveSpec>,
    bs: Seq<BlockSpec>,
    k: int,
    prev: int,
) -> Seq<u8>
    decreases ds.len() - k,
{
    if k < 0 || k >= ds.len() {
        t.subrange(prev, t.len() as int)
    } else {
        t.subrange(prev, ds[k].start) + fence_block(bs[k].hint, bs[k].content) + render_from(
            t,
            ds,
            bs,
            k + 1,
            ds[k].end,
        )
    }
}

/// The output text: the template with every directive replaced by its block
/// and all surrounding text kept verbatim.
pub open spec fn render_spec(t: Seq<u8>, ds: Seq<DirectiveSpec>, bs: Seq<BlockSpec>) -> Seq<u8> {
    render_from(t, ds, bs, 0, 0)
}

fn append_fence(out: &mut Vec<u8>, block: &RenderBlock)
    ensures
        final(out)@ == old(out)@ + fence_block(block@.hint, block@.content),
{
    out.push(96u8);
    out.push(96u8);
    out.push(96u8);
    append_range(out, &block.hint, 0, block.hint.len());
    out.push(10u8);
    append_range(out, &block.content, 0, block.content.len());
    out.push(10u8);
    out.push(96u8);
    out.push(96u8);
    out.push(96u8);
    out.push(10u8);
    proof {
        assert(block.hint@.subrange(0, block.hint@.len() as int) =~= block.hint@);
        assert(block.content@.subrange(0, block.content@.len() as int) =~= block.content@);
        assert(out@ =~= old(out)@ + fence_block(block@.hint, block@.content));
    }
}

/// Renders the composed output for a template whose directives and blocks
/// are already known.
pub fn render_output(t: &Vec<u8>, dirs: &Vec<Directive>, blocks: &Vec<RenderBlock>) -> (out: Vec<
    u8,
>)
    requires
        dirs_wf(t@, dirs_view(dirs@)),
        blocks@.len() == dirs@.len(),
    ensures
        out@ == render_spec(t@, dirs_view(dirs@), blocks_view(blocks@)),
{
    let ghost ds = dirs_view(dirs@);
    let ghost bs = blocks_view(blocks@);
    let n = t.len();
    let nd = dirs.len();
    let mut out: Vec<u8> = Vec::new();
    let mut prev: usize = 0;
    let mut k: usize = 0;
    proof {
        assert(Seq::<u8>::empty() + render_from(t@, ds, bs, 0, 0) =~= render_from(
            t@,
            ds,
            bs,
            0,
            0,
        ));
    }
    while k < nd
        invariant
            k <= nd,
            nd == dirs@.len(),
            blocks@.len() == dirs@.len(),
            ds == dirs_view(dirs@),
            bs == blocks_view(blocks@),
            n == t@.len(),
            dirs_wf(t@, ds),
            prev <= n,
            k < nd ==> prev <= ds[k as int].start,
            render_spec(t@, ds, bs) == out@ + render_from(t@, ds, bs, k as int, prev as int),
        decreases nd - k,
    {
        proof {
            assert(wf_at(t@, ds, k as int));
            assert(ds[k as int] == dirs@[k as int]@);
        }
        let d_start = dirs[k].start;
        let d_end = dirs[k].end;
        let ghost out0 = out@;
        append_range(&mut out, t, prev, d_start);
        append_fence(&mut out, &blocks[k]);
        proof {
            assert(bs[k as int] == blocks@[k as int]@);
            assert(render_from(t@, ds, bs, k as int, prev as int) == t@.subrange(
                prev as int,
                ds[k as int].start,
            ) + fence_block(bs[k as int].hint, bs[k as int].content) + render_from(
                t@,
                ds,
                bs,
                k as int + 1,
                ds[k as int].end,
            ));
            assert(out@ =~= out0 + (t@.subrange(prev as int, ds[k as int].start) + fence_block(
                bs[k as int].hint,
                bs[k as int].content,
            )));
            assert(out0 + render_from(t@, ds, bs, k as int, prev as int) =~= out@ + render_from(
                t@,
                ds,
                bs,
                k as int + 1,
                ds[k as int].end,
            ));
            if k + 1 < nd {
                assert(wf_at(t@, ds, k as int + 1));
            }
        }
        prev = d_end;
        k = k + 1;
    }
    let ghost out1 = out@;
    append_range(&mut out, t, prev, n);
    proof {
        assert(render_from(t@, ds, bs, k as int, prev as int) == t@.subrange(
            prev as int,
            n as int,
        ));
        assert(out@ =~= out1 + t@.subrange(prev as int, n as int));
    }
    out
}

/// What the caller found when it resolved one directive against the
/// filesystem, handed back in directive order.
#[derive(Debug)]
pub enum FetchOutcome {
    /// The reference resolved, its canonical identity is known, and its raw
    /// bytes were read.
    Loaded { resolved: Vec<u8>, canonical: Vec<u8>, content: Vec<u8> },
    /// The resolved path does not exist.
    Missing { resolved: Vec<u8> },
    /// The resolved path could not be canonicalized.
    CanonFailed { resolved: Vec<u8>, detail: Vec<u8> },
    /// The canonical path could not be read.
    ReadFailed { canonical: Vec<u8>, detail: Vec<u8> },
}

/// Whether an outcome lets resolution proceed: the file was loaded and its
/// content is valid UTF-8.
pub open spec fn outcome_good(o: FetchOutcome) -> bool {
    match o {
        FetchOutcome::Loaded { content, .. } => utf8_valid(content@),
        _ => false,
    }
}

/// The block a loaded outcome renders to: the resolved reference's
/// extension as the hint, and the file's bytes unchanged as the content.
pub open spec fn block_of(o: FetchOutcome) -> BlockSpec {
    match o {
        FetchOutcome::Loaded { resolved, content, .. } => BlockSpec {
            hint: ext_of(resolved@),
            content: content@,
        },
        _ => BlockSpec { hint: Seq::empty(), content: Seq::empty() },
    }
}

/// The blocks of a sequence of outcomes.
pub open spec fn blocks_of(os: Seq<FetchOutcome>) -> Seq<BlockSpec> {
    os.map_values(|o: FetchOutcome| block_of(o))
}

/// The digests recorded by the first `n` outcomes: each loaded file's
/// digest under its canonical path, later entries overwriting earlier ones
/// for the same path.
pub open spec fn hashes_of(os: Seq<FetchOutcome>, n: int) -> Map<Seq<u8>, Seq<u8>>
    decreases n,
{
    if n <= 0 {
        Map::empty()
    } else {
        match os[n - 1] {
            FetchOutcome::Loaded { canonical, content, .. } => hashes_of(os, n - 1).insert(
                canonical@,
                digest_hex_of(content@),
            ),
            _ => hashes_of(os, n - 1),
        }
    }
}

/// The position of the first outcome that stops resolution.
pub open spec fn first_bad(os: Seq<FetchOutcome>) -> int
    decreases os.len(),
{
    if os.len() == 0 {
        0
    } else if !outcome_good(os[0]) {
        0
    } else {
        1 + first_bad(os.drop_first())
    }
}

proof fn lemma_first_bad(os: Seq<FetchOutcome>, i: int)
    requires
        0 <= i < os.len(),
        forall|j: int| 0 <= j < i ==> outcome_good(#[trigger] os[j]),
        !outcome_good(os[i]),
    ensures
        first_bad(os) == i,
    decreases i,
{
    if i > 0 {
        lemma_first_bad(os.drop_first(), i - 1);
    }
}

/// Whether `e` is the error that outcome `o` of directive `d` must raise.
pub open spec fn err_matches(
    e: ClampError,
    d: DirectiveSpec,
    tpath: Seq<u8>,
    o: FetchOutcome,
) -> bool {
    match o {
        FetchOutcome::Loaded { canonical, .. } => e matches ClampError::NotUtf8 { path } && path@
            == canonical@,
        FetchOutcome::Missing { resolved } => e matches ClampError::TargetNotFound {
            resolved: r,
            template,
            reference,
        } && r@ == resolved@ && template@ == tpath && reference@ == d.reference,
        FetchOutcome::CanonFailed { resolved, detail } => e
            matches ClampError::CanonicalizeFailed { resolved: r, detail: dd } && r@ == resolved@
            && dd@ == detail@,
        FetchOutcome::ReadFailed { canonical, detail } => e matches ClampError::ReadFailed {
            path,
            detail: dd,
        } && path@ == canonical@ && dd@ == detail@,
    }
}

/// The result of processing a template: the composed output and the
/// digests of every file it pulled in.
#[derive(Debug)]
pub struct ProcessResult {
    pub output_content: Vec<u8>,
    pub current_hashes: DigestTable,
}

/// Resolves every directive of the template against the fetched outcomes,
/// in source order: records each loaded file's digest under its canonical
/// path (a later directive naming the same path wins), rejects content
/// that is not valid UTF-8, and renders the composed output. The first
/// failing outcome aborts resolution with its error; no partial result is
/// returned.
pub fn resolve_template(
    t: &Vec<u8>,
    template_path: &Vec<u8>,
    dirs: &Vec<Directive>,
    outcomes: &Vec<FetchOutcome>,
) -> (r: Result<ProcessResult, ClampError>)
    requires
        dirs_view(dirs@) == directives_of(t@),
        outcomes@.len() == dirs@.len(),
    ensures
        match r {
            Ok(pr) => {
                &&& forall|i: int| 0 <= i < outcomes@.len() ==> outcome_good(#[trigger] outcomes@[i])
                &&& pr.output_content@ == render_spec(t@, directives_of(t@), blocks_of(outcomes@))
                &&& pr.current_hashes.wf()
                &&& pr.current_hashes@ == hashes_of(outcomes@, outcomes@.len() as int)
            },
            Err(e) => {
                &&& exists|i: int|
                    0 <= i < outcomes@.len() && !outcome_good(#[trigger] outcomes@[i])
                &&& err_matches(
                    e,
                    directives_of(t@)[first_bad(outcomes@)],
                    template_path@,
                    outcomes@[first_bad(outcomes@)],
                )
            },
        },
{
    let n = dirs.len();
    let mut table = DigestTable::new();
    let mut blocks: Vec<RenderBlock> = Vec::new();
    let mut i: usize = 0;
    while i < n
        invariant
            i <= n,
            n == dirs@.len(),
            outcomes@.len() == n,
            dirs_view(dirs@) == directives_of(t@),
            table.wf(),
            table@ == hashes_of(outcomes@, i as int),
            blocks@.len() == i,
            blocks_view(blocks@) == blocks_of(outcomes@).subrange(0, i as int),
            forall|j: int| 0 <= j < i ==> outcome_good(#[trigger] outcomes@[j]),
        decreases n - i,
    {
        let outcome = &outcomes[i];
        match outcome {
            FetchOutcome::Loaded { resolved, canonical, content } => {
                let hash = calculate_hash(content);
                let canon_copy = clone_bytes(canonical);
                table.insert(canon_copy, hash);
                if !is_utf8(content) {
                    proof {
                        lemma_first_bad(outcomes@, i as int);
                    }
                    return Err(ClampError::NotUtf8 { path: clone_bytes(canonical) });
                }
                let hint = language_hint(resolved);
                let content_copy = clone_bytes(content);
                blocks.push(RenderBlock { hint, content: content_copy });
                proof {
                    assert(blocks_view(blocks@) =~= blocks_of(outcomes@).subrange(
                        0,
                        i as int + 1,
                    ));
                }
            },
            FetchOutcome::Missing { resolved } => {
                proof {
                    lemma_first_bad(outcomes@, i as int);
                }
                return Err(ClampError::TargetNotFound {
                    resolved: clone_bytes(resolved),
                    template: clone_bytes(template_path),
                    reference: clone_bytes(&dirs[i].reference),
                });
            },
            FetchOutcome::CanonFailed { resolved, detail } => {
                proof {
                    lemma_first_bad(outcomes@, i as int);
                }
                return Err(ClampError::CanonicalizeFailed {
                    resolved: clone_bytes(resolved),
                    detail: clone_bytes(detail),
                });
            },
            FetchOutcome::ReadFailed { canonical, detail } => {
                proof {
                    lemma_first_bad(outcomes@, i as int);
                }
                return Err(ClampError::ReadFailed {
                    path: clone_bytes(canonical),
                    detail: clone_bytes(detail),
                });
            },
        }
        i = i + 1;
    }
    proof {
        lemma_scan_wf(t@, 0);
        assert(blocks_view(blocks@) =~= blocks_of(outcomes@));
    }
    let output = render_output(t, dirs, &blocks);
    Ok(ProcessResult { output_content: output, current_hashes: table })
}

/// A template with no directives renders as itself, and with no outcomes
/// the digest map is empty: output equals the input verbatim.
pub proof fn lemma_no_directives_identity(t: Seq<u8>, bs: Seq<BlockSpec>, os: Seq<FetchOutcome>)
    requires
        directives_of(t).len() == 0,
        os.len() == 0,
    ensures
        render_spec(t, directives_of(t), bs) == t,
        hashes_of(os, 0) == Map::<Seq<u8>, Seq<u8>>::empty(),
{
    assert(t.subrange(0, t.len() as int) =~= t);
}

/// A template with a single directive renders as the text before it, the
/// fenced block whose inner content is the referenced file's bytes
/// unchanged, and the text after it.
pub proof fn lemma_single_directive_render(t: Seq<u8>, bs: Seq<BlockSpec>)
    requires
        directives_of(t).len() == 1,
        bs.len() == 1,
    ensures
        render_spec(t, directives_of(t), bs) == t.subrange(0, directives_of(t)[0].start)
            + fence_block(bs[0].hint, bs[0].content) + t.subrange(
            directives_of(t)[0].end,
            t.len() as int,
        ),
{
    lemma_scan_wf(t, 0);
    let ds = directives_of(t);
    assert(wf_at(t, ds, 0));
    assert(render_from(t, ds, bs, 1, ds[0].end) == t.subrange(ds[0].end, t.len() as int));
}

/// One loaded file yields exactly one digest entry, keyed by its canonical
/// path and holding the digest of its raw bytes.
pub proof fn lemma_single_loaded_hashes(
    os: Seq<FetchOutcome>,
    resolved: Vec<u8>,
    canonical: Vec<u8>,
    content: Vec<u8>,
)
    requires
        os.len() == 1,
        os[0] == (FetchOutcome::Loaded { resolved, canonical, content }),
    ensures
        hashes_of(os, 1) == Map::<Seq<u8>, Seq<u8>>::empty().insert(
            canonical@,
            digest_hex_of(content@),
        ),
{
    reveal_with_fuel(hashes_of, 2);
    assert(hashes_of(os, 0) == Map::<Seq<u8>, Seq<u8>>::empty());
}

/// Resolution is deterministic: the directives, the rendered output, and
/// the digest map are functions of the template text and the fetched
/// outcomes alone, so a second run over unchanged inputs yields
/// byte-identical output and an identical digest map.
pub proof fn lemma_resolution_deterministic(
    t1: Seq<u8>,
    t2: Seq<u8>,
    os1: Seq<FetchOutcome>,
    os2: Seq<FetchOutcome>,
)
    requires
        t1 == t2,
        os1 == os2,
    ensures
        directives_of(t1) == directives_of(t2),
        render_spec(t1, directives_of(t1), blocks_of(os1)) == render_spec(
            t2,
            directives_of(t2),
            blocks_of(os2),
        ),
        hashes_of(os1, os1.len() as int) == hashes_of(os2, os2.len() as int),
{
}

} // verus!

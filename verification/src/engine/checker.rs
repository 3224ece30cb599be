//! Checks on the IDs of marker blocks: every output ID must be offered by an
//! input block, and no input ID may be offered twice.
use vstd::prelude::*;

use crate::engine::types::{
    block_views, role_input_ids, role_output_ids, BlockRole, BlockView, Error, ErrorView,
    FileView, MarkerBlock, ParsedFile, RoleView,
};

verus! {

// ---------------------------------------------------------------------------
// Model
// ---------------------------------------------------------------------------

/// The input IDs of the blocks, in order.
pub open spec fn blocks_input_ids(bs: Seq<BlockView>) -> Seq<Seq<char>>
    decreases bs.len(),
{
    if bs.len() == 0 {
        seq![]
    } else {
        blocks_input_ids(bs.drop_last()) + role_input_ids(bs.last().role)
    }
}

/// The output IDs of the blocks, in order.
pub open spec fn blocks_output_ids(bs: Seq<BlockView>) -> Seq<Seq<char>>
    decreases bs.len(),
{
    if bs.len() == 0 {
        seq![]
    } else {
        blocks_output_ids(bs.drop_last()) + role_output_ids(bs.last().role)
    }
}

/// The input IDs of the blocks of the files, in order.
pub open spec fn files_input_ids(fs: Seq<FileView>) -> Seq<Seq<char>>
    decreases fs.len(),
{
    if fs.len() == 0 {
        seq![]
    } else {
        files_input_ids(fs.drop_last()) + blocks_input_ids(fs.last().blocks)
    }
}

/// The output IDs of the blocks of the files, in order.
pub open spec fn files_output_ids(fs: Seq<FileView>) -> Seq<Seq<char>>
    decreases fs.len(),
{
    if fs.len() == 0 {
        seq![]
    } else {
        files_output_ids(fs.drop_last()) + blocks_output_ids(fs.last().blocks)
    }
}

/// `id` is the first of `outs` that `ins` does not hold.
pub open spec fn is_first_missing(outs: Seq<Seq<char>>, ins: Seq<Seq<char>>, id: Seq<char>) -> bool {
    exists|i: int|
        0 <= i < outs.len() && outs[i] == id && !ins.contains(id) && forall|j: int|
            0 <= j < i ==> ins.contains(#[trigger] outs[j])
}

/// Every ID of `outs` is in `ins`.
pub open spec fn all_offered(outs: Seq<Seq<char>>, ins: Seq<Seq<char>>) -> bool {
    forall|i: int| 0 <= i < outs.len() ==> ins.contains(#[trigger] outs[i])
}

/// No ID occurs twice in `ids`.
pub open spec fn all_distinct(ids: Seq<Seq<char>>) -> bool {
    forall|i: int, j: int| 0 <= i < j < ids.len() ==> ids[i] != ids[j]
}

/// `id` is the first ID of `ids` that occurred before.
pub open spec fn is_first_duplicate(ids: Seq<Seq<char>>, id: Seq<char>) -> bool {
    exists|j: int|
        0 <= j < ids.len() && ids[j] == id && ids.take(j).contains(id) && all_distinct(
            ids.take(j),
        )
}

/// The views of a sequence of parsed files.
pub open spec fn file_views(fs: Seq<ParsedFile>) -> Seq<FileView> {
    fs.map_values(|f: ParsedFile| f@)
}

// ---------------------------------------------------------------------------
// Shared steps
// ---------------------------------------------------------------------------

/// Appends the input IDs of a role to `r`.
pub fn push_input_ids(r: &mut Vec<String>, role: &BlockRole)
    ensures
        final(r).deep_view() == old(r).deep_view() + role_input_ids(role@),
{
    match role {
        BlockRole::Input { ids, .. } => {
            let mut k: usize = 0;
            let ghost r0 = r.deep_view();
            while k < ids.len()
                invariant
                    k <= ids.len(),
                    r.deep_view() == r0 + ids.deep_view().take(k as int),
                decreases ids.len() - k,
            {
                let ghost before = r.deep_view();
                let s = ids[k].clone();
                assert(s@ == ids.deep_view()[k as int]);
                let ghost rv: Vec<String> = *r;
                r.push(s);
                proof {
                    crate::text::lemma_strings_push(rv, *r, s);
                }
                assert(r.deep_view() =~= r0 + ids.deep_view().take(k + 1));
                k += 1;
            }
            assert(ids.deep_view().take(ids.len() as int) =~= ids.deep_view());
        },
        _ => {
            assert(r.deep_view() =~= r.deep_view() + Seq::<Seq<char>>::empty());
        },
    }
}

/// Appends the output ID of a role, if any, to `r`.
pub fn push_output_ids(r: &mut Vec<String>, role: &BlockRole)
    ensures
        final(r).deep_view() == old(r).deep_view() + role_output_ids(role@),
{
    match role {
        BlockRole::Output { id: Some(id) } => {
            let ghost before = r.deep_view();
            let ghost rv: Vec<String> = *r;
            let s = id.clone();
            r.push(s);
            proof {
                crate::text::lemma_strings_push(rv, *r, s);
            }
            assert(r.deep_view() =~= before + seq![id@]);
        },
        _ => {
            assert(r.deep_view() =~= r.deep_view() + Seq::<Seq<char>>::empty());
        },
    }
}

/// The first ID of `outs` that `ins` does not hold, if any.
pub fn first_missing_id(outs: &Vec<String>, ins: &Vec<String>) -> (r: Option<String>)
    ensures
        match r {
            Some(id) => is_first_missing(outs.deep_view(), ins.deep_view(), id@),
            None => all_offered(outs.deep_view(), ins.deep_view()),
        },
{
    let mut i: usize = 0;
    while i < outs.len()
        invariant
            i <= outs.len(),
            forall|j: int| 0 <= j < i ==> ins.deep_view().contains(#[trigger] outs.deep_view()[j]),
        decreases outs.len() - i,
    {
        if !crate::text::contains_string(ins, &outs[i]) {
            let id = outs[i].clone();
            assert(outs.deep_view()[i as int] == id@);
            return Some(id);
        }
        i += 1;
    }
    None
}

/// The first ID of `ids` that occurred before, if any.
pub fn first_duplicate_id(ids: &Vec<String>) -> (r: Option<String>)
    ensures
        match r {
            Some(id) => is_first_duplicate(ids.deep_view(), id@),
            None => all_distinct(ids.deep_view()),
        },
{
    let ghost v = ids.deep_view();
    let mut j: usize = 0;
    while j < ids.len()
        invariant
            j <= ids.len(),
            v == ids.deep_view(),
            all_distinct(v.take(j as int)),
        decreases ids.len() - j,
    {
        let mut k: usize = 0;
        while k < j
            invariant
                k <= j < ids.len(),
                v == ids.deep_view(),
                all_distinct(v.take(j as int)),
                forall|m: int| 0 <= m < k ==> v[m] != v[j as int],
            decreases j - k,
        {
            if ids[k] == ids[j] {
                let id = ids[j].clone();
                proof {
                    assert(v[j as int] == id@);
                    assert(v.take(j as int)[k as int] == id@);
                    assert(v.take(j as int).contains(id@));
                }
                return Some(id);
            }
            k += 1;
        }
        assert(all_distinct(v.take(j + 1))) by {
            let t = v.take(j + 1);
            assert forall|a: int, b: int| 0 <= a < b < t.len() implies #[trigger] t[a]
                != #[trigger] t[b] by {
                if b < j {
                    assert(v.take(j as int)[a] != v.take(j as int)[b]);
                }
            }
        }
        j += 1;
    }
    assert(v.take(ids.len() as int) =~= v);
    None
}

// ---------------------------------------------------------------------------
// Checks
// ---------------------------------------------------------------------------

/// The input IDs of the blocks, in order.
pub fn block_input_ids(blocks: &[MarkerBlock]) -> (r: Vec<String>)
    ensures
        r.deep_view() == blocks_input_ids(block_views(blocks@)),
{
    let mut r: Vec<String> = Vec::new();
    let mut i: usize = 0;
    while i < blocks.len()
        invariant
            i <= blocks.len(),
            r.deep_view() == blocks_input_ids(block_views(blocks@).take(i as int)),
        decreases blocks.len() - i,
    {
        assert(block_views(blocks@).take(i + 1).drop_last() =~= block_views(blocks@).take(
            i as int,
        ));
        push_input_ids(&mut r, &blocks[i].role);
        i += 1;
    }
    assert(block_views(blocks@).take(blocks.len() as int) =~= block_views(blocks@));
    r
}

/// The output IDs of the blocks, in order.
pub fn block_output_ids(blocks: &[MarkerBlock]) -> (r: Vec<String>)
    ensures
        r.deep_view() == blocks_output_ids(block_views(blocks@)),
{
    let mut r: Vec<String> = Vec::new();
    let mut i: usize = 0;
    while i < blocks.len()
        invariant
            i <= blocks.len(),
            r.deep_view() == blocks_output_ids(block_views(blocks@).take(i as int)),
        decreases blocks.len() - i,
    {
        assert(block_views(blocks@).take(i + 1).drop_last() =~= block_views(blocks@).take(
            i as int,
        ));
        push_output_ids(&mut r, &blocks[i].role);
        i += 1;
    }
    assert(block_views(blocks@).take(blocks.len() as int) =~= block_views(blocks@));
    r
}

/// The input IDs of the blocks of the files, in order.
pub fn file_input_ids(files: &[ParsedFile]) -> (r: Vec<String>)
    ensures
        r.deep_view() == files_input_ids(file_views(files@)),
{
    let mut r: Vec<String> = Vec::new();
    let mut i: usize = 0;
    while i < files.len()
        invariant
            i <= files.len(),
            r.deep_view() == files_input_ids(file_views(files@).take(i as int)),
        decreases files.len() - i,
    {
        assert(file_views(files@).take(i + 1).drop_last() =~= file_views(files@).take(i as int));
        let ghost before = r.deep_view();
        let mut more = block_input_ids(files[i].blocks.as_slice());
        let ghost extra = more.deep_view();
        r.append(&mut more);
        assert(r.deep_view() =~= before + extra);
        i += 1;
    }
    assert(file_views(files@).take(files.len() as int) =~= file_views(files@));
    r
}

/// The output IDs of the blocks of the files, in order.
pub fn file_output_ids(files: &[ParsedFile]) -> (r: Vec<String>)
    ensures
        r.deep_view() == files_output_ids(file_views(files@)),
{
    let mut r: Vec<String> = Vec::new();
    let mut i: usize = 0;
    while i < files.len()
        invariant
            i <= files.len(),
            r.deep_view() == files_output_ids(file_views(files@).take(i as int)),
        decreases files.len() - i,
    {
        assert(file_views(files@).take(i + 1).drop_last() =~= file_views(files@).take(i as int));
        let ghost before = r.deep_view();
        let mut more = block_output_ids(files[i].blocks.as_slice());
        let ghost extra = more.deep_view();
        r.append(&mut more);
        assert(r.deep_view() =~= before + extra);
        i += 1;
    }
    assert(file_views(files@).take(files.len() as int) =~= file_views(files@));
    r
}

/// Every output ID of the output files must be an input ID of the input
/// files; the first one that is not is the error.
pub fn check_missing_ids(output_files: &[ParsedFile], input_files: &[ParsedFile]) -> (r: Result<
    (),
    Error,
>)
    ensures
        r is Ok <==> all_offered(
            files_output_ids(file_views(output_files@)),
            files_input_ids(file_views(input_files@)),
        ),
        r matches Err(e) ==> (e@ matches ErrorView::MissingInputId(id) && is_first_missing(
            files_output_ids(file_views(output_files@)),
            files_input_ids(file_views(input_files@)),
            id,
        )),
{
    let ins = file_input_ids(input_files);
    let outs = file_output_ids(output_files);
    match first_missing_id(&outs, &ins) {
        Some(id) => Err(Error::MissingInputId { id }),
        None => Ok(()),
    }
}

/// No input ID may be offered twice by the blocks; the first repeated one
/// is the error.
pub fn check_duplicated_input_ids(blocks: &[MarkerBlock]) -> (r: Result<(), Error>)
    ensures
        r is Ok <==> all_distinct(blocks_input_ids(block_views(blocks@))),
        r matches Err(e) ==> (e@ matches ErrorView::DuplicatedInputId(id) && is_first_duplicate(
            blocks_input_ids(block_views(blocks@)),
            id,
        )),
{
    let ids = block_input_ids(blocks);
    match first_duplicate_id(&ids) {
        Some(id) => Err(Error::DuplicatedInputId { id }),
        None => Ok(()),
    }
}

// ---------------------------------------------------------------------------
// Laws
// ---------------------------------------------------------------------------

/// The input IDs of files put together are those of each part, in order.
proof fn lemma_files_ids_concat(a: Seq<FileView>, b: Seq<FileView>)
    ensures
        files_input_ids(a + b) == files_input_ids(a) + files_input_ids(b),
        files_output_ids(a + b) == files_output_ids(a) + files_output_ids(b),
    decreases b.len(),
{
    if b.len() == 0 {
        assert(a + b =~= a);
        assert(files_input_ids(a) + files_input_ids(b) =~= files_input_ids(a));
        assert(files_output_ids(a) + files_output_ids(b) =~= files_output_ids(a));
    } else {
        lemma_files_ids_concat(a, b.drop_last());
        assert((a + b).drop_last() =~= a + b.drop_last());
        assert((a + b).last() == b.last());
        assert(files_input_ids(a) + files_input_ids(b) =~= files_input_ids(a) + files_input_ids(
            b.drop_last(),
        ) + blocks_input_ids(b.last().blocks));
        assert(files_output_ids(a) + files_output_ids(b) =~= files_output_ids(a) + files_output_ids(
            b.drop_last(),
        ) + blocks_output_ids(b.last().blocks));
    }
}

/// At most one ID is the first missing one.
pub proof fn law_first_missing_is_unique(
    outs: Seq<Seq<char>>,
    ins: Seq<Seq<char>>,
    a: Seq<char>,
    b: Seq<char>,
)
    requires
        is_first_missing(outs, ins, a),
        is_first_missing(outs, ins, b),
    ensures
        a == b,
{
    let i = choose|i: int|
        0 <= i < outs.len() && outs[i] == a && !ins.contains(a) && forall|j: int|
            0 <= j < i ==> ins.contains(#[trigger] outs[j]);
    let k = choose|k: int|
        0 <= k < outs.len() && outs[k] == b && !ins.contains(b) && forall|j: int|
            0 <= j < k ==> ins.contains(#[trigger] outs[j]);
    if i < k {
        assert(ins.contains(outs[i]));
    } else if k < i {
        assert(ins.contains(outs[k]));
    }
}

/// The missing-ID check is stable when files are added: more input files
/// keep it passing, and more output files after the others keep its first
/// missing ID.
pub proof fn law_missing_ids_stable(
    outs: Seq<FileView>,
    ins: Seq<FileView>,
    more_ins: Seq<FileView>,
    more_outs: Seq<FileView>,
    id: Seq<char>,
)
    ensures
        all_offered(files_output_ids(outs), files_input_ids(ins)) ==> all_offered(
            files_output_ids(outs),
            files_input_ids(ins + more_ins),
        ),
        is_first_missing(files_output_ids(outs), files_input_ids(ins), id) ==> is_first_missing(
            files_output_ids(outs + more_outs),
            files_input_ids(ins),
            id,
        ),
{
    lemma_files_ids_concat(ins, more_ins);
    lemma_files_ids_concat(outs, more_outs);
    let o = files_output_ids(outs);
    let n = files_input_ids(ins);
    let n2 = files_input_ids(ins + more_ins);
    let o2 = files_output_ids(outs + more_outs);
    if all_offered(o, n) {
        assert forall|k: int| 0 <= k < o.len() implies n2.contains(#[trigger] o[k]) by {
            assert(n.contains(o[k]));
            let j = choose|j: int| 0 <= j < n.len() && n[j] == o[k];
            assert(n2[j] == n[j]);
        }
    }
    if is_first_missing(o, n, id) {
        let i = choose|i: int|
            0 <= i < o.len() && o[i] == id && !n.contains(id) && forall|j: int|
                0 <= j < i ==> n.contains(#[trigger] o[j]);
        assert(o2[i] == o[i]);
        assert forall|j: int| 0 <= j < i implies n.contains(#[trigger] o2[j]) by {
            assert(o2[j] == o[j]);
        }
    }
}

/// Whether IDs are distinct does not depend on their order: IDs with the
/// same multiset of values are distinct together.
pub proof fn law_distinct_ids_ignore_order(ids1: Seq<Seq<char>>, ids2: Seq<Seq<char>>)
    requires
        ids1.to_multiset() == ids2.to_multiset(),
    ensures
        all_distinct(ids1) == all_distinct(ids2),
{
    if all_distinct(ids1) {
        lemma_distinct_moves(ids1, ids2);
    }
    if all_distinct(ids2) {
        lemma_distinct_moves(ids2, ids1);
    }
}

proof fn lemma_distinct_moves(ids1: Seq<Seq<char>>, ids2: Seq<Seq<char>>)
    requires
        ids1.to_multiset() == ids2.to_multiset(),
        all_distinct(ids1),
    ensures
        all_distinct(ids2),
{
    assert(ids1.no_duplicates()) by {
        assert forall|i: int, j: int|
            0 <= i < ids1.len() && 0 <= j < ids1.len() && i != j implies ids1[i] != ids1[j] by {
            if i < j {
            } else {
            }
        }
    }
    ids1.lemma_multiset_has_no_duplicates();
    ids2.lemma_multiset_has_no_duplicates_conv();
}

/// The input IDs of blocks put together are those of each part, in order.
proof fn lemma_blocks_ids_concat(a: Seq<BlockView>, b: Seq<BlockView>)
    ensures
        blocks_input_ids(a + b) == blocks_input_ids(a) + blocks_input_ids(b),
    decreases b.len(),
{
    if b.len() == 0 {
        assert(a + b =~= a);
        assert(blocks_input_ids(a) + blocks_input_ids(b) =~= blocks_input_ids(a));
    } else {
        lemma_blocks_ids_concat(a, b.drop_last());
        assert((a + b).drop_last() =~= a + b.drop_last());
        assert((a + b).last() == b.last());
        assert(blocks_input_ids(a) + blocks_input_ids(b) =~= blocks_input_ids(a) + blocks_input_ids(
            b.drop_last(),
        ) + role_input_ids(b.last().role));
    }
}

/// Blocks in another order offer the same multiset of input IDs.
proof fn lemma_block_order_keeps_ids(bs1: Seq<BlockView>, bs2: Seq<BlockView>)
    requires
        bs1.to_multiset() == bs2.to_multiset(),
    ensures
        blocks_input_ids(bs1).to_multiset() == blocks_input_ids(bs2).to_multiset(),
    decreases bs1.len(),
{
    broadcast use vstd::seq_lib::group_seq_properties, vstd::multiset::group_multiset_axioms;

    bs1.to_multiset_ensures();
    bs2.to_multiset_ensures();
    if bs1.len() == 0 {
        assert(bs2.len() == 0);
        assert(bs2 =~= bs1);
    } else {
        let x = bs1.last();
        let rest1 = bs1.drop_last();
        assert(bs1 =~= rest1.push(x));
        rest1.to_multiset_ensures();
        assert(bs1.to_multiset().count(x) > 0);
        assert(bs2.contains(x));
        let k = choose|k: int| 0 <= k < bs2.len() && bs2[k] == x;
        let rest2 = bs2.remove(k);
        assert(rest1.to_multiset() =~= bs1.to_multiset().remove(x));
        assert(rest2.to_multiset() =~= bs2.to_multiset().remove(x));
        lemma_block_order_keeps_ids(rest1, rest2);
        let pre = bs2.take(k);
        let post = bs2.skip(k + 1);
        assert(bs2 =~= pre + seq![x] + post);
        assert(rest2 =~= pre + post);
        lemma_blocks_ids_concat(pre, seq![x]);
        lemma_blocks_ids_concat(pre + seq![x], post);
        lemma_blocks_ids_concat(pre, post);
        assert(seq![x].drop_last() =~= Seq::<BlockView>::empty());
        let xi = role_input_ids(x.role);
        assert(blocks_input_ids(seq![x]) =~= xi);
        let a = blocks_input_ids(pre);
        let c = blocks_input_ids(post);
        vstd::seq_lib::lemma_multiset_commutative(a, xi);
        vstd::seq_lib::lemma_multiset_commutative(a + xi, c);
        vstd::seq_lib::lemma_multiset_commutative(a, c);
        vstd::seq_lib::lemma_multiset_commutative(blocks_input_ids(rest1), xi);
        assert(blocks_input_ids(bs1) == blocks_input_ids(rest1) + xi);
        assert(blocks_input_ids(bs2).to_multiset() =~= a.to_multiset().add(xi.to_multiset()).add(
            c.to_multiset(),
        ));
        assert(blocks_input_ids(bs1).to_multiset() =~= a.to_multiset().add(c.to_multiset()).add(
            xi.to_multiset(),
        ));
    }
}

/// The duplicate-ID check does not depend on the order of the blocks, nor
/// on the order of the IDs within each block: blocks that offer the same
/// multiset of input IDs pass or fail together, and so do blocks in
/// another order.
pub proof fn law_duplicate_check_ignores_order(bs1: Seq<BlockView>, bs2: Seq<BlockView>)
    requires
        blocks_input_ids(bs1).to_multiset() == blocks_input_ids(bs2).to_multiset()
            || bs1.to_multiset() == bs2.to_multiset(),
    ensures
        all_distinct(blocks_input_ids(bs1)) == all_distinct(blocks_input_ids(bs2)),
{
    if bs1.to_multiset() == bs2.to_multiset() {
        lemma_block_order_keeps_ids(bs1, bs2);
    }
    law_distinct_ids_ignore_order(blocks_input_ids(bs1), blocks_input_ids(bs2));
}

/// The ID that a role asks for as output, if any.
pub open spec fn asked_id(r: RoleView) -> Option<Seq<char>> {
    match r {
        RoleView::Output(o) => o,
        _ => None,
    }
}

/// Every output block with an ID asks for its ID: the output IDs of blocks
/// hold the ID of each output block, and nothing else.
pub proof fn law_output_ids_of_blocks(bs: Seq<BlockView>)
    ensures
        forall|j: int|
            0 <= j < bs.len() && (#[trigger] asked_id(bs[j].role)) is Some ==> blocks_output_ids(
                bs,
            ).contains(asked_id(bs[j].role)->0),
        forall|m: int|
            0 <= m < blocks_output_ids(bs).len() ==> exists|j: int|
                0 <= j < bs.len() && #[trigger] bs[j].role == RoleView::Output(
                    Some(#[trigger] blocks_output_ids(bs)[m]),
                ),
    decreases bs.len(),
{
    if bs.len() > 0 {
        let front = bs.drop_last();
        law_output_ids_of_blocks(front);
        let a = blocks_output_ids(front);
        let b = role_output_ids(bs.last().role);
        assert(blocks_output_ids(bs) == a + b);
        assert forall|j: int|
            0 <= j < bs.len() && (#[trigger] asked_id(bs[j].role)) is Some implies blocks_output_ids(
            bs,
        ).contains(asked_id(bs[j].role)->0) by {
            let id = asked_id(bs[j].role)->0;
            if j < front.len() {
                assert(front[j] == bs[j]);
                assert(a.contains(id));
                let q = choose|q: int| 0 <= q < a.len() && a[q] == id;
                assert((a + b)[q] == id);
            } else {
                assert(bs[j] == bs.last());
                assert(b == seq![id]);
                assert((a + b)[a.len() as int] == id);
            }
        }
        assert forall|m: int| 0 <= m < blocks_output_ids(bs).len() implies exists|j: int|
            0 <= j < bs.len() && #[trigger] bs[j].role == RoleView::Output(
                Some(#[trigger] blocks_output_ids(bs)[m]),
            ) by {
            if m < a.len() {
                assert((a + b)[m] == a[m]);
                let j = choose|j: int|
                    0 <= j < front.len() && #[trigger] front[j].role == RoleView::Output(Some(a[m]));
                assert(front[j] == bs[j]);
            } else {
                assert((a + b)[m] == b[m - a.len()]);
                let j = bs.len() - 1;
                assert(bs[j] == bs.last());
                match bs.last().role {
                    RoleView::Output(Some(id)) => {
                        assert(b[m - a.len()] == id);
                    },
                    _ => {
                        assert(b.len() == 0);
                    },
                }
            }
        }
    }
}

/// Every output block with an ID in the output files asks for its ID: the
/// output IDs of files hold the ID of each output block of each file.
pub proof fn law_output_ids_of_files(fs: Seq<FileView>)
    ensures
        forall|i: int, j: int|
            0 <= i < fs.len() && 0 <= j < fs[i].blocks.len() && (#[trigger] asked_id(
                fs[i].blocks[j].role,
            )) is Some ==> files_output_ids(fs).contains(asked_id(fs[i].blocks[j].role)->0),
    decreases fs.len(),
{
    if fs.len() > 0 {
        let front = fs.drop_last();
        law_output_ids_of_files(front);
        law_output_ids_of_blocks(fs.last().blocks);
        let a = files_output_ids(front);
        let b = blocks_output_ids(fs.last().blocks);
        assert(files_output_ids(fs) == a + b);
        assert forall|i: int, j: int|
            0 <= i < fs.len() && 0 <= j < fs[i].blocks.len() && (#[trigger] asked_id(
                fs[i].blocks[j].role,
            )) is Some implies files_output_ids(fs).contains(asked_id(fs[i].blocks[j].role)->0) by {
            let id = asked_id(fs[i].blocks[j].role)->0;
            if i < front.len() {
                assert(front[i] == fs[i]);
                assert(a.contains(id));
                let q = choose|q: int| 0 <= q < a.len() && a[q] == id;
                assert((a + b)[q] == id);
            } else {
                assert(fs[i] == fs.last());
                assert(b.contains(id));
                let q = choose|q: int| 0 <= q < b.len() && b[q] == id;
                assert((a + b)[a.len() + q] == id);
            }
        }
    }
}

/// An output block whose ID no input block offers makes the missing-ID
/// check fail.
pub proof fn law_unoffered_output_id_is_missing(
    outs: Seq<FileView>,
    ins: Seq<FileView>,
    i: int,
    j: int,
    id: Seq<char>,
)
    requires
        0 <= i < outs.len(),
        0 <= j < outs[i].blocks.len(),
        outs[i].blocks[j].role == RoleView::Output(Some(id)),
        !files_input_ids(ins).contains(id),
    ensures
        !all_offered(files_output_ids(outs), files_input_ids(ins)),
{
    law_output_ids_of_files(outs);
    let o = files_output_ids(outs);
    assert(asked_id(outs[i].blocks[j].role) == Some(id));
    assert(o.contains(id));
    let q = choose|q: int| 0 <= q < o.len() && o[q] == id;
    assert(!files_input_ids(ins).contains(o[q]));
}

} // verus!

//! The input block made of what was read from standard input.
use vstd::prelude::*;

use crate::engine::checker::{
    all_distinct, all_offered, check_missing_ids, file_input_ids, file_views, files_input_ids,
    files_output_ids, first_duplicate_id, is_first_duplicate, is_first_missing,
};
use crate::engine::types::{block_views, BlockRole, BlockView, Error, ErrorView, FileView, ParsedFile, RoleView};
use crate::injector::{filled, role_views, try_inject_blocks};
use crate::marker::opt_string;
use crate::types::{span_block_views, MarkerBlock, SourceSpan};
use crate::checker::id::check_duplicated_input_ids;

verus! {

/// The IDs that are given, in order, leaving out the absent ones.
pub open spec fn given_ids(ids: Seq<Option<Seq<char>>>) -> Seq<Seq<char>>
    decreases ids.len(),
{
    if ids.len() == 0 {
        seq![]
    } else {
        given_ids(ids.drop_last()) + match ids.last() {
            Some(id) => seq![id],
            None => seq![],
        }
    }
}

/// The views of a sequence of optional IDs.
pub open spec fn opt_ids(ids: Seq<Option<String>>) -> Seq<Option<Seq<char>>> {
    ids.map_values(|o: Option<String>| opt_string(o))
}

/// The single input block that standard input makes: its content is what
/// was read, its IDs are the given ones, and its span is empty.
pub fn stdin_blocks(ids: Vec<Option<String>>, stdin: String) -> (r: Vec<MarkerBlock>)
    ensures
        span_block_views(r@) == seq![
            BlockView { begin: 0, end: 0, role: RoleView::Input(given_ids(opt_ids(ids@)), stdin@) },
        ],
{
    let ghost all = opt_ids(ids@);
    let mut input_ids: Vec<String> = Vec::new();
    let mut ids = ids;
    let mut k: usize = 0;
    let n = ids.len();
    assert(all.take(0) =~= Seq::<Option<Seq<char>>>::empty());
    while k < n
        invariant
            k <= n,
            n == ids.len(),
            all == opt_ids(ids@),
            input_ids.deep_view() == given_ids(all.take(k as int)),
        decreases n - k,
    {
        assert(all.take(k + 1).drop_last() =~= all.take(k as int));
        assert(all[k as int] == opt_string(ids@[k as int]));
        match &ids[k] {
            Some(id) => {
                let ghost before: Vec<String> = input_ids;
                let s = id.clone();
                input_ids.push(s);
                proof {
                    crate::text::lemma_strings_push(before, input_ids, s);
                }
            },
            None => {
                assert(input_ids.deep_view() =~= input_ids.deep_view() + Seq::<Seq<char>>::empty());
            },
        }
        k += 1;
    }
    assert(all.take(n as int) =~= all);
    let r = vec![
        MarkerBlock {
            span: SourceSpan::new(0, 0),
            role: BlockRole::Input { ids: input_ids, content: stdin },
        },
    ];
    assert(span_block_views(r@) =~= seq![r@[0]@]);
    r
}

/// The roles of the blocks of the files, file after file.
pub open spec fn files_roles(fs: Seq<FileView>) -> Seq<RoleView>
    decreases fs.len(),
{
    if fs.len() == 0 {
        seq![]
    } else {
        files_roles(fs.drop_last()) + fs.last().blocks.map_values(|b: BlockView| b.role)
    }
}

/// The contents of the output files after filling their output blocks from
/// the inputs, file after file; `None` where a file cannot be filled.
pub open spec fn filled_files(outs: Seq<FileView>, inputs: Seq<RoleView>) -> Option<Seq<Seq<char>>>
    decreases outs.len(),
{
    if outs.len() == 0 {
        Some(seq![])
    } else {
        match filled(outs[0].content, outs[0].blocks, inputs) {
            Some(c) => match filled_files(outs.drop_first(), inputs) {
                Some(v) => Some(seq![c] + v),
                None => None,
            },
            None => None,
        }
    }
}

/// `acc` followed by the contents of an outcome.
pub open spec fn prefixed_contents(acc: Seq<Seq<char>>, o: Option<Seq<Seq<char>>>) -> Option<
    Seq<Seq<char>>,
> {
    match o {
        Some(v) => Some(acc + v),
        None => None,
    }
}

/// The roles of the blocks of the files, file after file.
fn input_roles<'a>(files: &'a [ParsedFile]) -> (r: Vec<&'a BlockRole>)
    ensures
        role_views(r@) == files_roles(file_views(files@)),
{
    let ghost fv = file_views(files@);
    let mut r: Vec<&BlockRole> = Vec::new();
    let mut i: usize = 0;
    while i < files.len()
        invariant
            i <= files.len(),
            fv == file_views(files@),
            role_views(r@) == files_roles(fv.take(i as int)),
        decreases files.len() - i,
    {
        let file = &files[i];
        assert(fv.take(i + 1).drop_last() =~= fv.take(i as int));
        assert(fv[i as int] == file@);
        let ghost base = role_views(r@);
        let ghost bv = block_views(file.blocks@);
        let mut j: usize = 0;
        while j < file.blocks.len()
            invariant
                j <= file.blocks.len(),
                bv == block_views(file.blocks@),
                role_views(r@) == base + bv.take(j as int).map_values(|b: BlockView| b.role),
            decreases file.blocks.len() - j,
        {
            let ghost before = role_views(r@);
            let role = &file.blocks[j].role;
            assert(bv[j as int] == file.blocks@[j as int]@);
            r.push(role);
            assert(role_views(r@) =~= before.push(role@));
            assert(bv.take(j + 1).map_values(|b: BlockView| b.role) =~= bv.take(j as int).map_values(
                |b: BlockView| b.role,
            ).push(role@));
            j += 1;
        }
        assert(bv.take(file.blocks.len() as int) =~= bv);
        assert(fv.take(i + 1).last() == file@);
        i += 1;
    }
    assert(fv.take(files.len() as int) =~= fv);
    r
}

/// The contents of the output files after filling their output blocks from
/// the inputs, file after file; `None` where a file cannot be filled.
fn fill_files(output_files: &[ParsedFile], inputs: &[&BlockRole]) -> (r: Option<Vec<String>>)
    ensures
        match r {
            Some(v) => filled_files(file_views(output_files@), role_views(inputs@)) == Some(
                v.deep_view(),
            ),
            None => filled_files(file_views(output_files@), role_views(inputs@)) is None,
        },
{
    let ghost fv = file_views(output_files@);
    let ghost iv = role_views(inputs@);
    let mut out: Vec<String> = Vec::new();
    let mut i: usize = 0;
    assert(fv.skip(0) =~= fv);
    while i < output_files.len()
        invariant
            i <= output_files.len(),
            fv == file_views(output_files@),
            iv == role_views(inputs@),
            filled_files(fv, iv) == prefixed_contents(out.deep_view(), filled_files(fv.skip(i as int), iv)),
        decreases output_files.len() - i,
    {
        let f = &output_files[i];
        assert(fv.skip(i as int).drop_first() =~= fv.skip(i + 1));
        assert(fv.skip(i as int)[0] == f@);
        match try_inject_blocks(f.content.as_str(), f.blocks.as_slice(), inputs) {
            Some(s) => {
                let ghost before = out.deep_view();
                out.push(s);
                assert(out.deep_view() =~= before.push(s@));
                proof {
                    match filled_files(fv.skip(i + 1), iv) {
                        Some(v) => {
                            assert(before + (seq![s@] + v) =~= before.push(s@) + v);
                        },
                        None => {},
                    }
                }
            },
            None => {
                return None;
            },
        }
        i += 1;
    }
    assert(fv.skip(output_files.len() as int) =~= Seq::<FileView>::empty());
    assert(out.deep_view() + Seq::<Seq<char>>::empty() =~= out.deep_view());
    Some(out)
}

/// Fills the output files from the input files: every output ID must be
/// offered by an input block and no input ID may be offered twice (the
/// first failing check is the error); then each output file gets its output
/// blocks filled from the input blocks. `None` where the markers of an
/// output block to fill do not lie within its file.
pub fn inject_from_files(output_files: &[ParsedFile], input_files: &[ParsedFile]) -> (r: Option<
    Result<Vec<String>, Error>,
>)
    ensures
        !all_offered(
            files_output_ids(file_views(output_files@)),
            files_input_ids(file_views(input_files@)),
        ) ==> (r matches Some(Err(e)) && e@ matches ErrorView::MissingInputId(id)
            && is_first_missing(
            files_output_ids(file_views(output_files@)),
            files_input_ids(file_views(input_files@)),
            id,
        )),
        all_offered(
            files_output_ids(file_views(output_files@)),
            files_input_ids(file_views(input_files@)),
        ) && !all_distinct(files_input_ids(file_views(input_files@))) ==> (r matches Some(Err(e))
            && e@ matches ErrorView::DuplicatedInputId(id) && is_first_duplicate(
            files_input_ids(file_views(input_files@)),
            id,
        )),
        all_offered(
            files_output_ids(file_views(output_files@)),
            files_input_ids(file_views(input_files@)),
        ) && all_distinct(files_input_ids(file_views(input_files@))) ==> match r {
            Some(Ok(v)) => filled_files(
                file_views(output_files@),
                files_roles(file_views(input_files@)),
            ) == Some(v.deep_view()),
            Some(Err(_)) => false,
            None => filled_files(
                file_views(output_files@),
                files_roles(file_views(input_files@)),
            ) is None,
        },
{
    match check_missing_ids(output_files, input_files) {
        Err(e) => {
            return Some(Err(e));
        },
        Ok(()) => {},
    }
    let ids = file_input_ids(input_files);
    match first_duplicate_id(&ids) {
        Some(id) => {
            return Some(Err(Error::DuplicatedInputId { id }));
        },
        None => {},
    }
    let roles = input_roles(input_files);
    match fill_files(output_files, roles.as_slice()) {
        Some(v) => Some(Ok(v)),
        None => None,
    }
}

/// Fills the output files from standard input: the input block made of what
/// was read may not offer an ID twice; then each output file gets its
/// output blocks filled from it. `None` where the markers of an output
/// block to fill do not lie within its file.
pub fn inject_from_stdin(output_files: &[ParsedFile], ids: Vec<Option<String>>, stdin: String) -> (r:
    Option<Result<Vec<String>, Error>>)
    ensures
        !all_distinct(given_ids(opt_ids(ids@))) ==> (r matches Some(Err(e))
            && e@ matches ErrorView::DuplicatedInputId(id) && is_first_duplicate(
            given_ids(opt_ids(ids@)),
            id,
        )),
        all_distinct(given_ids(opt_ids(ids@))) ==> match r {
            Some(Ok(v)) => filled_files(
                file_views(output_files@),
                seq![RoleView::Input(given_ids(opt_ids(ids@)), stdin@)],
            ) == Some(v.deep_view()),
            Some(Err(_)) => false,
            None => filled_files(
                file_views(output_files@),
                seq![RoleView::Input(given_ids(opt_ids(ids@)), stdin@)],
            ) is None,
        },
{
    let ghost given = given_ids(opt_ids(ids@));
    let ghost text = stdin@;
    let blocks = stdin_blocks(ids, stdin);
    let ghost bv = span_block_views(blocks@);
    assert(bv.len() == 1);
    assert(bv.last().role == RoleView::Input(given, text));
    assert(bv.drop_last() =~= Seq::<BlockView>::empty());
    assert(crate::engine::checker::blocks_input_ids(bv.drop_last()) =~= Seq::<Seq<char>>::empty());
    assert(crate::engine::checker::blocks_input_ids(bv) == crate::engine::checker::blocks_input_ids(
        bv.drop_last(),
    ) + given);
    assert(crate::engine::checker::blocks_input_ids(bv) =~= given);
    assert(blocks@[0]@ == bv[0]);
    if let Err(e) = check_duplicated_input_ids(blocks.as_slice()) {
        return Some(Err(e));
    }
    let roles: Vec<&BlockRole> = vec![&blocks[0].role];
    assert(role_views(roles@) =~= seq![RoleView::Input(given, text)]);
    match fill_files(output_files, roles.as_slice()) {
        Some(v) => Some(Ok(v)),
        None => None,
    }
}

} // verus!

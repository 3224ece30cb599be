//! Replacing the content of marker blocks.
use vstd::prelude::*;

use crate::engine::marker::{role_matches_output, spec_matches_output};
use crate::engine::types::{block_views, BlockRole, BlockView, RoleView};
use crate::marker::{block_models, opt_string, BlockModel, MarkerBlock, OutputID};
use crate::text::{
    chars_of, clean_lines, ends_cr, ends_nl, join_nl, join_slices, lemma_join_lines_of_no_crlf,
    lemma_join_nl_concat, lemma_join_split_nl, lemma_lines_of_joined, lemma_lines_of_shape,
    lemma_split_nl_pieces, lemma_strip_all_clean, lines, lines_of, no_crlf, no_nl, pieces_clean,
    slice_views, split_nl, strip_all, views,
};

verus! {

/// Whether a block with output ID `out` is injected into: with no target
/// IDs, the blocks without output ID are; otherwise the blocks whose output
/// ID is among the targets.
pub open spec fn selected(out: Option<Seq<char>>, targets: Seq<Option<Seq<char>>>) -> bool {
    if targets.len() == 0 {
        out is None
    } else {
        targets.contains(out)
    }
}

/// The lines with those strictly between lines `b` and `e` replaced by `stdin`.
pub open spec fn inject_into(lines: Seq<Seq<char>>, b: int, e: int, stdin: Seq<char>) -> Seq<
    Seq<char>,
> {
    lines.take(b + 1) + seq![stdin] + lines.skip(e)
}

/// The lines after injecting `stdin` into the selected blocks, the last block
/// first; `None` where a selected block's markers do not lie within the lines.
pub open spec fn injected_lines(
    lines: Seq<Seq<char>>,
    blocks: Seq<BlockModel>,
    stdin: Seq<char>,
    targets: Seq<Option<Seq<char>>>,
) -> Option<Seq<Seq<char>>>
    decreases blocks.len(),
{
    if blocks.len() == 0 {
        Some(lines)
    } else {
        let blk = blocks.last();
        let next = if selected(blk.output_id, targets) {
            if blk.begin < lines.len() && blk.end <= lines.len() {
                Some(inject_into(lines, blk.begin as int, blk.end as int, stdin))
            } else {
                None
            }
        } else {
            Some(lines)
        };
        match next {
            Some(l) => injected_lines(l, blocks.drop_last(), stdin, targets),
            None => None,
        }
    }
}

/// The content after injection: its lines with the selected blocks replaced,
/// joined with `'\n'`, and a final `'\n'` where the content had one.
pub open spec fn injection(
    content: Seq<char>,
    blocks: Seq<BlockModel>,
    stdin: Seq<char>,
    targets: Seq<Option<Seq<char>>>,
) -> Option<Seq<char>> {
    match injected_lines(lines_of(content), blocks, stdin, targets) {
        Some(l) => Some(
            join_nl(l) + if ends_nl(content) {
                seq!['\n']
            } else {
                seq![]
            },
        ),
        None => None,
    }
}

/// The views of the target IDs.
pub open spec fn target_views(t: Seq<OutputID>) -> Seq<Option<Seq<char>>> {
    t.map_values(|o: OutputID| opt_string(o))
}

/// Pushing a slice pushes its view.
pub proof fn lemma_slice_views_push(s: Seq<&[char]>, x: &[char])
    ensures
        slice_views(s.push(x)) == slice_views(s).push(x@),
{
    assert(forall|i: int| 0 <= i < s.len() ==> slice_views(s.push(x))[i] == s[i]@);
    assert(slice_views(s.push(x))[s.len() as int] == x@);
    assert(slice_views(s.push(x)) =~= slice_views(s).push(x@));
}

/// Whether two optional IDs are equal.
fn same_id(a: &OutputID, b: &OutputID) -> (r: bool)
    ensures
        r == (opt_string(*a) == opt_string(*b)),
{
    match (a, b) {
        (Some(x), Some(y)) => *x == *y,
        (None, None) => true,
        _ => false,
    }
}

/// Whether a block with output ID `out` is injected into.
fn should_inject(out: &OutputID, target_ids: &[OutputID]) -> (r: bool)
    ensures
        r == selected(opt_string(*out), target_views(target_ids@)),
{
    if target_ids.len() == 0 {
        return out.is_none();
    }
    let mut i: usize = 0;
    while i < target_ids.len()
        invariant
            i <= target_ids.len(),
            forall|k: int| 0 <= k < i ==> opt_string(target_ids@[k]) != opt_string(*out),
        decreases target_ids.len() - i,
    {
        if same_id(&target_ids[i], out) {
            assert(target_views(target_ids@)[i as int] == opt_string(*out));
            return true;
        }
        i += 1;
    }
    assert(!target_views(target_ids@).contains(opt_string(*out))) by {
        if target_views(target_ids@).contains(opt_string(*out)) {
            let k = choose|k: int|
                0 <= k < target_views(target_ids@).len() && target_views(target_ids@)[k]
                    == opt_string(*out);
            assert(opt_string(target_ids@[k]) == opt_string(*out));
        }
    }
    false
}

/// The lines with those strictly between lines `begin_line` and `end_line`
/// replaced by `stdin`.
pub fn inject_into_a_block<'a>(
    lines: Vec<&'a [char]>,
    begin_line: usize,
    end_line: usize,
    stdin: &'a [char],
) -> (injected: Vec<&'a [char]>)
    requires
        begin_line < lines.len(),
        end_line <= lines.len(),
    ensures
        slice_views(injected@) == inject_into(
            slice_views(lines@),
            begin_line as int,
            end_line as int,
            stdin@,
        ),
{
    let mut injected: Vec<&'a [char]> = Vec::new();
    let mut k: usize = 0;
    while k <= begin_line
        invariant
            begin_line < lines.len(),
            k <= begin_line + 1,
            slice_views(injected@) == slice_views(lines@).take(k as int),
        decreases begin_line + 1 - k,
    {
        let ghost before = injected@;
        let x = lines[k];
        assert(x@ == slice_views(lines@)[k as int]);
        injected.push(x);
        assert(injected@ == before.push(x));
        proof {
            lemma_slice_views_push(before, x);
        }
        assert(slice_views(injected@) =~= slice_views(lines@).take(k + 1));
        k += 1;
    }
    let ghost head = slice_views(injected@);
    let ghost before = injected@;
    injected.push(stdin);
    proof {
        lemma_slice_views_push(before, stdin);
    }
    assert(slice_views(injected@) =~= head + seq![stdin@]);
    let ghost mid = slice_views(injected@);
    let mut k: usize = end_line;
    while k < lines.len()
        invariant
            end_line <= k <= lines.len(),
            slice_views(injected@) == mid + slice_views(lines@).subrange(end_line as int, k as int),
        decreases lines.len() - k,
    {
        let ghost before = injected@;
        let x = lines[k];
        assert(x@ == slice_views(lines@)[k as int]);
        injected.push(x);
        assert(injected@ == before.push(x));
        proof {
            lemma_slice_views_push(before, x);
        }
        assert(slice_views(injected@) =~= mid + slice_views(lines@).subrange(
            end_line as int,
            k + 1,
        ));
        k += 1;
    }
    assert(slice_views(lines@).subrange(end_line as int, lines.len() as int) =~= slice_views(
        lines@,
    ).skip(end_line as int));
    injected
}

/// Injects `stdin` into the selected blocks of `content`; `None` where a
/// selected block's markers do not lie within the lines of `content`.
pub fn try_inject(content: &str, blocks: &[MarkerBlock], stdin: &str, target_ids: &[OutputID]) -> (r:
    Option<String>)
    ensures
        match r {
            Some(s) => injection(
                content@,
                block_models(blocks@),
                stdin@,
                target_views(target_ids@),
            ) == Some(s@),
            None => injection(
                content@,
                block_models(blocks@),
                stdin@,
                target_views(target_ids@),
            ) is None,
        },
{
    let ghost bm = block_models(blocks@);
    let ghost tv = target_views(target_ids@);
    let owned = lines(content);
    let stdin_chars = chars_of(stdin);
    let mut lines: Vec<&[char]> = Vec::new();
    let mut k: usize = 0;
    while k < owned.len()
        invariant
            k <= owned.len(),
            slice_views(lines@) == views(owned@).take(k as int),
        decreases owned.len() - k,
    {
        let ghost before = lines@;
        let x = owned[k].as_slice();
        assert(x@ == views(owned@)[k as int]);
        lines.push(x);
        assert(lines@ == before.push(x));
        proof {
            lemma_slice_views_push(before, x);
        }
        assert(slice_views(lines@) =~= views(owned@).take(k + 1));
        k += 1;
    }
    assert(views(owned@).take(owned.len() as int) =~= views(owned@));
    let ghost l0 = slice_views(lines@);
    // Use reversed iteration to avoid changes of line number.
    let mut i: usize = blocks.len();
    assert(bm.take(blocks.len() as int) =~= bm);
    while i > 0
        invariant
            i <= blocks.len(),
            bm == block_models(blocks@),
            tv == target_views(target_ids@),
            stdin_chars@ == stdin@,
            l0 == lines_of(content@),
            injected_lines(l0, bm, stdin@, tv) == injected_lines(
                slice_views(lines@),
                bm.take(i as int),
                stdin@,
                tv,
            ),
        decreases i,
    {
        let block = &blocks[i - 1];
        assert(bm.take(i as int).drop_last() =~= bm.take(i - 1));
        assert(bm.take(i as int).last() == block@);
        if should_inject(&block.output_id, target_ids) {
            if block.begin_line < lines.len() && block.end_line <= lines.len() {
                lines = inject_into_a_block(
                    lines,
                    block.begin_line,
                    block.end_line,
                    stdin_chars.as_slice(),
                );
            } else {
                assert(injected_lines(slice_views(lines@), bm.take(i as int), stdin@, tv) is None);
                return None;
            }
        }
        i -= 1;
    }
    let mut result = join_slices(&lines);
    let cs = chars_of(content);
    if cs.len() > 0 && cs[cs.len() - 1] == '\n' {
        let ghost before = result@;
        let nl: Vec<char> = vec!['\n'];
        crate::text::push_chars(&mut result, nl.as_slice());
        assert(result@ =~= before + seq!['\n']);
    } else {
        assert(result@ =~= result@ + Seq::<char>::empty());
    }
    Some(result)
}

/// Injects `stdin` into the selected blocks of `content`, the last block
/// first so that the line numbers of the earlier blocks stay valid.
pub fn inject(content: &str, blocks: &[MarkerBlock], stdin: &str, target_ids: &[OutputID]) -> (r:
    String)
    requires
        injection(content@, block_models(blocks@), stdin@, target_views(target_ids@)) is Some,
    ensures
        injection(content@, block_models(blocks@), stdin@, target_views(target_ids@)) == Some(
            r@,
        ),
{
    match try_inject(content, blocks, stdin, target_ids) {
        Some(s) => s,
        None => String::new(),
    }
}

// ---------------------------------------------------------------------------
// Laws
// ---------------------------------------------------------------------------

/// The text after replacing the lines strictly between lines `b` and `e` of
/// `c` by `s`.
pub open spec fn inject_text(c: Seq<char>, b: int, e: int, s: Seq<char>) -> Seq<char> {
    join_nl(inject_into(lines_of(c), b, e, s)) + if ends_nl(c) {
        seq!['\n']
    } else {
        seq![]
    }
}

/// A block with the given markers and output ID.
pub open spec fn block_at(b: usize, e: usize, out: Option<Seq<char>>) -> BlockModel {
    BlockModel { begin: b, end: e, input_ids: None, input_content: None, output_id: out }
}

/// Injecting into one selected block whose markers lie within the lines
/// replaces the lines between its markers.
pub proof fn law_single_block_injection(
    c: Seq<char>,
    b: usize,
    e: usize,
    out: Option<Seq<char>>,
    s: Seq<char>,
    targets: Seq<Option<Seq<char>>>,
)
    requires
        selected(out, targets),
        b < lines_of(c).len(),
        e <= lines_of(c).len(),
    ensures
        injection(c, seq![block_at(b, e, out)], s, targets) == Some(
            inject_text(c, b as int, e as int, s),
        ),
{
    let blocks = seq![block_at(b, e, out)];
    let l = lines_of(c);
    assert(blocks.drop_last() =~= Seq::<BlockModel>::empty());
    assert(blocks.last() == block_at(b, e, out));
    let l2 = inject_into(l, b as int, e as int, s);
    assert(injected_lines(l2, Seq::<BlockModel>::empty(), s, targets) == Some(l2));
    assert(injected_lines(l, blocks, s, targets) == injected_lines(
        l2,
        blocks.drop_last(),
        s,
        targets,
    ));
}

/// The last character of joined lines is that of the last line, when it is
/// not empty.
proof fn lemma_join_nl_last(ls: Seq<Seq<char>>)
    requires
        ls.len() >= 1,
        ls.last().len() > 0,
    ensures
        join_nl(ls).len() > 0,
        join_nl(ls).last() == ls.last().last(),
{
}

/// The lines after injecting `s` between lines `b` and `e` of a text none
/// of whose lines ends with a carriage return: the lines up to the begin
/// marker, the pieces of `s` between its newlines (without a carriage
/// return before each newline), and the lines from the end marker on.
proof fn lemma_lines_after_injection(c: Seq<char>, b: int, e: int, s: Seq<char>)
    requires
        clean_lines(c),
        0 <= b < lines_of(c).len(),
        0 <= e < lines_of(c).len(),
    ensures
        lines_of(inject_text(c, b, e, s)) == lines_of(c).take(b + 1) + strip_all(split_nl(s))
            + lines_of(c).skip(e),
        ends_nl(inject_text(c, b, e, s)) == ends_nl(c),
{
    let l = lines_of(c);
    lemma_lines_of_shape(c);
    lemma_split_nl_pieces(s);
    lemma_join_split_nl(s);
    let a = l.take(b + 1);
    let p = split_nl(s);
    let z = l.skip(e);
    let x = a + p + z;
    // The injected text is the join of the lines with `s` split at its newlines.
    lemma_join_nl_concat(a, seq![s]);
    lemma_join_nl_concat(a + seq![s], z);
    assert(inject_into(l, b, e, s) == a + seq![s] + z);
    lemma_join_nl_concat(a, p);
    lemma_join_nl_concat(a + p, z);
    assert(join_nl(seq![s]) == s);
    assert(join_nl(inject_into(l, b, e, s)) == join_nl(x));
    assert forall|k: int| 0 <= k < x.len() implies no_nl(#[trigger] x[k]) by {
        if k < a.len() {
            assert(x[k] == l[k]);
        } else if k < a.len() + p.len() {
            assert(x[k] == p[k - a.len()]);
        } else {
            assert(x[k] == l[k - a.len() - p.len() + e]);
        }
    }
    assert(x.last() == l.last());
    if !ends_nl(c) {
        assert(c.len() > 0);
    }
    lemma_lines_of_joined(x, ends_nl(c));
    let t = inject_text(c, b, e, s);
    assert(t == join_nl(x) + if ends_nl(c) {
        seq!['\n']
    } else {
        seq![]
    });
    let want = a + strip_all(p) + z;
    assert forall|k: int| 0 <= k < a.len() implies !ends_cr(#[trigger] a[k]) by {
        assert(a[k] == l[k]);
    }
    assert forall|k: int| 0 <= k < z.len() implies !ends_cr(#[trigger] z[k]) by {
        assert(z[k] == l[k + e]);
    }
    lemma_strip_all_clean(a);
    lemma_strip_all_clean(z);
    if ends_nl(c) {
        assert(strip_all(x) =~= strip_all(a) + strip_all(p) + strip_all(z));
        assert(lines_of(t) =~= want);
        assert(t.last() == '\n');
    } else {
        assert(strip_all(x.drop_last()).push(x.last()) =~= want);
        lemma_join_nl_last(x);
        assert(no_nl(x.last()));
        assert(x.last().last() == x.last()[x.last().len() - 1]);
        assert(t =~= join_nl(x));
    }
}

/// What was injected into a block reads back from it: in the lines of the
/// result, the lines up to the begin marker and from the (moved) end marker
/// on are those of the text before, and the lines between the markers join
/// to the injected text. Stated for texts none of whose lines ends with a
/// carriage return (every file whose lines end in `"\n"` or `"\r\n"`), for
/// injected text with no carriage return right before a newline or at its
/// end (the lines of the result lose such a carriage return), and for an
/// end marker that is a line of the text.
pub proof fn law_injection_reads_back(c: Seq<char>, b: int, e: int, s: Seq<char>)
    requires
        clean_lines(c),
        pieces_clean(s),
        0 <= b < lines_of(c).len(),
        0 <= e < lines_of(c).len(),
    ensures
        ({
            let t = inject_text(c, b, e, s);
            let m = lines_of(t);
            let e2 = b + 1 + split_nl(s).len();
            &&& e2 < m.len()
            &&& m.take(b + 1) == lines_of(c).take(b + 1)
            &&& m.skip(e2) == lines_of(c).skip(e)
            &&& join_nl(m.subrange(b + 1, e2)) == s
            &&& ends_nl(t) == ends_nl(c)
            &&& clean_lines(t)
        }),
{
    let l = lines_of(c);
    lemma_lines_after_injection(c, b, e, s);
    lemma_split_nl_pieces(s);
    lemma_join_split_nl(s);
    let p = split_nl(s);
    lemma_strip_all_clean(p);
    let a = l.take(b + 1);
    let z = l.skip(e);
    let t = inject_text(c, b, e, s);
    let m = lines_of(t);
    assert(m == a + p + z);
    let e2 = b + 1 + p.len();
    assert(m.take(b + 1) =~= a);
    assert(m.skip(e2) =~= z);
    assert(m.subrange(b + 1, e2) =~= p);
    assert forall|k: int| 0 <= k < m.len() implies !ends_cr(#[trigger] m[k]) by {
        if k < a.len() {
            assert(m[k] == l[k]);
        } else if k < a.len() + p.len() {
            assert(m[k] == p[k - a.len()]);
        } else {
            assert(m[k] == l[k - a.len() - p.len() + e]);
        }
    }
}

/// Injecting again replaces the content: injecting `s2` into a block after
/// `s1` was injected into it (its end marker moved to just after `s1`) gives
/// what injecting `s2` at first would have given. Stated for texts none of
/// whose lines ends with a carriage return (every file whose lines end in
/// `"\n"` or `"\r\n"`), and for an end marker that is a line of the text.
pub proof fn law_reinjection_replaces_content(
    c: Seq<char>,
    b: usize,
    e: usize,
    out: Option<Seq<char>>,
    s1: Seq<char>,
    s2: Seq<char>,
    targets: Seq<Option<Seq<char>>>,
)
    requires
        selected(out, targets),
        clean_lines(c),
        b < lines_of(c).len(),
        e < lines_of(c).len(),
        b + 1 + split_nl(s1).len() <= usize::MAX,
    ensures
        ({
            let first = injection(c, seq![block_at(b, e, out)], s1, targets);
            let e2 = (b + 1 + split_nl(s1).len()) as usize;
            &&& first is Some
            &&& injection(first->0, seq![block_at(b, e2, out)], s2, targets) == injection(
                c,
                seq![block_at(b, e, out)],
                s2,
                targets,
            )
        }),
{
    law_single_block_injection(c, b, e, out, s1, targets);
    law_single_block_injection(c, b, e, out, s2, targets);
    lemma_moved_block(c, b, e, s1, s2);
    let t = inject_text(c, b as int, e as int, s1);
    let e2 = (b + 1 + split_nl(s1).len()) as usize;
    law_single_block_injection(t, b, e2, out, s2, targets);
}

/// Injecting `s2` into a block after `s1` was injected into it (its end
/// marker moved to just after `s1`) gives the text injecting `s2` at first
/// gives.
proof fn lemma_moved_block(c: Seq<char>, b: usize, e: usize, s1: Seq<char>, s2: Seq<char>)
    requires
        clean_lines(c),
        b < lines_of(c).len(),
        e < lines_of(c).len(),
    ensures
        ({
            let t = inject_text(c, b as int, e as int, s1);
            let e2 = b + 1 + split_nl(s1).len();
            &&& b < lines_of(t).len()
            &&& e2 < lines_of(t).len()
            &&& inject_text(t, b as int, e2, s2) == inject_text(c, b as int, e as int, s2)
        }),
{
    lemma_lines_after_injection(c, b as int, e as int, s1);
    let l = lines_of(c);
    let t = inject_text(c, b as int, e as int, s1);
    let m = lines_of(t);
    let p = strip_all(split_nl(s1));
    let e2 = b + 1 + split_nl(s1).len();
    assert(p.len() == split_nl(s1).len());
    assert(m.take(b + 1) =~= l.take(b + 1));
    assert(m.skip(e2) =~= l.skip(e as int));
    assert(inject_into(m, b as int, e2, s2) =~= inject_into(l, b as int, e as int, s2));
}

/// When no block is selected, the lines are left as they are.
proof fn lemma_nothing_selected(
    ls: Seq<Seq<char>>,
    blocks: Seq<BlockModel>,
    s: Seq<char>,
    targets: Seq<Option<Seq<char>>>,
)
    requires
        forall|i: int| 0 <= i < blocks.len() ==> !selected(#[trigger] blocks[i].output_id, targets),
    ensures
        injected_lines(ls, blocks, s, targets) == Some(ls),
    decreases blocks.len(),
{
    if blocks.len() > 0 {
        assert(!selected(blocks[blocks.len() - 1].output_id, targets));
        lemma_nothing_selected(ls, blocks.drop_last(), s, targets);
    }
}

/// Injecting into no block leaves a text as it is, where no carriage return
/// in it comes right before a newline (the lines of a text lose such a
/// carriage return).
pub proof fn law_no_selected_block_keeps_content(
    c: Seq<char>,
    blocks: Seq<BlockModel>,
    s: Seq<char>,
    targets: Seq<Option<Seq<char>>>,
)
    requires
        no_crlf(c),
        forall|i: int| 0 <= i < blocks.len() ==> !selected(#[trigger] blocks[i].output_id, targets),
    ensures
        injection(c, blocks, s, targets) == Some(c),
{
    lemma_nothing_selected(lines_of(c), blocks, s, targets);
    lemma_join_lines_of_no_crlf(c);
}

/// A text that ends with a newline still does after injection.
pub proof fn law_injection_keeps_final_newline(
    c: Seq<char>,
    blocks: Seq<BlockModel>,
    s: Seq<char>,
    targets: Seq<Option<Seq<char>>>,
)
    requires
        ends_nl(c),
        injection(c, blocks, s, targets) is Some,
    ensures
        ends_nl(injection(c, blocks, s, targets)->0),
{
}

// ---------------------------------------------------------------------------
// Filling output blocks from input blocks
// ---------------------------------------------------------------------------

/// The views of a sequence of role references.
pub open spec fn role_views(v: Seq<&BlockRole>) -> Seq<RoleView> {
    v.map_values(|r: &BlockRole| r@)
}

/// Index of the first input role from `i` on that matches the output role.
pub open spec fn first_role_match(inputs: Seq<RoleView>, out: RoleView, i: int) -> Option<int>
    decreases inputs.len() - i,
{
    if i < 0 || i >= inputs.len() {
        None
    } else if spec_matches_output(inputs[i], out) {
        Some(i)
    } else {
        first_role_match(inputs, out, i + 1)
    }
}

/// What fills an output block: the content of the first input that matches
/// it, if any.
pub open spec fn filling(inputs: Seq<RoleView>, out: RoleView) -> Option<Seq<char>> {
    match first_role_match(inputs, out, 0) {
        Some(k) => match inputs[k] {
            RoleView::Input(_, c) => Some(c),
            _ => None,
        },
        None => None,
    }
}

/// The lines after filling each output block that some input matches, the
/// last block first; `None` where such a block's markers do not lie within
/// the lines.
pub open spec fn filled_lines(lines: Seq<Seq<char>>, blocks: Seq<BlockView>, inputs: Seq<RoleView>) -> Option<
    Seq<Seq<char>>,
>
    decreases blocks.len(),
{
    if blocks.len() == 0 {
        Some(lines)
    } else {
        let blk = blocks.last();
        let next = match filling(inputs, blk.role) {
            Some(s) => if blk.begin < lines.len() && blk.end <= lines.len() {
                Some(inject_into(lines, blk.begin as int, blk.end as int, s))
            } else {
                None
            },
            None => Some(lines),
        };
        match next {
            Some(l) => filled_lines(l, blocks.drop_last(), inputs),
            None => None,
        }
    }
}

/// The content after filling its output blocks from the inputs, with a
/// final `'\n'` where the content had one.
pub open spec fn filled(content: Seq<char>, blocks: Seq<BlockView>, inputs: Seq<RoleView>) -> Option<
    Seq<char>,
> {
    match filled_lines(lines_of(content), blocks, inputs) {
        Some(l) => Some(
            join_nl(l) + if ends_nl(content) {
                seq!['\n']
            } else {
                seq![]
            },
        ),
        None => None,
    }
}

/// The content of the first input role that matches the output role.
fn find_filling(inputs: &[&BlockRole], out: &BlockRole) -> (r: Option<Vec<char>>)
    ensures
        match r {
            Some(v) => filling(role_views(inputs@), out@) == Some(v@),
            None => filling(role_views(inputs@), out@) is None,
        },
{
    let ghost iv = role_views(inputs@);
    let mut i: usize = 0;
    while i < inputs.len()
        invariant
            i <= inputs.len(),
            iv == role_views(inputs@),
            first_role_match(iv, out@, 0) == first_role_match(iv, out@, i as int),
        decreases inputs.len() - i,
    {
        assert(iv[i as int] == inputs@[i as int]@);
        if role_matches_output(inputs[i], out) {
            match inputs[i] {
                BlockRole::Input { content, .. } => {
                    return Some(chars_of(content.as_str()));
                },
                _ => {
                    return None;
                },
            }
        }
        i += 1;
    }
    None
}

/// Fills the output blocks of `content` from the inputs: each block that an
/// input matches gets the content of the first such input between its
/// markers, the last block first; `None` where such a block's markers do
/// not lie within the lines of `content`.
pub fn try_inject_blocks(
    content: &str,
    output_blocks: &[crate::engine::types::MarkerBlock],
    inputs: &[&BlockRole],
) -> (r: Option<String>)
    ensures
        match r {
            Some(s) => filled(content@, block_views(output_blocks@), role_views(inputs@)) == Some(
                s@,
            ),
            None => filled(content@, block_views(output_blocks@), role_views(inputs@)) is None,
        },
{
    let ghost bv = block_views(output_blocks@);
    let ghost iv = role_views(inputs@);
    let owned = lines(content);
    let mut fills: Vec<Option<Vec<char>>> = Vec::new();
    let mut j: usize = 0;
    while j < output_blocks.len()
        invariant
            j <= output_blocks.len(),
            bv == block_views(output_blocks@),
            iv == role_views(inputs@),
            fills.len() == j,
            forall|m: int| 0 <= m < j ==> opt_chars(fills@[m]) == filling(iv, #[trigger] bv[m].role),
        decreases output_blocks.len() - j,
    {
        assert(bv[j as int] == output_blocks@[j as int]@);
        let f = find_filling(inputs, &output_blocks[j].role);
        fills.push(f);
        j += 1;
    }
    let mut lines: Vec<&[char]> = Vec::new();
    let mut k: usize = 0;
    while k < owned.len()
        invariant
            k <= owned.len(),
            slice_views(lines@) == views(owned@).take(k as int),
        decreases owned.len() - k,
    {
        let ghost before = lines@;
        let x = owned[k].as_slice();
        assert(x@ == views(owned@)[k as int]);
        lines.push(x);
        proof {
            lemma_slice_views_push(before, x);
        }
        assert(slice_views(lines@) =~= views(owned@).take(k + 1));
        k += 1;
    }
    assert(views(owned@).take(owned.len() as int) =~= views(owned@));
    let ghost l0 = slice_views(lines@);
    // Use reversed iteration to avoid changes of line number.
    let mut i: usize = output_blocks.len();
    assert(bv.take(output_blocks.len() as int) =~= bv);
    while i > 0
        invariant
            i <= output_blocks.len(),
            fills.len() == output_blocks.len(),
            bv == block_views(output_blocks@),
            iv == role_views(inputs@),
            forall|m: int|
                0 <= m < output_blocks.len() ==> opt_chars(fills@[m]) == filling(
                    iv,
                    #[trigger] bv[m].role,
                ),
            l0 == lines_of(content@),
            filled_lines(l0, bv, iv) == filled_lines(slice_views(lines@), bv.take(i as int), iv),
        decreases i,
    {
        let block = &output_blocks[i - 1];
        assert(bv.take(i as int).drop_last() =~= bv.take(i - 1));
        assert(bv.take(i as int).last() == block@);
        assert(bv[i - 1] == block@);
        match &fills[i - 1] {
            Some(v) => {
                if block.begin_line < lines.len() && block.end_line <= lines.len() {
                    lines = inject_into_a_block(lines, block.begin_line, block.end_line, v.as_slice());
                } else {
                    assert(filled_lines(slice_views(lines@), bv.take(i as int), iv) is None);
                    return None;
                }
            },
            None => {},
        }
        i -= 1;
    }
    let mut result = join_slices(&lines);
    let cs = chars_of(content);
    if cs.len() > 0 && cs[cs.len() - 1] == '\n' {
        let ghost before = result@;
        let nl: Vec<char> = vec!['\n'];
        crate::text::push_chars(&mut result, nl.as_slice());
        assert(result@ =~= before + seq!['\n']);
    } else {
        assert(result@ =~= result@ + Seq::<char>::empty());
    }
    Some(result)
}

/// The view of an optional character vector.
pub open spec fn opt_chars(o: Option<Vec<char>>) -> Option<Seq<char>> {
    match o {
        Some(v) => Some(v@),
        None => None,
    }
}

/// Fills the output blocks of `content` from the inputs: each block that an
/// input matches gets the content of the first such input between its
/// markers, the last block first.
pub fn inject_blocks(
    content: &str,
    output_blocks: &[crate::engine::types::MarkerBlock],
    inputs: &[&BlockRole],
) -> (r: String)
    requires
        filled(content@, block_views(output_blocks@), role_views(inputs@)) is Some,
    ensures
        filled(content@, block_views(output_blocks@), role_views(inputs@)) == Some(r@),
{
    match try_inject_blocks(content, output_blocks, inputs) {
        Some(s) => s,
        None => String::new(),
    }
}

// ---------------------------------------------------------------------------
// Laws of filling
// ---------------------------------------------------------------------------

/// Filling one block whose markers lie within the lines, from inputs that
/// match it, replaces the lines between its markers by the content of the
/// first matching input.
pub proof fn law_single_block_filling(c: Seq<char>, blk: BlockView, inputs: Seq<RoleView>, s: Seq<char>)
    requires
        filling(inputs, blk.role) == Some(s),
        blk.begin < lines_of(c).len(),
        blk.end <= lines_of(c).len(),
    ensures
        filled(c, seq![blk], inputs) == Some(inject_text(c, blk.begin as int, blk.end as int, s)),
{
    let blocks = seq![blk];
    let l = lines_of(c);
    assert(blocks.drop_last() =~= Seq::<BlockView>::empty());
    let l2 = inject_into(l, blk.begin as int, blk.end as int, s);
    assert(filled_lines(l2, Seq::<BlockView>::empty(), inputs) == Some(l2));
    assert(filled_lines(l, blocks, inputs) == filled_lines(l2, blocks.drop_last(), inputs));
}

/// Filling again replaces the content: filling a block from inputs that give
/// `s2`, after it was filled with `s1` (its end marker moved to just after
/// `s1`), gives what filling it from those inputs at first would have given.
/// Stated for texts none of whose lines ends with a carriage return (every
/// file whose lines end in `"\n"` or `"\r\n"`), and for an end marker that
/// is a line of the text.
pub proof fn law_refilling_replaces_content(
    c: Seq<char>,
    blk: BlockView,
    first_inputs: Seq<RoleView>,
    s1: Seq<char>,
    inputs: Seq<RoleView>,
    s2: Seq<char>,
)
    requires
        filling(first_inputs, blk.role) == Some(s1),
        filling(inputs, blk.role) == Some(s2),
        clean_lines(c),
        blk.begin < lines_of(c).len(),
        blk.end < lines_of(c).len(),
        blk.begin + 1 + split_nl(s1).len() <= usize::MAX,
    ensures
        ({
            let first = filled(c, seq![blk], first_inputs);
            let moved = BlockView {
                begin: blk.begin,
                end: (blk.begin + 1 + split_nl(s1).len()) as usize,
                role: blk.role,
            };
            &&& first is Some
            &&& filled(first->0, seq![moved], inputs) == filled(c, seq![blk], inputs)
        }),
{
    let b = blk.begin;
    let e = blk.end;
    law_single_block_filling(c, blk, first_inputs, s1);
    law_single_block_filling(c, blk, inputs, s2);
    lemma_moved_block(c, b, e, s1, s2);
    let t = inject_text(c, b as int, e as int, s1);
    let e2 = (b + 1 + split_nl(s1).len()) as usize;
    let moved = BlockView { begin: b, end: e2, role: blk.role };
    law_single_block_filling(t, moved, inputs, s2);
}

/// When no input matches any block, the lines are left as they are.
proof fn lemma_nothing_filled(ls: Seq<Seq<char>>, blocks: Seq<BlockView>, inputs: Seq<RoleView>)
    requires
        forall|i: int| 0 <= i < blocks.len() ==> filling(inputs, #[trigger] blocks[i].role) is None,
    ensures
        filled_lines(ls, blocks, inputs) == Some(ls),
    decreases blocks.len(),
{
    if blocks.len() > 0 {
        assert(filling(inputs, blocks[blocks.len() - 1].role) is None);
        lemma_nothing_filled(ls, blocks.drop_last(), inputs);
    }
}

/// Filling blocks that no input matches leaves a text as it is, where no
/// carriage return in it comes right before a newline (the lines of a text
/// lose such a carriage return).
pub proof fn law_unmatched_blocks_keep_content(c: Seq<char>, blocks: Seq<BlockView>, inputs: Seq<RoleView>)
    requires
        no_crlf(c),
        forall|i: int| 0 <= i < blocks.len() ==> filling(inputs, #[trigger] blocks[i].role) is None,
    ensures
        filled(c, blocks, inputs) == Some(c),
{
    lemma_nothing_filled(lines_of(c), blocks, inputs);
    lemma_join_lines_of_no_crlf(c);
}

/// A text that ends with a newline still does after filling.
pub proof fn law_filling_keeps_final_newline(c: Seq<char>, blocks: Seq<BlockView>, inputs: Seq<RoleView>)
    requires
        ends_nl(c),
        filled(c, blocks, inputs) is Some,
    ensures
        ends_nl(filled(c, blocks, inputs)->0),
{
}

// ---------------------------------------------------------------------------
// Several blocks
// ---------------------------------------------------------------------------

/// A block's place in a text and what replaces its inside: the line of its
/// begin marker, the line of its end marker, and the replacement (none for a
/// block that is left as it is).
pub type Span = (int, int, Option<Seq<char>>);

/// The lines from line `from` on, with the inside of each block (the lines
/// strictly between its markers, in the numbering of `l`) replaced by its
/// replacement, if any. Every other line, markers included, is kept.
pub open spec fn spliced(l: Seq<Seq<char>>, sp: Seq<Span>, from: int) -> Seq<Seq<char>>
    decreases sp.len(),
{
    if sp.len() == 0 {
        l.subrange(from, l.len() as int)
    } else {
        l.subrange(from, sp[0].0 + 1) + match sp[0].2 {
            Some(x) => seq![x],
            None => l.subrange(sp[0].0 + 1, sp[0].1),
        } + spliced(l, sp.drop_first(), sp[0].1)
    }
}

/// The blocks lie within `n` lines, each end marker after its begin marker,
/// and each block ends no later than the next one begins.
pub open spec fn spans_in_order(sp: Seq<Span>, n: int) -> bool {
    &&& forall|i: int| 0 <= i < sp.len() ==> 0 <= #[trigger] sp[i].0 < sp[i].1 <= n
    &&& forall|i: int, j: int| 0 <= i < j < sp.len() ==> #[trigger] sp[i].1 <= #[trigger] sp[j].0
}

/// The places and replacements of injecting `s` into the selected blocks.
pub open spec fn injection_spans(bs: Seq<BlockModel>, s: Seq<char>, targets: Seq<Option<Seq<char>>>) -> Seq<
    Span,
> {
    bs.map_values(
        |m: BlockModel|
            (m.begin as int, m.end as int, if selected(m.output_id, targets) {
                Some(s)
            } else {
                None
            }),
    )
}

/// The places and replacements of filling the blocks from the inputs.
pub open spec fn filling_spans(bs: Seq<BlockView>, inputs: Seq<RoleView>) -> Seq<Span> {
    bs.map_values(|b: BlockView| (b.begin as int, b.end as int, filling(inputs, b.role)))
}

/// Replacing the insides of the blocks one at a time, the last block first.
spec fn replaced_from_last(l: Seq<Seq<char>>, sp: Seq<Span>) -> Option<Seq<Seq<char>>>
    decreases sp.len(),
{
    if sp.len() == 0 {
        Some(l)
    } else {
        let (b, e, r) = sp.last();
        let next = match r {
            Some(x) => if 0 <= b < l.len() && e <= l.len() {
                Some(inject_into(l, b, e, x))
            } else {
                None
            },
            None => Some(l),
        };
        match next {
            Some(l2) => replaced_from_last(l2, sp.drop_last()),
            None => None,
        }
    }
}

proof fn lemma_injected_lines_spans(
    l: Seq<Seq<char>>,
    bs: Seq<BlockModel>,
    s: Seq<char>,
    targets: Seq<Option<Seq<char>>>,
)
    ensures
        injected_lines(l, bs, s, targets) == replaced_from_last(l, injection_spans(bs, s, targets)),
    decreases bs.len(),
{
    if bs.len() > 0 {
        let sp = injection_spans(bs, s, targets);
        assert(sp.drop_last() =~= injection_spans(bs.drop_last(), s, targets));
        assert(sp.last() == sp[bs.len() - 1]);
        let blk = bs.last();
        let l2 = if selected(blk.output_id, targets) {
            inject_into(l, blk.begin as int, blk.end as int, s)
        } else {
            l
        };
        lemma_injected_lines_spans(l2, bs.drop_last(), s, targets);
    }
}

proof fn lemma_filled_lines_spans(l: Seq<Seq<char>>, bs: Seq<BlockView>, inputs: Seq<RoleView>)
    ensures
        filled_lines(l, bs, inputs) == replaced_from_last(l, filling_spans(bs, inputs)),
    decreases bs.len(),
{
    if bs.len() > 0 {
        let sp = filling_spans(bs, inputs);
        assert(sp.drop_last() =~= filling_spans(bs.drop_last(), inputs));
        assert(sp.last() == sp[bs.len() - 1]);
        let blk = bs.last();
        let l2 = match filling(inputs, blk.role) {
            Some(x) => inject_into(l, blk.begin as int, blk.end as int, x),
            None => l,
        };
        lemma_filled_lines_spans(l2, bs.drop_last(), inputs);
    }
}

/// Replacing the inside of the last block first leaves the description of
/// the others, in the numbering of the lines before, unchanged.
proof fn lemma_spliced_last(l: Seq<Seq<char>>, sp: Seq<Span>, from: int)
    requires
        sp.len() >= 1,
        spans_in_order(sp, l.len() as int),
        0 <= from <= sp[0].0 + 1,
    ensures
        ({
            let (b, e, r) = sp.last();
            let l2 = match r {
                Some(x) => inject_into(l, b, e, x),
                None => l,
            };
            spliced(l, sp, from) == spliced(l2, sp.drop_last(), from)
        }),
    decreases sp.len(),
{
    let (b, e, r) = sp.last();
    let l2 = match r {
        Some(x) => inject_into(l, b, e, x),
        None => l,
    };
    assert(0 <= sp[sp.len() - 1].0 < sp[sp.len() - 1].1 <= l.len());
    if sp.len() == 1 {
        assert(sp.drop_first() =~= Seq::<Span>::empty());
        assert(sp.drop_last() =~= Seq::<Span>::empty());
        assert(sp[0] == sp.last());
        assert(spliced(l2, sp.drop_last(), from) == l2.subrange(from, l2.len() as int));
        match r {
            Some(x) => {
                assert(l2.subrange(from, l2.len() as int) =~= l.subrange(from, b + 1) + seq![x]
                    + l.subrange(e, l.len() as int));
            },
            None => {
                assert(l.subrange(from, l.len() as int) =~= l.subrange(from, b + 1) + l.subrange(
                    b + 1,
                    e,
                ) + l.subrange(e, l.len() as int));
            },
        }
        assert(spliced(l, sp.drop_first(), e) == l.subrange(e, l.len() as int));
        assert(spliced(l, sp, from) == spliced(l2, sp.drop_last(), from));
    } else {
        let (b0, e0, r0) = sp[0];
        assert(0 <= sp[0].0 < sp[0].1 <= l.len());
        assert(sp[0].1 <= sp[sp.len() - 1].0);
        let rest = sp.drop_first();
        assert(spans_in_order(rest, l.len() as int)) by {
            assert forall|i: int| 0 <= i < rest.len() implies 0 <= #[trigger] rest[i].0 < rest[i].1
                <= l.len() by {
                assert(rest[i] == sp[i + 1]);
            }
            assert forall|i: int, j: int| 0 <= i < j < rest.len() implies #[trigger] rest[i].1
                <= #[trigger] rest[j].0 by {
                assert(rest[i] == sp[i + 1] && rest[j] == sp[j + 1]);
            }
        }
        assert(rest[0] == sp[1]);
        assert(rest.last() == sp.last());
        lemma_spliced_last(l, rest, e0);
        assert(rest.drop_last() =~= sp.drop_last().drop_first());
        assert(sp.drop_last()[0] == sp[0]);
        // Lines up to the last block's begin marker are the same in `l2`.
        assert(l2.len() >= b + 1);
        assert forall|k: int| 0 <= k <= b implies #[trigger] l2[k] == l[k] by {}
        assert(l2.subrange(from, b0 + 1) =~= l.subrange(from, b0 + 1));
        assert(l2.subrange(b0 + 1, e0) =~= l.subrange(b0 + 1, e0));
        let mid: Seq<Seq<char>> = match r0 {
            Some(x) => seq![x],
            None => l.subrange(b0 + 1, e0),
        };
        assert(spliced(l, sp, from) == l.subrange(from, b0 + 1) + mid + spliced(l, rest, e0));
        let front = sp.drop_last();
        assert(front.len() >= 1);
        assert(front.drop_first() =~= rest.drop_last());
        assert(spliced(l2, front, from) == l2.subrange(from, b0 + 1) + mid + spliced(
            l2,
            front.drop_first(),
            e0,
        ));
        assert(spliced(l, sp, from) == spliced(l2, sp.drop_last(), from));
    }
}

/// With the blocks in order, replacing the insides of the blocks one at a
/// time, the last block first, gives the lines described by `spliced`.
proof fn lemma_replaced_from_last(l: Seq<Seq<char>>, sp: Seq<Span>)
    requires
        spans_in_order(sp, l.len() as int),
    ensures
        replaced_from_last(l, sp) == Some(spliced(l, sp, 0)),
    decreases sp.len(),
{
    if sp.len() == 0 {
        assert(l.subrange(0, l.len() as int) =~= l);
    } else {
        let (b, e, r) = sp.last();
        assert(0 <= sp[sp.len() - 1].0 < sp[sp.len() - 1].1 <= l.len());
        assert(0 <= sp[0].0);
        let l2 = match r {
            Some(x) => inject_into(l, b, e, x),
            None => l,
        };
        lemma_spliced_last(l, sp, 0);
        let front = sp.drop_last();
        assert(l2.len() >= b + 1);
        assert(spans_in_order(front, l2.len() as int)) by {
            assert forall|i: int| 0 <= i < front.len() implies 0 <= #[trigger] front[i].0
                < front[i].1 <= l2.len() by {
                assert(front[i] == sp[i]);
                assert(sp[i].1 <= sp[sp.len() - 1].0);
            }
            assert forall|i: int, j: int| 0 <= i < j < front.len() implies #[trigger] front[i].1
                <= #[trigger] front[j].0 by {
                assert(front[i] == sp[i] && front[j] == sp[j]);
            }
        }
        lemma_replaced_from_last(l2, front);
    }
}

/// Injecting into several blocks in order: the lines of the result are those
/// of the text, with the inside of each selected block (the lines strictly
/// between its markers, as they are numbered in the text) replaced by `s`;
/// every other line, every marker included, is kept, in order.
pub proof fn law_injection_of_blocks_in_order(
    c: Seq<char>,
    blocks: Seq<BlockModel>,
    s: Seq<char>,
    targets: Seq<Option<Seq<char>>>,
)
    requires
        spans_in_order(injection_spans(blocks, s, targets), lines_of(c).len() as int),
    ensures
        injection(c, blocks, s, targets) == Some(
            join_nl(spliced(lines_of(c), injection_spans(blocks, s, targets), 0)) + if ends_nl(
                c,
            ) {
                seq!['\n']
            } else {
                seq![]
            },
        ),
{
    lemma_injected_lines_spans(lines_of(c), blocks, s, targets);
    lemma_replaced_from_last(lines_of(c), injection_spans(blocks, s, targets));
}

/// Filling several blocks in order: the lines of the result are those of
/// the text, with the inside of each block that an input matches (the lines
/// strictly between its markers, as they are numbered in the text) replaced
/// by the content of the first such input; every other line, every marker
/// included, is kept, in order.
pub proof fn law_filling_of_blocks_in_order(
    c: Seq<char>,
    blocks: Seq<BlockView>,
    inputs: Seq<RoleView>,
)
    requires
        spans_in_order(filling_spans(blocks, inputs), lines_of(c).len() as int),
    ensures
        filled(c, blocks, inputs) == Some(
            join_nl(spliced(lines_of(c), filling_spans(blocks, inputs), 0)) + if ends_nl(c) {
                seq!['\n']
            } else {
                seq![]
            },
        ),
{
    lemma_filled_lines_spans(lines_of(c), blocks, inputs);
    lemma_replaced_from_last(lines_of(c), filling_spans(blocks, inputs));
}

} // verus!

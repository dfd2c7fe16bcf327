//! The block segmenter: a state machine over the lines of a document that
//! seals each run of lines into a block of one kind.

use crate::patterns::{
    code_fence_delimiter, match_code_fence_delimiter, match_ordered_list_marker,
    match_unordered_list_marker, ordered_list_marker, unordered_list_marker,
};
use crate::text::{
    chars_of, lemma_run_end, lemma_views_push, lines_of, run_end, split_lines, string_of, views,
    CharClass,
};
use vstd::prelude::*;
use vstd::seq_lib::lemma_flatten_concat;

verus! {

/// The state of the segmenter, which is also the kind of the block that it is
/// gathering.
#[derive(Clone, Copy, Debug, PartialEq, Eq, Structural)]
pub enum BlockFlags {
    /// Between two code fences.
    CodeBlock,
    /// In a run of unordered list items.
    Unordered,
    /// In a run of ordered list items.
    Ordered,
    /// Anywhere else.
    Regular,
}

/// What a block is: its kind and its lines, in order.
pub struct BlockModel {
    pub kind: BlockFlags,
    pub lines: Seq<Seq<char>>,
}

/// A block of raw lines. The lines of a `Code` block are those between its
/// fences; the fences themselves belong to no block.
#[derive(Clone, Debug, PartialEq, Eq)]
pub enum UnformattedMarkdownBlock {
    OrderedList(Vec<String>),
    UnorderedList(Vec<String>),
    Code(Vec<String>),
    Regular(Vec<String>),
}

impl View for UnformattedMarkdownBlock {
    type V = BlockModel;

    open spec fn view(&self) -> BlockModel {
        match self {
            UnformattedMarkdownBlock::OrderedList(lines) => BlockModel {
                kind: BlockFlags::Ordered,
                lines: views(lines@),
            },
            UnformattedMarkdownBlock::UnorderedList(lines) => BlockModel {
                kind: BlockFlags::Unordered,
                lines: views(lines@),
            },
            UnformattedMarkdownBlock::Code(lines) => BlockModel {
                kind: BlockFlags::CodeBlock,
                lines: views(lines@),
            },
            UnformattedMarkdownBlock::Regular(lines) => BlockModel {
                kind: BlockFlags::Regular,
                lines: views(lines@),
            },
        }
    }
}

/// The blocks that sealing the gathered lines gives: one block of the state's
/// kind, but none for a regular run that gathered nothing.
pub open spec fn sealed(state: BlockFlags, gathered: Seq<Seq<char>>) -> Seq<BlockModel> {
    if state == BlockFlags::Regular && gathered.len() == 0 {
        Seq::empty()
    } else {
        seq![BlockModel { kind: state, lines: gathered }]
    }
}

/// Whether `line` can stand in a block of the given kind: a list holds the
/// lines that its marker pattern matches, a regular block the lines that are
/// neither list items nor code fence delimiters, and a code block every line
/// but a code fence delimiter.
pub open spec fn line_fits(kind: BlockFlags, line: Seq<char>) -> bool {
    match kind {
        BlockFlags::CodeBlock => !code_fence_delimiter(line),
        BlockFlags::Ordered => ordered_list_marker(line),
        BlockFlags::Unordered => unordered_list_marker(line),
        BlockFlags::Regular => !code_fence_delimiter(line) && !ordered_list_marker(line)
            && !unordered_list_marker(line),
    }
}

/// Whether each of `lines` can stand in a block of the given kind.
pub open spec fn lines_fit(kind: BlockFlags, lines: Seq<Seq<char>>) -> bool {
    forall|i: int| 0 <= i < lines.len() ==> line_fits(kind, #[trigger] lines[i])
}

/// What holds of a block of a document: its lines share its kind, and only a
/// code block can be empty.
pub open spec fn well_formed_block(block: BlockModel) -> bool {
    lines_fit(block.kind, block.lines) && (block.kind != BlockFlags::CodeBlock ==> block.lines.len()
        > 0)
}

/// One move of the segmenter: the blocks it seals, its next state, and the
/// lines gathered for the block in progress.
pub struct Move {
    pub sealed: Seq<BlockModel>,
    pub state: BlockFlags,
    pub gathered: Seq<Seq<char>>,
}

/// The move on `line` in the regular state: a code fence opens a code block
/// and is dropped, a list marker opens a list with this line as its first
/// item, and any other line joins the regular run.
pub open spec fn regular_move(gathered: Seq<Seq<char>>, line: Seq<char>) -> Move {
    if code_fence_delimiter(line) {
        Move {
            sealed: sealed(BlockFlags::Regular, gathered),
            state: BlockFlags::CodeBlock,
            gathered: Seq::empty(),
        }
    } else if ordered_list_marker(line) {
        Move {
            sealed: sealed(BlockFlags::Regular, gathered),
            state: BlockFlags::Ordered,
            gathered: seq![line],
        }
    } else if unordered_list_marker(line) {
        Move {
            sealed: sealed(BlockFlags::Regular, gathered),
            state: BlockFlags::Unordered,
            gathered: seq![line],
        }
    } else {
        Move { sealed: Seq::empty(), state: BlockFlags::Regular, gathered: gathered.push(line) }
    }
}

/// The move on `line` in a list state whose marker pattern `line` matches or
/// not: a matching line joins the list; any other line seals the list and is
/// then taken as in the regular state.
pub open spec fn list_move(
    state: BlockFlags,
    gathered: Seq<Seq<char>>,
    line: Seq<char>,
    matches: bool,
) -> Move {
    if matches {
        Move { sealed: Seq::empty(), state, gathered: gathered.push(line) }
    } else {
        let then = regular_move(Seq::empty(), line);
        Move {
            sealed: sealed(state, gathered) + then.sealed,
            state: then.state,
            gathered: then.gathered,
        }
    }
}

/// The move of the segmenter on `line`.
pub open spec fn next_move(state: BlockFlags, gathered: Seq<Seq<char>>, line: Seq<char>) -> Move {
    match state {
        BlockFlags::CodeBlock => if code_fence_delimiter(line) {
            Move {
                sealed: sealed(BlockFlags::CodeBlock, gathered),
                state: BlockFlags::Regular,
                gathered: Seq::empty(),
            }
        } else {
            Move { sealed: Seq::empty(), state: BlockFlags::CodeBlock, gathered: gathered.push(line) }
        },
        BlockFlags::Unordered => list_move(state, gathered, line, unordered_list_marker(line)),
        BlockFlags::Ordered => list_move(state, gathered, line, ordered_list_marker(line)),
        BlockFlags::Regular => regular_move(gathered, line),
    }
}

/// The blocks that the segmenter seals from line `i` on, when it stands in
/// `state` with `gathered` lines. The end of the lines seals the block in
/// progress.
pub open spec fn blocks_from(
    lines: Seq<Seq<char>>,
    i: int,
    state: BlockFlags,
    gathered: Seq<Seq<char>>,
) -> Seq<BlockModel>
    decreases lines.len() - i,
{
    if i < 0 || i >= lines.len() {
        sealed(state, gathered)
    } else {
        let m = next_move(state, gathered, lines[i]);
        m.sealed + blocks_from(lines, i + 1, m.state, m.gathered)
    }
}

/// The blocks of a document, given its lines: the segmenter starts in the
/// regular state with nothing gathered.
pub open spec fn blocks_of(lines: Seq<Seq<char>>) -> Seq<BlockModel> {
    blocks_from(lines, 0, BlockFlags::Regular, Seq::empty())
}

/// The lines of all the blocks, one block after the other.
pub open spec fn block_lines(blocks: Seq<BlockModel>) -> Seq<Seq<char>> {
    blocks.map_values(|b: BlockModel| b.lines).flatten()
}

/// The lines that are not code fence delimiters, in order.
pub open spec fn content_lines(lines: Seq<Seq<char>>) -> Seq<Seq<char>> {
    lines.filter(|line: Seq<char>| !code_fence_delimiter(line))
}

/// A line that a list marker pattern matches is no code fence delimiter.
pub proof fn lemma_list_marker_is_no_fence(line: Seq<char>)
    ensures
        ordered_list_marker(line) ==> !code_fence_delimiter(line),
        unordered_list_marker(line) ==> !code_fence_delimiter(line),
{
    lemma_run_end(line, 0, CharClass::Blank);
    if code_fence_delimiter(line) {
        assert(run_end(line, 0, CharClass::Blank) == 0);
        assert(run_end(line, 0, CharClass::Digit) == 0);
    }
}

proof fn lemma_block_lines_add(a: Seq<BlockModel>, b: Seq<BlockModel>)
    ensures
        block_lines(a + b) == block_lines(a) + block_lines(b),
{
    let f = |b: BlockModel| b.lines;
    assert((a + b).map_values(f) =~= a.map_values(f) + b.map_values(f));
    lemma_flatten_concat(a.map_values(f), b.map_values(f));
}

proof fn lemma_block_lines_sealed(state: BlockFlags, gathered: Seq<Seq<char>>)
    ensures
        block_lines(sealed(state, gathered)) == gathered,
{
    let f = |b: BlockModel| b.lines;
    let s = sealed(state, gathered);
    if s.len() == 0 {
        assert(s.map_values(f) =~= Seq::<Seq<Seq<char>>>::empty());
        assert(gathered =~= Seq::<Seq<char>>::empty());
    } else {
        assert(s.map_values(f) =~= seq![gathered]);
        seq![gathered].lemma_flatten_one_element();
    }
}

/// A move keeps every line but a code fence delimiter: the lines of the
/// blocks it seals, followed by those it has gathered, are the lines gathered
/// before, followed by `line` unless `line` is a code fence delimiter.
pub proof fn lemma_move_keeps_lines(state: BlockFlags, gathered: Seq<Seq<char>>, line: Seq<char>)
    ensures
        ({
            let m = next_move(state, gathered, line);
            block_lines(m.sealed) + m.gathered == gathered + content_lines(seq![line])
        }),
{
    let m = next_move(state, gathered, line);
    let keep = |line: Seq<char>| !code_fence_delimiter(line);
    lemma_list_marker_is_no_fence(line);
    Seq::<Seq<char>>::empty().lemma_filter_push(line, keep);
    assert(Seq::<Seq<char>>::empty().push(line) =~= seq![line]);
    assert(Seq::<Seq<char>>::empty().filter(keep) =~= Seq::<Seq<char>>::empty()) by {
        reveal(Seq::filter);
    }
    let kept = content_lines(seq![line]);
    assert(kept =~= if code_fence_delimiter(line) {
        Seq::<Seq<char>>::empty()
    } else {
        seq![line]
    });
    let none = Seq::<BlockModel>::empty();
    lemma_block_lines_sealed(BlockFlags::Regular, Seq::empty());
    assert(none =~= sealed(BlockFlags::Regular, Seq::empty()));
    lemma_block_lines_sealed(state, gathered);
    lemma_block_lines_sealed(BlockFlags::Regular, gathered);
    let then = regular_move(Seq::empty(), line);
    lemma_block_lines_add(sealed(state, gathered), then.sealed);
    assert(block_lines(m.sealed) + m.gathered =~= gathered + kept);
}

/// Segmentation is a partition: the lines of the blocks of a document, in
/// order, are the lines of the document without its code fence delimiters.
pub proof fn lemma_blocks_partition_lines(lines: Seq<Seq<char>>)
    ensures
        block_lines(blocks_of(lines)) == content_lines(lines),
{
    lemma_blocks_from_partition(lines, 0, BlockFlags::Regular, Seq::empty());
    assert(lines.skip(0) =~= lines);
    assert(Seq::<Seq<char>>::empty() + content_lines(lines) =~= content_lines(lines));
}

/// From any state, the blocks still to be sealed hold the lines gathered so
/// far and then the lines to come without their code fence delimiters.
pub proof fn lemma_blocks_from_partition(
    lines: Seq<Seq<char>>,
    i: int,
    state: BlockFlags,
    gathered: Seq<Seq<char>>,
)
    requires
        0 <= i <= lines.len(),
    ensures
        block_lines(blocks_from(lines, i, state, gathered)) == gathered + content_lines(
            lines.skip(i),
        ),
    decreases lines.len() - i,
{
    let keep = |line: Seq<char>| !code_fence_delimiter(line);
    if i >= lines.len() {
        lemma_block_lines_sealed(state, gathered);
        assert(lines.skip(i) =~= Seq::<Seq<char>>::empty());
        assert(lines.skip(i).filter(keep) =~= Seq::<Seq<char>>::empty()) by {
            reveal(Seq::filter);
        }
        assert(gathered + content_lines(lines.skip(i)) =~= gathered);
    } else {
        let m = next_move(state, gathered, lines[i]);
        lemma_move_keeps_lines(state, gathered, lines[i]);
        lemma_blocks_from_partition(lines, i + 1, m.state, m.gathered);
        lemma_block_lines_add(m.sealed, blocks_from(lines, i + 1, m.state, m.gathered));
        assert(lines.skip(i) =~= seq![lines[i]] + lines.skip(i + 1));
        Seq::filter_distributes_over_add(seq![lines[i]], lines.skip(i + 1), keep);
        assert(block_lines(blocks_from(lines, i, state, gathered)) =~= gathered + content_lines(
            lines.skip(i),
        )) by {
            assert(block_lines(m.sealed) + (m.gathered + content_lines(lines.skip(i + 1)))
                =~= (block_lines(m.sealed) + m.gathered) + content_lines(lines.skip(i + 1)));
            assert((gathered + content_lines(seq![lines[i]])) + content_lines(lines.skip(i + 1))
                =~= gathered + (content_lines(seq![lines[i]]) + content_lines(lines.skip(i + 1))));
        }
    }
}

/// Every block of a document is well formed.
pub proof fn lemma_blocks_well_formed(lines: Seq<Seq<char>>)
    ensures
        forall|k: int|
            0 <= k < blocks_of(lines).len() ==> well_formed_block(#[trigger] blocks_of(lines)[k]),
{
    lemma_blocks_from_well_formed(lines, 0, BlockFlags::Regular, Seq::empty());
}

/// From a state whose gathered lines share its kind, with at least one line
/// gathered in a list state, every block still to be sealed is well formed.
pub proof fn lemma_blocks_from_well_formed(
    lines: Seq<Seq<char>>,
    i: int,
    state: BlockFlags,
    gathered: Seq<Seq<char>>,
)
    requires
        0 <= i <= lines.len(),
        lines_fit(state, gathered),
        state == BlockFlags::Ordered || state == BlockFlags::Unordered ==> gathered.len() > 0,
    ensures
        forall|k: int|
            0 <= k < blocks_from(lines, i, state, gathered).len() ==> well_formed_block(
                #[trigger] blocks_from(lines, i, state, gathered)[k],
            ),
    decreases lines.len() - i,
{
    if i < lines.len() {
        let line = lines[i];
        let m = next_move(state, gathered, line);
        lemma_list_marker_is_no_fence(line);
        assert(lines_fit(m.state, m.gathered));
        assert(forall|k: int| 0 <= k < m.sealed.len() ==> well_formed_block(#[trigger] m.sealed[k]));
        lemma_blocks_from_well_formed(lines, i + 1, m.state, m.gathered);
        let rest = blocks_from(lines, i + 1, m.state, m.gathered);
        assert forall|k: int| 0 <= k < (m.sealed + rest).len() implies well_formed_block(
            #[trigger] (m.sealed + rest)[k],
        ) by {
            if k >= m.sealed.len() {
                assert((m.sealed + rest)[k] == rest[k - m.sealed.len()]);
            }
        }
    } else {
        assert(forall|k: int|
            0 <= k < sealed(state, gathered).len() ==> well_formed_block(
                #[trigger] sealed(state, gathered)[k],
            ));
    }
}

/// Seals `gathered` into a block of the state's kind and appends it to
/// `blocks`; a regular run that gathered nothing leaves `blocks` as it is.
fn seal_into(blocks: &mut Vec<UnformattedMarkdownBlock>, state: BlockFlags, gathered: Vec<String>)
    ensures
        views(final(blocks)@) == views(old(blocks)@) + sealed(state, views(gathered@)),
{
    let ghost before = blocks@;
    match state {
        BlockFlags::Regular => {
            if gathered.len() == 0 {
                return ;
            }
            let block = UnformattedMarkdownBlock::Regular(gathered);
            proof {
                lemma_views_push(before, block);
            }
            blocks.push(block);
        },
        BlockFlags::CodeBlock => {
            let block = UnformattedMarkdownBlock::Code(gathered);
            proof {
                lemma_views_push(before, block);
            }
            blocks.push(block);
        },
        BlockFlags::Ordered => {
            let block = UnformattedMarkdownBlock::OrderedList(gathered);
            proof {
                lemma_views_push(before, block);
            }
            blocks.push(block);
        },
        BlockFlags::Unordered => {
            let block = UnformattedMarkdownBlock::UnorderedList(gathered);
            proof {
                lemma_views_push(before, block);
            }
            blocks.push(block);
        },
    }
}

/// Splits a document into its blocks.
///
/// The document is taken line by line through the segmenter's state machine.
/// Every line ends up in exactly one block, in order, but for the code fence
/// delimiters, which open and close the code blocks and belong to none.
pub fn split_markdown_into_blocks(markdown: String) -> (blocks: Vec<UnformattedMarkdownBlock>)
    ensures
        views(blocks@) == blocks_of(lines_of(markdown@)),
        block_lines(views(blocks@)) == content_lines(lines_of(markdown@)),
        forall|k: int| 0 <= k < blocks.len() ==> well_formed_block(#[trigger] blocks[k]@),
{
    split_text_into_blocks(markdown.as_str())
}

/// Splits a document into its blocks, as `split_markdown_into_blocks` does,
/// without taking the text over.
pub fn split_text_into_blocks(markdown: &str) -> (blocks: Vec<UnformattedMarkdownBlock>)
    ensures
        views(blocks@) == blocks_of(lines_of(markdown@)),
        block_lines(views(blocks@)) == content_lines(lines_of(markdown@)),
        forall|k: int| 0 <= k < blocks.len() ==> well_formed_block(#[trigger] blocks[k]@),
{
    let text = chars_of(markdown);
    let lines = split_lines(text.as_slice());
    let mut blocks: Vec<UnformattedMarkdownBlock> = Vec::new();
    let mut block_flag = BlockFlags::Regular;
    let mut current_block: Vec<String> = Vec::new();
    let ghost all = lines_of(markdown@);
    assert(views(current_block@) =~= Seq::<Seq<char>>::empty());
    let mut i: usize = 0;
    while i < lines.len()
        invariant
            i <= lines.len(),
            views(lines@) == all,
            views(blocks@) + blocks_from(all, i as int, block_flag, views(current_block@))
                == blocks_of(all),
        decreases lines.len() - i,
    {
        let line: &Vec<char> = &lines[i];
        let ghost before = views(blocks@);
        let ghost m = next_move(block_flag, views(current_block@), line@);
        assert(all[i as int] == line@);
        let in_list: bool = match block_flag {
            BlockFlags::Ordered => match_ordered_list_marker(line.as_slice()).is_some(),
            BlockFlags::Unordered => match_unordered_list_marker(line.as_slice()).is_some(),
            _ => false,
        };
        let is_fence: bool = match_code_fence_delimiter(line.as_slice());
        let text_line = string_of(line.as_slice(), 0, line.len());
        assert(text_line@ == line@);
        proof {
            lemma_views_push(current_block@, text_line);
        }
        if in_list {
            current_block.push(text_line);
        } else if block_flag == BlockFlags::CodeBlock {
            if is_fence {
                seal_into(&mut blocks, BlockFlags::CodeBlock, current_block);
                current_block = Vec::new();
                block_flag = BlockFlags::Regular;
            } else {
                current_block.push(text_line);
            }
        } else {
            if block_flag != BlockFlags::Regular {
                seal_into(&mut blocks, block_flag, current_block);
                current_block = Vec::new();
                block_flag = BlockFlags::Regular;
            }
            if is_fence {
                seal_into(&mut blocks, BlockFlags::Regular, current_block);
                current_block = Vec::new();
                block_flag = BlockFlags::CodeBlock;
            } else if match_ordered_list_marker(line.as_slice()).is_some() {
                seal_into(&mut blocks, BlockFlags::Regular, current_block);
                current_block = Vec::new();
                current_block.push(text_line);
                block_flag = BlockFlags::Ordered;
            } else if match_unordered_list_marker(line.as_slice()).is_some() {
                seal_into(&mut blocks, BlockFlags::Regular, current_block);
                current_block = Vec::new();
                current_block.push(text_line);
                block_flag = BlockFlags::Unordered;
            } else {
                current_block.push(text_line);
            }
        }
        assert(views(current_block@) =~= m.gathered);
        assert(block_flag == m.state);
        assert(views(blocks@) =~= before + m.sealed);
        i += 1;
    }
    seal_into(&mut blocks, block_flag, current_block);
    proof {
        lemma_blocks_partition_lines(all);
        lemma_blocks_well_formed(all);
        assert forall|k: int| 0 <= k < blocks.len() implies well_formed_block(
            #[trigger] blocks[k]@,
        ) by {
            assert(blocks[k]@ == views(blocks@)[k]);
        }
    }
    blocks
}

} // verus!

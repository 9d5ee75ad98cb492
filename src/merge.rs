//! The greedy pass that packs adjacent plain paragraphs into blocks.
use vstd::prelude::*;
use crate::model::{Content, ContentBlock, Paragraph, Ruby, RubyView, blocks_view, content_wf, paragraphs_view, ruby_view};

verus! {

/// The largest combined text length, and the largest combined span count, of a merged block.
pub const MERGE_CAP: usize = 127;

/// The code unit that separates merged paragraphs.
pub const NEWLINE: u16 = 10;

/// Spans moved `k` code units further into the text.
pub open spec fn shift_ruby(rs: Seq<RubyView>, k: int) -> Seq<RubyView> {
    rs.map_values(
        |r: RubyView| RubyView { start_offset: (r.start_offset + k) as u16, length: r.length, reading: r.reading },
    )
}

/// What the pass has emitted so far, and the plain text it still holds back.
pub struct MergeState {
    pub blocks: Seq<Content>,
    pub pending: Option<(Seq<u16>, Seq<RubyView>)>,
}

/// The blocks, with whatever is held back emitted as one more unformatted block.
pub open spec fn flushed(s: MergeState) -> Seq<Content> {
    match s.pending {
        Some((t, r)) => s.blocks.push(Content::Text { text: t, ruby: r, flags: 0 }),
        None => s.blocks,
    }
}

/// Whether two unformatted paragraphs stay apart.
pub open spec fn too_large(ta: Seq<u16>, ra: Seq<RubyView>, tb: Seq<u16>, rb: Seq<RubyView>) -> bool {
    ta.len() + tb.len() > MERGE_CAP || ra.len() + rb.len() > MERGE_CAP
}

/// One paragraph through the pass.
pub open spec fn merge_step(s: MergeState, p: Content) -> MergeState {
    match p {
        Content::Image { .. } => MergeState { blocks: flushed(s).push(p), pending: None },
        Content::Text { text, ruby, flags } => {
            if flags != 0 {
                MergeState { blocks: flushed(s).push(p), pending: None }
            } else {
                match s.pending {
                    None => MergeState { blocks: s.blocks, pending: Some((text, ruby)) },
                    Some((pt, pr)) => {
                        if too_large(pt, pr, text, ruby) {
                            MergeState {
                                blocks: s.blocks.push(Content::Text { text: pt, ruby: pr, flags: 0 }),
                                pending: Some((text, ruby)),
                            }
                        } else {
                            MergeState {
                                blocks: s.blocks,
                                pending: Some(
                                    (pt.push(NEWLINE) + text, pr + shift_ruby(ruby, (pt.len() + 1) as int)),
                                ),
                            }
                        }
                    },
                }
            }
        },
    }
}

/// The state of the pass after the paragraphs `ps`.
pub open spec fn merge_prefix(ps: Seq<Content>) -> MergeState
    decreases ps.len(),
{
    if ps.len() == 0 {
        MergeState { blocks: seq![], pending: None }
    } else {
        merge_step(merge_prefix(ps.drop_last()), ps.last())
    }
}

/// The blocks that the pass makes of the paragraphs `ps`.
pub open spec fn merged(ps: Seq<Content>) -> Seq<Content> {
    flushed(merge_prefix(ps))
}


pub open spec fn pending_view(p: Option<(Vec<u16>, Vec<Ruby>)>) -> Option<(Seq<u16>, Seq<RubyView>)> {
    match p {
        Some((t, r)) => Some((t@, ruby_view(r@))),
        None => None,
    }
}

/// Emits what the pass holds back, if anything.
fn emit_pending(blocks: &mut Vec<ContentBlock>, pending: Option<(Vec<u16>, Vec<Ruby>)>)
    ensures
        blocks_view(final(blocks)@) == flushed(
            MergeState { blocks: blocks_view(old(blocks)@), pending: pending_view(pending) },
        ),
{
    if let Some((text, ruby)) = pending {
        let b = ContentBlock::Text { text, ruby, flags: 0 };
        blocks.push(b);
        assert(blocks_view(blocks@) =~= blocks_view(old(blocks)@).push(b@));
    }
}

/// Moves every span `k` code units further into the text.
fn shift_spans(ruby: &mut Vec<Ruby>, k: u16)
    requires
        forall|i: int| 0 <= i < old(ruby)@.len() ==> #[trigger] old(ruby)@[i].start_offset + k <= u16::MAX,
    ensures
        ruby_view(final(ruby)@) == shift_ruby(ruby_view(old(ruby)@), k as int),
{
    let n = ruby.len();
    for i in 0..n
        invariant
            n == ruby@.len(),
            n == old(ruby)@.len(),
            forall|j: int| 0 <= j < n ==> #[trigger] old(ruby)@[j].start_offset + k <= u16::MAX,
            forall|j: int| 0 <= j < i ==> #[trigger] ruby@[j]@ == shift_ruby(ruby_view(old(ruby)@), k as int)[j],
            forall|j: int| i <= j < n ==> #[trigger] ruby@[j] == old(ruby)@[j],
    {
        let start = ruby[i].start_offset + k;
        ruby[i].start_offset = start;
    }
    assert(ruby_view(ruby@) =~= shift_ruby(ruby_view(old(ruby)@), k as int));
}

proof fn lemma_view_push(bs: Seq<ContentBlock>, b: ContentBlock)
    ensures
        blocks_view(bs.push(b)) == blocks_view(bs).push(b@),
{
    assert(blocks_view(bs.push(b)) =~= blocks_view(bs).push(b@));
}

proof fn lemma_ruby_append(a: Seq<Ruby>, b: Seq<Ruby>)
    ensures
        ruby_view(a + b) == ruby_view(a) + ruby_view(b),
{
    assert(ruby_view(a + b) =~= ruby_view(a) + ruby_view(b));
}

/// Packs adjacent unformatted paragraphs into blocks of bounded size; a formatted
/// paragraph or an image always stands in a block of its own.
pub fn merge_paragraphs(paragraphs: Vec<Paragraph>) -> (blocks: Vec<ContentBlock>)
    requires
        forall|i: int| 0 <= i < paragraphs@.len() ==> content_wf(#[trigger] paragraphs@[i]@),
    ensures
        blocks_view(blocks@) == merged(paragraphs_view(paragraphs@)),
{
    let ghost orig = paragraphs@;
    let ghost vs = paragraphs_view(orig);
    let n = paragraphs.len();
    let mut rest = paragraphs;
    let mut rev: Vec<Paragraph> = Vec::new();
    while rest.len() > 0
        invariant
            rest@.len() + rev@.len() == n,
            n == orig.len(),
            rest@ == orig.take(rest@.len() as int),
            forall|i: int| 0 <= i < rev@.len() ==> #[trigger] rev@[i] == orig[n - 1 - i],
        decreases rest@.len(),
    {
        let p = rest.pop().unwrap();
        rev.push(p);
        assert(rest@ =~= orig.take(rest@.len() as int));
    }
    let mut blocks: Vec<ContentBlock> = Vec::new();
    let mut pending: Option<(Vec<u16>, Vec<Ruby>)> = None;
    assert(vs.take(0) =~= Seq::<Content>::empty());
    assert(blocks_view(blocks@) =~= Seq::<Content>::empty());
    while rev.len() > 0
        invariant
            rev@.len() <= n,
            n == orig.len(),
            vs == paragraphs_view(orig),
            forall|i: int| 0 <= i < rev@.len() ==> #[trigger] rev@[i] == orig[n - 1 - i],
            forall|i: int| 0 <= i < orig.len() ==> content_wf(#[trigger] orig[i]@),
            merge_prefix(vs.take(n - rev@.len())) == (MergeState {
                blocks: blocks_view(blocks@),
                pending: pending_view(pending),
            }),
        decreases rev@.len(),
    {
        let ghost k = n - rev@.len();
        let ghost before = merge_prefix(vs.take(k));
        let paragraph = rev.pop().unwrap();
        proof {
            assert(paragraph == orig[k]);
            assert(vs.take(k + 1).drop_last() =~= vs.take(k));
            assert(vs.take(k + 1).last() == paragraph@);
            assert(content_wf(orig[k]@));
        }
        match paragraph {
            Paragraph::Image { index } => {
                emit_pending(&mut blocks, pending);
                pending = None;
                let b = ContentBlock::Image { index };
                proof { lemma_view_push(blocks@, b); }
                blocks.push(b);
            },
            Paragraph::Text { text, ruby, flags } => {
                if flags != 0 {
                    emit_pending(&mut blocks, pending);
                    pending = None;
                    let b = ContentBlock::Text { text, ruby, flags };
                    proof { lemma_view_push(blocks@, b); }
                    blocks.push(b);
                } else {
                    match pending {
                        None => {
                            pending = Some((text, ruby));
                        },
                        Some((mut pt, mut pr)) => {
                            if pt.len() > MERGE_CAP || text.len() > MERGE_CAP - pt.len()
                                || pr.len() > MERGE_CAP || ruby.len() > MERGE_CAP - pr.len() {
                                let b = ContentBlock::Text { text: pt, ruby: pr, flags: 0 };
                                proof { lemma_view_push(blocks@, b); }
                                blocks.push(b);
                                pending = Some((text, ruby));
                            } else {
                                let ghost pt0 = pt@;
                                let ghost pr0 = pr@;
                                pt.push(NEWLINE);
                                let shift = pt.len() as u16;
                                let mut text = text;
                                let mut ruby = ruby;
                                let ghost rv = ruby_view(ruby@);
                                proof {
                                    assert forall|i: int| 0 <= i < ruby@.len() implies #[trigger] ruby@[i].start_offset + shift <= u16::MAX by {
                                        assert(rv[i].start_offset <= text@.len());
                                    }
                                }
                                pt.append(&mut text);
                                shift_spans(&mut ruby, shift);
                                let ghost shifted = ruby@;
                                pr.append(&mut ruby);
                                proof { lemma_ruby_append(pr0, shifted); }
                                pending = Some((pt, pr));
                            }
                        },
                    }
                }
            },
        }
    }
    emit_pending(&mut blocks, pending);
    proof { assert(vs.take(n as int) =~= vs); }
    blocks
}

/// Formatted paragraphs are never merged: each comes out as a block of its own,
/// with its text and its spans exactly as they went in.
pub proof fn lemma_formatted_stay_apart(ps: Seq<Content>)
    requires
        forall|i: int| 0 <= i < ps.len() ==> (#[trigger] ps[i]) is Text && ps[i]->Text_flags != 0,
    ensures
        merged(ps) == ps,
    decreases ps.len(),
{
    if ps.len() > 0 {
        lemma_formatted_stay_apart(ps.drop_last());
        assert(ps.drop_last().push(ps.last()) =~= ps);
    }
    assert(merge_prefix(ps).pending is None);
}

/// Two unformatted paragraphs that fit together become one block: the first text,
/// a newline and the second text, with the second paragraph's spans moved past the
/// first text and the newline.
pub proof fn lemma_merge_two(ta: Seq<u16>, ra: Seq<RubyView>, tb: Seq<u16>, rb: Seq<RubyView>)
    requires
        ta.len() + tb.len() + 1 <= MERGE_CAP,
        ra.len() + rb.len() <= MERGE_CAP,
    ensures
        merged(seq![Content::Text { text: ta, ruby: ra, flags: 0 }, Content::Text { text: tb, ruby: rb, flags: 0 }])
            == seq![Content::Text { text: ta.push(NEWLINE) + tb, ruby: ra + shift_ruby(rb, ta.len() + 1int), flags: 0 }],
{
    let ps = seq![Content::Text { text: ta, ruby: ra, flags: 0 }, Content::Text { text: tb, ruby: rb, flags: 0 }];
    assert(ps.drop_last() =~= seq![ps[0]]);
    assert(ps.drop_last().drop_last() =~= Seq::<Content>::empty());
    assert(merge_prefix(seq![ps[0]]) == merge_step(merge_prefix(Seq::<Content>::empty()), ps[0])) by {
        assert(seq![ps[0]].drop_last() =~= Seq::<Content>::empty());
    }
    assert(flushed(MergeState { blocks: seq![], pending: Some((ta.push(NEWLINE) + tb, ra + shift_ruby(rb, ta.len() + 1int))) })
        =~= seq![Content::Text { text: ta.push(NEWLINE) + tb, ruby: ra + shift_ruby(rb, ta.len() + 1int), flags: 0 }]);
}

/// Two unformatted paragraphs whose texts together are longer than the cap are
/// never merged: they come out as two blocks, unchanged.
pub proof fn lemma_long_pair_stays_apart(ta: Seq<u16>, ra: Seq<RubyView>, tb: Seq<u16>, rb: Seq<RubyView>)
    requires
        ta.len() + tb.len() > MERGE_CAP,
    ensures
        merged(seq![Content::Text { text: ta, ruby: ra, flags: 0 }, Content::Text { text: tb, ruby: rb, flags: 0 }])
            == seq![Content::Text { text: ta, ruby: ra, flags: 0 }, Content::Text { text: tb, ruby: rb, flags: 0 }],
{
    let ps = seq![Content::Text { text: ta, ruby: ra, flags: 0 }, Content::Text { text: tb, ruby: rb, flags: 0 }];
    assert(ps.drop_last() =~= seq![ps[0]]);
    assert(merge_prefix(seq![ps[0]]) == merge_step(merge_prefix(Seq::<Content>::empty()), ps[0])) by {
        assert(seq![ps[0]].drop_last() =~= Seq::<Content>::empty());
    }
    assert(merged(ps) =~= ps);
}

} // verus!

//! The grammar of a paragraph: how a run of tokens falls into math
//! regions, commands and text runs, and which nodes these become.

use vstd::prelude::*;

use crate::key::Key;
use crate::math_expr::{first_is, lemma_marker_prefix, MathDisc, MathExprView};
use crate::node::NodeView;
use crate::result_map::ArenaView;
use crate::tex_char::TexChar;
use crate::tex_chars::{content_text, fold_breaks, squeeze, strip_head, strip_tail};
use crate::text::alphabetic;

verus! {

/// How many tokens of `tokens` come before the first place at which the
/// closing marker of `disc` stands: all of them where it stands nowhere.
pub open spec fn math_body_len(disc: MathDisc, tokens: Seq<TexChar>) -> nat
    decreases tokens.len(),
{
    if tokens.len() == 0 || disc.ends(tokens) {
        0
    } else {
        1 + math_body_len(disc, tokens.drop_first())
    }
}

/// Whether a region of style `disc` whose opening marker was just read
/// is closed in `tokens`.
pub open spec fn math_closed(disc: MathDisc, tokens: Seq<TexChar>) -> bool {
    disc.ends(tokens.skip(math_body_len(disc, tokens) as int))
}

/// The node of the region of style `disc` that `tokens` continues.
pub open spec fn math_node(disc: MathDisc, tokens: Seq<TexChar>) -> NodeView {
    NodeView::MathExpr(
        MathExprView {
            matched: math_closed(disc, tokens),
            disc,
            content: content_text(tokens.take(math_body_len(disc, tokens) as int)),
        },
    )
}

/// How many tokens the region of style `disc` that `tokens` continues
/// takes: its body and, where it is closed, its closing marker.
pub open spec fn math_len(disc: MathDisc, tokens: Seq<TexChar>) -> nat {
    if math_closed(disc, tokens) {
        math_body_len(disc, tokens) + disc.marker_len()
    } else {
        math_body_len(disc, tokens)
    }
}

/// Whether `token` is a character with the property Alphabetic.
pub open spec fn is_letter(token: TexChar) -> bool {
    token matches TexChar::Char(c) && alphabetic(c)
}

/// How many letters `tokens` begins with.
pub open spec fn name_len(tokens: Seq<TexChar>) -> nat
    decreases tokens.len(),
{
    if tokens.len() > 0 && is_letter(tokens[0]) {
        1 + name_len(tokens.drop_first())
    } else {
        0
    }
}

/// How many tokens the command that `tokens` begins with takes: its
/// first token and the letters that follow.
pub open spec fn command_len(tokens: Seq<TexChar>) -> nat {
    1 + name_len(tokens.drop_first())
}

/// The node of the command that `tokens` begins with.
pub open spec fn command_node(tokens: Seq<TexChar>) -> NodeView {
    NodeView::InlineCommand(Some(content_text(tokens.take(command_len(tokens) as int))))
}

/// Whether `tokens` begins with a token of a text run: it is not empty,
/// opens no math region and does not begin with a backslash.
pub open spec fn text_ahead(tokens: Seq<TexChar>) -> bool {
    &&& tokens.len() > 0
    &&& MathDisc::begin_of(tokens) is None
    &&& !first_is(tokens, TexChar::Backslash)
}

/// How many tokens the text run that `tokens` begins with has.
pub open spec fn text_len(tokens: Seq<TexChar>) -> nat
    decreases tokens.len(),
{
    if text_ahead(tokens) {
        1 + text_len(tokens.drop_first())
    } else {
        0
    }
}

/// The nodes of a text run: one of its normalized text, or none where
/// that text is empty.
pub open spec fn text_nodes(run: Seq<TexChar>) -> Seq<NodeView> {
    if content_text(run).len() > 0 {
        seq![NodeView::RawString(content_text(run))]
    } else {
        Seq::empty()
    }
}

/// How many tokens the first unit of `tokens` takes. Where `tokens` is
/// not empty this is at least one and at most all of them.
pub open spec fn unit_len(tokens: Seq<TexChar>) -> nat {
    if let Some(disc) = MathDisc::begin_of(tokens) {
        disc.marker_len() + math_len(disc, tokens.skip(disc.marker_len() as int))
    } else if first_is(tokens, TexChar::Backslash) {
        command_len(tokens)
    } else {
        text_len(tokens)
    }
}

/// The nodes of the first unit of `tokens`: a math region where one
/// opens, else a command where a backslash stands, else a text run.
pub open spec fn unit_nodes(tokens: Seq<TexChar>) -> Seq<NodeView> {
    if let Some(disc) = MathDisc::begin_of(tokens) {
        seq![math_node(disc, tokens.skip(disc.marker_len() as int))]
    } else if first_is(tokens, TexChar::Backslash) {
        seq![command_node(tokens)]
    } else {
        text_nodes(tokens.take(text_len(tokens) as int))
    }
}

/// The nodes of the units of a paragraph, in textual order.
pub open spec fn units(tokens: Seq<TexChar>) -> Seq<NodeView>
    decreases tokens.len(),
    via units_decreases
{
    if tokens.len() == 0 {
        Seq::empty()
    } else {
        unit_nodes(tokens) + units(tokens.skip(unit_len(tokens) as int))
    }
}

/// The first unit takes at least one token, so what is left for the
/// units after it is shorter.
#[via_fn]
pub proof fn units_decreases(tokens: Seq<TexChar>) {
    if tokens.len() > 0 {
        lemma_unit_len_bounds(tokens);
    }
}

/// A math region takes no more tokens than there are.
pub proof fn lemma_math_body_len_bound(disc: MathDisc, tokens: Seq<TexChar>)
    ensures
        math_body_len(disc, tokens) <= tokens.len(),
        math_len(disc, tokens) <= tokens.len(),
    decreases tokens.len(),
{
    if tokens.len() == 0 || disc.ends(tokens) {
        assert(tokens.skip(0) =~= tokens);
    } else {
        let rest = tokens.drop_first();
        lemma_math_body_len_bound(disc, rest);
        let n = math_body_len(disc, rest) as int;
        assert(rest.skip(n) =~= tokens.skip(n + 1));
    }
}

/// A name has no more letters than there are tokens.
pub proof fn lemma_name_len_bound(tokens: Seq<TexChar>)
    ensures
        name_len(tokens) <= tokens.len(),
    decreases tokens.len(),
{
    if tokens.len() > 0 && is_letter(tokens[0]) {
        lemma_name_len_bound(tokens.drop_first());
    }
}

/// A text run has no more tokens than there are.
pub proof fn lemma_text_len_bound(tokens: Seq<TexChar>)
    ensures
        text_len(tokens) <= tokens.len(),
    decreases tokens.len(),
{
    if text_ahead(tokens) {
        lemma_text_len_bound(tokens.drop_first());
    }
}

/// The first unit of a sequence that is not empty takes at least one of
/// its tokens and at most all of them.
pub proof fn lemma_unit_len_bounds(tokens: Seq<TexChar>)
    requires
        tokens.len() > 0,
    ensures
        1 <= unit_len(tokens) <= tokens.len(),
{
    lemma_marker_prefix(tokens);
    if let Some(disc) = MathDisc::begin_of(tokens) {
        lemma_math_body_len_bound(disc, tokens.skip(disc.marker_len() as int));
    } else if first_is(tokens, TexChar::Backslash) {
        lemma_name_len_bound(tokens.drop_first());
    } else {
        lemma_text_len_bound(tokens);
    }
}

/// The arena of the one entry `node` under `key`.
pub open spec fn leaf(key: Key, node: NodeView) -> ArenaView {
    ArenaView { root: key, entries: Map::<Key, NodeView>::empty().insert(key, node) }
}

/// Whether `token` can stand in a text run: it is neither a dollar nor
/// a backslash.
pub open spec fn is_plain(token: TexChar) -> bool {
    token != TexChar::Dollar && token != TexChar::Backslash
}

/// A text run goes on exactly where a plain token stands next.
pub proof fn lemma_text_ahead_plain(tokens: Seq<TexChar>)
    ensures
        text_ahead(tokens) <==> tokens.len() > 0 && is_plain(tokens[0]),
{
    lemma_marker_prefix(tokens);
}

/// Plain tokens up to the end of the input, or up to a token that is
/// not plain, are the text run that the input begins with.
pub proof fn lemma_text_len_run(run: Seq<TexChar>, rest: Seq<TexChar>)
    requires
        forall|i: int| 0 <= i < run.len() ==> is_plain(#[trigger] run[i]),
        rest.len() == 0 || !is_plain(rest[0]),
    ensures
        text_len(run + rest) == run.len(),
    decreases run.len(),
{
    let all = run + rest;
    lemma_text_ahead_plain(all);
    if run.len() == 0 {
        assert(all =~= rest);
    } else {
        assert(all[0] == run[0]);
        lemma_text_len_run(run.drop_first(), rest);
        assert(all.drop_first() =~= run.drop_first() + rest);
    }
}

/// A run of plain tokens, followed by the end of the input or by a token
/// that is not plain, is one text unit.
pub proof fn lemma_text_run(run: Seq<TexChar>, rest: Seq<TexChar>)
    requires
        forall|i: int| 0 <= i < run.len() ==> is_plain(#[trigger] run[i]),
        rest.len() == 0 || !is_plain(rest[0]),
    ensures
        units(run + rest) == text_nodes(run) + units(rest),
{
    let all = run + rest;
    if run.len() == 0 {
        assert(all =~= rest);
        assert(strip_head(run) =~= run);
        assert(strip_tail(run) =~= run);
        assert(fold_breaks(run) =~= run);
        assert(squeeze(run) =~= run);
        assert(content_text(run).len() == 0);
        assert(text_nodes(run) + units(rest) =~= units(rest));
    } else {
        assert(all[0] == run[0]);
        lemma_text_ahead_plain(all);
        lemma_marker_prefix(all);
        lemma_text_len_run(run, rest);
        assert(all.take(run.len() as int) =~= run);
        assert(all.skip(run.len() as int) =~= rest);
    }
}

/// The keys of the units of a paragraph whose own key has the number
/// `first`: the `count` keys that follow it.
pub open spec fn unit_keys(first: nat, count: nat) -> Seq<Key> {
    Seq::new(count, |i: int| Key::at((first + 1 + i) as nat))
}

/// The arena of the paragraph `tokens` whose keys are drawn from the
/// number `first` on: the paragraph under the first key, its units under
/// the keys that follow, in textual order.
pub open spec fn paragraph_arena(tokens: Seq<TexChar>, first: nat) -> ArenaView {
    let nodes = units(tokens);
    ArenaView {
        root: Key::at(first),
        entries: Map::new(
            |key: Key| first <= key.value <= first + nodes.len(),
            |key: Key|
                if key.value == first {
                    NodeView::Paragraph(Some(unit_keys(first, nodes.len())))
                } else {
                    nodes[key.value - first - 1]
                },
        ),
    }
}

/// A paragraph has no more units than tokens.
pub proof fn lemma_units_fit(tokens: Seq<TexChar>)
    ensures
        units(tokens).len() <= tokens.len(),
    decreases tokens.len(),
{
    if tokens.len() > 0 {
        lemma_unit_len_bounds(tokens);
        lemma_units_fit(tokens.skip(unit_len(tokens) as int));
    }
}

} // verus!

//! Outlines drawn by the `ptree` crate: a text with the outlines below it.

use vstd::prelude::*;
use ptree::item::StringItem;
use ptree::TreeBuilder;

verus! {

/// `ptree::TreeBuilder`: an outline under construction. Nothing is known of
/// it but the outline it holds and how many of its children are begun.
#[verifier::external_type_specification]
#[verifier::external_body]
pub struct ExTreeBuilder(TreeBuilder);

/// `ptree::item::StringItem`: an outline as `ptree` draws it. Nothing is
/// known of it but the outline it is.
#[verifier::external_type_specification]
#[verifier::external_body]
pub struct ExStringItem(StringItem);

/// An outline as plain values: a text and the outlines below it, in order.
pub struct OutlineModel {
    pub text: Seq<char>,
    pub children: Seq<OutlineModel>,
}

/// The outline that a builder holds.
pub uninterp spec fn builder_outline(builder: TreeBuilder) -> OutlineModel;

/// How many children of a builder are begun and not ended.
pub uninterp spec fn builder_level(builder: TreeBuilder) -> nat;

/// The outline that an item is.
pub uninterp spec fn item_outline(item: StringItem) -> OutlineModel;

/// The drawing of an outline, as `ptree::write_tree_with` writes it with the
/// default settings of `ptree::PrintConfig`.
pub uninterp spec fn outline_drawing(outline: OutlineModel) -> Seq<char>;

/// An outline with nothing below it.
pub open spec fn leaf(text: Seq<char>) -> OutlineModel {
    OutlineModel { text, children: Seq::empty() }
}

/// Whether `outline` has a last child, which has a last child, and so on for
/// `level` levels.
pub open spec fn has_open(outline: OutlineModel, level: nat) -> bool
    decreases level,
{
    level == 0 || (outline.children.len() > 0 && has_open(
        outline.children.last(),
        (level - 1) as nat,
    ))
}

/// The outline with `child` added as the last child `level` levels down the
/// last children of `outline`.
pub open spec fn with_child(outline: OutlineModel, level: nat, child: OutlineModel) -> OutlineModel
    decreases level,
{
    if level == 0 {
        OutlineModel { text: outline.text, children: outline.children.push(child) }
    } else {
        OutlineModel {
            text: outline.text,
            children: outline.children.update(
                outline.children.len() - 1,
                with_child(outline.children.last(), (level - 1) as nat, child),
            ),
        }
    }
}

/// `TreeBuilder::new`: a builder that holds `text` alone, with no child begun.
#[verifier::external_body]
pub(crate) fn new_builder(text: String) -> (builder: TreeBuilder)
    ensures
        builder_outline(builder) == leaf(text@),
        builder_level(builder) == 0,
{
    TreeBuilder::new(text)
}

/// `TreeBuilder::begin_child`: adds `text` as the last child of the child
/// that was begun last, and begins it.
#[verifier::external_body]
pub(crate) fn begin_child(builder: &mut TreeBuilder, text: String)
    requires
        has_open(builder_outline(*old(builder)), builder_level(*old(builder))),
        builder_level(*old(builder)) < u32::MAX,
    ensures
        builder_outline(*final(builder)) == with_child(
            builder_outline(*old(builder)),
            builder_level(*old(builder)),
            leaf(text@),
        ),
        builder_level(*final(builder)) == builder_level(*old(builder)) + 1,
{
    builder.begin_child(text);
}

/// `TreeBuilder::end_child`: ends the child that was begun last.
#[verifier::external_body]
pub(crate) fn end_child(builder: &mut TreeBuilder)
    requires
        builder_level(*old(builder)) > 0,
    ensures
        builder_outline(*final(builder)) == builder_outline(*old(builder)),
        builder_level(*final(builder)) == builder_level(*old(builder)) - 1,
{
    builder.end_child();
}

/// `TreeBuilder::add_empty_child`: adds `text` as the last child of the
/// child that was begun last, without beginning it.
#[verifier::external_body]
pub(crate) fn add_empty_child(builder: &mut TreeBuilder, text: String)
    requires
        has_open(builder_outline(*old(builder)), builder_level(*old(builder))),
        builder_level(*old(builder)) < u32::MAX,
    ensures
        builder_outline(*final(builder)) == with_child(
            builder_outline(*old(builder)),
            builder_level(*old(builder)),
            leaf(text@),
        ),
        builder_level(*final(builder)) == builder_level(*old(builder)),
{
    builder.add_empty_child(text);
}

/// `TreeBuilder::build`: the outline that the builder holds, which stays as it is.
#[verifier::external_body]
pub(crate) fn build_outline(builder: &mut TreeBuilder) -> (item: StringItem)
    ensures
        item_outline(item) == builder_outline(*old(builder)),
        builder_outline(*final(builder)) == builder_outline(*old(builder)),
        builder_level(*final(builder)) == builder_level(*old(builder)),
{
    builder.build()
}

/// `ptree::write_tree_with` with `PrintConfig::default()`: the drawing of the outline.
#[verifier::external_body]
pub(crate) fn draw(item: &StringItem) -> (text: String)
    ensures
        text@ == outline_drawing(item_outline(*item)),
{
    let mut buffer: Vec<u8> = Vec::new();
    let _ = ptree::write_tree_with(item, &mut buffer, &ptree::PrintConfig::default());
    String::from_utf8_lossy(&buffer).into_owned()
}

/// A builder that holds `text` alone, to which the outlines of directories
/// can be added.
pub fn start_outline(text: String) -> (builder: TreeBuilder)
    ensures
        builder_outline(builder) == leaf(text@),
        builder_level(builder) == 0,
        has_open(builder_outline(builder), builder_level(builder)),
{
    new_builder(text)
}

/// The outline that a builder holds, as `ptree` draws it.
pub fn finish_outline(builder: &mut TreeBuilder) -> (item: StringItem)
    ensures
        item_outline(item) == builder_outline(*old(builder)),
        builder_outline(*final(builder)) == builder_outline(*old(builder)),
        builder_level(*final(builder)) == builder_level(*old(builder)),
{
    build_outline(builder)
}

/// The drawing of an outline.
pub fn drawing_of(item: &StringItem) -> (text: String)
    ensures
        text@ == outline_drawing(item_outline(*item)),
{
    draw(item)
}

/// An outline that is open down to a level is open down to the next one
/// once a child was added there.
pub proof fn lemma_child_opens_level(outline: OutlineModel, level: nat, child: OutlineModel)
    requires
        has_open(outline, level),
    ensures
        has_open(with_child(outline, level, child), level),
        has_open(with_child(outline, level, child), level + 1),
    decreases level,
{
    let after = with_child(outline, level, child);
    if level == 0 {
        assert(after.children.last() == child);
        assert(has_open(child, 0));
    } else {
        lemma_child_opens_level(outline.children.last(), (level - 1) as nat, child);
        assert(after.children.last() == with_child(
            outline.children.last(),
            (level - 1) as nat,
            child,
        ));
    }
}

/// Adding a child below the child that was added last changes that child alone.
pub proof fn lemma_child_of_last_child(
    outline: OutlineModel,
    level: nat,
    child: OutlineModel,
    grandchild: OutlineModel,
)
    requires
        has_open(outline, level),
    ensures
        with_child(with_child(outline, level, child), level + 1, grandchild) == with_child(
            outline,
            level,
            OutlineModel { text: child.text, children: child.children.push(grandchild) },
        ),
    decreases level,
{
    let grown = OutlineModel { text: child.text, children: child.children.push(grandchild) };
    let once = with_child(outline, level, child);
    if level == 0 {
        assert(once.children.last() == child);
        assert(with_child(child, 0, grandchild) == grown);
        assert(once.children.update(once.children.len() - 1, grown) =~= outline.children.push(
            grown,
        ));
    } else {
        let inner = outline.children.last();
        lemma_child_of_last_child(inner, (level - 1) as nat, child, grandchild);
        assert(once.children.last() == with_child(inner, (level - 1) as nat, child));
        assert(once.children.update(
            once.children.len() - 1,
            with_child(inner, (level - 1) as nat, grown),
        ) =~= outline.children.update(
            outline.children.len() - 1,
            with_child(inner, (level - 1) as nat, grown),
        ));
    }
}

} // verus!

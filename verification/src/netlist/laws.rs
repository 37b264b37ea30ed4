//! Which forms of an export a netlist does not read.
use vstd::prelude::*;

use crate::netlist::{
    any_dnp, child, child_arg, children, component_of, components_of, export_of, head, headed,
    is_dnp, netlist_of, tail,
};
use crate::sexp::{sexp_of, Tree};

verus! {

/// Items with a form put in the place of each, or nothing.
pub open spec fn reduced(items: Seq<Tree>, form: spec_fn(Tree) -> Option<Tree>) -> Seq<Tree>
    decreases items.len(),
{
    if items.len() == 0 {
        Seq::empty()
    } else {
        let rest = reduced(items.drop_last(), form);
        match form(items.last()) {
            Some(item) => rest.push(item),
            None => rest,
        }
    }
}

/// A list with the items behind its head reduced.
pub open spec fn with_reduced(tree: Tree, form: spec_fn(Tree) -> Option<Tree>) -> Tree {
    match tree {
        Tree::List(items) => if items.len() > 0 {
            Tree::List(seq![items[0]] + reduced(items.drop_first(), form))
        } else {
            tree
        },
        Tree::Atom(_) => tree,
    }
}

/// Whether a form of the export is not read: `(design …)`, `(libparts …)` and
/// `(libraries …)`.
pub open spec fn ignored_in_export(tree: Tree) -> bool {
    ||| head(tree) == Some("design"@)
    ||| head(tree) == Some("libparts"@)
    ||| head(tree) == Some("libraries"@)
}

/// Whether a form of a component is not read: `(datasheet …)`,
/// `(description …)`, `(fields …)`, `(tstamps …)` and every `(property …)`
/// but `dnp`.
pub open spec fn ignored_in_component(tree: Tree) -> bool {
    ||| head(tree) == Some("datasheet"@)
    ||| head(tree) == Some("description"@)
    ||| head(tree) == Some("fields"@)
    ||| head(tree) == Some("tstamps"@)
    ||| head(tree) == Some("property"@) && !(child_arg(tree, "name"@) matches Some(name) && is_dnp(
        name,
    ))
}

/// What of a component's sheet path is read.
pub open spec fn path_form() -> spec_fn(Tree) -> Option<Tree> {
    |tree: Tree|
        if head(tree) == Some("tstamps"@) {
            None
        } else {
            Some(tree)
        }
}

/// What of a component is read.
pub open spec fn component_form() -> spec_fn(Tree) -> Option<Tree> {
    |tree: Tree|
        if ignored_in_component(tree) {
            None
        } else if head(tree) == Some("sheetpath"@) {
            Some(with_reduced(tree, path_form()))
        } else {
            Some(tree)
        }
}

/// What of the components is read.
pub open spec fn section_form() -> spec_fn(Tree) -> Option<Tree> {
    |tree: Tree|
        if head(tree) == Some("comp"@) {
            Some(with_reduced(tree, component_form()))
        } else {
            Some(tree)
        }
}

/// What of an export is read.
pub open spec fn export_form() -> spec_fn(Tree) -> Option<Tree> {
    |tree: Tree|
        if ignored_in_export(tree) {
            None
        } else if head(tree) == Some("components"@) {
            Some(with_reduced(tree, section_form()))
        } else {
            Some(tree)
        }
}

/// An export without the forms that are not read.
pub open spec fn plain(export: Tree) -> Tree {
    with_reduced(export, export_form())
}

/// Whether a form keeps the head of whatever it is put in the place of.
spec fn keeps_heads(form: spec_fn(Tree) -> Option<Tree>) -> bool {
    forall|tree: Tree| (#[trigger] form(tree)) matches Some(item) ==> head(item) == head(tree)
}

/// A list keeps its head.
proof fn reduced_keeps_head(tree: Tree, form: spec_fn(Tree) -> Option<Tree>)
    ensures
        head(with_reduced(tree, form)) == head(tree),
        tree is List && tree->List_0.len() > 0 ==> tail(with_reduced(tree, form)) == reduced(
            tail(tree),
            form,
        ),
        head(tree) is Some ==> tree is List && tree->List_0.len() > 0,
{
    if let Tree::List(items) = tree {
        if items.len() > 0 {
            let all = seq![items[0]] + reduced(items.drop_first(), form);
            assert(all.drop_first() =~= reduced(items.drop_first(), form));
        }
    }
}

/// Items headed alike are reduced among themselves.
proof fn headed_reduces(
    items: Seq<Tree>,
    name: Seq<char>,
    form: spec_fn(Tree) -> Option<Tree>,
)
    requires
        keeps_heads(form),
    ensures
        headed(reduced(items, form), name) == reduced(headed(items, name), form),
    decreases items.len(),
{
    if items.len() > 0 {
        let (front, last) = (items.drop_last(), items.last());
        headed_reduces(front, name, form);
        let kept = headed(front, name);
        if head(last) == Some(name) {
            assert(kept.push(last).drop_last() =~= kept);
        }
        if let Some(item) = form(last) {
            let before = reduced(front, form);
            assert(before.push(item).drop_last() =~= before);
        }
    }
}

/// Every headed item is headed.
proof fn headed_are_headed(items: Seq<Tree>, name: Seq<char>)
    ensures
        forall|i: int|
            0 <= i < headed(items, name).len() ==> head(#[trigger] headed(items, name)[i]) == Some(
                name,
            ),
    decreases items.len(),
{
    if items.len() > 0 {
        headed_are_headed(items.drop_last(), name);
    }
}

/// A form that leaves every item in its place leaves one for one.
proof fn reduced_one_for_one(items: Seq<Tree>, form: spec_fn(Tree) -> Option<Tree>)
    requires
        forall|i: int| 0 <= i < items.len() ==> form(#[trigger] items[i]) is Some,
    ensures
        reduced(items, form).len() == items.len(),
        forall|i: int|
            0 <= i < items.len() ==> Some(#[trigger] reduced(items, form)[i]) == form(items[i]),
    decreases items.len(),
{
    if items.len() > 0 {
        let front = items.drop_last();
        assert forall|i: int| 0 <= i < front.len() implies form(#[trigger] front[i]) is Some by {
            assert(front[i] == items[i]);
        }
        reduced_one_for_one(front, form);
        assert(items.last() == items[items.len() - 1]);
        assert forall|i: int| 0 <= i < items.len() implies Some(#[trigger] reduced(items, form)[i])
            == form(items[i]) by {
            if i < front.len() {
                assert(reduced(items, form)[i] == reduced(front, form)[i]);
                assert(front[i] == items[i]);
            }
        }
    }
}

/// What a list's children of one name become.
proof fn children_reduce(
    tree: Tree,
    name: Seq<char>,
    form: spec_fn(Tree) -> Option<Tree>,
)
    requires
        keeps_heads(form),
        head(tree) is Some,
    ensures
        children(with_reduced(tree, form), name) == reduced(children(tree, name), form),
{
    reduced_keeps_head(tree, form);
    headed_reduces(tail(tree), name, form);
}

/// The children of a name a form leaves alone stay.
proof fn children_stay(tree: Tree, name: Seq<char>, form: spec_fn(Tree) -> Option<Tree>)
    requires
        keeps_heads(form),
        head(tree) is Some,
        forall|item: Tree| head(item) == Some(name) ==> #[trigger] form(item) == Some(item),
    ensures
        children(with_reduced(tree, form), name) == children(tree, name),
{
    children_reduce(tree, name, form);
    let found = children(tree, name);
    headed_are_headed(tail(tree), name);
    reduced_one_for_one(found, form);
    assert(reduced(found, form) =~= found);
}

/// The first child of a name a form leaves something of is what it leaves of
/// the first.
proof fn child_becomes(tree: Tree, name: Seq<char>, form: spec_fn(Tree) -> Option<Tree>)
    requires
        keeps_heads(form),
        head(tree) is Some,
        forall|item: Tree| head(item) == Some(name) ==> (#[trigger] form(item)) is Some,
    ensures
        child(with_reduced(tree, form), name) == (match child(tree, name) {
            Some(item) => form(item),
            None => None,
        }),
        child(tree, name) matches Some(item) ==> head(item) == Some(name),
{
    children_reduce(tree, name, form);
    let found = children(tree, name);
    headed_are_headed(tail(tree), name);
    reduced_one_for_one(found, form);
}

/// The forms keep heads.
proof fn forms_keep_heads()
    ensures
        keeps_heads(path_form()),
        keeps_heads(component_form()),
        keeps_heads(section_form()),
        keeps_heads(export_form()),
{
    assert forall|tree: Tree| (#[trigger] component_form()(tree)) matches Some(item) ==> head(item)
        == head(tree) by {
        reduced_keeps_head(tree, path_form());
    }
    assert forall|tree: Tree| (#[trigger] section_form()(tree)) matches Some(item) ==> head(item)
        == head(tree) by {
        reduced_keeps_head(tree, component_form());
    }
    assert forall|tree: Tree| (#[trigger] export_form()(tree)) matches Some(item) ==> head(item)
        == head(tree) by {
        reduced_keeps_head(tree, section_form());
    }
}

/// The names that are read differ from those that are not.
proof fn names_differ()
    ensures
        not_ignored("ref"@) && "ref"@ != "sheetpath"@,
        not_ignored("value"@) && "value"@ != "sheetpath"@,
        not_ignored("footprint"@) && "footprint"@ != "sheetpath"@,
        not_ignored("libsource"@) && "libsource"@ != "sheetpath"@,
        not_ignored("sheetpath"@),
        "property"@ != "sheetpath"@,
        "property"@ != "datasheet"@ && "property"@ != "description"@ && "property"@ != "fields"@
            && "property"@ != "tstamps"@,
        "names"@ != "tstamps"@,
        "version"@ != "design"@ && "version"@ != "libparts"@ && "version"@ != "libraries"@,
        "components"@ != "design"@ && "components"@ != "libparts"@ && "components"@ != "libraries"@,
        "nets"@ != "design"@ && "nets"@ != "libparts"@ && "nets"@ != "libraries"@,
        "version"@ != "components"@,
        "nets"@ != "components"@,
{
    reveal_strlit("ref");
    reveal_strlit("value");
    reveal_strlit("footprint");
    reveal_strlit("libsource");
    reveal_strlit("sheetpath");
    reveal_strlit("property");
    reveal_strlit("datasheet");
    reveal_strlit("description");
    reveal_strlit("fields");
    reveal_strlit("tstamps");
    reveal_strlit("names");
    reveal_strlit("version");
    reveal_strlit("components");
    reveal_strlit("nets");
    reveal_strlit("design");
    reveal_strlit("libparts");
    reveal_strlit("libraries");
    assert("ref"@.len() == 3);
    assert("value"@.len() == 5);
    assert("footprint"@.len() == 9);
    assert("libsource"@.len() == 9);
    assert("sheetpath"@.len() == 9);
    assert("property"@.len() == 8);
    assert("datasheet"@.len() == 9);
    assert("description"@.len() == 11);
    assert("fields"@.len() == 6);
    assert("tstamps"@.len() == 7);
    assert("names"@.len() == 5);
    assert("version"@.len() == 7);
    assert("components"@.len() == 10);
    assert("nets"@.len() == 4);
    assert("design"@.len() == 6);
    assert("libparts"@.len() == 8);
    assert("libraries"@.len() == 9);
    assert("footprint"@[0] == 'f');
    assert("libsource"@[0] == 'l');
    assert("sheetpath"@[0] == 's');
    assert("datasheet"@[0] == 'd');
}

/// Whether a component's child of a name is read.
spec fn not_ignored(name: Seq<char>) -> bool {
    name != "datasheet"@ && name != "description"@ && name != "fields"@ && name != "tstamps"@
        && name != "property"@
}

/// A component is `dnp` by the properties that are read.
proof fn dnp_is_read(properties: Seq<Tree>)
    requires
        forall|i: int|
            0 <= i < properties.len() ==> head(#[trigger] properties[i]) == Some("property"@),
    ensures
        any_dnp(reduced(properties, component_form())) == any_dnp(properties),
    decreases properties.len(),
{
    names_differ();
    if properties.len() > 0 {
        let front = properties.drop_last();
        let last = properties.last();
        assert(last == properties[properties.len() - 1]);
        assert forall|i: int| 0 <= i < front.len() implies head(#[trigger] front[i]) == Some(
            "property"@,
        ) by {
            assert(front[i] == properties[i]);
        }
        dnp_is_read(front);
        let all = reduced(properties, component_form());
        let rest = reduced(front, component_form());
        let here = child_arg(last, "name"@) matches Some(name) && is_dnp(name);
        assert(any_dnp(properties) == (any_dnp(front) || here)) by {
            if any_dnp(front) {
                let i = choose|i: int|
                    0 <= i < front.len() && (child_arg(#[trigger] front[i], "name"@) matches Some(
                        name,
                    ) && is_dnp(name));
                assert(properties[i] == front[i]);
            }
            if any_dnp(properties) && !here {
                let i = choose|i: int|
                    0 <= i < properties.len() && (child_arg(
                        #[trigger] properties[i],
                        "name"@,
                    ) matches Some(name) && is_dnp(name));
                assert(front[i] == properties[i]);
            }
        }
        if here {
            assert(component_form()(last) == Some(last));
            assert(all[all.len() - 1] == last);
        } else {
            assert(all == rest);
        }
    } else {
        assert(reduced(properties, component_form()) =~= properties);
    }
}

/// A component reads the same without the forms that are not read.
proof fn component_stays(tree: Tree)
    requires
        head(tree) is Some,
    ensures
        component_of(with_reduced(tree, component_form())) == component_of(tree),
{
    forms_keep_heads();
    names_differ();
    let form = component_form();
    children_stay(tree, "ref"@, form);
    children_stay(tree, "value"@, form);
    children_stay(tree, "footprint"@, form);
    children_stay(tree, "libsource"@, form);
    child_becomes(tree, "sheetpath"@, form);
    children_reduce(tree, "property"@, form);
    headed_are_headed(tail(tree), "property"@);
    dnp_is_read(children(tree, "property"@));
    if let Some(path) = child(tree, "sheetpath"@) {
        children_stay(path, "names"@, path_form());
    }
}

/// A list of components reads the same.
proof fn components_stay(list: Seq<Tree>)
    requires
        forall|i: int| 0 <= i < list.len() ==> head(#[trigger] list[i]) == Some("comp"@),
    ensures
        components_of(reduced(list, section_form())) == components_of(list),
    decreases list.len(),
{
    if list.len() > 0 {
        let front = list.drop_last();
        assert forall|i: int| 0 <= i < front.len() implies head(#[trigger] front[i]) == Some(
            "comp"@,
        ) by {
            assert(front[i] == list[i]);
        }
        components_stay(front);
        let last = list.last();
        assert(last == list[list.len() - 1]);
        component_stays(last);
        let rest = reduced(front, section_form());
        let item = with_reduced(last, component_form());
        assert(rest.push(item).drop_last() =~= rest);
    }
}

/// An export reads the same without the forms that are not read.
pub proof fn a_plain_export_reads_alike(export: Tree)
    ensures
        export_of(plain(export)) == export_of(export),
{
    forms_keep_heads();
    names_differ();
    let form = export_form();
    reduced_keeps_head(export, form);
    if head(export) is Some {
        children_stay(export, "version"@, form);
        children_stay(export, "nets"@, form);
        child_becomes(export, "components"@, form);
        if let Some(list) = child(export, "components"@) {
            children_reduce(list, "comp"@, section_form());
            headed_are_headed(tail(list), "comp"@);
            components_stay(children(list, "comp"@));
        }
    }
}

/// The forms that carry no meaning for an engine change nothing, wherever in
/// the export or in a component they stand: two texts that are one export
/// without them are one netlist.
pub proof fn ignored_forms_change_nothing(a: Seq<char>, b: Seq<char>)
    requires
        sexp_of(a) is Ok,
        sexp_of(b) is Ok,
        plain(sexp_of(a)->Ok_0) == plain(sexp_of(b)->Ok_0),
    ensures
        netlist_of(a) == netlist_of(b),
{
    a_plain_export_reads_alike(sexp_of(a)->Ok_0);
    a_plain_export_reads_alike(sexp_of(b)->Ok_0);
}

} // verus!

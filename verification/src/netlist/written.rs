//! Declarations written out as an export, and read back.
use vstd::prelude::*;

use crate::netlist::{
    any_dnp, arg, autogenerated, child, child_arg, children, component_of, components_of, head,
    headed, is_dnp, lower, net_name, net_of, netlist_of, nets_of, node_of, nodes_of, outcome,
    pin_name, section, sheet_path, short_label, tail, ComponentView, NetDeclView, NetlistError,
    NetlistErrorView, NetlistView, NodeView, ParsedNetlist,
};
use crate::sexp::{
    after_spaces, bare_end, escaped, item_at, items_at, line_end, quoted_reads_back, sexp_of,
    skipped, Tree,
};
use crate::text::{debug_text, starts_with};

verus! {

/// An expression as text: every atom in quotes, every list in parentheses.
pub open spec fn written(tree: Tree) -> Seq<char>
    decreases tree,
{
    match tree {
        Tree::Atom(chars) => seq!['"'] + escaped(chars) + seq!['"'],
        Tree::List(items) => seq!['('] + written_all(items) + seq![')'],
    }
}

/// Expressions as text, one behind the other.
pub open spec fn written_all(items: Seq<Tree>) -> Seq<char>
    decreases items,
{
    if items.len() == 0 {
        Seq::empty()
    } else {
        written(items[0]) + written_all(items.subrange(1, items.len() as int))
    }
}

proof fn written_starts(tree: Tree)
    ensures
        written(tree).len() >= 2,
        tree is Atom ==> written(tree)[0] == '"',
        tree is List ==> written(tree)[0] == '(',
{
}

/// Text that is no white space and no comment is not skipped.
proof fn nothing_is_skipped(chars: Seq<char>, p: int)
    requires
        0 <= p < chars.len(),
        chars[p] == '"' || chars[p] == '(' || chars[p] == ')',
    ensures
        skipped(chars, p) == p,
{
    assert(after_spaces(chars, p) == p);
}

proof fn an_item_reads_back(before: Seq<char>, tree: Tree, rest: Seq<char>)
    ensures
        item_at(before + written(tree) + rest, before.len() as int) == Ok::<
            (Tree, int),
            crate::sexp::SexpError,
        >((tree, (before.len() + written(tree).len()) as int)),
    decreases tree, 1int,
{
    let all = before + written(tree) + rest;
    let p = before.len() as int;
    written_starts(tree);
    assert(all[p] == written(tree)[0]);
    match tree {
        Tree::Atom(chars) => {
            let front = before + seq!['"'];
            quoted_reads_back(front, chars, rest);
            assert(front + escaped(chars) + seq!['"'] + rest =~= all);
        },
        Tree::List(items) => {
            let front = before + seq!['('];
            items_read_back(front, items, rest);
            assert(front + written_all(items) + seq![')'] + rest =~= all);
        },
    }
}

proof fn items_read_back(before: Seq<char>, items: Seq<Tree>, rest: Seq<char>)
    ensures
        items_at(before + written_all(items) + seq![')'] + rest, before.len() as int) == Ok::<
            (Seq<Tree>, int),
            crate::sexp::SexpError,
        >((items, (before.len() + written_all(items).len() + 1) as int)),
    decreases items, 0int,
{
    let all = before + written_all(items) + seq![')'] + rest;
    let p = before.len() as int;
    if items.len() == 0 {
        assert(all[p] == ')');
        nothing_is_skipped(all, p);
        assert(items =~= Seq::<Tree>::empty());
    } else {
        let first = items[0];
        let more = items.subrange(1, items.len() as int);
        let behind = written_all(more) + seq![')'] + rest;
        written_starts(first);
        assert(all =~= before + written(first) + behind);
        assert(all[p] == written(first)[0]);
        nothing_is_skipped(all, p);
        an_item_reads_back(before, first, behind);
        let front = before + written(first);
        items_read_back(front, more, rest);
        assert(front + written_all(more) + seq![')'] + rest =~= all);
        assert(seq![first] + more =~= items);
    }
}

/// An expression that is written out reads back as itself, whatever its atoms
/// hold.
pub proof fn expressions_read_back(items: Seq<Tree>, rest: Seq<char>)
    ensures
        sexp_of(written(Tree::List(items)) + rest) == Ok::<Tree, crate::sexp::SexpError>(
            Tree::List(items),
        ),
{
    let none = Seq::<char>::empty();
    let text = written(Tree::List(items)) + rest;
    assert(text =~= none + seq!['('] + written_all(items) + seq![')'] + rest);
    assert(text[0] == '(');
    nothing_is_skipped(text, 0);
    let front = none + seq!['('];
    items_read_back(front, items, rest);
    assert(front + written_all(items) + seq![')'] + rest =~= text);
}

/// White space and comments in front of an export are passed over.
pub proof fn a_blank_in_front_changes_nothing(blank: char, text: Seq<char>)
    requires
        blank == ' ' || blank == '\n' || blank == '\t' || blank == '\r',
    ensures
        after_spaces(seq![blank] + text, 0) == after_spaces(seq![blank] + text, 1),
        skipped(seq![blank] + text, 0) == skipped(seq![blank] + text, 1),
{
    let all = seq![blank] + text;
    assert(all[0] == blank);
    assert(after_spaces(all, 0) == after_spaces(all, 1));
    crate::sexp::skipped_advances(all, 1);
}

/// A form of a name and an atom.
pub open spec fn named(name: Seq<char>, text: Seq<char>) -> Tree {
    Tree::List(seq![Tree::Atom(name), Tree::Atom(text)])
}

/// A form of a name and other forms.
pub open spec fn form(name: Seq<char>, items: Seq<Tree>) -> Tree {
    Tree::List(seq![Tree::Atom(name)] + items)
}

/// A form of a name and an atom, where there is one.
pub open spec fn named_if(name: Seq<char>, text: Option<Seq<char>>) -> Seq<Tree> {
    match text {
        Some(chars) => seq![named(name, chars)],
        None => Seq::empty(),
    }
}

/// A net member as a form.
pub open spec fn node_form(node: NodeView) -> Tree {
    form(
        "node"@,
        seq![named("ref"@, node.reference), named("pin"@, node.pin)] + named_if(
            "pinfunction"@,
            node.pinfunction,
        ) + named_if("pintype"@, node.pintype),
    )
}

/// A net as a form.
pub open spec fn net_form(net: NetDeclView) -> Tree {
    form(
        "net"@,
        seq![named("code"@, net.code), named("name"@, net.name)] + Seq::new(
            net.nodes.len(),
            |i: int| node_form(net.nodes[i]),
        ),
    )
}

/// A component as a form.
pub open spec fn component_form(component: ComponentView) -> Tree {
    form(
        "comp"@,
        seq![
            named("ref"@, component.reference),
            named("value"@, component.value),
            named("footprint"@, component.footprint),
            form(
                "libsource"@,
                seq![named("lib"@, component.lib), named("part"@, component.part)],
            ),
            form("sheetpath"@, seq![named("names"@, component.sheetpath)]),
        ] + (if component.dnp {
            seq![form("property"@, seq![named("name"@, "dnp"@)])]
        } else {
            Seq::empty()
        }),
    )
}

/// A netlist as an export.
pub open spec fn export_form(netlist: NetlistView) -> Tree {
    form(
        "export"@,
        seq![
            named("version"@, netlist.version),
            form(
                "components"@,
                Seq::new(netlist.components.len(), |i: int| component_form(netlist.components[i])),
            ),
            form("nets"@, Seq::new(netlist.nets.len(), |i: int| net_form(netlist.nets[i]))),
        ],
    )
}

proof fn a_form_is_headed(name: Seq<char>, items: Seq<Tree>)
    ensures
        head(form(name, items)) == Some(name),
        tail(form(name, items)) == items,
{
    assert(tail(form(name, items)) =~= items);
}

proof fn a_named_form(name: Seq<char>, text: Seq<char>)
    ensures
        head(named(name, text)) == Some(name),
        arg(named(name, text)) == Some(text),
{
}

/// What is headed alike among one item and others.
proof fn headed_first(first: Tree, rest: Seq<Tree>, name: Seq<char>)
    ensures
        headed(seq![first] + rest, name) == (if head(first) == Some(name) {
            seq![first]
        } else {
            Seq::empty()
        }) + headed(rest, name),
    decreases rest.len(),
{
    reveal_with_fuel(headed, 2);
    let all = seq![first] + rest;
    let front = if head(first) == Some(name) {
        seq![first]
    } else {
        Seq::empty()
    };
    if rest.len() == 0 {
        assert(all =~= seq![first]);
        assert(all.drop_last() =~= Seq::<Tree>::empty());
        assert(headed(all, name) =~= front + headed(rest, name));
    } else {
        headed_first(first, rest.drop_last(), name);
        assert(all.drop_last() =~= seq![first] + rest.drop_last());
        assert(headed(all, name) =~= front + headed(rest, name));
    }
}

proof fn headed_none(items: Seq<Tree>, name: Seq<char>)
    requires
        forall|i: int| 0 <= i < items.len() ==> head(#[trigger] items[i]) != Some(name),
    ensures
        headed(items, name) == Seq::<Tree>::empty(),
    decreases items.len(),
{
    if items.len() > 0 {
        headed_none(items.drop_last(), name);
    }
}

proof fn headed_all(items: Seq<Tree>, name: Seq<char>)
    requires
        forall|i: int| 0 <= i < items.len() ==> head(#[trigger] items[i]) == Some(name),
    ensures
        headed(items, name) == items,
    decreases items.len(),
{
    if items.len() > 0 {
        headed_all(items.drop_last(), name);
        assert(items.drop_last().push(items.last()) =~= items);
    } else {
        assert(items =~= Seq::<Tree>::empty());
    }
}

/// The first of a list's items that is headed so, is its child of that name.
proof fn child_first(list: Seq<char>, first: Tree, rest: Seq<Tree>, name: Seq<char>)
    ensures
        head(first) == Some(name) ==> child(form(list, seq![first] + rest), name) == Some(first),
        head(first) != Some(name) ==> child(form(list, seq![first] + rest), name) == child(
            form(list, rest),
            name,
        ),
        head(first) != Some(name) ==> children(form(list, seq![first] + rest), name) == children(
            form(list, rest),
            name,
        ),
{
    headed_first(first, rest, name);
    a_form_is_headed(list, seq![first] + rest);
    a_form_is_headed(list, rest);
    if head(first) != Some(name) {
        assert(Seq::<Tree>::empty() + headed(rest, name) =~= headed(rest, name));
    } else {
        assert((seq![first] + headed(rest, name))[0] == first);
    }
}

proof fn child_of_nothing(list: Seq<char>, name: Seq<char>)
    ensures
        child(form(list, Seq::empty()), name) is None,
        children(form(list, Seq::empty()), name) == Seq::<Tree>::empty(),
{
    a_form_is_headed(list, Seq::empty());
}

/// The names of an export's forms differ.
proof fn form_names_differ()
    ensures
        "ref"@ != "pin"@ && "ref"@ != "pinfunction"@ && "ref"@ != "pintype"@,
        "pin"@ != "pinfunction"@ && "pin"@ != "pintype"@ && "pinfunction"@ != "pintype"@,
        "code"@ != "name"@ && "code"@ != "node"@ && "name"@ != "node"@,
        "ref"@ != "value"@ && "ref"@ != "footprint"@ && "ref"@ != "libsource"@ && "ref"@
            != "sheetpath"@ && "ref"@ != "property"@,
        "value"@ != "footprint"@ && "value"@ != "libsource"@ && "value"@ != "sheetpath"@
            && "value"@ != "property"@,
        "footprint"@ != "libsource"@ && "footprint"@ != "sheetpath"@ && "footprint"@
            != "property"@,
        "libsource"@ != "sheetpath"@ && "libsource"@ != "property"@ && "sheetpath"@ != "property"@,
        "lib"@ != "part"@,
        "version"@ != "components"@ && "version"@ != "nets"@ && "components"@ != "nets"@,
{
    reveal_strlit("ref");
    reveal_strlit("pin");
    reveal_strlit("pinfunction");
    reveal_strlit("pintype");
    reveal_strlit("code");
    reveal_strlit("name");
    reveal_strlit("node");
    reveal_strlit("value");
    reveal_strlit("footprint");
    reveal_strlit("libsource");
    reveal_strlit("sheetpath");
    reveal_strlit("property");
    reveal_strlit("lib");
    reveal_strlit("part");
    reveal_strlit("version");
    reveal_strlit("components");
    reveal_strlit("nets");
    assert("ref"@.len() == 3 && "ref"@[0] == 'r');
    assert("pin"@.len() == 3 && "pin"@[0] == 'p');
    assert("pinfunction"@.len() == 11);
    assert("pintype"@.len() == 7);
    assert("code"@.len() == 4 && "code"@[0] == 'c');
    assert("name"@.len() == 4 && "name"@[0] == 'n' && "name"@[1] == 'a');
    assert("node"@.len() == 4 && "node"@[0] == 'n' && "node"@[1] == 'o');
    assert("value"@.len() == 5);
    assert("footprint"@.len() == 9 && "footprint"@[0] == 'f');
    assert("libsource"@.len() == 9 && "libsource"@[0] == 'l');
    assert("sheetpath"@.len() == 9 && "sheetpath"@[0] == 's');
    assert("property"@.len() == 8);
    assert("lib"@.len() == 3);
    assert("part"@.len() == 4);
    assert("version"@.len() == 7);
    assert("components"@.len() == 10);
    assert("nets"@.len() == 4);
}

/// A member's form reads as the member: its reference is what stands behind
/// `ref`, its pin what stands behind `pin`.
pub proof fn a_node_reads_back(node: NodeView, net: Seq<char>)
    ensures
        node_of(node_form(node), net) == Ok::<NodeView, NetlistErrorView>(node),
{
    form_names_differ();
    let (r, p) = (named("ref"@, node.reference), named("pin"@, node.pin));
    let f = named_if("pinfunction"@, node.pinfunction);
    let t = named_if("pintype"@, node.pintype);
    let none = Seq::<Tree>::empty();
    let l = "node"@;
    a_named_form("ref"@, node.reference);
    a_named_form("pin"@, node.pin);
    assert(seq![r, p] + f + t =~= seq![r] + (seq![p] + (f + t)));
    child_first(l, r, seq![p] + (f + t), "ref"@);
    child_first(l, r, seq![p] + (f + t), "pin"@);
    child_first(l, r, seq![p] + (f + t), "pinfunction"@);
    child_first(l, r, seq![p] + (f + t), "pintype"@);
    child_first(l, p, f + t, "pin"@);
    child_first(l, p, f + t, "pinfunction"@);
    child_first(l, p, f + t, "pintype"@);
    if let Some(text) = node.pinfunction {
        let item = named("pinfunction"@, text);
        a_named_form("pinfunction"@, text);
        child_first(l, item, t, "pinfunction"@);
        child_first(l, item, t, "pintype"@);
    } else {
        assert(f + t =~= t);
    }
    if let Some(text) = node.pintype {
        let item = named("pintype"@, text);
        a_named_form("pintype"@, text);
        assert(t =~= seq![item] + none);
        child_first(l, item, none, "pinfunction"@);
        child_first(l, item, none, "pintype"@);
    } else {
        assert(t =~= none);
    }
    child_of_nothing(l, "pinfunction"@);
    child_of_nothing(l, "pintype"@);
}

proof fn nodes_read_back(nodes: Seq<NodeView>, forms: Seq<Tree>, net: Seq<char>)
    requires
        forms.len() == nodes.len(),
        forall|i: int| 0 <= i < nodes.len() ==> #[trigger] forms[i] == node_form(nodes[i]),
    ensures
        nodes_of(forms, net) == Ok::<Seq<NodeView>, NetlistErrorView>(nodes),
    decreases nodes.len(),
{
    if nodes.len() > 0 {
        nodes_read_back(nodes.drop_last(), forms.drop_last(), net);
        a_node_reads_back(nodes.last(), net);
        assert(forms.last() == node_form(nodes.last()));
        assert(nodes.drop_last().push(nodes.last()) =~= nodes);
    } else {
        assert(nodes =~= Seq::<NodeView>::empty());
    }
}

/// A net's form reads as the net: its code, its name, and every member in
/// order.
pub proof fn a_net_reads_back(net: NetDeclView)
    ensures
        net_of(net_form(net)) == Ok::<NetDeclView, NetlistErrorView>(net),
{
    form_names_differ();
    let (c, n) = (named("code"@, net.code), named("name"@, net.name));
    let nodes = Seq::new(net.nodes.len(), |i: int| node_form(net.nodes[i]));
    let l = "net"@;
    a_named_form("code"@, net.code);
    a_named_form("name"@, net.name);
    assert(seq![c, n] + nodes =~= seq![c] + (seq![n] + nodes));
    child_first(l, c, seq![n] + nodes, "code"@);
    child_first(l, c, seq![n] + nodes, "name"@);
    child_first(l, c, seq![n] + nodes, "node"@);
    child_first(l, n, nodes, "name"@);
    child_first(l, n, nodes, "node"@);
    a_form_is_headed(l, nodes);
    assert forall|i: int| 0 <= i < nodes.len() implies head(#[trigger] nodes[i]) == Some(
        "node"@,
    ) by {
        let node = net.nodes[i];
        a_form_is_headed(
            "node"@,
            seq![named("ref"@, node.reference), named("pin"@, node.pin)] + named_if(
                "pinfunction"@,
                node.pinfunction,
            ) + named_if("pintype"@, node.pintype),
        );
    }
    headed_all(nodes, "node"@);
    nodes_read_back(net.nodes, nodes, net.name);
}

proof fn nets_read_back(nets: Seq<NetDeclView>, forms: Seq<Tree>)
    requires
        forms.len() == nets.len(),
        forall|i: int| 0 <= i < nets.len() ==> #[trigger] forms[i] == net_form(nets[i]),
    ensures
        nets_of(forms) == Ok::<Seq<NetDeclView>, NetlistErrorView>(nets),
    decreases nets.len(),
{
    if nets.len() > 0 {
        nets_read_back(nets.drop_last(), forms.drop_last());
        a_net_reads_back(nets.last());
        assert(forms.last() == net_form(nets.last()));
        assert(nets.drop_last().push(nets.last()) =~= nets);
    } else {
        assert(nets =~= Seq::<NetDeclView>::empty());
    }
}

proof fn the_library_reads_back(component: ComponentView)
    ensures
        ({
            let source = form(
                "libsource"@,
                seq![named("lib"@, component.lib), named("part"@, component.part)],
            );
            &&& head(source) == Some("libsource"@)
            &&& child_arg(source, "lib"@) == Some(component.lib)
            &&& child_arg(source, "part"@) == Some(component.part)
        }),
{
    form_names_differ();
    let (a, b) = (named("lib"@, component.lib), named("part"@, component.part));
    let none = Seq::<Tree>::empty();
    let l = "libsource"@;
    a_named_form("lib"@, component.lib);
    a_named_form("part"@, component.part);
    assert(seq![a, b] =~= seq![a] + (seq![b] + none));
    child_first(l, a, seq![b] + none, "lib"@);
    child_first(l, a, seq![b] + none, "part"@);
    child_first(l, b, none, "part"@);
    a_form_is_headed(l, seq![a, b]);
}

proof fn one_child_reads_back(list: Seq<char>, name: Seq<char>, text: Seq<char>)
    ensures
        head(form(list, seq![named(name, text)])) == Some(list),
        child_arg(form(list, seq![named(name, text)]), name) == Some(text),
{
    let item = named(name, text);
    let none = Seq::<Tree>::empty();
    a_named_form(name, text);
    assert(seq![item] =~= seq![item] + none);
    child_first(list, item, none, name);
    a_form_is_headed(list, seq![item]);
}

/// A component's form reads as the component, field for field.
pub proof fn a_component_reads_back(component: ComponentView)
    ensures
        component_of(component_form(component)) == Ok::<ComponentView, NetlistErrorView>(component),
{
    form_names_differ();
    let l = "comp"@;
    let none = Seq::<Tree>::empty();
    let r = named("ref"@, component.reference);
    let v = named("value"@, component.value);
    let f = named("footprint"@, component.footprint);
    let s = form(
        "libsource"@,
        seq![named("lib"@, component.lib), named("part"@, component.part)],
    );
    let h = form("sheetpath"@, seq![named("names"@, component.sheetpath)]);
    let d = if component.dnp {
        seq![form("property"@, seq![named("name"@, "dnp"@)])]
    } else {
        none
    };
    a_named_form("ref"@, component.reference);
    a_named_form("value"@, component.value);
    a_named_form("footprint"@, component.footprint);
    the_library_reads_back(component);
    one_child_reads_back("sheetpath"@, "names"@, component.sheetpath);
    one_child_reads_back("property"@, "name"@, "dnp"@);
    let d4 = seq![h] + d;
    let d3 = seq![s] + d4;
    let d2 = seq![f] + d3;
    let d1 = seq![v] + d2;
    assert(seq![r, v, f, s, h] + d =~= seq![r] + d1);
    child_first(l, r, d1, "ref"@);
    child_first(l, r, d1, "value"@);
    child_first(l, r, d1, "footprint"@);
    child_first(l, r, d1, "libsource"@);
    child_first(l, r, d1, "sheetpath"@);
    child_first(l, r, d1, "property"@);
    child_first(l, v, d2, "value"@);
    child_first(l, v, d2, "footprint"@);
    child_first(l, v, d2, "libsource"@);
    child_first(l, v, d2, "sheetpath"@);
    child_first(l, v, d2, "property"@);
    child_first(l, f, d3, "footprint"@);
    child_first(l, f, d3, "libsource"@);
    child_first(l, f, d3, "sheetpath"@);
    child_first(l, f, d3, "property"@);
    child_first(l, s, d4, "libsource"@);
    child_first(l, s, d4, "sheetpath"@);
    child_first(l, s, d4, "property"@);
    child_first(l, h, d, "sheetpath"@);
    child_first(l, h, d, "property"@);
    a_form_is_headed(l, d);
    assert(any_dnp(headed(d, "property"@)) == component.dnp) by {
        if component.dnp {
            let property = form("property"@, seq![named("name"@, "dnp"@)]);
            headed_all(d, "property"@);
            assert(d[0] == property);
            a_letter_of_either_case("dnp"@);
            reveal_strlit("dnp");
            assert(is_dnp("dnp"@));
            assert(child_arg(d[0], "name"@) == Some("dnp"@));
        } else {
            assert(headed(d, "property"@) =~= none);
        }
    }
}

/// A text marks a component as not populated exactly if it is the three
/// letters, each in either case.
pub proof fn a_letter_of_either_case(text: Seq<char>)
    ensures
        is_dnp(text) <==> text.len() == 3 && (text[0] == 'd' || text[0] == 'D') && (text[1] == 'n'
            || text[1] == 'N') && (text[2] == 'p' || text[2] == 'P'),
{
    if text.len() == 3 {
        lower_is_either_case(text[0]);
        lower_is_either_case(text[1]);
        lower_is_either_case(text[2]);
    }
}

proof fn lower_is_either_case(c: char)
    ensures
        lower(c) == 'd' <==> c == 'd' || c == 'D',
        lower(c) == 'n' <==> c == 'n' || c == 'N',
        lower(c) == 'p' <==> c == 'p' || c == 'P',
{
    if 'A' <= c <= 'Z' {
        let code: u8 = c as u8;
        assert(65 <= code <= 90);
        assert((c as u8) + 32 <= 122);
    }
}

proof fn components_read_back(components: Seq<ComponentView>, forms: Seq<Tree>)
    requires
        forms.len() == components.len(),
        forall|i: int|
            0 <= i < components.len() ==> #[trigger] forms[i] == component_form(components[i]),
    ensures
        components_of(forms) == Ok::<Seq<ComponentView>, NetlistErrorView>(components),
    decreases components.len(),
{
    if components.len() > 0 {
        components_read_back(components.drop_last(), forms.drop_last());
        a_component_reads_back(components.last());
        assert(forms.last() == component_form(components.last()));
        assert(components.drop_last().push(components.last()) =~= components);
    } else {
        assert(components =~= Seq::<ComponentView>::empty());
    }
}

proof fn export_parts(netlist: NetlistView)
    ensures
        ({
            let root = export_form(netlist);
            &&& head(root) == Some("export"@)
            &&& child_arg(root, "version"@) == Some(netlist.version)
            &&& section(root, "components"@, "comp"@) == Seq::new(
                netlist.components.len(),
                |i: int| component_form(netlist.components[i]),
            )
            &&& section(root, "nets"@, "net"@) == Seq::new(
                netlist.nets.len(),
                |i: int| net_form(netlist.nets[i]),
            )
        }),
{
    form_names_differ();
    let l = "export"@;
    let none = Seq::<Tree>::empty();
    let components = Seq::new(
        netlist.components.len(),
        |i: int| component_form(netlist.components[i]),
    );
    let nets = Seq::new(netlist.nets.len(), |i: int| net_form(netlist.nets[i]));
    let v = named("version"@, netlist.version);
    let c = form("components"@, components);
    let n = form("nets"@, nets);
    a_named_form("version"@, netlist.version);
    a_form_is_headed("components"@, components);
    a_form_is_headed("nets"@, nets);
    a_form_is_headed(l, seq![v, c, n]);
    let d2 = seq![n] + none;
    let d1 = seq![c] + d2;
    assert(seq![v, c, n] =~= seq![v] + d1);
    child_first(l, v, d1, "version"@);
    child_first(l, v, d1, "components"@);
    child_first(l, v, d1, "nets"@);
    child_first(l, c, d2, "components"@);
    child_first(l, c, d2, "nets"@);
    child_first(l, n, none, "nets"@);
    assert forall|i: int| 0 <= i < components.len() implies head(#[trigger] components[i]) == Some(
        "comp"@,
    ) by {}
    headed_all(components, "comp"@);
    assert forall|i: int| 0 <= i < nets.len() implies head(#[trigger] nets[i]) == Some(
        "net"@,
    ) by {}
    headed_all(nets, "net"@);
}

/// Declarations written out as an export and parsed are the declarations,
/// field for field and in order, whatever their texts hold.
pub proof fn what_is_written_parses_back(
    netlist: NetlistView,
    rest: Seq<char>,
    r: Result<ParsedNetlist, NetlistError>,
)
    requires
        netlist.version == "E"@,
        outcome(r) == netlist_of(written(export_form(netlist)) + rest),
    ensures
        netlist_of(written(export_form(netlist)) + rest) == Ok::<NetlistView, NetlistErrorView>(
            netlist,
        ),
        r is Ok,
        ({
            let p = r->Ok_0;
            &&& p.version@ == netlist.version
            &&& p.components@.len() == netlist.components.len()
            &&& forall|i: int|
                0 <= i < p.components@.len() ==> (#[trigger] p.components@[i]).reference@
                    == netlist.components[i].reference && p.components@[i].value@
                    == netlist.components[i].value && p.components@[i].footprint@
                    == netlist.components[i].footprint && p.components@[i].lib@
                    == netlist.components[i].lib && p.components@[i].part@
                    == netlist.components[i].part && p.components@[i].sheetpath@
                    == netlist.components[i].sheetpath && p.components@[i].dnp
                    == netlist.components[i].dnp
            &&& p.nets@.len() == netlist.nets.len()
            &&& forall|i: int|
                0 <= i < p.nets@.len() ==> (#[trigger] p.nets@[i]).code@ == netlist.nets[i].code
                    && p.nets@[i].name@ == netlist.nets[i].name && p.nets@[i].nodes@.len()
                    == netlist.nets[i].nodes.len()
            &&& forall|i: int, j: int|
                0 <= i < p.nets@.len() && 0 <= j < p.nets@[i].nodes@.len() ==> {
                    let node = #[trigger] p.nets@[i].nodes@[j];
                    let wanted = netlist.nets[i].nodes[j];
                    &&& node.reference@ == wanted.reference
                    &&& node.pin@ == wanted.pin
                    &&& node.pinfunction is Some <==> wanted.pinfunction is Some
                    &&& node.pinfunction matches Some(text) ==> wanted.pinfunction == Some(text@)
                    &&& node.pintype is Some <==> wanted.pintype is Some
                    &&& node.pintype matches Some(text) ==> wanted.pintype == Some(text@)
                }
        }),
{
    let root = export_form(netlist);
    let none = Seq::<Tree>::empty();
    export_parts(netlist);
    if let Tree::List(items) = root {
        expressions_read_back(items, rest);
    }
    let components = Seq::new(
        netlist.components.len(),
        |i: int| component_form(netlist.components[i]),
    );
    let nets = Seq::new(netlist.nets.len(), |i: int| net_form(netlist.nets[i]));
    components_read_back(netlist.components, components);
    nets_read_back(netlist.nets, nets);
    let p = r->Ok_0;
    assert(p@ == netlist);
    assert forall|i: int| 0 <= i < p.components@.len() implies (
    #[trigger] p.components@[i]).reference@ == netlist.components[i].reference
        && p.components@[i].value@ == netlist.components[i].value && p.components@[i].footprint@
        == netlist.components[i].footprint && p.components@[i].lib@ == netlist.components[i].lib
        && p.components@[i].part@ == netlist.components[i].part && p.components@[i].sheetpath@
        == netlist.components[i].sheetpath && p.components@[i].dnp == netlist.components[i].dnp by {
        assert(p@.components[i] == p.components@[i]@);
    }
    assert forall|i: int| 0 <= i < p.nets@.len() implies (#[trigger] p.nets@[i]).code@
        == netlist.nets[i].code && p.nets@[i].name@ == netlist.nets[i].name
        && p.nets@[i].nodes@.len() == netlist.nets[i].nodes.len() by {
        assert(p@.nets[i] == p.nets@[i]@);
    }
    assert forall|i: int, j: int|
        0 <= i < p.nets@.len() && 0 <= j < p.nets@[i].nodes@.len() implies {
        let node = #[trigger] p.nets@[i].nodes@[j];
        let wanted = netlist.nets[i].nodes[j];
        &&& node.reference@ == wanted.reference
        &&& node.pin@ == wanted.pin
        &&& node.pinfunction is Some <==> wanted.pinfunction is Some
        &&& node.pinfunction matches Some(text) ==> wanted.pinfunction == Some(text@)
        &&& node.pintype is Some <==> wanted.pintype is Some
        &&& node.pintype matches Some(text) ==> wanted.pintype == Some(text@)
    } by {
        assert(p@.nets[i] == p.nets@[i]@);
        assert(p@.nets[i].nodes[j] == p.nets@[i].nodes@[j]@);
    }
}

/// An export of any other version is refused, and the refusal names it.
pub proof fn another_version_is_refused(
    netlist: NetlistView,
    rest: Seq<char>,
    r: Result<ParsedNetlist, NetlistError>,
)
    requires
        netlist.version != "E"@,
        outcome(r) == netlist_of(written(export_form(netlist)) + rest),
    ensures
        r matches Err(NetlistError::UnsupportedVersion { found }) && found@ == netlist.version,
{
    export_parts(netlist);
    if let Tree::List(items) = export_form(netlist) {
        expressions_read_back(items, rest);
    }
}

/// A component of a reference alone has nothing else, and is on the root
/// sheet.
pub proof fn a_bare_component_is_on_the_root_sheet(reference: Seq<char>)
    ensures
        component_of(form("comp"@, seq![named("ref"@, reference)])) == Ok::<
            ComponentView,
            NetlistErrorView,
        >(
            ComponentView {
                reference,
                value: Seq::empty(),
                footprint: Seq::empty(),
                lib: Seq::empty(),
                part: Seq::empty(),
                sheetpath: "/"@,
                dnp: false,
            },
        ),
{
    form_names_differ();
    let l = "comp"@;
    let none = Seq::<Tree>::empty();
    let r = named("ref"@, reference);
    a_named_form("ref"@, reference);
    assert(seq![r] =~= seq![r] + none);
    child_first(l, r, none, "ref"@);
    child_first(l, r, none, "value"@);
    child_first(l, r, none, "footprint"@);
    child_first(l, r, none, "libsource"@);
    child_first(l, r, none, "sheetpath"@);
    child_first(l, r, none, "property"@);
    child_of_nothing(l, "value"@);
    child_of_nothing(l, "footprint"@);
    child_of_nothing(l, "libsource"@);
    child_of_nothing(l, "sheetpath"@);
    child_of_nothing(l, "property"@);
}

/// A component without a reference, a net without a code and a member without
/// a reference or a pin are malformed, whatever else they hold.
pub proof fn what_is_missing_is_malformed(items: Seq<Tree>, net: Seq<char>)
    ensures
        (forall|i: int| 0 <= i < items.len() ==> head(#[trigger] items[i]) != Some("ref"@))
            ==> component_of(form("comp"@, items)) is Err && component_of(
            form("comp"@, items),
        )->Err_0 is Malformed && node_of(form("node"@, items), net) is Err && node_of(
            form("node"@, items),
            net,
        )->Err_0 is Malformed,
        (forall|i: int| 0 <= i < items.len() ==> head(#[trigger] items[i]) != Some("pin"@))
            ==> node_of(form("node"@, items), net) is Err && node_of(
            form("node"@, items),
            net,
        )->Err_0 is Malformed,
        (forall|i: int| 0 <= i < items.len() ==> head(#[trigger] items[i]) != Some("code"@))
            ==> net_of(form("net"@, items)) is Err && net_of(form("net"@, items))->Err_0
            is Malformed,
{
    a_form_is_headed("comp"@, items);
    a_form_is_headed("node"@, items);
    a_form_is_headed("net"@, items);
    if forall|i: int| 0 <= i < items.len() ==> head(#[trigger] items[i]) != Some("ref"@) {
        headed_none(items, "ref"@);
    }
    if forall|i: int| 0 <= i < items.len() ==> head(#[trigger] items[i]) != Some("pin"@) {
        headed_none(items, "pin"@);
    }
    if forall|i: int| 0 <= i < items.len() ==> head(#[trigger] items[i]) != Some("code"@) {
        headed_none(items, "code"@);
    }
}

/// An atom without quotes, up to what ends it, reads as itself.
pub proof fn a_bare_atom_reads_as_itself(before: Seq<char>, text: Seq<char>, rest: Seq<char>)
    requires
        text.len() > 0,
        forall|i: int|
            0 <= i < text.len() ==> (#[trigger] text[i]) != '(' && text[i] != ')' && text[i] != '"'
                && text[i] != ' ' && text[i] != '\t' && text[i] != '\n' && text[i] != '\x0C'
                && text[i] != '\r',
        rest.len() == 0 || rest[0] == '(' || rest[0] == ')' || rest[0] == '"' || rest[0] == ' '
            || rest[0] == '\n' || rest[0] == '\t' || rest[0] == '\r',
    ensures
        item_at(before + text + rest, before.len() as int) == Ok::<
            (Tree, int),
            crate::sexp::SexpError,
        >((Tree::Atom(text), (before.len() + text.len()) as int)),
{
    let all = before + text + rest;
    let p = before.len() as int;
    bare_ends(before, text, rest, 0);
    assert(all[p] == text[0]);
    assert(all.subrange(p, p + text.len()) =~= text);
}

proof fn bare_ends(before: Seq<char>, text: Seq<char>, rest: Seq<char>, i: int)
    requires
        0 <= i <= text.len(),
        forall|i: int|
            0 <= i < text.len() ==> (#[trigger] text[i]) != '(' && text[i] != ')' && text[i] != '"'
                && text[i] != ' ' && text[i] != '\t' && text[i] != '\n' && text[i] != '\x0C'
                && text[i] != '\r',
        rest.len() == 0 || rest[0] == '(' || rest[0] == ')' || rest[0] == '"' || rest[0] == ' '
            || rest[0] == '\n' || rest[0] == '\t' || rest[0] == '\r',
    ensures
        bare_end(before + text + rest, before.len() + i) == before.len() + text.len(),
    decreases text.len() - i,
{
    let all = before + text + rest;
    let p = before.len() + i;
    if i < text.len() {
        bare_ends(before, text, rest, i + 1);
        assert(all[p] == text[i]);
        assert(text[i] != '(');
    } else if rest.len() > 0 {
        assert(all[p] == rest[0]);
    }
}

/// A comment, from its semicolon to the end of its line, is passed over.
pub proof fn a_comment_is_passed_over(before: Seq<char>, words: Seq<char>, rest: Seq<char>)
    requires
        forall|i: int| 0 <= i < words.len() ==> (#[trigger] words[i]) != '\n',
    ensures
        skipped(before + seq![';'] + words + seq!['\n'] + rest, before.len() as int) == skipped(
            before + seq![';'] + words + seq!['\n'] + rest,
            (before.len() + 2 + words.len()) as int,
        ),
{
    let all = before + seq![';'] + words + seq!['\n'] + rest;
    let p = before.len() as int;
    let end = (before.len() + 1 + words.len()) as int;
    assert(all[p] == ';');
    assert(after_spaces(all, p) == p);
    comment_ends(before, words, rest, 0);
    assert(line_end(all, p + 1) == end);
    assert(all[end] == '\n');
    crate::sexp::line_advances(all, p + 1);
    assert(skipped(all, p) == skipped(all, end));
    assert(after_spaces(all, end) == after_spaces(all, end + 1));
    crate::sexp::skipped_advances(all, end + 1);
}

proof fn comment_ends(before: Seq<char>, words: Seq<char>, rest: Seq<char>, i: int)
    requires
        0 <= i <= words.len(),
        forall|i: int| 0 <= i < words.len() ==> (#[trigger] words[i]) != '\n',
    ensures
        line_end(before + seq![';'] + words + seq!['\n'] + rest, before.len() + 1 + i)
            == before.len() + 1 + words.len(),
    decreases words.len() - i,
{
    let all = before + seq![';'] + words + seq!['\n'] + rest;
    let p = before.len() + 1 + i;
    if i < words.len() {
        comment_ends(before, words, rest, i + 1);
        assert(all[p] == words[i]);
    } else {
        assert(all[p] == '\n');
    }
}

/// An overlined name loses its braces and nothing else; any other is as it is.
pub proof fn an_overline_loses_its_braces(text: Seq<char>, name: Seq<char>)
    ensures
        text.len() > 0 ==> pin_name(seq!['~', '{'] + text + seq!['}']) == seq!['~'] + text,
        name.len() > 0 && name[0] != '~' ==> pin_name(name) == name,
        name.len() > 0 && name.last() != '}' ==> pin_name(name) == name,
{
    let all = seq!['~', '{'] + text + seq!['}'];
    if text.len() > 0 {
        assert(all.last() == '}');
        assert(all.subrange(2, all.len() - 1) =~= text);
    }
}

/// A net name of a sheet path and a label is split where the label starts, its
/// path is kept as it is, and only its label is rewritten.
pub proof fn a_scoped_name_splits_at_its_label(path: Seq<char>, label: Seq<char>)
    requires
        path.len() > 0,
        path[0] == '/',
        path.last() == '/',
        forall|i: int| 0 <= i < label.len() ==> (#[trigger] label[i]) != '/',
    ensures
        sheet_path(path + label) == Some(path),
        short_label(path + label) == label,
        net_name(path + label) == path + pin_name(label),
{
    let name = path + label;
    crate::netlist::path_fits(name);
    let n = crate::netlist::path_len(name);
    assert(name[0] == path[0]);
    assert(name[path.len() - 1] == '/');
    if n > path.len() {
        assert(name[n - 1] == label[n - 1 - path.len()]);
    }
    if n < path.len() {
        assert(name[path.len() - 1] != '/');
    }
    assert(n == path.len());
    assert(name.subrange(0, n) =~= path);
    assert(name.subrange(n, name.len() as int) =~= label);
}

/// A name that starts with no slash has no sheet path, and is its own label.
pub proof fn an_unscoped_name_is_its_label(name: Seq<char>)
    requires
        name.len() == 0 || name[0] != '/',
    ensures
        sheet_path(name) is None,
        short_label(name) == name,
        net_name(name) == pin_name(name),
{
    assert(name.subrange(0, name.len() as int) =~= name);
    assert(name.subrange(0, 0) + pin_name(name) =~= pin_name(name));
}

/// A name KiCad made up is told by how its label starts.
pub proof fn a_made_up_name_is_told_by_its_start(path: Seq<char>, rest: Seq<char>, name: Seq<char>)
    requires
        path.len() == 0 || (path[0] == '/' && path.last() == '/'),
        forall|i: int| 0 <= i < rest.len() ==> (#[trigger] rest[i]) != '/',
    ensures
        autogenerated(path + ("Net-("@ + rest)),
        autogenerated(path + ("unconnected-("@ + rest)),
        short_label(name).len() == 0 || (short_label(name)[0] != 'N' && short_label(name)[0]
            != 'u') ==> !autogenerated(name),
{
    reveal_strlit("Net-(");
    reveal_strlit("unconnected-(");
    let a = "Net-("@ + rest;
    let b = "unconnected-("@ + rest;
    assert forall|i: int| 0 <= i < a.len() implies (#[trigger] a[i]) != '/' by {
        if i >= 5 {
            assert(a[i] == rest[i - 5]);
        }
    }
    assert forall|i: int| 0 <= i < b.len() implies (#[trigger] b[i]) != '/' by {
        if i >= 13 {
            assert(b[i] == rest[i - 13]);
        }
    }
    if path.len() > 0 {
        a_scoped_name_splits_at_its_label(path, a);
        a_scoped_name_splits_at_its_label(path, b);
    } else {
        assert(path + a =~= a);
        assert(path + b =~= b);
        an_unscoped_name_is_its_label(a);
        an_unscoped_name_is_its_label(b);
    }
    assert(a.subrange(0, 5) =~= "Net-("@);
    assert(b.subrange(0, 13) =~= "unconnected-("@);
    let label = short_label(name);
    if starts_with(label, "Net-("@) {
        assert(label.subrange(0, 5)[0] == label[0]);
    }
    if starts_with(label, "unconnected-("@) {
        assert(label.subrange(0, 13)[0] == label[0]);
    }
}

/// A refusal says which of the two it is, and what was found there.
pub proof fn a_refusal_says_what_was_found(version: String, message: String)
    ensures
        (NetlistError::UnsupportedVersion { found: version }).words()
            == "unsupported KiCad netlist export version "@ + debug_text(version@),
        (NetlistError::Malformed { message }).words() == "malformed KiCad netlist: "@ + message@,
{
}

} // verus!

//! KiCad netlist exports as a graph of declarations.
//!
//! Parsing is gated on `(export (version …))`. The canonical net name is the
//! full exported name, sheet path included: normalising rewrites overline
//! syntax on the leaf label and never strips the path.
pub mod laws;
pub mod written;

use vstd::prelude::*;

use crate::sexp::{list_tree, parse_sexp, sexp_of, trees, Sexp, SexpError, Tree};
use crate::text::{
    begins_with, chars_of, debug_form, debug_text, decimal, is_text, push_decimal, push_text,
    starts_with, text_of,
};

verus! {

/// One `(comp …)` entry of the netlist's `(components …)` section.
#[derive(Debug, Clone, PartialEq)]
pub struct ComponentDecl {
    /// Reference designator.
    pub reference: String,
    /// Value field.
    pub value: String,
    /// Footprint.
    pub footprint: String,
    /// Library name, best-effort only.
    pub lib: String,
    /// Library part name.
    pub part: String,
    /// The sheet instance the symbol was placed on; `/` is the root sheet.
    pub sheetpath: String,
    /// Whether the `dnp` property is set.
    pub dnp: bool,
}

/// One `(node …)` membership entry of a net.
#[derive(Debug, Clone, PartialEq)]
pub struct NodeDecl {
    /// Component reference designator.
    pub reference: String,
    /// Pin number.
    pub pin: String,
    /// The pin's function alias, where the symbol names it.
    pub pinfunction: Option<String>,
    /// The schematic symbol's electrical pin type, informational only.
    pub pintype: Option<String>,
}

/// One `(net …)` entry of the netlist's `(nets …)` section.
#[derive(Debug, Clone, PartialEq)]
pub struct NetDecl {
    /// Net code.
    pub code: String,
    /// Net name exactly as exported.
    pub name: String,
    /// Member pins.
    pub nodes: Vec<NodeDecl>,
}

/// A fully parsed netlist.
#[derive(Debug, Clone, PartialEq)]
pub struct ParsedNetlist {
    /// The export version.
    pub version: String,
    /// All component declarations.
    pub components: Vec<ComponentDecl>,
    /// All net declarations.
    pub nets: Vec<NetDecl>,
}

/// Why a netlist does not parse.
#[derive(Debug, Clone, PartialEq, Eq)]
pub enum NetlistError {
    /// The export version is not supported.
    UnsupportedVersion {
        /// The version found.
        found: String,
    },
    /// The input is no well-formed netlist.
    Malformed {
        /// The cause, in words.
        message: String,
    },
}

/// A component declaration, as sequences.
#[verifier::ext_equal]
pub struct ComponentView {
    /// Reference designator.
    pub reference: Seq<char>,
    /// Value field.
    pub value: Seq<char>,
    /// Footprint.
    pub footprint: Seq<char>,
    /// Library name.
    pub lib: Seq<char>,
    /// Library part name.
    pub part: Seq<char>,
    /// Sheet instance.
    pub sheetpath: Seq<char>,
    /// Whether the `dnp` property is set.
    pub dnp: bool,
}

/// A net member, as sequences.
#[verifier::ext_equal]
pub struct NodeView {
    /// Component reference designator.
    pub reference: Seq<char>,
    /// Pin number.
    pub pin: Seq<char>,
    /// The pin's function alias.
    pub pinfunction: Option<Seq<char>>,
    /// The symbol's electrical pin type.
    pub pintype: Option<Seq<char>>,
}

/// A net declaration, as sequences.
#[verifier::ext_equal]
pub struct NetDeclView {
    /// Net code.
    pub code: Seq<char>,
    /// Net name.
    pub name: Seq<char>,
    /// Member pins.
    pub nodes: Seq<NodeView>,
}

/// A parsed netlist, as sequences.
#[verifier::ext_equal]
pub struct NetlistView {
    /// The export version.
    pub version: Seq<char>,
    /// All component declarations.
    pub components: Seq<ComponentView>,
    /// All net declarations.
    pub nets: Seq<NetDeclView>,
}

/// Why a netlist does not parse, as sequences.
pub enum NetlistErrorView {
    /// The export version is not supported.
    UnsupportedVersion {
        /// The version found.
        found: Seq<char>,
    },
    /// The input is no well-formed netlist.
    Malformed {
        /// The cause, in words.
        message: Seq<char>,
    },
}

impl View for ComponentDecl {
    type V = ComponentView;

    open spec fn view(&self) -> ComponentView {
        ComponentView {
            reference: self.reference@,
            value: self.value@,
            footprint: self.footprint@,
            lib: self.lib@,
            part: self.part@,
            sheetpath: self.sheetpath@,
            dnp: self.dnp,
        }
    }
}

/// An optional string's characters.
pub open spec fn optional(text: Option<String>) -> Option<Seq<char>> {
    match text {
        Some(s) => Some(s@),
        None => None,
    }
}

impl View for NodeDecl {
    type V = NodeView;

    open spec fn view(&self) -> NodeView {
        NodeView {
            reference: self.reference@,
            pin: self.pin@,
            pinfunction: optional(self.pinfunction),
            pintype: optional(self.pintype),
        }
    }
}

/// Net members as sequences.
pub open spec fn nodes_view(nodes: Seq<NodeDecl>) -> Seq<NodeView> {
    Seq::new(nodes.len(), |i: int| nodes[i]@)
}

impl View for NetDecl {
    type V = NetDeclView;

    open spec fn view(&self) -> NetDeclView {
        NetDeclView { code: self.code@, name: self.name@, nodes: nodes_view(self.nodes@) }
    }
}

/// Component declarations as sequences.
pub open spec fn components_view(components: Seq<ComponentDecl>) -> Seq<ComponentView> {
    Seq::new(components.len(), |i: int| components[i]@)
}

/// Net declarations as sequences.
pub open spec fn nets_view(nets: Seq<NetDecl>) -> Seq<NetDeclView> {
    Seq::new(nets.len(), |i: int| nets[i]@)
}

impl View for ParsedNetlist {
    type V = NetlistView;

    open spec fn view(&self) -> NetlistView {
        NetlistView {
            version: self.version@,
            components: components_view(self.components@),
            nets: nets_view(self.nets@),
        }
    }
}

impl View for NetlistError {
    type V = NetlistErrorView;

    open spec fn view(&self) -> NetlistErrorView {
        match self {
            NetlistError::UnsupportedVersion { found } => NetlistErrorView::UnsupportedVersion {
                found: found@,
            },
            NetlistError::Malformed { message } => NetlistErrorView::Malformed {
                message: message@,
            },
        }
    }
}

/// The version supported.
pub open spec fn supported(version: Seq<char>) -> bool {
    version == "E"@
}

/// A malformed netlist.
pub open spec fn malformed(message: Seq<char>) -> NetlistErrorView {
    NetlistErrorView::Malformed { message }
}

/// The head atom of a list.
pub open spec fn head(tree: Tree) -> Option<Seq<char>> {
    match tree {
        Tree::List(items) => if items.len() > 0 {
            match items[0] {
                Tree::Atom(chars) => Some(chars),
                Tree::List(_) => None,
            }
        } else {
            None
        },
        Tree::Atom(_) => None,
    }
}

/// The items of a sequence that are lists headed `name`.
pub open spec fn headed(items: Seq<Tree>, name: Seq<char>) -> Seq<Tree>
    decreases items.len(),
{
    if items.len() == 0 {
        Seq::empty()
    } else {
        let rest = headed(items.drop_last(), name);
        if head(items.last()) == Some(name) {
            rest.push(items.last())
        } else {
            rest
        }
    }
}

/// The items of a list behind its head.
pub open spec fn tail(tree: Tree) -> Seq<Tree> {
    match tree {
        Tree::List(items) => if items.len() > 0 {
            items.drop_first()
        } else {
            items
        },
        Tree::Atom(_) => Seq::empty(),
    }
}

/// The child lists headed `name`.
pub open spec fn children(tree: Tree, name: Seq<char>) -> Seq<Tree> {
    headed(tail(tree), name)
}

/// The first child list headed `name`.
pub open spec fn child(tree: Tree, name: Seq<char>) -> Option<Tree> {
    let found = children(tree, name);
    if found.len() > 0 {
        Some(found[0])
    } else {
        None
    }
}

/// The atom behind a list's head.
pub open spec fn arg(tree: Tree) -> Option<Seq<char>> {
    match tree {
        Tree::List(items) => if items.len() > 1 {
            match items[1] {
                Tree::Atom(chars) => Some(chars),
                Tree::List(_) => None,
            }
        } else {
            None
        },
        Tree::Atom(_) => None,
    }
}

/// The atom of the first child list headed `name`.
pub open spec fn child_arg(tree: Tree, name: Seq<char>) -> Option<Seq<char>> {
    match child(tree, name) {
        Some(found) => arg(found),
        None => None,
    }
}

/// An optional text, or another where there is none.
pub open spec fn or_text(text: Option<Seq<char>>, other: Seq<char>) -> Seq<char> {
    match text {
        Some(chars) => chars,
        None => other,
    }
}

/// A letter in lower case, where it is an ASCII letter.
pub open spec fn lower(c: char) -> char {
    if 'A' <= c <= 'Z' {
        ((c as u8) + 32) as u8 as char
    } else {
        c
    }
}

/// Whether a text reads `dnp`, in whatever case.
pub open spec fn is_dnp(text: Seq<char>) -> bool {
    text.len() == 3 && lower(text[0]) == 'd' && lower(text[1]) == 'n' && lower(text[2]) == 'p'
}

/// Whether one of a component's properties is `dnp`.
pub open spec fn any_dnp(properties: Seq<Tree>) -> bool {
    exists|i: int|
        0 <= i < properties.len() && (child_arg(#[trigger] properties[i], "name"@) matches Some(
            name,
        ) && is_dnp(name))
}

/// A `(comp …)` entry.
pub open spec fn component_of(tree: Tree) -> Result<ComponentView, NetlistErrorView> {
    match child_arg(tree, "ref"@) {
        None => Err(malformed("(comp …) missing (ref …)"@)),
        Some(reference) => Ok(
            ComponentView {
                reference,
                value: or_text(child_arg(tree, "value"@), Seq::empty()),
                footprint: or_text(child_arg(tree, "footprint"@), Seq::empty()),
                lib: match child(tree, "libsource"@) {
                    Some(source) => or_text(child_arg(source, "lib"@), Seq::empty()),
                    None => Seq::empty(),
                },
                part: match child(tree, "libsource"@) {
                    Some(source) => or_text(child_arg(source, "part"@), Seq::empty()),
                    None => Seq::empty(),
                },
                sheetpath: match child(tree, "sheetpath"@) {
                    Some(path) => or_text(child_arg(path, "names"@), "/"@),
                    None => "/"@,
                },
                dnp: any_dnp(children(tree, "property"@)),
            },
        ),
    }
}

/// A list of `(comp …)` entries; the first that fails fails them all.
pub open spec fn components_of(list: Seq<Tree>) -> Result<Seq<ComponentView>, NetlistErrorView>
    decreases list.len(),
{
    if list.len() == 0 {
        Ok(Seq::empty())
    } else {
        match components_of(list.drop_last()) {
            Err(e) => Err(e),
            Ok(done) => match component_of(list.last()) {
                Err(e) => Err(e),
                Ok(component) => Ok(done.push(component)),
            },
        }
    }
}

/// A `(node …)` entry of the net named `name`.
pub open spec fn node_of(tree: Tree, name: Seq<char>) -> Result<NodeView, NetlistErrorView> {
    match child_arg(tree, "ref"@) {
        None => Err(
            malformed("(node …) in net "@ + debug_text(name) + " missing (ref …)"@),
        ),
        Some(reference) => match child_arg(tree, "pin"@) {
            None => Err(
                malformed("(node …) in net "@ + debug_text(name) + " missing (pin …)"@),
            ),
            Some(pin) => Ok(
                NodeView {
                    reference,
                    pin,
                    pinfunction: child_arg(tree, "pinfunction"@),
                    pintype: child_arg(tree, "pintype"@),
                },
            ),
        },
    }
}

/// A list of `(node …)` entries.
pub open spec fn nodes_of(list: Seq<Tree>, name: Seq<char>) -> Result<
    Seq<NodeView>,
    NetlistErrorView,
>
    decreases list.len(),
{
    if list.len() == 0 {
        Ok(Seq::empty())
    } else {
        match nodes_of(list.drop_last(), name) {
            Err(e) => Err(e),
            Ok(done) => match node_of(list.last(), name) {
                Err(e) => Err(e),
                Ok(node) => Ok(done.push(node)),
            },
        }
    }
}

/// A `(net …)` entry.
pub open spec fn net_of(tree: Tree) -> Result<NetDeclView, NetlistErrorView> {
    match child_arg(tree, "code"@) {
        None => Err(malformed("(net …) missing (code …)"@)),
        Some(code) => {
            let name = or_text(child_arg(tree, "name"@), Seq::empty());
            match nodes_of(children(tree, "node"@), name) {
                Err(e) => Err(e),
                Ok(nodes) => Ok(NetDeclView { code, name, nodes }),
            }
        },
    }
}

/// A list of `(net …)` entries.
pub open spec fn nets_of(list: Seq<Tree>) -> Result<Seq<NetDeclView>, NetlistErrorView>
    decreases list.len(),
{
    if list.len() == 0 {
        Ok(Seq::empty())
    } else {
        match nets_of(list.drop_last()) {
            Err(e) => Err(e),
            Ok(done) => match net_of(list.last()) {
                Err(e) => Err(e),
                Ok(net) => Ok(done.push(net)),
            },
        }
    }
}

/// The entries of a section.
pub open spec fn section(root: Tree, name: Seq<char>, entry: Seq<char>) -> Seq<Tree> {
    match child(root, name) {
        Some(found) => children(found, entry),
        None => Seq::empty(),
    }
}

/// An `(export …)` form as a netlist.
pub open spec fn export_of(root: Tree) -> Result<NetlistView, NetlistErrorView> {
    if head(root) != Some("export"@) {
        Err(malformed("top-level form is not (export …)"@))
    } else {
        match child_arg(root, "version"@) {
            None => Err(malformed("missing (version …)"@)),
            Some(version) => if !supported(version) {
                Err(NetlistErrorView::UnsupportedVersion { found: version })
            } else {
                match components_of(section(root, "components"@, "comp"@)) {
                    Err(e) => Err(e),
                    Ok(components) => match nets_of(section(root, "nets"@, "net"@)) {
                        Err(e) => Err(e),
                        Ok(nets) => Ok(NetlistView { version, components, nets }),
                    },
                }
            },
        }
    }
}

/// Why text is no s-expression, in words.
pub open spec fn sexp_message(error: SexpError) -> Seq<char> {
    match error {
        SexpError::ExpectedOpen(byte) => "expected '(' at byte "@ + decimal(byte as nat),
        SexpError::EndInsideList => "unexpected end of input inside list"@,
        SexpError::Unterminated => "unterminated quoted string"@,
    }
}

/// A text as a netlist.
pub open spec fn netlist_of(text: Seq<char>) -> Result<NetlistView, NetlistErrorView> {
    match sexp_of(text) {
        Err(e) => Err(malformed(sexp_message(e))),
        Ok(root) => export_of(root),
    }
}

/// What a parse gave, as sequences.
pub open spec fn outcome(r: Result<ParsedNetlist, NetlistError>) -> Result<
    NetlistView,
    NetlistErrorView,
> {
    match r {
        Ok(netlist) => Ok(netlist@),
        Err(e) => Err(e@),
    }
}

/// Whether a list is headed `name`.
fn is_headed(sexp: &Sexp, name: &str) -> (r: bool)
    ensures
        r == (head(sexp.tree()) == Some(name@)),
{
    match sexp {
        Sexp::Atom(_) => false,
        Sexp::List(items) => {
            proof {
                list_tree(*items);
            }
            if items.len() == 0 {
                return false;
            }
            match &items[0] {
                Sexp::Atom(chars) => is_text(chars, name),
                Sexp::List(inner) => {
                    proof {
                        list_tree(*inner);
                    }
                    false
                },
            }
        },
    }
}

/// The items of a list.
fn items_of(sexp: &Sexp) -> (r: Option<&Vec<Sexp>>)
    ensures
        match r {
            Some(items) => sexp.tree() == Tree::List(trees(items@)),
            None => sexp.tree() is Atom,
        },
{
    match sexp {
        Sexp::Atom(_) => None,
        Sexp::List(items) => {
            proof {
                list_tree(*items);
            }
            Some(items)
        },
    }
}

/// The items behind a list's head, up to a position.
spec fn tail_to(items: Seq<Sexp>, k: int) -> Seq<Tree> {
    trees(items).subrange(1, k)
}

proof fn headed_step(items: Seq<Sexp>, name: Seq<char>, k: int)
    requires
        1 <= k < items.len(),
    ensures
        headed(tail_to(items, k + 1), name) == (if head(items[k].tree()) == Some(name) {
            headed(tail_to(items, k), name).push(items[k].tree())
        } else {
            headed(tail_to(items, k), name)
        }),
{
    let longer = tail_to(items, k + 1);
    assert(longer.drop_last() =~= tail_to(items, k));
    assert(longer.last() == items[k].tree());
}

proof fn headed_prefix(items: Seq<Sexp>, name: Seq<char>, j: int, k: int)
    requires
        1 <= j <= k <= items.len(),
    ensures
        headed(tail_to(items, j), name).len() <= headed(tail_to(items, k), name).len(),
        forall|i: int|
            0 <= i < headed(tail_to(items, j), name).len() ==> headed(tail_to(items, j), name)[i]
                == #[trigger] headed(tail_to(items, k), name)[i],
    decreases k - j,
{
    if j < k {
        headed_prefix(items, name, j, k - 1);
        headed_step(items, name, k - 1);
    }
}

proof fn whole_tail(items: Seq<Sexp>)
    requires
        items.len() > 0,
    ensures
        tail(Tree::List(trees(items))) == tail_to(items, items.len() as int),
        tail_to(items, 1) == Seq::<Tree>::empty(),
{
    assert(tail(Tree::List(trees(items))) =~= tail_to(items, items.len() as int));
    assert(tail_to(items, 1) =~= Seq::<Tree>::empty());
}

/// The first child list headed `name`.
fn find_child<'a>(sexp: &'a Sexp, name: &str) -> (r: Option<&'a Sexp>)
    ensures
        match r {
            Some(found) => child(sexp.tree(), name@) == Some(found.tree()),
            None => child(sexp.tree(), name@) is None,
        },
{
    let items = match items_of(sexp) {
        Some(items) => items,
        None => {
            return None;
        },
    };
    if items.len() == 0 {
        assert(trees(items@) =~= Seq::<Tree>::empty());
        return None;
    }
    proof {
        whole_tail(items@);
    }
    let mut k: usize = 1;
    while k < items.len()
        invariant
            1 <= k <= items@.len(),
            sexp.tree() == Tree::List(trees(items@)),
            headed(tail_to(items@, k as int), name@).len() == 0,
        decreases items@.len() - k,
    {
        proof {
            headed_step(items@, name@, k as int);
        }
        if is_headed(&items[k], name) {
            proof {
                headed_prefix(items@, name@, k + 1, items@.len() as int);
                whole_tail(items@);
                assert(headed(tail_to(items@, k + 1), name@)[0] == items@[k as int].tree());
            }
            return Some(&items[k]);
        }
        k += 1;
    }
    None
}

/// The atom behind a list's head.
fn find_arg(sexp: &Sexp) -> (r: Option<&Vec<char>>)
    ensures
        match r {
            Some(chars) => arg(sexp.tree()) == Some(chars@),
            None => arg(sexp.tree()) is None,
        },
{
    match items_of(sexp) {
        None => None,
        Some(items) => {
            if items.len() < 2 {
                return None;
            }
            match &items[1] {
                Sexp::Atom(chars) => Some(chars),
                Sexp::List(inner) => {
                    proof {
                        list_tree(*inner);
                    }
                    None
                },
            }
        },
    }
}

/// The atom of the first child list headed `name`.
fn find_child_arg<'a>(sexp: &'a Sexp, name: &str) -> (r: Option<&'a Vec<char>>)
    ensures
        match r {
            Some(chars) => child_arg(sexp.tree(), name@) == Some(chars@),
            None => child_arg(sexp.tree(), name@) is None,
        },
{
    match find_child(sexp, name) {
        Some(found) => find_arg(found),
        None => None,
    }
}

/// The atom of a child as a string, or another where there is none.
fn child_text(sexp: &Sexp, name: &str, other: &str) -> (r: String)
    ensures
        r@ == or_text(child_arg(sexp.tree(), name@), other@),
{
    match find_child_arg(sexp, name) {
        Some(chars) => text_of(chars),
        None => other.to_owned(),
    }
}

/// The atom of a child as an optional string.
fn child_option(sexp: &Sexp, name: &str) -> (r: Option<String>)
    ensures
        optional(r) == child_arg(sexp.tree(), name@),
{
    match find_child_arg(sexp, name) {
        Some(chars) => Some(text_of(chars)),
        None => None,
    }
}

fn to_lower(c: char) -> (r: char)
    ensures
        r == lower(c),
{
    if 'A' <= c && c <= 'Z' {
        let code: u8 = c as u8;
        (code + 32) as char
    } else {
        c
    }
}

fn reads_dnp(chars: &Vec<char>) -> (r: bool)
    ensures
        r == is_dnp(chars@),
{
    chars.len() == 3 && to_lower(chars[0]) == 'd' && to_lower(chars[1]) == 'n' && to_lower(
        chars[2],
    ) == 'p'
}

/// Whether one of a component's properties is `dnp`.
fn has_dnp(comp: &Sexp) -> (r: bool)
    ensures
        r == any_dnp(children(comp.tree(), "property"@)),
{
    let items = match items_of(comp) {
        Some(items) => items,
        None => {
            return false;
        },
    };
    if items.len() == 0 {
        assert(trees(items@) =~= Seq::<Tree>::empty());
        return false;
    }
    let ghost name = "property"@;
    proof {
        whole_tail(items@);
    }
    let mut found = false;
    let mut k: usize = 1;
    while k < items.len()
        invariant
            1 <= k <= items@.len(),
            name == "property"@,
            comp.tree() == Tree::List(trees(items@)),
            found == any_dnp(headed(tail_to(items@, k as int), name)),
        decreases items@.len() - k,
    {
        proof {
            headed_step(items@, name, k as int);
        }
        let ghost before = headed(tail_to(items@, k as int), name);
        let ghost after = headed(tail_to(items@, k + 1), name);
        if is_headed(&items[k], "property") {
            let mut this = false;
            if let Some(chars) = find_child_arg(&items[k], "name") {
                this = reads_dnp(chars);
            }
            proof {
                let tree = items@[k as int].tree();
                assert(after == before.push(tree));
                assert(after[before.len() as int] == tree);
                if any_dnp(before) {
                    let i = choose|i: int|
                        0 <= i < before.len() && (child_arg(#[trigger] before[i], "name"@)
                            matches Some(name) && is_dnp(name));
                    assert(after[i] == before[i]);
                }
                if any_dnp(after) {
                    let i = choose|i: int|
                        0 <= i < after.len() && (child_arg(#[trigger] after[i], "name"@)
                            matches Some(name) && is_dnp(name));
                    if i < before.len() {
                        assert(before[i] == after[i]);
                    }
                }
            }
            found = found || this;
        }
        k += 1;
    }
    found
}

/// A component's declaration.
fn parse_component(comp: &Sexp) -> (r: Result<ComponentDecl, NetlistError>)
    ensures
        match r {
            Ok(decl) => component_of(comp.tree()) == Ok::<ComponentView, NetlistErrorView>(decl@),
            Err(e) => component_of(comp.tree()) == Err::<ComponentView, NetlistErrorView>(e@),
        },
{
    proof {
        reveal_strlit("");
        assert(""@ =~= Seq::<char>::empty());
    }
    let reference = match find_child_arg(comp, "ref") {
        Some(chars) => text_of(chars),
        None => {
            return Err(
                NetlistError::Malformed { message: "(comp …) missing (ref …)".to_owned() },
            );
        },
    };
    let value = child_text(comp, "value", "");
    let footprint = child_text(comp, "footprint", "");
    let (lib, part) = match find_child(comp, "libsource") {
        Some(source) => (child_text(source, "lib", ""), child_text(source, "part", "")),
        None => (String::new(), String::new()),
    };
    let sheetpath = match find_child(comp, "sheetpath") {
        Some(path) => child_text(path, "names", "/"),
        None => "/".to_owned(),
    };
    let dnp = has_dnp(comp);
    let decl = ComponentDecl { reference, value, footprint, lib, part, sheetpath, dnp };
    proof {
        assert(lib@ =~= (match child(comp.tree(), "libsource"@) {
            Some(source) => or_text(child_arg(source, "lib"@), Seq::empty()),
            None => Seq::empty(),
        }));
        assert(part@ =~= (match child(comp.tree(), "libsource"@) {
            Some(source) => or_text(child_arg(source, "part"@), Seq::empty()),
            None => Seq::empty(),
        }));
    }
    Ok(decl)
}

/// What is wrong with a node of a net.
fn node_message(name: &str, what: &str) -> (r: String)
    ensures
        r@ == "(node …) in net "@ + debug_text(name@) + what@,
{
    let mut out: Vec<char> = Vec::new();
    push_text(&mut out, "(node …) in net ");
    let shown = debug_form(name);
    push_text(&mut out, shown.as_str());
    push_text(&mut out, what);
    assert(out@ =~= "(node …) in net "@ + debug_text(name@) + what@);
    text_of(&out)
}

/// A net member's declaration.
fn parse_node(node: &Sexp, name: &str) -> (r: Result<NodeDecl, NetlistError>)
    ensures
        match r {
            Ok(decl) => node_of(node.tree(), name@) == Ok::<NodeView, NetlistErrorView>(decl@),
            Err(e) => node_of(node.tree(), name@) == Err::<NodeView, NetlistErrorView>(e@),
        },
{
    let reference = match find_child_arg(node, "ref") {
        Some(chars) => text_of(chars),
        None => {
            return Err(NetlistError::Malformed { message: node_message(name, " missing (ref …)") });
        },
    };
    let pin = match find_child_arg(node, "pin") {
        Some(chars) => text_of(chars),
        None => {
            return Err(NetlistError::Malformed { message: node_message(name, " missing (pin …)") });
        },
    };
    let pinfunction = child_option(node, "pinfunction");
    let pintype = child_option(node, "pintype");
    Ok(NodeDecl { reference, pin, pinfunction, pintype })
}

/// The components of a section.
fn parse_components(list: &Sexp) -> (r: Result<Vec<ComponentDecl>, NetlistError>)
    ensures
        match r {
            Ok(done) => components_of(children(list.tree(), "comp"@)) == Ok::<
                Seq<ComponentView>,
                NetlistErrorView,
            >(components_view(done@)),
            Err(e) => components_of(children(list.tree(), "comp"@)) == Err::<
                Seq<ComponentView>,
                NetlistErrorView,
            >(e@),
        },
{
    let mut done: Vec<ComponentDecl> = Vec::new();
    let items = match items_of(list) {
        Some(items) => items,
        None => {
            assert(components_view(done@) =~= Seq::<ComponentView>::empty());
            return Ok(done);
        },
    };
    assert(components_view(done@) =~= Seq::<ComponentView>::empty());
    if items.len() == 0 {
        assert(trees(items@) =~= Seq::<Tree>::empty());
        return Ok(done);
    }
    let ghost name_ = "comp"@;
    proof {
        whole_tail(items@);
    }
    let mut k: usize = 1;
    while k < items.len()
        invariant
            1 <= k <= items@.len(),
            name_ == "comp"@,
            list.tree() == Tree::List(trees(items@)),
            components_of(headed(tail_to(items@, k as int), name_)) == Ok::<
                Seq<ComponentView>,
                NetlistErrorView,
            >(components_view(done@)),
        decreases items@.len() - k,
    {
        proof {
            headed_step(items@, name_, k as int);
        }
        let ghost before = headed(tail_to(items@, k as int), name_);
        let ghost after = headed(tail_to(items@, k + 1), name_);
        let ghost held = done@;
        if is_headed(&items[k], "comp") {
            assert(after.drop_last() =~= before);
            match parse_component(&items[k]) {
                Ok(decl) => {
                    done.push(decl);
                    assert(components_view(done@) =~= components_view(held).push(decl@));
                },
                Err(e) => {
                    proof {
                        parse_components_stay_failed(items@, name_, k + 1, items@.len() as int);
                        whole_tail(items@);
                    }
                    return Err(e);
                },
            }
        }
        k += 1;
    }
    Ok(done)
}

proof fn parse_components_stay_failed(items: Seq<Sexp>, name: Seq<char>, j: int, k: int)
    requires
        1 <= j <= k <= items.len(),
        components_of(headed(tail_to(items, j), name)) is Err,
    ensures
        components_of(headed(tail_to(items, k), name)) == components_of(headed(tail_to(items, j), name)),
    decreases k - j,
{
    if j < k {
        parse_components_stay_failed(items, name, j, k - 1);
        headed_step(items, name, k - 1);
        let before = headed(tail_to(items, k - 1), name);
        let after = headed(tail_to(items, k), name);
        if after != before {
            assert(after.drop_last() =~= before);
        }
    }
}

/// The members of a net.
fn parse_nodes(list: &Sexp, net: &str) -> (r: Result<Vec<NodeDecl>, NetlistError>)
    ensures
        match r {
            Ok(done) => nodes_of(children(list.tree(), "node"@), net@) == Ok::<
                Seq<NodeView>,
                NetlistErrorView,
            >(nodes_view(done@)),
            Err(e) => nodes_of(children(list.tree(), "node"@), net@) == Err::<
                Seq<NodeView>,
                NetlistErrorView,
            >(e@),
        },
{
    let mut done: Vec<NodeDecl> = Vec::new();
    let items = match items_of(list) {
        Some(items) => items,
        None => {
            assert(nodes_view(done@) =~= Seq::<NodeView>::empty());
            return Ok(done);
        },
    };
    assert(nodes_view(done@) =~= Seq::<NodeView>::empty());
    if items.len() == 0 {
        assert(trees(items@) =~= Seq::<Tree>::empty());
        return Ok(done);
    }
    let ghost name_ = "node"@;
    proof {
        whole_tail(items@);
    }
    let mut k: usize = 1;
    while k < items.len()
        invariant
            1 <= k <= items@.len(),
            name_ == "node"@,
            list.tree() == Tree::List(trees(items@)),
            nodes_of(headed(tail_to(items@, k as int), name_), net@) == Ok::<
                Seq<NodeView>,
                NetlistErrorView,
            >(nodes_view(done@)),
        decreases items@.len() - k,
    {
        proof {
            headed_step(items@, name_, k as int);
        }
        let ghost before = headed(tail_to(items@, k as int), name_);
        let ghost after = headed(tail_to(items@, k + 1), name_);
        let ghost held = done@;
        if is_headed(&items[k], "node") {
            assert(after.drop_last() =~= before);
            match parse_node(&items[k], net) {
                Ok(decl) => {
                    done.push(decl);
                    assert(nodes_view(done@) =~= nodes_view(held).push(decl@));
                },
                Err(e) => {
                    proof {
                        parse_nodes_stay_failed(items@, name_, net@, k + 1, items@.len() as int);
                        whole_tail(items@);
                    }
                    return Err(e);
                },
            }
        }
        k += 1;
    }
    Ok(done)
}

proof fn parse_nodes_stay_failed(items: Seq<Sexp>, name: Seq<char>, net: Seq<char>, j: int, k: int)
    requires
        1 <= j <= k <= items.len(),
        nodes_of(headed(tail_to(items, j), name), net) is Err,
    ensures
        nodes_of(headed(tail_to(items, k), name), net) == nodes_of(headed(tail_to(items, j), name), net),
    decreases k - j,
{
    if j < k {
        parse_nodes_stay_failed(items, name, net, j, k - 1);
        headed_step(items, name, k - 1);
        let before = headed(tail_to(items, k - 1), name);
        let after = headed(tail_to(items, k), name);
        if after != before {
            assert(after.drop_last() =~= before);
        }
    }
}

/// A net's declaration.
fn parse_net(net: &Sexp) -> (r: Result<NetDecl, NetlistError>)
    ensures
        match r {
            Ok(decl) => net_of(net.tree()) == Ok::<NetDeclView, NetlistErrorView>(decl@),
            Err(e) => net_of(net.tree()) == Err::<NetDeclView, NetlistErrorView>(e@),
        },
{
    proof {
        reveal_strlit("");
        assert(""@ =~= Seq::<char>::empty());
    }
    let code = match find_child_arg(net, "code") {
        Some(chars) => text_of(chars),
        None => {
            return Err(
                NetlistError::Malformed { message: "(net …) missing (code …)".to_owned() },
            );
        },
    };
    let name = child_text(net, "name", "");
    match parse_nodes(net, name.as_str()) {
        Ok(nodes) => Ok(NetDecl { code, name, nodes }),
        Err(e) => Err(e),
    }
}

/// The nets of a section.
fn parse_nets(list: &Sexp) -> (r: Result<Vec<NetDecl>, NetlistError>)
    ensures
        match r {
            Ok(done) => nets_of(children(list.tree(), "net"@)) == Ok::<
                Seq<NetDeclView>,
                NetlistErrorView,
            >(nets_view(done@)),
            Err(e) => nets_of(children(list.tree(), "net"@)) == Err::<
                Seq<NetDeclView>,
                NetlistErrorView,
            >(e@),
        },
{
    let mut done: Vec<NetDecl> = Vec::new();
    let items = match items_of(list) {
        Some(items) => items,
        None => {
            assert(nets_view(done@) =~= Seq::<NetDeclView>::empty());
            return Ok(done);
        },
    };
    assert(nets_view(done@) =~= Seq::<NetDeclView>::empty());
    if items.len() == 0 {
        assert(trees(items@) =~= Seq::<Tree>::empty());
        return Ok(done);
    }
    let ghost name_ = "net"@;
    proof {
        whole_tail(items@);
    }
    let mut k: usize = 1;
    while k < items.len()
        invariant
            1 <= k <= items@.len(),
            name_ == "net"@,
            list.tree() == Tree::List(trees(items@)),
            nets_of(headed(tail_to(items@, k as int), name_)) == Ok::<
                Seq<NetDeclView>,
                NetlistErrorView,
            >(nets_view(done@)),
        decreases items@.len() - k,
    {
        proof {
            headed_step(items@, name_, k as int);
        }
        let ghost before = headed(tail_to(items@, k as int), name_);
        let ghost after = headed(tail_to(items@, k + 1), name_);
        let ghost held = done@;
        if is_headed(&items[k], "net") {
            assert(after.drop_last() =~= before);
            match parse_net(&items[k]) {
                Ok(decl) => {
                    done.push(decl);
                    assert(nets_view(done@) =~= nets_view(held).push(decl@));
                },
                Err(e) => {
                    proof {
                        parse_nets_stay_failed(items@, name_, k + 1, items@.len() as int);
                        whole_tail(items@);
                    }
                    return Err(e);
                },
            }
        }
        k += 1;
    }
    Ok(done)
}

proof fn parse_nets_stay_failed(items: Seq<Sexp>, name: Seq<char>, j: int, k: int)
    requires
        1 <= j <= k <= items.len(),
        nets_of(headed(tail_to(items, j), name)) is Err,
    ensures
        nets_of(headed(tail_to(items, k), name)) == nets_of(headed(tail_to(items, j), name)),
    decreases k - j,
{
    if j < k {
        parse_nets_stay_failed(items, name, j, k - 1);
        headed_step(items, name, k - 1);
        let before = headed(tail_to(items, k - 1), name);
        let after = headed(tail_to(items, k), name);
        if after != before {
            assert(after.drop_last() =~= before);
        }
    }
}

/// Why text is no s-expression, in words.
fn describe_sexp(error: SexpError) -> (r: String)
    ensures
        r@ == sexp_message(error),
{
    match error {
        SexpError::ExpectedOpen(byte) => {
            let mut out: Vec<char> = Vec::new();
            push_text(&mut out, "expected '(' at byte ");
            push_decimal(&mut out, byte);
            assert(out@ =~= "expected '(' at byte "@ + decimal(byte as nat));
            text_of(&out)
        },
        SexpError::EndInsideList => "unexpected end of input inside list".to_owned(),
        SexpError::Unterminated => "unterminated quoted string".to_owned(),
    }
}

/// Parse a netlist export into the declaration graph. A version other than
/// the supported one is an error of its own.
pub fn parse(input: &str) -> (r: Result<ParsedNetlist, NetlistError>)
    ensures
        outcome(r) == netlist_of(input@),
{
    let chars = chars_of(input);
    let root = match parse_sexp(&chars) {
        Ok(root) => root,
        Err(e) => {
            return Err(NetlistError::Malformed { message: describe_sexp(e) });
        },
    };
    if !is_headed(&root, "export") {
        return Err(
            NetlistError::Malformed { message: "top-level form is not (export …)".to_owned() },
        );
    }
    let found = match find_child_arg(&root, "version") {
        Some(found) => found,
        None => {
            return Err(NetlistError::Malformed { message: "missing (version …)".to_owned() });
        },
    };
    let version = text_of(found);
    if !is_text(found, "E") {
        return Err(NetlistError::UnsupportedVersion { found: version });
    }
    let components = match find_child(&root, "components") {
        Some(list) => match parse_components(list) {
            Ok(components) => components,
            Err(e) => {
                return Err(e);
            },
        },
        None => {
            let none: Vec<ComponentDecl> = Vec::new();
            assert(components_view(none@) =~= Seq::<ComponentView>::empty());
            none
        },
    };
    let nets = match find_child(&root, "nets") {
        Some(list) => match parse_nets(list) {
            Ok(nets) => nets,
            Err(e) => {
                return Err(e);
            },
        },
        None => {
            let none: Vec<NetDecl> = Vec::new();
            assert(nets_view(none@) =~= Seq::<NetDeclView>::empty());
            none
        },
    };
    Ok(ParsedNetlist { version, components, nets })
}

impl NetlistError {
    /// The error in words.
    pub open spec fn words(self) -> Seq<char> {
        match self {
            NetlistError::UnsupportedVersion { found } =>
                "unsupported KiCad netlist export version "@ + debug_text(found@),
            NetlistError::Malformed { message } => "malformed KiCad netlist: "@ + message@,
        }
    }

    /// The error in words.
    pub fn describe(&self) -> (r: String)
        ensures
            r@ == self.words(),
    {
        let mut out: Vec<char> = Vec::new();
        match self {
            NetlistError::UnsupportedVersion { found } => {
                push_text(&mut out, "unsupported KiCad netlist export version ");
                let shown = debug_form(found.as_str());
                push_text(&mut out, shown.as_str());
            },
            NetlistError::Malformed { message } => {
                push_text(&mut out, "malformed KiCad netlist: ");
                push_text(&mut out, message.as_str());
            },
        }
        assert(out@ =~= self.words());
        text_of(&out)
    }
}

/// Whether a name is written in overline syntax, `~{…}`.
pub open spec fn overlined(name: Seq<char>) -> bool {
    name.len() >= 3 && name[0] == '~' && name[1] == '{' && name.last() == '}'
}

/// A pin name with overline syntax rewritten: `~{RESET}` is `~RESET`.
pub open spec fn pin_name(name: Seq<char>) -> Seq<char> {
    if overlined(name) {
        seq!['~'] + name.subrange(2, name.len() - 1)
    } else {
        name
    }
}

/// The position of the last slash below `k`; `-1` where there is none.
pub open spec fn last_slash(name: Seq<char>, k: nat) -> int
    decreases k,
{
    if k == 0 {
        -1
    } else if name[k - 1] == '/' {
        k - 1
    } else {
        last_slash(name, (k - 1) as nat)
    }
}

/// How long the sheet path of a net name is; nought where it has none.
pub open spec fn path_len(name: Seq<char>) -> int {
    if name.len() > 0 && name[0] == '/' {
        last_slash(name, name.len()) + 1
    } else {
        0
    }
}

/// The sheet path of a net name, both slashes with it.
pub open spec fn sheet_path(name: Seq<char>) -> Option<Seq<char>> {
    if path_len(name) > 0 {
        Some(name.subrange(0, path_len(name)))
    } else {
        None
    }
}

/// The label of a net name behind its sheet path.
pub open spec fn short_label(name: Seq<char>) -> Seq<char> {
    name.subrange(path_len(name), name.len() as int)
}

/// A net name in canonical form: the sheet path as it is, overline syntax
/// rewritten on the label behind it.
pub open spec fn net_name(name: Seq<char>) -> Seq<char> {
    name.subrange(0, path_len(name)) + pin_name(short_label(name))
}

/// Whether a net name is one KiCad made up.
pub open spec fn autogenerated(name: Seq<char>) -> bool {
    starts_with(short_label(name), "Net-("@) || starts_with(short_label(name), "unconnected-("@)
}

proof fn last_slash_is_one(name: Seq<char>, k: nat)
    requires
        k <= name.len(),
    ensures
        -1 <= last_slash(name, k) < k,
        last_slash(name, k) >= 0 ==> name[last_slash(name, k)] == '/',
        forall|i: int| last_slash(name, k) < i < k ==> #[trigger] name[i] != '/',
    decreases k,
{
    if k > 0 && name[k - 1] != '/' {
        last_slash_is_one(name, (k - 1) as nat);
    }
}

proof fn last_slash_found(name: Seq<char>, k: nat, at: int)
    requires
        k <= name.len(),
        0 <= at < k,
        name[at] == '/',
        forall|i: int| at < i < k ==> #[trigger] name[i] != '/',
    ensures
        last_slash(name, k) == at,
    decreases k,
{
    if at < k - 1 {
        assert(name[k - 1] != '/');
        last_slash_found(name, (k - 1) as nat, at);
    }
}

/// A path is at least the slash a scoped name starts with.
pub proof fn path_fits(name: Seq<char>)
    ensures
        0 <= path_len(name) <= name.len(),
        path_len(name) > 0 <==> name.len() > 0 && name[0] == '/',
        path_len(name) > 0 ==> name[path_len(name) - 1] == '/',
        path_len(name) > 0 ==> forall|i: int|
            path_len(name) <= i < name.len() ==> #[trigger] name[i] != '/',
{
    last_slash_is_one(name, name.len());
    if name.len() > 0 && name[0] == '/' && last_slash(name, name.len()) < 0 {
        assert(name[0] != '/');
    }
}

/// A net name is its sheet path and its label.
pub proof fn path_and_label_make_the_name(name: Seq<char>)
    ensures
        name.subrange(0, path_len(name)) + short_label(name) == name,
{
    path_fits(name);
    assert(name.subrange(0, path_len(name)) + short_label(name) =~= name);
}

/// Canonical form keeps the sheet path, so labels of the same spelling on
/// two sheets stay two names.
pub proof fn canonical_names_keep_their_sheet(name: Seq<char>)
    ensures
        sheet_path(net_name(name)) == sheet_path(name),
{
    path_fits(name);
    let n = path_len(name);
    let label = short_label(name);
    let done = net_name(name);
    if n > 0 {
        assert(done[0] == name[0]);
        assert(done[n - 1] == '/');
        assert forall|i: int| n <= i < done.len() implies #[trigger] done[i] != '/' by {
            let short = pin_name(label);
            assert(done[i] == short[i - n]);
            if overlined(label) {
                if i > n {
                    assert(short[i - n] == label[i - n + 1]);
                    assert(label[i - n + 1] == name[i + 1]);
                }
            } else {
                assert(short[i - n] == name[i]);
            }
        }
        last_slash_found(done, done.len(), n - 1);
        assert(done.subrange(0, n) =~= name.subrange(0, n));
    } else {
        assert(label =~= name);
        assert(done =~= pin_name(name));
        if overlined(name) {
            assert(done[0] == '~');
        }
        path_fits(done);
    }
}

/// Names on two sheets never canonicalise to one.
pub proof fn sheets_stay_apart(a: Seq<char>, b: Seq<char>)
    requires
        sheet_path(a) != sheet_path(b),
    ensures
        net_name(a) != net_name(b),
{
    canonical_names_keep_their_sheet(a);
    canonical_names_keep_their_sheet(b);
}

/// Normalise overline pin-name syntax: `~{RESET}` is `~RESET`.
pub fn normalize_pin_name(name: &str) -> (r: String)
    ensures
        r@ == pin_name(name@),
{
    let chars = chars_of(name);
    let n: usize = chars.len();
    if n >= 3 && chars[0] == '~' && chars[1] == '{' && chars[n - 1] == '}' {
        let mut out: Vec<char> = Vec::new();
        out.push('~');
        let mut i: usize = 2;
        while i < n - 1
            invariant
                2 <= i <= n - 1,
                n == chars@.len(),
                out@ =~= seq!['~'] + chars@.subrange(2, i as int),
            decreases n - i,
        {
            out.push(chars[i]);
            i += 1;
        }
        text_of(&out)
    } else {
        name.to_owned()
    }
}

/// How long a name's sheet path is.
fn measure_path(chars: &Vec<char>) -> (n: usize)
    ensures
        n == path_len(chars@),
        n <= chars@.len(),
{
    proof {
        path_fits(chars@);
    }
    if chars.len() == 0 || chars[0] != '/' {
        return 0;
    }
    let mut k: usize = chars.len();
    while k > 0 && chars[k - 1] != '/'
        invariant
            k <= chars@.len(),
            last_slash(chars@, k as nat) == last_slash(chars@, chars@.len()),
        decreases k,
    {
        k -= 1;
    }
    k
}

/// Canonicalise an exported net name: the sheet path stays, overline syntax
/// is rewritten on the label.
pub fn normalize_net_name(name: &str) -> (r: String)
    ensures
        r@ == net_name(name@),
{
    let chars = chars_of(name);
    let n: usize = measure_path(&chars);
    let path = name.substring_char(0, n);
    let label = net_short_label(name);
    let short = normalize_pin_name(label);
    let mut out: Vec<char> = Vec::new();
    push_text(&mut out, path);
    push_text(&mut out, short.as_str());
    assert(out@ =~= net_name(name@));
    text_of(&out)
}

/// The sheet-instance prefix of a sheet-scoped net name, both slashes with
/// it; `None` for a global name. A name is scoped where it starts with a
/// slash.
pub fn net_sheet_path(name: &str) -> (r: Option<&str>)
    ensures
        match r {
            Some(path) => sheet_path(name@) == Some(path@),
            None => sheet_path(name@) is None,
        },
{
    let chars = chars_of(name);
    let n: usize = measure_path(&chars);
    if n == 0 {
        None
    } else {
        Some(name.substring_char(0, n))
    }
}

/// The label of a net name behind its sheet path, for display: labels are
/// not unique across sheets.
pub fn net_short_label(name: &str) -> (r: &str)
    ensures
        r@ == short_label(name@),
{
    let chars = chars_of(name);
    let n: usize = measure_path(&chars);
    name.substring_char(n, chars.len())
}

/// Whether a net name is one KiCad made up: `Net-(U1-TX)` for an unlabelled
/// net, `unconnected-(U9-NC-Pad1)` for a no-connect stub.
pub fn is_autogenerated_net_name(name: &str) -> (r: bool)
    ensures
        r == autogenerated(name@),
{
    let label = chars_of(net_short_label(name));
    begins_with(&label, "Net-(") || begins_with(&label, "unconnected-(")
}

/// A netlist that parses is of a supported version.
pub proof fn parsed_is_supported(text: Seq<char>)
    ensures
        netlist_of(text) matches Ok(netlist) ==> supported(netlist.version),
{
}

} // verus!

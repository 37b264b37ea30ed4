//! S-expressions: atoms, bare or quoted, and lists of them.
use vstd::prelude::*;

verus! {

/// An s-expression, as sequences.
pub enum Tree {
    /// An atom's characters.
    Atom(Seq<char>),
    /// A list's items.
    List(Seq<Tree>),
}

/// A parsed s-expression.
pub enum Sexp {
    /// A bare or quoted atom.
    Atom(Vec<char>),
    /// A parenthesised list.
    List(Vec<Sexp>),
}

impl Sexp {
    /// The expression as sequences.
    pub open spec fn tree(self) -> Tree
        decreases self,
    {
        match self {
            Sexp::Atom(chars) => Tree::Atom(chars@),
            Sexp::List(items) => Tree::List(
                Seq::new(
                    items@.len(),
                    |i: int|
                        if 0 <= i < items@.len() {
                            items@[i].tree()
                        } else {
                            Tree::Atom(Seq::empty())
                        },
                ),
            ),
        }
    }
}

/// Expressions as sequences.
pub open spec fn trees(items: Seq<Sexp>) -> Seq<Tree> {
    Seq::new(items.len(), |i: int| items[i].tree())
}

/// A list's tree is its items' trees.
pub proof fn list_tree(items: Vec<Sexp>)
    ensures
        Sexp::List(items).tree() == Tree::List(trees(items@)),
{
    reveal_with_fuel(Sexp::tree, 2);
    if let Tree::List(a) = Sexp::List(items).tree() {
        assert(a =~= trees(items@));
    }
}

/// Why text is no s-expression.
#[derive(Debug, Clone, Copy, PartialEq, Eq, Structural)]
pub enum SexpError {
    /// The text does not start with a list; the byte it fails at.
    ExpectedOpen(u128),
    /// The text ends inside a list.
    EndInsideList,
    /// The text ends inside a quoted atom.
    Unterminated,
}

/// Whether a character is white space between items.
pub open spec fn is_space(c: char) -> bool {
    c == ' ' || c == '\t' || c == '\n' || c == '\x0C' || c == '\r'
}

/// Whether a character ends a bare atom.
pub open spec fn is_delimiter(c: char) -> bool {
    c == '(' || c == ')' || c == '"' || is_space(c)
}

/// The first position from `p` that is no white space.
pub open spec fn after_spaces(chars: Seq<char>, p: int) -> int
    decreases chars.len() - p,
{
    if 0 <= p < chars.len() && is_space(chars[p]) {
        after_spaces(chars, p + 1)
    } else {
        p
    }
}

/// The end of the line `p` is on.
pub open spec fn line_end(chars: Seq<char>, p: int) -> int
    decreases chars.len() - p,
{
    if 0 <= p < chars.len() && chars[p] != '\n' {
        line_end(chars, p + 1)
    } else {
        p
    }
}

proof fn spaces_advance(chars: Seq<char>, p: int)
    requires
        0 <= p <= chars.len(),
    ensures
        p <= after_spaces(chars, p) <= chars.len(),
    decreases chars.len() - p,
{
    if p < chars.len() && is_space(chars[p]) {
        spaces_advance(chars, p + 1);
    }
}

/// A line ends at or behind where it is entered.
pub proof fn line_advances(chars: Seq<char>, p: int)
    requires
        0 <= p <= chars.len(),
    ensures
        p <= line_end(chars, p) <= chars.len(),
    decreases chars.len() - p,
{
    if p < chars.len() && chars[p] != '\n' {
        line_advances(chars, p + 1);
    }
}

/// The first position from `p` past white space and comments: a semicolon
/// starts a comment to the end of its line.
pub open spec fn skipped(chars: Seq<char>, p: int) -> int
    decreases chars.len() - p,
{
    let q = after_spaces(chars, p);
    if 0 <= p <= q < chars.len() && chars[q] == ';' {
        proof {
            line_advances(chars, q + 1);
        }
        skipped(chars, line_end(chars, q + 1))
    } else {
        q
    }
}

/// Skipping never goes back.
pub proof fn skipped_advances(chars: Seq<char>, p: int)
    requires
        0 <= p <= chars.len(),
    ensures
        p <= skipped(chars, p) <= chars.len(),
    decreases chars.len() - p,
{
    spaces_advance(chars, p);
    let q = after_spaces(chars, p);
    if q < chars.len() && chars[q] == ';' {
        line_advances(chars, q + 1);
        skipped_advances(chars, line_end(chars, q + 1));
    }
}

/// A quoted atom from behind its opening quote: its characters, each escaped
/// one as itself, and the position behind its closing quote.
pub open spec fn quoted(chars: Seq<char>, p: int) -> Option<(Seq<char>, int)>
    decreases chars.len() - p,
{
    if !(0 <= p < chars.len()) {
        None
    } else if chars[p] == '"' {
        Some((Seq::empty(), p + 1))
    } else if chars[p] == '\\' {
        if p + 1 < chars.len() {
            match quoted(chars, p + 2) {
                Some((rest, q)) => Some((seq![chars[p + 1]] + rest, q)),
                None => None,
            }
        } else {
            None
        }
    } else {
        match quoted(chars, p + 1) {
            Some((rest, q)) => Some((seq![chars[p]] + rest, q)),
            None => None,
        }
    }
}

/// The end of a bare atom.
pub open spec fn bare_end(chars: Seq<char>, p: int) -> int
    decreases chars.len() - p,
{
    if 0 <= p < chars.len() && !is_delimiter(chars[p]) {
        bare_end(chars, p + 1)
    } else {
        p
    }
}

/// The item at a position, and the position behind it.
pub open spec fn item_at(chars: Seq<char>, p: int) -> Result<(Tree, int), SexpError>
    decreases chars.len() - p, 0int,
{
    if !(0 <= p < chars.len()) {
        Err(SexpError::EndInsideList)
    } else if chars[p] == '(' {
        match items_at(chars, p + 1) {
            Ok((items, q)) => Ok((Tree::List(items), q)),
            Err(e) => Err(e),
        }
    } else if chars[p] == '"' {
        match quoted(chars, p + 1) {
            Some((atom, q)) => Ok((Tree::Atom(atom), q)),
            None => Err(SexpError::Unterminated),
        }
    } else {
        let q = bare_end(chars, p);
        Ok((Tree::Atom(chars.subrange(p, q)), q))
    }
}

/// The items from a position to the end of their list, and the position
/// behind it.
pub open spec fn items_at(chars: Seq<char>, p: int) -> Result<(Seq<Tree>, int), SexpError>
    decreases chars.len() - p, 1int,
{
    if !(0 <= p <= chars.len()) {
        Err(SexpError::EndInsideList)
    } else {
        proof {
            skipped_advances(chars, p);
        }
        let q = skipped(chars, p);
        if q >= chars.len() {
            Err(SexpError::EndInsideList)
        } else if chars[q] == ')' {
            Ok((Seq::empty(), q + 1))
        } else {
            match item_at(chars, q) {
                Err(e) => Err(e),
                Ok((item, r)) => if q < r <= chars.len() {
                    behind(seq![item], items_at(chars, r))
                } else {
                    Err(SexpError::EndInsideList)
                },
            }
        }
    }
}

/// Items in front of what is read behind them.
pub open spec fn behind(items: Seq<Tree>, rest: Result<(Seq<Tree>, int), SexpError>) -> Result<
    (Seq<Tree>, int),
    SexpError,
> {
    match rest {
        Ok((more, q)) => Ok((items + more, q)),
        Err(e) => Err(e),
    }
}

/// How many bytes a character takes in UTF-8.
pub open spec fn utf8_width(c: char) -> nat {
    if (c as u32) < 0x80 {
        1
    } else if (c as u32) < 0x800 {
        2
    } else if (c as u32) < 0x1_0000 {
        3
    } else {
        4
    }
}

/// How many bytes the first `p` characters take.
pub open spec fn byte_offset(chars: Seq<char>, p: nat) -> nat
    decreases p,
{
    if p == 0 {
        0
    } else {
        byte_offset(chars, (p - 1) as nat) + utf8_width(chars[p - 1])
    }
}

/// The first list of a text; what follows it is not read.
pub open spec fn sexp_of(chars: Seq<char>) -> Result<Tree, SexpError> {
    let p = skipped(chars, 0);
    if p >= chars.len() || chars[p] != '(' {
        Err(SexpError::ExpectedOpen(byte_offset(chars, p as nat) as u128))
    } else {
        match items_at(chars, p + 1) {
            Ok((items, _)) => Ok(Tree::List(items)),
            Err(e) => Err(e),
        }
    }
}

fn space(c: char) -> (r: bool)
    ensures
        r == is_space(c),
{
    c == ' ' || c == '\t' || c == '\n' || c == '\x0C' || c == '\r'
}

/// Skip white space and comments.
fn skip(chars: &Vec<char>, from: usize) -> (q: usize)
    requires
        from <= chars@.len(),
    ensures
        q == skipped(chars@, from as int),
        from <= q <= chars@.len(),
{
    let mut p: usize = from;
    loop
        invariant
            from <= p <= chars@.len(),
            skipped(chars@, p as int) == skipped(chars@, from as int),
        decreases chars@.len() - p,
    {
        let ghost start = p as int;
        while p < chars.len() && space(chars[p])
            invariant
                start <= p <= chars@.len(),
                after_spaces(chars@, p as int) == after_spaces(chars@, start),
            decreases chars@.len() - p,
        {
            p += 1;
        }
        if p < chars.len() && chars[p] == ';' {
            let ghost line = p + 1;
            p += 1;
            while p < chars.len() && chars[p] != '\n'
                invariant
                    line <= p <= chars@.len(),
                    line_end(chars@, p as int) == line_end(chars@, line as int),
                decreases chars@.len() - p,
            {
                p += 1;
            }
        } else {
            return p;
        }
    }
}

/// Read a quoted atom from behind its opening quote.
fn read_quoted(chars: &Vec<char>, from: usize) -> (r: Option<(Vec<char>, usize)>)
    requires
        from <= chars@.len(),
    ensures
        match r {
            Some((atom, q)) => quoted(chars@, from as int) == Some((atom@, q as int)) && from < q
                <= chars@.len(),
            None => quoted(chars@, from as int) is None,
        },
{
    let mut out: Vec<char> = Vec::new();
    let mut p: usize = from;
    while p < chars.len()
        invariant
            from <= p <= chars@.len(),
            quoted(chars@, from as int) == (match quoted(chars@, p as int) {
                Some((rest, q)) => Some((out@ + rest, q)),
                None => None,
            }),
        decreases chars@.len() - p,
    {
        let c = chars[p];
        let ghost so_far = out@;
        if c == '"' {
            assert(so_far + Seq::<char>::empty() =~= so_far);
            return Some((out, p + 1));
        }
        if c == '\\' {
            p += 1;
            if p < chars.len() {
                out.push(chars[p]);
                p += 1;
                proof {
                    if let Some((rest, q)) = quoted(chars@, p as int) {
                        assert(so_far + (seq![chars@[p - 1]] + rest) =~= out@ + rest);
                    }
                }
            }
        } else {
            out.push(c);
            p += 1;
            proof {
                if let Some((rest, q)) = quoted(chars@, p as int) {
                    assert(so_far + (seq![c] + rest) =~= out@ + rest);
                }
            }
        }
    }
    None
}

/// Read a bare atom.
fn read_bare(chars: &Vec<char>, from: usize) -> (r: (Vec<char>, usize))
    requires
        from < chars@.len(),
        !is_delimiter(chars@[from as int]),
    ensures
        r.1 == bare_end(chars@, from as int),
        r.0@ == chars@.subrange(from as int, r.1 as int),
        from < r.1 <= chars@.len(),
{
    let mut out: Vec<char> = Vec::new();
    let mut p: usize = from;
    while p < chars.len() && !(chars[p] == '(' || chars[p] == ')' || chars[p] == '"' || space(
        chars[p],
    ))
        invariant
            from <= p <= chars@.len(),
            bare_end(chars@, p as int) == bare_end(chars@, from as int),
            out@ =~= chars@.subrange(from as int, p as int),
            p == from ==> from < chars@.len() && !is_delimiter(chars@[from as int]),
        decreases chars@.len() - p,
    {
        out.push(chars[p]);
        p += 1;
    }
    (out, p)
}

/// Read the items of a list from behind its opening parenthesis.
fn read_items(chars: &Vec<char>, from: usize) -> (r: Result<(Vec<Sexp>, usize), SexpError>)
    requires
        from <= chars@.len(),
    ensures
        match r {
            Ok((items, q)) => items_at(chars@, from as int) == Ok::<(Seq<Tree>, int), SexpError>(
                (trees(items@), q as int),
            ) && from < q <= chars@.len(),
            Err(e) => items_at(chars@, from as int) == Err::<(Seq<Tree>, int), SexpError>(e),
        },
    decreases chars@.len() - from,
{
    let mut items: Vec<Sexp> = Vec::new();
    let mut p: usize = from;
    proof {
        if let Ok((more, q)) = items_at(chars@, p as int) {
            assert(trees(items@) + more =~= more);
        }
    }
    loop
        invariant
            from <= p <= chars@.len(),
            items_at(chars@, from as int) == behind(trees(items@), items_at(chars@, p as int)),
        decreases chars@.len() - p,
    {
        let q: usize = skip(chars, p);
        if q >= chars.len() {
            return Err(SexpError::EndInsideList);
        }
        let c = chars[q];
        if c == ')' {
            assert(trees(items@) + Seq::<Tree>::empty() =~= trees(items@));
            return Ok((items, q + 1));
        }
        let ghost before = trees(items@);
        let ghost held = items@;
        let next: usize;
        if c == '(' {
            match read_items(chars, q + 1) {
                Ok((inner, r)) => {
                    proof {
                        list_tree(inner);
                    }
                    items.push(Sexp::List(inner));
                    next = r;
                },
                Err(e) => {
                    return Err(e);
                },
            }
        } else if c == '"' {
            match read_quoted(chars, q + 1) {
                Some((atom, r)) => {
                    items.push(Sexp::Atom(atom));
                    next = r;
                },
                None => {
                    return Err(SexpError::Unterminated);
                },
            }
        } else {
            let (atom, r) = read_bare_at(chars, q);
            items.push(Sexp::Atom(atom));
            next = r;
        }
        proof {
            let item = items@.last().tree();
            assert(item_at(chars@, q as int) == Ok::<(Tree, int), SexpError>((item, next as int)));
            assert(trees(items@) =~= before + seq![item]) by {
                assert forall|i: int| 0 <= i < held.len() implies trees(items@)[i] == before[i] by {
                    assert(items@[i] == held[i]);
                }
            }
            if let Ok((more, end)) = items_at(chars@, next as int) {
                assert(before + (seq![item] + more) =~= trees(items@) + more);
            }
        }
        p = next;
    }
}

/// Read a bare atom behind white space.
fn read_bare_at(chars: &Vec<char>, at: usize) -> (r: (Vec<char>, usize))
    requires
        at < chars@.len(),
        exists|p: int| 0 <= p <= chars@.len() && #[trigger] skipped(chars@, p) == at,
        chars@[at as int] != '(',
        chars@[at as int] != ')',
        chars@[at as int] != '"',
    ensures
        r.1 == bare_end(chars@, at as int),
        r.0@ == chars@.subrange(at as int, r.1 as int),
        at < r.1 <= chars@.len(),
{
    proof {
        let p = choose|p: int| 0 <= p <= chars@.len() && #[trigger] skipped(chars@, p) == at;
        skipped_is_no_space(chars@, p);
    }
    read_bare(chars, at)
}

proof fn skipped_is_no_space(chars: Seq<char>, p: int)
    requires
        0 <= p <= chars.len(),
        skipped(chars, p) < chars.len(),
    ensures
        !is_space(chars[skipped(chars, p)]),
    decreases chars.len() - p,
{
    spaces_advance(chars, p);
    spaces_end(chars, p);
    let q = after_spaces(chars, p);
    if q < chars.len() && chars[q] == ';' {
        line_advances(chars, q + 1);
        skipped_is_no_space(chars, line_end(chars, q + 1));
    }
}

proof fn spaces_end(chars: Seq<char>, p: int)
    requires
        0 <= p <= chars.len(),
        after_spaces(chars, p) < chars.len(),
    ensures
        !is_space(chars[after_spaces(chars, p)]),
    decreases chars.len() - p,
{
    if p < chars.len() && is_space(chars[p]) {
        spaces_end(chars, p + 1);
    }
}

/// How many bytes the first `p` characters take.
fn bytes_before(chars: &Vec<char>, p: usize) -> (n: u128)
    requires
        p <= chars@.len(),
    ensures
        n == byte_offset(chars@, p as nat),
{
    let mut n: u128 = 0;
    let mut i: usize = 0;
    while i < p
        invariant
            i <= p <= chars@.len(),
            n == byte_offset(chars@, i as nat),
            n <= 4 * i,
        decreases p - i,
    {
        let code: u32 = chars[i] as u32;
        let width: u128 = if code < 0x80 {
            1
        } else if code < 0x800 {
            2
        } else if code < 0x1_0000 {
            3
        } else {
            4
        };
        n = n + width;
        i += 1;
    }
    n
}

/// Parse the first list of a text.
pub fn parse_sexp(chars: &Vec<char>) -> (r: Result<Sexp, SexpError>)
    ensures
        match r {
            Ok(sexp) => sexp_of(chars@) == Ok::<Tree, SexpError>(sexp.tree()) && sexp is List,
            Err(e) => sexp_of(chars@) == Err::<Tree, SexpError>(e),
        },
{
    let p: usize = skip(chars, 0);
    if p >= chars.len() || chars[p] != '(' {
        return Err(SexpError::ExpectedOpen(bytes_before(chars, p)));
    }
    match read_items(chars, p + 1) {
        Ok((items, _)) => {
            proof {
                list_tree(items);
            }
            Ok(Sexp::List(items))
        },
        Err(e) => Err(e),
    }
}

/// Reading an item moves forward, and stays within the text.
pub proof fn item_advances(chars: Seq<char>, p: int)
    requires
        0 <= p < chars.len(),
        !is_space(chars[p]),
        chars[p] != ')',
    ensures
        item_at(chars, p) matches Ok((_, q)) ==> p < q <= chars.len(),
    decreases chars.len() - p, 0int,
{
    if chars[p] == '(' {
        items_advance(chars, p + 1);
    } else if chars[p] == '"' {
        quoted_advances(chars, p + 1);
    } else {
        bare_advances(chars, p + 1);
    }
}

/// Reading the items of a list moves forward, and stays within the text.
pub proof fn items_advance(chars: Seq<char>, p: int)
    requires
        0 <= p <= chars.len(),
    ensures
        items_at(chars, p) matches Ok((_, q)) ==> p < q <= chars.len(),
    decreases chars.len() - p, 1int,
{
    skipped_advances(chars, p);
    let q = skipped(chars, p);
    if q < chars.len() && chars[q] != ')' {
        skipped_is_no_space(chars, p);
        item_advances(chars, q);
        if let Ok((_, r)) = item_at(chars, q) {
            items_advance(chars, r);
        }
    }
}

proof fn quoted_advances(chars: Seq<char>, p: int)
    requires
        0 <= p <= chars.len(),
    ensures
        quoted(chars, p) matches Some((_, q)) ==> p < q <= chars.len(),
    decreases chars.len() - p,
{
    if p < chars.len() && chars[p] != '"' {
        if chars[p] == '\\' {
            if p + 1 < chars.len() {
                quoted_advances(chars, p + 2);
            }
        } else {
            quoted_advances(chars, p + 1);
        }
    }
}

proof fn bare_advances(chars: Seq<char>, p: int)
    requires
        0 <= p <= chars.len(),
    ensures
        p <= bare_end(chars, p) <= chars.len(),
    decreases chars.len() - p,
{
    if p < chars.len() && !is_delimiter(chars[p]) {
        bare_advances(chars, p + 1);
    }
}

/// A text as it stands inside quotes: a quote and a backslash are escaped.
pub open spec fn escaped(text: Seq<char>) -> Seq<char>
    decreases text.len(),
{
    if text.len() == 0 {
        Seq::empty()
    } else if text[0] == '"' || text[0] == '\\' {
        seq!['\\', text[0]] + escaped(text.drop_first())
    } else {
        seq![text[0]] + escaped(text.drop_first())
    }
}

/// A quoted atom reads back as the text that was escaped into it.
pub proof fn quoted_reads_back(before: Seq<char>, text: Seq<char>, rest: Seq<char>)
    ensures
        quoted(before + escaped(text) + seq!['"'] + rest, before.len() as int) == Some(
            (text, (before.len() + escaped(text).len() + 1) as int),
        ),
    decreases text.len(),
{
    let all = before + escaped(text) + seq!['"'] + rest;
    let p = before.len() as int;
    if text.len() == 0 {
        assert(all[p] == '"');
        assert(text =~= Seq::<char>::empty());
    } else {
        let inner = text.drop_first();
        if text[0] == '"' || text[0] == '\\' {
            let longer = before + seq!['\\', text[0]];
            quoted_reads_back(longer, inner, rest);
            assert(longer + escaped(inner) + seq!['"'] + rest =~= all);
            assert(all[p] == '\\');
            assert(all[p + 1] == text[0]);
        } else {
            let longer = before + seq![text[0]];
            quoted_reads_back(longer, inner, rest);
            assert(longer + escaped(inner) + seq!['"'] + rest =~= all);
            assert(all[p] == text[0]);
        }
        assert(seq![text[0]] + inner =~= text);
    }
}

} // verus!

//! The syntax check of edited files.
use vstd::prelude::*;

use crate::bytes;
use crate::bytes::chars_before;
use crate::number;
use crate::number::dec_text_u128;
use crate::text;
use crate::text::{from_chars, same_text, to_chars};

verus! {

/// A tree of `tree_sitter`, as `Parser::parse` gives it.
#[verifier::external_type_specification]
#[verifier::external_body]
pub struct ExTree(tree_sitter::Tree);

/// A node of a tree of `tree_sitter`.
#[verifier::external_type_specification]
#[verifier::external_body]
pub struct ExNode<'tree>(tree_sitter::Node<'tree>);

/// A node of a syntax tree with all that is below it. Rows and columns count
/// from 0.
pub struct SyntaxView {
    pub kind: Seq<char>,
    /// Whether the node is an error.
    pub error: bool,
    /// Whether the node stands for something that is missing.
    pub missing: bool,
    /// Whether the node is an error or holds one.
    pub has_error: bool,
    pub row: usize,
    pub column: usize,
    pub start_byte: usize,
    pub end_byte: usize,
    pub children: Seq<SyntaxView>,
}

/// The languages that are checked.
#[derive(Debug, Clone, Copy, PartialEq, Eq, Structural)]
pub enum Grammar {
    Rust,
    Python,
    JavaScript,
    TypeScript,
    Tsx,
    Go,
    Yaml,
}

/// A node of a syntax tree with all that is below it. Rows and columns count
/// from 0.
#[derive(Debug)]
pub struct SyntaxNode {
    pub kind: String,
    pub error: bool,
    pub missing: bool,
    pub has_error: bool,
    pub row: usize,
    pub column: usize,
    pub start_byte: usize,
    pub end_byte: usize,
    pub children: Vec<SyntaxNode>,
}

/// A node over texts.
pub open spec fn syntax_of(n: SyntaxNode) -> SyntaxView
    decreases n, 0int,
{
    SyntaxView {
        kind: n.kind@,
        error: n.error,
        missing: n.missing,
        has_error: n.has_error,
        row: n.row,
        column: n.column,
        start_byte: n.start_byte,
        end_byte: n.end_byte,
        children: syntax_list(n.children@, n.children@.len() as int),
    }
}

/// The first `n` nodes over texts.
pub open spec fn syntax_list(v: Seq<SyntaxNode>, n: int) -> Seq<SyntaxView>
    decreases v, n,
{
    if n <= 0 || n > v.len() {
        Seq::empty()
    } else {
        syntax_list(v, n - 1).push(syntax_of(v[n - 1]))
    }
}

proof fn lemma_syntax_list(v: Seq<SyntaxNode>, n: int)
    requires
        0 <= n <= v.len(),
    ensures
        syntax_list(v, n).len() == n,
        forall|i: int| 0 <= i < n ==> #[trigger] syntax_list(v, n)[i] == syntax_of(v[i]),
    decreases n,
{
    if n > 0 {
        lemma_syntax_list(v, n - 1);
    }
}

proof fn lemma_child(n: SyntaxNode, i: int)
    requires
        0 <= i < n.children@.len(),
    ensures
        syntax_of(n).children.len() == n.children@.len(),
        syntax_of(n).children[i] == syntax_of(n.children@[i]),
        decreases_to!(syntax_of(n) => syntax_of(n.children@[i])),
{
    lemma_syntax_list(n.children@, n.children@.len() as int);
    let v = syntax_of(n);
    assert(decreases_to!(v => v.children));
    assert(decreases_to!(v.children => v.children[i]));
}

/// What a tree holds.
pub uninterp spec fn tree_view(tree: tree_sitter::Tree) -> SyntaxView;

/// What a node holds.
pub uninterp spec fn node_view(node: tree_sitter::Node) -> SyntaxView;

/// What `tree_sitter` makes of a text: nothing where it cannot load the grammar;
/// a tree, or no tree, where it can.
pub uninterp spec fn parse_of(grammar: Grammar, content: Seq<char>) -> Option<Option<SyntaxView>>;

/// A tree that may be there, by its view.
pub open spec fn parsed_view(r: Option<Option<tree_sitter::Tree>>) -> Option<Option<SyntaxView>> {
    match r {
        None => None,
        Some(None) => Some(None),
        Some(Some(tree)) => Some(Some(tree_view(tree))),
    }
}

/// `tree_sitter::Parser::parse` of a fresh parser behind `Parser::set_language`
/// with the grammar's own language. That the grammar loads, and what the tree
/// holds, depends on the grammar and the text alone.
#[verifier::external_body]
fn parse_source(grammar: Grammar, content: &str) -> (r: Option<Option<tree_sitter::Tree>>)
    ensures
        parsed_view(r) == parse_of(grammar, content@),
{
    let language: tree_sitter::Language = match grammar {
        Grammar::Rust => tree_sitter_rust::LANGUAGE.into(),
        Grammar::Python => tree_sitter_python::LANGUAGE.into(),
        Grammar::JavaScript => tree_sitter_javascript::LANGUAGE.into(),
        Grammar::TypeScript => tree_sitter_typescript::LANGUAGE_TYPESCRIPT.into(),
        Grammar::Tsx => tree_sitter_typescript::LANGUAGE_TSX.into(),
        Grammar::Go => tree_sitter_go::LANGUAGE.into(),
        Grammar::Yaml => tree_sitter_yaml::LANGUAGE.into(),
    };
    let mut parser = tree_sitter::Parser::new();
    parser.set_language(&language).ok()?;
    Some(parser.parse(content, None))
}

/// `tree_sitter::Tree::root_node`: the node that holds all of the tree.
#[verifier::external_body]
fn root_of<'tree>(tree: &'tree tree_sitter::Tree) -> (r: tree_sitter::Node<'tree>)
    ensures
        node_view(r) == tree_view(*tree),
{
    tree.root_node()
}

/// `tree_sitter::Node::is_error`: whether the node is an error.
pub assume_specification<'tree>[ tree_sitter::Node::<'tree>::is_error ](
    node: &tree_sitter::Node<'tree>,
) -> (r: bool)
    ensures
        r == node_view(*node).error,
;

/// `tree_sitter::Node::is_missing`: whether the node stands for something that is
/// missing.
pub assume_specification<'tree>[ tree_sitter::Node::<'tree>::is_missing ](
    node: &tree_sitter::Node<'tree>,
) -> (r: bool)
    ensures
        r == node_view(*node).missing,
;

/// `tree_sitter::Node::has_error`: whether the node is an error or holds one.
pub assume_specification<'tree>[ tree_sitter::Node::<'tree>::has_error ](
    node: &tree_sitter::Node<'tree>,
) -> (r: bool)
    ensures
        r == node_view(*node).has_error,
;

/// `tree_sitter::Node::kind`: the name of the node's kind.
pub assume_specification<'tree>[ tree_sitter::Node::<'tree>::kind ](
    node: &tree_sitter::Node<'tree>,
) -> (r: &'tree str)
    ensures
        r@ == node_view(*node).kind,
;

/// `tree_sitter::Node::start_byte`: how many bytes of the text stand before the
/// node.
pub assume_specification<'tree>[ tree_sitter::Node::<'tree>::start_byte ](
    node: &tree_sitter::Node<'tree>,
) -> (r: usize)
    ensures
        r == node_view(*node).start_byte,
;

/// `tree_sitter::Node::end_byte`: how many bytes of the text stand before the
/// node's end.
pub assume_specification<'tree>[ tree_sitter::Node::<'tree>::end_byte ](
    node: &tree_sitter::Node<'tree>,
) -> (r: usize)
    ensures
        r == node_view(*node).end_byte,
;

/// `tree_sitter::Node::child_count`: how many children the node has.
pub assume_specification<'tree>[ tree_sitter::Node::<'tree>::child_count ](
    node: &tree_sitter::Node<'tree>,
) -> (r: u32)
    ensures
        r == node_view(*node).children.len(),
;

/// `tree_sitter::Node::child`: the child at a place, where there is one.
#[verifier::external_body]
fn child_at<'tree>(node: &tree_sitter::Node<'tree>, i: u32) -> (r: Option<tree_sitter::Node<'tree>>)
    ensures
        r is Some == (i < node_view(*node).children.len()),
        r matches Some(child) ==> node_view(child) == node_view(*node).children[i as int],
{
    node.child(i)
}

/// `tree_sitter::Node::start_position`: row and column of the node.
#[verifier::external_body]
fn place_of(node: &tree_sitter::Node) -> (r: (usize, usize))
    ensures
        r.0 == node_view(*node).row,
        r.1 == node_view(*node).column,
{
    let point = node.start_position();
    (point.row, point.column)
}

/// Reads a node with all that is below it.
fn read_node(node: tree_sitter::Node) -> (r: SyntaxNode)
    ensures
        syntax_of(r) == node_view(node),
    decreases node_view(node),
{
    let ghost v = node_view(node);
    let count: u32 = node.child_count();
    let mut children: Vec<SyntaxNode> = Vec::new();
    let mut i: u32 = 0;
    while i < count
        invariant
            i <= count == v.children.len(),
            v == node_view(node),
            children@.len() == i,
            forall|k: int| 0 <= k < i ==> syntax_of(#[trigger] children@[k]) == v.children[k],
        decreases count - i,
    {
        if let Some(child) = child_at(&node, i) {
            proof {
                assert(decreases_to!(v => v.children));
                assert(decreases_to!(v.children => v.children[i as int]));
            }
            children.push(read_node(child));
        }
        i += 1;
    }
    let (row, column) = place_of(&node);
    let r = SyntaxNode {
        kind: node.kind().to_owned(),
        error: node.is_error(),
        missing: node.is_missing(),
        has_error: node.has_error(),
        row,
        column,
        start_byte: node.start_byte(),
        end_byte: node.end_byte(),
        children,
    };
    proof {
        lemma_syntax_list(r.children@, r.children@.len() as int);
        assert(syntax_of(r).children =~= v.children);
    }
    r
}

/// The tree that may be there, over texts.
pub open spec fn tree_of(r: Option<Option<SyntaxNode>>) -> Option<Option<SyntaxView>> {
    match r {
        None => None,
        Some(None) => Some(None),
        Some(Some(root)) => Some(Some(syntax_of(root))),
    }
}

/// The syntax tree of a text: nothing where the grammar does not load, and no
/// tree where none could be made.
pub fn parse_tree(grammar: Grammar, content: &str) -> (r: Option<Option<SyntaxNode>>)
    ensures
        tree_of(r) == parse_of(grammar, content@),
{
    match parse_source(grammar, content) {
        None => None,
        Some(None) => Some(None),
        Some(Some(tree)) => Some(Some(read_node(root_of(&tree)))),
    }
}

/// Whether something is missing at the node or below it.
pub open spec fn holds_missing(v: SyntaxView) -> bool
    decreases v, 0int,
{
    v.missing || some_missing(v.children, v.children.len() as int)
}

/// Whether something is missing in the first `n` of the nodes.
pub open spec fn some_missing(vs: Seq<SyntaxView>, n: int) -> bool
    decreases vs, n,
{
    if n <= 0 || n > vs.len() {
        false
    } else {
        some_missing(vs, n - 1) || holds_missing(vs[n - 1])
    }
}

/// Whether something is missing at the node or below it.
pub fn has_missing(node: &SyntaxNode) -> (r: bool)
    ensures
        r == holds_missing(syntax_of(*node)),
    decreases syntax_of(*node),
{
    let ghost v = syntax_of(*node);
    if node.missing {
        return true;
    }
    proof {
        lemma_syntax_list(node.children@, node.children@.len() as int);
    }
    let mut i: usize = 0;
    while i < node.children.len()
        invariant
            i <= node.children@.len() == v.children.len(),
            v == syntax_of(*node),
            !v.missing,
            !some_missing(v.children, i as int),
        decreases node.children.len() - i,
    {
        proof {
            lemma_child(*node, i as int);
        }
        if has_missing(&node.children[i]) {
            proof {
                lemma_missing_stays(v.children, i + 1, v.children.len() as int);
            }
            return true;
        }
        i += 1;
    }
    false
}

proof fn lemma_missing_stays(vs: Seq<SyntaxView>, n: int, m: int)
    requires
        some_missing(vs, n),
        n <= m <= vs.len(),
    ensures
        some_missing(vs, m),
    decreases m - n,
{
    if n < m {
        lemma_missing_stays(vs, n, m - 1);
    }
}

/// The first node, from the top, that is an error or stands for something that
/// is missing.
pub open spec fn first_bad(v: SyntaxView) -> Option<SyntaxView>
    decreases v, 0int,
{
    if v.error || v.missing {
        Some(v)
    } else {
        first_bad_from(v.children, 0)
    }
}

/// The first such node in the nodes from `k` on.
pub open spec fn first_bad_from(vs: Seq<SyntaxView>, k: int) -> Option<SyntaxView>
    decreases vs, vs.len() - k,
{
    if k < 0 || k >= vs.len() {
        None
    } else if first_bad(vs[k]) is Some {
        first_bad(vs[k])
    } else {
        first_bad_from(vs, k + 1)
    }
}

/// The first node, from the top, that is an error or stands for something that
/// is missing.
pub fn first_error(node: &SyntaxNode) -> (r: Option<&SyntaxNode>)
    ensures
        r is Some == first_bad(syntax_of(*node)) is Some,
        r matches Some(found) ==> Some(syntax_of(*found)) == first_bad(syntax_of(*node)),
    decreases syntax_of(*node),
{
    let ghost v = syntax_of(*node);
    if node.error || node.missing {
        return Some(node);
    }
    proof {
        lemma_syntax_list(node.children@, node.children@.len() as int);
    }
    let mut i: usize = 0;
    while i < node.children.len()
        invariant
            i <= node.children@.len() == v.children.len(),
            v == syntax_of(*node),
            first_bad(v) == first_bad_from(v.children, i as int),
        decreases node.children.len() - i,
    {
        proof {
            lemma_child(*node, i as int);
        }
        let found = first_error(&node.children[i]);
        if found.is_some() {
            return found;
        }
        i += 1;
    }
    None
}

/// A place in a text, counted from 1.
pub open spec fn place_text(row: usize, column: usize) -> Seq<char> {
    number::dec((row + 1) as nat) + ":"@ + number::dec((column + 1) as nat)
}

fn show_place(row: usize, column: usize) -> (r: String)
    ensures
        r@ == place_text(row, column),
{
    dec_text_u128(row as u128 + 1).concat(":").concat(&dec_text_u128(column as u128 + 1))
}

/// What is said of a tree: the first node that is an error or missing, if there
/// is any.
pub open spec fn syntax_verdict(root: SyntaxView) -> Result<(), Seq<char>> {
    if !root.has_error && !holds_missing(root) {
        Ok(())
    } else {
        let bad = match first_bad(root) {
            Some(v) => v,
            None => root,
        };
        Err(
            place_text(bad.row, bad.column) + ": "@ + (if bad.missing {
                "missing "@ + bad.kind
            } else {
                "syntax error"@
            }),
        )
    }
}

/// Names the first error of a tree.
pub fn check_syntax(root: &SyntaxNode) -> (r: Result<(), String>)
    ensures
        text::result_view(r) == syntax_verdict(syntax_of(*root)),
{
    if !root.has_error && !has_missing(root) {
        return Ok(());
    }
    let bad = match first_error(root) {
        Some(found) => found,
        None => root,
    };
    let kind = if bad.missing {
        "missing ".to_owned().concat(&bad.kind)
    } else {
        "syntax error".to_owned()
    };
    Err(show_place(bad.row, bad.column).concat(": ").concat(&kind))
}

/// The text between two places in bytes. A place inside a character counts as
/// the place before it.
pub open spec fn text_between(s: Seq<char>, start: usize, end: usize) -> Seq<char> {
    let a = bytes::chars_within(s, start as nat, s.len() as int);
    let b = bytes::chars_within(s, end as nat, s.len() as int);
    if a <= b {
        s.subrange(a, b)
    } else {
        Seq::empty()
    }
}

fn slice_bytes(s: &Vec<char>, start: usize, end: usize) -> (r: String)
    ensures
        r@ == text_between(s@, start, end),
{
    let a = chars_before(s, start);
    let b = chars_before(s, end);
    if a <= b {
        from_chars(s, a, b)
    } else {
        String::new()
    }
}

/// A key of a mapping, with its place.
pub struct KeyView {
    pub text: Seq<char>,
    pub row: usize,
    pub column: usize,
}

/// The keys of the pairs among the first `n` nodes: the first child of each.
pub open spec fn keys_of(vs: Seq<SyntaxView>, pair: Seq<char>, src: Seq<char>, n: int) -> Seq<KeyView>
    decreases n,
{
    if n <= 0 {
        Seq::empty()
    } else {
        let before = keys_of(vs, pair, src, n - 1);
        let v = vs[n - 1];
        if v.kind == pair && v.children.len() > 0 {
            let key = v.children[0];
            before.push(
                KeyView {
                    text: text_between(src, key.start_byte, key.end_byte),
                    row: key.row,
                    column: key.column,
                },
            )
        } else {
            before
        }
    }
}

/// Where a text first stands among the keys from `k` on.
pub open spec fn key_from(keys: Seq<KeyView>, text: Seq<char>, k: int) -> int
    decreases keys.len() - k,
{
    if k < 0 || k >= keys.len() || keys[k].text == text {
        k
    } else {
        key_from(keys, text, k + 1)
    }
}

/// What is said of the first key, from the key `k` on, that stands among those
/// before it.
pub open spec fn repeated_key(keys: Seq<KeyView>, k: int) -> Option<Seq<char>>
    decreases keys.len() - k,
{
    if k < 0 || k >= keys.len() {
        None
    } else {
        let first = key_from(keys, keys[k].text, 0);
        if first < k {
            Some(
                place_text(keys[k].row, keys[k].column) + ": duplicate key '"@ + keys[k].text
                    + "' (first defined at "@ + place_text(keys[first].row, keys[first].column)
                    + ")"@,
            )
        } else {
            repeated_key(keys, k + 1)
        }
    }
}

/// What the pairs of a mapping are called; nothing where the node is no mapping.
pub open spec fn pair_kind(kind: Seq<char>) -> Option<Seq<char>> {
    if kind == "block_mapping"@ {
        Some("block_mapping_pair"@)
    } else if kind == "flow_mapping"@ {
        Some("flow_pair"@)
    } else {
        None
    }
}

/// What is said of the first key that a mapping defines twice: that of the node
/// itself comes before those below it.
pub open spec fn repeated_in(v: SyntaxView, src: Seq<char>) -> Option<Seq<char>>
    decreases v, 0int,
{
    let own = match pair_kind(v.kind) {
        Some(pair) => repeated_key(
            keys_of(v.children, pair, src, v.children.len() as int),
            0,
        ),
        None => None,
    };
    if own is Some {
        own
    } else {
        repeated_from(v.children, src, 0)
    }
}

/// The same of the nodes from `k` on.
pub open spec fn repeated_from(vs: Seq<SyntaxView>, src: Seq<char>, k: int) -> Option<Seq<char>>
    decreases vs, vs.len() - k,
{
    if k < 0 || k >= vs.len() {
        None
    } else if repeated_in(vs[k], src) is Some {
        repeated_in(vs[k], src)
    } else {
        repeated_from(vs, src, k + 1)
    }
}

/// A key of a mapping, with its place.
#[derive(Debug)]
pub struct Key {
    pub text: String,
    pub row: usize,
    pub column: usize,
}

impl DeepView for Key {
    type V = KeyView;

    open spec fn deep_view(&self) -> KeyView {
        KeyView { text: self.text@, row: self.row, column: self.column }
    }
}

fn read_keys(node: &SyntaxNode, pair: &str, src: &Vec<char>) -> (r: Vec<Key>)
    ensures
        r.deep_view() == keys_of(
            syntax_of(*node).children,
            pair@,
            src@,
            node.children@.len() as int,
        ),
{
    let ghost vs = syntax_of(*node).children;
    let mut keys: Vec<Key> = Vec::new();
    let mut i: usize = 0;
    proof {
        lemma_syntax_list(node.children@, node.children@.len() as int);
        assert(keys.deep_view() =~= Seq::<KeyView>::empty());
    }
    while i < node.children.len()
        invariant
            i <= node.children@.len() == vs.len(),
            vs == syntax_of(*node).children,
            keys.deep_view() == keys_of(vs, pair@, src@, i as int),
        decreases node.children.len() - i,
    {
        let child = &node.children[i];
        proof {
            lemma_child(*node, i as int);
            lemma_syntax_list(child.children@, child.children@.len() as int);
        }
        if same_text(&child.kind, pair) && child.children.len() > 0 {
            let key = &child.children[0];
            proof {
                lemma_child(*child, 0);
            }
            let ghost o = keys.deep_view();
            let item = Key {
                text: slice_bytes(src, key.start_byte, key.end_byte),
                row: key.row,
                column: key.column,
            };
            let ghost iv = item.deep_view();
            keys.push(item);
            proof {
                assert(keys.deep_view() =~= o.push(iv));
            }
        }
        i += 1;
    }
    keys
}

fn find_key(keys: &Vec<Key>, text: &str) -> (r: usize)
    ensures
        r == key_from(keys.deep_view(), text@, 0),
        r <= keys@.len(),
{
    let ghost kv = keys.deep_view();
    let mut k: usize = 0;
    while k < keys.len()
        invariant
            k <= keys@.len() == kv.len(),
            kv == keys.deep_view(),
            key_from(kv, text@, 0) == key_from(kv, text@, k as int),
        decreases keys.len() - k,
    {
        proof {
            assert(kv[k as int] == keys@[k as int].deep_view());
        }
        if same_text(&keys[k].text, text) {
            return k;
        }
        k += 1;
    }
    k
}

fn find_repeated(keys: &Vec<Key>) -> (r: Option<String>)
    ensures
        r.deep_view() == repeated_key(keys.deep_view(), 0),
{
    let ghost kv = keys.deep_view();
    let mut k: usize = 0;
    while k < keys.len()
        invariant
            k <= keys@.len() == kv.len(),
            kv == keys.deep_view(),
            repeated_key(kv, 0) == repeated_key(kv, k as int),
        decreases keys.len() - k,
    {
        proof {
            assert(kv[k as int] == keys@[k as int].deep_view());
        }
        let first = find_key(keys, &keys[k].text);
        if first < k {
            proof {
                assert(kv[first as int] == keys@[first as int].deep_view());
            }
            return Some(
                show_place(keys[k].row, keys[k].column).concat(": duplicate key '").concat(
                    &keys[k].text,
                ).concat("' (first defined at ").concat(
                    &show_place(keys[first].row, keys[first].column),
                ).concat(")"),
            );
        }
        k += 1;
    }
    None
}

/// Names the first key that a mapping defines twice.
pub fn yaml_check_dup_keys(node: &SyntaxNode, src: &Vec<char>) -> (r: Option<String>)
    ensures
        r.deep_view() == repeated_in(syntax_of(*node), src@),
    decreases syntax_of(*node),
{
    let ghost v = syntax_of(*node);
    proof {
        lemma_syntax_list(node.children@, node.children@.len() as int);
    }
    let own = if same_text(&node.kind, "block_mapping") {
        find_repeated(&read_keys(node, "block_mapping_pair", src))
    } else if same_text(&node.kind, "flow_mapping") {
        find_repeated(&read_keys(node, "flow_pair", src))
    } else {
        None
    };
    if own.is_some() {
        return own;
    }
    let mut i: usize = 0;
    while i < node.children.len()
        invariant
            i <= node.children@.len() == v.children.len(),
            v == syntax_of(*node),
            repeated_in(v, src@) == repeated_from(v.children, src@, i as int),
        decreases node.children.len() - i,
    {
        proof {
            lemma_child(*node, i as int);
        }
        let found = yaml_check_dup_keys(&node.children[i], src);
        if found.is_some() {
            return found;
        }
        i += 1;
    }
    None
}

/// What is said of a YAML file: the first error, or the first key that a mapping
/// defines twice.
pub open spec fn yaml_verdict(root: SyntaxView, src: Seq<char>) -> Result<(), Seq<char>> {
    if root.has_error {
        let bad = match first_bad(root) {
            Some(v) => v,
            None => root,
        };
        Err(place_text(bad.row, bad.column) + ": syntax error"@)
    } else {
        match repeated_in(root, src) {
            Some(e) => Err(e),
            None => Ok(()),
        }
    }
}

/// Names the first error of the tree of a YAML file, or the first key that a
/// mapping defines twice.
pub fn yaml_check(root: &SyntaxNode, content: &str) -> (r: Result<(), String>)
    ensures
        text::result_view(r) == yaml_verdict(syntax_of(*root), content@),
{
    if root.has_error {
        let bad = match first_error(root) {
            Some(found) => found,
            None => root,
        };
        return Err(show_place(bad.row, bad.column).concat(": syntax error"));
    }
    match yaml_check_dup_keys(root, &to_chars(content)) {
        Some(e) => Err(e),
        None => Ok(()),
    }
}

/// The language of files with the extension `ext`, if it is checked.
pub open spec fn grammar_of(ext: Seq<char>) -> Option<Grammar> {
    if ext == "yaml"@ || ext == "yml"@ {
        Some(Grammar::Yaml)
    } else if ext == "rs"@ {
        Some(Grammar::Rust)
    } else if ext == "py"@ {
        Some(Grammar::Python)
    } else if ext == "js"@ || ext == "jsx"@ || ext == "mjs"@ || ext == "cjs"@ {
        Some(Grammar::JavaScript)
    } else if ext == "ts"@ || ext == "mts"@ {
        Some(Grammar::TypeScript)
    } else if ext == "tsx"@ {
        Some(Grammar::Tsx)
    } else if ext == "go"@ {
        Some(Grammar::Go)
    } else {
        None
    }
}

/// The language of files with the extension `ext`, if it is checked.
pub fn language_for(ext: &str) -> (r: Option<Grammar>)
    ensures
        r == grammar_of(ext@),
{
    if same_text(ext, "yaml") || same_text(ext, "yml") {
        Some(Grammar::Yaml)
    } else if same_text(ext, "rs") {
        Some(Grammar::Rust)
    } else if same_text(ext, "py") {
        Some(Grammar::Python)
    } else if same_text(ext, "js") || same_text(ext, "jsx") || same_text(ext, "mjs") || same_text(
        ext,
        "cjs",
    ) {
        Some(Grammar::JavaScript)
    } else if same_text(ext, "ts") || same_text(ext, "mts") {
        Some(Grammar::TypeScript)
    } else if same_text(ext, "tsx") {
        Some(Grammar::Tsx)
    } else if same_text(ext, "go") {
        Some(Grammar::Go)
    } else {
        None
    }
}

/// The verdict on a text for what `tree_sitter` makes of it.
pub open spec fn tree_verdict(
    grammar: Grammar,
    parsed: Option<Option<SyntaxView>>,
    content: Seq<char>,
) -> Result<(), Seq<char>> {
    match parsed {
        None => Ok(()),
        Some(None) => Err("tree-sitter parse returned no tree"@),
        Some(Some(root)) => if grammar == Grammar::Yaml {
            yaml_verdict(root, content)
        } else {
            syntax_verdict(root)
        },
    }
}

/// The verdict on a text with the extension `ext`. A language that is not checked
/// passes.
pub open spec fn ext_verdict(ext: Seq<char>, content: Seq<char>) -> Result<(), Seq<char>> {
    match grammar_of(ext) {
        None => Ok(()),
        Some(grammar) => tree_verdict(grammar, parse_of(grammar, content), content),
    }
}

/// Gives the verdict on a text for what was made of it.
pub fn judge_tree(grammar: Grammar, parsed: &Option<Option<SyntaxNode>>, content: &str) -> (r:
    Result<(), String>)
    ensures
        text::result_view(r) == tree_verdict(grammar, tree_of(*parsed), content@),
{
    match parsed {
        None => Ok(()),
        Some(None) => Err("tree-sitter parse returned no tree".to_owned()),
        Some(Some(root)) => match grammar {
            Grammar::Yaml => yaml_check(root, content),
            _ => check_syntax(root),
        },
    }
}

/// Checks the syntax of a text with the extension `ext`. The error names the
/// first place where it breaks.
pub fn parse_check_ext(ext: &str, content: &str) -> (r: Result<(), String>)
    ensures
        text::result_view(r) == ext_verdict(ext@, content@),
{
    match language_for(ext) {
        None => Ok(()),
        Some(grammar) => judge_tree(grammar, &parse_tree(grammar, content), content),
    }
}

/// Where the part of a path that ends at `end` starts.
pub open spec fn part_start(s: Seq<char>, end: int) -> int
    decreases end,
{
    if end <= 0 {
        0
    } else if s[end - 1] == '/' {
        end
    } else {
        part_start(s, end - 1)
    }
}

/// The last part of the path `s` up to `end` that is neither empty nor a dot.
pub open spec fn last_part(s: Seq<char>, end: int) -> Seq<char>
    decreases end,
    via last_part_decreases
{
    if end <= 0 {
        Seq::empty()
    } else {
        let start = part_start(s, end);
        let part = s.subrange(start, end);
        if part.len() > 0 && part != "."@ {
            part
        } else if start <= 0 {
            Seq::empty()
        } else {
            last_part(s, start - 1)
        }
    }
}

#[via_fn]
proof fn last_part_decreases(s: Seq<char>, end: int) {
    if end > 0 {
        lemma_part_start(s, end);
    }
}

proof fn lemma_part_start(s: Seq<char>, end: int)
    requires
        end >= 0,
    ensures
        0 <= part_start(s, end) <= end,
    decreases end,
{
    if end > 0 && s[end - 1] != '/' {
        lemma_part_start(s, end - 1);
    }
}

/// The place of the last dot before `end`, or -1.
pub open spec fn last_dot(s: Seq<char>, end: int) -> int
    decreases end,
{
    if end <= 0 {
        -1
    } else if s[end - 1] == '.' {
        end - 1
    } else {
        last_dot(s, end - 1)
    }
}

/// The extension of a file name: what stands behind its last dot, unless that
/// begins the name.
pub open spec fn name_extension(name: Seq<char>) -> Seq<char> {
    let dot = last_dot(name, name.len() as int);
    if name == ".."@ || dot <= 0 {
        Seq::empty()
    } else {
        name.subrange(dot + 1, name.len() as int)
    }
}

/// The extension of the file that a path with `/` between its parts names.
pub open spec fn path_extension(path: Seq<char>) -> Seq<char> {
    name_extension(last_part(path, path.len() as int))
}

fn find_last_part(v: &Vec<char>) -> (r: String)
    ensures
        r@ == last_part(v@, v@.len() as int),
{
    let mut end: usize = v.len();
    while end > 0
        invariant
            end <= v@.len(),
            last_part(v@, v@.len() as int) == last_part(v@, end as int),
        decreases end,
    {
        let mut start: usize = end;
        while start > 0 && v[start - 1] != '/'
            invariant
                start <= end <= v@.len(),
                part_start(v@, end as int) == part_start(v@, start as int),
            decreases start,
        {
            start -= 1;
        }
        let part = from_chars(v, start, end);
        if start < end && !same_text(&part, ".") {
            return part;
        }
        if start == 0 {
            return String::new();
        }
        end = start - 1;
    }
    String::new()
}

/// The extension of the file that a path names, or nothing.
pub fn extension(path: &str) -> (r: String)
    ensures
        r@ == path_extension(path@),
{
    let name = find_last_part(&to_chars(path));
    let v = to_chars(&name);
    if same_text(&name, "..") {
        return String::new();
    }
    let mut end: usize = v.len();
    while end > 0
        invariant
            end <= v@.len(),
            v@ == name@,
            last_dot(v@, v@.len() as int) == last_dot(v@, end as int),
            name@ != ".."@,
            path_extension(path@) == name_extension(name@),
        decreases end,
    {
        if v[end - 1] == '.' {
            if end == 1 {
                return String::new();
            }
            return from_chars(&v, end, v.len());
        }
        end -= 1;
    }
    String::new()
}

/// Checks the syntax of a text for the file that it is to stand in.
pub fn parse_check(rel_path: &str, content: &str) -> (r: Result<(), String>)
    ensures
        text::result_view(r) == ext_verdict(path_extension(rel_path@), content@),
{
    parse_check_ext(&extension(rel_path), content)
}

/// The node that is named is an error or stands for something that is missing.
pub proof fn named_node_is_bad(v: SyntaxView)
    ensures
        first_bad(v) matches Some(b) ==> b.error || b.missing,
    decreases v, 0int,
{
    if !(v.error || v.missing) {
        lemma_named_from(v.children, 0);
    }
}

proof fn lemma_named_from(vs: Seq<SyntaxView>, k: int)
    ensures
        first_bad_from(vs, k) matches Some(b) ==> b.error || b.missing,
    decreases vs, vs.len() - k,
{
    if 0 <= k < vs.len() {
        named_node_is_bad(vs[k]);
        lemma_named_from(vs, k + 1);
    }
}

/// Where something is missing, a node is named.
pub proof fn missing_is_found(v: SyntaxView)
    requires
        holds_missing(v),
    ensures
        first_bad(v) is Some,
    decreases v, 0int,
{
    if !(v.error || v.missing) {
        lemma_missing_found(v.children, v.children.len() as int, 0);
    }
}

proof fn lemma_missing_found(vs: Seq<SyntaxView>, n: int, k: int)
    requires
        0 <= k <= vs.len(),
        some_missing(vs, n),
        !some_missing(vs, k),
    ensures
        first_bad_from(vs, k) is Some,
    decreases vs, vs.len() - k,
{
    if k < vs.len() {
        if holds_missing(vs[k]) {
            missing_is_found(vs[k]);
        } else {
            lemma_missing_found(vs, n, k + 1);
        }
    } else {
        lemma_missing_stays(vs, n, vs.len() as int);
    }
}

/// A node is at fault where it is an error or stands for something that is missing; else the
/// first of its children that is, or that has such a node below it, leads to the one that is
/// named.
pub proof fn first_fault_is_named(v: SyntaxView, k: int)
    ensures
        v.error || v.missing ==> first_bad(v) == Some(v),
        !v.error && !v.missing && 0 <= k < v.children.len() && first_bad(v.children[k]) is Some && (
        forall|j: int| 0 <= j < k ==> first_bad(#[trigger] v.children[j]) is None) ==> first_bad(v)
            == first_bad(v.children[k]),
        !v.error && !v.missing && (forall|j: int|
            0 <= j < v.children.len() ==> first_bad(#[trigger] v.children[j]) is None)
            ==> first_bad(v) is None,
{
    if !v.error && !v.missing {
        if 0 <= k < v.children.len() && first_bad(v.children[k]) is Some && (forall|j: int|
            0 <= j < k ==> first_bad(#[trigger] v.children[j]) is None) {
            lemma_first_from(v.children, 0, k);
        }
        if forall|j: int|
            0 <= j < v.children.len() ==> first_bad(#[trigger] v.children[j]) is None {
            lemma_none_from(v.children, 0);
        }
    }
}

proof fn lemma_first_from(vs: Seq<SyntaxView>, i: int, k: int)
    requires
        0 <= i <= k < vs.len(),
        first_bad(vs[k]) is Some,
        forall|j: int| 0 <= j < k ==> first_bad(#[trigger] vs[j]) is None,
    ensures
        first_bad_from(vs, i) == first_bad(vs[k]),
    decreases k - i,
{
    if i < k {
        assert(first_bad(vs[i]) is None);
        lemma_first_from(vs, i + 1, k);
    }
}

proof fn lemma_none_from(vs: Seq<SyntaxView>, i: int)
    requires
        0 <= i <= vs.len(),
        forall|j: int| 0 <= j < vs.len() ==> first_bad(#[trigger] vs[j]) is None,
    ensures
        first_bad_from(vs, i) is None,
    decreases vs.len() - i,
{
    if i < vs.len() {
        assert(first_bad(vs[i]) is None);
        lemma_none_from(vs, i + 1);
    }
}

/// Something is missing in a tree where its root stands for it, or where it is missing below
/// one of the children.
pub proof fn missing_is_looked_for_below(v: SyntaxView)
    ensures
        holds_missing(v) <==> v.missing || exists|k: int|
            0 <= k < v.children.len() && holds_missing(#[trigger] v.children[k]),
{
    lemma_some_missing(v.children, v.children.len() as int);
}

proof fn lemma_some_missing(vs: Seq<SyntaxView>, n: int)
    requires
        0 <= n <= vs.len(),
    ensures
        some_missing(vs, n) <==> exists|k: int| 0 <= k < n && holds_missing(#[trigger] vs[k]),
    decreases n,
{
    if n > 0 {
        lemma_some_missing(vs, n - 1);
        if some_missing(vs, n - 1) {
            let k = choose|k: int| 0 <= k < n - 1 && holds_missing(#[trigger] vs[k]);
            assert(holds_missing(vs[k]));
        }
    }
}

/// A tree passes where nothing in it is an error or missing. Else the place of the node that
/// is at fault is told, counted from 1, and what is missing there is named.
pub proof fn faults_are_told_with_their_place(root: SyntaxView)
    ensures
        syntax_verdict(root) is Ok <==> !root.has_error && !holds_missing(root),
        syntax_verdict(root) matches Err(e) ==> (first_bad(root) matches Some(b) ==> {
            &&& text::starts_with(
                e,
                number::dec((b.row + 1) as nat) + ":"@ + number::dec((b.column + 1) as nat) + ": "@,
            )
            &&& b.missing ==> text::ends_with(e, "missing "@ + b.kind)
            &&& !b.missing ==> text::ends_with(e, "syntax error"@)
        }),
{
    match (syntax_verdict(root), first_bad(root)) {
        (Err(e), Some(b)) => {
            let h = number::dec((b.row + 1) as nat) + ":"@ + number::dec((b.column + 1) as nat)
                + ": "@;
            let w = if b.missing {
                "missing "@ + b.kind
            } else {
                "syntax error"@
            };
            assert(e == h + w);
            assert(e.subrange(0, h.len() as int) =~= h);
            assert(e.subrange(e.len() - w.len(), e.len() as int) =~= w);
        },
        _ => {},
    }
}

proof fn lemma_key_from(keys: Seq<KeyView>, text: Seq<char>, k: int, i: int)
    requires
        0 <= k <= i < keys.len(),
        keys[i].text == text,
    ensures
        k <= key_from(keys, text, k) <= i,
        keys[key_from(keys, text, k)].text == text,
        forall|j: int| k <= j < key_from(keys, text, k) ==> (#[trigger] keys[j]).text != text,
    decreases i - k,
{
    if keys[k].text != text {
        lemma_key_from(keys, text, k + 1, i);
    }
}

proof fn lemma_repeated(keys: Seq<KeyView>, k: int)
    requires
        0 <= k <= keys.len(),
    ensures
        match repeated_key(keys, k) {
            None => forall|i: int, j: int|
                k <= j < keys.len() && 0 <= i < j ==> (#[trigger] keys[i]).text != (
                #[trigger] keys[j]).text,
            Some(e) => exists|i: int, j: int| #[trigger] tells_repeat(keys, i, j, e) && k <= j,
        },
    decreases keys.len() - k,
{
    if k < keys.len() {
        let text = keys[k].text;
        lemma_key_from(keys, text, 0, k);
        let first = key_from(keys, text, 0);
        if first < k {
            lemma_repeat_text(keys, first, k);
            assert(tells_repeat(keys, first, k, repeated_key(keys, k)->0));
        } else {
            lemma_repeated(keys, k + 1);
            if repeated_key(keys, k) is None {
                assert forall|i: int, j: int|
                    k <= j < keys.len() && 0 <= i < j implies (#[trigger] keys[i]).text != (
                    #[trigger] keys[j]).text by {}
            }
        }
    }
}

/// Whether a text tells that the key at `j` stands at `i` already, with both places.
pub open spec fn tells_repeat(keys: Seq<KeyView>, i: int, j: int, e: Seq<char>) -> bool {
    &&& 0 <= i < j < keys.len()
    &&& keys[i].text == keys[j].text
    &&& text::starts_with(e, place_text(keys[j].row, keys[j].column))
    &&& text::has_text(e, keys[j].text)
    &&& text::has_text(e, "(first defined at "@ + place_text(keys[i].row, keys[i].column))
}

proof fn lemma_repeat_text(keys: Seq<KeyView>, i: int, j: int)
    requires
        0 <= i < j < keys.len(),
        keys[i].text == keys[j].text,
    ensures
        tells_repeat(
            keys,
            i,
            j,
            place_text(keys[j].row, keys[j].column) + ": duplicate key '"@ + keys[j].text
                + "' (first defined at "@ + place_text(keys[i].row, keys[i].column) + ")"@,
        ),
{
    reveal_strlit("' (first defined at ");
    reveal_strlit("(first defined at ");
    let a = place_text(keys[j].row, keys[j].column);
    let b = ": duplicate key '"@;
    let c = keys[j].text;
    let d = "' (first defined at "@;
    let f = place_text(keys[i].row, keys[i].column);
    let e = a + b + c + d + f + ")"@;
    assert(e.subrange(0, a.len() as int) =~= a);
    text::found_in_either(a + b, c, c);
    text::found_in_either(a + b + c, d, c);
    text::found_in_either(a + b + c + d, f, c);
    text::found_in_either(a + b + c + d + f, ")"@, c);
    let p = "(first defined at "@ + f;
    let k = (a + b + c).len() + 2;
    assert(e.subrange(k as int, k + p.len() as int) =~= p);
    assert(text::occurs_at(e, p, k as int));
}

/// The keys of a mapping are refused where one is written twice, and only there; the refusal
/// names the key and both places.
pub proof fn repeated_keys_are_refused(keys: Seq<KeyView>)
    ensures
        repeated_key(keys, 0) is Some <==> exists|i: int, j: int|
            0 <= i < j < keys.len() && (#[trigger] keys[i]).text == (#[trigger] keys[j]).text,
        repeated_key(keys, 0) matches Some(e) ==> exists|i: int, j: int|
            #[trigger] tells_repeat(keys, i, j, e),
{
    lemma_repeated(keys, 0);
    match repeated_key(keys, 0) {
        Some(e) => {
            let (i, j) = choose|i: int, j: int|
                #[trigger] tells_repeat(keys, i, j, e) && 0 <= j;
            assert(keys[i].text == keys[j].text);
        },
        None => {},
    }
}

/// A mapping whose own keys are refused is refused, and so is whatever holds one.
pub proof fn repeats_are_found_below(v: SyntaxView, src: Seq<char>, k: int)
    ensures
        v.kind == "block_mapping"@ && repeated_key(
            keys_of(v.children, "block_mapping_pair"@, src, v.children.len() as int),
            0,
        ) is Some ==> repeated_in(v, src) is Some,
        v.kind == "flow_mapping"@ && repeated_key(
            keys_of(v.children, "flow_pair"@, src, v.children.len() as int),
            0,
        ) is Some ==> repeated_in(v, src) is Some,
        0 <= k < v.children.len() && repeated_in(v.children[k], src) is Some ==> repeated_in(
            v,
            src,
        ) is Some,
{
    assert("block_mapping"@ != "flow_mapping"@) by {
        reveal_strlit("block_mapping");
        reveal_strlit("flow_mapping");
        assert("block_mapping"@.len() != "flow_mapping"@.len());
    }
    if 0 <= k < v.children.len() && repeated_in(v.children[k], src) is Some {
        lemma_repeated_from(v.children, src, 0, k);
    }
}

proof fn lemma_repeated_from(vs: Seq<SyntaxView>, src: Seq<char>, i: int, k: int)
    requires
        0 <= i <= k < vs.len(),
        repeated_in(vs[k], src) is Some,
    ensures
        repeated_from(vs, src, i) is Some,
    decreases k - i,
{
    if i < k {
        lemma_repeated_from(vs, src, i + 1, k);
    }
}

/// Each pair of a mapping gives its key: the text of its first child, and that child's place.
pub proof fn pairs_give_their_keys(
    vs: Seq<SyntaxView>,
    pair: Seq<char>,
    src: Seq<char>,
    n: int,
    i: int,
)
    requires
        0 <= i < n <= vs.len(),
        vs[i].kind == pair,
        vs[i].children.len() > 0,
    ensures
        exists|k: int|
            0 <= k < keys_of(vs, pair, src, n).len() && (#[trigger] keys_of(
                vs,
                pair,
                src,
                n,
            )[k]).row == vs[i].children[0].row && keys_of(vs, pair, src, n)[k].column
                == vs[i].children[0].column && keys_of(vs, pair, src, n)[k].text == text_between(
                src,
                vs[i].children[0].start_byte,
                vs[i].children[0].end_byte,
            ),
    decreases n,
{
    let all = keys_of(vs, pair, src, n);
    let key = vs[i].children[0];
    if i == n - 1 {
        assert(all[all.len() - 1].row == key.row);
    } else {
        pairs_give_their_keys(vs, pair, src, n - 1, i);
        let before = keys_of(vs, pair, src, n - 1);
        let k = choose|k: int|
            0 <= k < before.len() && (#[trigger] before[k]).row == key.row && before[k].column
                == key.column && before[k].text == text_between(
                src,
                key.start_byte,
                key.end_byte,
            );
        assert(all[k] == before[k]);
    }
}

/// What stands between two byte offsets is the text from the one to the other.
pub proof fn text_between_is_the_middle(
    a: Seq<char>,
    b: Seq<char>,
    c: Seq<char>,
    start: usize,
    end: usize,
)
    requires
        start == bytes::utf8_len(a),
        end == bytes::utf8_len(a) + bytes::utf8_len(b),
    ensures
        text_between(a + b + c, start, end) == b,
{
    let s = a + b + c;
    bytes::bytes_add_up(a, b, 'x');
    assert(s.take(a.len() as int) =~= a);
    assert(s.take((a + b).len() as int) =~= a + b);
    lemma_within(s, start as nat, a.len() as int);
    lemma_within(s, end as nat, (a + b).len() as int);
    assert(s.subrange(a.len() as int, (a + b).len() as int) =~= b);
}

proof fn lemma_within(s: Seq<char>, at: nat, k: int)
    requires
        0 <= k <= s.len(),
        bytes::utf8_len(s.take(k)) == at,
    ensures
        bytes::chars_within(s, at, s.len() as int) == k,
{
    if k < s.len() {
        bytes::lemma_utf8_grows(s, k, k + 1);
        bytes::lemma_prefix_ends(s, at, k);
    } else {
        assert(s.take(k) =~= s);
    }
}

/// A YAML file passes where it can be parsed and no key of it is repeated.
pub proof fn yaml_passes_without_repeats(root: SyntaxView, src: Seq<char>)
    ensures
        yaml_verdict(root, src) is Ok <==> !root.has_error && repeated_in(root, src) is None,
        yaml_verdict(root, src) matches Err(e) ==> !root.has_error ==> repeated_in(root, src)
            == Some(e),
        yaml_verdict(root, src) matches Err(e) ==> root.has_error ==> (first_bad(root) matches
            Some(b) ==> text::starts_with(
            e,
            number::dec((b.row + 1) as nat) + ":"@ + number::dec((b.column + 1) as nat),
        )),
{
    match (yaml_verdict(root, src), first_bad(root)) {
        (Err(e), Some(b)) => {
            let h = number::dec((b.row + 1) as nat) + ":"@ + number::dec((b.column + 1) as nat);
            if root.has_error {
                assert(e.subrange(0, h.len() as int) =~= h);
            }
        },
        _ => {},
    }
}

/// A file is judged by the grammar of its extension: one that has none passes, and one whose
/// tree cannot be had does not.
pub proof fn trees_are_judged_by_their_grammar(
    grammar: Grammar,
    root: SyntaxView,
    content: Seq<char>,
)
    ensures
        tree_verdict(grammar, None, content) is Ok,
        tree_verdict(grammar, Some(None), content) is Err,
        !root.has_error && !holds_missing(root) && grammar != Grammar::Yaml ==> tree_verdict(
            grammar,
            Some(Some(root)),
            content,
        ) is Ok,
        root.has_error ==> tree_verdict(grammar, Some(Some(root)), content) is Err,
        holds_missing(root) && grammar != Grammar::Yaml ==> tree_verdict(
            grammar,
            Some(Some(root)),
            content,
        ) is Err,
        grammar == Grammar::Yaml && repeated_in(root, content) is Some ==> tree_verdict(
            grammar,
            Some(Some(root)),
            content,
        ) is Err,
{
}

proof fn lemma_part_at(s: Seq<char>, end: int, k: int)
    requires
        0 <= k <= end <= s.len(),
        k == 0 || s[k - 1] == '/',
        forall|i: int| k <= i < end ==> (#[trigger] s[i]) != '/',
    ensures
        part_start(s, end) == k,
    decreases end,
{
    if end > k {
        assert(s[end - 1] != '/');
        lemma_part_at(s, end - 1, k);
    }
}

proof fn lemma_dot_at(s: Seq<char>, end: int, d: int)
    requires
        0 <= d < end <= s.len(),
        s[d] == '.',
        forall|i: int| d < i < end ==> (#[trigger] s[i]) != '.',
    ensures
        last_dot(s, end) == d,
    decreases end,
{
    if end - 1 > d {
        lemma_dot_at(s, end - 1, d);
    }
}

proof fn lemma_no_dot(s: Seq<char>, end: int)
    requires
        0 <= end <= s.len(),
        forall|i: int| 0 <= i < end ==> (#[trigger] s[i]) != '.',
    ensures
        last_dot(s, end) == -1,
    decreases end,
{
    if end > 0 {
        lemma_no_dot(s, end - 1);
    }
}

proof fn lemma_name_is_last(dir: Seq<char>, name: Seq<char>)
    requires
        name.len() > 0,
        name != "."@,
        forall|i: int| 0 <= i < name.len() ==> (#[trigger] name[i]) != '/',
        dir.len() == 0 || dir.last() == '/',
    ensures
        last_part(dir + name, (dir + name).len() as int) == name,
{
    let s = dir + name;
    let k = dir.len() as int;
    assert forall|i: int| k <= i < s.len() implies (#[trigger] s[i]) != '/' by {
        assert(s[i] == name[i - k]);
    }
    lemma_part_at(s, s.len() as int, k);
    assert(s.subrange(k, s.len() as int) =~= name);
}

/// The extension of a path is what follows the last dot of its last part; a dot that the part
/// begins with does not count, and a part without another has none.
pub proof fn extension_follows_the_last_dot(dir: Seq<char>, stem: Seq<char>, ext: Seq<char>)
    requires
        dir.len() == 0 || dir.last() == '/',
        forall|i: int| 0 <= i < stem.len() ==> (#[trigger] stem[i]) != '/',
        forall|i: int| 0 <= i < ext.len() ==> (#[trigger] ext[i]) != '/' && ext[i] != '.',
    ensures
        stem.len() > 0 && !(stem == "."@ && ext.len() == 0) ==> path_extension(
            dir + (stem + "."@ + ext),
        ) == ext,
        ext.len() > 0 ==> path_extension(dir + ext) == Seq::<char>::empty(),
        ext.len() > 0 ==> path_extension(dir + ("."@ + ext)) == Seq::<char>::empty(),
{
    reveal_strlit(".");
    reveal_strlit("..");
    if stem.len() > 0 && !(stem == "."@ && ext.len() == 0) {
        let name = stem + "."@ + ext;
        let d = stem.len() as int;
        assert(name[d] == '.');
        assert forall|i: int| 0 <= i < name.len() implies (#[trigger] name[i]) != '/' by {
            if i < d {
                assert(name[i] == stem[i]);
            } else if i > d {
                assert(name[i] == ext[i - d - 1]);
            }
        }
        assert forall|i: int| d < i < name.len() implies (#[trigger] name[i]) != '.' by {
            assert(name[i] == ext[i - d - 1]);
        }
        assert(name.len() >= 2);
        lemma_name_is_last(dir, name);
        lemma_dot_at(name, name.len() as int, d);
        if name == ".."@ {
            assert(stem.len() == 1 && ext.len() == 0);
            assert(stem[0] == name[0]);
            assert(stem =~= "."@);
        }
        assert(name.subrange(d + 1, name.len() as int) =~= ext);
    }
    if ext.len() > 0 {
        assert(ext[0] != '.');
        lemma_name_is_last(dir, ext);
        lemma_no_dot(ext, ext.len() as int);
        let name = "."@ + ext;
        assert(name.len() >= 2);
        assert forall|i: int| 0 < i < name.len() implies (#[trigger] name[i]) != '.' && name[i]
            != '/' by {
            assert(name[i] == ext[i - 1]);
        }
        assert(name[0] == '.');
        lemma_name_is_last(dir, name);
        lemma_dot_at(name, name.len() as int, 0);
    }
}

/// Each language has its extensions, and no other extension has one.
pub proof fn extensions_have_their_grammar(ext: Seq<char>)
    ensures
        grammar_of(ext) == Some(Grammar::Rust) <==> ext == "rs"@,
        grammar_of(ext) == Some(Grammar::Python) <==> ext == "py"@,
        grammar_of(ext) == Some(Grammar::Go) <==> ext == "go"@,
        grammar_of(ext) == Some(Grammar::Tsx) <==> ext == "tsx"@,
        grammar_of(ext) == Some(Grammar::Yaml) <==> ext == "yaml"@ || ext == "yml"@,
        grammar_of(ext) == Some(Grammar::TypeScript) <==> ext == "ts"@ || ext == "mts"@,
        grammar_of(ext) == Some(Grammar::JavaScript) <==> ext == "js"@ || ext == "jsx"@ || ext
            == "mjs"@ || ext == "cjs"@,
{
    reveal_strlit("rs");
    reveal_strlit("py");
    reveal_strlit("go");
    reveal_strlit("tsx");
    reveal_strlit("yaml");
    reveal_strlit("yml");
    reveal_strlit("ts");
    reveal_strlit("mts");
    reveal_strlit("js");
    reveal_strlit("jsx");
    reveal_strlit("mjs");
    reveal_strlit("cjs");
    assert("rs"@[0] == 'r' && "py"@[0] == 'p' && "go"@[0] == 'g' && "ts"@[0] == 't' && "js"@[0]
        == 'j');
    assert("tsx"@[0] == 't' && "yml"@[0] == 'y' && "mts"@[0] == 'm' && "mts"@[1] == 't');
    assert("jsx"@[0] == 'j' && "mjs"@[0] == 'm' && "mjs"@[1] == 'j' && "cjs"@[0] == 'c');
    assert("tsx"@ != "yaml"@ && "tsx"@ != "yml"@ && "tsx"@ != "rs"@ && "tsx"@ != "py"@);
    assert("tsx"@ != "js"@ && "tsx"@ != "jsx"@ && "tsx"@ != "mjs"@ && "tsx"@ != "cjs"@);
    assert("ts"@.len() == 2 && "tsx"@.len() == 3);
    assert("tsx"@ != "ts"@);
    assert("tsx"@ != "mts"@);
}

} // verus!

//! Describing the symbols of a file.
use vstd::prelude::*;

use crate::args;
use crate::args::{get_str_or, read_field, ArgValue, ArgView};
use crate::number;
use crate::number::dec_text;
use crate::order;
use crate::order::sorted_positions;
use crate::text;
use crate::text::{
    char_at_or_after, contains_text, from_chars, has_prefix, has_suffix, joined, same_text,
    split_char, to_chars, trimmed, without_prefix, without_prefixes,
};
use crate::tool;
use crate::tool::{ToolResult, ToolView};

verus! {

/// What a line above a symbol is.
pub enum DocView {
    /// A line of the comment.
    Text(Seq<char>),
    /// A line of the comment that is left out.
    Skip,
    /// The line that ends a block comment, with its text.
    End(Seq<char>),
    /// The first line of the comment, with a text or without.
    First(Option<Seq<char>>),
    /// No line of the comment.
    Stop,
}

/// Whether a line ends a block comment that begins above it.
pub open spec fn ends_block(t: Seq<char>) -> bool {
    text::ends_with(t, "*/"@) && !text::has_text(t, "/*"@)
}

/// The text of a line inside a block comment, without the stars before it. What
/// describes a parameter is left out.
pub open spec fn starred(t: Seq<char>) -> DocView {
    let s = text::trim(text::strip_all(t, "*"@));
    if text::starts_with(s, "@"@) {
        DocView::Skip
    } else {
        DocView::Text(s)
    }
}

/// The line that begins a block comment, and ends it where the end is on the same
/// line.
pub open spec fn opening(t: Seq<char>) -> DocView {
    let whole = if t.len() >= 4 && text::ends_with(t, "*/"@) {
        t.take(t.len() - 2)
    } else {
        t
    };
    let s = text::trim(text::strip_all(text::strip_all(whole, "/**"@), "/*"@));
    if s.len() > 0 {
        DocView::First(Some(s))
    } else {
        DocView::First(None)
    }
}

/// What a line above a symbol is; `t` is the line without white space around it.
/// `inside` is set where the end of a block comment was met below it.
pub open spec fn doc_line(t: Seq<char>, inside: bool) -> DocView {
    if inside {
        if text::starts_with(t, "/*"@) {
            opening(t)
        } else if text::has_text(t, "/*"@) {
            DocView::Stop
        } else {
            starred(t)
        }
    } else if text::starts_with(t, "///"@) {
        DocView::Text(text::trim(text::strip_prefix(t, "///"@)->0))
    } else if text::starts_with(t, "//!"@) {
        DocView::Text(text::trim(text::strip_prefix(t, "//!"@)->0))
    } else if text::starts_with(t, "#"@) && !text::starts_with(t, "#!"@) {
        DocView::Text(text::trim(text::strip_all(t, "#"@)))
    } else if text::starts_with(t, "/*"@) {
        opening(t)
    } else if text::starts_with(t, "//"@) {
        DocView::Text(text::trim(text::strip_all(t, "//"@)))
    } else if ends_block(t) {
        match starred(t.take(t.len() - 2)) {
            DocView::Text(s) => DocView::End(s),
            _ => DocView::End(Seq::empty()),
        }
    } else if text::starts_with(t, "*"@) && !text::starts_with(t, "*/"@) {
        starred(t)
    } else {
        DocView::Stop
    }
}

/// The lines of the comment that ends with the line with index `i`. `inside` is set
/// where that line stands before the end of a block comment.
pub open spec fn docs_up_to(ls: Seq<Seq<char>>, i: int, inside: bool) -> Seq<Seq<char>>
    decreases i + 1,
{
    if i < 0 || i >= ls.len() {
        Seq::empty()
    } else {
        match doc_line(text::trim(ls[i]), inside) {
            DocView::Text(s) => docs_up_to(ls, i - 1, inside).push(s),
            DocView::Skip => docs_up_to(ls, i - 1, inside),
            DocView::End(s) => docs_up_to(ls, i - 1, true).push(s),
            DocView::First(Some(s)) => seq![s],
            DocView::First(None) => Seq::empty(),
            DocView::Stop => Seq::empty(),
        }
    }
}

/// Those of the first `n` texts that are not empty.
pub open spec fn filled(v: Seq<Seq<char>>, n: int) -> Seq<Seq<char>>
    decreases n,
{
    if n <= 0 {
        Seq::empty()
    } else if v[n - 1].len() > 0 {
        filled(v, n - 1).push(v[n - 1])
    } else {
        filled(v, n - 1)
    }
}

/// The comment above the symbol on line `line`, as one text.
pub open spec fn doc_comment(ls: Seq<Seq<char>>, line: usize) -> Option<Seq<char>> {
    if line <= 1 || line > ls.len() {
        None
    } else {
        let docs = docs_up_to(ls, line - 2, false);
        let all = text::join(filled(docs, docs.len() as int), " "@);
        if all.len() == 0 {
            None
        } else {
            Some(all)
        }
    }
}

/// What a line above a symbol is.
#[derive(Debug)]
pub enum DocLine {
    Text(String),
    Skip,
    End(String),
    First(Option<String>),
    Stop,
}

impl DeepView for DocLine {
    type V = DocView;

    open spec fn deep_view(&self) -> DocView {
        match *self {
            DocLine::Text(s) => DocView::Text(s@),
            DocLine::Skip => DocView::Skip,
            DocLine::End(s) => DocView::End(s@),
            DocLine::First(s) => DocView::First(s.deep_view()),
            DocLine::Stop => DocView::Stop,
        }
    }
}

fn read_starred(t: &str) -> (r: DocLine)
    ensures
        r.deep_view() == starred(t@),
{
    let s = trimmed(&without_prefixes(t, "*"));
    if has_prefix(&s, "@") {
        return DocLine::Skip;
    }
    DocLine::Text(s)
}

fn read_opening(t: &str) -> (r: DocLine)
    ensures
        r.deep_view() == opening(t@),
{
    let v = to_chars(t);
    let whole = if v.len() >= 4 && has_suffix(t, "*/") {
        from_chars(&v, 0, v.len() - 2)
    } else {
        t.to_owned()
    };
    proof {
        if t@.len() >= 4 {
            assert(t@.subrange(0, t@.len() - 2) =~= t@.take(t@.len() - 2));
        }
    }
    let s = trimmed(&without_prefixes(&without_prefixes(&whole, "/**"), "/*"));
    if s.as_str().is_empty() {
        return DocLine::First(None);
    }
    DocLine::First(Some(s))
}

fn read_doc_line(t: &str, inside: bool) -> (r: DocLine)
    ensures
        r.deep_view() == doc_line(t@, inside),
{
    if inside {
        if has_prefix(t, "/*") {
            return read_opening(t);
        }
        if contains_text(t, "/*") {
            return DocLine::Stop;
        }
        return read_starred(t);
    }
    if let Some(s) = without_prefix(t, "///") {
        return DocLine::Text(trimmed(&s));
    }
    if let Some(s) = without_prefix(t, "//!") {
        return DocLine::Text(trimmed(&s));
    }
    if has_prefix(t, "#") && !has_prefix(t, "#!") {
        return DocLine::Text(trimmed(&without_prefixes(t, "#")));
    }
    if has_prefix(t, "/*") {
        return read_opening(t);
    }
    if has_prefix(t, "//") {
        return DocLine::Text(trimmed(&without_prefixes(t, "//")));
    }
    if has_suffix(t, "*/") && !contains_text(t, "/*") {
        let v = to_chars(t);
        proof {
            reveal_strlit("*/");
            assert(t@.subrange(0, t@.len() - 2) =~= t@.take(t@.len() - 2));
        }
        return match read_starred(&from_chars(&v, 0, v.len() - 2)) {
            DocLine::Text(s) => DocLine::End(s),
            _ => DocLine::End(String::new()),
        };
    }
    if has_prefix(t, "*") && !has_prefix(t, "*/") {
        return read_starred(t);
    }
    DocLine::Stop
}

/// The comment above the symbol on line `symbol_line`, as one text.
pub fn extract_doc_comment(lines: &[String], symbol_line: usize) -> (r: Option<String>)
    ensures
        r.deep_view() == doc_comment(lines.deep_view(), symbol_line),
{
    let ghost ls = lines.deep_view();
    proof {
        assert(lines@.len() == ls.len());
    }
    if symbol_line <= 1 || symbol_line > lines.len() {
        return None;
    }
    let mut found: Vec<String> = Vec::new();
    let mut i: usize = symbol_line - 1;
    let mut inside: bool = false;
    let ghost whole = docs_up_to(ls, symbol_line - 2, false);
    proof {
        assert(docs_up_to(ls, i - 1, inside) + found.deep_view().reverse() =~= whole);
    }
    loop
        invariant_except_break
            i < lines@.len() == ls.len(),
            ls == lines.deep_view(),
            docs_up_to(ls, i - 1, inside) + found.deep_view().reverse() == whole,
        ensures
            found.deep_view().reverse() == whole,
        decreases i,
    {
        let ghost before = found.deep_view();
        if i == 0 {
            proof {
                assert(docs_up_to(ls, -1, inside) + before.reverse() =~= before.reverse());
            }
            break;
        }
        i -= 1;
        proof {
            assert(ls[i as int] == lines@[i as int]@);
        }
        match read_doc_line(&trimmed(&lines[i]), inside) {
            DocLine::Text(s) => {
                let ghost sv = s@;
                found.push(s);
                proof {
                    assert(found.deep_view() =~= before.push(sv));
                    assert(docs_up_to(ls, i - 1, inside) + found.deep_view().reverse() =~= docs_up_to(
                        ls,
                        i as int,
                        inside,
                    ) + before.reverse());
                }
            },
            DocLine::Skip => {},
            DocLine::End(s) => {
                let ghost sv = s@;
                found.push(s);
                proof {
                    assert(found.deep_view() =~= before.push(sv));
                    assert(docs_up_to(ls, i - 1, true) + found.deep_view().reverse()
                        =~= docs_up_to(ls, i as int, inside) + before.reverse());
                }
                inside = true;
            },
            DocLine::First(Some(s)) => {
                let ghost sv = s@;
                found.push(s);
                proof {
                    assert(found.deep_view() =~= before.push(sv));
                    assert(found.deep_view().reverse() =~= seq![sv] + before.reverse());
                }
                break;
            },
            DocLine::First(None) => {
                proof {
                    assert(Seq::<Seq<char>>::empty() + before.reverse() =~= before.reverse());
                }
                break;
            },
            DocLine::Stop => {
                proof {
                    assert(Seq::<Seq<char>>::empty() + before.reverse() =~= before.reverse());
                }
                break;
            },
        }
    }
    let ghost fv = found.deep_view();
    let mut kept: Vec<String> = Vec::new();
    let mut k: usize = found.len();
    proof {
        assert(found@.len() == fv.len() == whole.len());
        assert(kept.deep_view() =~= filled(whole, 0));
    }
    while k > 0
        invariant
            k <= found@.len() == fv.len() == whole.len(),
            fv == found.deep_view(),
            fv.reverse() == whole,
            kept.deep_view() == filled(whole, fv.len() - k),
        decreases k,
    {
        k -= 1;
        proof {
            assert(whole[fv.len() - k - 1] == fv[k as int]);
            assert(fv[k as int] == found@[k as int]@);
        }
        if !found[k].as_str().is_empty() {
            let ghost o = kept.deep_view();
            kept.push(found[k].clone());
            proof {
                assert(kept.deep_view() =~= o.push(fv[k as int]));
            }
        }
    }
    let all = joined(&kept, " ");
    if all.as_str().is_empty() {
        None
    } else {
        Some(all)
    }
}

/// Where the bracket that is open to `depth` at position `i` closes; the length of
/// `s` where it does not.
pub open spec fn closing(s: Seq<char>, i: int, depth: int) -> int
    decreases s.len() - i,
{
    if i < 0 || i >= s.len() {
        s.len() as int
    } else if s[i] == '(' {
        closing(s, i + 1, depth + 1)
    } else if s[i] == ')' {
        if depth == 1 {
            i
        } else {
            closing(s, i + 1, depth - 1)
        }
    } else {
        closing(s, i + 1, depth)
    }
}

/// Whether a parameter is worth naming.
pub open spec fn is_parameter(p: Seq<char>) -> bool {
    p.len() > 0 && p != "&self"@ && p != "&mut self"@ && p != "self"@
}

/// The parameters among the first `n` pieces, without white space around them.
pub open spec fn parameters(v: Seq<Seq<char>>, n: int) -> Seq<Seq<char>>
    decreases n,
{
    if n <= 0 {
        Seq::empty()
    } else {
        let p = text::trim(v[n - 1]);
        if is_parameter(p) {
            parameters(v, n - 1).push(p)
        } else {
            parameters(v, n - 1)
        }
    }
}

/// The parameters of a function, from its signature; nothing for other symbols.
pub open spec fn param_info(signature: Seq<char>, kind: Seq<char>) -> Seq<char> {
    let open = text::char_from(signature, '(', 0);
    let close = closing(signature, open, 0);
    if kind != "function"@ || open >= signature.len() || close >= signature.len() || close <= open
        + 1 {
        Seq::empty()
    } else {
        let parts = text::split_from(signature.subrange(open + 1, close), ',', 0);
        text::join(parameters(parts, parts.len() as int), ", "@)
    }
}

fn find_closing(v: &Vec<char>, open: usize) -> (r: usize)
    requires
        open < v@.len(),
        v@[open as int] == '(',
    ensures
        r == closing(v@, open as int, 0),
        open < r <= v@.len(),
{
    let n: usize = v.len();
    let mut depth: usize = 1;
    let mut i: usize = open + 1;
    while i < n
        invariant
            open < i <= n == v@.len(),
            1 <= depth <= i - open,
            closing(v@, open as int, 0) == closing(v@, i as int, depth as int),
        decreases n - i,
    {
        if v[i] == '(' {
            depth += 1;
        } else if v[i] == ')' {
            if depth == 1 {
                return i;
            }
            depth -= 1;
        }
        i += 1;
    }
    n
}

fn pick_parameters(parts: &Vec<String>) -> (r: Vec<String>)
    ensures
        r.deep_view() == parameters(parts.deep_view(), parts@.len() as int),
{
    let ghost pv = parts.deep_view();
    let mut out: Vec<String> = Vec::new();
    let mut i: usize = 0;
    proof {
        assert(out.deep_view() =~= Seq::<Seq<char>>::empty());
    }
    while i < parts.len()
        invariant
            i <= parts@.len() == pv.len(),
            pv == parts.deep_view(),
            out.deep_view() == parameters(pv, i as int),
        decreases parts.len() - i,
    {
        proof {
            assert(pv[i as int] == parts@[i as int]@);
        }
        let p = trimmed(&parts[i]);
        if !p.as_str().is_empty() && !same_text(&p, "&self") && !same_text(&p, "&mut self")
            && !same_text(&p, "self") {
            let ghost o = out.deep_view();
            let ghost v = p@;
            out.push(p);
            proof {
                assert(out.deep_view() =~= o.push(v));
            }
        }
        i += 1;
    }
    out
}

/// The parameters of a function, from its signature.
pub fn extract_param_info(signature: &str, kind: &str) -> (r: String)
    ensures
        r@ == param_info(signature@, kind@),
{
    if !same_text(kind, "function") {
        return String::new();
    }
    let v = to_chars(signature);
    let open = char_at_or_after(&v, '(', 0);
    if open >= v.len() {
        return String::new();
    }
    proof {
        text::lemma_char_from(v@, '(', 0);
    }
    let close = find_closing(&v, open);
    if close >= v.len() || close <= open + 1 {
        return String::new();
    }
    let parts = split_char(&from_chars(&v, open + 1, close), ',');
    proof {
        assert(parts@.len() == parts.deep_view().len());
    }
    joined(&pick_parameters(&parts), ", ")
}

/// A symbol of a file.
#[derive(Debug)]
pub struct Symbol {
    pub name: String,
    pub kind: String,
    pub line: usize,
    pub signature: String,
    /// The comment above it, as far as it is shown.
    pub doc: Option<String>,
}

/// A symbol over texts.
pub struct SymbolView {
    pub name: Seq<char>,
    pub kind: Seq<char>,
    pub line: usize,
    pub signature: Seq<char>,
    pub doc: Option<Seq<char>>,
}

impl DeepView for Symbol {
    type V = SymbolView;

    open spec fn deep_view(&self) -> SymbolView {
        SymbolView {
            name: self.name@,
            kind: self.kind@,
            line: self.line,
            signature: self.signature@,
            doc: self.doc.deep_view(),
        }
    }
}

/// Keys by which symbols are in the order of their lines.
pub open spec fn line_keys(symbols: Seq<SymbolView>) -> Seq<(usize, usize)> {
    Seq::new(symbols.len(), |i: int| (symbols[i].line, 0usize))
}

/// The names that are asked for, without white space around them.
pub open spec fn wanted_names(filter: Option<Seq<char>>) -> Option<Seq<Seq<char>>> {
    match filter {
        None => None,
        Some(s) => {
            let parts = text::split_from(s, ',', 0);
            Some(Seq::new(parts.len(), |i: int| text::trim(parts[i])))
        },
    }
}

/// Whether a symbol is described.
pub open spec fn is_described(s: SymbolView, wanted: Option<Seq<Seq<char>>>) -> bool {
    s.kind != "impl"@ && (match wanted {
        None => true,
        Some(names) => names.contains(s.name),
    })
}

/// The description of a symbol.
pub open spec fn symbol_text(s: SymbolView) -> Seq<char> {
    let params = param_info(s.signature, s.kind);
    s.name + ":"@ + number::dec(s.line as nat) + " ["@ + s.kind + "] "@ + s.signature + "\n"@ + (
    match s.doc {
        Some(d) => "  "@ + d + "\n"@,
        None => Seq::empty(),
    }) + (if params.len() > 0 {
        "  params: "@ + params + "\n"@
    } else {
        Seq::empty()
    }) + "\n"@
}

/// The descriptions of the first `n` symbols in the given order.
pub open spec fn described(
    symbols: Seq<SymbolView>,
    order: Seq<usize>,
    wanted: Option<Seq<Seq<char>>>,
    n: int,
) -> Seq<char>
    decreases n,
{
    if n <= 0 {
        Seq::empty()
    } else {
        let s = symbols[order[n - 1] as int];
        described(symbols, order, wanted, n - 1) + (if is_described(s, wanted) {
            symbol_text(s)
        } else {
            Seq::empty()
        })
    }
}

/// What is answered: the summary of a file, and its symbols in the order of their
/// lines.
pub open spec fn description(
    path: Seq<char>,
    summary: Seq<char>,
    symbols: Seq<SymbolView>,
    filter: Option<Seq<char>>,
) -> ToolView {
    if symbols.len() == 0 {
        tool::ok_view(path + ": "@ + summary + "\nNo indexed symbols in this file."@)
    } else {
        tool::ok_view(
            path + ": "@ + summary + "\n\n"@ + described(
                symbols,
                order::sorted(line_keys(symbols)),
                wanted_names(filter),
                symbols.len() as int,
            ),
        )
    }
}

fn read_names(filter: &str) -> (r: Vec<String>)
    ensures
        Some(r.deep_view()) == wanted_names(Some(filter@)),
{
    let parts = split_char(filter, ',');
    let ghost pv = parts.deep_view();
    let ghost wanted = Seq::new(pv.len(), |i: int| text::trim(pv[i]));
    let mut out: Vec<String> = Vec::new();
    let mut i: usize = 0;
    proof {
        assert(out.deep_view() =~= wanted.take(0));
    }
    while i < parts.len()
        invariant
            i <= parts@.len() == pv.len(),
            pv == parts.deep_view(),
            wanted == Seq::new(pv.len(), |i: int| text::trim(pv[i])),
            out.deep_view() == wanted.take(i as int),
        decreases parts.len() - i,
    {
        let ghost o = out.deep_view();
        out.push(trimmed(&parts[i]));
        proof {
            assert(out.deep_view() =~= o.push(wanted[i as int]));
            assert(wanted.take(i + 1) =~= o.push(wanted[i as int]));
        }
        i += 1;
    }
    proof {
        assert(wanted.take(i as int) =~= wanted);
    }
    out
}

fn holds_name(names: &Vec<String>, name: &str) -> (r: bool)
    ensures
        r == names.deep_view().contains(name@),
{
    let ghost nv = names.deep_view();
    let mut i: usize = 0;
    while i < names.len()
        invariant
            i <= names@.len() == nv.len(),
            nv == names.deep_view(),
            forall|k: int| 0 <= k < i ==> #[trigger] nv[k] != name@,
        decreases names.len() - i,
    {
        if same_text(&names[i], name) {
            proof {
                assert(nv[i as int] == name@);
            }
            return true;
        }
        i += 1;
    }
    false
}

fn describe_symbol(s: &Symbol) -> (r: String)
    ensures
        r@ == symbol_text(s.deep_view()),
{
    let params = extract_param_info(&s.signature, &s.kind);
    let doc = match &s.doc {
        Some(d) => "  ".to_owned().concat(d).concat("\n"),
        None => String::new(),
    };
    let shown = if params.as_str().is_empty() {
        String::new()
    } else {
        "  params: ".to_owned().concat(&params).concat("\n")
    };
    s.name.clone().concat(":").concat(&dec_text(s.line)).concat(" [").concat(&s.kind).concat(
        "] ",
    ).concat(&s.signature).concat("\n").concat(&doc).concat(&shown).concat("\n")
}

/// Describes a file and its symbols. `filter` names the symbols that are asked
/// for, with commas between them.
pub fn describe_file(path: &str, summary: &str, symbols: &Vec<Symbol>, filter: Option<&str>) -> (r:
    ToolResult)
    ensures
        r.deep_view() == description(
            path@,
            summary@,
            symbols.deep_view(),
            match filter {
                Some(s) => Some(s@),
                None => None,
            },
        ),
{
    let ghost sv = symbols.deep_view();
    proof {
        assert(symbols@.len() == sv.len());
    }
    if symbols.len() == 0 {
        return ToolResult::ok(
            path.to_owned().concat(": ").concat(summary).concat(
                "\nNo indexed symbols in this file.",
            ),
        );
    }
    let names = match filter {
        Some(f) => Some(read_names(f)),
        None => None,
    };
    let ghost wanted = wanted_names(
        match filter {
            Some(s) => Some(s@),
            None => None,
        },
    );
    let mut keys: Vec<(usize, usize)> = Vec::new();
    let mut i: usize = 0;
    while i < symbols.len()
        invariant
            i <= symbols@.len() == sv.len(),
            sv == symbols.deep_view(),
            keys@ == line_keys(sv).take(i as int),
        decreases symbols.len() - i,
    {
        proof {
            assert(sv[i as int] == symbols@[i as int].deep_view());
        }
        keys.push((symbols[i].line, 0));
        i += 1;
        proof {
            assert(keys@ =~= line_keys(sv).take(i as int));
        }
    }
    proof {
        assert(keys@ =~= line_keys(sv));
    }
    let order = sorted_positions(&keys);
    let mut out = path.to_owned().concat(": ").concat(summary).concat("\n\n");
    let ghost head = out@;
    let mut k: usize = 0;
    proof {
        assert(out@ =~= head + described(sv, order@, wanted, 0));
    }
    while k < order.len()
        invariant
            k <= order@.len() == symbols@.len() == sv.len(),
            sv == symbols.deep_view(),
            order::is_order(line_keys(sv), order@, sv.len() as int),
            match names {
                Some(n) => wanted == Some(n.deep_view()),
                None => wanted is None,
            },
            out@ == head + described(sv, order@, wanted, k as int),
        decreases order.len() - k,
    {
        let at: usize = order[k];
        let s = &symbols[at];
        proof {
            assert(sv[at as int] == s.deep_view());
        }
        let asked = match &names {
            None => true,
            Some(n) => holds_name(n, &s.name),
        };
        if asked && !same_text(&s.kind, "impl") {
            out.append(&describe_symbol(s));
        }
        k += 1;
        proof {
            assert(out@ =~= head + described(sv, order@, wanted, k as int));
        }
    }
    ToolResult::ok(out)
}

/// How many characters of a comment are shown.
pub const MAX_DOC_CHARS: usize = 200;

/// What is to be described.
#[derive(Debug)]
pub struct DescribeRequest {
    pub path: String,
    /// The names that are asked for, between commas.
    pub symbols: Option<String>,
}

/// What is to be described, over texts.
pub struct DescribeView {
    pub path: Seq<char>,
    pub symbols: Option<Seq<char>>,
}

impl DeepView for DescribeRequest {
    type V = DescribeView;

    open spec fn deep_view(&self) -> DescribeView {
        DescribeView { path: self.path@, symbols: self.symbols.deep_view() }
    }
}

/// The request that arguments make.
pub open spec fn describe_request(path: Seq<char>, symbols: ArgView) -> Result<
    DescribeView,
    Seq<char>,
> {
    if path.len() == 0 {
        Err("path is required"@)
    } else {
        Ok(
            DescribeView {
                path,
                symbols: match symbols {
                    ArgView::Text(s) => Some(s),
                    _ => None,
                },
            },
        )
    }
}

/// Makes a request out of arguments.
pub fn make_describe_request(path: String, symbols: ArgValue) -> (r: Result<
    DescribeRequest,
    String,
>)
    ensures
        text::result_view(r) == describe_request(path@, symbols.deep_view()),
{
    if path.as_str().is_empty() {
        return Err("path is required".to_owned());
    }
    let symbols = match symbols {
        ArgValue::Text(s) => Some(s),
        _ => None,
    };
    Ok(DescribeRequest { path, symbols })
}

/// Reads a request.
pub fn read_describe_request(args: &serde_json::Value) -> (r: Result<DescribeRequest, String>)
    ensures
        text::result_view(r) == describe_request(
            args::text_or(args::field(*args, "path"@), Seq::empty()),
            args::field(*args, "symbols"@),
        ),
{
    let none = String::new();
    make_describe_request(get_str_or(args, "path", &none), read_field(args, "symbols"))
}

/// Answers that a file could not be read.
pub fn report_unreadable(path: &str) -> (r: ToolResult)
    ensures
        r.deep_view() == tool::err_view("Cannot read file: "@ + path@),
{
    ToolResult::err("Cannot read file: ".to_owned().concat(path))
}

/// A line of a line comment is its text behind the slashes, without white space around it.
pub proof fn line_comments_are_read(s: Seq<char>)
    ensures
        doc_line("///"@ + s, false) == DocView::Text(text::trim(s)),
        doc_line("//!"@ + s, false) == DocView::Text(text::trim(s)),
{
    reveal_strlit("///");
    reveal_strlit("//!");
    let a = "///"@ + s;
    let b = "//!"@ + s;
    assert(a.subrange(0, 3) =~= "///"@);
    assert(a.subrange(3, a.len() as int) =~= s);
    assert(b.subrange(0, 3) =~= "//!"@);
    assert(b.subrange(3, b.len() as int) =~= s);
    assert(!text::starts_with(b, "///"@)) by {
        if text::starts_with(b, "///"@) {
            assert(b.subrange(0, 3)[2] == b[2]);
        }
    }
}

/// The lines of a comment above a symbol: those from index `a` on, each of which begins
/// with three slashes.
pub open spec fn is_comment_block(ls: Seq<Seq<char>>, texts: Seq<Seq<char>>, a: int) -> bool {
    &&& 0 <= a
    &&& a + texts.len() <= ls.len()
    &&& forall|k: int|
        0 <= k < texts.len() ==> text::trim(ls[a + k]) == "///"@ + #[trigger] texts[k]
}

proof fn lemma_comment_block(ls: Seq<Seq<char>>, texts: Seq<Seq<char>>, a: int)
    requires
        is_comment_block(ls, texts, a),
        a == 0 || doc_line(text::trim(ls[a - 1]), false) is Stop,
    ensures
        docs_up_to(ls, a + texts.len() - 1, false) == Seq::new(
            texts.len(),
            |k: int| text::trim(texts[k]),
        ),
    decreases texts.len(),
{
    let wanted = Seq::new(texts.len(), |k: int| text::trim(texts[k]));
    let i = a + texts.len() - 1;
    if texts.len() == 0 {
        assert(docs_up_to(ls, i, false) =~= wanted);
    } else {
        let front = texts.drop_last();
        assert forall|k: int| 0 <= k < front.len() implies text::trim(ls[a + k]) == "///"@
            + #[trigger] front[k] by {
            assert(front[k] == texts[k]);
        }
        lemma_comment_block(ls, front, a);
        assert(text::trim(ls[a + (texts.len() - 1)]) == "///"@ + texts[texts.len() - 1]);
        line_comments_are_read(texts.last());
        assert(docs_up_to(ls, i, false) =~= wanted);
    }
}

proof fn lemma_all_filled(v: Seq<Seq<char>>, n: int)
    requires
        0 <= n <= v.len(),
        forall|k: int| 0 <= k < v.len() ==> (#[trigger] v[k]).len() > 0,
    ensures
        filled(v, n) == v.take(n),
    decreases n,
{
    if n > 0 {
        lemma_all_filled(v, n - 1);
        assert(v[n - 1].len() > 0);
        assert(v.take(n) =~= v.take(n - 1).push(v[n - 1]));
    } else {
        assert(filled(v, n) =~= v.take(n));
    }
}

/// A line comment that stands right above a symbol is found whole: its lines, without the
/// slashes and the white space around them, with a space between each two. Nothing above
/// it belongs to it.
pub proof fn comment_above_is_found(
    ls: Seq<Seq<char>>,
    texts: Seq<Seq<char>>,
    a: int,
    line: usize,
)
    requires
        is_comment_block(ls, texts, a),
        a == 0 || doc_line(text::trim(ls[a - 1]), false) is Stop,
        texts.len() > 0,
        forall|k: int| 0 <= k < texts.len() ==> text::trim(#[trigger] texts[k]).len() > 0,
        line == a + texts.len() + 1,
        line <= ls.len(),
    ensures
        doc_comment(ls, line) == Some(
            text::join(Seq::new(texts.len(), |k: int| text::trim(texts[k])), " "@),
        ),
{
    let docs = Seq::new(texts.len(), |k: int| text::trim(texts[k]));
    lemma_comment_block(ls, texts, a);
    assert(docs_up_to(ls, line - 2, false) == docs);
    assert forall|k: int| 0 <= k < docs.len() implies (#[trigger] docs[k]).len() > 0 by {
        assert(text::trim(texts[k]).len() > 0);
    }
    lemma_all_filled(docs, docs.len() as int);
    assert(docs.take(docs.len() as int) =~= docs);
    let all = text::join(docs, " "@);
    assert(all.len() > 0) by {
        if docs.len() > 1 {
            assert(docs[docs.len() - 1].len() > 0);
        } else {
            assert(docs[0].len() > 0);
        }
    }
}

/// Where the line above a symbol is no comment, or there is no line above it, there is no
/// comment.
pub proof fn no_comment_is_made_up(ls: Seq<Seq<char>>, line: usize)
    requires
        line <= 1 || line > ls.len() || doc_line(text::trim(ls[line - 2]), false) is Stop,
    ensures
        doc_comment(ls, line) is None,
{
}

proof fn lemma_closing(s: Seq<char>, i: int, e: int)
    requires
        0 <= i <= e < s.len(),
        s[e] == ')',
        forall|k: int| i <= k < e ==> #[trigger] s[k] != '(' && s[k] != ')',
    ensures
        closing(s, i, 1) == e,
    decreases e - i,
{
    if i < e {
        lemma_closing(s, i + 1, e);
    }
}

/// The parameters of a function are what stands between its brackets, cut at the commas,
/// without white space around each; the receiver and empty pieces are left out. Other
/// symbols have none.
pub proof fn parameters_are_read(
    head: Seq<char>,
    inner: Seq<char>,
    tail: Seq<char>,
    kind: Seq<char>,
)
    requires
        !head.contains('('),
        inner.len() > 0,
        !inner.contains('('),
        !inner.contains(')'),
    ensures
        param_info(head + seq!['('] + inner + seq![')'] + tail, "function"@) == text::join(
            parameters(
                text::split_from(inner, ',', 0),
                text::split_from(inner, ',', 0).len() as int,
            ),
            ", "@,
        ),
        kind != "function"@ ==> param_info(
            head + seq!['('] + inner + seq![')'] + tail,
            kind,
        ).len() == 0,
{
    let s = head + seq!['('] + inner + seq![')'] + tail;
    let open = head.len() as int;
    let close = open + 1 + inner.len();
    text::lemma_char_from(s, '(', 0);
    let found = text::char_from(s, '(', 0);
    assert(s[open] == '(');
    if found < open {
        assert(s[found] == head[found]);
        assert(head.contains(head[found]));
    }
    assert(s[close] == ')');
    assert forall|k: int| open + 1 <= k < close implies #[trigger] s[k] != '(' && s[k] != ')' by {
        assert(s[k] == inner[k - open - 1]);
        assert(inner.contains(inner[k - open - 1]));
    }
    lemma_closing(s, open + 1, close);
    assert(closing(s, open, 0) == close);
    assert(s.subrange(open + 1, close) =~= inner);
}

/// One more piece is one more parameter, unless it is empty or the receiver.
pub proof fn pieces_become_parameters(v: Seq<Seq<char>>, p: Seq<char>)
    ensures
        parameters(v.push(p), v.len() as int + 1) == (if text::trim(p).len() == 0 || text::trim(p)
            == "self"@ || text::trim(p) == "&self"@ || text::trim(p) == "&mut self"@ {
            parameters(v, v.len() as int)
        } else {
            parameters(v, v.len() as int).push(text::trim(p))
        }),
        parameters(Seq::empty(), 0) == Seq::<Seq<char>>::empty(),
{
    lemma_parameters(v, p, v.len() as int);
}

proof fn lemma_parameters(v: Seq<Seq<char>>, p: Seq<char>, n: int)
    requires
        0 <= n <= v.len(),
    ensures
        parameters(v.push(p), n) == parameters(v, n),
    decreases n,
{
    if n > 0 {
        lemma_parameters(v, p, n - 1);
        assert(v.push(p)[n - 1] == v[n - 1]);
    }
}

proof fn lemma_described(
    symbols: Seq<SymbolView>,
    order: Seq<usize>,
    wanted: Option<Seq<Seq<char>>>,
    n: int,
    a: int,
)
    requires
        0 <= a < n <= order.len(),
        is_described(symbols[order[a] as int], wanted),
    ensures
        text::has_text(
            described(symbols, order, wanted, n),
            symbol_text(symbols[order[a] as int]),
        ),
    decreases n,
{
    let p = symbol_text(symbols[order[a] as int]);
    let last = symbols[order[n - 1] as int];
    if a < n - 1 {
        lemma_described(symbols, order, wanted, n - 1, a);
    }
    text::found_in_either(
        described(symbols, order, wanted, n - 1),
        if is_described(last, wanted) {
            symbol_text(last)
        } else {
            Seq::empty()
        },
        p,
    );
}

/// Every symbol that is asked for is described with its name, line, kind and signature,
/// and its comment where it has one; all are asked for where no names are given, but no
/// `impl` is described.
pub proof fn asked_symbols_are_described(
    path: Seq<char>,
    summary: Seq<char>,
    symbols: Seq<SymbolView>,
    filter: Option<Seq<char>>,
    i: int,
)
    requires
        symbols.len() <= usize::MAX,
        0 <= i < symbols.len(),
        symbols[i].kind != "impl"@,
        filter matches Some(f) ==> exists|k: int|
            0 <= k < text::split_from(f, ',', 0).len() && text::trim(
                #[trigger] text::split_from(f, ',', 0)[k],
            ) == symbols[i].name,
    ensures
        text::has_text(
            description(path, summary, symbols, filter).content,
            symbols[i].name + ":"@ + number::dec(symbols[i].line as nat) + " ["@ + symbols[i].kind
                + "] "@ + symbols[i].signature + "\n"@ + (match symbols[i].doc {
                Some(d) => "  "@ + d + "\n"@,
                None => Seq::empty(),
            }),
        ),
        text::starts_with(
            description(path, summary, symbols, filter).content,
            path + ": "@ + summary,
        ),
        description(path, summary, symbols, filter).success,
{
    let s = symbols[i];
    let wanted = wanted_names(filter);
    match filter {
        Some(f) => {
            let parts = text::split_from(f, ',', 0);
            let k = choose|k: int|
                0 <= k < parts.len() && text::trim(#[trigger] parts[k]) == s.name;
            assert(wanted->Some_0[k] == s.name);
            assert(wanted->Some_0.contains(s.name));
        },
        None => {},
    }
    order::lemma_sorted(line_keys(symbols));
    let order = order::sorted(line_keys(symbols));
    assert(order.contains(i as usize));
    let a = order.index_of(i as usize);
    lemma_described(symbols, order, wanted, order.len() as int, a);
    let p = s.name + ":"@ + number::dec(s.line as nat) + " ["@ + s.kind + "] "@ + s.signature
        + "\n"@ + (match s.doc {
        Some(d) => "  "@ + d + "\n"@,
        None => Seq::empty(),
    });
    let params = param_info(s.signature, s.kind);
    let x = if params.len() > 0 {
        "  params: "@ + params + "\n"@
    } else {
        Seq::empty()
    };
    text::found_in_either(p, x, p);
    text::found_in_either(p + x, "\n"@, p);
    let all = described(symbols, order, wanted, order.len() as int);
    text::found_through(all, symbol_text(s), p);
    let head = path + ": "@ + summary;
    text::found_in_either(head + "\n\n"@, all, p);
    let c = description(path, summary, symbols, filter).content;
    assert(c.subrange(0, head.len() as int) =~= head);
}

/// Symbols are described in the order of their lines: what is described of one with a
/// smaller line stands before what is described of the other.
pub proof fn symbols_are_described_in_order(
    symbols: Seq<SymbolView>,
    wanted: Option<Seq<Seq<char>>>,
    i: int,
    j: int,
)
    requires
        symbols.len() <= usize::MAX,
        0 <= i < symbols.len(),
        0 <= j < symbols.len(),
        symbols[i].line < symbols[j].line,
        is_described(symbols[i], wanted),
        is_described(symbols[j], wanted),
    ensures
        exists|x: Seq<char>, y: Seq<char>|
            described(
                symbols,
                order::sorted(line_keys(symbols)),
                wanted,
                symbols.len() as int,
            ) == #[trigger] (x + y) && text::has_text(x, symbol_text(symbols[i]))
                && text::has_text(y, symbol_text(symbols[j])),
{
    let keys = line_keys(symbols);
    order::lemma_sorted(keys);
    let o = order::sorted(keys);
    assert(o.contains(i as usize) && o.contains(j as usize));
    let a = o.index_of(i as usize);
    let b = o.index_of(j as usize);
    assert(a < b) by {
        if b < a {
            assert(order::precedes(keys, o[b] as int, o[a] as int));
        }
    }
    lemma_described(symbols, o, wanted, b, a);
    lemma_described_tail(symbols, o, wanted, b, o.len() as int);
    let x = described(symbols, o, wanted, b);
    let all = described(symbols, o, wanted, o.len() as int);
    let y = all.skip(x.len() as int);
    assert(all =~= x + y);
}

proof fn lemma_described_tail(
    symbols: Seq<SymbolView>,
    order: Seq<usize>,
    wanted: Option<Seq<Seq<char>>>,
    b: int,
    n: int,
)
    requires
        0 <= b < n <= order.len(),
        is_described(symbols[order[b] as int], wanted),
    ensures
        ({
            let x = described(symbols, order, wanted, b);
            let all = described(symbols, order, wanted, n);
            &&& x.len() <= all.len()
            &&& all.take(x.len() as int) == x
            &&& text::has_text(all.skip(x.len() as int), symbol_text(symbols[order[b] as int]))
        }),
    decreases n,
{
    let x = described(symbols, order, wanted, b);
    let all = described(symbols, order, wanted, n);
    let p = symbol_text(symbols[order[b] as int]);
    let last = symbols[order[n - 1] as int];
    let more = if is_described(last, wanted) {
        symbol_text(last)
    } else {
        Seq::empty()
    };
    let before = described(symbols, order, wanted, n - 1);
    if b < n - 1 {
        lemma_described_tail(symbols, order, wanted, b, n - 1);
        assert(all.take(x.len() as int) =~= before.take(x.len() as int));
        assert(all.skip(x.len() as int) =~= before.skip(x.len() as int) + more);
        text::found_in_either(before.skip(x.len() as int), more, p);
    } else {
        assert(all.take(x.len() as int) =~= x);
        assert(all.skip(x.len() as int) =~= more);
        text::found_in_either(more, more, p);
    }
}

/// A request holds the file and the names as they were given, and is made exactly where a
/// file is named; names that are no text count as none.
pub proof fn describe_request_holds_its_arguments(path: Seq<char>, symbols: ArgView)
    ensures
        describe_request(path, symbols) is Ok <==> path.len() > 0,
        describe_request(path, symbols) matches Ok(r) ==> r.path == path && match symbols {
            ArgView::Text(s) => r.symbols == Some(s),
            _ => r.symbols is None,
        },
{
}

/// A comment behind a number sign is read without it; a second sign goes too, and a line that
/// names an interpreter is none.
pub proof fn hash_comments_are_read(s: Seq<char>)
    requires
        s.len() > 0 ==> s[0] != '#' && s[0] != '!',
    ensures
        doc_line("#"@ + s, false) == DocView::Text(text::trim(s)),
        doc_line("#!"@ + s, false) !is Text,
{
    reveal_strlit("#");
    reveal_strlit("#!");
    reveal_strlit("///");
    reveal_strlit("//!");
    reveal_strlit("/*");
    reveal_strlit("//");
    reveal_strlit("*");
    let t = "#"@ + s;
    let u = "#!"@ + s;
    assert(t.subrange(0, 1) =~= "#"@);
    assert(u.subrange(0, 2) =~= "#!"@);
    assert(t[0] == '#' && u[0] == '#');
    lemma_starts_apart(t, "///"@);
    lemma_starts_apart(t, "//!"@);
    lemma_starts_apart(u, "///"@);
    lemma_starts_apart(u, "//!"@);
    lemma_starts_apart(u, "/*"@);
    lemma_starts_apart(u, "//"@);
    lemma_starts_apart(u, "*"@);
    if text::starts_with(t, "#!"@) {
        assert(t.subrange(0, 2)[1] == t[1]);
        assert(t[1] == s[0]);
    }
    if text::starts_with(s, "#"@) {
        assert(s.subrange(0, 1)[0] == s[0]);
    }
    text::prefixes_are_taken_off(s, "#"@);
}

/// A comment behind two slashes is read without them.
pub proof fn slash_comments_are_read(s: Seq<char>)
    requires
        s.len() > 0 ==> s[0] != '/' && s[0] != '!',
    ensures
        doc_line("//"@ + s, false) == DocView::Text(text::trim(s)),
{
    reveal_strlit("#");
    reveal_strlit("///");
    reveal_strlit("//!");
    reveal_strlit("/*");
    reveal_strlit("//");
    let t = "//"@ + s;
    assert(t.subrange(0, 2) =~= "//"@);
    assert(t[0] == '/' && t[1] == '/');
    lemma_starts_apart(t, "#"@);
    if text::starts_with(t, "/*"@) {
        assert(t.subrange(0, 2)[1] == t[1]);
    }
    if text::starts_with(t, "///"@) || text::starts_with(t, "//!"@) {
        assert(t.subrange(0, 3)[2] == t[2]);
        assert(t[2] == s[0]);
    }
    if text::starts_with(s, "//"@) {
        assert(s.subrange(0, 2)[0] == s[0]);
    }
    text::prefixes_are_taken_off(s, "//"@);
}

/// A line inside a block comment is read without the star before it, unless it describes a
/// parameter: then it is left out.
pub proof fn starred_lines_are_read(s: Seq<char>)
    requires
        s.len() > 0 ==> s[0] != '*' && s[0] != '/',
        !text::has_text("*"@ + s, "/*"@),
    ensures
        doc_line("*"@ + s, true) == (if text::trim(s).len() > 0 && text::trim(s)[0] == '@' {
            DocView::Skip
        } else {
            DocView::Text(text::trim(s))
        }),
{
    reveal_strlit("*");
    reveal_strlit("/*");
    reveal_strlit("@");
    let t = "*"@ + s;
    assert(t.subrange(0, 1) =~= "*"@);
    assert(t[0] == '*');
    lemma_starts_apart(t, "/*"@);
    if text::starts_with(s, "*"@) {
        assert(s.subrange(0, 1)[0] == s[0]);
    }
    text::prefixes_are_taken_off(s, "*"@);
    let w = text::trim(s);
    if w.len() > 0 {
        assert(w.subrange(0, 1)[0] == w[0]);
        if w[0] == '@' {
            assert(w.subrange(0, 1) =~= "@"@);
        }
    }
}

proof fn lemma_starts_apart(t: Seq<char>, p: Seq<char>)
    requires
        t.len() > 0,
        p.len() > 0,
        t[0] != p[0],
    ensures
        !text::starts_with(t, p),
{
    if text::starts_with(t, p) {
        assert(t.subrange(0, p.len() as int)[0] == t[0]);
    }
}

} // verus!

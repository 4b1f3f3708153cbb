//! The textual program format: a line-oriented ASCII listing of labelled
//! commands, its parser, its loader into command values, and a formatter
//! that writes a command list back out.

use vstd::prelude::*;

use crate::obj::{Cmd, CmdArg, CmdArgV, CmdV, CtxNs, CtxNsV, CtxRef};
use vstd::std_specs::iter::IteratorSpec;

verus! {

broadcast use vstd::string::group_string_axioms, vstd::string::next_postcondition;

/// Relies on `String::push`: appends exactly the given character.
pub assume_specification[ String::push ](s: &mut String, ch: char)
    ensures
        final(s)@ == old(s)@.push(ch),
;

/// Identifier characters: letters, digits and underscore.
pub open spec fn is_ident_c(c: char) -> bool {
    ('a' <= c && c <= 'z') || ('A' <= c && c <= 'Z') || ('0' <= c && c <= '9') || c == '_'
}

/// Horizontal whitespace between arguments.
pub open spec fn is_space_c(c: char) -> bool {
    c == ' ' || c == '\t'
}

/// Punctuation accepted inside quoted values.
pub open spec fn is_symbol_c(c: char) -> bool {
    (' ' <= c && c <= '/') || (':' <= c && c <= '@') || ('[' <= c && c <= '`') || ('{' <= c && c
        <= '~')
}

/// Characters accepted verbatim inside quoted values: no backslash, no
/// quote, and printable ASCII.
pub open spec fn is_string_c(c: char) -> bool {
    c != '\\' && c != '\'' && (is_ident_c(c) || is_space_c(c) || is_symbol_c(c))
}

/// The end of the identifier run starting at `i`.
pub open spec fn ident_end(s: Seq<char>, i: int) -> int
    decreases s.len() - i when 0 <= i <= s.len()
{
    if i < s.len() && is_ident_c(s[i]) {
        ident_end(s, i + 1)
    } else {
        i
    }
}

/// The end of the whitespace run starting at `i`.
pub open spec fn spaces_end(s: Seq<char>, i: int) -> int
    decreases s.len() - i when 0 <= i <= s.len()
{
    if i < s.len() && is_space_c(s[i]) {
        spaces_end(s, i + 1)
    } else {
        i
    }
}

/// Scanning an identifier run never leaves the text and only moves forward.
pub proof fn lemma_ident_end_bounds(s: Seq<char>, i: int)
    requires
        0 <= i <= s.len(),
    ensures
        i <= ident_end(s, i) <= s.len(),
    decreases s.len() - i,
{
    if i < s.len() && is_ident_c(s[i]) {
        lemma_ident_end_bounds(s, i + 1)
    }
}

/// Scanning a whitespace run never leaves the text and only moves forward.
pub proof fn lemma_spaces_end_bounds(s: Seq<char>, i: int)
    requires
        0 <= i <= s.len(),
    ensures
        i <= spaces_end(s, i) <= s.len(),
    decreases s.len() - i,
{
    if i < s.len() && is_space_c(s[i]) {
        lemma_spaces_end_bounds(s, i + 1)
    }
}

/// Exec test for an identifier character.
pub fn ident_char(c: char) -> (r: bool)
    ensures
        r == is_ident_c(c),
{
    ('a' <= c && c <= 'z') || ('A' <= c && c <= 'Z') || ('0' <= c && c <= '9') || c == '_'
}

/// Exec test for argument whitespace.
pub fn space_char(c: char) -> (r: bool)
    ensures
        r == is_space_c(c),
{
    c == ' ' || c == '\t'
}

/// Exec test for a verbatim quoted-value character.
pub fn string_char(c: char) -> (r: bool)
    ensures
        r == is_string_c(c),
{
    c != '\\' && c != '\'' && (ident_char(c) || space_char(c) || ((' ' <= c && c <= '/') || (':'
        <= c && c <= '@') || ('[' <= c && c <= '`') || ('{' <= c && c <= '~')))
}

/// Scan an identifier run.
fn scan_ident(s: &Vec<char>, i: usize) -> (r: usize)
    requires
        i <= s@.len(),
    ensures
        r == ident_end(s@, i as int),
        i <= r <= s@.len(),
{
    let mut j = i;
    proof {
        lemma_ident_end_bounds(s@, i as int);
    }
    while j < s.len() && ident_char(s[j])
        invariant
            i <= j <= s@.len(),
            ident_end(s@, i as int) == ident_end(s@, j as int),
            ident_end(s@, i as int) <= s@.len(),
        decreases s@.len() - j,
    {
        j = j + 1;
        proof {
            lemma_ident_end_bounds(s@, j as int);
        }
    }
    j
}

/// Scan a whitespace run.
fn scan_spaces(s: &Vec<char>, i: usize) -> (r: usize)
    requires
        i <= s@.len(),
    ensures
        r == spaces_end(s@, i as int),
        i <= r <= s@.len(),
{
    let mut j = i;
    proof {
        lemma_spaces_end_bounds(s@, i as int);
    }
    while j < s.len() && space_char(s[j])
        invariant
            i <= j <= s@.len(),
            spaces_end(s@, i as int) == spaces_end(s@, j as int),
            spaces_end(s@, i as int) <= s@.len(),
        decreases s@.len() - j,
    {
        j = j + 1;
        proof {
            lemma_spaces_end_bounds(s@, j as int);
        }
    }
    j
}

/// The characters of a text, in order.
pub fn ir_input(input: &str) -> (r: Vec<char>)
    ensures
        r@ == input@,
{
    let mut it = input.chars();
    let mut r: Vec<char> = Vec::new();
    proof {
        assert(it.remaining() =~= input@);
    }
    loop
        invariant
            r@ + it.remaining() == input@,
            r@.len() <= input@.len(),
        ensures
            r@ == input@,
        decreases input@.len() - r@.len(),
    {
        let ghost pre = it.remaining();
        match it.next() {
            Some(c) => {
                r.push(c);
                proof {
                    assert(r@ + it.remaining() =~= input@);
                }
            },
            None => {
                proof {
                    assert(r@ =~= input@);
                }
                break ;
            },
        }
    }
    r
}

/// The text between two positions, as an owned string.
fn string_of(s: &Vec<char>, i: usize, j: usize) -> (r: String)
    requires
        i <= j <= s@.len(),
    ensures
        r@ == s@.subrange(i as int, j as int),
{
    let mut r = String::new();
    let mut k = i;
    proof {
        assert(r@ =~= s@.subrange(i as int, i as int));
    }
    while k < j
        invariant
            i <= k <= j <= s@.len(),
            r@ == s@.subrange(i as int, k as int),
        decreases j - k,
    {
        r.push(s[k]);
        k = k + 1;
        proof {
            assert(r@ =~= s@.subrange(i as int, k as int));
        }
    }
    r
}

/// One parsed argument: a literal, a current-context reference, or a
/// cross-context reference.
#[derive(Debug, PartialEq, Eq)]
pub enum IRArg {
    Const(String),
    Ref(String),
    XRef(String, String),
}

/// Spec model of `IRArg`.
pub enum IRArgV {
    Const(Seq<char>),
    Ref(Seq<char>),
    XRef(Seq<char>, Seq<char>),
}

impl DeepView for IRArg {
    type V = IRArgV;

    open spec fn deep_view(&self) -> IRArgV {
        match self {
            IRArg::Const(v) => IRArgV::Const(v@),
            IRArg::Ref(v) => IRArgV::Ref(v@),
            IRArg::XRef(a, b) => IRArgV::XRef(a@, b@),
        }
    }
}

/// A position in the source text: character offset and one-based line.
#[derive(Debug, PartialEq, Eq, Clone, Copy)]
pub struct Location {
    pub offset: usize,
    pub line: usize,
}

impl DeepView for Location {
    type V = Location;

    open spec fn deep_view(&self) -> Location {
        *self
    }
}

/// Why loading failed.
#[derive(Debug, PartialEq, Eq, Clone, Copy)]
pub enum IRErrType {
    /// The text was not consumed in full: what remains parses as no line.
    AdditionalData,
    /// A command line has a label but no arguments at all.
    OpcodeMissing,
    /// A command line repeats the label of an earlier one.
    DuplicateLabel,
}

/// A load failure and where it happened.
#[derive(Debug, PartialEq, Eq, Clone, Copy)]
pub struct IRErr {
    pub location: Location,
    pub code: IRErrType,
}

/// End of quoted content starting after the opening quote: the index of the
/// closing quote, scanning verbatim characters and backslash escapes.
pub open spec fn quoted_end(s: Seq<char>, i: int) -> Option<int>
    decreases s.len() - i when 0 <= i <= s.len()
{
    if i >= s.len() {
        None
    } else if s[i] == '\'' {
        Some(i)
    } else if is_string_c(s[i]) {
        quoted_end(s, i + 1)
    } else if s[i] == '\\' && i + 1 < s.len() && (s[i + 1] == '"' || s[i + 1] == 'n' || s[i + 1]
        == '\\') {
        quoted_end(s, i + 2)
    } else {
        None
    }
}

pub proof fn lemma_quoted_end_bounds(s: Seq<char>, i: int)
    requires
        0 <= i <= s.len(),
    ensures
        quoted_end(s, i) matches Some(q) ==> i <= q < s.len() && s[q] == '\'',
    decreases s.len() - i,
{
    if i < s.len() {
        if s[i] == '\'' {
        } else if is_string_c(s[i]) {
            lemma_quoted_end_bounds(s, i + 1);
        } else if s[i] == '\\' && i + 1 < s.len() && (s[i + 1] == '"' || s[i + 1] == 'n' || s[i
            + 1] == '\\') {
            lemma_quoted_end_bounds(s, i + 2);
        }
    }
}

/// One argument parsed at position `i`: the argument and the position after
/// it.
pub open spec fn parse_arg_v(s: Seq<char>, i: int) -> Option<(IRArgV, int)> {
    if i >= s.len() {
        None
    } else if s[i] == '$' {
        let j = ident_end(s, i + 1);
        if j == i + 1 {
            None
        } else if j < s.len() && s[j] == '.' && ident_end(s, j + 1) > j + 1 {
            Some(
                (
                    IRArgV::XRef(s.subrange(i + 1, j), s.subrange(j + 1, ident_end(s, j + 1))),
                    ident_end(s, j + 1),
                ),
            )
        } else {
            Some((IRArgV::Ref(s.subrange(i + 1, j)), j))
        }
    } else if s[i] == '\'' {
        match quoted_end(s, i + 1) {
            None => None,
            Some(q) => if q == i + 1 {
                None
            } else {
                Some((IRArgV::Const(s.subrange(i + 1, q)), q + 1))
            },
        }
    } else {
        let j = ident_end(s, i);
        if j > i {
            Some((IRArgV::Const(s.subrange(i, j)), j))
        } else {
            None
        }
    }
}

/// A parsed argument always ends after where it began, inside the text.
pub proof fn lemma_parse_arg_bounds(s: Seq<char>, i: int)
    requires
        0 <= i <= s.len(),
    ensures
        parse_arg_v(s, i) matches Some(p) ==> i < p.1 <= s.len(),
{
    if i < s.len() {
        lemma_ident_end_bounds(s, i);
        if i + 1 <= s.len() {
            lemma_ident_end_bounds(s, i + 1);
            lemma_quoted_end_bounds(s, i + 1);
            if ident_end(s, i + 1) < s.len() {
                lemma_ident_end_bounds(s, ident_end(s, i + 1) + 1);
            }
        }
    }
}

/// A whitespace-separated argument list starting at `i`: the arguments and
/// the position after the last one (trailing whitespace not consumed).
pub open spec fn parse_args_v(s: Seq<char>, i: int) -> (Seq<IRArgV>, int)
    decreases s.len() - i when 0 <= i <= s.len()
{
    match parse_arg_v(s, i) {
        None => (Seq::empty(), i),
        Some((a, j)) => {
            let k = spaces_end(s, j);
            if i < j <= s.len() && j < k <= s.len() && parse_arg_v(s, k) is Some {
                let (rest, e) = parse_args_v(s, k);
                (seq![a] + rest, e)
            } else {
                (seq![a], j)
            }
        },
    }
}

pub proof fn lemma_parse_args_bounds(s: Seq<char>, i: int)
    requires
        0 <= i <= s.len(),
    ensures
        i <= parse_args_v(s, i).1 <= s.len(),
    decreases s.len() - i,
{
    lemma_parse_arg_bounds(s, i);
    match parse_arg_v(s, i) {
        None => {},
        Some((a, j)) => {
            lemma_spaces_end_bounds(s, j);
            let k = spaces_end(s, j);
            if i < j <= s.len() && j < k <= s.len() && parse_arg_v(s, k) is Some {
                lemma_parse_args_bounds(s, k);
            }
        },
    }
}

/// A command line parsed at `i`: its label, its arguments, and the position
/// after its line ending (or at the end of the text).
pub open spec fn parse_command_v(s: Seq<char>, i: int) -> Option<(Seq<char>, Seq<IRArgV>, int)> {
    let l = ident_end(s, i);
    if 0 <= i && l < s.len() && s[l] == ':' {
        let p = spaces_end(s, l + 1);
        let (args, e) = parse_args_v(s, p);
        let q = spaces_end(s, e);
        if q >= s.len() {
            Some((s.subrange(i, l), args, q))
        } else if s[q] == '\n' {
            Some((s.subrange(i, l), args, q + 1))
        } else if s[q] == '\r' && q + 1 < s.len() && s[q + 1] == '\n' {
            Some((s.subrange(i, l), args, q + 2))
        } else {
            None
        }
    } else {
        None
    }
}

pub proof fn lemma_parse_command_bounds(s: Seq<char>, i: int)
    requires
        0 <= i <= s.len(),
    ensures
        parse_command_v(s, i) matches Some(c) ==> i < c.2 <= s.len(),
{
    lemma_ident_end_bounds(s, i);
    let l = ident_end(s, i);
    if l < s.len() && s[l] == ':' {
        lemma_spaces_end_bounds(s, l + 1);
        let p = spaces_end(s, l + 1);
        lemma_parse_args_bounds(s, p);
        let (args, e) = parse_args_v(s, p);
        lemma_spaces_end_bounds(s, e);
    }
}

/// End of a comment starting at `i` (after `#`): the position after its
/// newline, or the end of the text.
pub open spec fn comment_end(s: Seq<char>, i: int) -> int
    decreases s.len() - i when 0 <= i <= s.len()
{
    if i >= s.len() {
        i
    } else if s[i] == '\n' {
        i + 1
    } else {
        comment_end(s, i + 1)
    }
}

pub proof fn lemma_comment_end_bounds(s: Seq<char>, i: int)
    requires
        0 <= i <= s.len(),
    ensures
        i <= comment_end(s, i) <= s.len(),
    decreases s.len() - i,
{
    if i < s.len() && s[i] != '\n' {
        lemma_comment_end_bounds(s, i + 1);
    }
}

/// A blank line at `i`: the position after its newline, if the line holds
/// only whitespace.
pub open spec fn parse_empty_v(s: Seq<char>, i: int) -> Option<int> {
    let k = spaces_end(s, i);
    if k >= s.len() {
        if k > i {
            Some(k)
        } else {
            None
        }
    } else if s[k] == '\n' {
        Some(k + 1)
    } else if s[k] == '\r' && k + 1 < s.len() && s[k + 1] == '\n' {
        Some(k + 2)
    } else {
        None
    }
}

/// One-based line number of position `i`: one more than the newlines before
/// it.
pub open spec fn line_of(s: Seq<char>, i: int) -> int
    decreases i when 0 <= i <= s.len()
{
    if i <= 0 {
        1
    } else {
        line_of(s, i - 1) + (if s[i - 1] == '\n' {
            1int
        } else {
            0int
        })
    }
}

/// A command found in the text, with its position.
pub struct IRItemV {
    pub offset: int,
    pub line_no: int,
    pub label: Seq<char>,
    pub args: Seq<IRArgV>,
}

/// All lines parsed from position `i` on: the command items found and the
/// position where no further line parses.
pub open spec fn parse_file_v(s: Seq<char>, i: int) -> (Seq<IRItemV>, int)
    decreases s.len() - i when 0 <= i <= s.len()
{
    if i >= s.len() {
        (Seq::empty(), i)
    } else if s[i] == '#' {
        let e = comment_end(s, i + 1);
        if i < e <= s.len() {
            parse_file_v(s, e)
        } else {
            (Seq::empty(), i)
        }
    } else {
        match parse_empty_v(s, i) {
            Some(e) => if i < e <= s.len() {
                parse_file_v(s, e)
            } else {
                (Seq::empty(), i)
            },
            None => match parse_command_v(s, i) {
                Some((label, args, e)) => if i < e <= s.len() {
                    let (items, end) = parse_file_v(s, e);
                    (
                        seq![IRItemV { offset: i, line_no: line_of(s, i), label, args }] + items,
                        end,
                    )
                } else {
                    (Seq::empty(), i)
                },
                None => (Seq::empty(), i),
            },
        }
    }
}

/// A parsed argument as a command argument.
pub open spec fn map_arg_v(a: IRArgV) -> CmdArgV {
    match a {
        IRArgV::Const(v) => CmdArgV::Const(v),
        IRArgV::Ref(z) => CmdArgV::Ref((CtxNsV::Curr, z)),
        IRArgV::XRef(ns, z) => CmdArgV::Ref((CtxNsV::Ref(ns), z)),
    }
}

/// Commands built from the parsed items, walked from position `k`: the
/// first argument of each line is its opcode; a line without any argument,
/// or one repeating an earlier label, fails at its position.
pub open spec fn build_cmds_at(items: Seq<IRItemV>, k: int) -> Result<
    Seq<CmdV>,
    (IRErrType, int, int),
>
    decreases items.len() - k,
{
    if k < 0 || k >= items.len() {
        Result::Ok(Seq::empty())
    } else {
        let it = items[k];
        if it.args.len() == 0 {
            Result::Err((IRErrType::OpcodeMissing, it.offset, it.line_no))
        } else if exists|a: int| 0 <= a < k && (#[trigger] items[a]).label == it.label {
            Result::Err((IRErrType::DuplicateLabel, it.offset, it.line_no))
        } else {
            match build_cmds_at(items, k + 1) {
                Result::Err(e) => Result::Err(e),
                Result::Ok(rest) => Result::Ok(
                    seq![
                        CmdV {
                            id: it.label,
                            opcode: map_arg_v(it.args[0]),
                            args: it.args.skip(1).map_values(|a: IRArgV| map_arg_v(a)),
                        },
                    ] + rest,
                ),
            }
        }
    }
}

/// What loading a text yields: its command list, or the first failure.
pub open spec fn ir_load_v(s: Seq<char>) -> Result<Seq<CmdV>, (IRErrType, int, int)> {
    let (items, end) = parse_file_v(s, 0);
    if end < s.len() {
        Result::Err((IRErrType::AdditionalData, end, line_of(s, end)))
    } else {
        build_cmds_at(items, 0)
    }
}

/// Scan quoted content.
fn scan_quoted(s: &Vec<char>, i: usize) -> (r: Option<usize>)
    requires
        i <= s@.len(),
    ensures
        match r {
            Some(q) => quoted_end(s@, i as int) == Some(q as int) && i <= q < s@.len(),
            None => quoted_end(s@, i as int) is None,
        },
{
    let mut j = i;
    loop
        invariant
            i <= j <= s@.len(),
            quoted_end(s@, i as int) == quoted_end(s@, j as int),
        decreases s@.len() - j,
    {
        if j >= s.len() {
            return None;
        }
        let c = s[j];
        if c == '\'' {
            proof {
                lemma_quoted_end_bounds(s@, i as int);
            }
            return Some(j);
        } else if string_char(c) {
            j = j + 1;
        } else if c == '\\' && j + 1 < s.len() && (s[j + 1] == '"' || s[j + 1] == 'n' || s[j + 1]
            == '\\') {
            j = j + 2;
        } else {
            return None;
        }
    }
}

/// Scan past a comment body.
fn scan_comment(s: &Vec<char>, i: usize) -> (r: usize)
    requires
        i <= s@.len(),
    ensures
        r == comment_end(s@, i as int),
        i <= r <= s@.len(),
{
    let mut j = i;
    proof {
        lemma_comment_end_bounds(s@, i as int);
    }
    while j < s.len() && s[j] != '\n'
        invariant
            i <= j <= s@.len(),
            comment_end(s@, i as int) == comment_end(s@, j as int),
            i <= comment_end(s@, i as int) <= s@.len(),
        decreases s@.len() - j,
    {
        j = j + 1;
        proof {
            lemma_comment_end_bounds(s@, j as int);
        }
    }
    if j < s.len() {
        j + 1
    } else {
        j
    }
}

/// Parse one argument.
pub fn ir_arg(s: &Vec<char>, i: usize) -> (r: Option<(IRArg, usize)>)
    requires
        i <= s@.len(),
    ensures
        match r {
            Some(p) => parse_arg_v(s@, i as int) == Some((p.0.deep_view(), p.1 as int)) && i < p.1
                <= s@.len(),
            None => parse_arg_v(s@, i as int) is None,
        },
{
    proof {
        lemma_parse_arg_bounds(s@, i as int);
    }
    if i >= s.len() {
        return None;
    }
    let c = s[i];
    if c == '$' {
        let j = scan_ident(s, i + 1);
        if j == i + 1 {
            None
        } else if j < s.len() && s[j] == '.' {
            let k = scan_ident(s, j + 1);
            if k > j + 1 {
                Some((IRArg::XRef(string_of(s, i + 1, j), string_of(s, j + 1, k)), k))
            } else {
                Some((IRArg::Ref(string_of(s, i + 1, j)), j))
            }
        } else {
            Some((IRArg::Ref(string_of(s, i + 1, j)), j))
        }
    } else if c == '\'' {
        match scan_quoted(s, i + 1) {
            None => None,
            Some(q) => {
                if q == i + 1 {
                    None
                } else {
                    Some((IRArg::Const(string_of(s, i + 1, q)), q + 1))
                }
            },
        }
    } else {
        let j = scan_ident(s, i);
        if j > i {
            Some((IRArg::Const(string_of(s, i, j)), j))
        } else {
            None
        }
    }
}

/// Parse a whitespace-separated argument list.
fn ir_args(s: &Vec<char>, i: usize) -> (r: (Vec<IRArg>, usize))
    requires
        i <= s@.len(),
    ensures
        parse_args_v(s@, i as int) == (r.0.deep_view(), r.1 as int),
        i <= r.1 <= s@.len(),
{
    let mut acc: Vec<IRArg> = Vec::new();
    let mut cur = i;
    proof {
        lemma_parse_args_bounds(s@, i as int);
        assert(acc.deep_view() =~= Seq::<IRArgV>::empty());
    }
    loop
        invariant
            i <= cur <= s@.len(),
            parse_args_v(s@, i as int).0 == acc.deep_view() + parse_args_v(s@, cur as int).0,
            parse_args_v(s@, i as int).1 == parse_args_v(s@, cur as int).1,
            i <= parse_args_v(s@, i as int).1 <= s@.len(),
        decreases s@.len() - cur,
    {
        match ir_arg(s, cur) {
            None => {
                proof {
                    assert(parse_args_v(s@, cur as int) == (Seq::<IRArgV>::empty(), cur as int));
                    assert(acc.deep_view() + Seq::<IRArgV>::empty() =~= acc.deep_view());
                }
                return (acc, cur);
            },
            Some((a, j)) => {
                let k = scan_spaces(s, j);
                let more = if k > j {
                    ir_arg(s, k).is_some()
                } else {
                    false
                };
                let ghost av = a.deep_view();
                let ghost accpre = acc.deep_view();
                acc.push(a);
                proof {
                    assert(acc.deep_view() =~= accpre.push(av));
                }
                if more {
                    proof {
                        assert(parse_args_v(s@, cur as int).0 == seq![av] + parse_args_v(
                            s@,
                            k as int,
                        ).0);
                        assert(parse_args_v(s@, cur as int).1 == parse_args_v(s@, k as int).1);
                        assert(accpre + (seq![av] + parse_args_v(s@, k as int).0) =~= accpre.push(
                            av,
                        ) + parse_args_v(s@, k as int).0);
                        lemma_parse_args_bounds(s@, k as int);
                    }
                    cur = k;
                } else {
                    proof {
                        assert(parse_args_v(s@, cur as int) == (seq![av], j as int));
                        assert(accpre + seq![av] =~= accpre.push(av));
                    }
                    return (acc, j);
                }
            },
        }
    }
}

/// Parse one command line: label, colon, arguments, line ending.
pub fn ir_command(s: &Vec<char>, i: usize) -> (r: Option<(String, Vec<IRArg>, usize)>)
    requires
        i <= s@.len(),
    ensures
        match r {
            Some(c) => parse_command_v(s@, i as int) == Some(
                (c.0@, c.1.deep_view(), c.2 as int),
            ) && i < c.2 <= s@.len(),
            None => parse_command_v(s@, i as int) is None,
        },
{
    proof {
        lemma_parse_command_bounds(s@, i as int);
    }
    let l = scan_ident(s, i);
    if l < s.len() && s[l] == ':' {
        let p = scan_spaces(s, l + 1);
        let (args, e) = ir_args(s, p);
        let q = scan_spaces(s, e);
        if q >= s.len() {
            Some((string_of(s, i, l), args, q))
        } else if s[q] == '\n' {
            Some((string_of(s, i, l), args, q + 1))
        } else if s[q] == '\r' && q + 1 < s.len() && s[q + 1] == '\n' {
            Some((string_of(s, i, l), args, q + 2))
        } else {
            None
        }
    } else {
        None
    }
}

/// The line number after moving from position `i` to `e`.
fn advance_line(s: &Vec<char>, i: usize, e: usize, line: usize) -> (r: usize)
    requires
        i <= e <= s@.len(),
        line == line_of(s@, i as int),
        s@.len() < usize::MAX,
    ensures
        r == line_of(s@, e as int),
{
    proof {
        lemma_line_of_le(s@, i as int);
        lemma_line_of_le(s@, e as int);
    }
    let mut k = i;
    let mut r = line;
    while k < e
        invariant
            i <= k <= e <= s@.len(),
            s@.len() < usize::MAX,
            r == line_of(s@, k as int),
        decreases e - k,
    {
        proof {
            lemma_line_of_le(s@, k + 1);
        }
        if s[k] == '\n' {
            r = r + 1;
        }
        k = k + 1;
    }
    r
}

/// A line number never exceeds the position plus one.
pub proof fn lemma_line_of_le(s: Seq<char>, i: int)
    requires
        0 <= i <= s.len(),
    ensures
        1 <= line_of(s, i) <= i + 1,
    decreases i,
{
    if i > 0 {
        lemma_line_of_le(s, i - 1);
    }
}

/// Parse the whole text: the command items found, and the position where no
/// further line parses.
pub fn ir_file(s: &Vec<char>) -> (r: (Vec<(Location, String, Vec<IRArg>)>, usize))
    requires
        s@.len() < usize::MAX,
    ensures
        ({
            let (items, end) = parse_file_v(s@, 0);
            &&& r.1 == end
            &&& r.0.deep_view().len() == items.len()
            &&& forall|k: int|
                0 <= k < items.len() ==> {
                    let it = #[trigger] items[k];
                    &&& r.0.deep_view()[k].0.offset == it.offset
                    &&& r.0.deep_view()[k].0.line == it.line_no
                    &&& r.0.deep_view()[k].1 == it.label
                    &&& r.0.deep_view()[k].2 == it.args
                }
        }),
        r.1 <= s@.len(),
{
    let mut items: Vec<(Location, String, Vec<IRArg>)> = Vec::new();
    let mut cur: usize = 0;
    let mut line: usize = 1;
    loop
        invariant
            cur <= s@.len(),
            s@.len() < usize::MAX,
            line == line_of(s@, cur as int),
            parse_file_v(s@, 0).1 == parse_file_v(s@, cur as int).1,
            parse_file_v(s@, 0).0.len() == items.deep_view().len() + parse_file_v(
                s@,
                cur as int,
            ).0.len(),
            forall|k: int|
                0 <= k < items.deep_view().len() ==> parse_file_v(s@, 0).0[k]
                    == (IRItemV {
                    offset: items.deep_view()[k].0.offset as int,
                    line_no: items.deep_view()[k].0.line as int,
                    label: items.deep_view()[k].1,
                    args: items.deep_view()[k].2,
                }),
            forall|k: int|
                0 <= k < parse_file_v(s@, cur as int).0.len() ==> parse_file_v(s@, 0).0[
                    items.deep_view().len() + k] == parse_file_v(s@, cur as int).0[k],
        decreases s@.len() - cur,
    {
        if cur >= s.len() {
            return (items, cur);
        }
        if s[cur] == '#' {
            let e = scan_comment(s, cur + 1);
            proof {
                assert(parse_file_v(s@, cur as int) == parse_file_v(s@, e as int));
            }
            line = advance_line(s, cur, e, line);
            cur = e;
        } else {
            let k = scan_spaces(s, cur);
            let mut empty_to: Option<usize> = None;
            if k >= s.len() {
                if k > cur {
                    empty_to = Some(k);
                }
            } else if s[k] == '\n' {
                empty_to = Some(k + 1);
            } else if s[k] == '\r' && k + 1 < s.len() && s[k + 1] == '\n' {
                empty_to = Some(k + 2);
            }
            match empty_to {
                Some(e) => {
                    proof {
                        assert(parse_empty_v(s@, cur as int) == Some(e as int));
                        assert(parse_file_v(s@, cur as int) == parse_file_v(s@, e as int));
                    }
                    line = advance_line(s, cur, e, line);
                    cur = e;
                },
                None => {
                    proof {
                        assert(parse_empty_v(s@, cur as int) is None);
                    }
                    match ir_command(s, cur) {
                        Some((label, args, e)) => {
                            let ghost itemsv0 = items.deep_view();
                            let ghost itv = IRItemV {
                                offset: cur as int,
                                line_no: line as int,
                                label: label@,
                                args: args.deep_view(),
                            };
                            proof {
                                let (rest_items, rest_end) = parse_file_v(s@, cur as int);
                                assert(rest_items == seq![itv] + parse_file_v(s@, e as int).0);
                                assert(rest_end == parse_file_v(s@, e as int).1);
                            }
                            items.push((Location { offset: cur, line }, label, args));
                            line = advance_line(s, cur, e, line);
                            let ghost curpre = cur;
                            cur = e;
                            proof {
                                assert(items.deep_view().len() == itemsv0.len() + 1);
                                assert(items.deep_view()[itemsv0.len() as int].1 == itv.label);
                                assert(items.deep_view()[itemsv0.len() as int].2 == itv.args);
                                assert(parse_file_v(s@, curpre as int).0 == seq![itv]
                                    + parse_file_v(s@, cur as int).0);
                                assert forall|k: int|
                                    0 <= k < items.deep_view().len() implies parse_file_v(
                                    s@,
                                    0,
                                ).0[k] == (IRItemV {
                                    offset: items.deep_view()[k].0.offset as int,
                                    line_no: items.deep_view()[k].0.line as int,
                                    label: items.deep_view()[k].1,
                                    args: items.deep_view()[k].2,
                                }) by {
                                    if k < itemsv0.len() {
                                        assert(items.deep_view()[k] == itemsv0[k]);
                                    } else {
                                        assert(parse_file_v(s@, 0).0[itemsv0.len() as int]
                                            == parse_file_v(s@, curpre as int).0[0]);
                                        assert(parse_file_v(s@, curpre as int).0[0] == itv);
                                    }
                                }
                                assert forall|k: int|
                                    0 <= k < parse_file_v(s@, cur as int).0.len() implies
                                    parse_file_v(s@, 0).0[items.deep_view().len() + k]
                                    == parse_file_v(s@, cur as int).0[k] by {
                                    assert(parse_file_v(s@, 0).0[itemsv0.len() + (k + 1)]
                                        == parse_file_v(s@, curpre as int).0[k + 1]);
                                    assert(parse_file_v(s@, curpre as int).0[k + 1]
                                        == parse_file_v(s@, cur as int).0[k]);
                                }
                            }
                        },
                        None => {
                            proof {
                                assert(parse_file_v(s@, cur as int).0
                                    =~= Seq::<IRItemV>::empty());
                            }
                            return (items, cur);
                        },
                    }
                },
            }
        }
    }
}

/// Load a program text: parse every line and build the command list. The
/// first argument of each command line is its opcode; the rest are its
/// operands.
pub fn ir_load(input: &str) -> (r: Result<Vec<Cmd>, IRErr>)
    requires
        input@.len() < usize::MAX,
    ensures
        match r {
            Result::Ok(cs) => ir_load_v(input@) == Result::<Seq<CmdV>, (IRErrType, int, int)>::Ok(
                cs.deep_view(),
            ),
            Result::Err(e) => ir_load_v(input@) == Result::<Seq<CmdV>, (IRErrType, int, int)>::Err(
                (e.code, e.location.offset as int, e.location.line as int),
            ),
        },
{
    let s = ir_input(input);
    let (items, end) = ir_file(&s);
    if end < s.len() {
        let line = advance_line(&s, 0, end, 1);
        return Err(
            IRErr {
                location: Location { offset: end, line },
                code: IRErrType::AdditionalData,
            },
        );
    }
    let ghost itemsv = parse_file_v(s@, 0).0;
    let mut cs: Vec<Cmd> = Vec::new();
    let mut i: usize = 0;
    proof {
        assert(cs.deep_view() =~= Seq::<CmdV>::empty());
        match build_cmds_at(itemsv, 0) {
            Result::Ok(rest) => {
                assert(cs.deep_view() + rest =~= rest);
            },
            Result::Err(e) => {},
        }
    }
    while i < items.len()
        invariant
            s@ == input@,
            itemsv == parse_file_v(input@, 0).0,
            parse_file_v(input@, 0).1 == input@.len(),
            i <= items.deep_view().len(),
            items.deep_view().len() == itemsv.len(),
            forall|k: int|
                0 <= k < itemsv.len() ==> itemsv[k] == (IRItemV {
                    offset: items.deep_view()[k].0.offset as int,
                    line_no: items.deep_view()[k].0.line as int,
                    label: items.deep_view()[k].1,
                    args: items.deep_view()[k].2,
                }),
            build_cmds_at(itemsv, 0) == (match build_cmds_at(itemsv, i as int) {
                Result::Ok(rest) => Result::<Seq<CmdV>, (IRErrType, int, int)>::Ok(
                    cs.deep_view() + rest,
                ),
                Result::Err(e) => Result::<Seq<CmdV>, (IRErrType, int, int)>::Err(e),
            }),
        decreases items.deep_view().len() - i,
    {
        let it = &items[i];
        let ghost itv = itemsv[i as int];
        proof {
            assert((*it).deep_view().1 == itv.label);
            assert((*it).deep_view().2 == itv.args);
        }
        if it.2.len() == 0 {
            proof {
                assert(itv.args.len() == 0);
                assert(build_cmds_at(itemsv, i as int) == Result::<
                    Seq<CmdV>,
                    (IRErrType, int, int),
                >::Err((IRErrType::OpcodeMissing, itv.offset, itv.line_no)));
                assert(s@ == input@);
                assert((*it).deep_view().0.offset == itv.offset);
                assert((*it).deep_view().0.line == itv.line_no);
                assert(ir_load_v(input@) == Result::<Seq<CmdV>, (IRErrType, int, int)>::Err(
                    (IRErrType::OpcodeMissing, itv.offset, itv.line_no),
                ));
            }
            return Err(
                IRErr { location: it.0, code: IRErrType::OpcodeMissing },
            );
        }
        // a label seen before makes this line a duplicate
        let mut dup = false;
        let mut a: usize = 0;
        while a < i
            invariant
                a <= i < items.deep_view().len(),
                items.deep_view().len() == itemsv.len(),
                forall|k: int|
                    0 <= k < itemsv.len() ==> itemsv[k] == (IRItemV {
                        offset: items.deep_view()[k].0.offset as int,
                        line_no: items.deep_view()[k].0.line as int,
                        label: items.deep_view()[k].1,
                        args: items.deep_view()[k].2,
                    }),
                (*it).deep_view().1 == itemsv[i as int].label,
                dup == (exists|b: int|
                    0 <= b < a && (#[trigger] itemsv[b]).label == itemsv[i as int].label),
            decreases i - a,
        {
            if items[a].1.eq(&it.1) {
                proof {
                    assert(itemsv[a as int].label == itemsv[i as int].label);
                }
                dup = true;
            }
            a = a + 1;
            proof {
                if !dup {
                    assert(forall|b: int|
                        0 <= b < a ==> (#[trigger] itemsv[b]).label != itemsv[i as int].label);
                }
            }
        }
        if dup {
            proof {
                assert(build_cmds_at(itemsv, i as int) == Result::<
                    Seq<CmdV>,
                    (IRErrType, int, int),
                >::Err((IRErrType::DuplicateLabel, itv.offset, itv.line_no)));
                assert(ir_load_v(input@) == Result::<Seq<CmdV>, (IRErrType, int, int)>::Err(
                    (IRErrType::DuplicateLabel, itv.offset, itv.line_no),
                ));
            }
            return Err(
                IRErr { location: it.0, code: IRErrType::DuplicateLabel },
            );
        }
        proof {
            assert(!(exists|b: int|
                0 <= b < i && (#[trigger] itemsv[b]).label == itv.label));
        }
        let opcode = map_arg(&it.2[0]);
        let mut cargs: Vec<CmdArg> = Vec::new();
        let mut j: usize = 1;
        proof {
            assert(cargs.deep_view() =~= itv.args.skip(1).map_values(
                |a: IRArgV| map_arg_v(a),
            ).take(0));
        }
        while j < it.2.len()
            invariant
                1 <= j <= it.2.deep_view().len(),
                it.2.deep_view() == itv.args,
                cargs.deep_view() == itv.args.skip(1).map_values(|a: IRArgV| map_arg_v(a)).take(
                    j - 1,
                ),
            decreases it.2.deep_view().len() - j,
        {
            let ghost cpre = cargs.deep_view();
            let ca = map_arg(&it.2[j]);
            let ghost cav = ca.deep_view();
            cargs.push(ca);
            j = j + 1;
            proof {
                assert((*it).deep_view().2[j - 1] == itv.args[j - 1]);
                assert(cav == map_arg_v(itv.args[j - 1]));
                assert(cargs.deep_view() =~= cpre.push(cav));
                assert(itv.args.skip(1)[j - 2] == itv.args[j - 1]);
                assert(itv.args.skip(1).map_values(|a: IRArgV| map_arg_v(a))[j - 2] == map_arg_v(
                    itv.args[j - 1],
                ));
                assert(cargs.deep_view() =~= itv.args.skip(1).map_values(
                    |a: IRArgV| map_arg_v(a),
                ).take(j - 1));
            }
        }
        proof {
            assert(itv.args.skip(1).map_values(|a: IRArgV| map_arg_v(a)).take(
                it.2.deep_view().len() - 1,
            ) =~= itv.args.skip(1).map_values(|a: IRArgV| map_arg_v(a)));
        }
        let c = Cmd::create(string_dup(&it.1), opcode, cargs);
        let ghost cspre = cs.deep_view();
        let ghost cv = c.deep_view();
        cs.push(c);
        proof {
            assert(cv == (CmdV {
                id: itv.label,
                opcode: map_arg_v(itv.args[0]),
                args: itv.args.skip(1).map_values(|a: IRArgV| map_arg_v(a)),
            }));
            assert(cs.deep_view() =~= cspre.push(cv));
            assert(cspre + seq![cv] =~= cspre.push(cv));
            match build_cmds_at(itemsv, i + 1) {
                Result::Ok(rest) => {
                    assert(cspre.push(cv) + rest =~= cspre + (seq![cv] + rest));
                },
                Result::Err(e) => {},
            }
        }
        i = i + 1;
    }
    proof {
        assert(build_cmds_at(itemsv, itemsv.len() as int) == Result::<
            Seq<CmdV>,
            (IRErrType, int, int),
        >::Ok(Seq::empty()));
        assert(cs.deep_view() + Seq::<CmdV>::empty() =~= cs.deep_view());
    }
    Ok(cs)
}

/// A parsed argument as a command argument.
pub fn map_arg(a: &IRArg) -> (r: CmdArg)
    ensures
        r.deep_view() == map_arg_v(a.deep_view()),
{
    match a {
        IRArg::Const(v) => CmdArg::Const(string_dup(v)),
        IRArg::Ref(z) => CmdArg::Ref(CtxRef(CtxNs::Curr, string_dup(z))),
        IRArg::XRef(ns, z) => CmdArg::Ref(CtxRef(CtxNs::Ref(string_dup(ns)), string_dup(z))),
    }
}

/// Clone a string, keeping its text.
fn string_dup(v: &String) -> (r: String)
    ensures
        r@ == v@,
{
    v.clone()
}

/// One argument written back out: literals quoted, references with their
/// sigils.
pub open spec fn fmt_arg_v(a: CmdArgV) -> Seq<char> {
    match a {
        CmdArgV::Const(v) => seq!['\''] + v + seq!['\''],
        CmdArgV::Ref((ns, z)) => match ns {
            CtxNsV::Curr => seq!['$'] + z,
            CtxNsV::Ref(n) => seq!['$'] + n + seq!['.'] + z,
        },
    }
}

/// Arguments written back out, each preceded by one space.
pub open spec fn fmt_args_v(args: Seq<CmdArgV>) -> Seq<char>
    decreases args.len(),
{
    if args.len() == 0 {
        Seq::empty()
    } else {
        seq![' '] + fmt_arg_v(args[0]) + fmt_args_v(args.skip(1))
    }
}

/// A command written back out: its label, a colon, the opcode and operands,
/// and a newline.
pub open spec fn fmt_cmd_v(c: CmdV) -> Seq<char> {
    c.id + seq![':'] + fmt_args_v(seq![c.opcode] + c.args) + seq!['\n']
}

/// A command list written back out, one line per command.
pub open spec fn ir_format_v(cs: Seq<CmdV>) -> Seq<char>
    decreases cs.len(),
{
    if cs.len() == 0 {
        Seq::empty()
    } else {
        fmt_cmd_v(cs[0]) + ir_format_v(cs.skip(1))
    }
}

/// One more argument extends a written argument list.
proof fn lemma_fmt_args_snoc(args: Seq<CmdArgV>, a: CmdArgV)
    ensures
        fmt_args_v(args.push(a)) == fmt_args_v(args) + seq![' '] + fmt_arg_v(a),
    decreases args.len(),
{
    reveal_with_fuel(fmt_args_v, 3);
    if args.len() == 0 {
        assert(args.push(a)[0] == a);
        assert(args.push(a).skip(1) =~= Seq::<CmdArgV>::empty());
        assert(fmt_args_v(args.push(a)) =~= fmt_args_v(args) + seq![' '] + fmt_arg_v(a));
    } else {
        assert(args.push(a)[0] == args[0]);
        assert(args.push(a).skip(1) =~= args.skip(1).push(a));
        lemma_fmt_args_snoc(args.skip(1), a);
        assert(fmt_args_v(args.push(a)) == seq![' '] + fmt_arg_v(args[0]) + (fmt_args_v(
            args.skip(1),
        ) + seq![' '] + fmt_arg_v(a)));
        assert(seq![' '] + fmt_arg_v(args[0]) + (fmt_args_v(args.skip(1)) + seq![' ']
            + fmt_arg_v(a)) =~= (seq![' '] + fmt_arg_v(args[0]) + fmt_args_v(args.skip(1)))
            + seq![' '] + fmt_arg_v(a));
    }
}

/// One more command extends the written text.
proof fn lemma_fmt_cmds_snoc(cs: Seq<CmdV>, c: CmdV)
    ensures
        ir_format_v(cs.push(c)) == ir_format_v(cs) + fmt_cmd_v(c),
    decreases cs.len(),
{
    reveal_with_fuel(ir_format_v, 3);
    if cs.len() == 0 {
        assert(cs.push(c)[0] == c);
        assert(cs.push(c).skip(1) =~= Seq::<CmdV>::empty());
        assert(ir_format_v(cs.push(c)) =~= ir_format_v(cs) + fmt_cmd_v(c));
    } else {
        assert(cs.push(c)[0] == cs[0]);
        assert(cs.push(c).skip(1) =~= cs.skip(1).push(c));
        lemma_fmt_cmds_snoc(cs.skip(1), c);
        assert(ir_format_v(cs.push(c)) == fmt_cmd_v(cs[0]) + (ir_format_v(cs.skip(1))
            + fmt_cmd_v(c)));
        assert(fmt_cmd_v(cs[0]) + (ir_format_v(cs.skip(1)) + fmt_cmd_v(c)) =~= (fmt_cmd_v(cs[0])
            + ir_format_v(cs.skip(1))) + fmt_cmd_v(c));
    }
}

/// Write one argument onto the output.
fn push_arg(r: &mut String, a: &CmdArg)
    ensures
        final(r)@ == old(r)@ + fmt_arg_v(a.deep_view()),
{
    match a {
        CmdArg::Const(v) => {
            r.push('\'');
            r.append(v.as_str());
            r.push('\'');
            proof {
                assert(r@ =~= old(r)@ + fmt_arg_v(a.deep_view()));
            }
        },
        CmdArg::Ref(cr) => {
            let CtxRef(ns, z) = cr;
            match ns {
                CtxNs::Curr => {
                    r.push('$');
                    r.append(z.as_str());
                    proof {
                        assert(r@ =~= old(r)@ + fmt_arg_v(a.deep_view()));
                    }
                },
                CtxNs::Ref(n) => {
                    r.push('$');
                    r.append(n.as_str());
                    r.push('.');
                    r.append(z.as_str());
                    proof {
                        assert(r@ =~= old(r)@ + fmt_arg_v(a.deep_view()));
                    }
                },
            }
        },
    }
}

/// Write a command list as program text, one line per command: the label,
/// a colon, then the opcode and the operands, quoted or with their
/// reference sigils.
pub fn ir_format(cmds: &Vec<Cmd>) -> (r: String)
    ensures
        r@ == ir_format_v(cmds.deep_view()),
{
    let mut r = String::new();
    let mut i: usize = 0;
    proof {
        assert(cmds.deep_view().take(0) =~= Seq::<CmdV>::empty());
    }
    while i < cmds.len()
        invariant
            i <= cmds.deep_view().len(),
            r@ == ir_format_v(cmds.deep_view().take(i as int)),
        decreases cmds.deep_view().len() - i,
    {
        let c = &cmds[i];
        let ghost cv = (*c).deep_view();
        let ghost r0 = r@;
        r.append(c.id().as_str());
        r.push(':');
        r.push(' ');
        push_arg(&mut r, &c.opcode);
        proof {
            reveal_with_fuel(fmt_args_v, 2);
            let argsv = seq![cv.opcode] + cv.args;
            assert(argsv.take(1) =~= seq![cv.opcode]);
            assert(argsv.take(1)[0] == cv.opcode);
            assert(argsv.take(1).skip(1) =~= Seq::<CmdArgV>::empty());
            assert(fmt_args_v(argsv.take(1)) == seq![' '] + fmt_arg_v(cv.opcode) + fmt_args_v(
                Seq::<CmdArgV>::empty(),
            ));
            assert(r@ =~= r0 + cv.id + seq![':'] + fmt_args_v(argsv.take(1)));
        }
        let mut j: usize = 0;
        while j < c.args.len()
            invariant
                j <= cv.args.len(),
                cv == (*c).deep_view(),
                r@ == r0 + cv.id + seq![':'] + fmt_args_v((seq![cv.opcode] + cv.args).take(
                    j + 1,
                )),
            decreases cv.args.len() - j,
        {
            let ghost rpre = r@;
            r.push(' ');
            push_arg(&mut r, &c.args[j]);
            j = j + 1;
            proof {
                assert((*c).deep_view().args[j - 1] == cv.args[j - 1]);
                let argsv2 = seq![cv.opcode] + cv.args;
                lemma_fmt_args_snoc(argsv2.take(j as int), argsv2[j as int]);
                assert(argsv2.take(j + 1) =~= argsv2.take(j as int).push(argsv2[j as int]));
                assert(argsv2[j as int] == cv.args[j - 1]);
                assert(r@ =~= rpre + (seq![' '] + fmt_arg_v(cv.args[j - 1])));
                assert(rpre + (seq![' '] + fmt_arg_v(cv.args[j - 1])) =~= r0 + cv.id + seq![':']
                    + (fmt_args_v(argsv2.take(j as int)) + seq![' '] + fmt_arg_v(
                    argsv2[j as int],
                )));
            }
        }
                r.push('\n');
        i = i + 1;
        proof {
            let argsv2 = seq![cv.opcode] + cv.args;
            assert(argsv2.take(argsv2.len() as int) =~= argsv2);
            assert(r@ =~= r0 + fmt_cmd_v(cv));
            lemma_fmt_cmds_snoc(cmds.deep_view().take(i - 1), cv);
            assert(cmds.deep_view().take(i as int) =~= cmds.deep_view().take(i - 1).push(cv));
            assert(r@ =~= ir_format_v(cmds.deep_view().take(i as int)));
        }
    }
    proof {
        assert(cmds.deep_view().take(cmds.deep_view().len() as int) =~= cmds.deep_view());
    }
    r
}

/// A value the formatter can quote: non-empty, verbatim characters only.
pub open spec fn wf_value(v: Seq<char>) -> bool {
    v.len() > 0 && forall|i: int| 0 <= i < v.len() ==> is_string_c(#[trigger] v[i])
}

/// An identifier the formatter can write bare: non-empty identifier
/// characters.
pub open spec fn wf_ident(z: Seq<char>) -> bool {
    z.len() > 0 && forall|i: int| 0 <= i < z.len() ==> is_ident_c(#[trigger] z[i])
}

/// An argument the formatter can emit and the parser reads back.
pub open spec fn wf_fmt_arg(a: CmdArgV) -> bool {
    match a {
        CmdArgV::Const(v) => wf_value(v),
        CmdArgV::Ref((ns, z)) => wf_ident(z) && match ns {
            CtxNsV::Curr => true,
            CtxNsV::Ref(n) => wf_ident(n),
        },
    }
}

/// The parsed image of a formatted argument.
pub open spec fn arg_image(a: CmdArgV) -> IRArgV {
    match a {
        CmdArgV::Const(v) => IRArgV::Const(v),
        CmdArgV::Ref((ns, z)) => match ns {
            CtxNsV::Curr => IRArgV::Ref(z),
            CtxNsV::Ref(n) => IRArgV::XRef(n, z),
        },
    }
}

/// An identifier run embedded in a larger text scans to exactly its end.
proof fn lemma_ident_scan(s: Seq<char>, i: int, n: int)
    requires
        0 <= i <= i + n <= s.len(),
        forall|k: int| i <= k < i + n ==> is_ident_c(#[trigger] s[k]),
        i + n == s.len() || !is_ident_c(s[i + n]),
    ensures
        ident_end(s, i) == i + n,
    decreases n,
{
    if n > 0 {
        lemma_ident_scan(s, i + 1, n - 1);
    }
}

/// Quoted verbatim content embedded in a larger text scans to the closing
/// quote.
proof fn lemma_quoted_scan(s: Seq<char>, i: int, n: int)
    requires
        0 <= i <= i + n < s.len(),
        forall|k: int| i <= k < i + n ==> is_string_c(#[trigger] s[k]),
        s[i + n] == '\'',
    ensures
        quoted_end(s, i) == Some(i + n),
    decreases n,
{
    if n > 0 {
        assert(s[i] != '\'');
        lemma_quoted_scan(s, i + 1, n - 1);
    }
}

/// A formatted argument, followed by a space or a newline, parses back to
/// its image, consuming exactly its own text.
proof fn lemma_parse_arg_of_fmt(s: Seq<char>, i: int, a: CmdArgV)
    requires
        wf_fmt_arg(a),
        0 <= i,
        i + fmt_arg_v(a).len() < s.len(),
        forall|k: int|
            0 <= k < fmt_arg_v(a).len() ==> s[i + k] == #[trigger] fmt_arg_v(a)[k],
        s[i + fmt_arg_v(a).len()] == ' ' || s[i + fmt_arg_v(a).len()] == '\n',
    ensures
        parse_arg_v(s, i) == Some((arg_image(a), i + fmt_arg_v(a).len())),
{
    let f = fmt_arg_v(a);
    match a {
        CmdArgV::Const(v) => {
            assert(s[i] == f[0]);
            assert(f[0] == '\'');
            assert forall|k: int| i + 1 <= k < i + 1 + v.len() implies is_string_c(
                #[trigger] s[k],
            ) by {
                assert(s[k] == f[k - i]);
                assert(f[k - i] == v[k - i - 1]);
            }
            assert(s[i + 1 + v.len()] == f[1 + v.len() as int]);
            assert(f[1 + v.len() as int] == '\'');
            lemma_quoted_scan(s, i + 1, v.len() as int);
            assert forall|k: int| 0 <= k < v.len() implies s[i + 1 + k] == #[trigger] v[k] by {
                assert(s[i + 1 + k] == f[1 + k]);
            }
            assert(s.subrange(i + 1, i + 1 + v.len()) =~= v);
        },
        CmdArgV::Ref((ns, z)) => match ns {
            CtxNsV::Curr => {
                assert(s[i] == f[0]);
                assert(f[0] == '$');
                assert forall|k: int| i + 1 <= k < i + 1 + z.len() implies is_ident_c(
                    #[trigger] s[k],
                ) by {
                    assert(s[k] == f[k - i]);
                    assert(f[k - i] == z[k - i - 1]);
                }
                assert(!is_ident_c(s[i + 1 + z.len()]));
                lemma_ident_scan(s, i + 1, z.len() as int);
                let j = ident_end(s, i + 1);
                assert(j == i + 1 + z.len());
                assert(s[j] != '.');
                assert forall|k: int| 0 <= k < z.len() implies s[i + 1 + k] == #[trigger] z[k] by {
                    assert(s[i + 1 + k] == f[1 + k]);
                }
                assert(s.subrange(i + 1, j) =~= z);
            },
            CtxNsV::Ref(n) => {
                assert(s[i] == f[0]);
                assert(f[0] == '$');
                assert forall|k: int| i + 1 <= k < i + 1 + n.len() implies is_ident_c(
                    #[trigger] s[k],
                ) by {
                    assert(s[k] == f[k - i]);
                    assert(f[k - i] == n[k - i - 1]);
                }
                assert(s[i + 1 + n.len()] == f[1 + n.len() as int]);
                assert(f[1 + n.len() as int] == '.');
                assert(!is_ident_c(s[i + 1 + n.len()]));
                lemma_ident_scan(s, i + 1, n.len() as int);
                let j = ident_end(s, i + 1);
                assert(j == i + 1 + n.len());
                assert(s[j] == '.');
                assert forall|k: int| j + 1 <= k < j + 1 + z.len() implies is_ident_c(
                    #[trigger] s[k],
                ) by {
                    assert(s[k] == f[k - i]);
                    assert(f[k - i] == z[k - i - 1 - n.len() - 1]);
                }
                assert(!is_ident_c(s[j + 1 + z.len()]));
                lemma_ident_scan(s, j + 1, z.len() as int);
                assert(ident_end(s, j + 1) == j + 1 + z.len());
                assert forall|k: int| 0 <= k < n.len() implies s[i + 1 + k] == #[trigger] n[k] by {
                    assert(s[i + 1 + k] == f[1 + k]);
                }
                assert forall|k: int| 0 <= k < z.len() implies s[j + 1 + k] == #[trigger] z[k] by {
                    assert(s[j + 1 + k] == f[1 + n.len() + 1 + k]);
                }
                assert(s.subrange(i + 1, j) =~= n);
                assert(s.subrange(j + 1, j + 1 + z.len()) =~= z);
            },
        },
    }
}

/// A formatted argument list, followed by a newline, parses back to its
/// images: one space is skipped, then the arguments are read in order.
proof fn lemma_parse_args_of_fmt(s: Seq<char>, i: int, args: Seq<CmdArgV>)
    requires
        args.len() > 0,
        forall|k: int| 0 <= k < args.len() ==> wf_fmt_arg(#[trigger] args[k]),
        0 <= i,
        i + fmt_args_v(args).len() < s.len(),
        forall|k: int|
            0 <= k < fmt_args_v(args).len() ==> s[i + k] == #[trigger] fmt_args_v(args)[k],
        s[i + fmt_args_v(args).len()] == '\n',
    ensures
        spaces_end(s, i) == i + 1,
        parse_args_v(s, i + 1) == (
            args.map_values(|a: CmdArgV| arg_image(a)),
            i + fmt_args_v(args).len(),
        ),
    decreases args.len(),
{
    let fl = fmt_args_v(args);
    let a0 = args[0];
    let f0 = fmt_arg_v(a0);
    assert(fl == seq![' '] + f0 + fmt_args_v(args.skip(1)));
    assert(fl.len() == 1 + f0.len() + fmt_args_v(args.skip(1)).len());
    assert(f0.len() > 0) by {
        match a0 {
            CmdArgV::Const(v) => {},
            CmdArgV::Ref((ns, z)) => {},
        }
    }
    assert(s[i] == fl[0]);
    assert(fl[0] == ' ');
    // the first argument's text sits right after the space
    assert forall|k: int| 0 <= k < f0.len() implies s[i + 1 + k] == #[trigger] f0[k] by {
        assert(s[i + 1 + k] == fl[1 + k]);
        assert(fl[1 + k] == f0[k]);
    }
    // an argument starts with a quote, a sigil or an identifier character,
    // never whitespace
    assert(!is_space_c(f0[0])) by {
        match a0 {
            CmdArgV::Const(v) => {
                assert(f0[0] == '\'');
            },
            CmdArgV::Ref((ns, z)) => {
                match ns {
                    CtxNsV::Curr => {
                        assert(f0[0] == '$');
                    },
                    CtxNsV::Ref(n) => {
                        assert(f0[0] == '$');
                    },
                }
            },
        }
    }
    assert(s[i + 1] == f0[0]);
    assert(spaces_end(s, i + 1) == i + 1);
    assert(spaces_end(s, i) == spaces_end(s, i + 1));
    let j = i + 1 + f0.len();
    if args.len() == 1 {
        assert(fmt_args_v(args.skip(1)) =~= Seq::<char>::empty());
        assert(fl.len() == 1 + f0.len());
        assert(s[j] == '\n');
        lemma_parse_arg_of_fmt(s, i + 1, a0);
        assert(parse_arg_v(s, i + 1) == Some((arg_image(a0), j)));
        assert(spaces_end(s, j) == j);
        assert(parse_args_v(s, i + 1) == (seq![arg_image(a0)], j));
        assert(seq![arg_image(a0)] =~= args.map_values(|a: CmdArgV| arg_image(a)));
    } else {
        let tail = args.skip(1);
        let ftail = fmt_args_v(tail);
        assert(ftail.len() > 0) by {
            assert(tail.len() > 0);
        }
        assert(s[j] == fl[1 + f0.len() as int]);
        assert(fl[1 + f0.len() as int] == ftail[0]);
        assert(ftail[0] == ' ') by {
            assert(ftail == seq![' '] + fmt_arg_v(tail[0]) + fmt_args_v(tail.skip(1)));
        }
        lemma_parse_arg_of_fmt(s, i + 1, a0);
        assert(parse_arg_v(s, i + 1) == Some((arg_image(a0), j)));
        // the tail's text begins at the following space
        assert forall|k: int| 0 <= k < ftail.len() implies s[j + k] == #[trigger] ftail[k] by {
            assert(s[j + k] == fl[1 + f0.len() + k]);
            assert(fl[1 + f0.len() + k] == ftail[k]);
        }
        assert(forall|k: int| 0 <= k < tail.len() ==> wf_fmt_arg(#[trigger] tail[k]));
        lemma_parse_args_of_fmt(s, j, tail);
        assert(spaces_end(s, j) == j + 1);
        assert(parse_args_v(s, j + 1) == (
            tail.map_values(|a: CmdArgV| arg_image(a)),
            j + ftail.len(),
        ));
        assert(parse_arg_v(s, j + 1) is Some) by {
            assert(parse_args_v(s, j + 1).0.len() == tail.len());
            if parse_arg_v(s, j + 1) is None {
                assert(parse_args_v(s, j + 1).0 =~= Seq::<IRArgV>::empty());
            }
        }
        assert(parse_args_v(s, i + 1) == (
            seq![arg_image(a0)] + tail.map_values(|a: CmdArgV| arg_image(a)),
            j + ftail.len(),
        ));
        assert(seq![arg_image(a0)] + tail.map_values(|a: CmdArgV| arg_image(a)) =~= args.map_values(
            |a: CmdArgV| arg_image(a),
        ));
        assert(j + ftail.len() == i + fl.len());
    }
}

/// A command the formatter can emit and the parser reads back.
pub open spec fn wf_fmt_cmd(c: CmdV) -> bool {
    &&& wf_ident(c.id)
    &&& wf_fmt_arg(c.opcode)
    &&& forall|k: int| 0 <= k < c.args.len() ==> wf_fmt_arg(#[trigger] c.args[k])
}

/// A formatted command line parses back: its label, then the images of its
/// opcode and arguments, consuming exactly its own text.
proof fn lemma_parse_command_of_fmt(s: Seq<char>, i: int, c: CmdV)
    requires
        wf_fmt_cmd(c),
        0 <= i,
        i + fmt_cmd_v(c).len() <= s.len(),
        forall|k: int|
            0 <= k < fmt_cmd_v(c).len() ==> s[i + k] == #[trigger] fmt_cmd_v(c)[k],
    ensures
        parse_command_v(s, i) == Some(
            (
                c.id,
                (seq![c.opcode] + c.args).map_values(|a: CmdArgV| arg_image(a)),
                i + fmt_cmd_v(c).len(),
            ),
        ),
{
    let f = fmt_cmd_v(c);
    let argsv = seq![c.opcode] + c.args;
    let fargs = fmt_args_v(argsv);
    assert(f == c.id + seq![':'] + fargs + seq!['\n']);
    assert(f.len() == c.id.len() + 1 + fargs.len() + 1);
    assert forall|k: int| i <= k < i + c.id.len() implies is_ident_c(#[trigger] s[k]) by {
        assert(s[k] == f[k - i]);
        assert(f[k - i] == c.id[k - i]);
    }
    assert(s[i + c.id.len()] == f[c.id.len() as int]);
    assert(f[c.id.len() as int] == ':');
    assert(!is_ident_c(':'));
    lemma_ident_scan(s, i, c.id.len() as int);
    let l = i + c.id.len();
    assert(ident_end(s, i) == l);
    assert(s[l] == ':');
    assert(argsv.len() > 0);
    assert(argsv[0] == c.opcode);
    assert forall|k: int| 0 <= k < argsv.len() implies wf_fmt_arg(#[trigger] argsv[k]) by {
        if k > 0 {
            assert(argsv[k] == c.args[k - 1]);
        }
    }
    assert forall|k: int| 0 <= k < fargs.len() implies s[l + 1 + k] == #[trigger] fargs[k] by {
        assert(s[l + 1 + k] == f[c.id.len() + 1 + k]);
        assert(f[c.id.len() + 1 + k] == fargs[k]);
    }
    assert(s[l + 1 + fargs.len()] == f[c.id.len() + 1 + fargs.len() as int]);
    assert(f[c.id.len() + 1 + fargs.len() as int] == '\n');
    lemma_parse_args_of_fmt(s, l + 1, argsv);
    assert(spaces_end(s, l + 1) == l + 2);
    let e = l + 1 + fargs.len();
    assert(parse_args_v(s, l + 2) == (
        argsv.map_values(|a: CmdArgV| arg_image(a)),
        e,
    ));
    assert(s[e] == '\n');
    assert(spaces_end(s, e) == e);
    assert(s.subrange(i, l) =~= c.id) by {
        assert forall|k: int| 0 <= k < c.id.len() implies s[i + k] == #[trigger] c.id[k] by {
            assert(s[i + k] == f[k]);
        }
    }
    assert(e + 1 == i + f.len());
}

/// A formatted command list, filling the text to its end, parses back line
/// by line: every command is found, with its label and argument images, and
/// the whole text is consumed.
proof fn lemma_parse_file_of_fmt(s: Seq<char>, i: int, cs: Seq<CmdV>)
    requires
        forall|k: int| 0 <= k < cs.len() ==> wf_fmt_cmd(#[trigger] cs[k]),
        0 <= i,
        i + ir_format_v(cs).len() == s.len(),
        forall|k: int|
            0 <= k < ir_format_v(cs).len() ==> s[i + k] == #[trigger] ir_format_v(cs)[k],
    ensures
        parse_file_v(s, i).1 == s.len(),
        parse_file_v(s, i).0.len() == cs.len(),
        forall|k: int|
            0 <= k < cs.len() ==> (#[trigger] parse_file_v(s, i).0[k]).label == cs[k].id
                && parse_file_v(s, i).0[k].args == (seq![cs[k].opcode]
                + cs[k].args).map_values(|a: CmdArgV| arg_image(a)),
    decreases cs.len(),
{
    if cs.len() == 0 {
        assert(ir_format_v(cs).len() == 0);
        assert(i == s.len());
    } else {
        let c0 = cs[0];
        let f0 = fmt_cmd_v(c0);
        let ftext = ir_format_v(cs);
        assert(ftext == f0 + ir_format_v(cs.skip(1)));
        assert(f0.len() >= 2) by {
            assert(wf_ident(c0.id));
        }
        assert forall|k: int| 0 <= k < f0.len() implies s[i + k] == #[trigger] f0[k] by {
            assert(s[i + k] == ftext[k]);
            assert(ftext[k] == f0[k]);
        }
        lemma_parse_command_of_fmt(s, i, c0);
        let e = i + f0.len();
        // the line starts with a label character: not a comment, not blank
        assert(s[i] == f0[0]);
        assert(f0[0] == c0.id[0]);
        assert(is_ident_c(s[i]));
        assert(s[i] != '#');
        assert(spaces_end(s, i) == i);
        assert(s[i] != '\n' && s[i] != '\r');
        assert(parse_empty_v(s, i) is None);
        assert forall|k: int|
            0 <= k < ir_format_v(cs.skip(1)).len() implies s[e + k] == #[trigger] ir_format_v(
            cs.skip(1),
        )[k] by {
            assert(s[e + k] == ftext[f0.len() + k]);
            assert(ftext[f0.len() + k] == ir_format_v(cs.skip(1))[k]);
        }
        assert(forall|k: int|
            0 <= k < cs.skip(1).len() ==> wf_fmt_cmd(#[trigger] cs.skip(1)[k]));
        lemma_parse_file_of_fmt(s, e, cs.skip(1));
        assert(i < e <= s.len());
        assert(parse_file_v(s, i).0 == seq![
            IRItemV {
                offset: i,
                line_no: line_of(s, i),
                label: c0.id,
                args: (seq![c0.opcode] + c0.args).map_values(|a: CmdArgV| arg_image(a)),
            },
        ] + parse_file_v(s, e).0);
        assert forall|k: int|
            0 <= k < cs.len() implies (#[trigger] parse_file_v(s, i).0[k]).label == cs[k].id
            && parse_file_v(s, i).0[k].args == (seq![cs[k].opcode] + cs[k].args).map_values(
            |a: CmdArgV| arg_image(a),
        ) by {
            if k > 0 {
                assert(parse_file_v(s, i).0[k] == parse_file_v(s, e).0[k - 1]);
                assert(cs.skip(1)[k - 1] == cs[k]);
            }
        }
    }
}

/// Loading an argument's image yields the argument back.
proof fn lemma_map_arg_image(a: CmdArgV)
    ensures
        map_arg_v(arg_image(a)) == a,
{
}

/// Items carrying the labels and argument images of a command list with
/// distinct labels build back to exactly that list.
proof fn lemma_build_of_images(items: Seq<IRItemV>, cs: Seq<CmdV>, k: int)
    requires
        items.len() == cs.len(),
        0 <= k <= items.len(),
        forall|a: int|
            0 <= a < cs.len() ==> (#[trigger] items[a]).label == cs[a].id && items[a].args == (
            seq![cs[a].opcode] + cs[a].args).map_values(|x: CmdArgV| arg_image(x)),
        forall|a: int, b: int| 0 <= a < b < cs.len() ==> cs[a].id != cs[b].id,
    ensures
        build_cmds_at(items, k) == Result::<Seq<CmdV>, (IRErrType, int, int)>::Ok(cs.skip(k)),
    decreases items.len() - k,
{
    if k >= items.len() {
        assert(cs.skip(k) =~= Seq::<CmdV>::empty());
    } else {
        let it = items[k];
        let c0 = cs[k];
        let images = (seq![c0.opcode] + c0.args).map_values(|x: CmdArgV| arg_image(x));
        assert(it.args == images);
        assert(it.args.len() == 1 + c0.args.len());
        assert(!(exists|a: int| 0 <= a < k && (#[trigger] items[a]).label == it.label)) by {
            if exists|a: int| 0 <= a < k && (#[trigger] items[a]).label == it.label {
                let a = choose|a: int| 0 <= a < k && (#[trigger] items[a]).label == it.label;
                assert(cs[a].id == cs[k].id);
            }
        }
        assert(it.args[0] == arg_image(c0.opcode));
        lemma_map_arg_image(c0.opcode);
        assert(it.args.skip(1).map_values(|a: IRArgV| map_arg_v(a)) =~= c0.args) by {
            assert forall|j: int| 0 <= j < c0.args.len() implies it.args.skip(1).map_values(
                |a: IRArgV| map_arg_v(a),
            )[j] == #[trigger] c0.args[j] by {
                assert(it.args.skip(1)[j] == images[j + 1]);
                assert(images[j + 1] == arg_image((seq![c0.opcode] + c0.args)[j + 1]));
                assert((seq![c0.opcode] + c0.args)[j + 1] == c0.args[j]);
                lemma_map_arg_image(c0.args[j]);
            }
        }
        lemma_build_of_images(items, cs, k + 1);
        let head = CmdV {
            id: it.label,
            opcode: map_arg_v(it.args[0]),
            args: it.args.skip(1).map_values(|a: IRArgV| map_arg_v(a)),
        };
        assert(head =~= c0);
        assert(seq![head] + cs.skip(k + 1) =~= cs.skip(k));
    }
}

/// The parser inverts the formatter: a command list with distinct labels,
/// holding only the argument kinds the formatter emits, written out and
/// loaded again, is itself.
pub proof fn lemma_format_load_round_trip(cs: Seq<CmdV>)
    requires
        forall|k: int| 0 <= k < cs.len() ==> wf_fmt_cmd(#[trigger] cs[k]),
        forall|a: int, b: int| 0 <= a < b < cs.len() ==> cs[a].id != cs[b].id,
    ensures
        ir_load_v(ir_format_v(cs)) == Result::<Seq<CmdV>, (IRErrType, int, int)>::Ok(cs),
{
    let s = ir_format_v(cs);
    lemma_parse_file_of_fmt(s, 0, cs);
    lemma_build_of_images(parse_file_v(s, 0).0, cs, 0);
    assert(cs.skip(0) =~= cs);
}

/// The decimal digit character for `d`.
pub open spec fn dec_digit(d: int) -> char {
    if d == 0 {
        '0'
    } else if d == 1 {
        '1'
    } else if d == 2 {
        '2'
    } else if d == 3 {
        '3'
    } else if d == 4 {
        '4'
    } else if d == 5 {
        '5'
    } else if d == 6 {
        '6'
    } else if d == 7 {
        '7'
    } else if d == 8 {
        '8'
    } else {
        '9'
    }
}

/// The decimal digits of `n`, most significant first.
pub open spec fn dec_digits(n: int) -> Seq<char>
    decreases n when n >= 0
{
    if n < 10 {
        seq![dec_digit(n)]
    } else {
        dec_digits(n / 10).push(dec_digit(n % 10))
    }
}

/// The decimal digit character for `d`, executable.
fn dec_digit_exec(d: usize) -> (r: char)
    requires
        d < 10,
    ensures
        r == dec_digit(d as int),
{
    if d == 0 {
        '0'
    } else if d == 1 {
        '1'
    } else if d == 2 {
        '2'
    } else if d == 3 {
        '3'
    } else if d == 4 {
        '4'
    } else if d == 5 {
        '5'
    } else if d == 6 {
        '6'
    } else if d == 7 {
        '7'
    } else if d == 8 {
        '8'
    } else {
        '9'
    }
}

/// Write `n` in decimal.
pub fn dec_of(n: usize) -> (r: String)
    ensures
        r@ == dec_digits(n as int),
    decreases n,
{
    if n < 10 {
        let mut s = String::new();
        s.push(dec_digit_exec(n));
        proof {
            assert(s@ =~= seq![dec_digit(n as int)]);
        }
        s
    } else {
        let mut s = dec_of(n / 10);
        s.push(dec_digit_exec(n % 10));
        s
    }
}

/// Start of the line holding position `i`: just after the previous newline.
pub open spec fn line_start_of(s: Seq<char>, i: int) -> int
    decreases i when 0 <= i <= s.len()
{
    if i <= 0 {
        0
    } else if s[i - 1] == '\n' {
        i
    } else {
        line_start_of(s, i - 1)
    }
}

/// End of the line holding position `i`: the next newline or the text end.
pub open spec fn line_end_of(s: Seq<char>, i: int) -> int
    decreases s.len() - i when 0 <= i <= s.len()
{
    if i >= s.len() {
        i
    } else if s[i] == '\n' {
        i
    } else {
        line_end_of(s, i + 1)
    }
}

pub proof fn lemma_line_bounds(s: Seq<char>, i: int)
    requires
        0 <= i <= s.len(),
    ensures
        0 <= line_start_of(s, i) <= i,
        i <= line_end_of(s, i) <= s.len(),
    decreases s.len(),
{
    lemma_line_start_bounds(s, i);
    lemma_line_end_bounds(s, i);
}

proof fn lemma_line_start_bounds(s: Seq<char>, i: int)
    requires
        0 <= i <= s.len(),
    ensures
        0 <= line_start_of(s, i) <= i,
    decreases i,
{
    if i > 0 && s[i - 1] != '\n' {
        lemma_line_start_bounds(s, i - 1);
    }
}

proof fn lemma_line_end_bounds(s: Seq<char>, i: int)
    requires
        0 <= i <= s.len(),
    ensures
        i <= line_end_of(s, i) <= s.len(),
    decreases s.len() - i,
{
    if i < s.len() && s[i] != '\n' {
        lemma_line_end_bounds(s, i + 1);
    }
}

/// A run of `n` spaces.
pub open spec fn space_run(n: int) -> Seq<char>
    decreases n when n >= 0
{
    if n <= 0 {
        Seq::empty()
    } else {
        space_run(n - 1).push(' ')
    }
}

/// A short phrase for each load failure.
pub open spec fn err_phrase(code: IRErrType) -> Seq<char> {
    match code {
        IRErrType::AdditionalData => "this is no command, comment or blank line"@,
        IRErrType::OpcodeMissing => "a command needs at least an opcode"@,
        IRErrType::DuplicateLabel => "this label was already used"@,
    }
}

/// A load failure rendered against its source: the line number and reason,
/// the offending line, and a caret under the failing position.
pub open spec fn format_error_v(s: Seq<char>, err: IRErr) -> Seq<char> {
    let o = err.location.offset as int;
    let ls = line_start_of(s, o);
    let le = line_end_of(s, o);
    "line "@ + dec_digits(err.location.line as int) + ": "@ + err_phrase(err.code) + seq!['\n']
        + s.subrange(ls, le) + seq!['\n'] + space_run(o - ls) + "^ here"@
}

/// Find the start of the line holding position `i`.
fn scan_line_start(s: &Vec<char>, i: usize) -> (r: usize)
    requires
        i <= s@.len(),
    ensures
        r == line_start_of(s@, i as int),
        r <= i,
{
    proof {
        lemma_line_start_bounds(s@, i as int);
    }
    let mut j = i;
    while j > 0 && s[j - 1] != '\n'
        invariant
            0 <= j <= i <= s@.len(),
            line_start_of(s@, i as int) == line_start_of(s@, j as int),
        decreases j,
    {
        j = j - 1;
        proof {
            lemma_line_start_bounds(s@, j as int);
        }
    }
    j
}

/// Find the end of the line holding position `i`.
fn scan_line_end(s: &Vec<char>, i: usize) -> (r: usize)
    requires
        i <= s@.len(),
    ensures
        r == line_end_of(s@, i as int),
        i <= r <= s@.len(),
{
    proof {
        lemma_line_end_bounds(s@, i as int);
    }
    let mut j = i;
    while j < s.len() && s[j] != '\n'
        invariant
            i <= j <= s@.len(),
            line_end_of(s@, i as int) == line_end_of(s@, j as int),
        decreases s@.len() - j,
    {
        j = j + 1;
        proof {
            lemma_line_end_bounds(s@, j as int);
        }
    }
    j
}

/// Render a load failure against its source text: the offending line and a
/// caret at the failing position.
pub fn format_error(input: &str, err: &IRErr) -> (r: String)
    requires
        err.location.offset <= input@.len(),
    ensures
        r@ == format_error_v(input@, *err),
{
    let s = ir_input(input);
    let o = err.location.offset;
    let ls = scan_line_start(&s, o);
    let le = scan_line_end(&s, o);
    let mut r = String::from_str("line ");
    let num = dec_of(err.location.line);
    r.append(num.as_str());
    r.append(": ");
    match err.code {
        IRErrType::AdditionalData => r.append("this is no command, comment or blank line"),
        IRErrType::OpcodeMissing => r.append("a command needs at least an opcode"),
        IRErrType::DuplicateLabel => r.append("this label was already used"),
    }
    r.push('\n');
    let line_text = string_of(&s, ls, le);
    r.append(line_text.as_str());
    r.push('\n');
    let mut k: usize = 0;
    proof {
        assert(space_run(0) =~= Seq::<char>::empty());
        assert(r@ + space_run(0) =~= r@);
    }
    let ghost caret_base = r@;
    while k < o - ls
        invariant
            k <= o - ls,
            ls <= o,
            r@ == caret_base + space_run(k as int),
        decreases o - ls - k,
    {
        r.push(' ');
        k = k + 1;
        proof {
            assert(caret_base + space_run(k - 1) + seq![' '] =~= caret_base + space_run(k as int));
        }
    }
    r.append("^ here");
    proof {
        assert(r@ =~= format_error_v(input@, *err));
    }
    r
}

} // verus!

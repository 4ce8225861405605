use vstd::prelude::*;
use crate::grammar::{digits_end, lemma_digits_end_bounds};
use crate::text::{chars_of, push_char};
use vstd::string::StringExecFns;

verus! {

/// The kinds of window that a layout places.
#[derive(Clone, Copy, Debug, PartialEq, Eq, Structural)]
pub enum ContainerType {
    Console,
    Terminal,
    SrcView,
    ExpressionTable,
}

/// A set of characters that the parser expected.
#[derive(Clone, Copy, Debug, PartialEq, Eq, Structural)]
pub enum ExpectedChars {
    /// What may start a node: `c`, `t`, `s`, `e` or `(`.
    NodeStart,
    /// The bracket that closes a group: `)`.
    ClosingBracket,
}

/// What may start a node.
pub const NODE_START_CHARS: ExpectedChars = ExpectedChars::NodeStart;

/// The bracket that closes a group.
pub const CLOSING_BRACKET_CHARS: ExpectedChars = ExpectedChars::ClosingBracket;

/// Why a layout description was refused. Positions count characters from the start.
#[derive(Clone, Copy, Debug, PartialEq, Eq, Structural)]
pub enum LayoutParseError {
    /// The text ended where one of these characters was expected.
    TooShortExpected(ExpectedChars),
    /// At this position one of these characters was expected; this one stands there.
    ExpectedGotMany(usize, ExpectedChars, char),
    /// At this position a group that was split with the first character is split with the second.
    SplitTypeChangeFromTo(usize, char, char),
}

/// A layout: a window, or windows side by side (`|`) or one above the other (`-`),
/// each with its weight.
#[derive(Debug, PartialEq)]
pub enum LayoutNode {
    Leaf(ContainerType),
    HSplit(Vec<(LayoutNode, u32)>),
    VSplit(Vec<(LayoutNode, u32)>),
}

/// The mathematical model of a `LayoutNode`.
pub enum LayoutModel {
    Leaf(ContainerType),
    HSplit(Seq<(LayoutModel, u32)>),
    VSplit(Seq<(LayoutModel, u32)>),
}

pub open spec fn layout_model(n: LayoutNode) -> LayoutModel
    decreases n,
{
    match n {
        LayoutNode::Leaf(t) => LayoutModel::Leaf(t),
        LayoutNode::HSplit(c) => LayoutModel::HSplit(children_model(c@)),
        LayoutNode::VSplit(c) => LayoutModel::VSplit(children_model(c@)),
    }
}

pub open spec fn children_model(s: Seq<(LayoutNode, u32)>) -> Seq<(LayoutModel, u32)>
    decreases s,
{
    if s.len() == 0 {
        Seq::empty()
    } else {
        children_model(s.subrange(0, s.len() - 1)).push(
            (layout_model(s[s.len() - 1].0), s[s.len() - 1].1),
        )
    }
}

impl View for LayoutNode {
    type V = LayoutModel;

    open spec fn view(&self) -> LayoutModel {
        layout_model(*self)
    }
}

/// How the nodes of a group are split so far.
#[derive(Clone, Copy, PartialEq, Eq, Structural)]
pub enum SplitType {
    Single,
    Horizontal,
    Vertical,
}

/// The window that a character names.
pub open spec fn leaf_of(c: char) -> Option<ContainerType> {
    if c == 'c' {
        Some(ContainerType::Console)
    } else if c == 't' {
        Some(ContainerType::Terminal)
    } else if c == 's' {
        Some(ContainerType::SrcView)
    } else if c == 'e' {
        Some(ContainerType::ExpressionTable)
    } else {
        None
    }
}

pub open spec fn saturate(x: nat) -> u32 {
    if x > u32::MAX {
        u32::MAX
    } else {
        x as u32
    }
}

/// The decimal value of the digits `s[i..k]` after the value `w`, saturating at `u32::MAX`.
pub open spec fn digits_value(s: Seq<char>, i: int, k: int, w: u32) -> u32
    decreases k - i,
{
    if 0 <= i < k && i < s.len() {
        digits_value(s, i + 1, k, saturate(w as nat * 10 + (s[i] as nat - '0' as nat) as nat))
    } else {
        w
    }
}

/// The weight written at `i`: its digits, or 1 where there are none.
pub open spec fn weight_at(s: Seq<char>, i: int) -> u32 {
    let k = digits_end(s, i);
    if k == i {
        1
    } else {
        digits_value(s, i, k, 0)
    }
}

/// The group that is closed once the nodes `nodes` are read, split as `split`.
pub open spec fn finish(nodes: Seq<(LayoutModel, u32)>, split: SplitType) -> LayoutModel {
    match split {
        SplitType::Horizontal => LayoutModel::HSplit(nodes),
        SplitType::Vertical => LayoutModel::VSplit(nodes),
        SplitType::Single => nodes[0].0,
    }
}

/// The node that starts at `i` (after its weight): a window, or a group in brackets,
/// with the position after it.
pub open spec fn child_at(s: Seq<char>, i: int) -> Result<(LayoutModel, int), LayoutParseError>
    decreases s.len() - i, 0int,
{
    if i < 0 || i >= s.len() {
        Err(LayoutParseError::TooShortExpected(ExpectedChars::NodeStart))
    } else if leaf_of(s[i]) is Some {
        Ok((LayoutModel::Leaf(leaf_of(s[i])->0), i + 1))
    } else if s[i] == '(' {
        match group_at(s, i + 1, Seq::empty(), SplitType::Single) {
            Err(e) => Err(e),
            Ok((n, k)) => if k < 0 || k >= s.len() {
                Err(LayoutParseError::TooShortExpected(ExpectedChars::ClosingBracket))
            } else if s[k] != ')' {
                Err(LayoutParseError::ExpectedGotMany(k as usize, ExpectedChars::ClosingBracket, s[k]))
            } else {
                Ok((n, k + 1))
            },
        }
    } else {
        Err(LayoutParseError::ExpectedGotMany(i as usize, ExpectedChars::NodeStart, s[i]))
    }
}

/// The rest of a group from `i`, after the nodes `nodes` split as `split`: weighted nodes
/// joined by `|` or `-` (one of the two throughout), up to the first other character.
/// Each node ends past the point where its weight started: positions only move forward.
pub open spec fn group_at(
    s: Seq<char>,
    i: int,
    nodes: Seq<(LayoutModel, u32)>,
    split: SplitType,
) -> Result<(LayoutModel, int), LayoutParseError>
    decreases s.len() - i, 1int,
{
    let we = digits_end(s, i);
    if i < 0 || we < i || we > s.len() {
        Err(LayoutParseError::TooShortExpected(ExpectedChars::NodeStart))
    } else {
        match child_at(s, we) {
            Err(e) => Err(e),
            Ok((child, after)) => {
                let nodes2 = nodes.push((child, weight_at(s, i)));
                if after <= i || after >= s.len() {
                    Ok((finish(nodes2, split), after))
                } else {
                    let c = s[after];
                    if c == '|' {
                        if split == SplitType::Vertical {
                            Err(LayoutParseError::SplitTypeChangeFromTo(after as usize, '-', '|'))
                        } else {
                            group_at(s, after + 1, nodes2, SplitType::Horizontal)
                        }
                    } else if c == '-' {
                        if split == SplitType::Horizontal {
                            Err(LayoutParseError::SplitTypeChangeFromTo(after as usize, '|', '-'))
                        } else {
                            group_at(s, after + 1, nodes2, SplitType::Vertical)
                        }
                    } else {
                        Ok((finish(nodes2, split), after))
                    }
                }
            },
        }
    }
}

/// The layout that a description stands for.
pub open spec fn layout_of(s: Seq<char>) -> Result<LayoutModel, LayoutParseError> {
    if s.len() == 0 {
        Err(LayoutParseError::TooShortExpected(ExpectedChars::NodeStart))
    } else {
        match group_at(s, 0, Seq::empty(), SplitType::Single) {
            Ok((n, _)) => Ok(n),
            Err(e) => Err(e),
        }
    }
}

/// A layout description being read: its characters and the position of the current one.
pub struct Input {
    chars: Vec<char>,
    pos: usize,
}

impl View for Input {
    type V = (Seq<char>, int);

    closed spec fn view(&self) -> (Seq<char>, int) {
        (self.chars@, self.pos as int)
    }
}

impl Input {
    /// The position stays within the text, or just past its end.
    pub closed spec fn wf(&self) -> bool {
        self.pos <= self.chars@.len()
    }

    /// Starts reading `s`; an empty text is refused, since a node was expected.
    pub fn new(s: &str) -> (r: Result<Input, LayoutParseError>)
        ensures
            s@.len() == 0 ==> r == Err::<Input, LayoutParseError>(
                LayoutParseError::TooShortExpected(ExpectedChars::NodeStart),
            ),
            s@.len() > 0 ==> r is Ok && r->Ok_0.wf() && r->Ok_0@ == (s@, 0int),
    {
        let chars = chars_of(s);
        if chars.len() == 0 {
            return Err(LayoutParseError::TooShortExpected(NODE_START_CHARS));
        }
        Ok(Input { chars, pos: 0 })
    }

    /// The current character, if the text has not ended.
    pub fn current(&self) -> (r: Option<char>)
        requires
            self.wf(),
        ensures
            self@.1 < self@.0.len() ==> r == Some(self@.0[self@.1]),
            self@.1 >= self@.0.len() ==> r is None,
    {
        if self.pos < self.chars.len() {
            Some(self.chars[self.pos])
        } else {
            None
        }
    }

    /// The position of the current character, counted in characters.
    pub fn current_index(&self) -> (r: usize)
        ensures
            r == self@.1,
    {
        self.pos
    }

    /// Moves on to the next character, unless the text has ended.
    pub fn advance(&mut self)
        requires
            old(self).wf(),
        ensures
            final(self).wf(),
            final(self)@.0 == old(self)@.0,
            old(self)@.1 < old(self)@.0.len() ==> final(self)@.1 == old(self)@.1 + 1,
            old(self)@.1 >= old(self)@.0.len() ==> final(self)@.1 == old(self)@.1,
    {
        if self.pos < self.chars.len() {
            self.pos = self.pos + 1;
        }
    }
}

/// Reads the weight at the current position: its digits, or 1 where there are none.
fn try_parse_weight(i: &mut Input) -> (w: u32)
    requires
        old(i).wf(),
    ensures
        final(i).wf(),
        final(i)@.0 == old(i)@.0,
        final(i)@.1 == digits_end(old(i)@.0, old(i)@.1),
        old(i)@.1 <= final(i)@.1,
        w == weight_at(old(i)@.0, old(i)@.1),
{
    let ghost s = i@.0;
    let ghost start = i@.1;
    let first = i.current();
    let is_digit = match first {
        Some(c) => '0' <= c && c <= '9',
        None => false,
    };
    if !is_digit {
        return 1;
    }
    proof {
        lemma_digits_end_bounds(s, start + 1);
    }
    let mut w: u32 = 0;
    loop
        invariant
            i.wf(),
            i@.0 == s,
            s == old(i)@.0,
            start == old(i)@.1,
            start <= i@.1,
            start < digits_end(s, start),
            digits_end(s, i@.1) == digits_end(s, start),
            digits_value(s, start, digits_end(s, start), 0) == digits_value(
                s,
                i@.1,
                digits_end(s, start),
                w,
            ),
        decreases s.len() - i@.1,
    {
        match i.current() {
            Some(c) => {
                if '0' <= c && c <= '9' {
                    let ghost w0 = w;
                    proof {
                        lemma_digits_end_bounds(s, i@.1 + 1);
                    }
                    let d = (c as u32 - '0' as u32) as u64;
                    let x: u64 = w as u64 * 10 + d;
                    assert(x as nat == w0 as nat * 10 + (s[i@.1] as nat - '0' as nat) as nat);
                    w = if x > u32::MAX as u64 {
                        u32::MAX
                    } else {
                        x as u32
                    };
                    assert(w == saturate(x as nat));
                    assert(digits_value(s, i@.1, digits_end(s, start), w0) == digits_value(
                        s,
                        i@.1 + 1,
                        digits_end(s, start),
                        w,
                    ));
                } else {
                    return w;
                }
            },
            None => {
                return w;
            },
        }
        i.advance();
    }
}

/// Reads a window's letter at the current position, if one stands there.
fn try_parse_leaf(i: &mut Input) -> (r: Option<LayoutNode>)
    requires
        old(i).wf(),
    ensures
        final(i).wf(),
        final(i)@.0 == old(i)@.0,
        match r {
            Some(n) => old(i)@.1 < old(i)@.0.len() && leaf_of(old(i)@.0[old(i)@.1]) == Some(
                n@->Leaf_0,
            ) && n@ is Leaf && final(i)@.1 == old(i)@.1 + 1,
            None => (old(i)@.1 >= old(i)@.0.len() || leaf_of(old(i)@.0[old(i)@.1]) is None)
                && final(i)@ == old(i)@,
        },
{
    let t = match i.current() {
        Some('c') => ContainerType::Console,
        Some('t') => ContainerType::Terminal,
        Some('s') => ContainerType::SrcView,
        Some('e') => ContainerType::ExpressionTable,
        _ => {
            return None;
        },
    };
    i.advance();
    Some(LayoutNode::Leaf(t))
}

/// Reads a group from the current position: weighted nodes joined by `|` or `-`.
fn parse_node(i: &mut Input) -> (r: Result<LayoutNode, LayoutParseError>)
    requires
        old(i).wf(),
    ensures
        final(i).wf(),
        final(i)@.0 == old(i)@.0,
        old(i)@.1 <= final(i)@.1,
        match group_at(old(i)@.0, old(i)@.1, Seq::empty(), SplitType::Single) {
            Ok((m, k)) => r is Ok && r->Ok_0@ == m && final(i)@.1 == k,
            Err(e) => r == Err::<LayoutNode, LayoutParseError>(e),
        },
    decreases old(i)@.0.len() - old(i)@.1,
{
    let ghost s = i@.0;
    let ghost entry = i@.1;
    let mut nodes: Vec<(LayoutNode, u32)> = Vec::new();
    let mut split = SplitType::Single;
    assert(children_model(nodes@) =~= Seq::empty());
    loop
        invariant
            i.wf(),
            i@.0 == s,
            s == old(i)@.0,
            entry == old(i)@.1,
            entry <= i@.1,
            split == SplitType::Single ==> nodes@.len() == 0,
            split != SplitType::Single ==> nodes@.len() > 0,
            group_at(s, i@.1, children_model(nodes@), split) == group_at(
                s,
                entry,
                Seq::empty(),
                SplitType::Single,
            ),
        decreases s.len() - i@.1,
    {
        let ghost iter_start = i@.1;
        let weight = try_parse_weight(i);
        let ghost we = i@.1;
        let child = match try_parse_leaf(i) {
            Some(l) => l,
            None => match i.current() {
                Some('(') => {
                    i.advance();
                    let n = match parse_node(i) {
                        Ok(n) => n,
                        Err(e) => {
                            return Err(e);
                        },
                    };
                    match i.current() {
                        Some(')') => {
                            i.advance();
                        },
                        Some(o) => {
                            return Err(
                                LayoutParseError::ExpectedGotMany(
                                    i.current_index(),
                                    CLOSING_BRACKET_CHARS,
                                    o,
                                ),
                            );
                        },
                        None => {
                            return Err(LayoutParseError::TooShortExpected(CLOSING_BRACKET_CHARS));
                        },
                    }
                    n
                },
                Some(o) => {
                    return Err(LayoutParseError::ExpectedGotMany(i.current_index(), NODE_START_CHARS, o));
                },
                None => {
                    return Err(LayoutParseError::TooShortExpected(NODE_START_CHARS));
                },
            },
        };
        assert(child_at(s, we) == Ok::<(LayoutModel, int), LayoutParseError>((child@, i@.1)));
        let ghost prev = nodes@;
        nodes.push((child, weight));
        assert(nodes@.subrange(0, nodes@.len() - 1) =~= prev);
        let c = match i.current() {
            Some(c) => c,
            None => {
                return Ok(finish_node(nodes, split));
            },
        };
        if c == '|' {
            if split == SplitType::Vertical {
                return Err(LayoutParseError::SplitTypeChangeFromTo(i.current_index(), '-', '|'));
            }
            split = SplitType::Horizontal;
        } else if c == '-' {
            if split == SplitType::Horizontal {
                return Err(LayoutParseError::SplitTypeChangeFromTo(i.current_index(), '|', '-'));
            }
            split = SplitType::Vertical;
        } else {
            return Ok(finish_node(nodes, split));
        }
        i.advance();
    }
}

/// Closes a group: a split of its nodes, or its only node.
fn finish_node(nodes: Vec<(LayoutNode, u32)>, split: SplitType) -> (r: LayoutNode)
    requires
        nodes@.len() > 0,
        split == SplitType::Single ==> nodes@.len() == 1,
    ensures
        r@ == finish(children_model(nodes@), split),
{
    proof {
        lemma_children_model(nodes@);
    }
    match split {
        SplitType::Horizontal => LayoutNode::HSplit(nodes),
        SplitType::Vertical => LayoutNode::VSplit(nodes),
        SplitType::Single => {
            let mut nodes = nodes;
            let (n, _) = nodes.remove(0);
            n
        },
    }
}

pub proof fn lemma_children_model(s: Seq<(LayoutNode, u32)>)
    ensures
        children_model(s).len() == s.len(),
        forall|k: int|
            0 <= k < s.len() ==> #[trigger] children_model(s)[k] == (layout_model(s[k].0), s[k].1),
    decreases s.len(),
{
    if s.len() > 0 {
        lemma_children_model(s.subrange(0, s.len() - 1));
    }
}

/// Reads a layout description, such as `(1s-1c)|(1e-1t)`.
pub fn parse(s: &str) -> (r: Result<LayoutNode, LayoutParseError>)
    ensures
        match layout_of(s@) {
            Ok(m) => r is Ok && r->Ok_0@ == m,
            Err(e) => r == Err::<LayoutNode, LayoutParseError>(e),
        },
{
    let mut i = match Input::new(s) {
        Ok(i) => i,
        Err(e) => {
            return Err(e);
        },
    };
    parse_node(&mut i)
}

/// The decimal digit `d`.
pub open spec fn digit_char(d: nat) -> char {
    ((d + 48) as u8) as char
}

/// The decimal digits of `n`.
pub open spec fn decimal(n: nat) -> Seq<char>
    decreases n,
{
    if n < 10 {
        seq![digit_char(n)]
    } else {
        decimal(n / 10).push(digit_char(n % 10))
    }
}

/// The name of a kind of window.
pub open spec fn container_name(t: ContainerType) -> Seq<char> {
    match t {
        ContainerType::Console => "Console"@,
        ContainerType::Terminal => "Terminal"@,
        ContainerType::SrcView => "SrcView"@,
        ContainerType::ExpressionTable => "ExpressionTable"@,
    }
}

/// A layout as text: a window by its name, a split as its weighted nodes in brackets,
/// joined by `|` or `-`.
pub open spec fn describe_model(m: LayoutModel) -> Seq<char>
    decreases m,
{
    match m {
        LayoutModel::Leaf(t) => container_name(t),
        LayoutModel::HSplit(c) => seq!['('] + describe_children(c, '|') + seq![')'],
        LayoutModel::VSplit(c) => seq!['('] + describe_children(c, '-') + seq![')'],
    }
}

/// Weighted nodes as text, joined by `sep`.
pub open spec fn describe_children(c: Seq<(LayoutModel, u32)>, sep: char) -> Seq<char>
    decreases c,
{
    if c.len() == 0 {
        Seq::empty()
    } else if c.len() == 1 {
        decimal(c[0].1 as nat) + describe_model(c[0].0)
    } else {
        describe_children(c.subrange(0, c.len() - 1), sep) + seq![sep] + decimal(
            c[c.len() - 1].1 as nat,
        ) + describe_model(c[c.len() - 1].0)
    }
}

/// Appends the decimal digits of `n` to `out`.
pub fn write_decimal(n: u32, out: &mut String)
    ensures
        final(out)@ == old(out)@ + decimal(n as nat),
    decreases n,
{
    if n >= 10 {
        write_decimal(n / 10, out);
    }
    let d = (n % 10) as u8;
    push_char(out, (d + 48) as char);
    assert(final(out)@ =~= old(out)@ + decimal(n as nat));
}

fn write_layout(n: &LayoutNode, out: &mut String)
    ensures
        final(out)@ == old(out)@ + describe_model(n@),
    decreases n@,
{
    match n {
        LayoutNode::Leaf(t) => {
            match t {
                ContainerType::Console => out.append("Console"),
                ContainerType::Terminal => out.append("Terminal"),
                ContainerType::SrcView => out.append("SrcView"),
                ContainerType::ExpressionTable => out.append("ExpressionTable"),
            }
        },
        LayoutNode::HSplit(c) => {
            assert(n@ == LayoutModel::HSplit(children_model(c@)));
            write_split(n, c, '|', out);
        },
        LayoutNode::VSplit(c) => {
            assert(n@ == LayoutModel::VSplit(children_model(c@)));
            write_split(n, c, '-', out);
        },
    }
}

fn write_split(n: &LayoutNode, c: &Vec<(LayoutNode, u32)>, sep: char, out: &mut String)
    requires
        (sep == '|' && n@ == LayoutModel::HSplit(children_model(c@))) || (sep == '-' && n@
            == LayoutModel::VSplit(children_model(c@))),
    ensures
        final(out)@ == old(out)@ + describe_model(n@),
    decreases n@, 0int,
{
    let ghost cs = children_model(c@);
    proof {
        lemma_children_model(c@);
    }
    push_char(out, '(');
    let ghost start = out@;
    let mut i: usize = 0;
    while i < c.len()
        invariant
            (sep == '|' && n@ == LayoutModel::HSplit(cs)) || (sep == '-' && n@ == LayoutModel::VSplit(cs)),
            cs == children_model(c@),
            cs.len() == c@.len(),
            forall|k: int| 0 <= k < c@.len() ==> #[trigger] cs[k] == (layout_model(c@[k].0), c@[k].1),
            0 <= i <= c@.len(),
            out@ == start + describe_children(cs.subrange(0, i as int), sep),
        decreases c@.len() - i,
    {
        if i > 0 {
            push_char(out, sep);
        }
        write_decimal(c[i].1, out);
        proof {
            if sep == '|' {
                assert(decreases_to!(n@ => n@->HSplit_0));
            } else {
                assert(decreases_to!(n@ => n@->VSplit_0));
            }
            assert(decreases_to!(cs => cs[i as int]));
            assert(decreases_to!(cs[i as int] => cs[i as int].0));
        }
        write_layout(&c[i].0, out);
        assert(cs.subrange(0, i + 1).subrange(0, i as int) =~= cs.subrange(0, i as int));
        assert(out@ =~= start + describe_children(cs.subrange(0, i + 1), sep));
        i = i + 1;
    }
    push_char(out, ')');
    assert(cs.subrange(0, cs.len() as int) =~= cs);
    assert(final(out)@ =~= old(out)@ + describe_model(n@));
}

impl LayoutNode {
    /// The layout as text, such as `(1(1SrcView-1Console)|1Terminal)`.
    pub fn describe(&self) -> (r: String)
        ensures
            r@ == describe_model(self@),
    {
        let mut out = String::new();
        write_layout(self, &mut out);
        out
    }
}

} // verus!

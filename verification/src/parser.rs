//! Backtracking, position-tracking parser for the edited listing.
//!
//! A listing is a sequence of transform lines.  Each non-comment,
//! non-blank line starts with a fragment of an entry identifier (a run
//! of lowercase hex digits); an optional replacement pattern follows
//! after blanks.  A line without a pattern, or whose pattern trims to
//! nothing, asks for removal; any other line asks for a rename.

use crate::util::{chars_to_string, is_hex_char, str_to_chars};
use vstd::prelude::*;

verus! {

/// An input position: absolute character offset, 1-based line and
/// column.
#[derive(PartialEq, Eq, Structural, Debug, Clone, Copy)]
pub struct Position {
    pub offset: usize,
    pub line: usize,
    pub col: usize,
}

impl Position {
    /// The position of the first character.
    fn new() -> (r: Self)
        ensures
            r == (Position { offset: 0, line: 1, col: 1 }),
    {
        Position { offset: 0, line: 1, col: 1 }
    }
}

/// 1-based line number of the character at `off` in `s`.
pub open spec fn line_of(s: Seq<char>, off: int) -> int
    decreases off,
{
    if off <= 0 {
        1
    } else {
        line_of(s, off - 1) + if s[off - 1] == '\n' {
            1int
        } else {
            0int
        }
    }
}

/// 1-based column of the character at `off` in `s`.
pub open spec fn col_of(s: Seq<char>, off: int) -> int
    decreases off,
{
    if off <= 0 {
        1
    } else if s[off - 1] == '\n' {
        1
    } else {
        col_of(s, off - 1) + 1
    }
}

proof fn lemma_line_col_bounds(s: Seq<char>, off: int)
    requires
        0 <= off,
    ensures
        1 <= line_of(s, off) <= off + 1,
        1 <= col_of(s, off) <= off + 1,
    decreases off,
{
    if off > 0 {
        lemma_line_col_bounds(s, off - 1);
    }
}

/// Space, tab or newline: the whitespace the listing grammar skips
/// between transforms.
pub open spec fn is_space_char(c: char) -> bool {
    c == ' ' || c == '\t' || c == '\n'
}

/// Space or tab: the blank run separating an identifier fragment from
/// its pattern.
pub open spec fn is_blank_char(c: char) -> bool {
    c == ' ' || c == '\t'
}

/// End of the run of characters from `set` starting at `i`.
pub open spec fn run_end(s: Seq<char>, i: int, set: Seq<char>) -> int
    decreases s.len() - i,
        when 0 <= i <= s.len()
{
    if i < s.len() && set.contains(s[i]) {
        run_end(s, i + 1, set)
    } else {
        i
    }
}

pub proof fn lemma_run_end(s: Seq<char>, i: int, set: Seq<char>)
    requires
        0 <= i <= s.len(),
    ensures
        i <= run_end(s, i, set) <= s.len(),
        forall|j: int| i <= j < run_end(s, i, set) ==> set.contains(#[trigger] s[j]),
        run_end(s, i, set) < s.len() ==> !set.contains(s[run_end(s, i, set)]),
    decreases s.len() - i,
{
    if i < s.len() && set.contains(s[i]) {
        lemma_run_end(s, i + 1, set);
    }
}

/// End of the run of lowercase hex digits starting at `i`.
pub open spec fn hex_end(s: Seq<char>, i: int) -> int
    decreases s.len() - i,
        when 0 <= i <= s.len()
{
    if i < s.len() && is_hex_char(s[i]) {
        hex_end(s, i + 1)
    } else {
        i
    }
}

/// End of the run of blanks (space, tab) starting at `i`.
pub open spec fn blank_end(s: Seq<char>, i: int) -> int
    decreases s.len() - i,
        when 0 <= i <= s.len()
{
    if i < s.len() && is_blank_char(s[i]) {
        blank_end(s, i + 1)
    } else {
        i
    }
}

/// End of the run of whitespace (space, tab, newline) starting at `i`.
pub open spec fn space_end(s: Seq<char>, i: int) -> int
    decreases s.len() - i,
        when 0 <= i <= s.len()
{
    if i < s.len() && is_space_char(s[i]) {
        space_end(s, i + 1)
    } else {
        i
    }
}

/// Position of the next newline at or after `i`, or the end of input.
pub open spec fn line_end(s: Seq<char>, i: int) -> int
    decreases s.len() - i,
        when 0 <= i <= s.len()
{
    if i < s.len() && s[i] != '\n' {
        line_end(s, i + 1)
    } else {
        i
    }
}

/// Position just after the line ending that closes the line starting
/// at `i`: past the newline, or the end of input.
pub open spec fn after_line(s: Seq<char>, i: int) -> int {
    if line_end(s, i) < s.len() {
        line_end(s, i) + 1
    } else {
        line_end(s, i)
    }
}

pub proof fn lemma_hex_end(s: Seq<char>, i: int)
    requires
        0 <= i <= s.len(),
    ensures
        i <= hex_end(s, i) <= s.len(),
    decreases s.len() - i,
{
    if i < s.len() && is_hex_char(s[i]) {
        lemma_hex_end(s, i + 1);
    }
}

pub proof fn lemma_blank_end(s: Seq<char>, i: int)
    requires
        0 <= i <= s.len(),
    ensures
        i <= blank_end(s, i) <= s.len(),
    decreases s.len() - i,
{
    if i < s.len() && is_blank_char(s[i]) {
        lemma_blank_end(s, i + 1);
    }
}

pub proof fn lemma_space_end(s: Seq<char>, i: int)
    requires
        0 <= i <= s.len(),
    ensures
        i <= space_end(s, i) <= s.len(),
    decreases s.len() - i,
{
    if i < s.len() && is_space_char(s[i]) {
        lemma_space_end(s, i + 1);
    }
}

pub proof fn lemma_line_end(s: Seq<char>, i: int)
    requires
        0 <= i <= s.len(),
    ensures
        i <= line_end(s, i) <= s.len(),
        i <= after_line(s, i) <= s.len(),
    decreases s.len() - i,
{
    if i < s.len() && s[i] != '\n' {
        lemma_line_end(s, i + 1);
    }
}

/// Position after the whitespace and comments starting at `i`: the
/// first position holding neither a comment nor a whitespace run.
pub open spec fn skip_ws(s: Seq<char>, i: int) -> int
    decreases s.len() - i,
        when 0 <= i <= s.len()
        via skip_ws_dec
{
    if i < s.len() && s[i] == '#' {
        skip_ws(s, after_line(s, i + 1))
    } else if i < s.len() && is_space_char(s[i]) {
        skip_ws(s, space_end(s, i + 1))
    } else {
        i
    }
}

#[via_fn]
proof fn skip_ws_dec(s: Seq<char>, i: int) {
    if 0 <= i && i <= s.len() {
        if i < s.len() && s[i] == '#' {
            lemma_line_end(s, i + 1);
        } else if i < s.len() && is_space_char(s[i]) {
            lemma_space_end(s, i + 1);
        }
    }
}

pub proof fn lemma_skip_ws(s: Seq<char>, i: int)
    requires
        0 <= i <= s.len(),
    ensures
        i <= skip_ws(s, i) <= s.len(),
    decreases s.len() - i,
{
    if i < s.len() && s[i] == '#' {
        lemma_line_end(s, i + 1);
        lemma_skip_ws(s, after_line(s, i + 1));
    } else if i < s.len() && is_space_char(s[i]) {
        lemma_space_end(s, i + 1);
        lemma_skip_ws(s, space_end(s, i + 1));
    }
}

/// A parse failure: a description, the position at which it happened,
/// and optionally the inner failure it wraps, innermost last.
#[derive(PartialEq, Eq, Debug)]
pub struct Error {
    desc: String,
    pos: Position,
    inner: Option<Box<Error>>,
}

impl Error {
    /// The description of the outermost failure.
    pub closed spec fn spec_desc(&self) -> Seq<char> {
        self.desc@
    }

    /// The position of the outermost failure.
    pub closed spec fn spec_pos(&self) -> Position {
        self.pos
    }

    /// The wrapped inner failure, if any.
    pub closed spec fn spec_inner(&self) -> Option<Box<Error>> {
        self.inner
    }

    /// A leaf failure.
    pub fn new(desc: &str, pos: Position) -> (r: Self)
        ensures
            r.spec_desc() == desc@,
            r.spec_pos() == pos,
            r.spec_inner() is None,
    {
        Error { desc: desc.to_owned(), pos, inner: None }
    }

    /// A failure wrapping `inner` with outer context.
    pub fn new_wrap(desc: &str, pos: Position, inner: Self) -> (r: Self)
        ensures
            r.spec_desc() == desc@,
            r.spec_pos() == pos,
            r.spec_inner() matches Some(b) && *b == inner,
    {
        Error { desc: desc.to_owned(), pos, inner: Some(Box::new(inner)) }
    }

    /// The rendered failure chain, outermost first: each link gives
    /// its line, column and description.
    pub closed spec fn message_spec(&self) -> Seq<char>
        decreases *self,
    {
        let head = "at "@ + crate::formatter::dec_seq(self.pos.line as nat) + ":"@
            + crate::formatter::dec_seq(self.pos.col as nat) + ": "@ + self.desc@;
        match self.inner {
            None => head,
            Some(b) => head + ", "@ + b.message_spec(),
        }
    }

    /// Renders the failure chain for diagnostics.
    pub fn message(&self) -> (r: String)
        ensures
            r@ == self.message_spec(),
        decreases *self,
    {
        let mut out = "at ".to_owned();
        out.append(crate::formatter::Formatter::decimal(self.pos.line).as_str());
        out.append(":");
        out.append(crate::formatter::Formatter::decimal(self.pos.col).as_str());
        out.append(": ");
        out.append(self.desc.as_str());
        match &self.inner {
            None => {},
            Some(b) => {
                out.append(", ");
                out.append(b.message().as_str());
            },
        }
        out
    }
}

/// One operation asked for by the edited listing.
#[derive(PartialEq, Eq, Debug, Clone)]
pub enum Transform {
    /// Rename the entry whose identifier starts with `hash_fragment`,
    /// expanding `pattern` into the new name.
    Rename { hash_fragment: String, pattern: String },
    /// Remove the entry whose identifier starts with `hash_fragment`.
    Remove { hash_fragment: String },
}

/// Mathematical image of a `Transform`.
pub enum TransformView {
    Rename { hash_fragment: Seq<char>, pattern: Seq<char> },
    Remove { hash_fragment: Seq<char> },
}

impl View for Transform {
    type V = TransformView;

    closed spec fn view(&self) -> TransformView {
        match self {
            Transform::Rename { hash_fragment, pattern } => TransformView::Rename {
                hash_fragment: hash_fragment@,
                pattern: pattern@,
            },
            Transform::Remove { hash_fragment } => TransformView::Remove {
                hash_fragment: hash_fragment@,
            },
        }
    }
}

impl Transform {
    /// A rename operation.
    pub fn rename(hash_fragment: String, pattern: String) -> (r: Self)
        ensures
            r@ == (TransformView::Rename { hash_fragment: hash_fragment@, pattern: pattern@ }),
    {
        Transform::Rename { hash_fragment, pattern }
    }

    /// A remove operation.
    pub fn remove(hash_fragment: String) -> (r: Self)
        ensures
            r@ == (TransformView::Remove { hash_fragment: hash_fragment@ }),
    {
        Transform::Remove { hash_fragment }
    }

    /// The identifier fragment the operation addresses.
    pub fn hash_fragment(&self) -> (r: &str)
        ensures
            r@ == self.spec_hash_fragment(),
    {
        match self {
            Transform::Rename { hash_fragment, .. } => hash_fragment.as_str(),
            Transform::Remove { hash_fragment } => hash_fragment.as_str(),
        }
    }

    /// The identifier fragment, at the spec level.
    pub open spec fn spec_hash_fragment(&self) -> Seq<char> {
        frag_of(self@)
    }

    /// The rename pattern, for a rename operation; `None` for a
    /// removal.
    pub fn pattern(&self) -> (r: Option<&str>)
        ensures
            match self@ {
                TransformView::Rename { pattern, .. } => r matches Some(p) && p@ == pattern,
                TransformView::Remove { .. } => r is None,
            },
    {
        match self {
            Transform::Rename { pattern, .. } => Some(pattern.as_str()),
            Transform::Remove { .. } => None,
        }
    }
}

/// The identifier fragment an operation addresses.
pub open spec fn frag_of(tv: TransformView) -> Seq<char> {
    match tv {
        TransformView::Rename { hash_fragment, .. } => hash_fragment,
        TransformView::Remove { hash_fragment } => hash_fragment,
    }
}

/// Result of parsing one transform at position `i`: the position
/// after its line ending and the operation, or `None` when no
/// transform starts there.
///
/// A transform is optional whitespace and comments, a nonempty run of
/// hex digits, and then either a line ending (a removal) or a blank
/// run followed by a pattern running to the line ending: a removal
/// when the pattern trims to nothing, a rename otherwise.
pub open spec fn spec_transform(s: Seq<char>, i: int) -> Option<(int, TransformView)> {
    let j = skip_ws(s, i);
    let k = hex_end(s, j);
    if k == j {
        None
    } else {
        let frag = s.subrange(j, k);
        let b = blank_end(s, k);
        if b == k {
            if k == s.len() {
                Some((k, TransformView::Remove { hash_fragment: frag }))
            } else if s[k] == '\n' {
                Some((k + 1, TransformView::Remove { hash_fragment: frag }))
            } else {
                None
            }
        } else {
            let e = line_end(s, b);
            let pat = crate::util::trim_spec(s.subrange(b, e));
            let end = after_line(s, b);
            if pat.len() == 0 {
                Some((end, TransformView::Remove { hash_fragment: frag }))
            } else {
                Some((end, TransformView::Rename { hash_fragment: frag, pattern: pat }))
            }
        }
    }
}

pub proof fn lemma_spec_transform_progress(s: Seq<char>, i: int)
    requires
        0 <= i <= s.len(),
        spec_transform(s, i) is Some,
    ensures
        i < spec_transform(s, i)->Some_0.0 <= s.len(),
{
    let j = skip_ws(s, i);
    lemma_skip_ws(s, i);
    let k = hex_end(s, j);
    lemma_hex_end(s, j);
    let b = blank_end(s, k);
    lemma_blank_end(s, k);
    lemma_line_end(s, b);
}

/// Result of parsing as many transforms as possible from `i`: the
/// position where the last attempt failed, and the operations parsed.
pub open spec fn spec_transforms(s: Seq<char>, i: int) -> (int, Seq<TransformView>)
    decreases s.len() - i,
        when 0 <= i <= s.len()
        via spec_transforms_dec
{
    match spec_transform(s, i) {
        Some((j, t)) => {
            let (e, rest) = spec_transforms(s, j);
            (e, seq![t] + rest)
        },
        None => (i, Seq::empty()),
    }
}

#[via_fn]
proof fn spec_transforms_dec(s: Seq<char>, i: int) {
    if 0 <= i && i <= s.len() && spec_transform(s, i) is Some {
        lemma_spec_transform_progress(s, i);
    }
}

pub proof fn lemma_spec_transforms(s: Seq<char>, i: int)
    requires
        0 <= i <= s.len(),
    ensures
        i <= spec_transforms(s, i).0 <= s.len(),
    decreases s.len() - i,
{
    if spec_transform(s, i) is Some {
        lemma_spec_transform_progress(s, i);
        lemma_spec_transforms(s, spec_transform(s, i)->Some_0.0);
    }
}

/// Result of parsing a whole listing: the operations in order, or the
/// offset at which the parse failed.  The parse fails exactly when
/// something other than whitespace and comments is left after the
/// last recognized transform.
pub open spec fn spec_parse(s: Seq<char>) -> Result<Seq<TransformView>, int> {
    let (i, ts) = spec_transforms(s, 0);
    let j = skip_ws(s, i);
    if j == s.len() {
        Ok(ts)
    } else {
        Err(j)
    }
}

/// The blank set, as characters: membership is `is_blank_char`.
proof fn lemma_blank_set_chars()
    ensures
        forall|c: char| " \t"@.contains(c) <==> is_blank_char(c),
{
    reveal_strlit(" \t");
    let s = " \t"@;
    assert(s[0] == ' ' && s[1] == '\t');
    assert forall|c: char| " \t"@.contains(c) <==> is_blank_char(c) by {
        if is_blank_char(c) {
            if c == ' ' {
                assert(s[0] == c);
            } else {
                assert(s[1] == c);
            }
            assert(s.contains(c));
        }
        if s.contains(c) {
            let i = choose|i: int| 0 <= i < s.len() && s[i] == c;
            assert(is_blank_char(s[i]));
        }
    }
}

/// The whitespace set, as characters: membership is `is_space_char`.
proof fn lemma_space_set_chars()
    ensures
        forall|c: char| " \t\n"@.contains(c) <==> is_space_char(c),
{
    reveal_strlit(" \t\n");
    let s = " \t\n"@;
    assert(s[0] == ' ' && s[1] == '\t' && s[2] == '\n');
    assert forall|c: char| " \t\n"@.contains(c) <==> is_space_char(c) by {
        if is_space_char(c) {
            if c == ' ' {
                assert(s[0] == c);
            } else if c == '\t' {
                assert(s[1] == c);
            } else {
                assert(s[2] == c);
            }
            assert(s.contains(c));
        }
        if s.contains(c) {
            let i = choose|i: int| 0 <= i < s.len() && s[i] == c;
            assert(is_space_char(s[i]));
        }
    }
}

/// A run of hex-set characters is a run of hex digits.
proof fn lemma_run_end_hex(s: Seq<char>, i: int)
    requires
        0 <= i <= s.len(),
    ensures
        run_end(s, i, "0123456789abcdef"@) == hex_end(s, i),
    decreases s.len() - i,
{
    lemma_hex_set_chars();
    if i < s.len() && is_hex_char(s[i]) {
        lemma_run_end_hex(s, i + 1);
    }
}

/// A run of blank-set characters is a blank run.
proof fn lemma_run_end_blank(s: Seq<char>, i: int)
    requires
        0 <= i <= s.len(),
    ensures
        run_end(s, i, " \t"@) == blank_end(s, i),
    decreases s.len() - i,
{
    lemma_blank_set_chars();
    if i < s.len() && is_blank_char(s[i]) {
        lemma_run_end_blank(s, i + 1);
    }
}

/// A run of whitespace-set characters is a whitespace run.
proof fn lemma_run_end_space(s: Seq<char>, i: int)
    requires
        0 <= i <= s.len(),
    ensures
        run_end(s, i, " \t\n"@) == space_end(s, i),
    decreases s.len() - i,
{
    lemma_space_set_chars();
    if i < s.len() && is_space_char(s[i]) {
        lemma_run_end_space(s, i + 1);
    }
}

/// The parser: the input characters and the current position.
pub struct Parser {
    input: Vec<char>,
    pos: Position,
}

impl Parser {
    /// The input characters.
    pub closed spec fn inp(&self) -> Seq<char> {
        self.input@
    }

    /// The current offset.
    pub closed spec fn off(&self) -> int {
        self.pos.offset as int
    }

    /// The current position.
    pub closed spec fn spec_pos(&self) -> Position {
        self.pos
    }

    /// Position bookkeeping is consistent: the offset is inside the
    /// input and line/column follow from it.
    pub closed spec fn wf(&self) -> bool {
        &&& self.input@.len() < usize::MAX
        &&& self.pos.offset <= self.input@.len()
        &&& self.pos.line == line_of(self.input@, self.pos.offset as int)
        &&& self.pos.col == col_of(self.input@, self.pos.offset as int)
    }

    /// A parser at the start of `input`.
    pub fn new(input: &str) -> (r: Self)
        requires
            input@.len() < usize::MAX,
        ensures
            r.wf(),
            r.inp() == input@,
            r.off() == 0,
    {
        Parser { input: str_to_chars(input), pos: Position::new() }
    }

    /// Restarts the parser on new input.
    pub fn reset(&mut self, input: &str)
        requires
            input@.len() < usize::MAX,
        ensures
            final(self).wf(),
            final(self).inp() == input@,
            final(self).off() == 0,
    {
        self.input = str_to_chars(input);
        self.pos = Position::new();
    }

    /// The character at the current position, if any, without
    /// consuming it.
    pub fn peek(&self) -> (r: Option<char>)
        requires
            self.wf(),
        ensures
            r == if self.off() < self.inp().len() {
                Some(self.inp()[self.off()])
            } else {
                Option::<char>::None
            },
    {
        if self.pos.offset < self.input.len() {
            Some(self.input[self.pos.offset])
        } else {
            None
        }
    }

    /// The current position.
    pub fn position(&self) -> (r: Position)
        ensures
            r == self.spec_pos(),
    {
        self.pos
    }

    /// The input from the current position to the end.
    pub fn rest_input(&self) -> (r: String)
        requires
            self.wf(),
        ensures
            r@ == self.inp().skip(self.off()),
    {
        let mut v: Vec<char> = Vec::new();
        let mut i: usize = self.pos.offset;
        while i < self.input.len()
            invariant
                self.pos.offset <= i <= self.inp().len(),
            v@ == self.inp().subrange(self.off(), i as int),
            decreases self.inp().len() - i,
        {
            v.push(self.input[i]);
            proof {
                assert(self.inp().subrange(self.off(), i + 1) =~= self.inp().subrange(
                    self.off(), i as int).push(self.inp()[i as int]));
            }
            i = i + 1;
        }
        proof {
            assert(self.inp().subrange(self.off(), self.inp().len() as int) =~= self.inp().skip(
                self.off()));
        }
        chars_to_string(&v)
    }

    /// Consumes and returns the next character, advancing line and
    /// column bookkeeping; `None` at the end of input.
    pub fn next(&mut self) -> (r: Option<char>)
        requires
            old(self).wf(),
        ensures
            final(self).wf(),
            final(self).inp() == old(self).inp(),
            old(self).off() < old(self).inp().len() ==> {
                &&& r == Some(old(self).inp()[old(self).off()])
                &&& final(self).off() == old(self).off() + 1
            },
            old(self).off() >= old(self).inp().len() ==> {
                &&& r is None
                &&& *final(self) == *old(self)
            },
    {
        proof {
            lemma_line_col_bounds(self.inp(), self.off());
        }
        if self.pos.offset < self.input.len() {
            let c = self.input[self.pos.offset];
            self.pos.offset = self.pos.offset + 1;
            if c == '\n' {
                self.pos.line = self.pos.line + 1;
                self.pos.col = 1;
            } else {
                self.pos.col = self.pos.col + 1;
            }
            Some(c)
        } else {
            None
        }
    }

    /// Consumes one character and tests it against `predicate`: the
    /// character is returned when the predicate holds, and consumed
    /// regardless.  Fails without consuming at the end of input.
    pub fn satisfy<F: Fn(char) -> bool>(&mut self, predicate: F) -> (r: Result<char, Error>)
        requires
            old(self).wf(),
            forall|c: char| call_requires(predicate, (c,)),
        ensures
            final(self).wf(),
            final(self).inp() == old(self).inp(),
            old(self).off() < old(self).inp().len() ==> {
                let c = old(self).inp()[old(self).off()];
                &&& final(self).off() == old(self).off() + 1
                &&& match r {
                    Ok(cc) => cc == c && call_ensures(predicate, (c,), true),
                    Err(e) => call_ensures(predicate, (c,), false) && e.spec_pos() == old(
                        self,
                    ).spec_pos() && e.spec_inner() is None && e.spec_desc()
                        == "doesn't satisfy a predicate"@,
                }
            },
            old(self).off() >= old(self).inp().len() ==> {
                &&& *final(self) == *old(self)
                &&& r matches Err(e) && e.spec_pos() == old(self).spec_pos() && e.spec_inner()
                    is None && e.spec_desc() == "unexpected end of input"@
            },
    {
        let pos = self.position();
        if let Some(c) = self.next() {
            if predicate(c) {
                Ok(c)
            } else {
                Err(Error::new("doesn't satisfy a predicate", pos))
            }
        } else {
            Err(Error::new("unexpected end of input", pos))
        }
    }

    /// Consumes one character out of `set`; the read character is
    /// consumed even when it is not in the set.
    pub fn one_of(&mut self, set: &str) -> (r: Result<char, Error>)
        requires
            old(self).wf(),
        ensures
            final(self).wf(),
            final(self).inp() == old(self).inp(),
            old(self).off() < old(self).inp().len() ==> {
                let c = old(self).inp()[old(self).off()];
                &&& final(self).off() == old(self).off() + 1
                &&& match r {
                    Ok(cc) => cc == c && set@.contains(c),
                    Err(e) => !set@.contains(c) && e.spec_pos() == old(self).spec_pos()
                        && e.spec_desc() == "expected one of "@ + set@,
                }
            },
            old(self).off() >= old(self).inp().len() ==> {
                &&& *final(self) == *old(self)
                &&& r matches Err(e) && e.spec_pos() == old(self).spec_pos() && e.spec_desc()
                    == "expected one of "@ + set@
            },
    {
        let pos = self.position();
        let in_set = |x: char| -> (b: bool)
            ensures
                b == set@.contains(x),
            {
                contains_char(set, x)
            };
        let r = self.satisfy(in_set);
        match r {
            Ok(c) => Ok(c),
            Err(e) => {
                let mut desc = "expected one of ".to_owned();
                desc.append(set);
                Err(Error::new_wrap(desc.as_str(), pos, e))
            },
        }
    }

    /// Consumes one lowercase hexadecimal digit.
    pub fn hex_digit(&mut self) -> (r: Result<char, Error>)
        requires
            old(self).wf(),
        ensures
            final(self).wf(),
            final(self).inp() == old(self).inp(),
            old(self).off() < old(self).inp().len() ==> {
                let c = old(self).inp()[old(self).off()];
                &&& final(self).off() == old(self).off() + 1
                &&& match r {
                    Ok(cc) => cc == c && is_hex_char(c),
                    Err(e) => !is_hex_char(c) && e.spec_pos() == old(self).spec_pos()
                        && e.spec_desc() == "expected hex digit"@,
                }
            },
            old(self).off() >= old(self).inp().len() ==> {
                &&& *final(self) == *old(self)
                &&& r matches Err(e) && e.spec_pos() == old(self).spec_pos() && e.spec_desc()
                    == "expected hex digit"@
            },
    {
        proof {
            lemma_hex_set_chars();
        }
        let pos = self.position();
        match self.one_of("0123456789abcdef") {
            Ok(c) => Ok(c),
            Err(e) => Err(Error::new_wrap("expected hex digit", pos, e)),
        }
    }

    /// Consumes the given character.
    pub fn char(&mut self, c: char) -> (r: Result<char, Error>)
        requires
            old(self).wf(),
        ensures
            final(self).wf(),
            final(self).inp() == old(self).inp(),
            old(self).off() < old(self).inp().len() ==> {
                let h = old(self).inp()[old(self).off()];
                &&& final(self).off() == old(self).off() + 1
                &&& match r {
                    Ok(cc) => cc == c && h == c,
                    Err(e) => h != c && e.spec_pos() == old(self).spec_pos() && e.spec_desc()
                        == "expected character "@.push(c),
                }
            },
            old(self).off() >= old(self).inp().len() ==> {
                &&& *final(self) == *old(self)
                &&& r matches Err(e) && e.spec_pos() == old(self).spec_pos() && e.spec_desc()
                    == "expected character "@.push(c)
            },
    {
        let pos = self.position();
        let is_c = |o: char| -> (b: bool)
            ensures
                b == (o == c),
            {
                o == c
            };
        let r = self.satisfy(is_c);
        match r {
            Ok(cc) => Ok(cc),
            Err(e) => {
                let mut desc = "expected character ".to_owned();
                crate::util::push_char(&mut desc, c);
                Err(Error::new_wrap(desc.as_str(), pos, e))
            },
        }
    }

    /// Succeeds exactly at the end of input, consuming nothing.
    pub fn eof(&mut self) -> (r: Result<(), Error>)
        requires
            old(self).wf(),
        ensures
            final(self).wf(),
            *final(self) == *old(self),
            r is Ok <==> old(self).off() == old(self).inp().len(),
            r matches Err(e) ==> e.spec_pos() == old(self).spec_pos() && e.spec_desc()
                == "expected end of input"@,
    {
        if self.pos.offset >= self.input.len() {
            Ok(())
        } else {
            Err(Error::new("expected end of input", self.position()))
        }
    }

    /// Consumes a newline character.
    pub fn newline(&mut self) -> (r: Result<(), Error>)
        requires
            old(self).wf(),
        ensures
            final(self).wf(),
            final(self).inp() == old(self).inp(),
            old(self).off() < old(self).inp().len() ==> {
                let h = old(self).inp()[old(self).off()];
                &&& final(self).off() == old(self).off() + 1
                &&& (r is Ok <==> h == '\n')
                &&& (r matches Err(e) ==> e.spec_pos() == old(self).spec_pos())
            },
            old(self).off() >= old(self).inp().len() ==> {
                &&& *final(self) == *old(self)
                &&& r matches Err(e) && e.spec_pos() == old(self).spec_pos()
            },
    {
        match self.char('\n') {
            Ok(_) => Ok(()),
            Err(e) => Err(e),
        }
    }

    /// A line ending: the end of input (consuming nothing) or a
    /// newline (consumed).
    pub fn line_ending(&mut self) -> (r: Result<(), Error>)
        requires
            old(self).wf(),
        ensures
            final(self).wf(),
            final(self).inp() == old(self).inp(),
            old(self).off() == old(self).inp().len() ==> r is Ok && *final(self) == *old(self),
            old(self).off() < old(self).inp().len() ==> {
                let h = old(self).inp()[old(self).off()];
                &&& final(self).off() == old(self).off() + 1
                &&& (r is Ok <==> h == '\n')
                &&& (r matches Err(e) ==> e.spec_pos() == old(self).spec_pos())
            },
    {
        match self.eof() {
            Ok(_) => Ok(()),
            Err(_) => self.newline(),
        }
    }

    /// Consumes the run of characters out of `set` at the current
    /// position, possibly empty, and returns it.
    pub fn many0(&mut self, set: &str) -> (r: Vec<char>)
        requires
            old(self).wf(),
        ensures
            final(self).wf(),
            final(self).inp() == old(self).inp(),
            final(self).off() == run_end(old(self).inp(), old(self).off(), set@),
            r@ == old(self).inp().subrange(old(self).off(), final(self).off()),
    {
        let ghost inp = self.inp();
        let ghost off0 = self.off();
        proof {
            lemma_run_end(inp, off0, set@);
        }
        let mut buf: Vec<char> = Vec::new();
        proof {
            assert(buf@ =~= inp.subrange(off0, off0));
        }
        loop
            invariant
                self.wf(),
                self.inp() == inp,
                0 <= off0 <= self.off() <= inp.len(),
                run_end(inp, off0, set@) == run_end(inp, self.off(), set@),
                buf@ == inp.subrange(off0, self.off()),
            ensures
                self.wf(),
                self.inp() == inp,
                0 <= off0 <= self.off() <= inp.len(),
                self.off() == run_end(inp, off0, set@),
                buf@ == inp.subrange(off0, self.off()),
            decreases inp.len() - self.off(),
        {
            let pos = self.position();
            match self.one_of(set) {
                Ok(c) => {
                    buf.push(c);
                    proof {
                        assert(buf@ =~= inp.subrange(off0, self.off()));
                    }
                },
                Err(_) => {
                    self.pos = pos;
                    proof {
                        assert(run_end(inp, self.off(), set@) == self.off());
                    }
                    break ;
                },
            }
        }
        buf
    }

    /// Consumes the nonempty run of characters out of `set` at the
    /// current position.  Fails when the next character is not in the
    /// set, consuming it if there was one.
    pub fn many1(&mut self, set: &str) -> (r: Result<Vec<char>, Error>)
        requires
            old(self).wf(),
        ensures
            final(self).wf(),
            final(self).inp() == old(self).inp(),
            old(self).off() < old(self).inp().len() && set@.contains(
                old(self).inp()[old(self).off()],
            ) ==> {
                &&& final(self).off() == run_end(old(self).inp(), old(self).off(), set@)
                &&& final(self).off() > old(self).off()
                &&& r matches Ok(v) && v@ == old(self).inp().subrange(
                    old(self).off(),
                    final(self).off(),
                )
            },
            !(old(self).off() < old(self).inp().len() && set@.contains(
                old(self).inp()[old(self).off()],
            )) ==> {
                &&& r matches Err(e) && e.spec_pos() == old(self).spec_pos()
                &&& old(self).off() < old(self).inp().len() ==> final(self).off() == old(
                    self,
                ).off() + 1
                &&& old(self).off() >= old(self).inp().len() ==> *final(self) == *old(self)
            },
    {
        let ghost inp = self.inp();
        let ghost off0 = self.off();
        match self.one_of(set) {
            Err(e) => Err(e),
            Ok(first) => {
                proof {
                    assert(run_end(inp, off0, set@) == run_end(inp, off0 + 1, set@));
                    lemma_run_end(inp, off0 + 1, set@);
                }
                let rest = self.many0(set);
                let mut buf: Vec<char> = Vec::new();
                buf.push(first);
                let mut i: usize = 0;
                while i < rest.len()
                    invariant
                        i <= rest@.len(),
                        buf@ == seq![first].add(rest@.take(i as int)),
                    decreases rest@.len() - i,
                {
                    buf.push(rest[i]);
                    proof {
                        assert(rest@.take(i + 1) =~= rest@.take(i as int).push(rest@[i as int]));
                    }
                    i = i + 1;
                }
                proof {
                    assert(rest@.take(rest@.len() as int) =~= rest@);
                    assert(buf@ =~= inp.subrange(off0, run_end(inp, off0, set@)));
                }
                Ok(buf)
            },
        }
    }

    /// Tries one character set, falling back to a second on failure
    /// without consuming.
    pub fn either(&mut self, this: &str, that: &str) -> (r: Result<char, Error>)
        requires
            old(self).wf(),
        ensures
            final(self).wf(),
            final(self).inp() == old(self).inp(),
            old(self).off() < old(self).inp().len() ==> {
                let c = old(self).inp()[old(self).off()];
                &&& final(self).off() == old(self).off() + 1
                &&& match r {
                    Ok(cc) => cc == c && (this@.contains(c) || that@.contains(c)),
                    Err(e) => !this@.contains(c) && !that@.contains(c) && e.spec_pos() == old(
                        self,
                    ).spec_pos(),
                }
            },
            old(self).off() >= old(self).inp().len() ==> {
                &&& *final(self) == *old(self)
                &&& r matches Err(e) && e.spec_pos() == old(self).spec_pos()
            },
    {
        let pos = self.position();
        match self.one_of(this) {
            Ok(c) => Ok(c),
            Err(_) => {
                self.pos = pos;
                self.one_of(that)
            },
        }
    }

    /// Consumes the run of characters out of `set` at the current
    /// position, discarding it.
    pub fn ignore_many0(&mut self, set: &str)
        requires
            old(self).wf(),
        ensures
            final(self).wf(),
            final(self).inp() == old(self).inp(),
            final(self).off() == run_end(old(self).inp(), old(self).off(), set@),
    {
        let ghost inp = self.inp();
        let ghost off0 = self.off();
        loop
            invariant
                self.wf(),
                self.inp() == inp,
                0 <= off0 <= self.off() <= inp.len(),
                run_end(inp, off0, set@) == run_end(inp, self.off(), set@),
            ensures
                self.wf(),
                self.inp() == inp,
                self.off() == run_end(inp, off0, set@),
            decreases inp.len() - self.off(),
        {
            let pos = self.position();
            match self.one_of(set) {
                Ok(_) => {},
                Err(_) => {
                    self.pos = pos;
                    proof {
                        assert(run_end(inp, self.off(), set@) == self.off());
                    }
                    break ;
                },
            }
        }
    }

    /// Consumes a nonempty run of lowercase hex digits: an identifier
    /// fragment.
    pub fn hex_string(&mut self) -> (r: Result<String, Error>)
        requires
            old(self).wf(),
        ensures
            final(self).wf(),
            final(self).inp() == old(self).inp(),
            old(self).off() < old(self).inp().len() && is_hex_char(
                old(self).inp()[old(self).off()],
            ) ==> {
                &&& final(self).off() == hex_end(old(self).inp(), old(self).off())
                &&& r matches Ok(v) && v@ == old(self).inp().subrange(
                    old(self).off(),
                    final(self).off(),
                )
            },
            !(old(self).off() < old(self).inp().len() && is_hex_char(
                old(self).inp()[old(self).off()],
            )) ==> {
                &&& r matches Err(e) && e.spec_pos() == old(self).spec_pos()
                &&& old(self).off() < old(self).inp().len() ==> final(self).off() == old(
                    self,
                ).off() + 1
                &&& old(self).off() >= old(self).inp().len() ==> *final(self) == *old(self)
            },
    {
        let ghost inp = self.inp();
        let ghost off0 = self.off();
        proof {
            lemma_hex_set_chars();
            lemma_run_end_hex(inp, off0);
        }
        match self.hex_digit() {
            Err(e) => Err(e),
            Ok(first) => {
                proof {
                    assert(run_end(inp, off0, "0123456789abcdef"@) == run_end(
                        inp,
                        off0 + 1,
                        "0123456789abcdef"@,
                    ));
                    lemma_run_end(inp, off0 + 1, "0123456789abcdef"@);
                }
                let rest = self.many0("0123456789abcdef");
                let mut buf: Vec<char> = Vec::new();
                buf.push(first);
                let mut i: usize = 0;
                while i < rest.len()
                    invariant
                        i <= rest@.len(),
                        buf@ == seq![first].add(rest@.take(i as int)),
                    decreases rest@.len() - i,
                {
                    buf.push(rest[i]);
                    proof {
                        assert(rest@.take(i + 1) =~= rest@.take(i as int).push(rest@[i as int]));
                    }
                    i = i + 1;
                }
                proof {
                    assert(rest@.take(rest@.len() as int) =~= rest@);
                    assert(buf@ =~= inp.subrange(off0, hex_end(inp, off0)));
                }
                Ok(chars_to_string(&buf))
            },
        }
    }

    /// Consumes raw characters up to and including the next line
    /// ending, returning the characters before it.
    pub fn take_until_line_ending(&mut self) -> (r: String)
        requires
            old(self).wf(),
        ensures
            final(self).wf(),
            final(self).inp() == old(self).inp(),
            r@ == old(self).inp().subrange(
                old(self).off(),
                line_end(old(self).inp(), old(self).off()),
            ),
            final(self).off() == after_line(old(self).inp(), old(self).off()),
    {
        let ghost inp = self.inp();
        let ghost off0 = self.off();
        proof {
            lemma_line_end(inp, off0);
        }
        let mut buf: Vec<char> = Vec::new();
        proof {
            assert(buf@ =~= inp.subrange(off0, off0));
        }
        loop
            invariant_except_break
                line_end(inp, off0) == line_end(inp, self.off()),
                self.off() <= line_end(inp, off0),
                buf@ == inp.subrange(off0, self.off()),
            invariant
                self.wf(),
                self.inp() == inp,
                0 <= off0 <= self.off() <= inp.len(),
            ensures
                self.wf(),
                self.inp() == inp,
                buf@ == inp.subrange(off0, line_end(inp, off0)),
                self.off() == after_line(inp, off0),
            decreases inp.len() - self.off(),
        {
            if self.pos.offset >= self.input.len() {
                proof {
                    assert(line_end(inp, self.off()) == self.off());
                }
                break ;
            }
            let pos = self.position();
            match self.line_ending() {
                Ok(_) => {
                    proof {
                        assert(line_end(inp, pos.offset as int) == pos.offset as int);
                    }
                    break ;
                },
                Err(_) => {
                    self.pos = pos;
                },
            }
            let c = self.input[self.pos.offset];
            buf.push(c);
            self.next();
            proof {
                assert(line_end(inp, pos.offset as int) == line_end(inp, self.off()));
                lemma_line_end(inp, self.off());
                assert(buf@ =~= inp.subrange(off0, self.off()));
            }
        }
        chars_to_string(&buf)
    }

    /// Consumes a comment: `#` up to and including the line ending.
    pub fn comment(&mut self) -> (r: Result<(), Error>)
        requires
            old(self).wf(),
        ensures
            final(self).wf(),
            final(self).inp() == old(self).inp(),
            old(self).off() < old(self).inp().len() && old(self).inp()[old(self).off()] == '#'
                ==> {
                &&& r is Ok
                &&& final(self).off() == after_line(old(self).inp(), old(self).off() + 1)
            },
            !(old(self).off() < old(self).inp().len() && old(self).inp()[old(self).off()] == '#')
                ==> {
                &&& r matches Err(e) && e.spec_pos() == old(self).spec_pos()
                &&& old(self).off() < old(self).inp().len() ==> final(self).off() == old(
                    self,
                ).off() + 1
                &&& old(self).off() >= old(self).inp().len() ==> *final(self) == *old(self)
            },
    {
        match self.char('#') {
            Err(e) => Err(e),
            Ok(_) => {
                self.take_until_line_ending();
                Ok(())
            },
        }
    }

    /// Consumes a nonempty run of spaces, tabs and newlines.
    pub fn space(&mut self) -> (r: Result<(), Error>)
        requires
            old(self).wf(),
        ensures
            final(self).wf(),
            final(self).inp() == old(self).inp(),
            old(self).off() < old(self).inp().len() && is_space_char(
                old(self).inp()[old(self).off()],
            ) ==> {
                &&& r is Ok
                &&& final(self).off() == space_end(old(self).inp(), old(self).off())
                &&& final(self).off() > old(self).off()
            },
            !(old(self).off() < old(self).inp().len() && is_space_char(
                old(self).inp()[old(self).off()],
            )) ==> {
                &&& r matches Err(e) && e.spec_pos() == old(self).spec_pos()
                &&& old(self).off() < old(self).inp().len() ==> final(self).off() == old(
                    self,
                ).off() + 1
                &&& old(self).off() >= old(self).inp().len() ==> *final(self) == *old(self)
            },
    {
        proof {
            lemma_space_set_chars();
            lemma_run_end_space(self.inp(), self.off());
        }
        self.ignore_many1(" \t\n")
    }

    /// Consumes one whitespace unit: a comment, or a run of spaces,
    /// tabs and newlines.
    pub fn whitespace(&mut self) -> (r: Result<(), Error>)
        requires
            old(self).wf(),
        ensures
            final(self).wf(),
            final(self).inp() == old(self).inp(),
            old(self).off() < old(self).inp().len() && old(self).inp()[old(self).off()] == '#'
                ==> {
                &&& r is Ok
                &&& final(self).off() == after_line(old(self).inp(), old(self).off() + 1)
            },
            old(self).off() < old(self).inp().len() && old(self).inp()[old(self).off()] != '#'
                && is_space_char(old(self).inp()[old(self).off()]) ==> {
                &&& r is Ok
                &&& final(self).off() == space_end(old(self).inp(), old(self).off())
                &&& final(self).off() > old(self).off()
            },
            !(old(self).off() < old(self).inp().len() && (old(self).inp()[old(self).off()] == '#'
                || is_space_char(old(self).inp()[old(self).off()]))) ==> {
                &&& r is Err
                &&& old(self).off() < old(self).inp().len() ==> final(self).off() == old(
                    self,
                ).off() + 1
                &&& old(self).off() >= old(self).inp().len() ==> *final(self) == *old(self)
            },
    {
        let pos = self.position();
        match self.comment() {
            Ok(_) => Ok(()),
            Err(_) => {
                self.pos = pos;
                self.space()
            },
        }
    }

    /// Consumes one whitespace unit if one starts here, rewinding and
    /// returning `None` otherwise.
    pub fn try_whitespace(&mut self) -> (r: Option<()>)
        requires
            old(self).wf(),
        ensures
            final(self).wf(),
            final(self).inp() == old(self).inp(),
            old(self).off() < old(self).inp().len() && old(self).inp()[old(self).off()] == '#'
                ==> {
                &&& r is Some
                &&& final(self).off() == after_line(old(self).inp(), old(self).off() + 1)
            },
            old(self).off() < old(self).inp().len() && old(self).inp()[old(self).off()] != '#'
                && is_space_char(old(self).inp()[old(self).off()]) ==> {
                &&& r is Some
                &&& final(self).off() == space_end(old(self).inp(), old(self).off())
                &&& final(self).off() > old(self).off()
            },
            !(old(self).off() < old(self).inp().len() && (old(self).inp()[old(self).off()] == '#'
                || is_space_char(old(self).inp()[old(self).off()]))) ==> {
                &&& r is None
                &&& final(self).spec_pos() == old(self).spec_pos()
            },
    {
        let pos = self.position();
        match self.whitespace() {
            Ok(_) => Some(()),
            Err(_) => {
                self.pos = pos;
                None
            },
        }
    }

    /// Consumes all whitespace and comments at the current position.
    pub fn ignore_whitespace(&mut self)
        requires
            old(self).wf(),
        ensures
            final(self).wf(),
            final(self).inp() == old(self).inp(),
            final(self).off() == skip_ws(old(self).inp(), old(self).off()),
    {
        let ghost inp = self.inp();
        let ghost off0 = self.off();
        loop
            invariant
                self.wf(),
                self.inp() == inp,
                0 <= off0 <= self.off() <= inp.len(),
                skip_ws(inp, off0) == skip_ws(inp, self.off()),
            ensures
                self.wf(),
                self.inp() == inp,
                self.off() == skip_ws(inp, off0),
            decreases inp.len() - self.off(),
        {
            let ghost at = self.off();
            match self.try_whitespace() {
                Some(_) => {
                    proof {
                        if inp[at] == '#' {
                            lemma_line_end(inp, at + 1);
                        } else {
                            assert(space_end(inp, at) == space_end(inp, at + 1));
                            lemma_space_end(inp, at + 1);
                        }
                    }
                },
                None => {
                    proof {
                        assert(skip_ws(inp, self.off()) == self.off());
                    }
                    break ;
                },
            }
        }
    }

    /// Consumes the nonempty run of characters out of `set`,
    /// discarding it.  Fails like `many1`.
    pub fn ignore_many1(&mut self, set: &str) -> (r: Result<(), Error>)
        requires
            old(self).wf(),
        ensures
            final(self).wf(),
            final(self).inp() == old(self).inp(),
            old(self).off() < old(self).inp().len() && set@.contains(
                old(self).inp()[old(self).off()],
            ) ==> {
                &&& final(self).off() == run_end(old(self).inp(), old(self).off(), set@)
                &&& final(self).off() > old(self).off()
                &&& r is Ok
            },
            !(old(self).off() < old(self).inp().len() && set@.contains(
                old(self).inp()[old(self).off()],
            )) ==> {
                &&& r matches Err(e) && e.spec_pos() == old(self).spec_pos()
                &&& old(self).off() < old(self).inp().len() ==> final(self).off() == old(
                    self,
                ).off() + 1
                &&& old(self).off() >= old(self).inp().len() ==> *final(self) == *old(self)
            },
    {
        let ghost inp = self.inp();
        let ghost off0 = self.off();
        match self.one_of(set) {
            Err(e) => Err(e),
            Ok(_) => {
                proof {
                    assert(run_end(inp, off0, set@) == run_end(inp, off0 + 1, set@));
                    lemma_run_end(inp, off0 + 1, set@);
                }
                self.ignore_many0(set);
                Ok(())
            },
        }
    }
    /// Parses one transform: optional whitespace and comments, an
    /// identifier fragment, and an optional pattern up to the line
    /// ending.
    pub fn transform(&mut self) -> (r: Result<Transform, Error>)
        requires
            old(self).wf(),
        ensures
            final(self).wf(),
            final(self).inp() == old(self).inp(),
            final(self).off() >= old(self).off(),
            match r {
                Ok(t) => spec_transform(old(self).inp(), old(self).off()) matches Some(p) && p.0
                    == final(self).off() && p.1 == t@,
                Err(_) => spec_transform(old(self).inp(), old(self).off()) is None,
            },
    {
        let ghost inp = self.inp();
        let ghost i0 = self.off();
        self.ignore_whitespace();
        let ghost j = self.off();
        proof {
            lemma_skip_ws(inp, i0);
            lemma_hex_end(inp, j);
        }
        let hash_fragment = match self.hex_string() {
            Ok(h) => h,
            Err(e) => {
                proof {
                    assert(hex_end(inp, j) == j);
                }
                return Err(e);
            },
        };
        let ghost k = self.off();
        proof {
            lemma_blank_set_chars();
            lemma_run_end_blank(inp, k);
            lemma_blank_end(inp, k);
        }
        let pos = self.position();
        let has_blank = match self.ignore_many1(" \t") {
            Ok(_) => true,
            Err(_) => {
                self.pos = pos;
                false
            },
        };
        if !has_blank {
            proof {
                assert(blank_end(inp, k) == k);
            }
            let pos2 = self.position();
            match self.line_ending() {
                Ok(_) => Ok(Transform::remove(hash_fragment)),
                Err(e) => Err(Error::new_wrap("expected pattern", pos2, e)),
            }
        } else {
            let ghost b = self.off();
            proof {
                lemma_line_end(inp, b);
            }
            let pattern = self.take_until_line_ending();
            let trimmed = crate::util::trim(pattern.as_str());
            if trimmed.unicode_len() == 0 {
                Ok(Transform::remove(hash_fragment))
            } else {
                Ok(Transform::rename(hash_fragment, trimmed))
            }
        }
    }

    /// Parses a whole listing into its operations.  All-or-nothing:
    /// any trailing content that is not whitespace or a comment fails
    /// the entire parse, with the error positioned at it.
    pub fn parse(&mut self) -> (r: Result<Vec<Transform>, Error>)
        requires
            old(self).wf(),
        ensures
            final(self).wf(),
            final(self).inp() == old(self).inp(),
            ({
                let inp = old(self).inp();
                let i0 = old(self).off();
                let (i, tvs) = spec_transforms(inp, i0);
                match r {
                    Ok(ts) => {
                        &&& ts@.map_values(|t: Transform| t@) == tvs
                        &&& skip_ws(inp, i) == inp.len()
                        &&& final(self).off() == inp.len()
                    },
                    Err(e) => {
                        &&& skip_ws(inp, i) < inp.len()
                        &&& final(self).off() == skip_ws(inp, i)
                        &&& e.spec_pos().offset == skip_ws(inp, i)
                        &&& e.spec_desc() == "expected hash string"@
                    },
                }
            }),
            old(self).off() == 0 ==> match r {
                Ok(ts) => spec_parse(old(self).inp()) == Ok::<_, int>(
                    ts@.map_values(|t: Transform| t@),
                ),
                Err(e) => spec_parse(old(self).inp()) == Err::<Seq<TransformView>, int>(
                    e.spec_pos().offset as int,
                ),
            },
    {
        let ghost inp = self.inp();
        let ghost i0 = self.off();
        let mut transforms: Vec<Transform> = Vec::new();
        proof {
            assert(spec_transforms(inp, i0).1 =~= transforms@.map_values(|t: Transform| t@)
                + spec_transforms(inp, i0).1);
        }
        loop
            invariant
                self.wf(),
                self.inp() == inp,
                0 <= i0 <= self.off() <= inp.len(),
                spec_transforms(inp, i0).0 == spec_transforms(inp, self.off()).0,
                spec_transforms(inp, i0).1 == transforms@.map_values(|t: Transform| t@)
                    + spec_transforms(inp, self.off()).1,
            ensures
                self.wf(),
                self.inp() == inp,
                self.off() == spec_transforms(inp, i0).0,
                transforms@.map_values(|t: Transform| t@) == spec_transforms(inp, i0).1,
            decreases inp.len() - self.off(),
        {
            let pos = self.position();
            let ghost at = self.off();
            let ghost seen = transforms@.map_values(|t: Transform| t@);
            match self.transform() {
                Ok(t) => {
                    proof {
                        lemma_spec_transform_progress(inp, at);
                        lemma_spec_transforms(inp, at);
                    }
                    transforms.push(t);
                    proof {
                        let f = |t: Transform| t@;
                        assert(transforms@.map_values(f) =~= seen + seq![t@]);
                        let (e2, rest) = spec_transforms(inp, self.off());
                        assert(spec_transforms(inp, at).1 == seq![t@] + rest);
                        assert(seen + (seq![t@] + rest) =~= (seen + seq![t@]) + rest);
                    }
                },
                Err(_) => {
                    self.pos = pos;
                    proof {
                        let f = |t: Transform| t@;
                        assert(spec_transforms(inp, self.off()).1 =~= Seq::<
                            TransformView,
                        >::empty());
                        assert(transforms@.map_values(f) + Seq::<TransformView>::empty()
                            =~= transforms@.map_values(f));
                    }
                    break ;
                },
            }
        }
        proof {
            lemma_spec_transforms(inp, i0);
        }
        self.ignore_whitespace();
        let pos = self.position();
        match self.eof() {
            Ok(_) => Ok(transforms),
            Err(e) => Err(Error::new_wrap("expected hash string", pos, e)),
        }
    }
}

/// The characters of the hex-digit set, in order: membership in it is
/// exactly `is_hex_char`.
proof fn lemma_hex_set_chars()
    ensures
        forall|c: char| "0123456789abcdef"@.contains(c) <==> is_hex_char(c),
{
    reveal_strlit("0123456789abcdef");
    let s = "0123456789abcdef"@;
    assert(s[0] == '0' && s[1] == '1' && s[2] == '2' && s[3] == '3' && s[4] == '4' && s[5] == '5'
        && s[6] == '6' && s[7] == '7' && s[8] == '8' && s[9] == '9' && s[10] == 'a' && s[11] == 'b'
        && s[12] == 'c' && s[13] == 'd' && s[14] == 'e' && s[15] == 'f');
    assert forall|c: char| "0123456789abcdef"@.contains(c) <==> is_hex_char(c) by {
        if is_hex_char(c) {
            if '0' <= c && c <= '9' {
                let i = c as int - '0' as int;
                assert(s[i] == c);
            } else {
                let i = 10 + c as int - 'a' as int;
                assert(s[i] == c);
            }
            assert(s.contains(c));
        }
        if s.contains(c) {
            let i = choose|i: int| 0 <= i < s.len() && s[i] == c;
            assert(is_hex_char(s[i]));
        }
    }
}

/// Tests whether `c` occurs in `set`.
fn contains_char(set: &str, c: char) -> (r: bool)
    ensures
        r == set@.contains(c),
{
    let n = set.unicode_len();
    let mut i: usize = 0;
    while i < n
        invariant
            n == set@.len(),
            i <= n,
            forall|j: int| 0 <= j < i ==> set@[j] != c,
        decreases n - i,
    {
        if set.get_char(i) == c {
            proof {
                assert(set@.contains(c));
            }
            return true;
        }
        i = i + 1;
    }
    proof {
        assert(!set@.contains(c));
    }
    false
}

} // verus!

//! A small interpreter front end for a parenthesized expression language.
//!
//! The parser tokenizes a character stream into a flat tree of
//! expressions addressed by `(depth, index)` coordinates, and the
//! reducer evaluates that tree bottom-up through a table of built-in
//! operations.

pub mod logic;
pub mod text;
pub mod tree;

use vstd::prelude::*;

use crate::logic::{exec_view, BuiltinFuncs, EvalError};
use crate::text::{chars_vec, string_of};
use crate::tree::{
    empty_expr_view, token_of, ExprView, OutOfRange, Symbols, Token, TokenExpression, TokenView,
    Tree,
};

verus! {

/// A parse failure, reported at the character position where the text
/// stopped making sense; an unbalanced input is reported at the
/// position one past its end.
#[derive(Debug, PartialEq, Eq, Structural, Clone, Copy)]
pub struct SyntaxError {
    /// Character offset of the offending position.
    pub at: usize,
}

/// The sum of all per-depth expression counts.
pub open spec fn sum_counts(counts: Seq<int>) -> int
    decreases counts.len(),
{
    if counts.len() == 0 {
        0
    } else {
        sum_counts(counts.drop_last()) + counts.last()
    }
}

/// The count table's entry for a depth, zero where the depth has not
/// been reached.
pub open spec fn counts_at(counts: Seq<int>, d: int) -> int {
    if 0 <= d < counts.len() {
        counts[d]
    } else {
        0
    }
}

/// Translation of a `(depth, index)` coordinate to a flat offset: the
/// number of expressions at all shallower depths, plus the index within
/// the target depth.
pub open spec fn flat_index_of(counts: Seq<int>, depth: int, index: int) -> int {
    sum_counts(counts.take(depth)) + index
}

/// Spec-level image of the per-depth count table.
pub open spec fn counts_view(v: Seq<usize>) -> Seq<int> {
    v.map(|i: int, x: usize| x as int)
}

/// Mathematical state of a parser.
#[verifier::ext_equal]
pub ghost struct ParserView {
    /// Views of the stored expressions, in flat order.
    pub tree: Seq<ExprView>,
    /// How many expressions exist at each depth.
    pub counts: Seq<int>,
    /// The depth the scanner currently stands at.
    pub depth: int,
    /// The text given to the latest parse.
    pub contents: Seq<char>,
}

/// Single-pass tokenizer and structural scanner: consumes characters,
/// maintains a per-depth expression counter, and builds expressions
/// into a flat tree, translating nested parentheses into
/// `(depth, index)` coordinates without recursion.
pub struct Parser {
    tree: Tree,
    contents: String,
    current_depth: usize,
    n_expressions_in_depth: Vec<usize>,
}

impl View for Parser {
    type V = ParserView;

    open(crate) spec fn view(&self) -> ParserView {
        ParserView {
            tree: self.tree@,
            counts: counts_view(self.n_expressions_in_depth@),
            depth: self.current_depth as int,
            contents: self.contents@,
        }
    }
}

/// Every stored coordinate agrees with the count table: the counts add
/// up to the number of stored expressions, every depth that exists
/// holds at least one expression, and the translation of coordinates
/// to flat offsets is a one-to-one match with the storage.
pub open spec fn coords_wf(exprs: Seq<ExprView>, counts: Seq<int>) -> bool {
    &&& sum_counts(counts) == exprs.len()
    &&& forall|d: int| 0 <= d < counts.len() ==> 1 <= #[trigger] counts[d]
    &&& forall|d: int, i: int|
        #![trigger flat_index_of(counts, d, i)]
        0 <= d < counts.len() && 0 <= i < counts[d] ==> (0 <= flat_index_of(counts, d, i)
            < exprs.len() && exprs[flat_index_of(counts, d, i)].depth == d && exprs[flat_index_of(
            counts,
            d,
            i,
        )].index == i)
    &&& forall|fi: int|
        0 <= fi < exprs.len() ==> (0 <= (#[trigger] exprs[fi]).depth < counts.len()
            && 0 <= exprs[fi].index < counts[exprs[fi].depth]
            && flat_index_of(counts, exprs[fi].depth, exprs[fi].index) == fi)
}

/// Every expression reference stored in an argument list points one
/// level deeper than its owner, at an expression that exists.
pub open spec fn args_wf(exprs: Seq<ExprView>, counts: Seq<int>) -> bool {
    forall|fi: int, j: int|
        0 <= fi < exprs.len() && 0 <= j < exprs[fi].args.len() ==> ((#[trigger] exprs[fi].args[j])
            matches TokenView::ExpressionRef(cd, ci) ==> cd == exprs[fi].depth + 1 && 0 <= ci
            < counts_at(counts, cd))
}

impl Parser {
    /// The tree and the count table describe each other, and every
    /// stored expression reference is a valid forward link.
    pub open spec fn well_formed(&self) -> bool {
        &&& coords_wf(self@.tree, self@.counts)
        &&& args_wf(self@.tree, self@.counts)
    }

    /// Creates a new parser instance with an empty tree.
    pub fn new() -> (r: Self)
        ensures
            r@.tree == Seq::<ExprView>::empty(),
            r@.counts == Seq::<int>::empty(),
            r@.depth == 0,
            r@.contents == Seq::<char>::empty(),
            r.well_formed(),
    {
        let r = Parser {
            tree: Tree::new(),
            contents: String::new(),
            current_depth: 0,
            n_expressions_in_depth: Vec::new(),
        };
        proof {
            assert(counts_view(r.n_expressions_in_depth@) =~= Seq::<int>::empty());
        }
        r
    }
}

/// The flat offset of the expression most recently created at the
/// current depth: the one the scanner is building.
pub open spec fn cur_fi(v: ParserView) -> int {
    flat_index_of(v.counts, v.depth, counts_at(v.counts, v.depth) - 1)
}

impl Parser {
    /// Calculates the flat access offset for the element at
    /// `(current depth, index)`; expressions sit in a single flat
    /// vector rather than one vector per depth, so the counts of all
    /// shallower depths are summed first.
    fn calculate_index(&self, index: usize) -> (r: usize)
        requires
            self@.depth <= self@.counts.len(),
            flat_index_of(self@.counts, self@.depth, index as int) <= usize::MAX,
        ensures
            r as int == flat_index_of(self@.counts, self@.depth, index as int),
    {
        flat_of(&self.n_expressions_in_depth, self.current_depth, index)
    }

    /// The expression the scanner is currently building: the latest one
    /// created at the current depth.
    fn get_last(&self) -> (r: &TokenExpression)
        requires
            coords_wf(self@.tree, self@.counts),
            0 <= self@.depth < self@.counts.len(),
        ensures
            r@ == self@.tree[cur_fi(self@)],
    {
        let cnt = self.n_expressions_in_depth[self.current_depth];
        let total = self.tree.expressions.len();
        proof {
            assert(self@.counts[self@.depth] == cnt as int);
            assert(1 <= cnt as int);
            assert(0 <= flat_index_of(self@.counts, self@.depth, cnt as int - 1)
                < self@.tree.len());
            assert(self@.tree.len() == total as int);
        }
        let fi = self.calculate_index(cnt - 1);
        &self.tree.expressions[fi]
    }

    /// Mutable access to the expression the scanner is currently
    /// building.
    fn get_last_mut(&mut self) -> (r: &mut TokenExpression)
        requires
            coords_wf(old(self)@.tree, old(self)@.counts),
            0 <= old(self)@.depth < old(self)@.counts.len(),
        ensures
            r@ == old(self)@.tree[cur_fi(old(self)@)],
            final(self)@.tree == old(self)@.tree.update(cur_fi(old(self)@), final(r)@),
            final(self)@.counts == old(self)@.counts,
            final(self)@.depth == old(self)@.depth,
            final(self)@.contents == old(self)@.contents,
    {
        let cnt = self.n_expressions_in_depth[self.current_depth];
        let total = self.tree.expressions.len();
        proof {
            assert(self@.counts[self@.depth] == cnt as int);
            assert(1 <= cnt as int);
            assert(0 <= flat_index_of(self@.counts, self@.depth, cnt as int - 1)
                < self@.tree.len());
            assert(self@.tree.len() == total as int);
        }
        let fi = self.calculate_index(cnt - 1);
        let r = self.tree.peek_mut(fi);
        r
    }

    /// Bounds-checked lookup of an expression by its
    /// `(depth, index)` coordinate.
    pub fn get_from_depth_and_idx(&self, depth: usize, idx: usize) -> (r: Result<
        &TokenExpression,
        OutOfRange,
    >)
        requires
            self.well_formed(),
        ensures
            ((depth as int) < self@.counts.len() && (idx as int) < counts_at(
                self@.counts,
                depth as int,
            )) ==> (r matches Ok(e) && e@ == self@.tree[flat_index_of(
                self@.counts,
                depth as int,
                idx as int,
            )]),
            !((depth as int) < self@.counts.len() && (idx as int) < counts_at(
                self@.counts,
                depth as int,
            )) ==> r is Err,
    {
        if depth < self.n_expressions_in_depth.len() && idx < self.n_expressions_in_depth[depth] {
            let total = self.tree.expressions.len();
            proof {
                assert(self@.counts[depth as int] == self.n_expressions_in_depth@[depth as int] as int);
                assert(0 <= flat_index_of(self@.counts, depth as int, idx as int)
                    < self@.tree.len());
                assert(self@.tree.len() == total as int);
            }
            let fi = flat_of(&self.n_expressions_in_depth, depth, idx);
            Ok(&self.tree.expressions[fi])
        } else {
            Err(OutOfRange)
        }
    }
}

/// Partial sums of a nonnegative table never exceed the whole.
proof fn lemma_sum_take_le(counts: Seq<int>, k: int)
    requires
        forall|d: int| 0 <= d < counts.len() ==> 0 <= #[trigger] counts[d],
        0 <= k <= counts.len(),
    ensures
        0 <= sum_counts(counts.take(k)),
        sum_counts(counts.take(k)) <= sum_counts(counts),
    decreases counts.len(),
{
    if counts.len() == 0 {
        assert(counts.take(k) =~= counts);
    } else if k == counts.len() {
        assert(counts.take(k) =~= counts);
        lemma_sum_take_le(counts.drop_last(), counts.len() - 1);
        assert(counts.drop_last().take(counts.len() - 1) =~= counts.drop_last());
    } else {
        assert(counts.take(k) =~= counts.drop_last().take(k));
        lemma_sum_take_le(counts.drop_last(), k);
    }
}

/// A partial sum plus the next entry is again a partial sum.
proof fn lemma_sum_take_step(counts: Seq<int>, k: int)
    requires
        0 <= k < counts.len(),
    ensures
        sum_counts(counts.take(k + 1)) == sum_counts(counts.take(k)) + counts[k],
{
    assert(counts.take(k + 1).drop_last() =~= counts.take(k));
    assert(counts.take(k + 1).last() == counts[k]);
}

/// Translates `(depth, index)` to a flat offset by summing the counts
/// of the shallower depths.
fn flat_of(counts: &Vec<usize>, depth: usize, index: usize) -> (r: usize)
    requires
        depth <= counts@.len(),
        flat_index_of(counts_view(counts@), depth as int, index as int) <= usize::MAX,
    ensures
        r as int == flat_index_of(counts_view(counts@), depth as int, index as int),
{
    let ghost cv = counts_view(counts@);
    let mut idx_sum: usize = 0;
    let mut d: usize = 0;
    proof {
        assert(cv.take(0) =~= Seq::<int>::empty());
        lemma_sum_take_le(cv, depth as int);
    }
    while d < depth
        invariant
            d <= depth <= cv.len(),
            cv == counts_view(counts@),
            idx_sum as int == sum_counts(cv.take(d as int)),
            flat_index_of(cv, depth as int, index as int) <= usize::MAX,
            0 <= sum_counts(cv.take(depth as int)),
            sum_counts(cv.take(depth as int)) + index <= usize::MAX,
        decreases depth - d,
    {
        proof {
            lemma_sum_take_step(cv, d as int);
            lemma_sum_take_le(cv.take(depth as int), d + 1);
            assert(cv.take(depth as int).take(d + 1) =~= cv.take(d + 1));
        }
        idx_sum = idx_sum + counts[d];
        d = d + 1;
    }
    idx_sum + index
}

/// Mathematical state of the scanner between two characters.
#[verifier::ext_equal]
pub ghost struct ParseState {
    /// Views of the expressions created so far, grouped by depth.
    pub exprs: Seq<ExprView>,
    /// How many expressions exist at each depth.
    pub counts: Seq<int>,
    /// The depth the scanner currently stands at.
    pub depth: int,
    /// The characters of the atom currently being accumulated.
    pub buf: Seq<char>,
}

/// The scanner's state before the first character: one empty root
/// expression, not yet opened.
pub open spec fn init_state() -> ParseState {
    ParseState { exprs: seq![empty_expr_view()], counts: seq![1int], depth: 0, buf: Seq::empty() }
}

/// The flat offset of the expression the scanner is building: the
/// latest one created at the current depth.
pub open spec fn state_fi(st: ParseState) -> int {
    flat_index_of(st.counts, st.depth, counts_at(st.counts, st.depth) - 1)
}

/// One step of the scanner on an opening parenthesis.  The first `(`
/// opens the outermost wrapper itself; any later one begins a child
/// expression one level deeper, leaves a forward reference in the
/// parent's argument list, and descends.  An opening parenthesis glued
/// to a pending atom, or following the closed outermost form, is
/// malformed.
pub open spec fn step_open(st: ParseState, pos: int) -> Result<ParseState, int> {
    let fi = state_fi(st);
    let cur = st.exprs[fi];
    if cur.open is None {
        Ok(
            ParseState {
                exprs: st.exprs.update(fi, ExprView { open: Some(pos), ..cur }),
                ..st
            },
        )
    } else if st.buf.len() > 0 {
        Err(pos)
    } else if cur.close is Some {
        Err(pos)
    } else {
        let cd = st.depth + 1;
        let ordinal = counts_at(st.counts, cd);
        let parent2 = ExprView {
            args: cur.args.push(TokenView::ExpressionRef(cd, ordinal)),
            ..cur
        };
        let exprs1 = st.exprs.update(fi, parent2);
        let counts2 = if cd < st.counts.len() {
            st.counts.update(cd, st.counts[cd] + 1)
        } else {
            st.counts.push(1)
        };
        let child = ExprView {
            keyword: None,
            depth: cd,
            args: Seq::empty(),
            open: Some(pos),
            close: None,
            index: ordinal,
        };
        let at = flat_index_of(st.counts, cd, ordinal);
        Ok(ParseState { exprs: exprs1.insert(at, child), counts: counts2, depth: cd, buf: st.buf })
    }
}

/// One step of the scanner on a closing parenthesis: a pending atom is
/// flushed into the current expression's arguments, the expression is
/// closed, and the scanner returns to the parent.  A closing
/// parenthesis with no expression open is malformed.
pub open spec fn step_close(st: ParseState, pos: int) -> Result<ParseState, int> {
    let fi = state_fi(st);
    let cur = st.exprs[fi];
    if cur.open is Some && cur.close is None {
        let cur1 = if st.buf.len() > 0 {
            ExprView { args: cur.args.push(token_of(st.buf)), ..cur }
        } else {
            cur
        };
        let cur2 = ExprView { close: Some(pos), ..cur1 };
        Ok(
            ParseState {
                exprs: st.exprs.update(fi, cur2),
                counts: st.counts,
                depth: if st.depth > 0 {
                    st.depth - 1
                } else {
                    0
                },
                buf: Seq::empty(),
            },
        )
    } else {
        Err(pos)
    }
}

/// One step of the scanner on a space: a pending atom is flushed, as
/// the current expression's keyword if it has none yet, and as an
/// argument otherwise.
pub open spec fn step_space(st: ParseState) -> ParseState {
    if st.buf.len() == 0 {
        st
    } else {
        let fi = state_fi(st);
        let cur = st.exprs[fi];
        let cur1 = if cur.keyword is None {
            ExprView { keyword: Some(token_of(st.buf)), ..cur }
        } else {
            ExprView { args: cur.args.push(token_of(st.buf)), ..cur }
        };
        ParseState { exprs: st.exprs.update(fi, cur1), buf: Seq::empty(), ..st }
    }
}

/// One step of the scanner on any other character: it joins the atom
/// being accumulated.  Text outside every parenthesized form is
/// malformed.
pub open spec fn step_char(st: ParseState, c: char, pos: int) -> Result<ParseState, int> {
    let fi = state_fi(st);
    let cur = st.exprs[fi];
    if cur.open is Some && cur.close is None {
        Ok(ParseState { buf: st.buf.push(c), ..st })
    } else {
        Err(pos)
    }
}

/// One step of the scanner on the character at `pos`.
pub open spec fn parse_step(st: ParseState, c: char, pos: int) -> Result<ParseState, int> {
    if c == '(' {
        step_open(st, pos)
    } else if c == ')' {
        step_close(st, pos)
    } else if c == ' ' {
        Ok(step_space(st))
    } else {
        step_char(st, c, pos)
    }
}

/// The scanner's state after the first `n` characters of `s`, or the
/// position where the text stopped making sense.
pub open spec fn parse_run(s: Seq<char>, n: int) -> Result<ParseState, int>
    decreases n,
{
    if n <= 0 {
        Ok(init_state())
    } else {
        match parse_run(s, n - 1) {
            Ok(st) => parse_step(st, s[n - 1], n - 1),
            Err(p) => Err(p),
        }
    }
}

/// Whether the expression at flat offset `fi` belongs to the chain of
/// expressions still being built: one per depth up to the current one,
/// each the latest of its depth.
pub open spec fn on_chain(st: ParseState, fi: int) -> bool {
    st.exprs[fi].depth <= st.depth && st.exprs[fi].index == counts_at(
        st.counts,
        st.exprs[fi].depth,
    ) - 1
}

/// Everything the scanner keeps true between two characters.  The tree
/// and the count table describe each other, references are valid
/// forward links, and the delimiters follow the scan: before the
/// outermost wrapper opens there is only the untouched root; while it
/// is open, exactly the chain of expressions being built is unclosed;
/// after it closes, everything is closed and the scanner stands at the
/// root.
pub open spec fn state_inv(st: ParseState) -> bool {
    &&& coords_wf(st.exprs, st.counts)
    &&& args_wf(st.exprs, st.counts)
    &&& 1 <= st.counts.len()
    &&& st.counts[0] == 1
    &&& 0 <= st.depth < st.counts.len()
    &&& if st.exprs[0].open is None {
        {
            &&& st.exprs.len() == 1
            &&& st.depth == 0
            &&& st.buf.len() == 0
            &&& st.exprs[0].close is None
            &&& st.exprs[0].keyword is None
            &&& st.exprs[0].args.len() == 0
        }
    } else if st.exprs[0].close is None {
        {
            &&& forall|fi: int|
                0 <= fi < st.exprs.len() ==> (#[trigger] st.exprs[fi]).open is Some
            &&& forall|fi: int|
                0 <= fi < st.exprs.len() ==> ((#[trigger] st.exprs[fi]).close is None <==> on_chain(
                    st,
                    fi,
                ))
        }
    } else {
        {
            &&& st.depth == 0
            &&& st.buf.len() == 0
            &&& forall|fi: int|
                0 <= fi < st.exprs.len() ==> (#[trigger] st.exprs[fi]).open is Some
            &&& all_closed(st.exprs)
        }
    }
}

/// Growing the prefix grows a partial sum of a nonnegative table.
proof fn lemma_sum_take_mono(counts: Seq<int>, k1: int, k2: int)
    requires
        forall|d: int| 0 <= d < counts.len() ==> 0 <= #[trigger] counts[d],
        0 <= k1 <= k2 <= counts.len(),
    ensures
        sum_counts(counts.take(k1)) <= sum_counts(counts.take(k2)),
    decreases k2 - k1,
{
    if k1 < k2 {
        lemma_sum_take_mono(counts, k1, k2 - 1);
        lemma_sum_take_step(counts, k2 - 1);
    }
}

/// How an update below the prefix end shifts a partial sum.
proof fn lemma_sum_take_update(counts: Seq<int>, cd: int, v: int, d: int)
    requires
        0 <= cd < d <= counts.len(),
    ensures
        sum_counts(counts.update(cd, v).take(d)) == sum_counts(counts.take(d)) + v - counts[cd],
    decreases d,
{
    let counts2 = counts.update(cd, v);
    if d == cd + 1 {
        lemma_sum_take_step(counts, cd);
        lemma_sum_take_step(counts2, cd);
        assert(counts2.take(cd) =~= counts.take(cd));
    } else {
        lemma_sum_take_update(counts, cd, v, d - 1);
        lemma_sum_take_step(counts, d - 1);
        lemma_sum_take_step(counts2, d - 1);
    }
}

/// The invariant survives each step of the scanner.
proof fn lemma_step_inv(st: ParseState, c: char, pos: int, st2: ParseState)
    requires
        state_inv(st),
        parse_step(st, c, pos) == Ok::<ParseState, int>(st2),
    ensures
        state_inv(st2),
{
    let counts = st.counts;
    let exprs = st.exprs;
    let fi = state_fi(st);
    assert(0 <= counts_at(counts, st.depth) - 1 < counts[st.depth]);
    assert(0 <= fi < exprs.len() && exprs[fi].depth == st.depth && exprs[fi].index == counts_at(
        counts,
        st.depth,
    ) - 1);
    let cur = exprs[fi];
    if c == '(' {
        if cur.open is None {
            // the root's own opening parenthesis: only its delimiter changes
            assert(fi == 0) by {
                assert(counts.take(0) =~= Seq::<int>::empty());
            }
            assert(state_inv(st2));
        } else {
            lemma_step_inv_child(st, pos, st2);
        }
    } else if c == ')' {
        lemma_step_inv_close(st, pos, st2);
    } else if c == ' ' {
        lemma_step_inv_space(st, st2);
    } else {
        assert(st2 == ParseState { buf: st.buf.push(c), ..st });
        assert(state_inv(st2));
    }
}

/// The invariant survives the creation of a child expression.
#[verifier::rlimit(60)]
proof fn lemma_step_inv_child(st: ParseState, pos: int, st2: ParseState)
    requires
        state_inv(st),
        st.exprs[state_fi(st)].open is Some,
        step_open(st, pos) == Ok::<ParseState, int>(st2),
    ensures
        state_inv(st2),
{
    let counts = st.counts;
    let exprs = st.exprs;
    let fi = state_fi(st);
    assert(0 <= counts_at(counts, st.depth) - 1 < counts[st.depth]);
    assert(0 <= fi < exprs.len() && exprs[fi].depth == st.depth && exprs[fi].index == counts_at(
        counts,
        st.depth,
    ) - 1);
    let cur = exprs[fi];
    assert(cur.close is None);
    // the root is open and unclosed, so the scan is inside the wrapper
    assert(exprs[0].open is Some && exprs[0].close is None) by {
        assert(flat_index_of(counts, 0, 0) == 0) by {
            assert(counts.take(0) =~= Seq::<int>::empty());
        }
        if exprs[0].close is Some {
            assert(all_closed(exprs));
        }
    }
    let cd = st.depth + 1;
    let ordinal = counts_at(counts, cd);
    let parent2 = ExprView { args: cur.args.push(TokenView::ExpressionRef(cd, ordinal)), ..cur };
    let exprs1 = exprs.update(fi, parent2);
    let counts2 = st2.counts;
    let at = flat_index_of(counts, cd, ordinal);
    let child = ExprView {
        keyword: None,
        depth: cd,
        args: Seq::empty(),
        open: Some(pos),
        close: None,
        index: ordinal,
    };
    assert(st2.exprs == exprs1.insert(at, child) && st2.depth == cd && st2.buf == st.buf);
    // partial sums below the child's depth are untouched
    assert(forall|d: int|
        0 <= d <= cd && d <= counts.len() ==> counts2.take(d) =~= counts.take(d));
    // partial sums past it grow by one
    assert(forall|d: int|
        cd < d <= counts.len() ==> sum_counts(counts2.take(d)) == sum_counts(#[trigger] counts.take(
            d,
        )) + 1) by {
        assert forall|d: int| cd < d <= counts.len() implies sum_counts(counts2.take(d))
            == sum_counts(counts.take(d)) + 1 by {
            lemma_sum_take_update(counts, cd, counts[cd] + 1, d);
        }
    }
    if cd == counts.len() {
        assert(counts2 == counts.push(1));
        assert(counts2.take(cd + 1) =~= counts2);
        assert(counts2.take(cd) =~= counts);
        lemma_sum_take_step(counts2, cd);
        assert(sum_counts(counts2) == sum_counts(counts) + 1);
    } else {
        assert(counts2 == counts.update(cd, counts[cd] + 1));
        assert(counts2.take(counts.len() as int) =~= counts2);
        assert(counts.take(counts.len() as int) =~= counts);
        lemma_sum_take_update(counts, cd, counts[cd] + 1, counts.len() as int);
        assert(sum_counts(counts2) == sum_counts(counts) + 1);
    }
    // the insertion point sits at the end of the child's depth group
    assert(at == sum_counts(counts.take(cd)) + ordinal);
    assert(counts.take(0) =~= Seq::<int>::empty());
    lemma_sum_take_mono(counts, 0, cd);
    if cd < counts.len() {
        lemma_sum_take_step(counts, cd);
        lemma_sum_take_mono(counts, cd + 1, counts.len() as int);
        assert(counts.take(counts.len() as int) =~= counts);
        assert(at == sum_counts(counts.take(cd + 1)));
        assert(at <= exprs.len());
    } else {
        assert(counts.take(cd) =~= counts);
        assert(at == exprs.len());
    }
    assert(0 <= at <= exprs.len());
    // where each old coordinate now sits
    assert forall|d: int, i: int|
        #![trigger flat_index_of(counts, d, i)]
        0 <= d < counts.len() && 0 <= i < counts[d] implies {
        let f = flat_index_of(counts, d, i);
        &&& (d < cd || (d == cd && i < ordinal)) ==> f < at && flat_index_of(counts2, d, i) == f
            && st2.exprs[f] == exprs1[f]
        &&& (d > cd) ==> f >= at && flat_index_of(counts2, d, i) == f + 1 && st2.exprs[f + 1]
            == exprs1[f]
    } by {
        let f = flat_index_of(counts, d, i);
        assert(0 <= f < exprs.len());
        if d < cd {
            lemma_sum_take_step(counts, d);
            lemma_sum_take_mono(counts, d + 1, cd);
            assert(f < at);
        } else if d == cd && i < ordinal {
            assert(f < at);
        } else if d > cd {
            lemma_sum_take_step(counts, cd);
            lemma_sum_take_mono(counts, cd + 1, d);
            assert(f >= at);
        }
    }
    // the new table and tree again describe each other
    assert(coords_wf(st2.exprs, counts2)) by {
        assert(sum_counts(counts2) == st2.exprs.len());
        assert(flat_index_of(counts2, cd, ordinal) == at);
        assert(st2.exprs[at] == child);
        assert forall|d: int, i: int|
            #![trigger flat_index_of(counts2, d, i)]
            0 <= d < counts2.len() && 0 <= i < counts2[d] implies (0 <= flat_index_of(
            counts2,
            d,
            i,
        ) < st2.exprs.len() && st2.exprs[flat_index_of(counts2, d, i)].depth == d && st2.exprs[
        flat_index_of(counts2, d, i)].index == i) by {
            if d == cd && i == ordinal {
            } else if d < counts.len() && i < counts[d] {
                assert(0 <= flat_index_of(counts, d, i) < exprs.len());
            }
        }
        assert forall|f2: int| 0 <= f2 < st2.exprs.len() implies (0 <= (
        #[trigger] st2.exprs[f2]).depth < counts2.len() && 0 <= st2.exprs[f2].index
            < counts2[st2.exprs[f2].depth] && flat_index_of(
            counts2,
            st2.exprs[f2].depth,
            st2.exprs[f2].index,
        ) == f2) by {
            if f2 == at {
            } else if f2 < at {
                assert(st2.exprs[f2] == exprs1[f2]);
                assert(exprs1[f2].depth == exprs[f2].depth && exprs1[f2].index == exprs[f2].index);
                let d = exprs[f2].depth;
                let i = exprs[f2].index;
                assert(flat_index_of(counts, d, i) == f2);
                if d > cd {
                    lemma_sum_take_step(counts, cd);
                    lemma_sum_take_mono(counts, cd + 1, d);
                }
                assert(d < cd || (d == cd && i < ordinal));
            } else {
                assert(st2.exprs[f2] == exprs1[f2 - 1]);
                assert(exprs1[f2 - 1].depth == exprs[f2 - 1].depth && exprs1[f2 - 1].index
                    == exprs[f2 - 1].index);
                let d = exprs[f2 - 1].depth;
                let i = exprs[f2 - 1].index;
                assert(flat_index_of(counts, d, i) == f2 - 1);
                if d < cd {
                    lemma_sum_take_step(counts, d);
                    lemma_sum_take_mono(counts, d + 1, cd);
                } else if d == cd {
                    assert(i < ordinal);
                }
                assert(d > cd);
            }
        }
    }
    // forward references still point one level down at real expressions
    assert(args_wf(st2.exprs, counts2)) by {
        assert forall|f2: int, j: int|
            0 <= f2 < st2.exprs.len() && 0 <= j < st2.exprs[f2].args.len() implies ((
        #[trigger] st2.exprs[f2].args[j]) matches TokenView::ExpressionRef(rd, ri) ==> rd
            == st2.exprs[f2].depth + 1 && 0 <= ri < counts_at(counts2, rd)) by {
            if f2 == at {
            } else {
                let f = if f2 < at {
                    f2
                } else {
                    f2 - 1
                };
                assert(st2.exprs[f2] == exprs1[f]);
                if f == fi && j == cur.args.len() {
                    assert(exprs1[f].args[j] == TokenView::ExpressionRef(cd, ordinal));
                } else {
                    assert(exprs1[f].args[j] == exprs[f].args[j]);
                }
            }
        }
    }
    // the chain of unclosed expressions has grown by the child
    assert(1 <= counts2.len() && counts2[0] == 1 && 0 <= st2.depth < counts2.len());
    assert(st2.exprs[0].open is Some && st2.exprs[0].close is None) by {
        assert(flat_index_of(counts, 0, 0) == 0) by {
            assert(counts.take(0) =~= Seq::<int>::empty());
        }
        assert(at >= 1) by {
            lemma_sum_take_mono(counts, 1, cd);
            lemma_sum_take_step(counts, 0);
            assert(counts.take(0) =~= Seq::<int>::empty());
        }
        assert(st2.exprs[0] == exprs1[0]);
    }
    assert forall|f2: int| 0 <= f2 < st2.exprs.len() implies (#[trigger] st2.exprs[f2]).open
        is Some by {
        if f2 != at {
            let f = if f2 < at {
                f2
            } else {
                f2 - 1
            };
            assert(st2.exprs[f2] == exprs1[f]);
        }
    }
    assert forall|f2: int| 0 <= f2 < st2.exprs.len() implies ((#[trigger] st2.exprs[f2]).close
        is None <==> on_chain(st2, f2)) by {
        if f2 == at {
            assert(st2.exprs[at] == child);
            assert(counts_at(counts2, cd) == ordinal + 1);
        } else {
            let f = if f2 < at {
                f2
            } else {
                f2 - 1
            };
            assert(st2.exprs[f2] == exprs1[f]);
            let d = exprs[f].depth;
            assert(exprs1[f].close == exprs[f].close && exprs1[f].depth == d && exprs1[f].index
                == exprs[f].index);
            assert(exprs[f].close is None <==> on_chain(st, f));
            if d == cd {
                // expressions already at the child's depth are closed and stay off the chain
                assert(!on_chain(st, f));
                assert(exprs[f].index < ordinal);
                assert(counts_at(counts2, cd) == ordinal + 1);
                assert(!on_chain(st2, f2));
            } else {
                assert(counts_at(counts2, d) == counts_at(counts, d));
                if d <= st.depth {
                    assert(on_chain(st, f) <==> on_chain(st2, f2));
                } else {
                    assert(d > cd);
                    assert(!on_chain(st, f) && !on_chain(st2, f2));
                }
            }
        }
    }
    assert(state_inv(st2));
}

/// The invariant survives the closing of the current expression.
proof fn lemma_step_inv_close(st: ParseState, pos: int, st2: ParseState)
    requires
        state_inv(st),
        step_close(st, pos) == Ok::<ParseState, int>(st2),
    ensures
        state_inv(st2),
{
    let counts = st.counts;
    let exprs = st.exprs;
    let fi = state_fi(st);
    assert(0 <= counts_at(counts, st.depth) - 1 < counts[st.depth]);
    assert(0 <= fi < exprs.len() && exprs[fi].depth == st.depth && exprs[fi].index == counts_at(
        counts,
        st.depth,
    ) - 1);
    let cur = exprs[fi];
    assert(cur.open is Some && cur.close is None);
    assert(flat_index_of(counts, 0, 0) == 0) by {
        assert(counts.take(0) =~= Seq::<int>::empty());
    }
    assert(exprs[0].open is Some && exprs[0].close is None) by {
        if exprs[0].close is Some {
            assert(all_closed(exprs));
        }
    }
    let cur2 = st2.exprs[fi];
    assert(st2.exprs == exprs.update(fi, cur2));
    assert(cur2.depth == cur.depth && cur2.index == cur.index && cur2.open == cur.open
        && cur2.close == Some(pos));
    assert(coords_wf(st2.exprs, counts)) by {
        assert forall|d: int, i: int|
            #![trigger flat_index_of(counts, d, i)]
            0 <= d < counts.len() && 0 <= i < counts[d] implies (0 <= flat_index_of(counts, d, i)
            < st2.exprs.len() && st2.exprs[flat_index_of(counts, d, i)].depth == d && st2.exprs[
        flat_index_of(counts, d, i)].index == i) by {
            assert(0 <= flat_index_of(counts, d, i) < exprs.len());
        }
    }
    assert(args_wf(st2.exprs, counts)) by {
        assert forall|f2: int, j: int|
            0 <= f2 < st2.exprs.len() && 0 <= j < st2.exprs[f2].args.len() implies ((
        #[trigger] st2.exprs[f2].args[j]) matches TokenView::ExpressionRef(rd, ri) ==> rd
            == st2.exprs[f2].depth + 1 && 0 <= ri < counts_at(counts, rd)) by {
            if f2 == fi && j >= cur.args.len() {
                assert(st2.exprs[f2].args[j] == token_of(st.buf));
                assert(!(token_of(st.buf) is ExpressionRef));
            } else {
                assert(st2.exprs[f2].args[j] == exprs[f2].args[j]);
            }
        }
    }
    if st.depth == 0 {
        // the outermost wrapper itself has closed
        assert(fi == 0);
        assert(st2.depth == 0 && st2.buf.len() == 0);
        assert forall|f2: int| 0 <= f2 < st2.exprs.len() implies (#[trigger] st2.exprs[f2]).close
            is Some by {
            if f2 != fi {
                assert(st2.exprs[f2] == exprs[f2]);
                assert(exprs[f2].close is None <==> on_chain(st, f2));
                if exprs[f2].close is None {
                    assert(exprs[f2].depth <= 0);
                    assert(flat_index_of(counts, exprs[f2].depth, exprs[f2].index) == f2);
                    assert(f2 == fi);
                }
            }
        }
        assert(state_inv(st2));
    } else {
        assert(fi != 0) by {
            lemma_sum_take_mono(counts, 1, st.depth);
            lemma_sum_take_step(counts, 0);
            assert(counts.take(0) =~= Seq::<int>::empty());
        }
        assert(st2.exprs[0].open is Some && st2.exprs[0].close is None);
        assert(st2.depth == st.depth - 1);
        assert forall|f2: int| 0 <= f2 < st2.exprs.len() implies ((#[trigger] st2.exprs[f2]).close
            is None <==> on_chain(st2, f2)) by {
            if f2 == fi {
                assert(!on_chain(st2, f2));
            } else {
                assert(st2.exprs[f2] == exprs[f2]);
                assert(exprs[f2].close is None <==> on_chain(st, f2));
                if exprs[f2].depth == st.depth && exprs[f2].index == counts_at(
                    counts,
                    st.depth,
                ) - 1 {
                    assert(flat_index_of(counts, exprs[f2].depth, exprs[f2].index) == f2);
                    assert(f2 == fi);
                }
            }
        }
        assert(state_inv(st2));
    }
}

/// The invariant survives a space: either nothing happens, or a pending
/// atom is flushed into the current expression.
proof fn lemma_step_inv_space(st: ParseState, st2: ParseState)
    requires
        state_inv(st),
        st2 == step_space(st),
    ensures
        state_inv(st2),
{
    if st.buf.len() == 0 {
    } else {
        let counts = st.counts;
        let exprs = st.exprs;
        let fi = state_fi(st);
        assert(0 <= counts_at(counts, st.depth) - 1 < counts[st.depth]);
        assert(0 <= fi < exprs.len() && exprs[fi].depth == st.depth && exprs[fi].index == counts_at(
            counts,
            st.depth,
        ) - 1);
        let cur = exprs[fi];
        // a pending atom means the scan is inside the wrapper
        assert(flat_index_of(counts, 0, 0) == 0) by {
            assert(counts.take(0) =~= Seq::<int>::empty());
        }
        assert(exprs[0].open is Some && exprs[0].close is None);
        let cur1 = st2.exprs[fi];
        assert(st2.exprs == exprs.update(fi, cur1));
        assert(cur1.depth == cur.depth && cur1.index == cur.index && cur1.open == cur.open
            && cur1.close == cur.close);
        assert(coords_wf(st2.exprs, counts)) by {
            assert forall|d: int, i: int|
                #![trigger flat_index_of(counts, d, i)]
                0 <= d < counts.len() && 0 <= i < counts[d] implies (0 <= flat_index_of(
                counts,
                d,
                i,
            ) < st2.exprs.len() && st2.exprs[flat_index_of(counts, d, i)].depth == d && st2.exprs[
            flat_index_of(counts, d, i)].index == i) by {
                assert(0 <= flat_index_of(counts, d, i) < exprs.len());
            }
        }
        assert(args_wf(st2.exprs, counts)) by {
            assert forall|f2: int, j: int|
                0 <= f2 < st2.exprs.len() && 0 <= j < st2.exprs[f2].args.len() implies ((
            #[trigger] st2.exprs[f2].args[j]) matches TokenView::ExpressionRef(rd, ri) ==> rd
                == st2.exprs[f2].depth + 1 && 0 <= ri < counts_at(counts, rd)) by {
                if f2 == fi && j >= cur.args.len() {
                    assert(st2.exprs[f2].args[j] == token_of(st.buf));
                    assert(!(token_of(st.buf) is ExpressionRef));
                } else {
                    assert(st2.exprs[f2].args[j] == exprs[f2].args[j]);
                }
            }
        }
        assert forall|f2: int| 0 <= f2 < st2.exprs.len() implies (#[trigger] st2.exprs[f2]).open
            is Some by {
            if f2 != fi {
                assert(st2.exprs[f2] == exprs[f2]);
            }
        }
        assert forall|f2: int| 0 <= f2 < st2.exprs.len() implies ((#[trigger] st2.exprs[f2]).close
            is None <==> on_chain(st2, f2)) by {
            if f2 != fi {
                assert(st2.exprs[f2] == exprs[f2]);
            }
            assert(st2.exprs[f2].close == exprs[f2].close && st2.exprs[f2].depth == exprs[f2].depth
                && st2.exprs[f2].index == exprs[f2].index);
            assert(exprs[f2].close is None <==> on_chain(st, f2));
        }
        assert(state_inv(st2));
    }
}

/// The invariant holds at every prefix of a scan that has not failed.
pub proof fn lemma_run_inv(s: Seq<char>, n: int, st: ParseState)
    requires
        0 <= n,
        parse_run(s, n) == Ok::<ParseState, int>(st),
    ensures
        state_inv(st),
    decreases n,
{
    if n == 0 {
        assert(st == init_state());
        assert(flat_index_of(seq![1int], 0, 0) == 0) by {
            assert(seq![1int].take(0) =~= Seq::<int>::empty());
        }
        assert(sum_counts(seq![1int]) == 1) by {
            assert(seq![1int].drop_last() =~= Seq::<int>::empty());
        }
        assert(state_inv(st));
    } else {
        let prev = parse_run(s, n - 1);
        let st1 = prev->Ok_0;
        lemma_run_inv(s, n - 1, st1);
        lemma_step_inv(st1, s[n - 1], n - 1, st2_of(st1, s[n - 1], n - 1));
        assert(parse_step(st1, s[n - 1], n - 1) == Ok::<ParseState, int>(st));
    }
}

/// The state a successful step yields.
pub open spec fn st2_of(st: ParseState, c: char, pos: int) -> ParseState {
    parse_step(st, c, pos)->Ok_0
}

/// A scan that has failed stays failed, whatever characters follow.
pub proof fn lemma_run_err(s: Seq<char>, n: int, m: int)
    requires
        0 <= n <= m,
        parse_run(s, n) is Err,
    ensures
        parse_run(s, m) == parse_run(s, n),
    decreases m,
{
    if m > n {
        lemma_run_err(s, n, m - 1);
    }
}

/// Bounds used when a child expression is about to be created: its
/// ordinal stays below the expression total, and its insertion point
/// lies within the storage.
proof fn lemma_child_bounds(st: ParseState)
    requires
        state_inv(st),
    ensures
        counts_at(st.counts, st.depth + 1) + 1 <= st.exprs.len(),
        0 <= flat_index_of(st.counts, st.depth + 1, counts_at(st.counts, st.depth + 1))
            <= st.exprs.len(),
{
    let counts = st.counts;
    let cd = st.depth + 1;
    let ordinal = counts_at(counts, cd);
    assert(counts.take(0) =~= Seq::<int>::empty());
    lemma_sum_take_step(counts, 0);
    lemma_sum_take_mono(counts, 0, cd);
    lemma_sum_take_mono(counts, 1, cd);
    if cd < counts.len() {
        lemma_sum_take_step(counts, cd);
        lemma_sum_take_mono(counts, cd + 1, counts.len() as int);
        assert(counts.take(counts.len() as int) =~= counts);
    } else {
        assert(counts.take(cd) =~= counts);
    }
}

/// Whether every stored expression has received its closing
/// parenthesis.
pub open spec fn all_closed(exprs: Seq<ExprView>) -> bool {
    forall|fi: int| 0 <= fi < exprs.len() ==> (#[trigger] exprs[fi]).close is Some
}

/// The outcome of parsing a whole text: the scanner's final state, or
/// the position of the failure.  A text whose expressions are not all
/// closed at the end fails at the position one past its end.
pub open spec fn parse_result(s: Seq<char>) -> Result<ParseState, int> {
    match parse_run(s, s.len() as int) {
        Ok(st) => if all_closed(st.exprs) {
            Ok(st)
        } else {
            Err(s.len() as int)
        },
        Err(p) => Err(p),
    }
}

impl Parser {
    /// Drops every expression, so that no partial tree survives a
    /// failed parse.
    fn clear_state(&mut self)
        ensures
            final(self)@.tree == Seq::<ExprView>::empty(),
            final(self)@.counts == Seq::<int>::empty(),
            final(self)@.depth == 0,
            final(self)@.contents == old(self)@.contents,
            final(self).well_formed(),
    {
        self.tree = Tree::new();
        self.current_depth = 0;
        self.n_expressions_in_depth = Vec::new();
        proof {
            assert(counts_view(self.n_expressions_in_depth@) =~= Seq::<int>::empty());
        }
    }

    /// Scans a whole text left to right, building the flat tree of its
    /// parenthesized expressions.  On success the parser holds exactly
    /// the tree the scanner specification describes; on failure it
    /// reports the offending position and keeps no partial tree.
    pub fn parse(&mut self, contents: String) -> (r: Result<(), SyntaxError>)
        ensures
            final(self)@.contents == contents@,
            r is Ok <==> parse_result(contents@) is Ok,
            r matches Ok(v) ==> (parse_result(contents@) matches Ok(st) && final(self)@.tree
                == st.exprs && final(self)@.counts == st.counts && final(self)@.depth == 0
                && final(self).well_formed() && all_closed(final(self)@.tree)
                && final(self)@.tree.len() >= 1),
            r matches Err(e) ==> (parse_result(contents@) matches Err(p) && e.at as int == p
                && final(self)@.tree == Seq::<ExprView>::empty() && final(self)@.counts
                == Seq::<int>::empty() && final(self)@.depth == 0 && final(self).well_formed()),
    {
        self.contents = contents.clone();
        self.tree = Tree::new();
        self.current_depth = 0;
        self.n_expressions_in_depth = Vec::new();
        // start simple: the outermost wrapper, waiting for its parenthesis
        self.tree.push(TokenExpression::new());
        self.n_expressions_in_depth.push(1);
        let ghost s = contents@;
        proof {
            assert(self@.tree =~= init_state().exprs);
            assert(self@.counts =~= init_state().counts);
            assert(parse_run(s, 0) == Ok::<ParseState, int>(init_state()));
        }
        let cs = chars_vec(contents.as_str());
        let mut buf: Vec<char> = Vec::new();
        let mut pos: usize = 0;
        while pos < cs.len()
            invariant
                cs@ == s,
                s == contents@,
                pos <= s.len(),
                self@.contents == s,
                parse_run(s, pos as int) matches Ok(st) && self@.tree == st.exprs && self@.counts
                    == st.counts && self@.depth == st.depth && buf@ == st.buf,
            decreases s.len() - pos,
        {
            let ghost st = parse_run(s, pos as int)->Ok_0;
            proof {
                lemma_run_inv(s, pos as int, st);
                assert(parse_run(s, pos + 1) == parse_step(st, s[pos as int], pos as int));
            }
            let c = cs[pos];
            match Symbols::try_from(c) {
                Ok(Symbols::LPAREN) => {
                    let has_open = self.get_last().get_opening().is_some();
                    if !has_open {
                        // the outermost wrapper's own opening parenthesis
                        let e = self.get_last_mut();
                        e.insert_opening(pos);
                        proof {
                            assert(self@.tree =~= st.exprs.update(
                                state_fi(st),
                                ExprView { open: Some(pos as int), ..st.exprs[state_fi(st)] },
                            ));
                        }
                    } else if buf.len() > 0 {
                        // an atom glued to an opening parenthesis is malformed
                        proof {
                            assert(parse_run(s, pos + 1) == Err::<ParseState, int>(pos as int));
                            lemma_run_err(s, pos + 1, s.len() as int);
                        }
                        self.clear_state();
                        return Err(SyntaxError { at: pos });
                    } else if !self.get_last().is_unclosed() {
                        // a second top-level form after the wrapper closed
                        proof {
                            assert(parse_run(s, pos + 1) == Err::<ParseState, int>(pos as int));
                            lemma_run_err(s, pos + 1, s.len() as int);
                        }
                        self.clear_state();
                        return Err(SyntaxError { at: pos });
                    } else {
                        // a genuinely new child expression one level deeper
                        let total = self.tree.expressions.len();
                        let cl = self.n_expressions_in_depth.len();
                        proof {
                            assert((self.current_depth as int) < self@.counts.len());
                            assert(self@.counts.len() == cl as int);
                        }
                        let cd = self.current_depth + 1;
                        let ordinal = if cd < self.n_expressions_in_depth.len() {
                            self.n_expressions_in_depth[cd]
                        } else {
                            0
                        };
                        proof {
                            lemma_child_bounds(st);
                            assert(ordinal as int == counts_at(st.counts, cd as int));
                            assert(self@.tree.len() == total as int);
                        }
                        {
                            let p = self.get_last_mut();
                            p.args.push(Token::Expression((cd, ordinal)));
                        }
                        let ghost parent2 = ExprView {
                            args: st.exprs[state_fi(st)].args.push(
                                TokenView::ExpressionRef(cd as int, ordinal as int),
                            ),
                            ..st.exprs[state_fi(st)]
                        };
                        let ghost exprs1 = st.exprs.update(state_fi(st), parent2);
                        proof {
                            assert(self@.tree[state_fi(st)].args =~= parent2.args);
                            assert(self@.tree =~~= exprs1);
                        }
                        if cd < self.n_expressions_in_depth.len() {
                            let c0 = self.n_expressions_in_depth[cd];
                            self.n_expressions_in_depth[cd] = c0 + 1;
                            proof {
                                assert(self@.counts =~= st.counts.update(
                                    cd as int,
                                    st.counts[cd as int] + 1,
                                ));
                            }
                        } else {
                            self.n_expressions_in_depth.push(1);
                            proof {
                                assert(self@.counts =~= st.counts.push(1));
                            }
                        }
                        proof {
                            assert(self@.counts.take(cd as int) =~= st.counts.take(cd as int));
                        }
                        let at = flat_of(&self.n_expressions_in_depth, cd, ordinal);
                        let mut child = TokenExpression::new();
                        child.depth = cd;
                        child.index = ordinal;
                        child.insert_opening(pos);
                        proof {
                            assert(child@ =~= (ExprView {
                                keyword: None,
                                depth: cd as int,
                                args: Seq::empty(),
                                open: Some(pos as int),
                                close: None,
                                index: ordinal as int,
                            }));
                        }
                        self.tree.insert(at, child);
                        self.current_depth = cd;
                        proof {
                            let st2 = st2_of(st, c, pos as int);
                            assert(st2.exprs =~~= self@.tree);
                            assert(st2.counts =~= self@.counts);
                        }
                    }
                },
                Ok(Symbols::RPAREN) => {
                    if self.get_last().is_unclosed() {
                        if buf.len() > 0 {
                            // a trailing atom glued to the closing parenthesis
                            let t = Token::from(string_of(&buf));
                            let e = self.get_last_mut();
                            e.args.push(t);
                            buf.clear();
                        }
                        let e = self.get_last_mut();
                        e.insert_closing(pos);
                        if self.current_depth > 0 {
                            // go one expression up
                            self.current_depth = self.current_depth - 1;
                        }
                        proof {
                            let st2 = st2_of(st, c, pos as int);
                            assert(st2.exprs =~~= self@.tree);
                        }
                    } else {
                        proof {
                            assert(parse_run(s, pos + 1) == Err::<ParseState, int>(pos as int));
                            lemma_run_err(s, pos + 1, s.len() as int);
                        }
                        self.clear_state();
                        return Err(SyntaxError { at: pos });
                    }
                },
                _ => {
                    if c == ' ' {
                        if buf.len() > 0 {
                            // a space ends the atom: the first one names the
                            // keyword, the rest become arguments
                            let t = Token::from(string_of(&buf));
                            let e = self.get_last_mut();
                            if e.keyword.is_none() {
                                e.keyword = Some(t);
                            } else {
                                e.args.push(t);
                            }
                            buf.clear();
                            proof {
                                let st2 = st2_of(st, c, pos as int);
                                assert(st2.exprs =~~= self@.tree);
                            }
                        }
                    } else {
                        if self.get_last().is_unclosed() {
                            buf.push(c);
                        } else {
                            // text outside every parenthesized form
                            proof {
                                assert(parse_run(s, pos + 1) == Err::<ParseState, int>(
                                    pos as int,
                                ));
                                lemma_run_err(s, pos + 1, s.len() as int);
                            }
                            self.clear_state();
                            return Err(SyntaxError { at: pos });
                        }
                    }
                },
            }
            pos = pos + 1;
        }
        // the text is consumed: every expression must have closed
        let ghost stf = parse_run(s, s.len() as int)->Ok_0;
        proof {
            lemma_run_inv(s, s.len() as int, stf);
            assert(stf.counts.take(0) =~= Seq::<int>::empty());
            lemma_sum_take_step(stf.counts, 0);
            lemma_sum_take_mono(stf.counts, 1, stf.counts.len() as int);
            assert(stf.counts.take(stf.counts.len() as int) =~= stf.counts);
            assert(stf.exprs.len() >= 1);
            assert(flat_index_of(stf.counts, 0, 0) == 0);
        }
        if self.current_depth > 0 {
            proof {
                assert(stf.exprs[0].close is None);
                assert(!all_closed(stf.exprs));
            }
            self.clear_state();
            return Err(SyntaxError { at: cs.len() });
        }
        let root_closed = {
            let e = &self.tree.expressions[0];
            e.delimiters.1.is_some()
        };
        if !root_closed {
            proof {
                assert(!all_closed(stf.exprs));
            }
            self.clear_state();
            return Err(SyntaxError { at: cs.len() });
        }
        proof {
            assert(stf.exprs[0].close is Some);
            assert(all_closed(stf.exprs));
        }
        Ok(())
    }
}


/// Substitution of an already computed child result into one argument
/// token: an expression reference whose coordinate has a result is
/// replaced by it, anything else is left alone.
pub open spec fn subst_tok(results: Map<(int, int), TokenView>, a: TokenView) -> TokenView {
    match a {
        TokenView::ExpressionRef(cd, ci) => if results.contains_key((cd, ci)) {
            results[(cd, ci)]
        } else {
            a
        },
        _ => a,
    }
}

/// An expression with every argument substituted.
pub open spec fn subst_expr(results: Map<(int, int), TokenView>, e: ExprView) -> ExprView {
    ExprView { args: e.args.map(|j: int, a: TokenView| subst_tok(results, a)), ..e }
}

/// The bottom-up sweep of the reducer, resumed at coordinate
/// `(d, i)`: expressions are visited by depth descending and index
/// ascending; each has its resolved children substituted into its
/// arguments, is dispatched, and contributes its result to the table.
/// A dispatch failure aborts the sweep, keeping the tree as
/// substituted so far.
pub open spec fn reduce_from(
    t: Seq<ExprView>,
    counts: Seq<int>,
    d: int,
    i: int,
    results: Map<(int, int), TokenView>,
) -> Result<(Seq<ExprView>, Map<(int, int), TokenView>), (EvalError, Seq<ExprView>)>
    decreases d + 1, counts_at(counts, d) - i + 1,
{
    if d < 0 {
        Ok((t, results))
    } else if i >= counts_at(counts, d) {
        reduce_from(t, counts, d - 1, 0, results)
    } else {
        let fi = flat_index_of(counts, d, i);
        let e2 = subst_expr(results, t[fi]);
        let t2 = t.update(fi, e2);
        match exec_view(e2) {
            Err(er) => Err((er, t2)),
            Ok(tok) => reduce_from(t2, counts, d, i + 1, results.insert((d, i), tok)),
        }
    }
}

/// The whole bottom-up reduction of a tree.
pub open spec fn reduce_run(t: Seq<ExprView>, counts: Seq<int>) -> Result<
    (Seq<ExprView>, Map<(int, int), TokenView>),
    (EvalError, Seq<ExprView>),
> {
    reduce_from(t, counts, counts.len() - 1, 0, Map::empty())
}

/// Whether none of an expression's arguments is a dangling expression
/// reference.
pub open spec fn no_ref_args(e: ExprView) -> bool {
    forall|k: int| 0 <= k < e.args.len() ==> !((#[trigger] e.args[k]) is ExpressionRef)
}

/// Substituting resolved children into one expression's arguments
/// keeps the tree well formed: coordinates are untouched, and every
/// argument is either unchanged or replaced by a result token, which is
/// never an expression reference.
proof fn lemma_wf_subst_update(
    t: Seq<ExprView>,
    counts: Seq<int>,
    fi: int,
    e2: ExprView,
    rmap: Map<(int, int), TokenView>,
)
    requires
        coords_wf(t, counts),
        args_wf(t, counts),
        0 <= fi < t.len(),
        e2 == subst_expr(rmap, t[fi]),
        forall|d2: int, i2: int|
            #![trigger rmap.contains_key((d2, i2))]
            rmap.contains_key((d2, i2)) ==> !(rmap[(d2, i2)] is ExpressionRef),
    ensures
        coords_wf(t.update(fi, e2), counts),
        args_wf(t.update(fi, e2), counts),
{
    let t2 = t.update(fi, e2);
    assert(e2.depth == t[fi].depth && e2.index == t[fi].index);
    assert forall|d: int, i: int|
        #![trigger flat_index_of(counts, d, i)]
        0 <= d < counts.len() && 0 <= i < counts[d] implies (0 <= flat_index_of(counts, d, i)
        < t2.len() && t2[flat_index_of(counts, d, i)].depth == d && t2[flat_index_of(
        counts,
        d,
        i,
    )].index == i) by {
        assert(0 <= flat_index_of(counts, d, i) < t.len());
    }
    assert forall|f2: int, j: int|
        0 <= f2 < t2.len() && 0 <= j < t2[f2].args.len() implies ((#[trigger] t2[f2].args[j])
        matches TokenView::ExpressionRef(cd, ci) ==> cd == t2[f2].depth + 1 && 0 <= ci < counts_at(
        counts,
        cd,
    )) by {
        if f2 == fi {
            assert(t2[f2].args[j] == subst_tok(rmap, t[fi].args[j]));
            match t[fi].args[j] {
                TokenView::ExpressionRef(cd0, ci0) => {
                    assert(t[fi].args[j] matches TokenView::ExpressionRef(cd, ci) ==> cd == t[
                    fi].depth + 1 && 0 <= ci < counts_at(counts, cd));
                    if rmap.contains_key((cd0, ci0)) {
                        assert(!(rmap[(cd0, ci0)] is ExpressionRef));
                    }
                },
                _ => {},
            }
        } else {
            assert(t2[f2].args[j] == t[f2].args[j]);
        }
    }
}

/// Everything the reducer keeps true while sweeping, standing at
/// coordinate `(dcur, icur)`: the tree stays well formed, the result
/// table and the ghost result map agree, exactly the already visited
/// coordinates have results, visited expressions hold no unresolved
/// references, and resuming the sweep from here yields the same
/// outcome as the whole run.
pub open spec fn reduce_inv(
    t0: Seq<ExprView>,
    counts: Seq<int>,
    t: Seq<ExprView>,
    results: Seq<Option<Token>>,
    rmap: Map<(int, int), TokenView>,
    dcur: int,
    icur: int,
) -> bool {
    &&& coords_wf(t, counts)
    &&& args_wf(t, counts)
    &&& results.len() == t.len()
    &&& dcur < counts.len()
    &&& reduce_run(t0, counts) == reduce_from(t, counts, dcur, icur, rmap)
    &&& forall|d2: int, i2: int|
        #![trigger rmap.contains_key((d2, i2))]
        0 <= d2 < counts.len() && 0 <= i2 < counts[d2] ==> (rmap.contains_key((d2, i2)) <==> (d2
            > dcur || (d2 == dcur && i2 < icur)))
    &&& forall|d2: int, i2: int|
        #![trigger flat_index_of(counts, d2, i2)]
        0 <= d2 < counts.len() && 0 <= i2 < counts[d2] ==> match results[flat_index_of(
            counts,
            d2,
            i2,
        )] {
            Some(tok) => rmap.contains_key((d2, i2)) && tok@ == rmap[(d2, i2)] && !(tok@
                is ExpressionRef),
            None => !rmap.contains_key((d2, i2)),
        }
    &&& forall|d2: int, i2: int|
        #![trigger rmap.contains_key((d2, i2))]
        rmap.contains_key((d2, i2)) ==> 0 <= d2 < counts.len() && 0 <= i2 < counts[d2]
    &&& forall|d2: int, i2: int|
        #![trigger flat_index_of(counts, d2, i2)]
        0 <= d2 < counts.len() && 0 <= i2 < counts[d2] && rmap.contains_key((d2, i2))
            ==> no_ref_args(t[flat_index_of(counts, d2, i2)])
}

impl Parser {
    /// Reduces the whole tree bottom-up: expressions are visited by
    /// depth descending and index ascending, each has its children's
    /// results substituted into its arguments and is dispatched to the
    /// builtin table, and the root expression's result is returned.  A
    /// dispatch failure aborts the sweep and is returned instead; on
    /// success no unresolved expression reference survives anywhere in
    /// the tree.  It asks for what a successful `parse` leaves behind:
    /// a well-formed, non-empty tree.
    pub fn reduce_all(&mut self) -> (r: Result<Token, EvalError>)
        requires
            old(self).well_formed(),
            old(self)@.tree.len() >= 1,
        ensures
            final(self)@.counts == old(self)@.counts,
            final(self)@.depth == old(self)@.depth,
            final(self)@.contents == old(self)@.contents,
            final(self).well_formed(),
            r is Ok <==> reduce_run(old(self)@.tree, old(self)@.counts) is Ok,
            r matches Ok(tok) ==> (reduce_run(old(self)@.tree, old(self)@.counts) matches Ok(p)
                && final(self)@.tree == p.0 && p.1.contains_key((0, 0)) && tok@ == p.1[(0, 0)]),
            r matches Ok(tok) ==> forall|fi: int, j: int|
                0 <= fi < final(self)@.tree.len() && 0 <= j < final(self)@.tree[fi].args.len()
                    ==> !((#[trigger] final(self)@.tree[fi].args[j]) is ExpressionRef),
            r matches Err(e) ==> (reduce_run(old(self)@.tree, old(self)@.counts) matches Err(pe)
                && e == pe.0 && final(self)@.tree == pe.1),
            // the error names the coordinate of the failing expression:
            // the one that, as left substituted in the tree, dispatches
            // to exactly this failure
            r matches Err(e) ==> (0 <= crate::logic::err_depth(e) && crate::logic::err_depth(e)
                < old(self)@.counts.len() && 0 <= crate::logic::err_index(e)
                && crate::logic::err_index(e) < old(self)@.counts[crate::logic::err_depth(e)]
                && exec_view(
                final(self)@.tree[flat_index_of(
                    old(self)@.counts,
                    crate::logic::err_depth(e),
                    crate::logic::err_index(e),
                )],
            ) == Err::<TokenView, EvalError>(e)),
    {
        let ghost t0 = self@.tree;
        let ghost counts = self@.counts;
        let total = self.tree.expressions.len();
        proof {
            assert(counts.len() >= 1) by {
                if counts.len() == 0 {
                    assert(sum_counts(counts) == 0);
                }
            }
        }
        let mut results: Vec<Option<Token>> = Vec::new();
        let mut k: usize = 0;
        while k < total
            invariant
                k <= total,
                results@.len() == k as int,
                forall|m: int| 0 <= m < k as int ==> results@[m] is None,
            decreases total - k,
        {
            results.push(None);
            k = k + 1;
        }
        let ghost mut rmap: Map<(int, int), TokenView> = Map::empty();
        let dlen = self.n_expressions_in_depth.len();
        let mut dd = dlen;
        proof {
            assert(reduce_run(t0, counts) == reduce_from(
                self@.tree,
                counts,
                dd - 1,
                0,
                rmap,
            ));
        }
        while dd > 0
            invariant
                t0 == old(self)@.tree,
                counts == old(self)@.counts,
                self@.counts == counts,
                self@.depth == old(self)@.depth,
                self@.contents == old(self)@.contents,
                0 <= dd as int && dd as int <= counts.len(),
                reduce_inv(t0, counts, self@.tree, results@, rmap, dd - 1, 0),
            decreases dd,
        {
            let d = dd - 1;
            let cnt = self.n_expressions_in_depth[d];
            let mut i: usize = 0;
            proof {
                assert(counts[d as int] == cnt as int);
            }
            while i < cnt
                invariant
                    t0 == old(self)@.tree,
                    counts == old(self)@.counts,
                    self@.counts == counts,
                    self@.depth == old(self)@.depth,
                    self@.contents == old(self)@.contents,
                    0 <= d as int && (d as int) < counts.len(),
                    counts[d as int] == cnt as int,
                    i <= cnt,
                    reduce_inv(t0, counts, self@.tree, results@, rmap, d as int, i as int),
                decreases cnt - i,
            {
                let ghost t_at = self@.tree;
                let tl = self.tree.expressions.len();
                proof {
                    assert(0 <= flat_index_of(counts, d as int, i as int) < t_at.len());
                    assert(t_at.len() == tl as int);
                }
                let fi = flat_of(&self.n_expressions_in_depth, d, i);
                let ghost e_before = t_at[fi as int];
                // resolve this expression's already computed children in place
                let nargs = self.tree.expressions[fi].args.len();
                let mut j: usize = 0;
                while j < nargs
                    invariant
                        t0 == old(self)@.tree,
                        counts == old(self)@.counts,
                        self@.counts == counts,
                        self@.depth == old(self)@.depth,
                        self@.contents == old(self)@.contents,
                        0 <= d as int && (d as int) < counts.len(),
                        0 <= i as int && (i as int) < counts[d as int],
                        fi as int == flat_index_of(counts, d as int, i as int),
                        0 <= fi as int && (fi as int) < self@.tree.len(),
                        self@.tree.len() == tl as int,
                        e_before == t_at[fi as int],
                        t_at.len() == self@.tree.len(),
                        reduce_inv(t0, counts, t_at, results@, rmap, d as int, i as int),
                        self@.tree == t_at.update(fi as int, self@.tree[fi as int]),
                        self@.tree[fi as int].keyword == e_before.keyword,
                        self@.tree[fi as int].depth == e_before.depth,
                        self@.tree[fi as int].index == e_before.index,
                        self@.tree[fi as int].open == e_before.open,
                        self@.tree[fi as int].close == e_before.close,
                        nargs as int == e_before.args.len(),
                        self@.tree[fi as int].args.len() == e_before.args.len(),
                        j <= nargs,
                        forall|m: int|
                            0 <= m < j as int ==> #[trigger] self@.tree[fi as int].args[m]
                                == subst_tok(rmap, e_before.args[m]),
                        forall|m: int|
                            j as int <= m < e_before.args.len() ==> #[trigger] self@.tree[
                            fi as int].args[m] == e_before.args[m],
                    decreases nargs - j,
                {
                    let coord: Option<(usize, usize)> = match &self.tree.expressions[fi].args[j] {
                        Token::Expression(c) => Some((c.0, c.1)),
                        _ => None,
                    };
                    match coord {
                        Some((cd, ci)) => {
                            proof {
                                assert(self@.tree[fi as int].args[j as int]
                                    == TokenView::ExpressionRef(cd as int, ci as int));
                                assert(e_before.args[j as int] == TokenView::ExpressionRef(
                                    cd as int,
                                    ci as int,
                                ));
                                assert((cd as int) == (d as int) + 1);
                                assert(0 <= ci as int && (ci as int) < counts_at(
                                    counts,
                                    cd as int,
                                ));
                                assert(0 <= flat_index_of(counts, cd as int, ci as int)
                                    < self@.tree.len());
                                assert(self@.tree.len() == tl as int);
                                assert(rmap.contains_key((cd as int, ci as int)));
                            }
                            let cfi = flat_of(&self.n_expressions_in_depth, cd, ci);
                            let replacement: Option<Token> = match &results[cfi] {
                                Some(tok) => Some(tok.duplicate()),
                                None => None,
                            };
                            match replacement {
                                Some(tok) => {
                                    proof {
                                        assert(tok@ == rmap[(cd as int, ci as int)]);
                                        assert(tok@ == subst_tok(rmap, e_before.args[j as int]));
                                    }
                                    let ghost prev = self@.tree;
                                    let ghost tokv = tok@;
                                    let e = &mut self.tree.expressions[fi];
                                    let slot = &mut e.args[j];
                                    *slot = tok;
                                    proof {
                                        assert(self@.tree[fi as int].args =~= prev[
                                        fi as int].args.update(j as int, tokv));
                                        assert(self@.tree =~~= prev.update(
                                            fi as int,
                                            self@.tree[fi as int],
                                        ));
                                    }
                                },
                                None => {
                                    proof {
                                        assert(false);
                                    }
                                },
                            }
                        },
                        None => {
                            proof {
                                assert(!(e_before.args[j as int] is ExpressionRef));
                                assert(subst_tok(rmap, e_before.args[j as int]) == e_before.args[
                                j as int]);
                            }
                        },
                    }
                    proof {
                        assert(self@.tree =~~= t_at.update(fi as int, self@.tree[fi as int]));
                    }
                    j = j + 1;
                }
                let ghost e2 = subst_expr(rmap, e_before);
                proof {
                    assert(self@.tree[fi as int] =~= e2);
                    assert(self@.tree =~~= t_at.update(fi as int, e2));
                    assert forall|d2: int, i2: int|
                        #![trigger rmap.contains_key((d2, i2))]
                        rmap.contains_key((d2, i2)) implies !(rmap[(d2, i2)]
                        is ExpressionRef) by {
                        if 0 <= d2 < counts.len() && 0 <= i2 < counts[d2] {
                            assert(0 <= flat_index_of(counts, d2, i2) < t_at.len());
                        }
                    }
                    lemma_wf_subst_update(t_at, counts, fi as int, e2, rmap);
                }
                // dispatch the resolved expression to the builtin table
                let verdict = BuiltinFuncs::exec(&self.tree.expressions[fi]);
                match verdict {
                    Err(er) => {
                        proof {
                            assert(reduce_from(t_at, counts, d as int, i as int, rmap) == Err::<
                                (Seq<ExprView>, Map<(int, int), TokenView>),
                                (EvalError, Seq<ExprView>),
                            >((er, self@.tree)));
                            assert(e2.depth == d as int && e2.index == i as int);
                            assert(crate::logic::err_depth(er) == d as int
                                && crate::logic::err_index(er) == i as int);
                            assert(self@.tree[flat_index_of(counts, d as int, i as int)] == e2);
                        }
                        return Err(er);
                    },
                    Ok(tok) => {
                        proof {
                            assert(exec_view(e2) == Ok::<TokenView, EvalError>(tok@));
                            assert(!(tok@ is ExpressionRef));
                            assert(no_ref_args(e2)) by {
                                assert forall|m: int| 0 <= m < e2.args.len() implies !((
                                #[trigger] e2.args[m]) is ExpressionRef) by {
                                    assert(e2.args[m] == subst_tok(rmap, e_before.args[m]));
                                    match e_before.args[m] {
                                        TokenView::ExpressionRef(cd2, ci2) => {
                                            assert(t_at[fi as int].args[m]
                                                == TokenView::ExpressionRef(cd2, ci2));
                                            assert(cd2 == d as int + 1);
                                            assert(0 <= ci2 && ci2 < counts_at(counts, cd2));
                                            assert(0 <= flat_index_of(counts, cd2, ci2)
                                                && flat_index_of(counts, cd2, ci2) < t_at.len());
                                            assert(rmap.contains_key((cd2, ci2)));
                                        },
                                        _ => {},
                                    }
                                }
                            }
                        }
                        let slot = &mut results[fi];
                        *slot = Some(tok);
                        proof {
                            let t_new = self@.tree;
                            rmap = rmap.insert((d as int, i as int), tok@);
                            assert(reduce_run(t0, counts) == reduce_from(
                                t_new,
                                counts,
                                d as int,
                                i as int + 1,
                                rmap,
                            ));
                            assert forall|d2: int, i2: int|
                                #![trigger flat_index_of(counts, d2, i2)]
                                0 <= d2 < counts.len() && 0 <= i2 < counts[d2] implies match results@[
                            flat_index_of(counts, d2, i2)] {
                                Some(tk) => rmap.contains_key((d2, i2)) && tk@ == rmap[(d2, i2)]
                                    && !(tk@ is ExpressionRef),
                                None => !rmap.contains_key((d2, i2)),
                            } by {
                                if flat_index_of(counts, d2, i2) == fi as int {
                                    assert(t_new[fi as int].depth == d2 && t_new[fi as int].index
                                        == i2);
                                    assert(d2 == d as int && i2 == i as int);
                                }
                            }
                        }
                        i = i + 1;
                    },
                }
            }
            proof {
                assert(reduce_from(self@.tree, counts, d as int, cnt as int, rmap) == reduce_from(
                    self@.tree,
                    counts,
                    d as int - 1,
                    0,
                    rmap,
                ));
            }
            dd = dd - 1;
        }
        // the sweep is complete: the root's result is the program's value
        proof {
            assert(reduce_from(self@.tree, counts, -1, 0, rmap) == Ok::<
                (Seq<ExprView>, Map<(int, int), TokenView>),
                (EvalError, Seq<ExprView>),
            >((self@.tree, rmap)));
            assert(counts[0] >= 1);
            assert(flat_index_of(counts, 0, 0) == 0) by {
                assert(counts.take(0) =~= Seq::<int>::empty());
            }
            assert(rmap.contains_key((0, 0)));
        }
        let root: Option<Token> = match &results[0] {
            Some(tok) => Some(tok.duplicate()),
            None => None,
        };
        match root {
            Some(tok) => {
                proof {
                    assert forall|fi2: int, j2: int|
                        0 <= fi2 < self@.tree.len() && 0 <= j2 < self@.tree[fi2].args.len() implies
                        !((#[trigger] self@.tree[fi2].args[j2]) is ExpressionRef) by {
                        let d2 = self@.tree[fi2].depth;
                        let i2 = self@.tree[fi2].index;
                        assert(flat_index_of(counts, d2, i2) == fi2);
                        assert(rmap.contains_key((d2, i2)));
                        assert(no_ref_args(self@.tree[fi2]));
                    }
                }
                Ok(tok)
            },
            None => {
                proof {
                    assert(false);
                }
                Err(EvalError::UnknownFunction { depth: 0, index: 0 })
            },
        }
    }
}


/// How many parentheses stand open after the first `n` characters.
pub open spec fn paren_balance(s: Seq<char>, n: int) -> int
    decreases n,
{
    if n <= 0 {
        0
    } else {
        paren_balance(s, n - 1) + (if s[n - 1] == '(' {
            1int
        } else if s[n - 1] == ')' {
            -1int
        } else {
            0int
        })
    }
}

/// The greatest number of simultaneously open parentheses within the
/// first `n` characters.
pub open spec fn max_nesting(s: Seq<char>, n: int) -> int
    decreases n,
{
    if n <= 0 {
        0
    } else {
        let m = max_nesting(s, n - 1);
        let b = paren_balance(s, n);
        if b > m {
            b
        } else {
            m
        }
    }
}

/// How the scanner's state tracks the parenthesis count: before the
/// outermost wrapper opens nothing is open; while it is open, the
/// number of open parentheses is one more than the current depth, and
/// the number of depths created equals the deepest nesting seen; after
/// it closes, nothing is open and no deeper nesting follows.
proof fn lemma_run_balance(s: Seq<char>, n: int, st: ParseState)
    requires
        0 <= n,
        parse_run(s, n) == Ok::<ParseState, int>(st),
    ensures
        st.exprs[0].open is None ==> paren_balance(s, n) == 0 && max_nesting(s, n) == 0
            && st.counts.len() == 1,
        (st.exprs[0].open is Some && st.exprs[0].close is None) ==> paren_balance(s, n) == st.depth
            + 1 && max_nesting(s, n) == st.counts.len(),
        st.exprs[0].close is Some ==> paren_balance(s, n) == 0 && max_nesting(s, n)
            == st.counts.len(),
    decreases n,
{
    lemma_run_inv(s, n, st);
    assert(flat_index_of(st.counts, 0, 0) == 0) by {
        assert(st.counts.take(0) =~= Seq::<int>::empty());
    }
    if n == 0 {
        assert(st == init_state());
    } else {
        let st1 = parse_run(s, n - 1)->Ok_0;
        lemma_run_balance(s, n - 1, st1);
        lemma_run_inv(s, n - 1, st1);
        let c = s[n - 1];
        let counts = st1.counts;
        let fi = state_fi(st1);
        assert(0 <= counts_at(counts, st1.depth) - 1 < counts[st1.depth]);
        assert(0 <= fi < st1.exprs.len() && st1.exprs[fi].depth == st1.depth);
        assert(flat_index_of(counts, 0, 0) == 0) by {
            assert(counts.take(0) =~= Seq::<int>::empty());
        }
        let cur = st1.exprs[fi];
        if c == '(' {
            if cur.open is None {
                // the root itself opens: one parenthesis is now open
                assert(fi == 0);
                assert(st.exprs == st1.exprs.update(0, ExprView { open: Some(n - 1), ..cur }));
                assert(st.exprs[0].open is Some && st.exprs[0].close is None);
            } else {
                // a child opens one level deeper
                assert(st1.exprs[0].open is Some && st1.exprs[0].close is None) by {
                    if st1.exprs[0].close is Some {
                        assert(all_closed(st1.exprs));
                    }
                }
                let cd = st1.depth + 1;
                let at = flat_index_of(counts, cd, counts_at(counts, cd));
                assert(at >= 1) by {
                    assert(counts.take(0) =~= Seq::<int>::empty());
                    lemma_sum_take_step(counts, 0);
                    lemma_sum_take_mono(counts, 1, cd);
                }
                let ordinal = counts_at(counts, cd);
                let parent2 = ExprView {
                    args: cur.args.push(TokenView::ExpressionRef(cd, ordinal)),
                    ..cur
                };
                let exprs1 = st1.exprs.update(fi, parent2);
                let child = ExprView {
                    keyword: None,
                    depth: cd,
                    args: Seq::empty(),
                    open: Some(n - 1),
                    close: None,
                    index: ordinal,
                };
                assert(st.exprs == exprs1.insert(at, child));
                lemma_child_bounds(st1);
                exprs1.insert_ensures(at, child);
                assert(st.exprs[0] == exprs1[0]);
                assert(st.exprs[0].open == st1.exprs[0].open && st.exprs[0].close == st1.exprs[
                0].close);
                assert(st.depth == st1.depth + 1);
                if cd < counts.len() {
                    assert(st.counts.len() == counts.len());
                } else {
                    assert(st.counts.len() == counts.len() + 1);
                }
            }
        } else if c == ')' {
            assert(cur.open is Some && cur.close is None);
            assert(st1.exprs[0].open is Some && st1.exprs[0].close is None) by {
                if st1.exprs[0].close is Some {
                    assert(all_closed(st1.exprs));
                }
            }
            assert(st.counts == counts);
            if st1.depth == 0 {
                assert(fi == 0);
                assert(st.exprs[0].close is Some);
            } else {
                assert(fi != 0) by {
                    assert(counts.take(0) =~= Seq::<int>::empty());
                    lemma_sum_take_step(counts, 0);
                    lemma_sum_take_mono(counts, 1, st1.depth);
                }
                assert(st.exprs[0].open is Some && st.exprs[0].close is None);
                assert(st.depth == st1.depth - 1);
            }
        } else if c == ' ' {
            assert(paren_balance(s, n) == paren_balance(s, n - 1));
            if st1.buf.len() == 0 {
                assert(st == st1);
            } else {
                assert(st.exprs[0].open == st1.exprs[0].open && st.exprs[0].close == st1.exprs[
                0].close) by {
                    if fi != 0 {
                        assert(st.exprs[0] == st1.exprs[0]);
                    }
                }
                assert(st.counts == counts && st.depth == st1.depth);
            }
        } else {
            assert(st.exprs == st1.exprs && st.counts == counts && st.depth == st1.depth);
            assert(paren_balance(s, n) == paren_balance(s, n - 1));
        }
    }
}

/// For every text the parser accepts, the depth of the deepest stored
/// expression is exactly one less than the greatest number of
/// simultaneously open parentheses in the text: the outermost form
/// stands at depth zero under one open parenthesis.
pub proof fn lemma_deepest_depth(s: Seq<char>, st: ParseState)
    requires
        parse_result(s) == Ok::<ParseState, int>(st),
    ensures
        forall|fi: int|
            0 <= fi < st.exprs.len() ==> (#[trigger] st.exprs[fi]).depth < max_nesting(
                s,
                s.len() as int,
            ),
        exists|fi: int|
            0 <= fi < st.exprs.len() && (#[trigger] st.exprs[fi]).depth == max_nesting(
                s,
                s.len() as int,
            ) - 1,
{
    let n = s.len() as int;
    assert(parse_run(s, n) == Ok::<ParseState, int>(st) && all_closed(st.exprs));
    lemma_run_inv(s, n, st);
    lemma_run_balance(s, n, st);
    assert(st.exprs.len() >= 1) by {
        if st.counts.len() == 0 {
            assert(sum_counts(st.counts) == 0);
        }
        assert(st.counts.take(0) =~= Seq::<int>::empty());
        lemma_sum_take_step(st.counts, 0);
        lemma_sum_take_mono(st.counts, 1, st.counts.len() as int);
        assert(st.counts.take(st.counts.len() as int) =~= st.counts);
    }
    assert(st.exprs[0].close is Some);
    assert(st.exprs[0].open is Some);
    assert(max_nesting(s, n) == st.counts.len());
    let dmax = st.counts.len() - 1;
    assert(0 <= counts_at(st.counts, dmax) - 1 < st.counts[dmax]);
    assert(0 <= flat_index_of(st.counts, dmax, 0) < st.exprs.len() && st.exprs[flat_index_of(
        st.counts,
        dmax,
        0,
    )].depth == dmax);
}

/// An input that leaves a parenthesis unclosed, at any nesting, never
/// parses: the scan always ends in a syntax failure.
pub proof fn lemma_unbalanced_rejected(s: Seq<char>)
    requires
        paren_balance(s, s.len() as int) != 0,
    ensures
        parse_result(s) is Err,
{
    let n = s.len() as int;
    match parse_run(s, n) {
        Ok(st) => {
            lemma_run_inv(s, n, st);
            lemma_run_balance(s, n, st);
            assert(st.exprs[0].open is Some && st.exprs[0].close is None);
            assert(st.exprs.len() >= 1) by {
                if st.counts.len() == 0 {
                    assert(sum_counts(st.counts) == 0);
                }
                assert(st.counts.take(0) =~= Seq::<int>::empty());
                lemma_sum_take_step(st.counts, 0);
                lemma_sum_take_mono(st.counts, 1, st.counts.len() as int);
                assert(st.counts.take(st.counts.len() as int) =~= st.counts);
            }
            assert(!all_closed(st.exprs));
        },
        Err(p) => {},
    }
}

/// Re-running the parser on identical text always yields a tree with
/// identical coordinates and identical flat ordering: the scan is a
/// function of the text alone.
pub proof fn lemma_parse_deterministic(s: Seq<char>, t1: ParseState, t2: ParseState)
    requires
        parse_result(s) == Ok::<ParseState, int>(t1),
        parse_result(s) == Ok::<ParseState, int>(t2),
    ensures
        t1 == t2,
        forall|fi: int|
            0 <= fi < t1.exprs.len() ==> ((#[trigger] t1.exprs[fi]).depth == t2.exprs[fi].depth
                && t1.exprs[fi].index == t2.exprs[fi].index),
{
}

} // verus!

//! The surface syntax of queries.
//!
//! A query is a list of terms with white space between. A term is a text,
//! or `name:text` for the index of that name. `-` before a term negates it,
//! `~` makes it one of the alternatives of its group, and brackets group
//! terms. A bracket inside a term belongs to the term as long as the term
//! closes it again.

use crate::index::{Term, TermModel};
use crate::query::{Item, Query};
use crate::text::{chars_of, find_char, index_of, is_space, is_whitespace, slice_chars, string_of};
use vstd::prelude::*;

verus! {

/// Why a text is no query.
#[derive(Clone, Copy, Debug, PartialEq, Eq, Structural)]
pub enum ParseError {
    /// A bracket is not closed, or one closes that was not opened.
    UnbalancedParens,
    /// Nothing stands before the colon of a term.
    EmptyIdentifier,
    /// A sign stands where a term should follow.
    EmptyTerm,
}

/// A query over terms as a value of contracts.
pub struct QueryModel {
    pub item: ItemModel,
    pub inverse: bool,
}

/// An item of a query as a value of contracts.
pub enum ItemModel {
    Single(TermModel),
    AndChain(Seq<QueryModel>),
    OrChain(Seq<QueryModel>),
}

/// The models of the queries of `cs`.
pub open spec fn models_of(cs: Seq<Query<Term>>) -> Seq<QueryModel>
    decreases cs,
{
    if cs.len() == 0 {
        Seq::empty()
    } else {
        models_of(cs.drop_last()).push(model_of(cs.last()))
    }
}

/// The model of a query over terms.
pub open spec fn model_of(q: Query<Term>) -> QueryModel
    decreases q,
{
    QueryModel {
        item: match q.item {
            Item::Single(t) => ItemModel::Single(t@),
            Item::AndChain(cs) => ItemModel::AndChain(models_of(cs@)),
            Item::OrChain(cs) => ItemModel::OrChain(models_of(cs@)),
        },
        inverse: q.inverse,
    }
}

/// What the conjunction of the models `cs` denotes.
pub open spec fn model_and_fold(
    cs: Seq<QueryModel>,
    val: spec_fn(TermModel) -> Option<Set<u32>>,
    u: Set<u32>,
) -> Set<u32>
    decreases cs,
{
    if cs.len() == 0 {
        u
    } else {
        crate::query::cut(model_and_fold(cs.drop_last(), val, u), cs.last().denote(val, u))
    }
}

/// What the disjunction of the models `cs` denotes.
pub open spec fn model_or_fold(
    cs: Seq<QueryModel>,
    val: spec_fn(TermModel) -> Option<Set<u32>>,
    u: Set<u32>,
) -> Set<u32>
    decreases cs,
{
    if cs.len() == 0 {
        Set::empty()
    } else {
        crate::query::join(model_or_fold(cs.drop_last(), val, u), cs.last().denote(val, u))
    }
}

/// Whether `pred` holds of every term of every model of `cs`.
pub open spec fn all_terms_of(cs: Seq<QueryModel>, pred: spec_fn(TermModel) -> bool) -> bool
    decreases cs,
{
    forall|i: int| 0 <= i < cs.len() ==> (#[trigger] cs[i]).all_terms(pred)
}

impl QueryModel {
    /// The set the query denotes in the universe `u`, where `val` says what
    /// each term denotes: as for a query tree.
    pub open spec fn denote(self, val: spec_fn(TermModel) -> Option<Set<u32>>, u: Set<u32>) -> Option<
        Set<u32>,
    >
        decreases self,
    {
        match self.item {
            ItemModel::Single(t) => match val(t) {
                Some(s) => Some(crate::query::invert_if(self.inverse, s, u)),
                None => None,
            },
            ItemModel::AndChain(cs) => Some(
                crate::query::invert_if(self.inverse, model_and_fold(cs, val, u), u),
            ),
            ItemModel::OrChain(cs) => Some(
                crate::query::invert_if(self.inverse, model_or_fold(cs, val, u), u),
            ),
        }
    }

    /// Whether `pred` holds of every term of the query.
    pub open spec fn all_terms(self, pred: spec_fn(TermModel) -> bool) -> bool
        decreases self,
    {
        match self.item {
            ItemModel::Single(t) => pred(t),
            ItemModel::AndChain(cs) => all_terms_of(cs, pred),
            ItemModel::OrChain(cs) => all_terms_of(cs, pred),
        }
    }
}

/// The valuation of terms that looks at what a term stands for.
pub open spec fn by_model(val: spec_fn(TermModel) -> Option<Set<u32>>) -> spec_fn(Term) -> Option<
    Set<u32>,
> {
    |t: Term| val(t@)
}

/// The predicate on terms that looks at what a term stands for.
pub open spec fn when_model(pred: spec_fn(TermModel) -> bool) -> spec_fn(Term) -> bool {
    |t: Term| pred(t@)
}

/// A query tree denotes what its model denotes.
pub proof fn lemma_model_denotes(
    q: Query<Term>,
    val: spec_fn(TermModel) -> Option<Set<u32>>,
    u: Set<u32>,
)
    ensures
        q.denote(by_model(val), u) == model_of(q).denote(val, u),
    decreases q,
{
    match q.item {
        Item::Single(t) => {},
        Item::AndChain(cs) => {
            lemma_models_denote(cs@, val, u);
        },
        Item::OrChain(cs) => {
            lemma_models_denote(cs@, val, u);
        },
    }
}

/// Chains of query trees denote what the chains of their models denote.
pub proof fn lemma_models_denote(
    cs: Seq<Query<Term>>,
    val: spec_fn(TermModel) -> Option<Set<u32>>,
    u: Set<u32>,
)
    ensures
        crate::query::and_fold(cs, by_model(val), u) == model_and_fold(models_of(cs), val, u),
        crate::query::or_fold(cs, by_model(val), u) == model_or_fold(models_of(cs), val, u),
    decreases cs,
{
    if cs.len() > 0 {
        lemma_models_denote(cs.drop_last(), val, u);
        lemma_model_denotes(cs.last(), val, u);
        let ms = models_of(cs);
        assert(ms.drop_last() == models_of(cs.drop_last()));
        assert(ms.last() == model_of(cs.last()));
    }
}

/// A predicate holds of the terms of a query tree where it holds of the
/// terms of its model.
pub proof fn lemma_model_terms(q: Query<Term>, pred: spec_fn(TermModel) -> bool)
    ensures
        q.all_atoms(when_model(pred)) == model_of(q).all_terms(pred),
    decreases q,
{
    match q.item {
        Item::Single(t) => {},
        Item::AndChain(cs) => {
            lemma_models_terms(cs@, pred);
        },
        Item::OrChain(cs) => {
            lemma_models_terms(cs@, pred);
        },
    }
}

/// A predicate holds of the terms of query trees where it holds of the
/// terms of their models.
pub proof fn lemma_models_terms(cs: Seq<Query<Term>>, pred: spec_fn(TermModel) -> bool)
    ensures
        crate::query::all_of(cs, when_model(pred)) == all_terms_of(models_of(cs), pred),
    decreases cs,
{
    if cs.len() > 0 {
        let rest = cs.drop_last();
        lemma_models_terms(rest, pred);
        lemma_model_terms(cs.last(), pred);
        let ms = models_of(cs);
        lemma_models_len(cs);
        lemma_models_len(rest);
        assert(ms.drop_last() == models_of(rest));
        assert(ms.last() == model_of(cs.last()));
        crate::query::lemma_all_of_push(rest, cs.last(), when_model(pred));
        assert(cs == rest.push(cs.last()));
        if all_terms_of(ms, pred) {
            assert forall|i: int| 0 <= i < models_of(rest).len() implies (#[trigger] models_of(
                rest,
            )[i]).all_terms(pred) by {
                assert(models_of(rest)[i] == ms[i]);
            }
            assert(ms[ms.len() - 1].all_terms(pred));
        }
        if all_terms_of(models_of(rest), pred) && model_of(cs.last()).all_terms(pred) {
            assert forall|i: int| 0 <= i < ms.len() implies (#[trigger] ms[i]).all_terms(pred) by {
                if i < ms.len() - 1 {
                    assert(ms[i] == models_of(rest)[i]);
                }
            }
        }
    } else {
        assert(models_of(cs).len() == 0);
    }
}

/// The sign before a term or a group.
#[derive(Clone, Copy, Debug, PartialEq, Eq, Structural)]
pub enum Sign {
    Plain,
    Negated,
    Alternative,
}

/// The sign at the position `i` of `s`: a `-` or a `~` that something follows.
pub open spec fn sign_at(s: Seq<char>, i: int) -> Sign {
    if 0 <= i && i + 1 < s.len() && !is_space(s[i + 1]) {
        if s[i] == '-' {
            Sign::Negated
        } else if s[i] == '~' {
            Sign::Alternative
        } else {
            Sign::Plain
        }
    } else {
        Sign::Plain
    }
}

/// The length of the term at the front of `s`, where `depth` brackets of the
/// term are open: up to white space, or to a bracket that closes none of the term.
pub open spec fn body_len(s: Seq<char>, depth: nat) -> int
    decreases s.len(),
{
    if s.len() == 0 || is_space(s[0]) || (s[0] == ')' && depth == 0) {
        0
    } else {
        1 + body_len(
            s.skip(1),
            if s[0] == '(' {
                depth + 1
            } else if s[0] == ')' {
                (depth - 1) as nat
            } else {
                depth
            },
        )
    }
}

/// The term that `body` writes: behind a colon the text, before it the name
/// of the index.
pub open spec fn term_in(body: Seq<char>) -> Result<TermModel, ParseError> {
    let colon = index_of(body, ':');
    if colon >= body.len() {
        Ok(TermModel { ident: None, text: body })
    } else if colon == 0 {
        Err(ParseError::EmptyIdentifier)
    } else {
        Ok(
            TermModel {
                ident: Some(body.subrange(0, colon)),
                text: body.subrange(colon + 1, body.len() as int),
            },
        )
    }
}

/// What a run of terms comes to: the terms that all have to hold, the
/// alternatives, where the run ends, and whether a bracket closed it.
pub struct Run {
    pub all: Seq<QueryModel>,
    pub any: Seq<QueryModel>,
    pub next: int,
    pub closed: bool,
}

/// The query of a group: all of `all`, and one of `any` if there are any.
pub open spec fn group_of(all: Seq<QueryModel>, any: Seq<QueryModel>, inverse: bool) -> QueryModel {
    QueryModel {
        item: ItemModel::AndChain(
            if any.len() > 0 {
                all.push(QueryModel { item: ItemModel::OrChain(any), inverse: false })
            } else {
                all
            },
        ),
        inverse,
    }
}

/// The run with `q` put before it, among the alternatives if its sign says so.
pub open spec fn with_first(q: QueryModel, sign: Sign, rest: Run) -> Run {
    if sign == Sign::Alternative {
        Run { all: rest.all, any: seq![q] + rest.any, next: rest.next, closed: rest.closed }
    } else {
        Run { all: seq![q] + rest.all, any: rest.any, next: rest.next, closed: rest.closed }
    }
}

/// The run of terms of `s` from the position `i` on, up to the end or to
/// the bracket that closes the run.
pub open spec fn run_at(s: Seq<char>, i: int) -> Result<Run, ParseError>
    decreases s.len() - i,
{
    if i < 0 || i >= s.len() {
        Ok(Run { all: Seq::empty(), any: Seq::empty(), next: s.len() as int, closed: false })
    } else if is_space(s[i]) {
        run_at(s, i + 1)
    } else {
        let sign = sign_at(s, i);
        let j = if sign == Sign::Plain {
            i
        } else {
            i + 1
        };
        if s[j] == ')' && sign == Sign::Plain {
            Ok(Run { all: Seq::empty(), any: Seq::empty(), next: j + 1, closed: true })
        } else if s[j] == '(' {
            match run_at(s, j + 1) {
                Err(e) => Err(e),
                Ok(group) => if !group.closed || group.next <= i || group.next > s.len() {
                    Err(ParseError::UnbalancedParens)
                } else {
                    match run_at(s, group.next) {
                        Err(e) => Err(e),
                        Ok(rest) => Ok(
                            with_first(
                                group_of(group.all, group.any, sign == Sign::Negated),
                                sign,
                                rest,
                            ),
                        ),
                    }
                },
            }
        } else {
            let n = body_len(s.skip(j), 0);
            if n <= 0 || j + n > s.len() {
                Err(ParseError::EmptyTerm)
            } else {
                match term_in(s.subrange(j, j + n)) {
                    Err(e) => Err(e),
                    Ok(t) => match run_at(s, j + n) {
                        Err(e) => Err(e),
                        Ok(rest) => Ok(
                            with_first(
                                QueryModel {
                                    item: ItemModel::Single(t),
                                    inverse: sign == Sign::Negated,
                                },
                                sign,
                                rest,
                            ),
                        ),
                    },
                }
            }
        }
    }
}

/// The query that `s` writes.
pub open spec fn query_in(s: Seq<char>) -> Result<QueryModel, ParseError> {
    match run_at(s, 0) {
        Err(e) => Err(e),
        Ok(run) => if run.closed {
            Err(ParseError::UnbalancedParens)
        } else {
            Ok(group_of(run.all, run.any, false))
        },
    }
}

/// The models of a list with a query put before it.
pub proof fn lemma_models_prepend(q: Query<Term>, rest: Seq<Query<Term>>)
    ensures
        models_of(seq![q] + rest) == seq![model_of(q)] + models_of(rest),
    decreases rest.len(),
{
    let whole = seq![q] + rest;
    if rest.len() == 0 {
        assert(whole.drop_last() == Seq::<Query<Term>>::empty());
        assert(whole.last() == q);
        assert(models_of(whole.drop_last()) == Seq::<QueryModel>::empty());
        assert(Seq::<QueryModel>::empty().push(model_of(q)) == seq![model_of(q)] + models_of(rest));
    } else {
        assert(whole.drop_last() == seq![q] + rest.drop_last());
        assert(whole.last() == rest.last());
        lemma_models_prepend(q, rest.drop_last());
        assert((seq![model_of(q)] + models_of(rest.drop_last())).push(model_of(rest.last()))
            == seq![model_of(q)] + models_of(rest));
    }
}

/// There are as many models as queries.
pub proof fn lemma_models_len(cs: Seq<Query<Term>>)
    ensures
        models_of(cs).len() == cs.len(),
    decreases cs.len(),
{
    if cs.len() > 0 {
        lemma_models_len(cs.drop_last());
    }
}

/// A term does not reach beyond the text.
pub proof fn lemma_body_len_bounds(s: Seq<char>, depth: nat)
    ensures
        0 <= body_len(s, depth) <= s.len(),
    decreases s.len(),
{
    if !(s.len() == 0 || is_space(s[0]) || (s[0] == ')' && depth == 0)) {
        lemma_body_len_bounds(
            s.skip(1),
            if s[0] == '(' {
                depth + 1
            } else if s[0] == ')' {
                (depth - 1) as nat
            } else {
                depth
            },
        );
    }
}

/// The end of the term that starts at the position `j` of `s`.
fn body_end(s: &Vec<char>, j: usize) -> (e: usize)
    requires
        j <= s@.len(),
    ensures
        j <= e <= s@.len(),
        e == j + body_len(s@.skip(j as int), 0),
{
    let n = s.len();
    let mut k: usize = j;
    let mut depth: usize = 0;
    loop
        invariant
            j <= k <= n,
            n == s@.len(),
            depth <= k - j,
            body_len(s@.skip(j as int), 0) == (k - j) + body_len(s@.skip(k as int), depth as nat),
        decreases n - k,
    {
        let ghost rest = s@.skip(k as int);
        if k == n {
            assert(rest.len() == 0);
            return k;
        }
        let c = s[k];
        proof {
            assert(rest[0] == c);
            assert(rest.skip(1) == s@.skip(k + 1));
        }
        if is_whitespace(c) || (c == ')' && depth == 0) {
            return k;
        }
        if c == '(' {
            depth += 1;
        } else if c == ')' {
            depth -= 1;
        }
        k += 1;
    }
}

/// The term that the characters at `j..e` of `s` write.
fn make_term(s: &Vec<char>, j: usize, e: usize) -> (r: Result<Term, ParseError>)
    requires
        j <= e <= s@.len(),
    ensures
        match r {
            Ok(t) => term_in(s@.subrange(j as int, e as int)) == Ok::<TermModel, ParseError>(t@),
            Err(err) => term_in(s@.subrange(j as int, e as int)) == Err::<TermModel, ParseError>(err),
        },
{
    let ghost body = s@.subrange(j as int, e as int);
    let colon = find_char(s, j, e, ':');
    if colon >= e {
        let text = string_of(&slice_chars(s, j, e));
        Ok(Term { ident: None, text })
    } else if colon == j {
        Err(ParseError::EmptyIdentifier)
    } else {
        let ident = string_of(&slice_chars(s, j, colon));
        let text = string_of(&slice_chars(s, colon + 1, e));
        proof {
            assert(body.subrange(0, colon - j) == s@.subrange(j as int, colon as int));
            assert(body.subrange(colon - j + 1, body.len() as int) == s@.subrange(
                colon + 1,
                e as int,
            ));
        }
        Ok(Term { ident: Some(ident), text })
    }
}

/// The query of a group.
fn make_group(all: Vec<Query<Term>>, any: Vec<Query<Term>>, inverse: bool) -> (q: Query<Term>)
    ensures
        model_of(q) == group_of(models_of(all@), models_of(any@), inverse),
{
    let ghost all0 = all@;
    let ghost any0 = any@;
    let mut list = all;
    proof {
        lemma_models_len(any0);
    }
    if any.len() > 0 {
        let alt = Query { item: Item::OrChain(any), inverse: false };
        proof {
            assert(model_of(alt) == QueryModel {
                item: ItemModel::OrChain(models_of(any0)),
                inverse: false,
            });
        }
        list.push(alt);
        proof {
            assert(list@.drop_last() == all0);
            assert(list@.last() == alt);
            assert(models_of(list@) == models_of(all0).push(model_of(alt)));
        }
    }
    let q = Query { item: Item::AndChain(list), inverse };
    proof {
        assert(model_of(q) == QueryModel { item: ItemModel::AndChain(models_of(list@)), inverse });
    }
    q
}

/// A run of terms as the parser hands it out.
struct RunOut {
    all: Vec<Query<Term>>,
    any: Vec<Query<Term>>,
    next: usize,
    closed: bool,
}

impl RunOut {
    spec fn model(self) -> Run {
        Run {
            all: models_of(self.all@),
            any: models_of(self.any@),
            next: self.next as int,
            closed: self.closed,
        }
    }
}

/// The run `rest` with `q` put before it.
fn put_first(q: Query<Term>, sign: Sign, rest: RunOut) -> (r: RunOut)
    ensures
        r.model() == with_first(model_of(q), sign, rest.model()),
        r.next == rest.next,
        r.closed == rest.closed,
{
    let mut rest = rest;
    let ghost all0 = rest.all@;
    let ghost any0 = rest.any@;
    let alternative = match sign {
        Sign::Alternative => true,
        _ => false,
    };
    if alternative {
        proof {
            lemma_models_prepend(q, any0);
        }
        rest.any.insert(0, q);
        assert(rest.any@ == seq![q] + any0);
    } else {
        proof {
            lemma_models_prepend(q, all0);
        }
        rest.all.insert(0, q);
        assert(rest.all@ == seq![q] + all0);
    }
    rest
}

/// Reads the run of terms of `s` from the position `i` on.
fn parse_run(s: &Vec<char>, i: usize) -> (r: Result<RunOut, ParseError>)
    requires
        i <= s@.len(),
    ensures
        match r {
            Ok(o) => run_at(s@, i as int) == Ok::<Run, ParseError>(o.model()) && i <= o.next
                <= s@.len() && (o.closed ==> i < o.next),
            Err(e) => run_at(s@, i as int) == Err::<Run, ParseError>(e),
        },
    decreases s@.len() - i,
{
    let n = s.len();
    if i >= n {
        let o = RunOut { all: Vec::new(), any: Vec::new(), next: n, closed: false };
        return Ok(o);
    }
    if is_whitespace(s[i]) {
        return parse_run(s, i + 1);
    }
    let c = s[i];
    let signed = i + 1 < n && !is_whitespace(s[i + 1]) && (c == '-' || c == '~');
    let sign = if !signed {
        Sign::Plain
    } else if c == '-' {
        Sign::Negated
    } else {
        Sign::Alternative
    };
    let j = if signed {
        i + 1
    } else {
        i
    };
    let negated = signed && c == '-';
    if s[j] == ')' && !signed {
        let o = RunOut { all: Vec::new(), any: Vec::new(), next: j + 1, closed: true };
        return Ok(o);
    }
    if s[j] == '(' {
        let group = match parse_run(s, j + 1) {
            Err(e) => {
                return Err(e);
            },
            Ok(group) => group,
        };
        if !group.closed {
            return Err(ParseError::UnbalancedParens);
        }
        let at = group.next;
        let q = make_group(group.all, group.any, negated);
        let rest = match parse_run(s, at) {
            Err(e) => {
                return Err(e);
            },
            Ok(rest) => rest,
        };
        return Ok(put_first(q, sign, rest));
    }
    let e = body_end(s, j);
    proof {
        lemma_body_len_bounds(s@.skip(j as int), 0);
    }
    if e == j {
        return Err(ParseError::EmptyTerm);
    }
    let t = match make_term(s, j, e) {
        Err(err) => {
            return Err(err);
        },
        Ok(t) => t,
    };
    let q = Query { item: Item::Single(t), inverse: negated };
    let rest = match parse_run(s, e) {
        Err(err) => {
            return Err(err);
        },
        Ok(rest) => rest,
    };
    Ok(put_first(q, sign, rest))
}

impl Query<Term> {
    /// Reads a query.
    pub fn parse(text: &str) -> (r: Result<Query<Term>, ParseError>)
        ensures
            match r {
                Ok(q) => query_in(text@) == Ok::<QueryModel, ParseError>(model_of(q)),
                Err(e) => query_in(text@) == Err::<QueryModel, ParseError>(e),
            },
    {
        let s = chars_of(text);
        match parse_run(&s, 0) {
            Err(e) => Err(e),
            Ok(run) => {
                if run.closed {
                    Err(ParseError::UnbalancedParens)
                } else {
                    Ok(make_group(run.all, run.any, false))
                }
            },
        }
    }
}

} // verus!

//! The field binder: consumes the residual input cursor against an ordered
//! field specification, producing the bound record or the first indexed
//! error (fail-fast, no backtracking).
//!
//! A bound record mirrors the field specification entry for entry: every
//! positional, defaulted and trail slot holds its value, while a flag slot
//! holds its value only when the flag was seen.

use vstd::prelude::*;
use vstd::slice::slice_index_get;
use vstd::slice::slice_subrange;
use crate::convert::convert_spec;
use crate::convert::parse_value;
use crate::convert::FieldTy;
use crate::convert::Value;
use crate::convert::ValueModel;
use crate::error::expected_model;
use crate::error::invalid_flag_model;
use crate::error::parse_model;
use crate::error::renderable;
use crate::error::unexpected_model;
use crate::error::ArgType;
use crate::error::ErrorType;
use crate::error::InternalError;
use crate::error::InternalErrorModel;
use crate::error::ParseErr;
use crate::tables::DefaultSpec;
use crate::tables::Extras;
use crate::tables::FieldSpec;
use crate::tables::FlagKind;
use crate::tables::FlagSpec;
use crate::text::chars_to_string;
use crate::tokens::cursor_tokens;
use crate::tokens::head_tok;
use crate::tokens::is_trimmed;
use crate::tokens::lemma_token_rest_shrinks;
use crate::tokens::lemma_trim_props;
use crate::tokens::lemma_trim_trimmed;
use crate::tokens::next_token;
use crate::tokens::opt_len;
use crate::tokens::opt_of;
use crate::tokens::token_rest;

verus! {

/// The configuration choice for defaulted fields: whether substituting a
/// declared default still advances the dispatch index, keeping slot
/// numbering stable, exactly as if the value had been read from input.
#[derive(Debug, Clone, Copy, PartialEq, Eq, Structural)]
pub struct BindConfig {
    pub advance_index_on_default: bool,
}

impl Default for BindConfig {
    /// By default a substituted default still advances the index.
    fn default() -> (r: Self)
        ensures
            r.advance_index_on_default == true,
    {
        BindConfig { advance_index_on_default: true }
    }
}

/// The specification-level record of a vector of bindings.
pub open spec fn models_of(s: Seq<Option<Value>>) -> Seq<Option<ValueModel>> {
    s.map_values(
        |o: Option<Value>|
            match o {
                Some(v) => Some(v@),
                None => None,
            },
    )
}

/// The outcome of one binding phase that can leave input behind: the bound
/// slots, the residual cursor, and the advanced index.
pub type PhaseResult = Result<(Seq<Option<ValueModel>>, Option<Seq<char>>, int), InternalErrorModel>;

/// The outcome of binding a whole field specification: the bound record
/// and the final index.
pub type BindResult = Result<(Seq<Option<ValueModel>>, int), InternalErrorModel>;

/// Binding the positional fields: each one takes the next token and
/// converts it, failing `Expected` when the input has run out and `Parse`
/// when conversion fails, with the index of the slot being filled.
pub open spec fn bind_positionals(
    tys: Seq<FieldTy>,
    input: Option<Seq<char>>,
    ws: Seq<char>,
    index: int,
) -> PhaseResult
    decreases tys.len(),
{
    if tys.len() == 0 {
        Ok((Seq::empty(), input, index))
    } else {
        match input {
            None => Err(expected_model(index, ArgType::Arg)),
            Some(s) => {
                let tok = head_tok(s, ws);
                let rest = token_rest(s, ws);
                match convert_spec(tys[0], tok) {
                    None => Err(parse_model(index, tok, ArgType::Arg)),
                    Some(v) => match bind_positionals(tys.skip(1), rest, ws, index + 1) {
                        Ok((vs, inp, idx)) => Ok((seq![Some(v)] + vs, inp, idx)),
                        Err(e) => Err(e),
                    },
                }
            },
        }
    }
}

/// Binding the defaulted fields: like positional binding while input
/// remains; once it has run out, every remaining field takes its declared
/// default, and the index still advances when the configuration says so.
pub open spec fn bind_defaults(
    ds: Seq<DefaultSpec>,
    input: Option<Seq<char>>,
    ws: Seq<char>,
    index: int,
    advance_on_default: bool,
) -> PhaseResult
    decreases ds.len(),
{
    if ds.len() == 0 {
        Ok((Seq::empty(), input, index))
    } else {
        match input {
            None => {
                let idx2 = if advance_on_default {
                    index + 1
                } else {
                    index
                };
                match bind_defaults(ds.skip(1), None, ws, idx2, advance_on_default) {
                    Ok((vs, inp, idx)) => Ok((seq![Some(ds[0].value@)] + vs, inp, idx)),
                    Err(e) => Err(e),
                }
            },
            Some(s) => {
                let tok = head_tok(s, ws);
                let rest = token_rest(s, ws);
                match convert_spec(ds[0].ty, tok) {
                    None => Err(parse_model(index, tok, ArgType::Arg)),
                    Some(v) => match bind_defaults(
                        ds.skip(1),
                        rest,
                        ws,
                        index + 1,
                        advance_on_default,
                    ) {
                        Ok((vs, inp, idx)) => Ok((seq![Some(v)] + vs, inp, idx)),
                        Err(e) => Err(e),
                    },
                }
            },
        }
    }
}

/// The starting accumulator for the flag group: every flag unseen.
pub open spec fn empty_flags_acc(n: nat) -> Seq<Option<ValueModel>> {
    Seq::new(n, |i: int| None)
}

/// Whether a token is a flag marker: it begins with `--`.
pub open spec fn flag_marker(tok: Seq<char>) -> bool {
    tok.len() >= 2 && tok[0] == '-' && tok[1] == '-'
}

/// The position of the first declared flag with the given name, or the
/// number of flags when there is none.
pub open spec fn find_flag(fl: Seq<FlagSpec>, name: Seq<char>) -> int
    decreases fl.len(),
{
    if fl.len() == 0 {
        0
    } else if fl[0].name@ == name {
        0
    } else {
        1 + find_flag(fl.skip(1), name)
    }
}

/// Binding the flag group: tokens are consumed while input remains; each
/// must be a flag marker naming a declared flag, in any order.  A trigger
/// flag is set by presence; a value flag consumes and converts the next
/// token.  Each consumed token advances the index by one.
pub open spec fn bind_flags(
    fl: Seq<FlagSpec>,
    input: Option<Seq<char>>,
    ws: Seq<char>,
    index: int,
    acc: Seq<Option<ValueModel>>,
) -> BindResult
    decreases opt_len(input),
    via bind_flags_decreases
{
    match input {
        None => Ok((acc, index)),
        Some(s) => {
            let tok = head_tok(s, ws);
            let rest = token_rest(s, ws);
            if !flag_marker(tok) {
                Err(unexpected_model(index, tok))
            } else {
                let name = tok.skip(2);
                let fi = find_flag(fl, name);
                if fi >= fl.len() {
                    Err(invalid_flag_model(index, name))
                } else {
                    match fl[fi].kind {
                        FlagKind::Trigger => bind_flags(
                            fl,
                            rest,
                            ws,
                            index + 1,
                            acc.update(fi, Some(ValueModel::Trigger)),
                        ),
                        FlagKind::Value(ty) => match rest {
                            None => Err(expected_model(index + 1, ArgType::Flag)),
                            Some(s2) => {
                                let tok2 = head_tok(s2, ws);
                                let rest2 = token_rest(s2, ws);
                                match convert_spec(ty, tok2) {
                                    None => Err(parse_model(index + 1, tok2, ArgType::Arg)),
                                    Some(v) => bind_flags(
                                        fl,
                                        rest2,
                                        ws,
                                        index + 2,
                                        acc.update(fi, Some(v)),
                                    ),
                                }
                            },
                        },
                    }
                }
            }
        },
    }
}

#[via_fn]
proof fn bind_flags_decreases(
    fl: Seq<FlagSpec>,
    input: Option<Seq<char>>,
    ws: Seq<char>,
    index: int,
    acc: Seq<Option<ValueModel>>,
) {
    match input {
        None => {},
        Some(s) => {
            lemma_token_rest_shrinks(s, ws);
            match token_rest(s, ws) {
                None => {},
                Some(s2) => {
                    lemma_token_rest_shrinks(s2, ws);
                },
            }
        },
    }
}

/// The token list of a cursor.
pub open spec fn opt_tokens(input: Option<Seq<char>>, ws: Seq<char>) -> Seq<Seq<char>> {
    match input {
        None => Seq::empty(),
        Some(s) => cursor_tokens(s, ws),
    }
}

/// Flag binding over a plain token list: the same state machine as
/// `bind_flags`, freed of the cursor plumbing.
pub open spec fn bind_flags_toks(
    fl: Seq<FlagSpec>,
    toks: Seq<Seq<char>>,
    index: int,
    acc: Seq<Option<ValueModel>>,
) -> BindResult
    decreases toks.len(),
{
    if toks.len() == 0 {
        Ok((acc, index))
    } else {
        let tok = toks[0];
        if !flag_marker(tok) {
            Err(unexpected_model(index, tok))
        } else {
            let name = tok.skip(2);
            let fi = find_flag(fl, name);
            if fi >= fl.len() {
                Err(invalid_flag_model(index, name))
            } else {
                match fl[fi].kind {
                    FlagKind::Trigger => bind_flags_toks(
                        fl,
                        toks.skip(1),
                        index + 1,
                        acc.update(fi, Some(ValueModel::Trigger)),
                    ),
                    FlagKind::Value(ty) => if toks.len() == 1 {
                        Err(expected_model(index + 1, ArgType::Flag))
                    } else {
                        match convert_spec(ty, toks[1]) {
                            None => Err(parse_model(index + 1, toks[1], ArgType::Arg)),
                            Some(v) => bind_flags_toks(
                                fl,
                                toks.skip(2),
                                index + 2,
                                acc.update(fi, Some(v)),
                            ),
                        }
                    },
                }
            }
        }
    }
}

/// Binding the flag group over a cursor is binding it over the cursor's
/// token list: the cursor plumbing adds nothing.
pub proof fn lemma_bind_flags_by_tokens(
    fl: Seq<FlagSpec>,
    input: Option<Seq<char>>,
    ws: Seq<char>,
    index: int,
    acc: Seq<Option<ValueModel>>,
)
    requires
        (match input {
            None => true,
            Some(s) => is_trimmed(s, ws) && s.len() > 0,
        }),
    ensures
        bind_flags(fl, input, ws, index, acc) == bind_flags_toks(
            fl,
            opt_tokens(input, ws),
            index,
            acc,
        ),
    decreases opt_len(input),
{
    match input {
        None => {
            assert(opt_tokens(input, ws) =~= Seq::<Seq<char>>::empty());
        },
        Some(s) => {
            crate::tokens::lemma_cursor_tokens_step(s, ws);
            lemma_token_rest_shrinks(s, ws);
            let toks = opt_tokens(input, ws);
            let tok = head_tok(s, ws);
            let rest = token_rest(s, ws);
            assert(toks[0] == tok);
            assert(toks.skip(1) =~= opt_tokens(rest, ws));
            if flag_marker(tok) {
                let fi = find_flag(fl, tok.skip(2));
                if fi < fl.len() {
                    match fl[fi].kind {
                        FlagKind::Trigger => {
                            lemma_bind_flags_by_tokens(
                                fl,
                                rest,
                                ws,
                                index + 1,
                                acc.update(fi, Some(ValueModel::Trigger)),
                            );
                        },
                        FlagKind::Value(ty) => {
                            match rest {
                                None => {
                                    assert(toks.len() == 1);
                                },
                                Some(s2) => {
                                    crate::tokens::lemma_cursor_tokens_step(s2, ws);
                                    lemma_token_rest_shrinks(s2, ws);
                                    let tok2 = head_tok(s2, ws);
                                    let rest2 = token_rest(s2, ws);
                                    assert(toks.len() >= 2);
                                    assert(toks[1] == cursor_tokens(s2, ws)[0]);
                                    assert(toks[1] == tok2);
                                    assert(toks.skip(2) =~= opt_tokens(rest2, ws));
                                    match convert_spec(ty, tok2) {
                                        None => {},
                                        Some(v) => {
                                            lemma_bind_flags_by_tokens(
                                                fl,
                                                rest2,
                                                ws,
                                                index + 2,
                                                acc.update(fi, Some(v)),
                                            );
                                        },
                                    }
                                },
                            }
                        },
                    }
                }
            }
        },
    }
}

/// One complete occurrence of a flag in the input: the marker token of a
/// trigger flag, or the marker and its converting value token for a value
/// flag.  `fi` is the flag it names and `value` what it assigns.
pub struct FlagOccModel {
    pub fi: int,
    pub toks: Seq<Seq<char>>,
    pub value: ValueModel,
}

/// Whether `g` really is a complete occurrence of flag `g.fi` of `fl`.
pub open spec fn occ_wf(fl: Seq<FlagSpec>, g: FlagOccModel) -> bool {
    &&& 0 <= g.fi < fl.len()
    &&& g.toks.len() >= 1
    &&& flag_marker(g.toks[0])
    &&& find_flag(fl, g.toks[0].skip(2)) == g.fi
    &&& (match fl[g.fi].kind {
        FlagKind::Trigger => g.toks.len() == 1 && g.value == ValueModel::Trigger,
        FlagKind::Value(ty) => g.toks.len() == 2 && convert_spec(ty, g.toks[1]) == Some(g.value),
    })
}

/// The tokens of a sequence of occurrences, in order.
pub open spec fn occs_toks(gs: Seq<FlagOccModel>) -> Seq<Seq<char>>
    decreases gs.len(),
{
    if gs.len() == 0 {
        Seq::empty()
    } else {
        gs[0].toks + occs_toks(gs.skip(1))
    }
}

/// Flag order independence: when the flag tokens form complete occurrences
/// of pairwise distinct flags, binding succeeds, the index advances once
/// per token, and each flag ends at the value its own occurrence assigns
/// while every other flag keeps its starting state - a statement that does
/// not depend on the order in which the occurrences stand.
pub proof fn lemma_flag_order_independence(
    fl: Seq<FlagSpec>,
    gs: Seq<FlagOccModel>,
    index: int,
    acc: Seq<Option<ValueModel>>,
)
    requires
        forall|i: int| 0 <= i < gs.len() ==> occ_wf(fl, #[trigger] gs[i]),
        forall|i: int, j: int| 0 <= i < j < gs.len() ==> gs[i].fi != gs[j].fi,
        acc.len() == fl.len(),
    ensures
        bind_flags_toks(fl, occs_toks(gs), index, acc) is Ok,
        bind_flags_toks(fl, occs_toks(gs), index, acc)->Ok_0.1 == index + occs_toks(gs).len(),
        bind_flags_toks(fl, occs_toks(gs), index, acc)->Ok_0.0.len() == fl.len(),
        forall|j: int|
            0 <= j < fl.len() && (forall|i: int| 0 <= i < gs.len() ==> (#[trigger] gs[i]).fi != j)
                ==> bind_flags_toks(fl, occs_toks(gs), index, acc)->Ok_0.0[j] == acc[j],
        forall|i: int|
            0 <= i < gs.len() ==> bind_flags_toks(fl, occs_toks(gs), index, acc)->Ok_0.0[(
            #[trigger] gs[i]).fi] == Some(gs[i].value),
    decreases gs.len(),
{
    if gs.len() == 0 {
        assert(occs_toks(gs).len() == 0);
    } else {
        let g = gs[0];
        assert(occ_wf(fl, g));
        let toks = occs_toks(gs);
        let rest_toks = occs_toks(gs.skip(1));
        assert(toks == g.toks + rest_toks);
        assert(toks[0] == g.toks[0]);
        let acc2 = acc.update(g.fi, Some(g.value));
        assert forall|i: int| 0 <= i < gs.skip(1).len() implies occ_wf(
            fl,
            #[trigger] gs.skip(1)[i],
        ) by {
            assert(gs.skip(1)[i] == gs[i + 1]);
        }
        assert forall|i: int, j: int|
            0 <= i < j < gs.skip(1).len() implies gs.skip(1)[i].fi != gs.skip(1)[j].fi by {
            assert(gs.skip(1)[i] == gs[i + 1]);
            assert(gs.skip(1)[j] == gs[j + 1]);
        }
        assert forall|i: int| 0 <= i < gs.skip(1).len() implies (#[trigger] gs.skip(1)[i]).fi
            != g.fi by {
            assert(gs.skip(1)[i] == gs[i + 1]);
        }
        match fl[g.fi].kind {
            FlagKind::Trigger => {
                assert(toks.skip(1) =~= rest_toks);
                lemma_flag_order_independence(fl, gs.skip(1), index + 1, acc2);
                assert(bind_flags_toks(fl, toks, index, acc) == bind_flags_toks(
                    fl,
                    rest_toks,
                    index + 1,
                    acc2,
                ));
            },
            FlagKind::Value(ty) => {
                assert(toks[1] == g.toks[1]);
                assert(toks.len() >= 2);
                assert(toks.skip(2) =~= rest_toks);
                lemma_flag_order_independence(fl, gs.skip(1), index + 2, acc2);
                assert(bind_flags_toks(fl, toks, index, acc) == bind_flags_toks(
                    fl,
                    rest_toks,
                    index + 2,
                    acc2,
                ));
            },
        }
        let r = bind_flags_toks(fl, toks, index, acc);
        assert(r is Ok);
        assert forall|j: int|
            0 <= j < fl.len() && (forall|i: int| 0 <= i < gs.len() ==> (#[trigger] gs[i]).fi != j)
                implies r->Ok_0.0[j] == acc[j] by {
            assert(gs[0].fi != j);
            assert forall|i: int| 0 <= i < gs.skip(1).len() implies (#[trigger] gs.skip(1)[i]).fi
                != j by {
                assert(gs.skip(1)[i] == gs[i + 1]);
            }
            assert(acc2[j] == acc[j]);
        }
        assert forall|i: int| 0 <= i < gs.len() implies r->Ok_0.0[(#[trigger] gs[i]).fi] == Some(
            gs[i].value,
        ) by {
            if i == 0 {
                assert(acc2[g.fi] == Some(g.value));
                assert forall|m: int|
                    0 <= m < gs.skip(1).len() implies (#[trigger] gs.skip(1)[m]).fi != g.fi by {
                    assert(gs.skip(1)[m] == gs[m + 1]);
                }
                assert(r->Ok_0.0[g.fi] == acc2[g.fi]);
            } else {
                assert(gs.skip(1)[i - 1] == gs[i]);
            }
        }
    }
}

/// Flag order independence at the cursor level: when the residual input
/// tokenizes into complete occurrences of pairwise distinct flags, the
/// flag group binds successfully, the index advances once per token, and
/// each flag ends at the value its own occurrence assigns - in whatever
/// order the occurrences stand in the input.
pub proof fn lemma_bind_flags_order_independent(
    fl: Seq<FlagSpec>,
    input: Option<Seq<char>>,
    ws: Seq<char>,
    index: int,
    acc: Seq<Option<ValueModel>>,
    gs: Seq<FlagOccModel>,
)
    requires
        (match input {
            None => true,
            Some(s) => is_trimmed(s, ws) && s.len() > 0,
        }),
        opt_tokens(input, ws) == occs_toks(gs),
        forall|i: int| 0 <= i < gs.len() ==> occ_wf(fl, #[trigger] gs[i]),
        forall|i: int, j: int| 0 <= i < j < gs.len() ==> gs[i].fi != gs[j].fi,
        acc.len() == fl.len(),
    ensures
        bind_flags(fl, input, ws, index, acc) is Ok,
        bind_flags(fl, input, ws, index, acc)->Ok_0.1 == index + occs_toks(gs).len(),
        bind_flags(fl, input, ws, index, acc)->Ok_0.0.len() == fl.len(),
        forall|j: int|
            0 <= j < fl.len() && (forall|i: int| 0 <= i < gs.len() ==> (#[trigger] gs[i]).fi != j)
                ==> bind_flags(fl, input, ws, index, acc)->Ok_0.0[j] == acc[j],
        forall|i: int|
            0 <= i < gs.len() ==> bind_flags(fl, input, ws, index, acc)->Ok_0.0[(
            #[trigger] gs[i]).fi] == Some(gs[i].value),
{
    lemma_bind_flags_by_tokens(fl, input, ws, index, acc);
    lemma_flag_order_independence(fl, gs, index, acc);
}

/// The text a trail field absorbs: the whole residual cursor, verbatim, or
/// the empty text when nothing remains.
pub open spec fn trail_text(input: Option<Seq<char>>) -> Seq<char> {
    match input {
        None => Seq::empty(),
        Some(s) => s,
    }
}

/// Binding a whole field specification: positional fields in order, then
/// the extras group, then the check that no input is left over (unless a
/// trail field absorbed it).
pub open spec fn bind_spec(
    fs: FieldSpec,
    input: Option<Seq<char>>,
    ws: Seq<char>,
    index: int,
    advance_on_default: bool,
) -> BindResult {
    match bind_positionals(fs.positionals@, input, ws, index) {
        Err(e) => Err(e),
        Ok((vs, inp, idx)) => match fs.extras {
            Extras::Exact => (match inp {
                None => Ok((vs, idx)),
                Some(s) => Err(unexpected_model(idx, head_tok(s, ws))),
            }),
            Extras::Defaults(ds) => (match bind_defaults(ds@, inp, ws, idx, advance_on_default) {
                Err(e) => Err(e),
                Ok((vs2, inp2, idx2)) => match inp2 {
                    None => Ok((vs + vs2, idx2)),
                    Some(s) => Err(unexpected_model(idx2, head_tok(s, ws))),
                },
            }),
            Extras::Flags(fl) => (match bind_flags(fl@, inp, ws, idx, empty_flags_acc(fl@.len())) {
                Ok((fvs, idx2)) => Ok((vs + fvs, idx2)),
                Err(e) => Err(e),
            }),
            Extras::Trail(ty) => (match convert_spec(ty, trail_text(inp)) {
                None => Err(parse_model(idx, trail_text(inp), ArgType::Arg)),
                Some(v) => Ok((vs.push(Some(v)), idx)),
            }),
        },
    }
}

/// When every field of a specification with no trailing group has been
/// bound and input still remains, the bind fails as `Unexpected`, carrying
/// the next token and the index it stands at.
pub proof fn lemma_unexpected_after_exact(
    fs: FieldSpec,
    input: Option<Seq<char>>,
    ws: Seq<char>,
    index: int,
    advance_on_default: bool,
)
    requires
        fs.extras is Exact,
        bind_positionals(fs.positionals@, input, ws, index) is Ok,
        bind_positionals(fs.positionals@, input, ws, index)->Ok_0.1 is Some,
    ensures
        bind_spec(fs, input, ws, index, advance_on_default) == Err::<
            (Seq<Option<ValueModel>>, int),
            InternalErrorModel,
        >(
            unexpected_model(
                bind_positionals(fs.positionals@, input, ws, index)->Ok_0.2,
                head_tok(bind_positionals(fs.positionals@, input, ws, index)->Ok_0.1->0, ws),
            ),
        ),
{
}

/// The same residual-input law for a specification that ends in defaulted
/// fields: once they too are bound, a remaining token fails the bind as
/// `Unexpected`.
pub proof fn lemma_unexpected_after_defaults(
    fs: FieldSpec,
    input: Option<Seq<char>>,
    ws: Seq<char>,
    index: int,
    advance_on_default: bool,
)
    requires
        fs.extras is Defaults,
        bind_positionals(fs.positionals@, input, ws, index) is Ok,
        bind_defaults(
            fs.extras->Defaults_0@,
            bind_positionals(fs.positionals@, input, ws, index)->Ok_0.1,
            ws,
            bind_positionals(fs.positionals@, input, ws, index)->Ok_0.2,
            advance_on_default,
        ) is Ok,
        bind_defaults(
            fs.extras->Defaults_0@,
            bind_positionals(fs.positionals@, input, ws, index)->Ok_0.1,
            ws,
            bind_positionals(fs.positionals@, input, ws, index)->Ok_0.2,
            advance_on_default,
        )->Ok_0.1 is Some,
    ensures
        bind_spec(fs, input, ws, index, advance_on_default) == Err::<
            (Seq<Option<ValueModel>>, int),
            InternalErrorModel,
        >(
            unexpected_model(
                bind_defaults(
                    fs.extras->Defaults_0@,
                    bind_positionals(fs.positionals@, input, ws, index)->Ok_0.1,
                    ws,
                    bind_positionals(fs.positionals@, input, ws, index)->Ok_0.2,
                    advance_on_default,
                )->Ok_0.2,
                head_tok(
                    bind_defaults(
                        fs.extras->Defaults_0@,
                        bind_positionals(fs.positionals@, input, ws, index)->Ok_0.1,
                        ws,
                        bind_positionals(fs.positionals@, input, ws, index)->Ok_0.2,
                        advance_on_default,
                    )->Ok_0.1->0,
                    ws,
                ),
            ),
        ),
{
}

/// On success the positional phase advances the dispatch index exactly
/// once per field and fills exactly one slot per field.
pub proof fn lemma_positional_index_advance(
    tys: Seq<FieldTy>,
    input: Option<Seq<char>>,
    ws: Seq<char>,
    index: int,
)
    requires
        bind_positionals(tys, input, ws, index) is Ok,
    ensures
        bind_positionals(tys, input, ws, index)->Ok_0.2 == index + tys.len(),
        bind_positionals(tys, input, ws, index)->Ok_0.0.len() == tys.len(),
    decreases tys.len(),
{
    if tys.len() > 0 {
        match input {
            None => {},
            Some(s) => {
                match convert_spec(tys[0], head_tok(s, ws)) {
                    None => {},
                    Some(v) => {
                        lemma_positional_index_advance(
                            tys.skip(1),
                            token_rest(s, ws),
                            ws,
                            index + 1,
                        );
                    },
                }
            },
        }
    }
}

/// Every error of the positional phase renders to a message.
proof fn lemma_positionals_err_renderable(
    tys: Seq<FieldTy>,
    input: Option<Seq<char>>,
    ws: Seq<char>,
    index: int,
)
    ensures
        (bind_positionals(tys, input, ws, index) matches Err(e) ==> renderable(e.variant)),
    decreases tys.len(),
{
    if tys.len() > 0 {
        match input {
            None => {},
            Some(s) => {
                match convert_spec(tys[0], head_tok(s, ws)) {
                    None => {},
                    Some(v) => {
                        lemma_positionals_err_renderable(
                            tys.skip(1),
                            token_rest(s, ws),
                            ws,
                            index + 1,
                        );
                    },
                }
            },
        }
    }
}

/// Every error of the defaulted phase renders to a message.
proof fn lemma_defaults_err_renderable(
    ds: Seq<DefaultSpec>,
    input: Option<Seq<char>>,
    ws: Seq<char>,
    index: int,
    advance_on_default: bool,
)
    ensures
        (bind_defaults(ds, input, ws, index, advance_on_default) matches Err(e) ==> renderable(
            e.variant,
        )),
    decreases ds.len(),
{
    if ds.len() > 0 {
        match input {
            None => {
                let idx2 = if advance_on_default {
                    index + 1
                } else {
                    index
                };
                lemma_defaults_err_renderable(ds.skip(1), None, ws, idx2, advance_on_default);
            },
            Some(s) => {
                match convert_spec(ds[0].ty, head_tok(s, ws)) {
                    None => {},
                    Some(v) => {
                        lemma_defaults_err_renderable(
                            ds.skip(1),
                            token_rest(s, ws),
                            ws,
                            index + 1,
                            advance_on_default,
                        );
                    },
                }
            },
        }
    }
}

/// Every error of the flag phase renders to a message.
proof fn lemma_flags_err_renderable(
    fl: Seq<FlagSpec>,
    input: Option<Seq<char>>,
    ws: Seq<char>,
    index: int,
    acc: Seq<Option<ValueModel>>,
)
    ensures
        (bind_flags(fl, input, ws, index, acc) matches Err(e) ==> renderable(e.variant)),
    decreases opt_len(input),
{
    match input {
        None => {},
        Some(s) => {
            lemma_token_rest_shrinks(s, ws);
            let tok = head_tok(s, ws);
            let rest = token_rest(s, ws);
            if flag_marker(tok) {
                let fi = find_flag(fl, tok.skip(2));
                if fi < fl.len() {
                    match fl[fi].kind {
                        FlagKind::Trigger => {
                            lemma_flags_err_renderable(
                                fl,
                                rest,
                                ws,
                                index + 1,
                                acc.update(fi, Some(ValueModel::Trigger)),
                            );
                        },
                        FlagKind::Value(ty) => {
                            match rest {
                                None => {},
                                Some(s2) => {
                                    lemma_token_rest_shrinks(s2, ws);
                                    match convert_spec(ty, head_tok(s2, ws)) {
                                        None => {},
                                        Some(v) => {
                                            lemma_flags_err_renderable(
                                                fl,
                                                token_rest(s2, ws),
                                                ws,
                                                index + 2,
                                                acc.update(fi, Some(v)),
                                            );
                                        },
                                    }
                                },
                            }
                        },
                    }
                }
            }
        },
    }
}

/// Every error the binder reports renders to a message: a failed
/// conversion is only ever reported about an argument, never about a flag
/// marker.
pub proof fn lemma_bind_err_renderable(
    fs: FieldSpec,
    input: Option<Seq<char>>,
    ws: Seq<char>,
    index: int,
    advance_on_default: bool,
)
    ensures
        (bind_spec(fs, input, ws, index, advance_on_default) matches Err(e) ==> renderable(
            e.variant,
        )),
{
    lemma_positionals_err_renderable(fs.positionals@, input, ws, index);
    match bind_positionals(fs.positionals@, input, ws, index) {
        Err(e) => {},
        Ok((vs, inp, idx)) => {
            match fs.extras {
                Extras::Exact => {},
                Extras::Defaults(ds) => {
                    lemma_defaults_err_renderable(ds@, inp, ws, idx, advance_on_default);
                },
                Extras::Flags(fl) => {
                    lemma_flags_err_renderable(fl@, inp, ws, idx, empty_flags_acc(fl@.len()));
                },
                Extras::Trail(ty) => {},
            }
        },
    }
}

/// Any position with the first-match property is `find_flag`.
proof fn lemma_find_flag_at(fl: Seq<FlagSpec>, name: Seq<char>, k: int)
    requires
        0 <= k <= fl.len(),
        forall|j: int| 0 <= j < k ==> (#[trigger] fl[j]).name@ != name,
        k < fl.len() ==> fl[k].name@ == name,
    ensures
        find_flag(fl, name) == k,
    decreases k,
{
    if k == 0 {
    } else {
        assert(fl[0].name@ != name);
        assert forall|j: int| 0 <= j < k - 1 implies (#[trigger] fl.skip(1)[j]).name@ != name by {
            assert(fl.skip(1)[j] == fl[j + 1]);
        }
        assert(k - 1 < fl.skip(1).len() ==> fl.skip(1)[k - 1].name@ == name) by {
            if k - 1 < fl.skip(1).len() {
                assert(fl.skip(1)[k - 1] == fl[k]);
            }
        }
        lemma_find_flag_at(fl.skip(1), name, k - 1);
    }
}

fn bind_positionals_exec<'a>(tys: &[FieldTy], cursor: &'a [char], ws: &[char], index: usize) -> (r:
    Result<(Vec<Option<Value>>, &'a [char], usize), InternalError>)
    requires
        is_trimmed(cursor@, ws@),
        index + cursor@.len() <= usize::MAX,
    ensures
        (match r {
            Ok((vs, rest, idx)) => {
                &&& bind_positionals(tys@, opt_of(cursor@), ws@, index as int) == Ok::<
                    _,
                    InternalErrorModel,
                >((models_of(vs@), opt_of(rest@), idx as int))
                &&& is_trimmed(rest@, ws@)
                &&& idx + rest@.len() <= index + cursor@.len()
            },
            Err(e) => bind_positionals(tys@, opt_of(cursor@), ws@, index as int) == Err::<
                (Seq<Option<ValueModel>>, Option<Seq<char>>, int),
                _,
            >(e@),
        }),
    decreases tys@.len(),
{
    if tys.len() == 0 {
        let vs: Vec<Option<Value>> = Vec::new();
        assert(models_of(vs@) =~= Seq::<Option<ValueModel>>::empty());
        return Ok((vs, cursor, index));
    }
    if cursor.len() == 0 {
        return Err(InternalError { index, variant: ErrorType::Expected(ArgType::Arg) });
    }
    proof {
        lemma_trim_trimmed(cursor@, ws@);
    }
    match next_token(cursor, ws) {
        None => {
            proof {
                assert(false);
            }
            Err(InternalError { index, variant: ErrorType::Expected(ArgType::Arg) })
        },
        Some((tok, rest)) => {
            proof {
                lemma_token_rest_shrinks(cursor@, ws@);
                match token_rest(cursor@, ws@) {
                    Some(rs) => {
                        lemma_trim_props(cursor@.skip(
                            crate::tokens::token_len(cursor@, ws@) as int + 1,
                        ), ws@);
                    },
                    None => {},
                }
            }
            assert(is_trimmed(rest@, ws@));
            assert(rest@.len() < cursor@.len());
            let ty = *slice_index_get(tys, 0);
            match parse_value(ty, tok) {
                None => Err(
                    InternalError {
                        index,
                        variant: ErrorType::Parse(
                            ParseErr { arg: chars_to_string(tok), parse_type: ArgType::Arg },
                        ),
                    },
                ),
                Some(v) => {
                    let sub = slice_subrange(tys, 1, tys.len());
                    assert(sub@ =~= tys@.skip(1));
                    match bind_positionals_exec(sub, rest, ws, index + 1) {
                        Err(e) => Err(e),
                        Ok((mut vs, rest2, idx)) => {
                            let ghost old_vs = vs@;
                            vs.insert(0, Some(v));
                            assert(models_of(vs@) =~= seq![Some(v@)] + models_of(old_vs));
                            Ok((vs, rest2, idx))
                        },
                    }
                },
            }
        },
    }
}

fn bind_defaults_exec<'a>(
    ds: &[DefaultSpec],
    cursor: &'a [char],
    ws: &[char],
    index: usize,
    advance_on_default: bool,
) -> (r: Result<(Vec<Option<Value>>, &'a [char], usize), InternalError>)
    requires
        is_trimmed(cursor@, ws@),
        index + cursor@.len() + ds@.len() <= usize::MAX,
    ensures
        (match r {
            Ok((vs, rest, idx)) => {
                &&& bind_defaults(ds@, opt_of(cursor@), ws@, index as int, advance_on_default)
                    == Ok::<_, InternalErrorModel>((models_of(vs@), opt_of(rest@), idx as int))
                &&& is_trimmed(rest@, ws@)
                &&& idx + rest@.len() <= index + cursor@.len() + ds@.len()
            },
            Err(e) => bind_defaults(ds@, opt_of(cursor@), ws@, index as int, advance_on_default)
                == Err::<(Seq<Option<ValueModel>>, Option<Seq<char>>, int), _>(e@),
        }),
    decreases ds@.len(),
{
    if ds.len() == 0 {
        let vs: Vec<Option<Value>> = Vec::new();
        assert(models_of(vs@) =~= Seq::<Option<ValueModel>>::empty());
        return Ok((vs, cursor, index));
    }
    if cursor.len() == 0 {
        let first = &ds[0];
        let v = first.value.duplicate();
        let idx2 = if advance_on_default {
            index + 1
        } else {
            index
        };
        let sub = slice_subrange(ds, 1, ds.len());
        assert(sub@ =~= ds@.skip(1));
        match bind_defaults_exec(sub, cursor, ws, idx2, advance_on_default) {
            Err(e) => Err(e),
            Ok((mut vs, rest2, idx)) => {
                let ghost old_vs = vs@;
                vs.insert(0, Some(v));
                assert(models_of(vs@) =~= seq![Some(ds@[0].value@)] + models_of(old_vs));
                Ok((vs, rest2, idx))
            },
        }
    } else {
        proof {
            lemma_trim_trimmed(cursor@, ws@);
        }
        match next_token(cursor, ws) {
            None => {
                proof {
                    assert(false);
                }
                Err(InternalError { index, variant: ErrorType::Expected(ArgType::Arg) })
            },
            Some((tok, rest)) => {
                proof {
                    lemma_token_rest_shrinks(cursor@, ws@);
                    match token_rest(cursor@, ws@) {
                        Some(rs) => {
                            lemma_trim_props(cursor@.skip(
                                crate::tokens::token_len(cursor@, ws@) as int + 1,
                            ), ws@);
                        },
                        None => {},
                    }
                }
                assert(is_trimmed(rest@, ws@));
                assert(rest@.len() < cursor@.len());
                let ty = ds[0].ty;
                match parse_value(ty, tok) {
                    None => Err(
                        InternalError {
                            index,
                            variant: ErrorType::Parse(
                                ParseErr { arg: chars_to_string(tok), parse_type: ArgType::Arg },
                            ),
                        },
                    ),
                    Some(v) => {
                        let sub = slice_subrange(ds, 1, ds.len());
                        assert(sub@ =~= ds@.skip(1));
                        match bind_defaults_exec(sub, rest, ws, index + 1, advance_on_default) {
                            Err(e) => Err(e),
                            Ok((mut vs, rest2, idx)) => {
                                let ghost old_vs = vs@;
                                vs.insert(0, Some(v));
                                assert(models_of(vs@) =~= seq![Some(v@)] + models_of(old_vs));
                                Ok((vs, rest2, idx))
                            },
                        }
                    },
                }
            },
        }
    }
}

fn find_flag_exec(fl: &Vec<FlagSpec>, name: &[char]) -> (fi: usize)
    ensures
        fi == find_flag(fl@, name@),
        fi <= fl@.len(),
        fi < fl@.len() ==> fl@[fi as int].name@ == name@,
{
    let n = fl.len();
    let mut i: usize = 0;
    loop
        invariant
            0 <= i <= n,
            n == fl@.len(),
            forall|j: int| 0 <= j < i ==> (#[trigger] fl@[j]).name@ != name@,
        ensures
            0 <= i <= n,
            n == fl@.len(),
            forall|j: int| 0 <= j < i ==> (#[trigger] fl@[j]).name@ != name@,
            i < n ==> fl@[i as int].name@ == name@,
        decreases n - i,
    {
        if i == n {
            break ;
        }
        if crate::tokens::slice_eq(fl[i].name.as_slice(), name) {
            break ;
        }
        i += 1;
    }
    proof {
        lemma_find_flag_at(fl@, name@, i as int);
    }
    i
}

fn bind_flags_exec(
    fl: &Vec<FlagSpec>,
    cursor: &[char],
    ws: &[char],
    index: usize,
    acc: Vec<Option<Value>>,
) -> (r: Result<(Vec<Option<Value>>, usize), InternalError>)
    requires
        is_trimmed(cursor@, ws@),
        index + cursor@.len() <= usize::MAX,
        acc@.len() == fl@.len(),
    ensures
        (match r {
            Ok((vs, idx)) => bind_flags(fl@, opt_of(cursor@), ws@, index as int, models_of(acc@))
                == Ok::<_, InternalErrorModel>((models_of(vs@), idx as int)),
            Err(e) => bind_flags(fl@, opt_of(cursor@), ws@, index as int, models_of(acc@))
                == Err::<(Seq<Option<ValueModel>>, int), _>(e@),
        }),
    decreases cursor@.len(),
{
    if cursor.len() == 0 {
        return Ok((acc, index));
    }
    proof {
        lemma_trim_trimmed(cursor@, ws@);
    }
    match next_token(cursor, ws) {
        None => {
            proof {
                assert(false);
            }
            Ok((acc, index))
        },
        Some((tok, rest)) => {
            proof {
                lemma_token_rest_shrinks(cursor@, ws@);
                match token_rest(cursor@, ws@) {
                    Some(rs) => {
                        lemma_trim_props(cursor@.skip(
                            crate::tokens::token_len(cursor@, ws@) as int + 1,
                        ), ws@);
                    },
                    None => {},
                }
            }
            assert(is_trimmed(rest@, ws@));
            assert(rest@.len() < cursor@.len());
            let is_marker = tok.len() >= 2 && *slice_index_get(tok, 0) == '-' && *slice_index_get(
                tok,
                1,
            ) == '-';
            if !is_marker {
                assert(!flag_marker(tok@));
                return Err(
                    InternalError {
                        index,
                        variant: ErrorType::Unexpected(chars_to_string(tok)),
                    },
                );
            }
            assert(flag_marker(tok@));
            let name = slice_subrange(tok, 2, tok.len());
            assert(name@ =~= tok@.skip(2));
            let fi = find_flag_exec(fl, name);
            if fi == fl.len() {
                return Err(
                    InternalError {
                        index,
                        variant: ErrorType::InvalidFlag(chars_to_string(name)),
                    },
                );
            }
            match fl[fi].kind {
                FlagKind::Trigger => {
                    let mut acc2 = acc;
                    let ghost old_acc = acc2@;
                    if fi < acc2.len() {
                        acc2.set(fi, Some(Value::Trigger));
                    } else {
                        proof {
                            assert(false);
                        }
                    }
                    assert(models_of(acc2@) =~= models_of(old_acc).update(
                        fi as int,
                        Some(ValueModel::Trigger),
                    ));
                    bind_flags_exec(fl, rest, ws, index + 1, acc2)
                },
                FlagKind::Value(ty) => {
                    if rest.len() == 0 {
                        return Err(
                            InternalError {
                                index: index + 1,
                                variant: ErrorType::Expected(ArgType::Flag),
                            },
                        );
                    }
                    proof {
                        lemma_trim_trimmed(rest@, ws@);
                    }
                    match next_token(rest, ws) {
                        None => {
                            proof {
                                assert(false);
                            }
                            Ok((acc, index))
                        },
                        Some((tok2, rest2)) => {
                            proof {
                                lemma_token_rest_shrinks(rest@, ws@);
                                match token_rest(rest@, ws@) {
                                    Some(rs) => {
                                        lemma_trim_props(rest@.skip(
                                            crate::tokens::token_len(rest@, ws@) as int + 1,
                                        ), ws@);
                                    },
                                    None => {},
                                }
                            }
                            assert(is_trimmed(rest2@, ws@));
                            assert(rest2@.len() < rest@.len());
                            match parse_value(ty, tok2) {
                                None => Err(
                                    InternalError {
                                        index: index + 1,
                                        variant: ErrorType::Parse(
                                            ParseErr {
                                                arg: chars_to_string(tok2),
                                                parse_type: ArgType::Arg,
                                            },
                                        ),
                                    },
                                ),
                                Some(v) => {
                                    let ghost vm = v@;
                                    let mut acc2 = acc;
                                    let ghost old_acc = acc2@;
                                    if fi < acc2.len() {
                                        acc2.set(fi, Some(v));
                                    } else {
                                        proof {
                                            assert(false);
                                        }
                                    }
                                    assert(models_of(acc2@) =~= models_of(old_acc).update(
                                        fi as int,
                                        Some(vm),
                                    ));
                                    bind_flags_exec(fl, rest2, ws, index + 2, acc2)
                                },
                            }
                        },
                    }
                },
            }
        },
    }
}

/// Binds the residual input against a field specification.  On success the
/// record mirrors the specification slot for slot and the returned index
/// has advanced once past every consumed token (and, when configured so,
/// every substituted default); on failure the first error is returned with
/// the index of the slot at fault, and nothing else is observable.
pub fn bind_fields(
    fs: &FieldSpec,
    cursor: &[char],
    ws: &[char],
    index: usize,
    cfg: BindConfig,
) -> (r: Result<(Vec<Option<Value>>, usize), InternalError>)
    requires
        fs.wf(),
        is_trimmed(cursor@, ws@),
        index + cursor@.len() + fs.spare_slots() <= usize::MAX,
    ensures
        (match r {
            Ok((vs, idx)) => bind_spec(
                *fs,
                opt_of(cursor@),
                ws@,
                index as int,
                cfg.advance_index_on_default,
            ) == Ok::<_, InternalErrorModel>((models_of(vs@), idx as int)),
            Err(e) => bind_spec(
                *fs,
                opt_of(cursor@),
                ws@,
                index as int,
                cfg.advance_index_on_default,
            ) == Err::<(Seq<Option<ValueModel>>, int), _>(e@),
        }),
{
    let (mut vs, rest, idx) = match bind_positionals_exec(
        fs.positionals.as_slice(),
        cursor,
        ws,
        index,
    ) {
        Err(e) => {
            return Err(e);
        },
        Ok(t) => t,
    };
    match &fs.extras {
        Extras::Exact => {
            if rest.len() == 0 {
                Ok((vs, idx))
            } else {
                proof {
                    lemma_trim_trimmed(rest@, ws@);
                }
                match next_token(rest, ws) {
                    None => {
                        proof {
                            assert(false);
                        }
                        Ok((vs, idx))
                    },
                    Some((tok, _)) => Err(
                        InternalError {
                            index: idx,
                            variant: ErrorType::Unexpected(chars_to_string(tok)),
                        },
                    ),
                }
            }
        },
        Extras::Defaults(ds) => {
            match bind_defaults_exec(
                ds.as_slice(),
                rest,
                ws,
                idx,
                cfg.advance_index_on_default,
            ) {
                Err(e) => Err(e),
                Ok((mut vs2, rest2, idx2)) => {
                    if rest2.len() == 0 {
                        let ghost vm = models_of(vs@);
                        let ghost vm2 = models_of(vs2@);
                        vs.append(&mut vs2);
                        assert(models_of(vs@) =~= vm + vm2);
                        Ok((vs, idx2))
                    } else {
                        proof {
                            lemma_trim_trimmed(rest2@, ws@);
                        }
                        match next_token(rest2, ws) {
                            None => {
                                proof {
                                    assert(false);
                                }
                                Ok((vs, idx2))
                            },
                            Some((tok, _)) => Err(
                                InternalError {
                                    index: idx2,
                                    variant: ErrorType::Unexpected(chars_to_string(tok)),
                                },
                            ),
                        }
                    }
                },
            }
        },
        Extras::Flags(fl) => {
            let mut acc: Vec<Option<Value>> = Vec::new();
            let n = fl.len();
            let mut i: usize = 0;
            while i < n
                invariant
                    0 <= i <= n,
                    acc@.len() == i,
                    forall|j: int| 0 <= j < i ==> acc@[j] is None,
                decreases n - i,
            {
                acc.push(None);
                i += 1;
            }
            assert(models_of(acc@) =~= empty_flags_acc(fl@.len()));
            match bind_flags_exec(fl, rest, ws, idx, acc) {
                Err(e) => Err(e),
                Ok((mut fvs, idx2)) => {
                    let ghost vm = models_of(vs@);
                    let ghost fm = models_of(fvs@);
                    vs.append(&mut fvs);
                    assert(models_of(vs@) =~= vm + fm);
                    Ok((vs, idx2))
                },
            }
        },
        Extras::Trail(ty) => {
            proof {
                assert(trail_text(opt_of(rest@)) =~= rest@);
            }
            match parse_value(*ty, rest) {
                None => Err(
                    InternalError {
                        index: idx,
                        variant: ErrorType::Parse(
                            ParseErr { arg: chars_to_string(rest), parse_type: ArgType::Arg },
                        ),
                    },
                ),
                Some(v) => {
                    let ghost vm = models_of(vs@);
                    let ghost vv = v@;
                    vs.push(Some(v));
                    assert(models_of(vs@) =~= vm.push(Some(vv)));
                    Ok((vs, idx))
                },
            }
        },
    }
}

} // verus!
